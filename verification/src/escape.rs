//! Delimited text: the contents of strings and arrays.
//!
//! Text ends at the first delimiter that no escape byte precedes. An escape byte stands for
//! nothing itself and makes the byte behind it data, whatever that byte is.

use bytes::{Bytes, BytesMut};
use vstd::prelude::*;

use crate::buf::{bytes_contents, bytes_mut_contents, bytes_mut_limit, put_u8};
use crate::constants::ESCAPE;

verus! {

/// Whether `s` ends in an escape byte that still waits for the byte it escapes.
pub open spec fn dangling(s: Seq<u8>) -> bool
    decreases s.len(),
{
    s.len() > 0 && s.last() == ESCAPE && !dangling(s.drop_last())
}

/// Whether no byte of `s` closes text that is delimited by `end`.
pub open spec fn text_open(s: Seq<u8>, end: u8) -> bool
    decreases s.len(),
{
    s.len() == 0 || (text_open(s.drop_last(), end) && !(s.last() == end && !dangling(
        s.drop_last(),
    )))
}

/// The data that the text `s` stands for.
pub open spec fn unescape(s: Seq<u8>) -> Seq<u8>
    decreases s.len(),
{
    if s.len() == 0 {
        Seq::empty()
    } else if s.last() == ESCAPE && !dangling(s.drop_last()) {
        unescape(s.drop_last())
    } else {
        unescape(s.drop_last()).push(s.last())
    }
}

/// The text that stands for the data `s` and is delimited by `end`.
pub open spec fn escape(s: Seq<u8>, end: u8) -> Seq<u8>
    decreases s.len(),
{
    if s.len() == 0 {
        Seq::empty()
    } else if s.last() == end || s.last() == ESCAPE {
        escape(s.drop_last(), end).push(ESCAPE).push(s.last())
    } else {
        escape(s.drop_last(), end).push(s.last())
    }
}

/// Whether the text at the start of `t` is closed by the byte at `k`.
pub open spec fn closes_at(t: Seq<u8>, end: u8, k: int) -> bool {
    &&& 0 <= k < t.len()
    &&& text_open(t.take(k), end)
    &&& !dangling(t.take(k))
    &&& t[k] == end
}

/// Where the text at the start of `t` is closed.
pub open spec fn text_end(t: Seq<u8>, end: u8) -> Option<int> {
    if exists|k: int| closes_at(t, end, k) {
        Some(choose|k: int| closes_at(t, end, k))
    } else {
        None
    }
}

/// What one more byte does to text.
pub proof fn lemma_text_push(s: Seq<u8>, b: u8, end: u8)
    ensures
        dangling(s.push(b)) == (b == ESCAPE && !dangling(s)),
        text_open(s.push(b), end) == (text_open(s, end) && !(b == end && !dangling(s))),
        unescape(s.push(b)) == if b == ESCAPE && !dangling(s) {
            unescape(s)
        } else {
            unescape(s).push(b)
        },
{
    assert(s.push(b).drop_last() =~= s);
}

/// Text that is open stays open when it is cut short.
pub proof fn lemma_text_open_prefix(s: Seq<u8>, end: u8, k: int)
    requires
        text_open(s, end),
        0 <= k <= s.len(),
    ensures
        text_open(s.take(k), end),
    decreases s.len(),
{
    if k == s.len() {
        assert(s.take(k) =~= s);
    } else {
        lemma_text_open_prefix(s.drop_last(), end, k);
        assert(s.drop_last().take(k) =~= s.take(k));
    }
}

/// Text that is open throughout is closed nowhere.
pub proof fn lemma_open_never_closes(t: Seq<u8>, end: u8, k: int)
    requires
        text_open(t, end),
    ensures
        !closes_at(t, end, k),
{
    if closes_at(t, end, k) {
        lemma_text_open_prefix(t, end, k + 1);
        assert(t.take(k + 1) =~= t.take(k).push(t[k]));
        lemma_text_push(t.take(k), t[k], end);
    }
}

/// Text is closed by one byte only.
pub proof fn lemma_closes_once(t: Seq<u8>, end: u8, j: int, k: int)
    requires
        closes_at(t, end, j),
        closes_at(t, end, k),
    ensures
        j == k,
{
    if j < k {
        lemma_open_never_closes(t.take(k), end, j);
        assert(t.take(k).take(j) =~= t.take(j));
    } else if k < j {
        lemma_open_never_closes(t.take(j), end, k);
        assert(t.take(j).take(k) =~= t.take(k));
    }
}

/// What follows the closing byte has no say in where it is.
pub proof fn lemma_closes_extend(t: Seq<u8>, u: Seq<u8>, end: u8, k: int)
    requires
        0 <= k < t.len(),
    ensures
        closes_at(t, end, k) == closes_at(t + u, end, k),
{
    assert((t + u).take(k) =~= t.take(k));
}

/// The end of text is where it is closed, and nowhere where it is open throughout.
pub proof fn lemma_text_end(t: Seq<u8>, end: u8)
    ensures
        forall|k: int| closes_at(t, end, k) ==> text_end(t, end) == Some(k),
        text_end(t, end) is None <==> !(exists|k: int| closes_at(t, end, k)),
        text_end(t, end) matches Some(k) ==> closes_at(t, end, k),
        text_open(t, end) ==> text_end(t, end) is None,
{
    assert forall|k: int| closes_at(t, end, k) implies text_end(t, end) == Some(k) by {
        lemma_closes_once(t, end, k, text_end(t, end)->0);
    }
    if text_open(t, end) {
        assert forall|k: int| !closes_at(t, end, k) by {
            lemma_open_never_closes(t, end, k);
        }
    }
}

/// Text behind text: where the first part does not end in a waiting escape byte, the second
/// part means what it means by itself.
pub proof fn lemma_text_concat(a: Seq<u8>, b: Seq<u8>, end: u8)
    requires
        !dangling(a),
    ensures
        dangling(a + b) == dangling(b),
        unescape(a + b) == unescape(a) + unescape(b),
        text_open(a + b, end) == (text_open(a, end) && text_open(b, end)),
    decreases b.len(),
{
    if b.len() == 0 {
        assert(a + b =~= a);
        assert(unescape(a) + unescape(b) =~= unescape(a));
    } else {
        lemma_text_concat(a, b.drop_last(), end);
        assert((a + b).drop_last() =~= a + b.drop_last());
        assert(unescape(a + b) =~= unescape(a) + unescape(b));
    }
}

/// Text is never shorter than its data.
pub proof fn lemma_unescape_len(s: Seq<u8>)
    ensures
        unescape(s).len() <= s.len(),
    decreases s.len(),
{
    if s.len() > 0 {
        lemma_unescape_len(s.drop_last());
    }
}

/// Escaping is undone by unescaping, and keeps the delimiter out of the text: whatever the data
/// holds, the text is closed by the delimiter behind it and stands for the data.
pub proof fn escape_round_trip(s: Seq<u8>, end: u8, rest: Seq<u8>)
    requires
        end != ESCAPE,
    ensures
        unescape(escape(s, end)) == s,
        text_end(escape(s, end).push(end) + rest, end) == Some(escape(s, end).len() as int),
{
    lemma_escape(s, end);
    let e = escape(s, end);
    let t = e.push(end) + rest;
    assert(t.take(e.len() as int) =~= e);
    assert(closes_at(t, end, e.len() as int));
    lemma_text_end(t, end);
}

/// Escaped data is open text, without a waiting escape byte, that stands for the data.
pub proof fn lemma_escape(s: Seq<u8>, end: u8)
    requires
        end != ESCAPE,
    ensures
        text_open(escape(s, end), end),
        !dangling(escape(s, end)),
        unescape(escape(s, end)) == s,
    decreases s.len(),
{
    if s.len() > 0 {
        lemma_escape(s.drop_last(), end);
        let e = escape(s.drop_last(), end);
        lemma_text_push(e, ESCAPE, end);
        lemma_text_push(e.push(ESCAPE), s.last(), end);
        lemma_text_push(e, s.last(), end);
        assert(s.drop_last().push(s.last()) =~= s);
    }
}

/// An escape byte, if one waits.
pub open spec fn waiting(escaped: bool) -> Seq<u8> {
    if escaped {
        seq![ESCAPE]
    } else {
        Seq::empty()
    }
}

/// Where text that goes on with `s` is closed; `escaped` says whether an escape byte waits in
/// front of `s`.
#[verifier::opaque]
pub open spec fn tail_end(escaped: bool, s: Seq<u8>, end: u8) -> Option<int> {
    match text_end(waiting(escaped) + s, end) {
        Some(k) => Some(k - waiting(escaped).len()),
        None => None,
    }
}

/// An escape byte that waits is open text.
pub proof fn lemma_waiting(escaped: bool, end: u8)
    requires
        end != ESCAPE || !escaped,
    ensures
        text_open(waiting(escaped), end),
        dangling(waiting(escaped)) == escaped,
{
    if escaped {
        lemma_text_push(Seq::empty(), ESCAPE, end);
        assert(waiting(escaped) =~= Seq::<u8>::empty().push(ESCAPE));
    }
}

/// Where no escape byte waits, text is closed where it is closed by itself.
pub proof fn lemma_tail_start(s: Seq<u8>, end: u8)
    ensures
        tail_end(false, s, end) == text_end(s, end),
{
    reveal(tail_end);
    assert(waiting(false) + s =~= s);
}

/// Where an escape byte closes text, none waits in text that is open.
pub proof fn lemma_open_escape(s: Seq<u8>, end: u8)
    requires
        text_open(s, end),
    ensures
        end != ESCAPE || !dangling(s),
{
}

/// Text goes on in the same way behind two beginnings that are both open, or both not, and that
/// both end in a waiting escape byte, or both do not.
pub proof fn lemma_text_resume(a: Seq<u8>, b: Seq<u8>, s: Seq<u8>, end: u8)
    requires
        text_open(a, end) == text_open(b, end),
        dangling(a) == dangling(b),
    ensures
        text_open(a + s, end) == text_open(b + s, end),
        dangling(a + s) == dangling(b + s),
    decreases s.len(),
{
    if s.len() == 0 {
        assert(a + s =~= a);
        assert(b + s =~= b);
    } else {
        lemma_text_resume(a, b, s.drop_last(), end);
        assert((a + s).drop_last() =~= a + s.drop_last());
        assert((b + s).drop_last() =~= b + s.drop_last());
    }
}

proof fn lemma_closes_behind(a: Seq<u8>, b: Seq<u8>, s: Seq<u8>, end: u8, j: int)
    requires
        text_open(a, end),
        text_open(b, end),
        dangling(a) == dangling(b),
        closes_at(a + s, end, a.len() + j),
    ensures
        0 <= j < s.len(),
        closes_at(b + s, end, b.len() + j),
{
    if j < 0 {
        lemma_closes_extend(a, s, end, a.len() + j);
        lemma_open_never_closes(a, end, a.len() + j);
    }
    lemma_text_resume(a, b, s.take(j), end);
    assert((a + s).take(a.len() + j) =~= a + s.take(j));
    assert((b + s).take(b.len() + j) =~= b + s.take(j));
}

/// Where text is closed behind an open beginning depends, of the beginning, only on whether it
/// ends in a waiting escape byte.
pub proof fn lemma_tail_end(a: Seq<u8>, s: Seq<u8>, end: u8)
    requires
        text_open(a, end),
    ensures
        text_end(a + s, end) == match tail_end(dangling(a), s, end) {
            Some(k) => Some(a.len() + k),
            None => None,
        },
        tail_end(dangling(a), s, end) matches Some(k) ==> 0 <= k < s.len(),
{
    reveal(tail_end);
    let w = waiting(dangling(a));
    lemma_open_escape(a, end);
    lemma_waiting(dangling(a), end);
    lemma_text_end(a + s, end);
    lemma_text_end(w + s, end);
    if let Some(k) = text_end(w + s, end) {
        lemma_closes_behind(w, a, s, end, k - w.len());
    }
    if let Some(k) = text_end(a + s, end) {
        lemma_closes_behind(a, w, s, end, k - a.len());
    }
}

/// Where text is closed that goes on behind `s`, which does not close it.
pub proof fn lemma_tail_resume(escaped: bool, s: Seq<u8>, more: Seq<u8>, end: u8)
    requires
        text_open(waiting(escaped) + s, end),
    ensures
        tail_end(escaped, s + more, end) == match tail_end(
            dangling(waiting(escaped) + s),
            more,
            end,
        ) {
            Some(k) => Some(s.len() + k),
            None => None,
        },
        tail_end(dangling(waiting(escaped) + s), more, end) matches Some(k) ==> 0 <= k
            < more.len(),
{
    reveal(tail_end);
    let a = waiting(escaped) + s;
    lemma_tail_end(a, more, end);
    assert(waiting(escaped) + (s + more) == a + more);
}

/// Text is closed inside the bytes there are, and what follows them has no say in where.
pub proof fn lemma_tail_extend(escaped: bool, s: Seq<u8>, more: Seq<u8>, end: u8)
    requires
        end != ESCAPE || !escaped,
    ensures
        tail_end(escaped, s, end) matches Some(k) ==> 0 <= k < s.len() && tail_end(
            escaped,
            s + more,
            end,
        ) == Some(k),
{
    reveal(tail_end);
    let w = waiting(escaped);
    lemma_waiting(escaped, end);
    lemma_text_end(w + s, end);
    lemma_text_end(w + (s + more), end);
    if let Some(k) = text_end(w + s, end) {
        lemma_closes_behind(w, w, s, end, k - w.len());
        lemma_closes_extend(w + s, more, end, k);
        assert((w + s) + more == w + (s + more));
        assert(closes_at(w + (s + more), end, k));
    }
}

/// Text that is closed nowhere is open.
pub proof fn lemma_tail_none(escaped: bool, s: Seq<u8>, end: u8)
    requires
        tail_end(escaped, s, end) is None,
        end != ESCAPE || !escaped,
    ensures
        text_open(waiting(escaped) + s, end),
    decreases s.len(),
{
    let w = waiting(escaped);
    lemma_waiting(escaped, end);
    if s.len() == 0 {
        assert(w + s =~= w);
    } else {
        let t = s.drop_last();
        assert(t + seq![s.last()] =~= s);
        lemma_tail_extend(escaped, t, seq![s.last()], end);
        lemma_tail_none(escaped, t, end);
        lemma_text_push(w + t, s.last(), end);
        assert((w + t).push(s.last()) =~= w + s);
        if s.last() == end && !dangling(w + t) {
            assert(s.take(t.len() as int) =~= t);
            lemma_tail_closed(escaped, s, end, t.len() as int);
        }
    }
}

/// How many bytes of text are let go of together while it is skipped.
pub const SKIP_LEN: usize = 4097;

/// How many of `len` bytes of text, none of which closes it, are let go of while it is skipped:
/// as many as come in full lots, but not the last byte.
pub open spec fn let_go(len: nat) -> nat {
    if len == 0 {
        0
    } else {
        (((len - 1) / SKIP_LEN as int) * SKIP_LEN) as nat
    }
}

/// How far text has been examined for its end. Text starts behind an opening byte.
#[derive(Clone, Copy, Debug)]
pub struct Scan {
    opened: bool,
    position: usize,
    escaped: bool,
}

impl Scan {
    /// Whether the opening byte has been consumed.
    pub closed spec fn opened(self) -> bool {
        self.opened
    }

    /// The number of bytes that have been examined behind it.
    pub closed spec fn pos(self) -> nat {
        self.position as nat
    }

    /// Whether the bytes examined so far are at the start of `t`, and none of them closes it.
    pub closed spec fn fits(self, t: Seq<u8>, end: u8) -> bool {
        &&& self.position <= t.len()
        &&& text_open(t.take(self.position as int), end)
        &&& self.escaped == dangling(t.take(self.position as int))
        &&& !self.opened ==> self.position == 0
    }

    /// Nothing has been consumed or examined yet.
    pub fn new() -> (scan: Scan)
        ensures
            !scan.opened(),
            scan.pos() == 0,
            forall|t: Seq<u8>, end: u8| scan.fits(t, end),
    {
        let scan = Scan { opened: false, position: 0, escaped: false };
        assert forall|t: Seq<u8>, end: u8| scan.fits(t, end) by {
            assert(t.take(0) =~= Seq::<u8>::empty());
        }
        scan
    }

    /// What has been examined stays so when more bytes arrive.
    pub proof fn fits_extend(self, t: Seq<u8>, u: Seq<u8>, end: u8)
        requires
            self.fits(t, end),
        ensures
            self.fits(t + u, end),
    {
        assert((t + u).take(self.position as int) =~= t.take(self.position as int));
    }

    /// Whether the opening byte has been consumed.
    pub fn is_opened(&self) -> (b: bool)
        ensures
            b == self.opened(),
    {
        self.opened
    }

    /// Takes note that the opening byte has been consumed.
    pub fn open(&mut self)
        ensures
            final(self).opened(),
            final(self).pos() == 0,
            forall|t: Seq<u8>, end: u8| final(self).fits(t, end),
    {
        self.opened = true;
        self.position = 0;
        self.escaped = false;
        assert forall|t: Seq<u8>, end: u8| self.fits(t, end) by {
            assert(t.take(0) =~= Seq::<u8>::empty());
        }
    }

    /// Examines the bytes of `text` that have not been examined yet, up to the one that closes
    /// it. Returns `true` if there is such a byte; it is then the one at `position`.
    pub fn advance(&mut self, text: &[u8], end: u8) -> (closed: bool)
        requires
            old(self).fits(text@, end),
            old(self).opened(),
        ensures
            final(self).fits(text@, end),
            final(self).opened(),
            final(self).pos() <= text@.len(),
            closed == (text_end(text@, end) is Some),
            closed ==> text_end(text@, end) == Some(final(self).pos() as int),
            !closed ==> final(self).pos() == text@.len(),
            !closed ==> text_open(text@, end),
    {
        let len: usize = text.len();
        while self.position < len
            invariant
                len == text@.len(),
                self.fits(text@, end),
                self.opened,
            decreases len - self.position,
        {
            let b: u8 = text[self.position];
            let ghost before = text@.take(self.position as int);
            if b == end && !self.escaped {
                proof {
                    lemma_text_end(text@, end);
                    assert(closes_at(text@, end, self.position as int));
                }
                return true;
            }
            proof {
                lemma_text_push(before, b, end);
                assert(text@.take(self.position + 1) =~= before.push(b));
            }
            self.escaped = !self.escaped && b == ESCAPE;
            self.position = self.position + 1;
        }
        proof {
            assert(text@.take(len as int) =~= text@);
            lemma_text_end(text@, end);
        }
        false
    }

    /// The number of bytes that have been examined.
    pub fn position(&self) -> (n: usize)
        ensures
            n == self.pos(),
    {
        self.position
    }
}

/// How far text has been skipped. Text starts behind an opening byte.
#[derive(Clone, Copy, Debug)]
pub struct Skim {
    opened: bool,
    escaped: bool,
    position: usize,
    dangling: bool,
}

impl Skim {
    /// Whether the opening byte has been consumed.
    pub closed spec fn opened(self) -> bool {
        self.opened
    }

    /// Whether an escape byte waits behind what has been consumed.
    pub closed spec fn escaped(self) -> bool {
        self.escaped
    }

    /// Whether the bytes examined so far are at the start of `t`, and none of them closes it.
    pub closed spec fn fits(self, t: Seq<u8>, end: u8) -> bool {
        let examined = waiting(self.escaped) + t.take(self.position as int);
        &&& self.position <= t.len()
        &&& text_open(examined, end)
        &&& self.dangling == dangling(examined)
        &&& !self.opened ==> self.position == 0 && !self.escaped
    }

    /// Nothing has been consumed or examined yet.
    pub fn new() -> (skim: Skim)
        ensures
            !skim.opened(),
            !skim.escaped(),
            forall|t: Seq<u8>, end: u8| skim.fits(t, end),
    {
        let skim = Skim { opened: false, escaped: false, position: 0, dangling: false };
        assert forall|t: Seq<u8>, end: u8| skim.fits(t, end) by {
            assert(waiting(false) + t.take(0) =~= Seq::<u8>::empty());
        }
        skim
    }

    /// What has been examined stays so when more bytes arrive.
    pub proof fn fits_extend(self, t: Seq<u8>, u: Seq<u8>, end: u8)
        requires
            self.fits(t, end),
        ensures
            self.fits(t + u, end),
    {
        assert((t + u).take(self.position as int) =~= t.take(self.position as int));
    }

    /// Whether the opening byte has been consumed.
    pub fn is_opened(&self) -> (b: bool)
        ensures
            b == self.opened(),
    {
        self.opened
    }

    /// Whether an escape byte waits behind what has been consumed.
    pub fn is_escaped(&self) -> (b: bool)
        ensures
            b == self.escaped(),
    {
        self.escaped
    }

    /// No escape byte waits in front of text.
    pub proof fn unopened(self, t: Seq<u8>, end: u8)
        requires
            self.fits(t, end),
            !self.opened(),
        ensures
            !self.escaped(),
    {
    }

    /// Takes note that the opening byte has been consumed.
    pub fn open(&mut self)
        ensures
            final(self).opened(),
            !final(self).escaped(),
            forall|t: Seq<u8>, end: u8| final(self).fits(t, end),
    {
        *self = Skim { opened: true, escaped: false, position: 0, dangling: false };
        assert forall|t: Seq<u8>, end: u8| self.fits(t, end) by {
            assert(waiting(false) + t.take(0) =~= Seq::<u8>::empty());
        }
    }

    /// Examines the bytes of `text` that have not been examined yet, up to the one that closes
    /// it, and returns where that is. Where there is none, `n` bytes are let go of.
    pub fn advance(&mut self, text: &[u8], end: u8, n: usize) -> (closed: Option<usize>)
        requires
            old(self).fits(text@, end),
            old(self).opened(),
            end != ESCAPE || !old(self).escaped(),
            n <= text@.len(),
        ensures
            final(self).opened(),
            match closed {
                Some(k) => tail_end(old(self).escaped(), text@, end) == Some(k as int),
                None => {
                    &&& tail_end(old(self).escaped(), text@, end) is None
                    &&& text_open(waiting(old(self).escaped()) + text@, end)
                    &&& final(self).escaped() == dangling(
                        waiting(old(self).escaped()) + text@.take(n as int),
                    )
                    &&& final(self).fits(text@.skip(n as int), end)
                },
            },
    {
        let ghost w = waiting(self.escaped);
        let len: usize = text.len();
        if n < self.position {
            self.position = 0;
            self.dangling = self.escaped;
            proof {
                lemma_waiting(self.escaped, end);
                assert(w + text@.take(0) =~= w);
            }
        }
        let mut i: usize = self.position;
        let mut waits: bool = self.dangling;
        let mut mark: bool = self.dangling;
        while i < len && (waits || text[i] != end)
            invariant
                i <= len,
                n <= len,
                len == text@.len(),
                text_open(w + text@.take(i as int), end),
                waits == dangling(w + text@.take(i as int)),
                n <= i ==> mark == dangling(w + text@.take(n as int)),
                i <= n ==> mark == waits,
            decreases len - i,
        {
            proof {
                lemma_text_push(w + text@.take(i as int), text@[i as int], end);
                assert(w + text@.take(i + 1) =~= (w + text@.take(i as int)).push(text@[i as int]));
            }
            waits = !waits && text[i] == ESCAPE;
            i = i + 1;
            if i <= n {
                mark = waits;
            }
        }
        if i < len {
            proof {
                lemma_tail_closed(self.escaped, text@, end, i as int);
            }
            return Some(i);
        }
        proof {
            assert(text@.take(len as int) =~= text@);
            lemma_tail_open(self.escaped, text@, end, n as int);
            let rest = text@.skip(n as int);
            assert(rest.take(len - n) =~= rest);
        }
        self.escaped = mark;
        self.position = len - n;
        self.dangling = waits;
        None
    }
}

proof fn lemma_tail_closed(escaped: bool, text: Seq<u8>, end: u8, i: int)
    requires
        0 <= i < text.len(),
        text_open(waiting(escaped) + text.take(i), end),
        !dangling(waiting(escaped) + text.take(i)),
        text[i] == end,
    ensures
        tail_end(escaped, text, end) == Some(i),
{
    reveal(tail_end);
    let w = waiting(escaped);
    lemma_text_end(w + text, end);
    assert((w + text).take(w.len() + i) =~= w + text.take(i));
    assert(closes_at(w + text, end, w.len() + i));
}

proof fn lemma_tail_open(escaped: bool, text: Seq<u8>, end: u8, n: int)
    requires
        0 <= n <= text.len(),
        text_open(waiting(escaped) + text, end),
    ensures
        tail_end(escaped, text, end) is None,
        text_open(waiting(dangling(waiting(escaped) + text.take(n))) + text.skip(n), end),
        dangling(waiting(dangling(waiting(escaped) + text.take(n))) + text.skip(n)) == dangling(
            waiting(escaped) + text,
        ),
{
    reveal(tail_end);
    let whole = waiting(escaped) + text;
    let a = waiting(escaped) + text.take(n);
    let b = text.skip(n);
    lemma_text_end(whole, end);
    assert(whole =~= a + b);
    lemma_text_open_prefix(whole, end, a.len() as int);
    assert(whole.take(a.len() as int) =~= a);
    lemma_open_escape(a, end);
    lemma_waiting(dangling(a), end);
    lemma_text_resume(a, waiting(dangling(a)), b, end);
}

/// Returns the data that `text` stands for.
pub fn unescape_bytes(text: &[u8]) -> (data: Bytes)
    requires
        text@.len() <= isize::MAX,
    ensures
        bytes_contents(data) == unescape(text@),
{
    let len: usize = text.len();
    let mut data = BytesMut::with_capacity(len);
    let mut escaped: bool = false;
    let mut i: usize = 0;
    proof {
        assert(text@.take(0) =~= Seq::<u8>::empty());
    }
    while i < len
        invariant
            len == text@.len(),
            bytes_mut_limit(data) == len,
            i <= len,
            escaped == dangling(text@.take(i as int)),
            bytes_mut_contents(data) == unescape(text@.take(i as int)),
        decreases len - i,
    {
        let b: u8 = text[i];
        proof {
            lemma_text_push(text@.take(i as int), b, b);
            lemma_unescape_len(text@.take(i as int));
            assert(text@.take(i + 1) =~= text@.take(i as int).push(b));
        }
        if escaped {
            put_u8(&mut data, b);
            escaped = false;
        } else if b == ESCAPE {
            escaped = true;
        } else {
            put_u8(&mut data, b);
        }
        i = i + 1;
    }
    proof {
        assert(text@.take(len as int) =~= text@);
    }
    data.freeze()
}

/// Appends to `out` the text that stands for `data` and is delimited by `end`.
pub fn push_escaped(out: &mut Vec<u8>, data: &[u8], end: u8)
    ensures
        final(out)@ == old(out)@ + escape(data@, end),
{
    let len: usize = data.len();
    let mut i: usize = 0;
    proof {
        assert(data@.take(0) =~= Seq::<u8>::empty());
        assert(out@ =~= old(out)@ + escape(data@.take(0), end));
    }
    while i < len
        invariant
            len == data@.len(),
            i <= len,
            out@ == old(out)@ + escape(data@.take(i as int), end),
        decreases len - i,
    {
        let b: u8 = data[i];
        proof {
            assert(data@.take(i + 1).drop_last() =~= data@.take(i as int));
        }
        if b == end || b == ESCAPE {
            out.push(ESCAPE);
        }
        out.push(b);
        i = i + 1;
        proof {
            assert(out@ =~= old(out)@ + escape(data@.take(i as int), end));
        }
    }
    proof {
        assert(data@.take(len as int) =~= data@);
    }
}

} // verus!
