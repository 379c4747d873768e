//! Reading arrays, lists and maps piece by piece.

use std::marker::PhantomData;

use vstd::prelude::*;
use vstd::slice::slice_subrange;
use vstd::string::*;

use crate::buf::bytes_as_slice;
use crate::constants::{ARRAY_DELIMIT, ESCAPE, LIST_BEGIN, LIST_END, MAP_BEGIN, MAP_END};
use crate::de::{delimiter_text, ended, starved, Decoder, State, Step};
use crate::element::{elements, elements_concat, elements_len, parse_elements, Element};
use crate::error::{depth_text, Error};
use crate::escape::{
    closes_at, dangling, lemma_open_never_closes, lemma_text_concat, lemma_text_end,
    lemma_text_open_prefix, lemma_text_push, text_end, text_open, unescape, unescape_bytes,
};

verus! {

/// Whether the first `i` bytes of the text of an array are its next piece: they stand for `quota`
/// bytes of data, or for fewer where the array ends.
pub open spec fn piece_at(p: Seq<u8>, quota: nat, i: int) -> bool {
    &&& 0 <= i <= p.len()
    &&& text_open(p.take(i), ARRAY_DELIMIT)
    &&& !dangling(p.take(i))
    &&& unescape(p.take(i)).len() <= quota
    &&& unescape(p.take(i)).len() == quota || (i < p.len() && p[i] == ARRAY_DELIMIT)
}

/// The length of the next piece of the text of an array.
pub open spec fn piece_len(p: Seq<u8>, quota: nat) -> Option<int> {
    if exists|i: int| piece_at(p, quota, i) {
        Some(choose|i: int| piece_at(p, quota, i))
    } else {
        None
    }
}

/// Text that is cut short stands for no more data.
pub proof fn lemma_unescape_take(s: Seq<u8>, k: int)
    requires
        0 <= k <= s.len(),
    ensures
        unescape(s.take(k)).len() <= unescape(s).len(),
    decreases s.len(),
{
    if k == s.len() {
        assert(s.take(k) =~= s);
    } else {
        lemma_unescape_take(s.drop_last(), k);
        assert(s.drop_last().take(k) =~= s.take(k));
    }
}

proof fn lemma_piece_once(p: Seq<u8>, quota: nat, i: int, j: int)
    requires
        piece_at(p, quota, i),
        piece_at(p, quota, j),
        i <= j,
    ensures
        i == j,
{
    if i < j {
        let a = p.take(i);
        let b = p.subrange(i, j);
        assert(p.take(j) =~= a + b);
        lemma_text_concat(a, b, ARRAY_DELIMIT);
        assert(b.len() > 0 && !dangling(b));
        assert(unescape(b).len() > 0);
        lemma_open_never_closes(p.take(j), ARRAY_DELIMIT, i);
        assert(p.take(j).take(i) =~= a);
    }
}

/// The next piece is the one there is.
pub proof fn lemma_piece_len(p: Seq<u8>, quota: nat)
    ensures
        forall|i: int| piece_at(p, quota, i) ==> piece_len(p, quota) == Some(i),
        piece_len(p, quota) matches Some(i) ==> piece_at(p, quota, i),
{
    assert forall|i: int| piece_at(p, quota, i) implies piece_len(p, quota) == Some(i) by {
        let j = piece_len(p, quota)->0;
        if i <= j {
            lemma_piece_once(p, quota, i, j);
        } else {
            lemma_piece_once(p, quota, j, i);
        }
    }
}

/// A piece holds no more values than it may.
proof fn lemma_piece_values<T: Element>(p: Seq<u8>, max: nat, i: int)
    requires
        piece_at(p, max * T::kind().width(), i),
    ensures
        elements::<T>(unescape(p.take(i))) matches Ok(vs) ==> vs.len() <= max,
{
    T::width_bounds();
    elements_len::<T>(unescape(p.take(i)));
    if let Ok(vs) = elements::<T>(unescape(p.take(i))) {
        let n = vs.len();
        let width = T::kind().width();
        assert(n <= max) by (nonlinear_arith)
            requires
                n * width <= max * width,
                width > 0,
        ;
    }
}

/// An array can be read in pieces: the elements of its next piece, and then those of the rest,
/// are all of its elements.
pub proof fn array_in_pieces<T: Element>(p: Seq<u8>, max: nat, k: int)
    requires
        text_end(p, ARRAY_DELIMIT) == Some(k),
    ensures
        piece_len(p, max * T::kind().width()) matches Some(i) && 0 <= i <= k && text_end(
            p.skip(i),
            ARRAY_DELIMIT,
        ) == Some(k - i) && elements::<T>(unescape(p.take(k))) == match elements::<T>(
            unescape(p.take(i)),
        ) {
            Err(text) => Err(text),
            Ok(vs) => match elements::<T>(unescape(p.skip(i).take(k - i))) {
                Err(text) => Err(text),
                Ok(ws) => Ok(vs + ws),
            },
        },
{
    let quota = max * T::kind().width();
    let i = lemma_piece_exists(p, quota, k);
    lemma_piece_len(p, quota);
    lemma_text_end(p, ARRAY_DELIMIT);
    let a = p.take(i);
    let b = p.skip(i).take(k - i);
    assert(p.take(k) =~= a + b);
    lemma_text_concat(a, b, ARRAY_DELIMIT);
    assert(closes_at(p.skip(i), ARRAY_DELIMIT, k - i));
    lemma_text_end(p.skip(i), ARRAY_DELIMIT);
    if i < k {
        lemma_open_never_closes(p.take(k), ARRAY_DELIMIT, i);
        assert(p.take(k).take(i) =~= a);
        T::width_bounds();
        assert(max * T::kind().width() % T::kind().width() == 0) by {
            vstd::arithmetic::div_mod::lemma_mod_multiples_basic(
                max as int,
                T::kind().width() as int,
            );
        }
        elements_concat::<T>(unescape(a), unescape(b));
    } else {
        assert(b =~= Seq::<u8>::empty());
        assert(a =~= p.take(k));
        if let Ok(vs) = elements::<T>(unescape(a)) {
            assert(vs + Seq::<T>::empty() =~= vs);
        }
    }
}

/// Where the text of an array is closed there is a next piece.
proof fn lemma_piece_exists(p: Seq<u8>, quota: nat, k: int) -> (i: int)
    requires
        text_end(p, ARRAY_DELIMIT) == Some(k),
    ensures
        piece_at(p, quota, i),
        i <= k,
    decreases k,
{
    lemma_text_end(p, ARRAY_DELIMIT);
    lemma_piece_below(p, quota, k)
}

proof fn lemma_piece_below(p: Seq<u8>, quota: nat, k: int) -> (i: int)
    requires
        0 <= k <= p.len(),
        text_open(p.take(k), ARRAY_DELIMIT),
        !dangling(p.take(k)),
        unescape(p.take(k)).len() >= quota || (k < p.len() && p[k] == ARRAY_DELIMIT),
    ensures
        piece_at(p, quota, i),
        i <= k,
    decreases k,
{
    let n = unescape(p.take(k)).len();
    if n <= quota {
        k
    } else {
        // The last byte is data. In front of it there may be an escape byte.
        let s = p.take(k);
        assert(s.drop_last() =~= p.take(k - 1));
        lemma_text_open_prefix(s, ARRAY_DELIMIT, k - 1);
        assert(s.take(k - 1) =~= p.take(k - 1));
        if dangling(p.take(k - 1)) {
            assert(p.take(k - 1).drop_last() =~= p.take(k - 2));
            assert(unescape(p.take(k - 1)) == unescape(p.take(k - 2)));
            lemma_text_open_prefix(s, ARRAY_DELIMIT, k - 2);
            assert(s.take(k - 2) =~= p.take(k - 2));
            lemma_piece_below(p, quota, k - 2)
        } else {
            lemma_piece_below(p, quota, k - 1)
        }
    }
}

/// How far the opening of an array, a list or a map has come.
#[derive(Clone, Copy, Debug, PartialEq, Eq, Structural)]
pub enum Opening {
    /// Its first byte comes next.
    Begin,
    /// The type bit of an array comes next.
    Dtype,
    /// What it holds comes next.
    Content,
}

impl Opening {
    /// The bytes of the opening of an array, of values with the given type bit, that are left.
    pub open spec fn left(self, code: u8) -> Seq<u8> {
        match self {
            Opening::Begin => seq![ARRAY_DELIMIT, code],
            Opening::Dtype => seq![code],
            Opening::Content => seq![],
        }
    }
}

/// How many bytes `p` starts with in common with `expected`.
pub open spec fn matched(p: Seq<u8>, expected: Seq<u8>) -> nat
    decreases p.len(),
{
    if p.len() == 0 || expected.len() == 0 || p[0] != expected[0] {
        0
    } else {
        1 + matched(p.skip(1), expected.skip(1))
    }
}

proof fn lemma_matched_step(p: Seq<u8>, expected: Seq<u8>, b: u8)
    requires
        expected.len() > 0,
        expected[0] == b,
    ensures
        p.len() == 0 || p[0] != b ==> matched(p, expected) == 0,
        p.len() > 0 && p[0] == b ==> matched(p, expected) == 1 + matched(
            p.skip(1),
            expected.skip(1),
        ),
{
}

/// Bytes that do not differ from what is expected are all in common with it.
pub proof fn lemma_matched_all(p: Seq<u8>, expected: Seq<u8>)
    requires
        forall|i: int| 0 <= i < p.len() && i < expected.len() ==> p[i] == expected[i],
    ensures
        matched(p, expected) == if p.len() <= expected.len() {
            p.len()
        } else {
            expected.len()
        },
    decreases p.len(),
{
    if p.len() > 0 && expected.len() > 0 {
        assert(p[0] == expected[0]);
        lemma_matched_all(p.skip(1), expected.skip(1));
    }
}

/// How far an array has been read.
#[derive(Debug)]
pub struct ArrayAccess<T> {
    done: bool,
    dtype: PhantomData<T>,
}

/// How far the next piece of an array, of `max` values at most, has been read. A piece that is not
/// read to its end, as where the source fails, is lost with the values that were consumed for it.
#[derive(Debug)]
pub struct Piece<T> {
    max: usize,
    position: usize,
    escaped: bool,
    count: usize,
    ready: Option<Vec<T>>,
}

/// What opening an array of values with the given type bit comes to: `done` says whether it is
/// empty, and `stage` how far the opening has come.
pub open spec fn array_opened(
    s: State,
    old_stage: Opening,
    code: u8,
    after: State,
    stage: Opening,
    r: Step<Result<bool, Error>>,
) -> bool {
    let left = old_stage.left(code);
    let n = matched(s.pending, left);
    let t = s.consume(n as int);
    let q = t.pending;
    if n < left.len() {
        &&& after == t
        &&& match r {
            Step::Read => starved(t) && stage.left(code) == left.skip(n as int),
            Step::Done(Ok(_)) => false,
            Step::Done(Err(e)) => if q.len() == 0 {
                t.terminated && e@ == "unexpected end of stream"@
            } else {
                e@ == delimiter_text(q, left[n as int])
            },
        }
    } else {
        match r {
            Step::Read => starved(t) && after == t && stage == Opening::Content,
            Step::Done(Ok(done)) => {
                &&& !starved(t)
                &&& done == (q.len() > 0 && q[0] == ARRAY_DELIMIT)
                &&& after == if done {
                    t.consume(1)
                } else {
                    t
                }
            },
            Step::Done(Err(_)) => false,
        }
    }
}

/// What comes of a look at what follows a piece of an array: `done` says whether the array ends.
pub open spec fn piece_read<T>(
    t: State,
    vs: Seq<T>,
    after: State,
    done: bool,
    ready: Option<Seq<T>>,
    r: Step<Result<Vec<T>, Error>>,
) -> bool {
    match r {
        Step::Read => starved(t) && after == t && !done && ready == Some(vs),
        Step::Done(Ok(v)) => {
            &&& t.pending.len() > 0
            &&& v@ == vs
            &&& done == (t.pending[0] == ARRAY_DELIMIT)
            &&& ready is None
            &&& after == if done {
                t.consume(1)
            } else {
                t
            }
        },
        Step::Done(Err(e)) => ended(t) && after == t && !done && ready is None && e@
            == "unexpected end of stream"@,
    }
}

/// A call for the next piece of an array, and what came of it.
pub ghost struct Turn<T> {
    /// How many values the piece may hold.
    pub max: nat,
    /// The state of the decoder before the call.
    pub before: State,
    /// Whether all of the array had been read before the call.
    pub was_done: bool,
    /// The values that had been consumed for the piece before the call.
    pub was_ready: Option<Seq<T>>,
    /// The state of the decoder after the call.
    pub after: State,
    /// Whether all of the array has been read after the call.
    pub done: bool,
    /// The values that have been consumed for the piece after the call, and not been returned.
    pub ready: Option<Seq<T>>,
    /// What was returned.
    pub r: Step<Result<Vec<T>, Error>>,
}

/// Whether a call for the next piece of an array came to what it has to.
#[verifier::opaque]
pub open spec fn buffered<T: Element>(turn: Turn<T>) -> bool {
    let s = turn.before;
    let p = s.pending;
    let quota = turn.max * T::kind().width();
    if turn.was_done {
        &&& turn.r matches Step::Done(Ok(vs))
        &&& vs@.len() == 0
        &&& turn.after == s
        &&& turn.done
        &&& turn.ready == turn.was_ready
    } else if turn.was_ready is Some {
        piece_read(s, turn.was_ready->0, turn.after, turn.done, turn.ready, turn.r)
    } else {
        match piece_len(p, quota) {
            None => {
                &&& turn.after == s
                &&& !turn.done
                &&& turn.ready is None
                &&& match turn.r {
                    Step::Read => !s.terminated,
                    Step::Done(Ok(_)) => false,
                    Step::Done(Err(e)) => s.terminated && e@ == "unexpected end of stream"@,
                }
            },
            Some(i) => match elements::<T>(unescape(p.take(i))) {
                Err(text) => {
                    &&& turn.r matches Step::Done(Err(e))
                    &&& e@ == text
                    &&& turn.after == s.consume(i)
                    &&& !turn.done
                    &&& turn.ready is None
                },
                Ok(vs) => piece_read(
                    s.consume(i),
                    vs,
                    turn.after,
                    turn.done,
                    turn.ready,
                    turn.r,
                ),
            },
        }
    }
}

impl<T: Element> Piece<T> {
    /// How many values it may hold.
    pub closed spec fn max(self) -> nat {
        self.max as nat
    }

    /// The values of a piece that has been consumed, and behind which bytes are missing.
    pub closed spec fn ready(self) -> Option<Seq<T>> {
        match self.ready {
            Some(vs) => Some(vs@),
            None => None,
        }
    }

    /// Whether what has been examined of the piece is at the start of `p`.
    pub closed spec fn fits(self, p: Seq<u8>) -> bool {
        let s = p.take(self.position as int);
        &&& self.position <= p.len()
        &&& text_open(s, ARRAY_DELIMIT)
        &&& self.escaped == dangling(s)
        &&& self.count == unescape(s).len()
        &&& self.ready matches Some(vs) ==> self.position == 0 && vs@.len() <= self.max
    }

    /// What has been examined stays so when more bytes arrive.
    pub proof fn fits_extend(self, p: Seq<u8>, more: Seq<u8>)
        requires
            self.fits(p),
        ensures
            self.fits(p + more),
    {
        assert((p + more).take(self.position as int) =~= p.take(self.position as int));
    }

    /// Nothing of the piece has been read yet.
    pub fn new(max: usize) -> (piece: Piece<T>)
        ensures
            piece.max() == max,
            piece.ready() is None,
            forall|q: Seq<u8>| #[trigger] piece.fits(q),
    {
        let piece = Piece { max, position: 0, escaped: false, count: 0, ready: None };
        proof {
            assert forall|q: Seq<u8>| #[trigger] piece.fits(q) by {
                assert(q.take(0) =~= Seq::<u8>::empty());
            }
        }
        piece
    }

    /// Examines the bytes of `p` that have not been examined yet, up to the end of the piece
    /// that stands for `quota` bytes of data. Says whether it was found; it is then the one in
    /// front of `position`.
    fn advance(&mut self, p: &[u8], quota: usize) -> (found: bool)
        requires
            old(self).fits(p@),
            old(self).ready is None,
        ensures
            final(self).fits(p@),
            final(self).max == old(self).max,
            final(self).ready is None,
            final(self).position <= p@.len(),
            found == (piece_len(p@, quota as nat) is Some),
            found ==> piece_len(p@, quota as nat) == Some(final(self).position as int),
    {
        if self.count >= quota {
            self.position = 0;
            self.escaped = false;
            self.count = 0;
            proof {
                assert(p@.take(0) =~= Seq::<u8>::empty());
            }
        }
        let len: usize = p.len();
        while self.position < len && self.count < quota && (self.escaped || p[self.position]
            != ARRAY_DELIMIT)
            invariant
                len == p@.len(),
                self.fits(p@),
                self.max == old(self).max,
                self.ready is None,
                self.count <= quota,
                self.count == quota ==> !self.escaped,
            decreases len - self.position,
        {
            let b: u8 = p[self.position];
            proof {
                let before = p@.take(self.position as int);
                lemma_text_push(before, b, ARRAY_DELIMIT);
                assert(p@.take(self.position + 1) =~= before.push(b));
            }
            if !self.escaped && b == ESCAPE {
                self.escaped = true;
            } else {
                self.escaped = false;
                self.count = self.count + 1;
            }
            self.position = self.position + 1;
        }
        let found: bool = self.count == quota || self.position < len;
        proof {
            lemma_piece_len(p@, quota as nat);
            if found {
                assert(piece_at(p@, quota as nat, self.position as int));
            } else {
                assert(p@.take(len as int) =~= p@);
                if let Some(i) = piece_len(p@, quota as nat) {
                    lemma_unescape_take(p@, i);
                    lemma_open_never_closes(p@, ARRAY_DELIMIT, i);
                }
            }
        }
        found
    }
}

impl<T: Element> ArrayAccess<T> {
    /// Whether all of the array has been read.
    pub closed spec fn done(self) -> bool {
        self.done
    }

    /// Opens an array of values of type `T`. How far that has come is kept in `stage` from call to
    /// call.
    pub fn new(decoder: &mut Decoder, stage: &mut Opening) -> (r: Step<
        Result<ArrayAccess<T>, Error>,
    >)
        requires
            old(decoder).wf(),
        ensures
            final(decoder).wf(),
            final(decoder).kept().len() <= old(decoder).kept().len(),
            array_opened(
                old(decoder)@,
                *old(stage),
                T::kind().code(),
                final(decoder)@,
                *final(stage),
                match r {
                    Step::Read => Step::Read,
                    Step::Done(Ok(a)) => Step::Done(Ok(a.done())),
                    Step::Done(Err(e)) => Step::Done(Err(e)),
                },
            ),
    {
        let ghost s = decoder@;
        let ghost p = s.pending;
        let ghost left = stage.left(T::kind().code());
        let code: u8 = T::dtype().to_u8();
        proof {
            assert(p.skip(0) =~= p);
            assert(left.skip(0) =~= left);
        }
        if *stage == Opening::Begin {
            proof {
                lemma_matched_step(p, left, ARRAY_DELIMIT);
                assert(left.skip(1) =~= Opening::Dtype.left(code));
            }
            match decoder.expect_delimiter(ARRAY_DELIMIT) {
                Step::Read => {
                    return Step::Read;
                },
                Step::Done(Err(e)) => {
                    return Step::Done(Err(e));
                },
                Step::Done(Ok(())) => {
                    *stage = Opening::Dtype;
                },
            }
        }
        if *stage == Opening::Dtype {
            proof {
                let q = decoder@.pending;
                lemma_matched_step(q, Opening::Dtype.left(code), code);
                assert(Opening::Dtype.left(code).skip(1) =~= Opening::Content.left(code));
                assert(q.len() > 0 && q != p ==> q.skip(1) =~= p.skip(2));
            }
            match decoder.expect_delimiter(code) {
                Step::Read => {
                    return Step::Read;
                },
                Step::Done(Err(e)) => {
                    return Step::Done(Err(e));
                },
                Step::Done(Ok(())) => {
                    *stage = Opening::Content;
                },
            }
        }
        match decoder.maybe_delimiter(ARRAY_DELIMIT) {
            Step::Read => Step::Read,
            Step::Done(done) => Step::Done(Ok(ArrayAccess { done, dtype: PhantomData })),
        }
    }

    /// Whether all of the array has been read.
    pub fn is_done(&self) -> (b: bool)
        ensures
            b == self.done(),
    {
        self.done
    }

    /// Reads the next piece of the array. There are no values left where it returns none, unless
    /// the piece may hold none. How far it has been read is kept in `piece` from call to call.
    pub fn buffer(&mut self, decoder: &mut Decoder, piece: &mut Piece<T>) -> (r: Step<
        Result<Vec<T>, Error>,
    >)
        requires
            old(decoder).wf(),
            old(piece).fits(old(decoder)@.pending),
            old(piece).max() * T::kind().width() <= usize::MAX,
        ensures
            final(decoder).wf(),
            final(decoder).kept().len() <= old(decoder).kept().len(),
            final(piece).fits(final(decoder)@.pending),
            final(piece).max() == old(piece).max(),
            r matches Step::Done(Ok(vs)) ==> vs@.len() <= old(piece).max(),
            buffered(
                (Turn {
                    max: old(piece).max(),
                    before: old(decoder)@,
                    was_done: old(self).done(),
                    was_ready: old(piece).ready(),
                    after: final(decoder)@,
                    done: final(self).done(),
                    ready: final(piece).ready(),
                    r,
                }),
            ),
            ({
                let p = old(decoder)@.pending;
                let n = p.len() - final(decoder)@.pending.len();
                let i = if final(self).done() {
                    n - 1
                } else {
                    n
                };
                !old(self).done() ==> match r {
                    Step::Done(Ok(vs)) => if old(piece).ready() is Some {
                        i == 0 && vs@ == old(piece).ready()->0
                    } else {
                        0 <= i && elements::<T>(unescape(p.take(i))) == Ok::<Seq<T>, Seq<char>>(
                            vs@,
                        )
                    },
                    Step::Read => if old(piece).ready() is Some || n == 0 {
                        n == 0 && (old(piece).ready() is Some ==> final(piece).ready()
                            == old(piece).ready())
                    } else {
                        0 <= n && final(piece).ready() is Some && elements::<T>(
                            unescape(p.take(n)),
                        ) == Ok::<Seq<T>, Seq<char>>(final(piece).ready()->0)
                    },
                    Step::Done(Err(_)) => true,
                }
            }),
    {
        proof {
            reveal(buffered);
        }
        if self.done {
            return Step::Done(Ok(Vec::new()));
        }
        let ghost s = decoder@;
        let ghost p = s.pending;
        if piece.ready.is_none() {
            let quota: usize = piece.max * T::size();
            let available = decoder.available();
            if !piece.advance(available, quota) {
                return if decoder.is_terminated() {
                    Step::Done(Err(Error::unexpected_end()))
                } else {
                    Step::Read
                };
            }
            let i: usize = piece.position;
            let data = unescape_bytes(slice_subrange(available, 0, i));
            proof {
                assert(available@.subrange(0, i as int) =~= p.take(i as int));
                lemma_piece_len(p, quota as nat);
                lemma_piece_values::<T>(p, piece.max(), i as int);
            }
            let parsed = parse_elements::<T>(bytes_as_slice(&data));
            decoder.consume(i);
            piece.position = 0;
            piece.escaped = false;
            piece.count = 0;
            proof {
                assert(decoder@.pending.take(0) =~= Seq::<u8>::empty());
            }
            match parsed {
                Err(e) => {
                    return Step::Done(Err(e));
                },
                Ok(vs) => {
                    piece.ready = Some(vs);
                },
            }
        }
        if decoder.remaining() == 0 {
            return if decoder.is_terminated() {
                piece.ready = None;
                Step::Done(Err(Error::unexpected_end()))
            } else {
                Step::Read
            };
        }
        if decoder.available()[0] == ARRAY_DELIMIT {
            self.done = true;
            decoder.consume(1);
        }
        proof {
            assert(decoder@.pending.take(0) =~= p.take(0));
        }
        match piece.ready.take() {
            Some(vs) => Step::Done(Ok(vs)),
            None => Step::Done(Ok(Vec::new())),
        }
    }
}

impl Decoder {
    /// Opens a list or map, which begins with `begin` and ends with `end`, and says whether it is
    /// empty. One that is empty is closed again. How far that has come is kept in `stage` from
    /// call to call.
    fn open(&mut self, stage: &mut Opening, begin: u8, end: u8) -> (r: Step<Result<bool, Error>>)
        requires
            old(self).wf(),
            *old(stage) != Opening::Begin ==> old(self)@.depth > 0,
        ensures
            final(self).wf(),
            final(self).kept().len() <= old(self).kept().len(),
            opened(old(self)@, *old(stage), begin, end, final(self)@, *final(stage), r),
    {
        if *stage == Opening::Begin {
            match self.expect_delimiter(begin) {
                Step::Read => {
                    return Step::Read;
                },
                Step::Done(Err(e)) => {
                    return Step::Done(Err(e));
                },
                Step::Done(Ok(())) => {},
            }
            if let Err(e) = self.push_depth() {
                return Step::Done(Err(e));
            }
            *stage = Opening::Content;
        }
        match self.maybe_delimiter(end) {
            Step::Read => Step::Read,
            Step::Done(true) => {
                self.pop_depth();
                Step::Done(Ok(true))
            },
            Step::Done(false) => Step::Done(Ok(false)),
        }
    }
}

/// What opening a list or map, which begins with `begin` and ends with `end`, comes to: whether it
/// is empty, and how far the opening has come.
pub open spec fn opened(
    s: State,
    old_stage: Opening,
    begin: u8,
    end: u8,
    after: State,
    stage: Opening,
    r: Step<Result<bool, Error>>,
) -> bool {
    let p = s.pending;
    if old_stage == Opening::Begin && (p.len() == 0 || p[0] != begin || s.room() == 0) {
        match r {
            Step::Read => starved(s) && after == s && stage == Opening::Begin,
            Step::Done(Ok(_)) => false,
            Step::Done(Err(e)) => if p.len() == 0 {
                ended(s) && after == s && e@ == "unexpected end of stream"@
            } else if p[0] != begin {
                after == s && e@ == delimiter_text(p, begin)
            } else {
                after == s.consume(1) && e@ == depth_text(s.max_depth)
            },
        }
    } else {
        let t = if old_stage == Opening::Begin {
            s.consume(1).push()
        } else {
            s
        };
        match r {
            Step::Read => starved(t) && after == t && stage != Opening::Begin,
            Step::Done(Ok(empty)) => {
                &&& !starved(t)
                &&& empty == (t.pending.len() > 0 && t.pending[0] == end)
                &&& after == if empty {
                    t.consume(1).pop()
                } else {
                    t
                }
            },
            Step::Done(Err(_)) => false,
        }
    }
}

/// What comes of a look at what follows a value inside a list or map that ends with `end`.
pub open spec fn closed(s: State, end: u8, after: State, r: Step<bool>) -> bool {
    match r {
        Step::Read => starved(s) && after == s,
        Step::Done(true) => s.pending.len() > 0 && s.pending[0] == end && after == s.consume(
            1,
        ).pop(),
        Step::Done(false) => !starved(s) && (s.pending.len() > 0 ==> s.pending[0] != end) && after
            == s,
    }
}

/// How far a list has been read.
#[derive(Debug)]
pub struct SeqAccess {
    size_hint: Option<usize>,
    done: bool,
}

impl SeqAccess {
    /// Whether all of the list has been read.
    pub closed spec fn done(self) -> bool {
        self.done
    }

    /// The number of elements that the reader expects.
    pub closed spec fn hint(self) -> Option<usize> {
        self.size_hint
    }

    /// Opens a list. How far that has come is kept in `stage` from call to call.
    pub fn new(
        decoder: &mut Decoder,
        stage: &mut Opening,
        size_hint: Option<usize>,
    ) -> (r: Step<Result<SeqAccess, Error>>)
        requires
            old(decoder).wf(),
            *old(stage) != Opening::Begin ==> old(decoder)@.depth > 0,
        ensures
            final(decoder).wf(),
            final(decoder).kept().len() <= old(decoder).kept().len(),
            r matches Step::Done(Ok(a)) ==> a.hint() == size_hint,
            opened(
                old(decoder)@,
                *old(stage),
                LIST_BEGIN,
                LIST_END,
                final(decoder)@,
                *final(stage),
                match r {
                    Step::Read => Step::Read,
                    Step::Done(Ok(a)) => Step::Done(Ok(a.done())),
                    Step::Done(Err(e)) => Step::Done(Err(e)),
                },
            ),
    {
        match decoder.open(stage, LIST_BEGIN, LIST_END) {
            Step::Read => Step::Read,
            Step::Done(Ok(done)) => Step::Done(Ok(SeqAccess { size_hint, done })),
            Step::Done(Err(e)) => Step::Done(Err(e)),
        }
    }

    /// Whether another element comes next.
    pub fn next_element(&self) -> (b: bool)
        ensures
            b == !self.done(),
    {
        !self.done
    }

    /// Looks at what follows an element, and closes the list where it ends.
    pub fn end_element(&mut self, decoder: &mut Decoder) -> (r: Step<()>)
        requires
            old(decoder).wf(),
            old(decoder)@.depth > 0,
            !old(self).done(),
        ensures
            final(decoder).wf(),
            final(decoder).kept().len() <= old(decoder).kept().len(),
            final(self).hint() == old(self).hint(),
            r is Read ==> !final(self).done(),
            closed(
                old(decoder)@,
                LIST_END,
                final(decoder)@,
                match r {
                    Step::Read => Step::Read,
                    Step::Done(()) => Step::Done(final(self).done()),
                },
            ),
    {
        match decoder.maybe_delimiter(LIST_END) {
            Step::Read => Step::Read,
            Step::Done(done) => {
                if done {
                    self.done = true;
                    decoder.pop_depth();
                }
                Step::Done(())
            },
        }
    }

    /// The number of elements that the reader expects.
    pub fn size_hint(&self) -> (n: Option<usize>)
        ensures
            n == self.hint(),
    {
        self.size_hint
    }
}

/// How far a map has been read.
#[derive(Debug)]
pub struct MapAccess {
    size_hint: Option<usize>,
    done: bool,
}

impl MapAccess {
    /// Whether all of the map has been read.
    pub closed spec fn done(self) -> bool {
        self.done
    }

    /// The number of keys that the reader expects.
    pub closed spec fn hint(self) -> Option<usize> {
        self.size_hint
    }

    /// Opens a map. How far that has come is kept in `stage` from call to call.
    pub fn new(
        decoder: &mut Decoder,
        stage: &mut Opening,
        size_hint: Option<usize>,
    ) -> (r: Step<Result<MapAccess, Error>>)
        requires
            old(decoder).wf(),
            *old(stage) != Opening::Begin ==> old(decoder)@.depth > 0,
        ensures
            final(decoder).wf(),
            final(decoder).kept().len() <= old(decoder).kept().len(),
            r matches Step::Done(Ok(a)) ==> a.hint() == size_hint,
            opened(
                old(decoder)@,
                *old(stage),
                MAP_BEGIN,
                MAP_END,
                final(decoder)@,
                *final(stage),
                match r {
                    Step::Read => Step::Read,
                    Step::Done(Ok(a)) => Step::Done(Ok(a.done())),
                    Step::Done(Err(e)) => Step::Done(Err(e)),
                },
            ),
    {
        match decoder.open(stage, MAP_BEGIN, MAP_END) {
            Step::Read => Step::Read,
            Step::Done(Ok(done)) => Step::Done(Ok(MapAccess { size_hint, done })),
            Step::Done(Err(e)) => Step::Done(Err(e)),
        }
    }

    /// Whether another key comes next.
    pub fn next_key(&self) -> (b: bool)
        ensures
            b == !self.done(),
    {
        !self.done
    }

    /// Makes sure that a value comes next.
    pub fn next_value(&self) -> (r: Result<(), Error>)
        ensures
            match r {
                Ok(()) => !self.done(),
                Err(e) => self.done() && e@
                    == "called MapAccess::next_value but the map has already ended"@,
            },
    {
        if self.done {
            Err(
                Error::custom(
                    String::from_str("called MapAccess::next_value but the map has already ended"),
                ),
            )
        } else {
            Ok(())
        }
    }

    /// Looks at what follows a value, and closes the map where it ends.
    pub fn end_value(&mut self, decoder: &mut Decoder) -> (r: Step<()>)
        requires
            old(decoder).wf(),
            old(decoder)@.depth > 0,
            !old(self).done(),
        ensures
            final(decoder).wf(),
            final(decoder).kept().len() <= old(decoder).kept().len(),
            final(self).hint() == old(self).hint(),
            r is Read ==> !final(self).done(),
            closed(
                old(decoder)@,
                MAP_END,
                final(decoder)@,
                match r {
                    Step::Read => Step::Read,
                    Step::Done(()) => Step::Done(final(self).done()),
                },
            ),
    {
        match decoder.maybe_delimiter(MAP_END) {
            Step::Read => Step::Read,
            Step::Done(done) => {
                if done {
                    self.done = true;
                    decoder.pop_depth();
                }
                Step::Done(())
            },
        }
    }

    /// The number of keys that the reader expects.
    pub fn size_hint(&self) -> (n: Option<usize>)
        ensures
            n == self.hint(),
    {
        self.size_hint
    }
}

} // verus!
