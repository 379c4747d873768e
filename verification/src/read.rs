//! Reading whole values from the chunks of a stream.

use std::collections::VecDeque;

use bytes::Bytes;
use vstd::prelude::*;

use crate::access::{
    buffered, lemma_matched_all, lemma_piece_len, matched, piece_at, piece_len, ArrayAccess,
    MapAccess, Opening, Piece, SeqAccess,
};
use crate::buf::{bytes_as_slice, bytes_contents};
use crate::constants::{
    Type, ARRAY_DELIMIT, LIST_BEGIN, LIST_END, MAP_BEGIN, MAP_END, STRING_DELIMIT,
};
use crate::de::{inside, self_describing, Decoder, Lead, Step, DEFAULT_MAX_DEPTH};
use crate::element::{Element, F32, F64};
use crate::error::{depth_text, Error};
use crate::escape::{
    closes_at, lemma_closes_extend, lemma_text_end, lemma_unescape_len, text_end, Scan,
};
use crate::grammar::{cut_short, invalid, lemma_skip_value, skip_value, Parsed, Stop};
use crate::laws::{lemma_element_extend, lemma_parse_value, lemma_text_end_extend};
use crate::model::Model;
use crate::parse::{
    parse_any_array, parse_array, parse_element, parse_leaf, parse_list, parse_map,
    parse_scalar, parse_text, parse_value,
};
use crate::skip::{lemma_moved_more_to_come, rest, skipping_is_settled, Skip};
use crate::value::{entries, lemma_entries, lemma_models, model, models, Value};

verus! {

/// The bytes that a source hands out, up to its first error.
pub open spec fn flow(source: Seq<Result<Bytes, Error>>) -> Seq<u8>
    decreases source.len(),
{
    if source.len() == 0 {
        Seq::empty()
    } else {
        match source[0] {
            Ok(data) => bytes_contents(data) + flow(source.skip(1)),
            Err(_) => Seq::empty(),
        }
    }
}

/// The text of the first error that a source hands out.
pub open spec fn fault(source: Seq<Result<Bytes, Error>>) -> Option<Seq<char>>
    decreases source.len(),
{
    if source.len() == 0 {
        None
    } else {
        match source[0] {
            Ok(_) => fault(source.skip(1)),
            Err(e) => Some(e@),
        }
    }
}

/// What a source hands out behind its first error.
pub open spec fn later(source: Seq<Result<Bytes, Error>>) -> Seq<Result<Bytes, Error>>
    decreases source.len(),
{
    if source.len() == 0 {
        Seq::empty()
    } else {
        match source[0] {
            Ok(_) => later(source.skip(1)),
            Err(_) => source.skip(1),
        }
    }
}

/// The number of bytes that a source hands out, up to its first error, where it can be told.
pub fn flow_len(source: &VecDeque<Result<Bytes, Error>>) -> (len: Option<usize>)
    ensures
        match len {
            Some(n) => n == flow(source@).len(),
            None => flow(source@).len() > usize::MAX,
        },
{
    let mut n: usize = 0;
    let mut i: usize = 0;
    proof {
        assert(source@.skip(0) =~= source@);
    }
    while i < source.len()
        invariant
            i <= source@.len(),
            flow(source@).len() == n + flow(source@.skip(i as int)).len(),
        decreases source@.len() - i,
    {
        proof {
            assert(source@.skip(i as int).skip(1) =~= source@.skip(i + 1));
        }
        match &source[i] {
            Err(_) => {
                return Some(n);
            },
            Ok(data) => match n.checked_add(bytes_as_slice(data).len()) {
                None => {
                    return None;
                },
                Some(sum) => {
                    n = sum;
                },
            },
        }
        i = i + 1;
    }
    Some(n)
}

/// What a reader stands for.
#[verifier::ext_equal]
pub ghost struct Stream {
    /// The bytes that have not been consumed, up to the first error of the source.
    pub bytes: Seq<u8>,
    /// The text of the first error of the source.
    pub fault: Option<Seq<char>>,
    /// What the source hands out behind its first error.
    pub later: Seq<Result<Bytes, Error>>,
    /// The number of lists and maps that are open.
    pub depth: nat,
    /// The number of lists and maps that may be open.
    pub max_depth: nat,
}

impl Stream {
    /// The stream behind the next `n` bytes.
    pub open spec fn consume(self, n: int) -> Stream {
        Stream { bytes: self.bytes.skip(n), ..self }
    }

    /// The stream with one more list or map open.
    pub open spec fn push(self) -> Stream {
        Stream { depth: self.depth + 1, ..self }
    }

    /// The stream with one list or map less open.
    pub open spec fn pop(self) -> Stream {
        Stream { depth: (self.depth - 1) as nat, ..self }
    }

    /// The number of lists and maps that may still be opened.
    pub open spec fn room(self) -> nat {
        (self.max_depth - self.depth) as nat
    }

    /// The stream as it goes on behind the first error of the source.
    pub open spec fn resumed(self) -> Stream {
        Stream {
            bytes: self.bytes + flow(self.later),
            fault: fault(self.later),
            later: later(self.later),
            ..self
        }
    }

    /// The stream where reading it has stopped at `stop`.
    pub open spec fn stopped(self, stop: Stop) -> Stream {
        Stream { bytes: self.bytes.skip(stop.at as int), depth: self.depth + stop.opened, ..self }
    }
}

/// Whether `e` and the reader `after` are the error that reading `p` comes to.
pub open spec fn failed<T>(before: Reader, after: Reader, e: Error, p: Parsed<T>) -> bool {
    match p {
        Parsed::Whole(..) => false,
        Parsed::Partial(stop) => match before@.fault {
            Some(text) => e@ == text && after.broke_off(before@.stopped(stop), before.held()),
            None => e@ == stop.text && after.rests(before@.stopped(stop), before.held()),
        },
        Parsed::Invalid(stop) => e@ == stop.text && after.rests(
            before@.stopped(stop),
            before.held(),
        ),
    }
}

/// Whether `r` and the reader `after` are what reading `p` comes to.
pub open spec fn answered<T>(
    before: Reader,
    after: Reader,
    r: Result<T, Error>,
    p: Parsed<T>,
) -> bool {
    match r {
        Ok(v) => p matches Parsed::Whole(w, n) && v == w && after.rests(
            before@.consume(n as int),
            before.held(),
        ),
        Err(e) => failed(before, after, e, p),
    }
}

/// Whether the reader `after` is behind `n` more bytes than `before`, with `opened` more lists and
/// maps open.
pub open spec fn went_on(before: Reader, n: nat, opened: nat, after: Reader) -> bool {
    &&& n <= before@.bytes.len()
    &&& after@ == before@.stopped(Stop { text: Seq::empty(), at: n, opened })
    &&& after.held() <= before.held()
}

/// An error that comes up later is the same error.
proof fn lemma_failed_later<T, U>(
    first: Reader,
    n: nat,
    opened: nat,
    mid: Reader,
    after: Reader,
    e: Error,
    p: Parsed<T>,
    whole: Parsed<U>,
)
    requires
        went_on(first, n, opened, mid),
        failed(mid, after, e, p),
        p.within(mid@.bytes.len()),
        whole == p.failure::<U>().raise(opened).shift(n),
    ensures
        failed(first, after, e, whole),
{
    match p {
        Parsed::Whole(..) => {},
        Parsed::Partial(stop) | Parsed::Invalid(stop) => {
            assert(mid@.stopped(stop) =~= first@.stopped(stop.raise(opened).shift(n)));
        },
    }
}

/// An error of the source that comes up later is the error that reading comes to.
proof fn lemma_broke_off_later<U>(
    first: Reader,
    n: nat,
    opened: nat,
    mid: Reader,
    after: Reader,
    e: Error,
    whole: Parsed<U>,
)
    requires
        went_on(first, n, opened, mid),
        mid@.fault == Some(e@),
        after.broke_off(mid@, mid.held()),
        whole == cut_short::<U>(0).raise(opened).shift(n),
    ensures
        failed(first, after, e, whole),
{
    assert(mid@.bytes.skip(0) =~= mid@.bytes);
    lemma_failed_later(first, n, opened, mid, after, e, cut_short::<U>(0), whole);
}

/// A decoder together with the chunks of a stream.
pub struct Reader {
    decoder: Decoder,
    source: VecDeque<Result<Bytes, Error>>,
}

impl View for Reader {
    type V = Stream;

    closed spec fn view(&self) -> Stream {
        Stream {
            bytes: self.decoder@.pending + flow(self.source@),
            fault: fault(self.source@),
            later: later(self.source@),
            depth: self.decoder@.depth,
            max_depth: self.decoder@.max_depth,
        }
    }
}

impl Reader {
    /// What holds of every reader.
    pub closed spec fn wf(self) -> bool {
        &&& self.decoder.wf()
        &&& self.decoder@.terminated ==> self.source@.len() == 0
        &&& self.held() <= isize::MAX
    }

    /// The number of bytes that are in memory or on their way, up to the first error of the source.
    pub closed spec fn held(self) -> nat {
        self.decoder.kept().len() + flow(self.source@).len()
    }

    /// Whether the reader stands for `t` and holds no more than `held` bytes, and can be read from.
    pub open spec fn rests(self, t: Stream, held: nat) -> bool {
        &&& self@ == t
        &&& self.held() <= held
        &&& self.wf()
    }

    /// Whether the source broke off at `t`, where the reader held no more than `held` bytes. It can
    /// be read from again where what the source hands out behind its error still fits in.
    pub open spec fn broke_off(self, t: Stream, held: nat) -> bool {
        let more = held + flow(t.later).len();
        &&& self@ == t.resumed()
        &&& self.held() <= more
        &&& more <= isize::MAX ==> self.wf()
    }

    /// How often the source can still be asked.
    spec fn left(self) -> nat {
        self.source@.len() + if self.decoder@.terminated {
            0nat
        } else {
            1nat
        }
    }

    /// A reader at the start of a stream.
    pub fn new(source: VecDeque<Result<Bytes, Error>>, max_depth: usize) -> (reader: Reader)
        requires
            flow(source@).len() <= isize::MAX,
        ensures
            reader.wf(),
            reader.held() == flow(source@).len(),
            reader@ == (Stream {
                bytes: flow(source@),
                fault: fault(source@),
                later: later(source@),
                depth: 0,
                max_depth: max_depth as nat,
            }),
    {
        let reader = Reader { decoder: Decoder::with_max_depth(max_depth), source };
        assert(Seq::<u8>::empty() + flow(source@) =~= flow(source@));
        reader
    }

    /// Asks the source for the next chunk.
    fn pull(&mut self) -> (r: Result<(), Error>)
        requires
            old(self).wf(),
            !old(self).decoder@.terminated,
        ensures
            match r {
                Ok(()) => {
                    &&& final(self).rests(old(self)@, old(self).held())
                    &&& final(self).left() < old(self).left()
                    &&& old(self).decoder@.pending.is_prefix_of(final(self).decoder@.pending)
                },
                Err(e) => {
                    &&& old(self)@.fault == Some(e@)
                    &&& old(self)@.bytes == old(self).decoder@.pending
                    &&& final(self).broke_off(old(self)@, old(self).held())
                },
            },
    {
        let ghost p = self.decoder@.pending;
        let ghost chunks = self.source@;
        let event = self.source.pop_front();
        proof {
            if chunks.len() > 0 {
                assert(chunks.subrange(1, chunks.len() as int) =~= chunks.skip(1));
                if let Ok(data) = chunks[0] {
                    assert(p + (bytes_contents(data) + flow(chunks.skip(1))) =~= (p
                        + bytes_contents(data)) + flow(chunks.skip(1)));
                } else {
                    assert(p + Seq::<u8>::empty() =~= p);
                }
            }
        }
        let r = self.decoder.buffer(event);
        proof {
            if r is Err {
                assert(self@ =~= old(self)@.resumed());
            }
        }
        r
    }

    /// Reads a value of type `N`.
    fn read_element<N: Element>(&mut self) -> (r: Result<N, Error>)
        requires
            old(self).wf(),
            old(self)@.bytes.len() > 0,
            old(self)@.bytes[0] == N::kind().code(),
        ensures
            answered(*old(self), *final(self), r, parse_element::<N>(old(self)@.bytes)),
    {
        loop
            invariant
                self.rests(old(self)@, old(self).held()),
                self@.bytes.len() > 0,
                self@.bytes[0] == N::kind().code(),
            decreases self.left(),
        {
            let ghost s = self@;
            let ghost p = self.decoder@.pending;
            let ghost more = flow(self.source@);
            proof {
                assert(s.bytes.skip(0) =~= s.bytes);
                lemma_element_extend::<N>(p, more);
            }
            match self.decoder.parse_element::<N>() {
                Step::Done(Ok(v)) => {
                    proof {
                        let n = 1 + N::kind().width() as int;
                        assert(p.skip(n) + more =~= s.bytes.skip(n));
                    }
                    return Ok(v);
                },
                Step::Done(Err(e)) => {
                    proof {
                        assert(self.decoder@.terminated ==> p + more =~= p);
                        assert(p.len() > 0 ==> p.skip(1) + more =~= s.bytes.skip(1));
                    }
                    return Err(e);
                },
                Step::Read => {
                    if let Err(e) = self.pull() {
                        return Err(e);
                    }
                },
            }
        }
    }

    /// Reads the unit value.
    fn read_unit(&mut self) -> (r: Result<(), Error>)
        requires
            old(self).wf(),
            old(self)@.bytes.len() > 0,
            old(self)@.bytes[0] == Type::Unit.code(),
        ensures
            r is Ok,
            final(self).rests(old(self)@.consume(1), old(self).held()),
    {
        loop
            invariant
                self.rests(old(self)@, old(self).held()),
                self@.bytes.len() > 0,
                self@.bytes[0] == Type::Unit.code(),
            decreases self.left(),
        {
            let ghost s = self@;
            let ghost p = self.decoder@.pending;
            let ghost more = flow(self.source@);
            match self.decoder.parse_unit() {
                Step::Done(r) => {
                    proof {
                        assert(p.skip(1) + more =~= s.bytes.skip(1));
                    }
                    return r;
                },
                Step::Read => {
                    if let Err(e) = self.pull() {
                        return Err(e);
                    }
                },
            }
        }
    }

    /// Reads a string.
    fn read_text(&mut self) -> (r: Result<String, Error>)
        requires
            old(self).wf(),
            old(self)@.bytes.len() > 0,
            old(self)@.bytes[0] == STRING_DELIMIT,
        ensures
            answered(
                *old(self),
                *final(self),
                match r {
                    Ok(text) => Ok(text@),
                    Err(e) => Err(e),
                },
                parse_text(old(self)@.bytes),
            ),
    {
        let ghost s = self@;
        let ghost text = s.bytes.skip(1);
        let mut scan = Scan::new();
        loop
            invariant
                s == old(self)@,
                self.rests(
                    if scan.opened() {
                        s.consume(1)
                    } else {
                        s
                    },
                    old(self).held(),
                ),
                s.bytes.len() > 0,
                s.bytes[0] == STRING_DELIMIT,
                text == s.bytes.skip(1),
                scan.fits(self.decoder@.pending, STRING_DELIMIT),
            decreases self.left(),
        {
            let ghost p = self.decoder@.pending;
            let ghost more = flow(self.source@);
            let ghost q = inside(self.decoder@, scan.opened()).pending;
            proof {
                if scan.opened() || p.len() > 0 {
                    assert(q + more =~= text);
                    lemma_text_end_extend(q, more, STRING_DELIMIT);
                }
                assert(self.decoder@.terminated ==> p + more =~= p && q + more =~= q);
            }
            match self.decoder.parse_string(&mut scan) {
                Step::Done(r) => {
                    proof {
                        if let Some(k) = text_end(q, STRING_DELIMIT) {
                            assert(q.skip(k + 1) + more =~= text.skip(k + 1));
                            assert(text.skip(k + 1) =~= s.bytes.skip(k + 2));
                        }
                    }
                    return r;
                },
                Step::Read => {
                    let ghost arrived = self.decoder@.pending;
                    proof {
                        assert(self@ =~= if scan.opened() {
                            s.consume(1)
                        } else {
                            s
                        });
                    }
                    if let Err(e) = self.pull() {
                        return Err(e);
                    }
                    proof {
                        let now = self.decoder@.pending;
                        let d = now.skip(arrived.len() as int);
                        scan.fits_extend(arrived, d, STRING_DELIMIT);
                        assert(arrived + d =~= now);
                    }
                },
            }
        }
    }

    /// Opens an array of values of type `N`.
    #[verifier::rlimit(30)]
    fn open_array<N: Element>(&mut self) -> (r: Result<ArrayAccess<N>, Error>)
        requires
            old(self).wf(),
            old(self)@.bytes.len() > 1,
            old(self)@.bytes[0] == ARRAY_DELIMIT,
            old(self)@.bytes[1] == N::kind().code(),
        ensures
            ({
                let s = old(self)@;
                match r {
                    Ok(a) => {
                        &&& a.done() == (s.bytes.len() > 2 && s.bytes[2] == ARRAY_DELIMIT)
                        &&& final(self).rests(
                            s.consume(
                                if a.done() {
                                    3
                                } else {
                                    2
                                },
                            ),
                            old(self).held(),
                        )
                    },
                    Err(e) => s.bytes.len() == 2 && s.fault == Some(e@) && final(self).broke_off(
                        s.consume(2),
                        old(self).held(),
                    ),
                }
            }),
    {
        let ghost s = self@;
        let ghost code = N::kind().code();
        let mut stage = Opening::Begin;
        proof {
            assert(s.bytes.skip(0) =~= s.bytes);
        }
        loop
            invariant
                s == old(self)@,
                self.rests(s.consume(2 - stage.left(code).len()), old(self).held()),
                s.bytes.len() > 1,
                s.bytes[0] == ARRAY_DELIMIT,
                s.bytes[1] == code,
                code == N::kind().code(),
            decreases self.left(),
        {
            let ghost p = self.decoder@.pending;
            let ghost more = flow(self.source@);
            let ghost left = stage.left(code);
            let ghost c = 2 - left.len();
            let ghost n = matched(p, left) as int;
            proof {
                assert forall|i: int| 0 <= i < p.len() && i < left.len() implies p[i]
                    == left[i] by {
                    assert(p[i] == (p + more)[i]);
                    assert(s.bytes.skip(c)[i] == s.bytes[c + i]);
                }
                lemma_matched_all(p, left);
                assert(self.decoder@.terminated ==> p + more =~= p);
                assert(p.skip(n) + more =~= self@.bytes.skip(n));
                assert(self@.bytes.skip(n) =~= s.bytes.skip(c + n));
                assert(p.len() + more.len() == s.bytes.len() - c);
                assert(p.len() > n ==> p.skip(n)[0] == s.bytes.skip(c + n)[0]);
                assert(self.decoder@.terminated ==> more.len() == 0);
            }
            match ArrayAccess::<N>::new(&mut self.decoder, &mut stage) {
                Step::Done(r) => {
                    proof {
                        if n == left.len() && p.len() > n {
                            assert(p.skip(n).skip(1) + more =~= s.bytes.skip(2).skip(1));
                            assert(s.bytes.skip(2).skip(1) =~= s.bytes.skip(3));
                        }
                    }
                    return r;
                },
                Step::Read => {
                    proof {
                        assert(self@ =~= s.consume(2 - stage.left(code).len()));
                    }
                    if let Err(e) = self.pull() {
                        return Err(e);
                    }
                },
            }
        }
    }

    /// Reads an array of values of type `N`.
    fn read_array<N: Element>(&mut self) -> (r: Result<Vec<N>, Error>)
        requires
            old(self).wf(),
            old(self)@.bytes.len() > 1,
            old(self)@.bytes[0] == ARRAY_DELIMIT,
            old(self)@.bytes[1] == N::kind().code(),
        ensures
            answered(
                *old(self),
                *final(self),
                match r {
                    Ok(vs) => Ok(vs@),
                    Err(e) => Err(e),
                },
                parse_array::<N>(old(self)@.bytes),
            ),
    {
        let ghost whole = self@;
        let ghost text = whole.bytes.skip(2);
        proof {
            lemma_text_end(text, ARRAY_DELIMIT);
        }
        let mut access = match self.open_array::<N>() {
            Ok(access) => access,
            Err(e) => {
                return Err(e);
            },
        };
        if access.is_done() {
            proof {
                assert(text.take(0) =~= Seq::<u8>::empty());
                assert(closes_at(text, ARRAY_DELIMIT, 0));
            }
            return Ok(Vec::new());
        }
        proof {
            N::width_bounds();
        }
        let max: usize = usize::MAX / N::size();
        let ghost quota = max as nat * N::kind().width();
        proof {
            lemma_quota(max, N::kind().width());
        }
        let mut piece = Piece::<N>::new(max);
        loop
            invariant
                self.rests(whole.consume(2), old(self).held()),
                self@.bytes == text,
                text == whole.bytes.skip(2),
                whole.bytes.len() > 1,
                whole == old(self)@,
                !access.done(),
                piece.max() == max,
                piece.ready() is None,
                piece.fits(self.decoder@.pending),
                quota == max as nat * N::kind().width(),
                isize::MAX < quota <= usize::MAX,
            decreases self.left(),
        {
            let ghost p = self.decoder@.pending;
            let ghost more = flow(self.source@);
            proof {
                reveal(buffered);
                lemma_whole_piece(p, quota);
                lemma_text_end(p, ARRAY_DELIMIT);
                lemma_text_end(text, ARRAY_DELIMIT);
                if let Some(k) = text_end(p, ARRAY_DELIMIT) {
                    lemma_closes_extend(p, more, ARRAY_DELIMIT, k);
                    assert(closes_at(text, ARRAY_DELIMIT, k));
                    assert(text.take(k) =~= p.take(k));
                }
            }
            match access.buffer(&mut self.decoder, &mut piece) {
                Step::Done(Ok(vs)) => {
                    proof {
                        let k = text_end(p, ARRAY_DELIMIT)->0;
                        assert(p.skip(k).skip(1) + more =~= text.skip(k + 1));
                        assert(text.skip(k + 1) =~= whole.bytes.skip(k + 3));
                    }
                    return Ok(vs);
                },
                Step::Done(Err(e)) => {
                    proof {
                        assert(self.decoder@.terminated ==> p + more =~= p);
                        let n = p.len() - self.decoder@.pending.len();
                        assert(p.skip(0) =~= p);
                        assert(self.decoder@.pending == p.skip(n));
                        assert(p.skip(n) + more =~= text.skip(n));
                        assert(text.skip(n) =~= whole.bytes.skip(n + 2));
                    }
                    return Err(e);
                },
                Step::Read => {
                    if let Err(e) = self.pull() {
                        return Err(e);
                    }
                    proof {
                        let q = self.decoder@.pending;
                        piece.fits_extend(p, q.skip(p.len() as int));
                        assert(p + q.skip(p.len() as int) =~= q);
                    }
                },
            }
        }
    }
}

proof fn lemma_quota(max: usize, width: nat)
    requires
        0 < width <= 8,
        max == usize::MAX / width as usize,
    ensures
        isize::MAX < max * width <= usize::MAX,
{
    assert(isize::MAX < max * width <= usize::MAX) by (nonlinear_arith)
        requires
            0 < width <= 8,
            max as int == usize::MAX as int / width as int,
            isize::MAX + 8 < usize::MAX,
    ;
}

/// A piece that is longer than the text of an array can be is all of it.
proof fn lemma_whole_piece(p: Seq<u8>, quota: nat)
    requires
        p.len() < quota,
    ensures
        piece_len(p, quota) == text_end(p, ARRAY_DELIMIT),
{
    lemma_piece_len(p, quota);
    lemma_text_end(p, ARRAY_DELIMIT);
    if let Some(i) = piece_len(p, quota) {
        lemma_unescape_len(p.take(i));
        assert(closes_at(p, ARRAY_DELIMIT, i));
    }
    if let Some(k) = text_end(p, ARRAY_DELIMIT) {
        lemma_unescape_len(p.take(k));
        assert(piece_at(p, quota, k));
    }
}

/// Whether the value at the start of `s` starts with `lead`.
pub open spec fn leads(s: Seq<u8>, lead: Lead) -> bool {
    s.len() > 0 && match lead {
        Lead::Array(t) => s[0] == ARRAY_DELIMIT && s.len() > 1 && s[1] == t.code()
            && self_describing(t),
        Lead::List => s[0] == LIST_BEGIN,
        Lead::Dict => s[0] == MAP_BEGIN,
        Lead::Text => s[0] == STRING_DELIMIT,
        Lead::Scalar(t) => s[0] == t.code(),
    }
}

/// What was read, as far as it can be spoken of.
pub open spec fn shown(r: Result<Value, Error>) -> Result<Model, Error> {
    match r {
        Ok(v) => Ok(v@),
        Err(e) => Err(e),
    }
}

impl Reader {
    /// Says what the next value starts with.
    fn peek(&mut self) -> (r: Result<Lead, Error>)
        requires
            old(self).wf(),
        ensures
            match r {
                Ok(lead) => final(self).rests(old(self)@, old(self).held()) && leads(
                    old(self)@.bytes,
                    lead,
                ),
                Err(e) => failed(
                    *old(self),
                    *final(self),
                    e,
                    parse_value(old(self)@.bytes, old(self)@.room(), old(self)@.max_depth),
                ),
            },
    {
        loop
            invariant
                self.rests(old(self)@, old(self).held()),
            decreases self.left(),
        {
            let ghost p = self.decoder@.pending;
            let ghost more = flow(self.source@);
            proof {
                reveal(parse_leaf);
                assert(self@.bytes.skip(0) =~= self@.bytes);
            }
            match self.decoder.decode_any() {
                Step::Done(r) => {
                    proof {
                        assert(self.decoder@.terminated ==> p + more =~= p);
                    }
                    return r;
                },
                Step::Read => {
                    if let Err(e) = self.pull() {
                        return Err(e);
                    }
                },
            }
        }
    }

    /// Reads a value of type `t`.
    fn read_scalar(&mut self, t: Type) -> (r: Result<Value, Error>)
        requires
            old(self).wf(),
            old(self)@.bytes.len() > 0,
            old(self)@.bytes[0] == t.code(),
        ensures
            answered(*old(self), *final(self), shown(r), parse_scalar(t, old(self)@.bytes)),
    {
        match t {
            Type::Unit => match self.read_unit() {
                Ok(()) => Ok(Value::Unit),
                Err(e) => Err(e),
            },
            Type::Bool => match self.read_element::<bool>() {
                Ok(v) => Ok(Value::Bool(v)),
                Err(e) => Err(e),
            },
            Type::I8 => match self.read_element::<i8>() {
                Ok(v) => Ok(Value::I8(v)),
                Err(e) => Err(e),
            },
            Type::I16 => match self.read_element::<i16>() {
                Ok(v) => Ok(Value::I16(v)),
                Err(e) => Err(e),
            },
            Type::I32 => match self.read_element::<i32>() {
                Ok(v) => Ok(Value::I32(v)),
                Err(e) => Err(e),
            },
            Type::I64 => match self.read_element::<i64>() {
                Ok(v) => Ok(Value::I64(v)),
                Err(e) => Err(e),
            },
            Type::U8 => match self.read_element::<u8>() {
                Ok(v) => Ok(Value::U8(v)),
                Err(e) => Err(e),
            },
            Type::U16 => match self.read_element::<u16>() {
                Ok(v) => Ok(Value::U16(v)),
                Err(e) => Err(e),
            },
            Type::U32 => match self.read_element::<u32>() {
                Ok(v) => Ok(Value::U32(v)),
                Err(e) => Err(e),
            },
            Type::U64 => match self.read_element::<u64>() {
                Ok(v) => Ok(Value::U64(v)),
                Err(e) => Err(e),
            },
            Type::F32 => match self.read_element::<F32>() {
                Ok(v) => Ok(Value::F32(v)),
                Err(e) => Err(e),
            },
            Type::F64 => match self.read_element::<F64>() {
                Ok(v) => Ok(Value::F64(v)),
                Err(e) => Err(e),
            },
        }
    }

    /// Reads an array of values of type `t`.
    fn read_any_array(&mut self, t: Type) -> (r: Result<Value, Error>)
        requires
            old(self).wf(),
            old(self)@.bytes.len() > 1,
            old(self)@.bytes[0] == ARRAY_DELIMIT,
            old(self)@.bytes[1] == t.code(),
        ensures
            answered(*old(self), *final(self), shown(r), parse_any_array(t, old(self)@.bytes)),
    {
        match t {
            Type::Bool => match self.read_array::<bool>() {
                Ok(vs) => Ok(Value::ArrayBool(vs)),
                Err(e) => Err(e),
            },
            Type::I16 => match self.read_array::<i16>() {
                Ok(vs) => Ok(Value::ArrayI16(vs)),
                Err(e) => Err(e),
            },
            Type::I32 => match self.read_array::<i32>() {
                Ok(vs) => Ok(Value::ArrayI32(vs)),
                Err(e) => Err(e),
            },
            Type::I64 => match self.read_array::<i64>() {
                Ok(vs) => Ok(Value::ArrayI64(vs)),
                Err(e) => Err(e),
            },
            Type::U8 => match self.read_array::<u8>() {
                Ok(vs) => Ok(Value::ArrayU8(vs)),
                Err(e) => Err(e),
            },
            Type::U16 => match self.read_array::<u16>() {
                Ok(vs) => Ok(Value::ArrayU16(vs)),
                Err(e) => Err(e),
            },
            Type::U32 => match self.read_array::<u32>() {
                Ok(vs) => Ok(Value::ArrayU32(vs)),
                Err(e) => Err(e),
            },
            Type::U64 => match self.read_array::<u64>() {
                Ok(vs) => Ok(Value::ArrayU64(vs)),
                Err(e) => Err(e),
            },
            Type::F32 => match self.read_array::<F32>() {
                Ok(vs) => Ok(Value::ArrayF32(vs)),
                Err(e) => Err(e),
            },
            Type::F64 => match self.read_array::<F64>() {
                Ok(vs) => Ok(Value::ArrayF64(vs)),
                Err(e) => Err(e),
            },
            _ => {
                proof {
                    assert(self@.bytes.skip(0) =~= self@.bytes);
                }
                Err(Error::invalid_type(t.name(), "a supported array type"))
            },
        }
    }
}

/// What `p` reads, with `vs` in front.
pub open spec fn behind<T>(vs: Seq<T>, p: Parsed<Seq<T>>) -> Parsed<Seq<T>> {
    p.map(|ws: Seq<T>| vs + ws)
}

/// A list, with its delimiters.
pub open spec fn parse_open_list(s: Seq<u8>, room: nat, limit: nat) -> Parsed<Seq<Model>> {
    if room == 0 {
        invalid(depth_text(limit), 1)
    } else {
        parse_list(s.skip(1), (room - 1) as nat, limit).raise(1).shift(1)
    }
}

/// A map, with its delimiters.
pub open spec fn parse_open_map(s: Seq<u8>, room: nat, limit: nat) -> Parsed<
    Seq<(Model, Model)>,
> {
    if room == 0 {
        invalid(depth_text(limit), 1)
    } else {
        parse_map(s.skip(1), (room - 1) as nat, limit).raise(1).shift(1)
    }
}

/// Whether what comes next, in a list or map that ends with `end`, is not its end.
pub open spec fn goes_on(s: Seq<u8>, end: u8) -> bool {
    s.len() == 0 || s[0] != end
}

proof fn lemma_models_push(vs: Seq<Value>, v: Value)
    ensures
        models(vs.push(v)) == models(vs).push(v@),
{
    lemma_models(vs);
    lemma_models(vs.push(v));
    assert(models(vs.push(v)) =~= models(vs).push(v@)) by {
        assert forall|i: int| 0 <= i < vs.len() implies #[trigger] models(vs.push(v))[i] == models(
            vs,
        )[i] by {
            assert(models(vs)[i] == model(vs[i]));
        }
    }
}

proof fn lemma_entries_push(es: Seq<(Value, Value)>, k: Value, v: Value)
    ensures
        entries(es.push((k, v))) == entries(es).push((k@, v@)),
{
    lemma_entries(es);
    lemma_entries(es.push((k, v)));
    assert(entries(es.push((k, v))) =~= entries(es).push((k@, v@))) by {
        assert forall|i: int| 0 <= i < es.len() implies #[trigger] entries(es.push((k, v)))[i]
            == entries(es)[i] by {
            assert(entries(es)[i] == (model(es[i].0), model(es[i].1)));
        }
    }
}

/// Reading one more element of a list.
proof fn lemma_list_step(vs: Seq<Model>, s: Seq<u8>, room: nat, limit: nat)
    requires
        goes_on(s, LIST_END),
    ensures
        match parse_value(s, room, limit) {
            Parsed::Whole(v, n) => 0 < n <= s.len() && behind(vs, parse_list(s, room, limit))
                == behind(vs.push(v), parse_list(s.skip(n as int), room, limit)).shift(n),
            Parsed::Partial(t) => behind(vs, parse_list(s, room, limit)) == Parsed::<
                Seq<Model>,
            >::Partial(t),
            Parsed::Invalid(t) => behind(vs, parse_list(s, room, limit)) == Parsed::<
                Seq<Model>,
            >::Invalid(t),
        },
{
    lemma_parse_value(s, room, limit);
    if let Parsed::Whole(v, n) = parse_value(s, room, limit) {
        if let Parsed::Whole(ws, _) = parse_list(s.skip(n as int), room, limit) {
            assert(vs + (seq![v] + ws) =~= vs.push(v) + ws);
        }
    }
}

/// A key of a map, and its value.
pub open spec fn parse_pair(s: Seq<u8>, room: nat, limit: nat) -> Parsed<(Model, Model)> {
    match parse_value(s, room, limit) {
        Parsed::Whole(k, n) => parse_value(s.skip(n as int), room, limit).shift(n).map(
            |v: Model| (k, v),
        ),
        other => other.failure(),
    }
}

/// A key and its value take up some of the bytes there are, or reading them stops inside them.
proof fn lemma_pair(s: Seq<u8>, room: nat, limit: nat)
    ensures
        parse_pair(s, room, limit).within(s.len()),
{
    lemma_parse_value(s, room, limit);
    if let Parsed::Whole(_, n) = parse_value(s, room, limit) {
        lemma_parse_value(s.skip(n as int), room, limit);
    }
}

/// Reading one more key of a map, and its value.
proof fn lemma_map_step(es: Seq<(Model, Model)>, s: Seq<u8>, room: nat, limit: nat)
    requires
        goes_on(s, MAP_END),
    ensures
        match parse_pair(s, room, limit) {
            Parsed::Whole(e, n) => 0 < n <= s.len() && behind(es, parse_map(s, room, limit))
                == behind(es.push(e), parse_map(s.skip(n as int), room, limit)).shift(n),
            Parsed::Partial(t) => behind(es, parse_map(s, room, limit)) == Parsed::<
                Seq<(Model, Model)>,
            >::Partial(t),
            Parsed::Invalid(t) => behind(es, parse_map(s, room, limit)) == Parsed::<
                Seq<(Model, Model)>,
            >::Invalid(t),
        },
{
    lemma_parse_value(s, room, limit);
    if let Parsed::Whole(k, n) = parse_value(s, room, limit) {
        let t = s.skip(n as int);
        lemma_parse_value(t, room, limit);
        if let Parsed::Whole(v, m) = parse_value(t, room, limit) {
            assert(t.skip(m as int) =~= s.skip((n + m) as int));
            if let Parsed::Whole(fs, _) = parse_map(t.skip(m as int), room, limit) {
                assert(es + (seq![(k, v)] + fs) =~= es.push((k, v)) + fs);
            }
        }
    }
}

impl Reader {
    /// Opens a list.
    fn open_list(&mut self) -> (r: Result<SeqAccess, Error>)
        requires
            old(self).wf(),
            old(self)@.bytes.len() > 0,
            old(self)@.bytes[0] == LIST_BEGIN,
        ensures
            ({
                let s = old(self)@;
                let held = old(self).held();
                match r {
                    Ok(a) => s.room() > 0 && if a.done() {
                        s.bytes.len() > 1 && s.bytes[1] == LIST_END && final(self).rests(
                            s.consume(2),
                            held,
                        )
                    } else {
                        final(self).rests(s.consume(1).push(), held) && goes_on(
                            s.bytes.skip(1),
                            LIST_END,
                        )
                    },
                    Err(e) => failed(
                        *old(self),
                        *final(self),
                        e,
                        parse_open_list(s.bytes, s.room(), s.max_depth),
                    ),
                }
            }),
    {
        let ghost s = self@;
        let mut stage = Opening::Begin;
        loop
            invariant
                s == old(self)@,
                self.rests(
                    if stage == Opening::Begin {
                        s
                    } else {
                        s.consume(1).push()
                    },
                    old(self).held(),
                ),
                stage != Opening::Begin ==> s.room() > 0,
                s.bytes.len() > 0,
                s.bytes[0] == LIST_BEGIN,
            decreases self.left(),
        {
            let ghost p = self.decoder@.pending;
            let ghost more = flow(self.source@);
            proof {
                assert(self.decoder@.terminated ==> p + more =~= p);
                if p.len() > 0 {
                    assert(p.skip(1) + more =~= self@.bytes.skip(1));
                    if s.bytes.len() > 1 {
                        assert(s.bytes.skip(1).skip(1) =~= s.bytes.skip(2));
                    }
                }
                if p.len() > 1 {
                    assert(p.skip(1).skip(1) + more =~= self@.bytes.skip(2));
                }
            }
            match SeqAccess::new(&mut self.decoder, &mut stage, None) {
                Step::Done(r) => {
                    return r;
                },
                Step::Read => {
                    proof {
                        assert(self@ =~= if stage == Opening::Begin {
                            s
                        } else {
                            s.consume(1).push()
                        });
                        assert(s.bytes.skip(1).skip(0) =~= s.bytes.skip(1));
                    }
                    if let Err(e) = self.pull() {
                        return Err(e);
                    }
                },
            }
        }
    }

    /// Looks at what follows an element of a list, and closes the list where it ends.
    fn close_list(&mut self, access: &mut SeqAccess) -> (r: Result<(), Error>)
        requires
            old(self).wf(),
            old(self)@.depth > 0,
            !old(access).done(),
        ensures
            ({
                let s = old(self)@;
                let held = old(self).held();
                match r {
                    Ok(()) => if final(access).done() {
                        s.bytes.len() > 0 && s.bytes[0] == LIST_END && final(self).rests(
                            s.consume(1).pop(),
                            held,
                        )
                    } else {
                        final(self).rests(s, held) && goes_on(s.bytes, LIST_END)
                    },
                    Err(e) => s.bytes.len() == 0 && s.fault == Some(e@) && final(self).broke_off(
                        s,
                        held,
                    ),
                }
            }),
    {
        loop
            invariant
                self.rests(old(self)@, old(self).held()),
                self@.depth > 0,
                !access.done(),
            decreases self.left(),
        {
            let ghost s = self@;
            let ghost p = self.decoder@.pending;
            let ghost more = flow(self.source@);
            match access.end_element(&mut self.decoder) {
                Step::Done(()) => {
                    proof {
                        assert(p.len() > 0 ==> p.skip(1) + more =~= s.bytes.skip(1));
                        assert(self.decoder@.terminated ==> p + more =~= p);
                    }
                    return Ok(());
                },
                Step::Read => {
                    if let Err(e) = self.pull() {
                        return Err(e);
                    }
                },
            }
        }
    }

    /// Opens a map.
    fn open_map(&mut self) -> (r: Result<MapAccess, Error>)
        requires
            old(self).wf(),
            old(self)@.bytes.len() > 0,
            old(self)@.bytes[0] == MAP_BEGIN,
        ensures
            ({
                let s = old(self)@;
                let held = old(self).held();
                match r {
                    Ok(a) => s.room() > 0 && if a.done() {
                        s.bytes.len() > 1 && s.bytes[1] == MAP_END && final(self).rests(
                            s.consume(2),
                            held,
                        )
                    } else {
                        final(self).rests(s.consume(1).push(), held) && goes_on(
                            s.bytes.skip(1),
                            MAP_END,
                        )
                    },
                    Err(e) => failed(
                        *old(self),
                        *final(self),
                        e,
                        parse_open_map(s.bytes, s.room(), s.max_depth),
                    ),
                }
            }),
    {
        let ghost s = self@;
        let mut stage = Opening::Begin;
        loop
            invariant
                s == old(self)@,
                self.rests(
                    if stage == Opening::Begin {
                        s
                    } else {
                        s.consume(1).push()
                    },
                    old(self).held(),
                ),
                stage != Opening::Begin ==> s.room() > 0,
                s.bytes.len() > 0,
                s.bytes[0] == MAP_BEGIN,
            decreases self.left(),
        {
            let ghost p = self.decoder@.pending;
            let ghost more = flow(self.source@);
            proof {
                assert(self.decoder@.terminated ==> p + more =~= p);
                if p.len() > 0 {
                    assert(p.skip(1) + more =~= self@.bytes.skip(1));
                    if s.bytes.len() > 1 {
                        assert(s.bytes.skip(1).skip(1) =~= s.bytes.skip(2));
                    }
                }
                if p.len() > 1 {
                    assert(p.skip(1).skip(1) + more =~= self@.bytes.skip(2));
                }
            }
            match MapAccess::new(&mut self.decoder, &mut stage, None) {
                Step::Done(r) => {
                    return r;
                },
                Step::Read => {
                    proof {
                        assert(self@ =~= if stage == Opening::Begin {
                            s
                        } else {
                            s.consume(1).push()
                        });
                        assert(s.bytes.skip(1).skip(0) =~= s.bytes.skip(1));
                    }
                    if let Err(e) = self.pull() {
                        return Err(e);
                    }
                },
            }
        }
    }

    /// Looks at what follows a value of a map, and closes the map where it ends.
    fn close_map(&mut self, access: &mut MapAccess) -> (r: Result<(), Error>)
        requires
            old(self).wf(),
            old(self)@.depth > 0,
            !old(access).done(),
        ensures
            ({
                let s = old(self)@;
                let held = old(self).held();
                match r {
                    Ok(()) => if final(access).done() {
                        s.bytes.len() > 0 && s.bytes[0] == MAP_END && final(self).rests(
                            s.consume(1).pop(),
                            held,
                        )
                    } else {
                        final(self).rests(s, held) && goes_on(s.bytes, MAP_END)
                    },
                    Err(e) => s.bytes.len() == 0 && s.fault == Some(e@) && final(self).broke_off(
                        s,
                        held,
                    ),
                }
            }),
    {
        loop
            invariant
                self.rests(old(self)@, old(self).held()),
                self@.depth > 0,
                !access.done(),
            decreases self.left(),
        {
            let ghost s = self@;
            let ghost p = self.decoder@.pending;
            let ghost more = flow(self.source@);
            match access.end_value(&mut self.decoder) {
                Step::Done(()) => {
                    proof {
                        assert(p.len() > 0 ==> p.skip(1) + more =~= s.bytes.skip(1));
                        assert(self.decoder@.terminated ==> p + more =~= p);
                    }
                    return Ok(());
                },
                Step::Read => {
                    if let Err(e) = self.pull() {
                        return Err(e);
                    }
                },
            }
        }
    }
}

impl Reader {
    /// Reads a list.
    fn read_list(&mut self) -> (r: Result<Vec<Value>, Error>)
        requires
            old(self).wf(),
            old(self)@.bytes.len() > 0,
            old(self)@.bytes[0] == LIST_BEGIN,
        ensures
            answered(
                *old(self),
                *final(self),
                match r {
                    Ok(vs) => Ok(models(vs@)),
                    Err(e) => Err(e),
                },
                parse_open_list(old(self)@.bytes, old(self)@.room(), old(self)@.max_depth),
            ),
        decreases old(self)@.room(), 0nat,
    {
        let ghost s = self@;
        let ghost whole = parse_open_list(s.bytes, s.room(), s.max_depth);
        let mut access = match self.open_list() {
            Ok(access) => access,
            Err(e) => {
                return Err(e);
            },
        };
        let mut vs: Vec<Value> = Vec::new();
        let ghost mut n: nat = if access.done() {
            2
        } else {
            1
        };
        let ghost room = (s.room() - 1) as nat;
        proof {
            if !access.done() {
                let p = parse_list(s.bytes.skip(1), room, s.max_depth);
                if let Parsed::Whole(ws, _) = p {
                    assert(Seq::<Model>::empty() + ws =~= ws);
                }
                assert(behind(Seq::empty(), p) == p);
            }
        }
        while access.next_element()
            invariant
                self.wf(),
                self.held() <= old(self).held(),
                s == old(self)@,
                s.room() > 0,
                room == s.room() - 1,
                n <= s.bytes.len(),
                access.done() ==> self@ == s.consume(n as int) && whole == Parsed::Whole(
                    models(vs@),
                    n,
                ),
                !access.done() ==> self@ == s.consume(n as int).push() && goes_on(
                    self@.bytes,
                    LIST_END,
                ) && whole == behind(
                    models(vs@),
                    parse_list(self@.bytes, room, s.max_depth),
                ).raise(1).shift(n),
                whole == parse_open_list(s.bytes, s.room(), s.max_depth),
            decreases self@.bytes.len(),
        {
            let ghost t = self@.bytes;
            let ghost before = models(vs@);
            proof {
                lemma_list_step(before, t, room, s.max_depth);
            }
            let ghost mid = *self;
            proof {
                lemma_parse_value(t, room, s.max_depth);
            }
            let v = match self.read_value() {
                Ok(v) => v,
                Err(e) => {
                    proof {
                        lemma_failed_later(
                            *old(self),
                            n,
                            1,
                            mid,
                            *self,
                            e,
                            parse_value(t, room, s.max_depth),
                            whole,
                        );
                    }
                    return Err(e);
                },
            };
            proof {
                lemma_models_push(vs@, v);
                let m = t.len() - self@.bytes.len();
                assert(t.skip(m) =~= s.bytes.skip(n + m));
                n = (n + m) as nat;
            }
            vs.push(v);
            let ghost mid = *self;
            let ghost u = self@.bytes;
            if let Err(e) = self.close_list(&mut access) {
                proof {
                    lemma_broke_off_later(*old(self), n, 1, mid, *self, e, whole);
                }
                return Err(e);
            }
            proof {
                if access.done() {
                    assert(models(vs@) + Seq::<Model>::empty() =~= models(vs@));
                    assert(u.skip(1) =~= s.bytes.skip((n + 1) as int));
                    n = n + 1;
                }
            }
        }
        Ok(vs)
    }

    /// Reads a key of a map, and its value.
    fn read_pair(&mut self, access: &MapAccess) -> (r: Result<(Value, Value), Error>)
        requires
            old(self).wf(),
            !access.done(),
        ensures
            answered(
                *old(self),
                *final(self),
                match r {
                    Ok(e) => Ok((e.0@, e.1@)),
                    Err(e) => Err(e),
                },
                parse_pair(old(self)@.bytes, old(self)@.room(), old(self)@.max_depth),
            ),
        decreases old(self)@.room(), 2nat,
    {
        let ghost s = self@;
        proof {
            lemma_parse_value(s.bytes, s.room(), s.max_depth);
        }
        let k = match self.read_value() {
            Ok(k) => k,
            Err(e) => {
                return Err(e);
            },
        };
        if let Err(e) = access.next_value() {
            return Err(e);
        }
        let ghost t = self@;
        let ghost mid = *self;
        proof {
            lemma_parse_value(t.bytes, t.room(), t.max_depth);
        }
        let v = match self.read_value() {
            Ok(v) => v,
            Err(e) => {
                proof {
                    lemma_failed_later(
                        *old(self),
                        (s.bytes.len() - t.bytes.len()) as nat,
                        0,
                        mid,
                        *self,
                        e,
                        parse_value(t.bytes, t.room(), t.max_depth),
                        parse_pair(s.bytes, s.room(), s.max_depth),
                    );
                }
                return Err(e);
            },
        };
        proof {
            let n = s.bytes.len() - t.bytes.len();
            let m = t.bytes.len() - self@.bytes.len();
            assert(s.bytes.skip(n).skip(m) =~= s.bytes.skip(n + m));
        }
        Ok((k, v))
    }

    /// Reads a map.
    fn read_map(&mut self) -> (r: Result<Vec<(Value, Value)>, Error>)
        requires
            old(self).wf(),
            old(self)@.bytes.len() > 0,
            old(self)@.bytes[0] == MAP_BEGIN,
        ensures
            answered(
                *old(self),
                *final(self),
                match r {
                    Ok(es) => Ok(entries(es@)),
                    Err(e) => Err(e),
                },
                parse_open_map(old(self)@.bytes, old(self)@.room(), old(self)@.max_depth),
            ),
        decreases old(self)@.room(), 0nat,
    {
        let ghost s = self@;
        let ghost whole = parse_open_map(s.bytes, s.room(), s.max_depth);
        let mut access = match self.open_map() {
            Ok(access) => access,
            Err(e) => {
                return Err(e);
            },
        };
        let mut es: Vec<(Value, Value)> = Vec::new();
        let ghost mut n: nat = if access.done() {
            2
        } else {
            1
        };
        let ghost room = (s.room() - 1) as nat;
        proof {
            if !access.done() {
                let p = parse_map(s.bytes.skip(1), room, s.max_depth);
                if let Parsed::Whole(fs, _) = p {
                    assert(Seq::<(Model, Model)>::empty() + fs =~= fs);
                }
                assert(behind(Seq::empty(), p) == p);
            }
        }
        while access.next_key()
            invariant
                self.wf(),
                self.held() <= old(self).held(),
                s == old(self)@,
                s.room() > 0,
                room == s.room() - 1,
                n <= s.bytes.len(),
                access.done() ==> self@ == s.consume(n as int) && whole == Parsed::Whole(
                    entries(es@),
                    n,
                ),
                !access.done() ==> self@ == s.consume(n as int).push() && goes_on(
                    self@.bytes,
                    MAP_END,
                ) && whole == behind(
                    entries(es@),
                    parse_map(self@.bytes, room, s.max_depth),
                ).raise(1).shift(n),
                whole == parse_open_map(s.bytes, s.room(), s.max_depth),
            decreases self@.bytes.len(),
        {
            let ghost t = self@.bytes;
            let ghost before = entries(es@);
            proof {
                lemma_map_step(before, t, room, s.max_depth);
            }
            let ghost mid = *self;
            proof {
                lemma_pair(t, room, s.max_depth);
            }
            let (k, v) = match self.read_pair(&access) {
                Ok(pair) => pair,
                Err(e) => {
                    proof {
                        lemma_failed_later(
                            *old(self),
                            n,
                            1,
                            mid,
                            *self,
                            e,
                            parse_pair(t, room, s.max_depth),
                            whole,
                        );
                    }
                    return Err(e);
                },
            };
            proof {
                lemma_entries_push(es@, k, v);
                let m = t.len() - self@.bytes.len();
                assert(t.skip(m) =~= s.bytes.skip(n + m));
                n = (n + m) as nat;
            }
            es.push((k, v));
            let ghost mid = *self;
            let ghost u = self@.bytes;
            if let Err(e) = self.close_map(&mut access) {
                proof {
                    lemma_broke_off_later(*old(self), n, 1, mid, *self, e, whole);
                }
                return Err(e);
            }
            proof {
                if access.done() {
                    assert(entries(es@) + Seq::<(Model, Model)>::empty() =~= entries(es@));
                    assert(u.skip(1) =~= s.bytes.skip((n + 1) as int));
                    n = n + 1;
                }
            }
        }
        Ok(es)
    }

    /// Reads a value of any type.
    pub fn read_value(&mut self) -> (r: Result<Value, Error>)
        requires
            old(self).wf(),
        ensures
            answered(
                *old(self),
                *final(self),
                shown(r),
                parse_value(old(self)@.bytes, old(self)@.room(), old(self)@.max_depth),
            ),
        decreases old(self)@.room(), 1nat,
    {
        proof {
            reveal(parse_leaf);
        }
        let lead = match self.peek() {
            Ok(lead) => lead,
            Err(e) => {
                return Err(e);
            },
        };
        match lead {
            Lead::Array(t) => {
                proof {
                    t.code_is_unambiguous(t);
                }
                self.read_any_array(t)
            },
            Lead::List => match self.read_list() {
                Ok(vs) => Ok(Value::List(vs)),
                Err(e) => Err(e),
            },
            Lead::Dict => match self.read_map() {
                Ok(es) => Ok(Value::Dict(es)),
                Err(e) => Err(e),
            },
            Lead::Text => match self.read_text() {
                Ok(text) => Ok(Value::Text(text)),
                Err(e) => Err(e),
            },
            Lead::Scalar(t) => {
                proof {
                    t.code_is_unambiguous(t);
                }
                self.read_scalar(t)
            },
        }
    }
}

impl Reader {
    /// Skips a value, whatever it is.
    pub fn ignore_value(&mut self) -> (r: Result<(), Error>)
        requires
            old(self).wf(),
        ensures
            answered(
                *old(self),
                *final(self),
                r,
                skip_value(old(self)@.bytes, old(self)@.room(), old(self)@.max_depth),
            ),
    {
        let ghost s = self@;
        let mut skip = Skip::new();
        let ghost mut n: nat = 0;
        proof {
            let state = self.decoder@;
            assert(skip.wf(state));
            assert(rest(skip.todo(state), s.bytes) == skip_value(
                s.bytes,
                s.room(),
                s.max_depth,
            ));
            assert(s.bytes.skip(0) =~= s.bytes);
        }
        loop
            invariant
                self.wf(),
                self.held() <= old(self).held(),
                s == old(self)@,
                skip.wf(self.decoder@),
                n <= s.bytes.len(),
                self@.bytes == s.bytes.skip(n as int),
                self@.fault == s.fault,
                self@.later == s.later,
                self@.max_depth == s.max_depth,
                self@.depth - skip.frames().len() == s.depth,
                skip_value(s.bytes, s.room(), s.max_depth) == rest(
                    skip.todo(self.decoder@),
                    self@.bytes,
                ).shift(n),
            decreases self.left(),
        {
            let ghost t = self@;
            let ghost state = self.decoder@;
            let ghost todo = skip.todo(state);
            let ghost p = state.pending;
            let ghost more = flow(self.source@);
            proof {
                skipping_is_settled(todo, p, more);
                assert(state.terminated ==> p + more =~= p);
            }
            match self.decoder.ignore_value(&mut skip) {
                Step::Done(Ok(())) => {
                    proof {
                        let m = (p.len() - self.decoder@.pending.len()) as nat;
                        assert(p.skip(m as int) + more =~= t.bytes.skip(m as int));
                        assert(t.bytes.skip(m as int) =~= s.bytes.skip((n + m) as int));
                    }
                    return Ok(());
                },
                Step::Done(Err(e)) => {
                    proof {
                        let m = p.len() - self.decoder@.pending.len();
                        assert(self.decoder@.pending + more =~= t.bytes.skip(m));
                        assert(t.bytes.skip(m) =~= s.bytes.skip(n + m));
                    }
                    return Err(e);
                },
                Step::Read => {
                    let ghost after = self.decoder@;
                    proof {
                        lemma_moved_more_to_come(state, todo, after, skip.todo(after), more);
                        let m = (p.len() - after.pending.len()) as nat;
                        assert(after.pending + more =~= t.bytes.skip(m as int));
                        assert(t.bytes.skip(m as int) =~= s.bytes.skip((n + m) as int));
                        n = n + m;
                    }
                    if let Err(e) = self.pull() {
                        return Err(e);
                    }
                    proof {
                        skip.wf_extend(after, self.decoder@);
                    }
                },
            }
        }
    }

    /// Makes sure that the stream ends here.
    pub fn ensure_eof(&mut self) -> (r: Result<(), Error>)
        requires
            old(self).wf(),
        ensures
            ({
                let s = old(self)@;
                match r {
                    Ok(()) => {
                        &&& s.bytes.len() == 0
                        &&& s.fault is None
                        &&& final(self).rests(s, old(self).held())
                    },
                    Err(e) => if s.bytes.len() > 0 {
                        &&& e@ == "expected end of stream, found trailing bytes"@
                        &&& final(self).rests(s, old(self).held())
                    } else {
                        &&& s.fault == Some(e@)
                        &&& final(self).broke_off(s, old(self).held())
                    },
                }
            }),
    {
        loop
            invariant
                self.rests(old(self)@, old(self).held()),
            decreases self.left(),
        {
            match self.decoder.ensure_eof() {
                Step::Done(r) => {
                    return r;
                },
                Step::Read => {
                    if let Err(e) = self.pull() {
                        return Err(e);
                    }
                },
            }
        }
    }
}

/// What a stream that holds one value comes to, where its bytes read as `p`.
pub open spec fn concluded<T>(
    p: Parsed<T>,
    bytes: Seq<u8>,
    fault: Option<Seq<char>>,
) -> Result<T, Seq<char>> {
    match p {
        Parsed::Invalid(stop) => Err(stop.text),
        Parsed::Partial(stop) => Err(
            match fault {
                Some(t) => t,
                None => stop.text,
            },
        ),
        Parsed::Whole(v, n) => if n < bytes.len() {
            Err("expected end of stream, found trailing bytes"@)
        } else {
            match fault {
                Some(t) => Err(t),
                None => Ok(v),
            }
        },
    }
}

/// What reading a stream that holds one value comes to. The stream hands out `bytes`, and then
/// ends or breaks off with an error.
pub open spec fn decoded(bytes: Seq<u8>, fault: Option<Seq<char>>, max_depth: nat) -> Result<
    Model,
    Seq<char>,
> {
    concluded(parse_value(bytes, max_depth, max_depth), bytes, fault)
}

/// What skipping a stream that holds one value comes to.
pub open spec fn ignored(bytes: Seq<u8>, fault: Option<Seq<char>>, max_depth: nat) -> Result<
    (),
    Seq<char>,
> {
    concluded(skip_value(bytes, max_depth, max_depth), bytes, fault)
}

/// Reads the one value that a stream holds.
pub fn try_decode(source: VecDeque<Result<Bytes, Error>>) -> (r: Result<Value, Error>)
    requires
        flow(source@).len() <= isize::MAX,
    ensures
        match r {
            Ok(v) => decoded(flow(source@), fault(source@), DEFAULT_MAX_DEPTH as nat) == Ok::<
                Model,
                Seq<char>,
            >(v@),
            Err(e) => decoded(flow(source@), fault(source@), DEFAULT_MAX_DEPTH as nat) == Err::<
                Model,
                Seq<char>,
            >(e@),
        },
{
    try_decode_with_max_depth(source, DEFAULT_MAX_DEPTH)
}

/// Reads the one value that a stream holds. Lists and maps may be nested `max_depth` deep.
pub fn try_decode_with_max_depth(
    source: VecDeque<Result<Bytes, Error>>,
    max_depth: usize,
) -> (r: Result<Value, Error>)
    requires
        flow(source@).len() <= isize::MAX,
    ensures
        match r {
            Ok(v) => decoded(flow(source@), fault(source@), max_depth as nat) == Ok::<
                Model,
                Seq<char>,
            >(v@),
            Err(e) => decoded(flow(source@), fault(source@), max_depth as nat) == Err::<
                Model,
                Seq<char>,
            >(e@),
        },
{
    let mut reader = Reader::new(source, max_depth);
    let ghost s = reader@;
    proof {
        lemma_parse_value(s.bytes, s.room(), s.max_depth);
    }
    let value = match reader.read_value() {
        Ok(value) => value,
        Err(e) => {
            return Err(e);
        },
    };
    match reader.ensure_eof() {
        Ok(()) => Ok(value),
        Err(e) => Err(e),
    }
}

/// Skips the one value that a stream holds.
pub fn try_ignore(source: VecDeque<Result<Bytes, Error>>) -> (r: Result<(), Error>)
    requires
        flow(source@).len() <= isize::MAX,
    ensures
        match r {
            Ok(v) => ignored(flow(source@), fault(source@), DEFAULT_MAX_DEPTH as nat) == Ok::<
                (),
                Seq<char>,
            >(v),
            Err(e) => ignored(flow(source@), fault(source@), DEFAULT_MAX_DEPTH as nat) == Err::<
                (),
                Seq<char>,
            >(e@),
        },
{
    try_ignore_with_max_depth(source, DEFAULT_MAX_DEPTH)
}

/// Skips the one value that a stream holds. Lists and maps may be nested `max_depth` deep.
pub fn try_ignore_with_max_depth(
    source: VecDeque<Result<Bytes, Error>>,
    max_depth: usize,
) -> (r: Result<(), Error>)
    requires
        flow(source@).len() <= isize::MAX,
    ensures
        match r {
            Ok(v) => ignored(flow(source@), fault(source@), max_depth as nat) == Ok::<
                (),
                Seq<char>,
            >(v),
            Err(e) => ignored(flow(source@), fault(source@), max_depth as nat) == Err::<
                (),
                Seq<char>,
            >(e@),
        },
{
    let mut reader = Reader::new(source, max_depth);
    let ghost s = reader@;
    proof {
        lemma_skip_value(s.bytes, s.room(), s.max_depth);
    }
    if let Err(e) = reader.ignore_value() {
        return Err(e);
    }
    reader.ensure_eof()
}

/// The bytes of `chunks`, one behind the other.
pub open spec fn joined(chunks: Seq<Bytes>) -> Seq<u8>
    decreases chunks.len(),
{
    if chunks.len() == 0 {
        Seq::empty()
    } else {
        bytes_contents(chunks[0]) + joined(chunks.skip(1))
    }
}

/// The number of bytes of `chunks`, where it can be told.
pub fn joined_len(chunks: &VecDeque<Bytes>) -> (len: Option<usize>)
    ensures
        match len {
            Some(n) => n == joined(chunks@).len(),
            None => joined(chunks@).len() > usize::MAX,
        },
{
    let mut n: usize = 0;
    let mut i: usize = 0;
    proof {
        assert(chunks@.skip(0) =~= chunks@);
    }
    while i < chunks.len()
        invariant
            i <= chunks@.len(),
            joined(chunks@).len() == n + joined(chunks@.skip(i as int)).len(),
        decreases chunks@.len() - i,
    {
        proof {
            assert(chunks@.skip(i as int).skip(1) =~= chunks@.skip(i + 1));
        }
        match n.checked_add(bytes_as_slice(&chunks[i]).len()) {
            None => {
                return None;
            },
            Some(sum) => {
                n = sum;
            },
        }
        i = i + 1;
    }
    Some(n)
}

proof fn lemma_flow_push(source: Seq<Result<Bytes, Error>>, data: Bytes)
    requires
        fault(source) is None,
    ensures
        flow(source.push(Ok(data))) == flow(source) + bytes_contents(data),
        fault(source.push(Ok(data))) is None,
    decreases source.len(),
{
    let longer = source.push(Ok(data));
    if source.len() == 0 {
        assert(longer.skip(1).len() == 0);
        assert(flow(longer.skip(1)) =~= Seq::<u8>::empty());
        assert(fault(longer.skip(1)) is None);
        assert(flow(longer) =~= flow(source) + bytes_contents(data));
    } else {
        assert(longer.skip(1) =~= source.skip(1).push(Ok(data)));
        lemma_flow_push(source.skip(1), data);
        assert(flow(longer) =~= flow(source) + bytes_contents(data));
    }
}

/// Reads the one value that a stream holds.
pub fn decode(source: VecDeque<Bytes>) -> (r: Result<Value, Error>)
    requires
        joined(source@).len() <= isize::MAX,
    ensures
        match r {
            Ok(v) => decoded(joined(source@), None, DEFAULT_MAX_DEPTH as nat) == Ok::<
                Model,
                Seq<char>,
            >(v@),
            Err(e) => decoded(joined(source@), None, DEFAULT_MAX_DEPTH as nat) == Err::<
                Model,
                Seq<char>,
            >(e@),
        },
{
    decode_with_max_depth(source, DEFAULT_MAX_DEPTH)
}

/// Reads the one value that a stream holds. Lists and maps may be nested `max_depth` deep.
pub fn decode_with_max_depth(source: VecDeque<Bytes>, max_depth: usize) -> (r: Result<
    Value,
    Error,
>)
    requires
        joined(source@).len() <= isize::MAX,
    ensures
        match r {
            Ok(v) => decoded(joined(source@), None, max_depth as nat) == Ok::<Model, Seq<char>>(v@),
            Err(e) => decoded(joined(source@), None, max_depth as nat) == Err::<Model, Seq<char>>(
                e@,
            ),
        },
{
    let ghost whole = joined(source@);
    let mut chunks = source;
    let mut events: VecDeque<Result<Bytes, Error>> = VecDeque::new();
    proof {
        assert(Seq::<u8>::empty() + whole =~= whole);
    }
    loop
        invariant
            flow(events@) + joined(chunks@) == whole,
            fault(events@) is None,
            whole == joined(source@),
            whole.len() <= isize::MAX,
        ensures
            flow(events@) == whole,
            fault(events@) is None,
        decreases chunks@.len(),
    {
        let ghost before = chunks@;
        match chunks.pop_front() {
            None => {
                proof {
                    assert(flow(events@) + Seq::<u8>::empty() =~= flow(events@));
                }
                break;
            },
            Some(data) => {
                proof {
                    assert(before.subrange(1, before.len() as int) =~= before.skip(1));
                    lemma_flow_push(events@, data);
                    assert((flow(events@) + bytes_contents(data)) + joined(chunks@) =~= flow(
                        events@,
                    ) + joined(before));
                }
                events.push_back(Ok(data));
            },
        }
    }
    try_decode_with_max_depth(events, max_depth)
}

} // verus!
