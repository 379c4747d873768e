//! Skipping values that nobody asked for.
//!
//! A [`Skip`] keeps track of the lists and maps around the next byte on a stack of its own, so
//! that deep nesting costs no more than the bytes that make it up.

use vstd::prelude::*;

use crate::constants::{
    Type, ARRAY_DELIMIT, ESCAPE, LIST_BEGIN, LIST_END, MAP_BEGIN, MAP_END, STRING_DELIMIT,
};
use crate::de::{
    delimiter_text, enters, inside, tells, unfinished, Decoder, Outcome, State, Step,
};
use crate::element::{Element, F32, F64};
use crate::error::{depth_text, type_bit_text, Error};
use crate::escape::{
    dangling, lemma_tail_extend, lemma_tail_resume, lemma_tail_start, lemma_text_end,
    lemma_text_open_prefix, let_go, tail_end, text_open, waiting, Skim, SKIP_LEN,
};
use crate::grammar::{
    cut_short, invalid, lemma_skip_entry, lemma_skip_entry_extend, lemma_skip_list,
    lemma_skip_list_extend, lemma_skip_map, lemma_skip_map_extend, lemma_skip_text,
    lemma_skip_text_extend, lemma_skip_value, settled, skip_entry, skip_leaf, skip_list,
    skip_map, skip_scalar, skip_text, skip_value, skip_value_extend, text_let_go, Parsed, Stop,
};

verus! {

/// A list or map that is open.
#[derive(Clone, Copy, Debug, PartialEq, Eq, Structural)]
pub enum Frame {
    /// A list.
    List,
    /// A map, and whether a key has been skipped whose value has not.
    Dict { expecting_value: bool },
}

/// What comes next.
#[derive(Clone, Copy, Debug, PartialEq, Eq, Structural)]
pub enum Phase {
    /// A value.
    Value,
    /// What follows a value: the end of a list or map, or another value.
    Next,
    /// The type bit of an array, and its text.
    ArrayType,
    /// Text up to `end`; `escaped` says whether an escape byte waits.
    Text { end: u8, escaped: bool },
}

/// What is left to be skipped.
#[verifier::ext_equal]
pub ghost struct Todo {
    /// The lists and maps that are open, the innermost one last.
    pub stack: Seq<Frame>,
    /// What comes next.
    pub phase: Phase,
    /// The number of lists and maps that may still be opened.
    pub room: nat,
    /// The number of lists and maps that may be open.
    pub limit: nat,
}

/// What is left of the list or map `frame`.
pub open spec fn skip_frame(frame: Frame, s: Seq<u8>, room: nat, limit: nat) -> Parsed<()> {
    match frame {
        Frame::List => skip_list(s, room, limit),
        Frame::Dict { expecting_value: false } => skip_map(s, room, limit),
        Frame::Dict { expecting_value: true } => skip_entry(s, room, limit),
    }
}

/// What is left of all the lists and maps on `stack`.
pub open spec fn skip_stack(stack: Seq<Frame>, s: Seq<u8>, room: nat, limit: nat) -> Parsed<()>
    decreases stack.len(),
{
    if stack.len() == 0 {
        Parsed::Whole((), 0)
    } else {
        match skip_frame(stack.last(), s, room, limit) {
            Parsed::Whole(_, n) => skip_stack(
                stack.drop_last(),
                s.skip(n as int),
                room + 1,
                limit,
            ).shift(n),
            other => other.raise(stack.len()),
        }
    }
}

/// What is left of the value that is being skipped, without the lists and maps around it.
pub open spec fn skip_phase(phase: Phase, s: Seq<u8>, room: nat, limit: nat) -> Parsed<()> {
    match phase {
        Phase::Value => skip_value(s, room, limit),
        Phase::Next => Parsed::Whole((), 0),
        Phase::ArrayType => if s.len() == 0 {
            cut_short(0)
        } else {
            skip_text(s.skip(1), ARRAY_DELIMIT).shift(1)
        },
        Phase::Text { end, escaped } => match tail_end(escaped, s, end) {
            Some(k) => Parsed::Whole((), (k + 1) as nat),
            None => cut_short(text_let_go(end, s.len())),
        },
    }
}

/// What is left to be skipped, where the stream goes on with `s`. Where it stops short, the lists
/// and maps on the stack are among those that are open.
#[verifier::opaque]
pub open spec fn rest(todo: Todo, s: Seq<u8>) -> Parsed<()> {
    match skip_phase(todo.phase, s, todo.room, todo.limit) {
        Parsed::Whole(_, n) => skip_stack(
            todo.stack,
            s.skip(n as int),
            todo.room,
            todo.limit,
        ).shift(n),
        other => other.raise(todo.stack.len()),
    }
}

/// Whether skipping `todo` comes to the same as consuming `n` of the bytes `p` and skipping
/// `after`, whatever arrives behind `p`.
#[verifier::opaque]
pub open spec fn advances(todo: Todo, p: Seq<u8>, after: Todo, n: nat) -> bool {
    &&& n <= p.len()
    &&& forall|more: Seq<u8>| #[trigger]
        rest(todo, p + more) == rest(after, p.skip(n as int) + more).shift(n)
}

/// What skipping text between the bytes `begin` and `end` comes to: the state afterwards, whether
/// the opening byte has been consumed, whether an escape byte waits behind what has been consumed,
/// and the outcome.
pub open spec fn skip_string(s: State, opened: bool, escaped: bool, begin: u8, end: u8) -> (
    State,
    bool,
    bool,
    Outcome,
) {
    let t = inside(s, opened);
    if enters(s, opened, begin) {
        match tail_end(escaped, t.pending, end) {
            Some(k) => (t.consume(k + 1), true, false, Outcome::Ends),
            None => {
                let n = let_go(t.pending.len()) as int;
                (
                    t.consume(n),
                    true,
                    dangling(waiting(escaped) + t.pending.take(n)),
                    unfinished(t),
                )
            },
        }
    } else if s.pending.len() == 0 {
        (s, false, false, unfinished(s))
    } else {
        (s, false, false, Outcome::Fails(delimiter_text(s.pending, begin)))
    }
}

impl Decoder {
    /// Consumes text up to and with the byte `end` that closes it. Where bytes are missing, the
    /// bytes there are stay unread, but for lots of them that `lets_go` allows to let go of.
    fn skim_text(&mut self, skim: &mut Skim, end: u8, lets_go: bool) -> (r: Step<
        Result<(), Error>,
    >)
        requires
            old(self).wf(),
            old(skim).opened(),
            old(skim).fits(old(self)@.pending, end),
            end != ESCAPE || !old(skim).escaped(),
        ensures
            final(self).wf(),
            final(self).kept().len() <= old(self).kept().len(),
            final(skim).opened(),
            ({
                let s = old(self)@;
                let p = s.pending;
                let w = waiting(old(skim).escaped());
                match tail_end(old(skim).escaped(), p, end) {
                    Some(k) => r matches Step::Done(Ok(_)) && final(self)@ == s.consume(k + 1),
                    None => {
                        let n = if lets_go {
                            let_go(p.len()) as int
                        } else {
                            0
                        };
                        &&& 0 <= n <= p.len()
                        &&& final(self)@ == s.consume(n)
                        &&& text_open(w + p, end)
                        &&& final(skim).escaped() == dangling(w + p.take(n))
                        &&& final(skim).fits(final(self)@.pending, end)
                        &&& match r {
                            Step::Read => !s.terminated,
                            Step::Done(Ok(())) => false,
                            Step::Done(Err(e)) => s.terminated && e@
                                == "unexpected end of stream"@,
                        }
                    },
                }
            }),
    {
        let len: usize = self.remaining();
        let n: usize = if lets_go && len > 0 {
            (len - 1) / SKIP_LEN * SKIP_LEN
        } else {
            0
        };
        proof {
            lemma_tail_extend(skim.escaped(), self@.pending, Seq::empty(), end);
        }
        match skim.advance(self.available(), end, n) {
            Some(k) => {
                self.consume(k + 1);
                Step::Done(Ok(()))
            },
            None => {
                self.consume(n);
                if self.is_terminated() {
                    Step::Done(Err(Error::unexpected_end()))
                } else {
                    Step::Read
                }
            },
        }
    }

    /// Consumes text between the bytes `begin` and `end`. How far it has come is kept in `skim`
    /// from call to call.
    pub fn ignore_string(&mut self, skim: &mut Skim, begin: u8, end: u8) -> (r: Step<
        Result<(), Error>,
    >)
        requires
            old(self).wf(),
            old(skim).fits(old(self)@.pending, end),
            end != ESCAPE || !old(skim).escaped(),
        ensures
            final(self).wf(),
            final(self).kept().len() <= old(self).kept().len(),
            r is Read ==> final(skim).fits(final(self)@.pending, end),
            ({
                let (t, opened, escaped, outcome) = skip_string(
                    old(self)@,
                    old(skim).opened(),
                    old(skim).escaped(),
                    begin,
                    end,
                );
                &&& final(self)@ == t
                &&& tells(r, outcome)
                &&& outcome is Waits ==> final(skim).opened() == opened && final(skim).escaped()
                    == escaped
            }),
    {
        if !skim.is_opened() {
            proof {
                skim.unopened(self@.pending, end);
            }
            match self.expect_delimiter(begin) {
                Step::Read => {
                    return Step::Read;
                },
                Step::Done(Err(e)) => {
                    return Step::Done(Err(e));
                },
                Step::Done(Ok(())) => {
                    skim.open();
                },
            }
        }
        self.skim_text(skim, end, true)
    }
}

/// How an element reads where all that matters is where it ends.
proof fn lemma_element<N: Element>(p: Seq<u8>)
    requires
        p.len() > N::kind().width(),
    ensures
        skip_scalar(N::kind(), p) is Whole <==> N::from_bytes(
            p.subrange(1, 1 + N::kind().width() as int),
        ) is Some,
{
    N::from_bytes_domain(p.subrange(1, 1 + N::kind().width() as int));
}

impl Decoder {
    /// Consumes a value of type `N`.
    fn ignore_element<N: Element>(&mut self) -> (r: Step<Result<(), Error>>)
        requires
            old(self).wf(),
            old(self)@.pending.len() > 0,
            old(self)@.pending[0] == N::kind().code(),
        ensures
            final(self).wf(),
            final(self).kept().len() <= old(self).kept().len(),
            ({
                let s = old(self)@;
                match skip_scalar(N::kind(), s.pending) {
                    Parsed::Whole(_, n) => r matches Step::Done(Ok(_)) && final(self)@
                        == s.consume(n as int),
                    Parsed::Partial(stop) => {
                        &&& final(self)@ == s
                        &&& match r {
                            Step::Read => !s.terminated,
                            Step::Done(Ok(())) => false,
                            Step::Done(Err(e)) => s.terminated && e@ == stop.text,
                        }
                    },
                    Parsed::Invalid(stop) => r matches Step::Done(Err(e)) && e@ == stop.text
                        && final(self)@ == s.consume(stop.at as int),
                }
            }),
    {
        proof {
            if self@.pending.len() > N::kind().width() {
                lemma_element::<N>(self@.pending);
            }
        }
        match self.parse_element::<N>() {
            Step::Read => Step::Read,
            Step::Done(Ok(_)) => Step::Done(Ok(())),
            Step::Done(Err(e)) => Step::Done(Err(e)),
        }
    }

    /// Consumes a value of type `t`.
    fn ignore_scalar(&mut self, t: Type) -> (r: Step<Result<(), Error>>)
        requires
            old(self).wf(),
            old(self)@.pending.len() > 0,
            old(self)@.pending[0] == t.code(),
        ensures
            final(self).wf(),
            final(self).kept().len() <= old(self).kept().len(),
            ({
                let s = old(self)@;
                match skip_scalar(t, s.pending) {
                    Parsed::Whole(_, n) => r matches Step::Done(Ok(_)) && final(self)@
                        == s.consume(n as int),
                    Parsed::Partial(stop) => {
                        &&& final(self)@ == s
                        &&& match r {
                            Step::Read => !s.terminated,
                            Step::Done(Ok(())) => false,
                            Step::Done(Err(e)) => s.terminated && e@ == stop.text,
                        }
                    },
                    Parsed::Invalid(stop) => r matches Step::Done(Err(e)) && e@ == stop.text
                        && final(self)@ == s.consume(stop.at as int),
                }
            }),
    {
        match t {
            Type::Unit => self.parse_unit(),
            Type::Bool => self.ignore_element::<bool>(),
            Type::F32 => self.ignore_element::<F32>(),
            Type::F64 => self.ignore_element::<F64>(),
            Type::I8 => self.ignore_element::<i8>(),
            Type::I16 => self.ignore_element::<i16>(),
            Type::I32 => self.ignore_element::<i32>(),
            Type::I64 => self.ignore_element::<i64>(),
            Type::U8 => self.ignore_element::<u8>(),
            Type::U16 => self.ignore_element::<u16>(),
            Type::U32 => self.ignore_element::<u32>(),
            Type::U64 => self.ignore_element::<u64>(),
        }
    }
}

/// Skipping something whole, and then what is left.
proof fn lemma_done(todo: Todo, s: Seq<u8>, n: nat)
    requires
        skip_phase(todo.phase, s, todo.room, todo.limit) == Parsed::Whole((), n),
        n <= s.len(),
    ensures
        rest(todo, s) == rest(Todo { phase: Phase::Next, ..todo }, s.skip(n as int)).shift(n),
{
    reveal(rest);
    assert(s.skip(n as int).skip(0) =~= s.skip(n as int));
}

/// Opening a list or map.
proof fn lemma_open(todo: Todo, frame: Frame, s: Seq<u8>)
    requires
        todo.phase == Phase::Value,
        s.len() > 0,
        todo.room > 0,
        s[0] == LIST_BEGIN && frame == Frame::List || s[0] == MAP_BEGIN && frame == (Frame::Dict {
            expecting_value: false,
        }),
    ensures
        rest(todo, s) == rest(
            Todo {
                stack: todo.stack.push(frame),
                phase: Phase::Next,
                room: (todo.room - 1) as nat,
                limit: todo.limit,
            },
            s.skip(1),
        ).shift(1),
{
    reveal(rest);
    let t = s.skip(1);
    let room = (todo.room - 1) as nat;
    assert(t.skip(0) =~= t);
    assert(todo.stack.push(frame).drop_last() =~= todo.stack);
    lemma_skip_list(t, room, todo.limit);
    lemma_skip_map(t, room, todo.limit);
    if let Parsed::Whole(_, n) = skip_frame(frame, t, room, todo.limit) {
        assert(t.skip(n as int) =~= s.skip((1 + n) as int));
    }
}

/// Closing a list or map.
proof fn lemma_close(todo: Todo, s: Seq<u8>)
    requires
        todo.phase == Phase::Next,
        todo.stack.len() > 0,
        s.len() > 0,
        s[0] == LIST_END && todo.stack.last() == Frame::List || s[0] == MAP_END
            && todo.stack.last() == (Frame::Dict { expecting_value: false }),
    ensures
        rest(todo, s) == rest(
            Todo {
                stack: todo.stack.drop_last(),
                phase: Phase::Next,
                room: todo.room + 1,
                limit: todo.limit,
            },
            s.skip(1),
        ).shift(1),
{
    reveal(rest);
    assert(s.skip(0) =~= s);
    assert(s.skip(1).skip(0) =~= s.skip(1));
}

/// Going on in a list or map.
proof fn lemma_more(todo: Todo, frame: Frame, s: Seq<u8>)
    requires
        todo.phase == Phase::Next,
        todo.stack.len() > 0,
        match todo.stack.last() {
            Frame::List => s.len() > 0 && s[0] != LIST_END && frame == Frame::List,
            Frame::Dict { expecting_value: false } => s.len() > 0 && s[0] != MAP_END && frame == (
            Frame::Dict { expecting_value: true }),
            Frame::Dict { expecting_value: true } => frame == (Frame::Dict {
                expecting_value: false,
            }),
        },
    ensures
        rest(todo, s) == rest(
            Todo {
                stack: todo.stack.drop_last().push(frame),
                phase: Phase::Value,
                room: todo.room,
                limit: todo.limit,
            },
            s,
        ),
{
    reveal(rest);
    assert(s.skip(0) =~= s);
    assert(todo.stack.drop_last().push(frame).drop_last() =~= todo.stack.drop_last());
    lemma_skip_value(s, todo.room, todo.limit);
    if let Parsed::Whole(_, n) = skip_value(s, todo.room, todo.limit) {
        let t = s.skip(n as int);
        lemma_skip_list(t, todo.room, todo.limit);
        lemma_skip_map(t, todo.room, todo.limit);
        lemma_skip_entry(t, todo.room, todo.limit);
        if let Parsed::Whole(_, m) = skip_frame(frame, t, todo.room, todo.limit) {
            assert(t.skip(m as int) =~= s.skip((n + m) as int));
        }
    }
}

/// Opening an array.
proof fn lemma_array(todo: Todo, s: Seq<u8>)
    requires
        todo.phase == Phase::Value,
        s.len() > 0,
        s[0] == ARRAY_DELIMIT,
    ensures
        rest(todo, s) == rest(Todo { phase: Phase::ArrayType, ..todo }, s.skip(1)).shift(1),
{
    reveal(skip_leaf);
    reveal(rest);
    if s.len() > 1 {
        assert(s.skip(1).skip(1) =~= s.skip(2));
        lemma_text_end(s.skip(2), ARRAY_DELIMIT);
        if let Parsed::Whole(_, n) = skip_text(s.skip(2), ARRAY_DELIMIT) {
            assert(s.skip(1).skip((1 + n) as int) =~= s.skip((2 + n) as int));
        }
    }
}

/// Opening text.
proof fn lemma_text(todo: Todo, end: u8, s: Seq<u8>)
    requires
        todo.phase == Phase::ArrayType && end == ARRAY_DELIMIT || todo.phase == Phase::Value
            && s[0] == STRING_DELIMIT && end == STRING_DELIMIT,
        s.len() > 0,
    ensures
        rest(todo, s) == rest(
            Todo { phase: Phase::Text { end, escaped: false }, ..todo },
            s.skip(1),
        ).shift(1),
{
    reveal(skip_leaf);
    reveal(rest);
    lemma_tail_start(s.skip(1), end);
    lemma_text_end(s.skip(1), end);
    if let Parsed::Whole(_, n) = skip_text(s.skip(1), end) {
        assert(s.skip(1).skip(n as int) =~= s.skip((1 + n) as int));
    }
}

/// Letting go of lots of bytes, and then of more.
proof fn lemma_let_go(n: nat, m: nat)
    requires
        n % SKIP_LEN as nat == 0,
        n == 0 || m > 0,
    ensures
        let_go(n + m) == n + let_go(m),
{
}

/// Going on in text behind what has been let go of.
proof fn lemma_resume(todo: Todo, end: u8, escaped: bool, p: Seq<u8>, more: Seq<u8>)
    requires
        todo.phase == (Phase::Text { end, escaped }),
        text_open(waiting(escaped) + p, end),
        text_let_go(end, p.len() + more.len()) == p.len() + text_let_go(end, more.len()),
    ensures
        rest(todo, p + more) == rest(
            Todo {
                phase: Phase::Text { end, escaped: dangling(waiting(escaped) + p) },
                ..todo
            },
            more,
        ).shift(p.len()),
{
    let after = dangling(waiting(escaped) + p);
    let next = Todo { phase: Phase::Text { end, escaped: after }, ..todo };
    lemma_tail_resume(escaped, p, more, end);
    match tail_end(after, more, end) {
        None => {
            lemma_stuck(todo, p + more);
            lemma_stuck(next, more);
        },
        Some(k) => {
            lemma_done(todo, p + more, (p.len() + k + 1) as nat);
            lemma_done(next, more, (k + 1) as nat);
            assert((p + more).skip(p.len() + k + 1) =~= more.skip(k + 1));
        },
    }
}

/// How far a value has been skipped.
#[derive(Debug)]
pub struct Skip {
    stack: Vec<Frame>,
    phase: Phase,
    skim: Skim,
}

impl Skip {
    /// The lists and maps that are open, the innermost one last.
    pub closed spec fn frames(self) -> Seq<Frame> {
        self.stack@
    }

    /// What comes next.
    pub closed spec fn phase(self) -> Phase {
        self.phase
    }

    /// What is left to be skipped by a decoder in state `s`.
    pub open spec fn todo(self, s: State) -> Todo {
        Todo { stack: self.frames(), phase: self.phase(), room: s.room(), limit: s.max_depth }
    }

    /// What holds of every value that is being skipped by a decoder in state `s`.
    pub open spec fn wf(self, s: State) -> bool {
        &&& self.frames().len() <= s.depth
        &&& self.phase() matches Phase::Text { end, escaped } ==> end != ESCAPE && self.skims(
            s.pending,
            end,
            escaped,
        )
    }

    /// Whether what has been examined of the text that is being skipped is at the start of `p`.
    pub closed spec fn skims(self, p: Seq<u8>, end: u8, escaped: bool) -> bool {
        &&& self.skim.opened()
        &&& self.skim.escaped() == escaped
        &&& self.skim.fits(p, end)
    }

    /// What has been skipped stays so when more bytes arrive.
    pub proof fn wf_extend(self, s: State, after: State)
        requires
            self.wf(s),
            s.pending.is_prefix_of(after.pending),
            s.depth <= after.depth,
        ensures
            self.wf(after),
    {
        if let Phase::Text { end, .. } = self.phase() {
            let more = after.pending.skip(s.pending.len() as int);
            self.skim.fits_extend(s.pending, more, end);
            assert(s.pending + more =~= after.pending);
        }
    }

    /// Nothing has been skipped yet.
    pub fn new() -> (skip: Skip)
        ensures
            forall|s: State| #[trigger] skip.wf(s),
            skip.frames().len() == 0,
            forall|s: State, p: Seq<u8>| #[trigger]
                rest(skip.todo(s), p) == skip_value(p, s.room(), s.max_depth),
    {
        let skip = Skip { stack: Vec::new(), phase: Phase::Value, skim: Skim::new() };
        proof {
            assert forall|s: State, p: Seq<u8>| #[trigger]
                rest(skip.todo(s), p) == skip_value(p, s.room(), s.max_depth) by {
                reveal(rest);
                if let Parsed::Whole(u, n) = skip_value(p, s.room(), s.max_depth) {
                    assert(u == ());
                    assert(skip_stack(skip.frames(), p.skip(n as int), s.room(), s.max_depth)
                        == Parsed::Whole((), 0));
                }
            }
        }
        skip
    }
}

/// Whether a decoder and what it skips went from `before` and `todo` to `after` and `next`.
pub open spec fn moved(before: State, todo: Todo, after: State, next: Todo) -> bool {
    let n = before.pending.len() - after.pending.len();
    &&& 0 <= n
    &&& after.pending == before.pending.skip(n)
    &&& after.max_depth == before.max_depth
    &&& after.terminated == before.terminated
    &&& after.depth - next.stack.len() == before.depth - todo.stack.len()
    &&& advances(todo, before.pending, next, n as nat)
}

/// The state of a decoder that has stopped at `stop` while it skipped `todo`.
pub open spec fn stopped(s: State, todo: Todo, stop: Stop) -> State {
    State {
        pending: s.pending.skip(stop.at as int),
        depth: (s.depth - todo.stack.len() + stop.opened) as nat,
        ..s
    }
}

/// Whether skipping `todo` comes to an error with the given text, which leaves the decoder in state
/// `after`.
pub open spec fn refused(s: State, todo: Todo, text: Seq<char>, after: State) -> bool {
    match rest(todo, s.pending) {
        Parsed::Whole(..) => false,
        Parsed::Partial(stop) => s.terminated && text == stop.text && after == stopped(
            s,
            todo,
            stop,
        ),
        Parsed::Invalid(stop) => text == stop.text && after == stopped(s, todo, stop),
    }
}

/// Whether skipping `todo` has to wait for more bytes, which leaves the decoder in state `after`.
pub open spec fn waits(s: State, todo: Todo, after: State) -> bool {
    &&& !s.terminated
    &&& rest(todo, s.pending) matches Parsed::Partial(stop)
    &&& after == stopped(s, todo, stop)
}

proof fn lemma_moved(a: State, x: Todo, b: State, y: Todo, c: State, z: Todo)
    requires
        moved(a, x, b, y),
        moved(b, y, c, z),
    ensures
        moved(a, x, c, z),
{
    reveal(advances);
    let n = (a.pending.len() - b.pending.len()) as nat;
    let m = (b.pending.len() - c.pending.len()) as nat;
    assert(a.pending.skip((n + m) as int) =~= c.pending);
    assert forall|more: Seq<u8>| #[trigger]
        rest(x, a.pending + more) == rest(z, c.pending + more).shift(n + m) by {
        assert(rest(y, b.pending + more) == rest(z, c.pending + more).shift(m));
    }
}

proof fn lemma_unmoved(a: State, x: Todo)
    ensures
        moved(a, x, a, x),
{
    reveal(advances);
    assert(a.pending.skip(0) =~= a.pending);
    assert forall|more: Seq<u8>| #[trigger]
        rest(x, a.pending + more) == rest(x, a.pending + more).shift(0) by {}
}

proof fn lemma_moved_now(a: State, x: Todo, b: State, y: Todo)
    requires
        moved(a, x, b, y),
    ensures
        rest(x, a.pending) == rest(y, b.pending).shift(
            (a.pending.len() - b.pending.len()) as nat,
        ),
{
    reveal(advances);
    let none = Seq::<u8>::empty();
    assert(a.pending + none =~= a.pending);
    assert(b.pending + none =~= b.pending);
    assert(rest(x, a.pending + none) == rest(y, b.pending + none).shift(
        (a.pending.len() - b.pending.len()) as nat,
    ));
}

/// What is left to be skipped comes to the same before and after, whatever arrives.
pub proof fn lemma_moved_more_to_come(a: State, x: Todo, b: State, y: Todo, more: Seq<u8>)
    requires
        moved(a, x, b, y),
    ensures
        rest(x, a.pending + more) == rest(y, b.pending + more).shift(
            (a.pending.len() - b.pending.len()) as nat,
        ),
{
    reveal(advances);
}

proof fn lemma_stack_extend(stack: Seq<Frame>, s: Seq<u8>, more: Seq<u8>, room: nat, limit: nat)
    ensures
        settled(skip_stack(stack, s, room, limit), skip_stack(stack, s + more, room, limit)),
        skip_stack(stack, s, room, limit).within(s.len()),
    decreases stack.len(),
{
    if stack.len() > 0 {
        lemma_skip_list_extend(s, more, room, limit);
        lemma_skip_map_extend(s, more, room, limit);
        lemma_skip_entry_extend(s, more, room, limit);
        lemma_skip_list(s, room, limit);
        lemma_skip_map(s, room, limit);
        lemma_skip_entry(s, room, limit);
        if let Parsed::Whole(_, n) = skip_frame(stack.last(), s, room, limit) {
            lemma_stack_extend(stack.drop_last(), s.skip(n as int), more, room + 1, limit);
            assert((s + more).skip(n as int) =~= s.skip(n as int) + more);
        }
    }
}

/// What has been skipped does not depend on what follows, and ends inside the bytes there are.
pub proof fn skipping_is_settled(todo: Todo, s: Seq<u8>, more: Seq<u8>)
    requires
        todo.phase matches Phase::Text { end, .. } ==> end != ESCAPE,
    ensures
        settled(rest(todo, s), rest(todo, s + more)),
        rest(todo, s).within(s.len()),
{
    reveal(rest);
    match todo.phase {
        Phase::Value => {
            lemma_skip_value(s, todo.room, todo.limit);
            skip_value_extend(s, more, todo.room, todo.limit);
        },
        Phase::Next => {},
        Phase::ArrayType => {
            if s.len() > 0 {
                assert((s + more).skip(1) =~= s.skip(1) + more);
                lemma_skip_text(s.skip(1), ARRAY_DELIMIT);
                lemma_skip_text_extend(s.skip(1), more, ARRAY_DELIMIT);
            }
        },
        Phase::Text { end, escaped } => {
            lemma_tail_extend(escaped, s, more, end);
        },
    }
    if let Parsed::Whole(_, n) = skip_phase(todo.phase, s, todo.room, todo.limit) {
        lemma_stack_extend(todo.stack, s.skip(n as int), more, todo.room, todo.limit);
        assert((s + more).skip(n as int) =~= s.skip(n as int) + more);
    }
}

/// Something that is not whole is not whole together with what surrounds it.
proof fn lemma_stuck(todo: Todo, s: Seq<u8>)
    ensures
        skip_phase(todo.phase, s, todo.room, todo.limit) matches Parsed::Partial(stop) ==> rest(
            todo,
            s,
        ) == Parsed::<()>::Partial(stop.raise(todo.stack.len())),
        skip_phase(todo.phase, s, todo.room, todo.limit) matches Parsed::Invalid(stop) ==> rest(
            todo,
            s,
        ) == Parsed::<()>::Invalid(stop.raise(todo.stack.len())),
{
    reveal(rest);
}

/// Where skipping stops is the same place after some of it has been skipped.
proof fn lemma_stopped_later(s: State, todo: Todo, t: State, left: Todo)
    requires
        moved(s, todo, t, left),
        left.stack.len() <= t.depth,
        left.phase matches Phase::Text { end, .. } ==> end != ESCAPE,
    ensures
        forall|text: Seq<char>, after: State| #[trigger]
            refused(t, left, text, after) ==> refused(s, todo, text, after),
        forall|after: State| #[trigger] waits(t, left, after) ==> waits(s, todo, after),
{
    let n = (s.pending.len() - t.pending.len()) as nat;
    lemma_moved_now(s, todo, t, left);
    skipping_is_settled(left, t.pending, Seq::empty());
    match rest(left, t.pending) {
        Parsed::Whole(..) => {},
        Parsed::Partial(stop) | Parsed::Invalid(stop) => {
            assert(s.pending.skip(n as int).skip(stop.at as int) =~= s.pending.skip(
                (n + stop.at) as int,
            ));
        },
    }
}

proof fn lemma_moved_open(s: State, todo: Todo, frame: Frame, next: Todo)
    requires
        todo.phase == Phase::Value,
        todo.room == s.room(),
        s.pending.len() > 0,
        todo.room > 0,
        s.pending[0] == LIST_BEGIN && frame == Frame::List || s.pending[0] == MAP_BEGIN && frame
            == (Frame::Dict { expecting_value: false }),
        next == (Todo {
            stack: todo.stack.push(frame),
            phase: Phase::Next,
            room: (todo.room - 1) as nat,
            limit: todo.limit,
        }),
    ensures
        moved(s, todo, s.consume(1).push(), next),
{
    reveal(advances);
    let p = s.pending;
    assert forall|more: Seq<u8>| #[trigger]
        rest(todo, p + more) == rest(next, p.skip(1) + more).shift(1) by {
        lemma_open(todo, frame, p + more);
        assert((p + more).skip(1) =~= p.skip(1) + more);
    }
}

proof fn lemma_moved_array(s: State, todo: Todo, next: Todo)
    requires
        todo.phase == Phase::Value,
        s.pending.len() > 0,
        s.pending[0] == ARRAY_DELIMIT,
        next == (Todo { phase: Phase::ArrayType, ..todo }),
    ensures
        moved(s, todo, s.consume(1), next),
{
    reveal(advances);
    let p = s.pending;
    assert forall|more: Seq<u8>| #[trigger]
        rest(todo, p + more) == rest(next, p.skip(1) + more).shift(1) by {
        lemma_array(todo, p + more);
        assert((p + more).skip(1) =~= p.skip(1) + more);
    }
}

proof fn lemma_moved_text(s: State, todo: Todo, end: u8, next: Todo)
    requires
        todo.phase == Phase::ArrayType && end == ARRAY_DELIMIT || todo.phase == Phase::Value
            && s.pending[0] == STRING_DELIMIT && end == STRING_DELIMIT,
        s.pending.len() > 0,
        next == (Todo { phase: Phase::Text { end, escaped: false }, ..todo }),
    ensures
        moved(s, todo, s.consume(1), next),
{
    reveal(advances);
    let p = s.pending;
    assert forall|more: Seq<u8>| #[trigger]
        rest(todo, p + more) == rest(next, p.skip(1) + more).shift(1) by {
        lemma_text(todo, end, p + more);
        assert((p + more).skip(1) =~= p.skip(1) + more);
    }
}

proof fn lemma_moved_value(s: State, todo: Todo, n: nat, next: Todo)
    requires
        todo.phase == Phase::Value,
        skip_value(s.pending, todo.room, todo.limit) == Parsed::Whole((), n),
        next == (Todo { phase: Phase::Next, ..todo }),
    ensures
        n <= s.pending.len(),
        moved(s, todo, s.consume(n as int), next),
{
    reveal(advances);
    let p = s.pending;
    lemma_skip_value(p, todo.room, todo.limit);
    assert forall|more: Seq<u8>| #[trigger]
        rest(todo, p + more) == rest(next, p.skip(n as int) + more).shift(n) by {
        skip_value_extend(p, more, todo.room, todo.limit);
        lemma_done(todo, p + more, n);
        assert((p + more).skip(n as int) =~= p.skip(n as int) + more);
    }
}

/// What the byte at the start of a value makes of it.
proof fn lemma_lead(p: Seq<u8>, room: nat, limit: nat)
    ensures
        p.len() == 0 ==> skip_value(p, room, limit) == cut_short::<()>(0),
        p.len() > 0 && (p[0] == LIST_BEGIN || p[0] == MAP_BEGIN) && room == 0 ==> skip_value(
            p,
            room,
            limit,
        ) == invalid::<()>(depth_text(limit), 1),
        p.len() > 0 && p[0] != LIST_BEGIN && p[0] != MAP_BEGIN && p[0] != ARRAY_DELIMIT && p[0]
            != STRING_DELIMIT ==> skip_value(p, room, limit) == match Type::from_code(p[0]) {
            Some(t) => skip_scalar(t, p),
            None => invalid(type_bit_text(p[0]), 0),
        },
{
    reveal(skip_leaf);
}

impl Decoder {
    /// Skips the value that comes next, up to the text or the values inside it.
    fn ignore_lead(&mut self, skip: &mut Skip) -> (r: Step<Result<(), Error>>)
        requires
            old(self).wf(),
            old(skip).wf(old(self)@),
            old(skip).phase() == Phase::Value,
        ensures
            final(self).wf(),
            final(self).kept().len() <= old(self).kept().len(),
            match r {
                Step::Read => {
                    &&& *final(skip) == *old(skip)
                    &&& final(self)@ == old(self)@
                    &&& waits(old(self)@, old(skip).todo(old(self)@), final(self)@)
                },
                Step::Done(Ok(())) => {
                    &&& final(skip).wf(final(self)@)
                    &&& final(self)@.pending.len() < old(self)@.pending.len()
                    &&& moved(
                        old(self)@,
                        old(skip).todo(old(self)@),
                        final(self)@,
                        final(skip).todo(final(self)@),
                    )
                },
                Step::Done(Err(e)) => refused(
                    old(self)@,
                    old(skip).todo(old(self)@),
                    e@,
                    final(self)@,
                ),
            },
    {
        let ghost s = self@;
        let ghost todo = skip.todo(s);
        proof {
            assert(s.pending.skip(0) =~= s.pending);
            lemma_lead(s.pending, todo.room, todo.limit);
            lemma_stuck(todo, s.pending);
        }
        if self.remaining() == 0 {
            if self.is_terminated() {
                return Step::Done(Err(Error::unexpected_end()));
            } else {
                return Step::Read;
            }
        }
        let b: u8 = self.available()[0];
        if b == LIST_BEGIN || b == MAP_BEGIN {
            let frame = if b == LIST_BEGIN {
                Frame::List
            } else {
                Frame::Dict { expecting_value: false }
            };
            self.consume(1);
            if let Err(e) = self.push_depth() {
                return Step::Done(Err(e));
            }
            skip.stack.push(frame);
            skip.phase = Phase::Next;
            proof {
                lemma_moved_open(s, todo, frame, skip.todo(self@));
            }
            Step::Done(Ok(()))
        } else if b == ARRAY_DELIMIT {
            self.consume(1);
            skip.phase = Phase::ArrayType;
            proof {
                lemma_moved_array(s, todo, skip.todo(self@));
            }
            Step::Done(Ok(()))
        } else if b == STRING_DELIMIT {
            self.consume(1);
            skip.skim.open();
            skip.phase = Phase::Text { end: STRING_DELIMIT, escaped: false };
            proof {
                lemma_moved_text(s, todo, STRING_DELIMIT, skip.todo(self@));
            }
            Step::Done(Ok(()))
        } else {
            match Type::from_u8(b) {
                None => Step::Done(Err(Error::invalid_type_bit(b))),
                Some(t) => {
                    let r = self.ignore_scalar(t);
                    if let Step::Done(Ok(())) = r {
                        skip.phase = Phase::Next;
                        proof {
                            lemma_moved_value(s, todo, 1 + t.width(), skip.todo(self@));
                        }
                    }
                    r
                },
            }
        }
    }
}

proof fn lemma_moved_close(s: State, todo: Todo, next: Todo)
    requires
        todo.phase == Phase::Next,
        todo.stack.len() > 0,
        s.pending.len() > 0,
        s.pending[0] == LIST_END && todo.stack.last() == Frame::List || s.pending[0] == MAP_END
            && todo.stack.last() == (Frame::Dict { expecting_value: false }),
        s.depth > 0,
        next == (Todo {
            stack: todo.stack.drop_last(),
            phase: Phase::Next,
            room: todo.room + 1,
            limit: todo.limit,
        }),
    ensures
        moved(s, todo, s.consume(1).pop(), next),
{
    reveal(advances);
    let p = s.pending;
    assert forall|more: Seq<u8>| #[trigger]
        rest(todo, p + more) == rest(next, p.skip(1) + more).shift(1) by {
        lemma_close(todo, p + more);
        assert((p + more).skip(1) =~= p.skip(1) + more);
    }
}

proof fn lemma_moved_more(s: State, todo: Todo, frame: Frame, next: Todo)
    requires
        todo.phase == Phase::Next,
        todo.stack.len() > 0,
        match todo.stack.last() {
            Frame::List => s.pending.len() > 0 && s.pending[0] != LIST_END && frame == Frame::List,
            Frame::Dict { expecting_value: false } => s.pending.len() > 0 && s.pending[0]
                != MAP_END && frame == (Frame::Dict { expecting_value: true }),
            Frame::Dict { expecting_value: true } => frame == (Frame::Dict {
                expecting_value: false,
            }),
        },
        next == (Todo {
            stack: todo.stack.drop_last().push(frame),
            phase: Phase::Value,
            room: todo.room,
            limit: todo.limit,
        }),
    ensures
        moved(s, todo, s, next),
{
    reveal(advances);
    let p = s.pending;
    assert(p.skip(0) =~= p);
    assert forall|more: Seq<u8>| #[trigger]
        rest(todo, p + more) == rest(next, p.skip(0) + more).shift(0) by {
        lemma_more(todo, frame, p + more);
    }
}

proof fn lemma_moved_resume(s: State, todo: Todo, end: u8, escaped: bool, n: int, next: Todo)
    requires
        todo.phase == (Phase::Text { end, escaped }),
        n == text_let_go(end, s.pending.len()),
        text_open(waiting(escaped) + s.pending, end),
        tail_end(escaped, s.pending, end) is None,
        next == (Todo {
            phase: Phase::Text { end, escaped: dangling(waiting(escaped) + s.pending.take(n)) },
            ..todo
        }),
    ensures
        0 <= n <= s.pending.len(),
        moved(s, todo, s.consume(n), next),
        rest(next, s.pending.skip(n)) is Partial,
{
    reveal(advances);
    let p = s.pending;
    let q = p.skip(n);
    let w = waiting(escaped);
    lemma_text_open_prefix(w + p, end, w.len() + n);
    assert((w + p).take(w.len() + n) =~= w + p.take(n));
    assert forall|more: Seq<u8>| #[trigger]
        rest(todo, p + more) == rest(next, q + more).shift(n as nat) by {
        lemma_let_go(n as nat, (q + more).len());
        lemma_resume(todo, end, escaped, p.take(n), q + more);
        assert(p.take(n) + (q + more) =~= p + more);
    }
    lemma_tail_resume(escaped, p.take(n), q, end);
    assert(p.take(n) + q =~= p);
    lemma_stuck(next, q);
}

proof fn lemma_moved_end(s: State, todo: Todo, end: u8, escaped: bool, k: int, next: Todo)
    requires
        todo.phase == (Phase::Text { end, escaped }),
        end != ESCAPE,
        tail_end(escaped, s.pending, end) == Some(k),
        next == (Todo { phase: Phase::Next, ..todo }),
    ensures
        0 <= k < s.pending.len(),
        moved(s, todo, s.consume(k + 1), next),
{
    reveal(advances);
    let p = s.pending;
    let n = (k + 1) as nat;
    lemma_tail_extend(escaped, p, Seq::empty(), end);
    assert forall|more: Seq<u8>| #[trigger]
        rest(todo, p + more) == rest(next, p.skip(n as int) + more).shift(n) by {
        lemma_tail_extend(escaped, p, more, end);
        lemma_done(todo, p + more, n);
        assert((p + more).skip(n as int) =~= p.skip(n as int) + more);
    }
}

/// Where nothing follows a value inside a list or map, something is missing.
proof fn lemma_next_empty(todo: Todo)
    requires
        todo.phase == Phase::Next,
        todo.stack.len() > 0,
    ensures
        rest(todo, Seq::empty()) == cut_short::<()>(0).raise(todo.stack.len()),
{
    reveal(rest);
    assert(Seq::<u8>::empty().skip(0) =~= Seq::empty());
}

impl Decoder {
    /// Skips what follows a value inside a list or map.
    fn ignore_next(&mut self, skip: &mut Skip) -> (r: Step<Result<(), Error>>)
        requires
            old(self).wf(),
            old(skip).wf(old(self)@),
            old(skip).phase() == Phase::Next,
            old(skip).frames().len() > 0,
        ensures
            final(self).wf(),
            final(self).kept().len() <= old(self).kept().len(),
            match r {
                Step::Read => {
                    &&& *final(skip) == *old(skip)
                    &&& final(self)@ == old(self)@
                    &&& waits(old(self)@, old(skip).todo(old(self)@), final(self)@)
                },
                Step::Done(Ok(())) => {
                    &&& final(skip).wf(final(self)@)
                    &&& final(self)@.pending.len() < old(self)@.pending.len()
                        || final(skip).phase() == Phase::Value
                    &&& moved(
                        old(self)@,
                        old(skip).todo(old(self)@),
                        final(self)@,
                        final(skip).todo(final(self)@),
                    )
                },
                Step::Done(Err(e)) => refused(
                    old(self)@,
                    old(skip).todo(old(self)@),
                    e@,
                    final(self)@,
                ),
            },
    {
        let ghost s = self@;
        let ghost todo = skip.todo(s);
        proof {
            assert(s.pending.skip(0) =~= s.pending);
        }
        let last: usize = skip.stack.len() - 1;
        let (end, frame) = match skip.stack[last] {
            Frame::List => (LIST_END, Frame::List),
            Frame::Dict { expecting_value: false } => (
                MAP_END,
                Frame::Dict { expecting_value: true },
            ),
            Frame::Dict { expecting_value: true } => {
                // The value of a key cannot be left out.
                let frame = Frame::Dict { expecting_value: false };
                skip.stack.set(last, frame);
                skip.phase = Phase::Value;
                proof {
                    assert(skip.frames() =~= todo.stack.drop_last().push(frame));
                    lemma_moved_more(s, todo, frame, skip.todo(self@));
                }
                return Step::Done(Ok(()));
            },
        };
        proof {
            if s.pending.len() == 0 {
                lemma_next_empty(todo);
                assert(s.pending =~= Seq::<u8>::empty());
            }
        }
        match self.maybe_delimiter(end) {
            Step::Read => Step::Read,
            Step::Done(true) => {
                self.pop_depth();
                skip.stack.pop();
                proof {
                    lemma_moved_close(s, todo, skip.todo(self@));
                }
                Step::Done(Ok(()))
            },
            Step::Done(false) => {
                if self.remaining() == 0 {
                    return Step::Done(Err(Error::unexpected_end()));
                }
                skip.stack.set(last, frame);
                skip.phase = Phase::Value;
                proof {
                    assert(skip.frames() =~= todo.stack.drop_last().push(frame));
                    lemma_moved_more(s, todo, frame, skip.todo(self@));
                }
                Step::Done(Ok(()))
            },
        }
    }

    /// Skips the type bit of an array, or text.
    fn ignore_text(&mut self, skip: &mut Skip) -> (r: Step<Result<(), Error>>)
        requires
            old(self).wf(),
            old(skip).wf(old(self)@),
            old(skip).phase() is ArrayType || old(skip).phase() is Text,
        ensures
            final(self).wf(),
            final(self).kept().len() <= old(self).kept().len(),
            match r {
                Step::Read => {
                    &&& waits(old(self)@, old(skip).todo(old(self)@), final(self)@)
                    &&& final(skip).wf(final(self)@)
                    &&& rest(final(skip).todo(final(self)@), final(self)@.pending) is Partial
                    &&& moved(
                        old(self)@,
                        old(skip).todo(old(self)@),
                        final(self)@,
                        final(skip).todo(final(self)@),
                    )
                },
                Step::Done(Ok(())) => {
                    &&& final(skip).wf(final(self)@)
                    &&& final(self)@.pending.len() < old(self)@.pending.len()
                    &&& moved(
                        old(self)@,
                        old(skip).todo(old(self)@),
                        final(self)@,
                        final(skip).todo(final(self)@),
                    )
                },
                Step::Done(Err(e)) => refused(
                    old(self)@,
                    old(skip).todo(old(self)@),
                    e@,
                    final(self)@,
                ),
            },
    {
        let ghost s = self@;
        let ghost todo = skip.todo(s);
        proof {
            assert(s.pending.skip(0) =~= s.pending);
            lemma_stuck(todo, s.pending);
            lemma_unmoved(s, todo);
        }
        if let Phase::Text { end, escaped } = skip.phase {
            match self.skim_text(&mut skip.skim, end, end == STRING_DELIMIT) {
                Step::Read => {
                    skip.phase = Phase::Text { end, escaped: skip.skim.is_escaped() };
                    proof {
                        let n = s.pending.len() - self@.pending.len();
                        lemma_moved_resume(s, todo, end, escaped, n, skip.todo(self@));
                    }
                    Step::Read
                },
                Step::Done(Ok(())) => {
                    skip.phase = Phase::Next;
                    proof {
                        lemma_moved_end(
                            s,
                            todo,
                            end,
                            escaped,
                            tail_end(escaped, s.pending, end)->0,
                            skip.todo(self@),
                        );
                    }
                    Step::Done(Ok(()))
                },
                Step::Done(Err(e)) => Step::Done(Err(e)),
            }
        } else if self.remaining() == 0 {
            if self.is_terminated() {
                Step::Done(Err(Error::unexpected_end()))
            } else {
                Step::Read
            }
        } else {
            self.consume(1);
            skip.skim.open();
            skip.phase = Phase::Text { end: ARRAY_DELIMIT, escaped: false };
            proof {
                lemma_moved_text(s, todo, ARRAY_DELIMIT, skip.todo(self@));
            }
            Step::Done(Ok(()))
        }
    }

    /// Skips a value, whatever it is. How far it has been skipped is kept in `skip` from call to
    /// call.
    pub fn ignore_value(&mut self, skip: &mut Skip) -> (r: Step<Result<(), Error>>)
        requires
            old(self).wf(),
            old(skip).wf(old(self)@),
        ensures
            final(self).wf(),
            final(self).kept().len() <= old(self).kept().len(),
            match r {
                Step::Read => {
                    &&& waits(old(self)@, old(skip).todo(old(self)@), final(self)@)
                    &&& final(skip).wf(final(self)@)
                    &&& rest(final(skip).todo(final(self)@), final(self)@.pending) is Partial
                    &&& moved(
                        old(self)@,
                        old(skip).todo(old(self)@),
                        final(self)@,
                        final(skip).todo(final(self)@),
                    )
                },
                Step::Done(Ok(())) => {
                    &&& rest(old(skip).todo(old(self)@), old(self)@.pending) matches Parsed::Whole(
                        _,
                        n,
                    )
                    &&& n <= old(self)@.pending.len()
                    &&& final(self)@ == (State {
                        depth: (old(self)@.depth - old(skip).frames().len()) as nat,
                        ..old(self)@.consume(n as int)
                    })
                },
                Step::Done(Err(e)) => refused(
                    old(self)@,
                    old(skip).todo(old(self)@),
                    e@,
                    final(self)@,
                ),
            },
    {
        let ghost s = self@;
        let ghost todo = skip.todo(s);
        proof {
            lemma_unmoved(s, todo);
        }
        loop
            invariant
                self.wf(),
                skip.wf(self@),
                self.kept().len() <= old(self).kept().len(),
                s == old(self)@,
                todo == old(skip).todo(s),
                moved(s, todo, self@, skip.todo(self@)),
            decreases
                    2 * self@.pending.len() + (if skip.phase() == Phase::Next {
                        1nat
                    } else {
                        0nat
                    }),
        {
            let ghost now = self@;
            let ghost left = skip.todo(now);
            proof {
                lemma_moved_now(s, todo, now, left);
                lemma_stopped_later(s, todo, now, left);
            }
            if skip.stack.len() == 0 && skip.phase == Phase::Next {
                proof {
                    reveal(rest);
                }
                return Step::Done(Ok(()));
            }
            let r = match skip.phase {
                Phase::Value => self.ignore_lead(skip),
                Phase::Next => self.ignore_next(skip),
                _ => self.ignore_text(skip),
            };
            match r {
                Step::Read => {
                    proof {
                        lemma_unmoved(now, left);
                        lemma_moved(s, todo, now, left, self@, skip.todo(self@));
                        lemma_moved_now(s, todo, self@, skip.todo(self@));
                    }
                    return Step::Read;
                },
                Step::Done(Err(e)) => {
                    return Step::Done(Err(e));
                },
                Step::Done(Ok(())) => {
                    proof {
                        lemma_moved(s, todo, now, left, self@, skip.todo(self@));
                    }
                },
            }
        }
    }
}

} // verus!
