//! What decoders and readers answer.
//!
//! The laws here say what the answers of the contracts come to: the texts of errors, the state that
//! a call leaves behind, and how calls that follow each other fit together.

use vstd::prelude::*;

use crate::access::{array_opened, closed, matched, opened, Opening};
use crate::constants::{Type, ARRAY_DELIMIT};
use crate::de::{
    at_most, byte_text, compacted, delimiter_text, ended, enters, inside, read_string,
    self_describing, snippet, starved, tells, type_text, unfinished, Outcome, State, Step,
    DEFAULT_MAX_DEPTH,
};
use crate::element::{is_element, parse_error_text};
use crate::error::{
    depth_text, invalid_length_text, invalid_type_text, invalid_value_text, type_bit_text, Error,
};
use crate::escape::{let_go, tail_end, text_end, waiting};
use crate::grammar::Parsed;
use crate::laws::limit_is_exact;
use crate::model::{describes_itself, encoding, nesting, Model};
use crate::read::{answered, decoded, fault, flow, later, shown, Reader, Stream};
use crate::skip::{
    lemma_moved_more_to_come, moved, refused, rest, skip_string, waits, Todo,
};
use crate::text::decimal;
use crate::value::Value;

verus! {

/// A number is shown digit by digit, the last one behind what is shown of the others.
pub proof fn numbers_are_shown_by_their_digits(n: nat, d: nat)
    requires
        d < 10,
    ensures
        decimal(d) == seq![(48 + d) as char],
        n > 0 ==> decimal(10 * n + d) == decimal(n).push((48 + d) as char),
{
    assert((10 * n + d) / 10 == n);
    assert((10 * n + d) % 10 == d);
}

/// Bytes of a stream are shown one behind the other: those of ASCII as they are, others as numbers.
pub proof fn bytes_are_shown_in_order(a: Seq<u8>, b: u8, c: Seq<u8>)
    ensures
        snippet(Seq::<u8>::empty()) == Seq::<char>::empty(),
        snippet(seq![b]) == if b < 128 {
            seq![b as char]
        } else {
            " "@ + decimal(b as nat) + " "@
        },
        snippet(a + c) == snippet(a) + snippet(c),
        byte_text(b) == if b < 32 {
            decimal(b as nat)
        } else {
            seq![b as char]
        },
    decreases c.len(),
{
    let none = Seq::<char>::empty();
    assert(seq![b].drop_last() =~= Seq::<u8>::empty());
    assert(snippet(Seq::<u8>::empty()) == none);
    if b < 128 {
        assert(none.push(b as char) =~= seq![b as char]);
    } else {
        assert(none + " "@ + decimal(b as nat) + " "@ =~= " "@ + decimal(b as nat) + " "@);
    }
    if c.len() == 0 {
        assert(a + c =~= a);
        assert(snippet(a) + snippet(c) =~= snippet(a));
    } else {
        bytes_are_shown_in_order(a, b, c.drop_last());
        assert((a + c).drop_last() =~= a + c.drop_last());
        assert(snippet(a + c) =~= snippet(a) + snippet(c));
    }
}

/// A byte that was not expected is shown with the one that was, and with up to ten bytes of the
/// stream.
pub proof fn unexpected_bytes_are_shown(p: Seq<u8>, expected: u8)
    requires
        p.len() > 0,
    ensures
        delimiter_text(p, expected) == "unexpected delimiter "@ + byte_text(p[0]) + ", expected "@
            + byte_text(expected) + " at "@ + snippet(
            if p.len() <= 10 {
                p
            } else {
                p.take(10)
            },
        ),
{
}

/// The texts of errors about values.
pub proof fn errors_say_what_is_wrong(
    found: Seq<char>,
    expected: Seq<char>,
    n: nat,
    code: u8,
    t: Type,
    bytes: Seq<u8>,
)
    ensures
        invalid_type_text(found, expected) == "invalid type: "@ + found + ", expected "@ + expected,
        invalid_value_text(found, expected) == "invalid value: "@ + found + ", expected "@
            + expected,
        invalid_length_text(n, expected) == "invalid length: "@ + decimal(n) + ", expected "@
            + expected,
        depth_text(n) == "nesting depth limit exceeded (max "@ + decimal(n) + ")"@,
        type_bit_text(code) == "invalid type bit: "@ + decimal(code as nat),
        code == t.code() ==> forall|u: Type| #[trigger]
            type_text(code, u) == "invalid type: "@ + t.label() + ", expected "@ + u.label(),
        code > 11 ==> type_text(code, t) == "invalid value: "@ + decimal(code as nat)
            + ", expected "@ + "a TBON type bit"@,
        bytes.len() != t.width() ==> parse_error_text(t, bytes) == "invalid length: "@ + decimal(
            bytes.len(),
        ) + ", expected "@ + t.label(),
        bytes.len() == t.width() ==> parse_error_text(t, bytes) == "invalid value: "@ + decimal(
            bytes[0] as nat,
        ) + ", expected "@ + "a boolean"@,
{
    t.code_is_unambiguous(t);
}

/// The names of the types.
pub proof fn types_have_names(t: Type)
    ensures
        t.label() == match t.code() {
            0 => "none"@,
            1 => "bool"@,
            2 => "f32"@,
            3 => "f64"@,
            4 => "i8"@,
            5 => "i16"@,
            6 => "i32"@,
            7 => "i64"@,
            8 => "u8"@,
            9 => "u16"@,
            10 => "u32"@,
            _ => "u64"@,
        },
        self_describing(t) <==> t.code() != 0 && t.code() != 4,
{
}

/// Which bytes are a value depends on how many there are, and for a truth value on the byte.
pub proof fn bytes_are_values(t: Type, bytes: Seq<u8>)
    ensures
        is_element(t, bytes) <==> bytes.len() == t.width() && (t.code() == 1 ==> bytes[0] <= 1),
{
}

/// What is done to a state changes one thing about it.
pub proof fn states_change_one_thing(s: State, n: int)
    requires
        0 <= n <= s.pending.len(),
        s.depth <= s.max_depth,
    ensures
        s.pending == s.pending.take(n) + s.consume(n).pending,
        s.consume(n).depth == s.depth,
        s.consume(n).max_depth == s.max_depth,
        s.consume(n).terminated == s.terminated,
        s.push().pending == s.pending,
        s.push().depth == s.depth + 1,
        s.push().max_depth == s.max_depth,
        s.push().terminated == s.terminated,
        s.depth > 0 ==> s.pop().push() == s,
        s.room() + s.depth == s.max_depth,
        starved(s) <==> s.pending.len() == 0 && !s.terminated,
        ended(s) <==> s.pending.len() == 0 && s.terminated,
{
    assert(s.pending.take(n) + s.pending.skip(n) =~= s.pending);
}

/// What is done to a stream changes one thing about it.
pub proof fn streams_change_one_thing(s: Stream, n: int)
    requires
        0 <= n <= s.bytes.len(),
        s.depth <= s.max_depth,
    ensures
        s.bytes == s.bytes.take(n) + s.consume(n).bytes,
        s.consume(n).fault == s.fault,
        s.consume(n).later == s.later,
        s.consume(n).depth == s.depth,
        s.consume(n).max_depth == s.max_depth,
        s.push().bytes == s.bytes,
        s.push().fault == s.fault,
        s.push().later == s.later,
        s.push().depth == s.depth + 1,
        s.push().max_depth == s.max_depth,
        s.depth > 0 ==> s.pop().push() == s,
        s.room() + s.depth == s.max_depth,
        s.resumed().bytes == s.bytes + flow(s.later),
        s.resumed().fault == fault(s.later),
        s.resumed().later == later(s.later),
        s.resumed().depth == s.depth,
        s.resumed().max_depth == s.max_depth,
{
    assert(s.bytes.take(n) + s.bytes.skip(n) =~= s.bytes);
}

/// What a reader answers, and where that leaves it, is decided by what the bytes of its stream are:
/// a value is consumed as a whole; where reading stops short the bytes up to there are consumed,
/// and the lists and maps that are open stay so; an error of the source comes before one about
/// missing bytes, and the stream goes on behind it.
pub proof fn readers_answer_what_there_is<T>(
    before: Reader,
    after: Reader,
    r: Result<T, Error>,
    p: Parsed<T>,
)
    requires
        answered(before, after, r, p),
    ensures
        after@.max_depth == before@.max_depth,
        match p {
            Parsed::Whole(v, n) => {
                &&& r == Ok::<T, Error>(v)
                &&& after@.bytes == before@.bytes.skip(n as int)
                &&& after@.depth == before@.depth
                &&& after@.fault == before@.fault
                &&& after@.later == before@.later
                &&& after.wf()
                &&& after.held() <= before.held()
            },
            Parsed::Invalid(stop) => {
                &&& r matches Err(e)
                &&& e@ == stop.text
                &&& after@.bytes == before@.bytes.skip(stop.at as int)
                &&& after@.depth == before@.depth + stop.opened
                &&& after@.fault == before@.fault
                &&& after@.later == before@.later
                &&& after.wf()
                &&& after.held() <= before.held()
            },
            Parsed::Partial(stop) => {
                &&& r matches Err(e)
                &&& after@.depth == before@.depth + stop.opened
                &&& match before@.fault {
                    None => {
                        &&& e@ == stop.text
                        &&& after@.bytes == before@.bytes.skip(stop.at as int)
                        &&& after@.fault is None
                        &&& after@.later == before@.later
                        &&& after.wf()
                        &&& after.held() <= before.held()
                    },
                    Some(text) => {
                        let more = flow(before@.later);
                        &&& e@ == text
                        &&& after@.bytes == before@.bytes.skip(stop.at as int) + more
                        &&& after@.fault == fault(before@.later)
                        &&& after@.later == later(before@.later)
                        &&& after.held() <= before.held() + more.len()
                        &&& before.held() + more.len() <= isize::MAX ==> after.wf()
                    },
                }
            },
        },
{
}

/// What a decoder answers that skips `todo`, and where that leaves it, is decided by what is left
/// to be skipped.
pub proof fn decoders_stop_where_skipping_does(
    s: State,
    todo: Todo,
    text: Seq<char>,
    after: State,
)
    requires
        todo.stack.len() <= s.depth,
    ensures
        refused(s, todo, text, after) ==> {
            let p = rest(todo, s.pending);
            let stop = if p is Partial {
                p->Partial_0
            } else {
                p->Invalid_0
            };
            &&& p !is Whole
            &&& p is Partial ==> s.terminated
            &&& text == stop.text
            &&& after.pending == s.pending.skip(stop.at as int)
            &&& after.depth + todo.stack.len() == s.depth + stop.opened
            &&& after.max_depth == s.max_depth
            &&& after.terminated == s.terminated
        },
        waits(s, todo, after) ==> {
            &&& rest(todo, s.pending) matches Parsed::Partial(stop)
            &&& !s.terminated
            &&& after.pending == s.pending.skip(stop.at as int)
            &&& after.depth + todo.stack.len() == s.depth + stop.opened
            &&& after.max_depth == s.max_depth
            &&& !after.terminated
        },
{
}

/// Skipping a value in several calls, between which bytes arrive, comes to the same as skipping it
/// at once.
pub proof fn skipping_in_parts_is_skipping(
    befores: Seq<State>,
    afters: Seq<State>,
    todos: Seq<Todo>,
    arrived: Seq<Seq<u8>>,
)
    requires
        befores.len() > 0,
        afters.len() == befores.len(),
        arrived.len() == befores.len(),
        todos.len() == befores.len() + 1,
        forall|i: int|
            0 <= i < befores.len() ==> moved(
                #[trigger] befores[i],
                todos[i],
                afters[i],
                todos[i + 1],
            ),
        forall|i: int|
            0 < i < befores.len() ==> (#[trigger] befores[i]).pending == afters[i - 1].pending
                + arrived[i - 1],
    ensures
        ({
            let all = befores[0].pending + arrived.flatten();
            let left = afters.last().pending + arrived.last();
            &&& left.len() <= all.len()
            &&& left == all.skip(all.len() - left.len())
            &&& rest(todos[0], all) == rest(todos.last(), left).shift(
                (all.len() - left.len()) as nat,
            )
        }),
    decreases befores.len(),
{
    let a = befores[0];
    let b = afters[0];
    let more = arrived.flatten();
    let n = (a.pending.len() - b.pending.len()) as nat;
    lemma_moved_more_to_come(a, todos[0], b, todos[1], more);
    assert((a.pending + more).skip(n as int) =~= b.pending + more);
    let others = arrived.skip(1);
    assert(arrived.drop_first() =~= others);
    if befores.len() == 1 {
        assert(others.flatten() =~= Seq::<u8>::empty());
        assert(more =~= arrived.last());
    } else {
        assert(befores[1].pending + others.flatten() =~= b.pending + more);
        assert forall|i: int| 0 <= i < befores.skip(1).len() implies moved(
            #[trigger] befores.skip(1)[i],
            todos.skip(1)[i],
            afters.skip(1)[i],
            todos.skip(1)[i + 1],
        ) by {
            assert(befores.skip(1)[i] == befores[i + 1]);
        }
        assert forall|i: int| 0 < i < befores.skip(1).len() implies (
        #[trigger] befores.skip(1)[i]).pending == afters.skip(1)[i - 1].pending + others[i
            - 1] by {
            assert(befores.skip(1)[i] == befores[i + 1]);
        }
        skipping_in_parts_is_skipping(befores.skip(1), afters.skip(1), todos.skip(1), others);
        let all = a.pending + more;
        let left = afters.last().pending + arrived.last();
        let m = b.pending.len() + more.len() - left.len();
        assert(all.skip(n as int).skip(m) =~= all.skip(n + m));
    }
}

/// What reading text between two bytes comes to: the data is gone with both of them where it is all
/// there; the first one is gone while it is not.
pub proof fn text_is_read_as_a_whole(s: State, begin: u8, end: u8)
    ensures
        s.pending.len() == 0 ==> {
            let (t, opened, outcome) = read_string(s, false, begin, end);
            &&& t == s
            &&& !opened
            &&& outcome is Waits <==> !s.terminated
            &&& s.terminated ==> outcome == Outcome::Fails("unexpected end of stream"@)
        },
        s.pending.len() > 0 && s.pending[0] != begin ==> read_string(s, false, begin, end) == (
            s,
            false,
            Outcome::Fails(delimiter_text(s.pending, begin)),
        ),
        s.pending.len() > 0 && s.pending[0] == begin ==> read_string(s, false, begin, end)
            == read_string(s.consume(1), true, begin, end),
        ({
            let (t, opened, outcome) = read_string(s, true, begin, end);
            &&& opened
            &&& t.depth == s.depth
            &&& t.max_depth == s.max_depth
            &&& t.terminated == s.terminated
            &&& match text_end(s.pending, end) {
                Some(k) => outcome is Ends && t.pending == s.pending.skip(k + 1),
                None => {
                    &&& t.pending == s.pending
                    &&& outcome is Waits <==> !s.terminated
                    &&& s.terminated ==> outcome == Outcome::Fails("unexpected end of stream"@)
                },
            }
        }),
{
}

/// What skipping text between two bytes comes to: as for reading it, but lots of its bytes are gone
/// while its end is not there.
pub proof fn text_is_skipped_as_a_whole(s: State, escaped: bool, begin: u8, end: u8)
    ensures
        s.pending.len() == 0 ==> {
            let (t, opened, _, outcome) = skip_string(s, false, false, begin, end);
            &&& t == s
            &&& !opened
            &&& outcome is Waits <==> !s.terminated
            &&& s.terminated ==> outcome == Outcome::Fails("unexpected end of stream"@)
        },
        s.pending.len() > 0 && s.pending[0] != begin ==> skip_string(s, false, false, begin, end).0
            == s && skip_string(s, false, false, begin, end).3 == Outcome::Fails(
            delimiter_text(s.pending, begin),
        ),
        s.pending.len() > 0 && s.pending[0] == begin ==> skip_string(s, false, false, begin, end)
            == skip_string(s.consume(1), true, false, begin, end),
        ({
            let (t, opened, _, outcome) = skip_string(s, true, escaped, begin, end);
            &&& opened
            &&& t.depth == s.depth
            &&& t.max_depth == s.max_depth
            &&& t.terminated == s.terminated
            &&& match tail_end(escaped, s.pending, end) {
                Some(k) => outcome is Ends && t.pending == s.pending.skip(k + 1),
                None => {
                    &&& t.pending == s.pending.skip(let_go(s.pending.len()) as int)
                    &&& outcome is Waits <==> !s.terminated
                    &&& s.terminated ==> outcome == Outcome::Fails("unexpected end of stream"@)
                },
            }
        }),
{
}

/// Where text goes on behind an escape byte, it ends where it would end with that byte in front.
pub proof fn escape_bytes_wait(s: Seq<u8>, end: u8)
    requires
        end != 92,
    ensures
        tail_end(false, s, end) == text_end(s, end),
        match text_end(seq![92u8] + s, end) {
            Some(k) => tail_end(true, s, end) == Some(k - 1),
            None => tail_end(true, s, end) is None,
        },
{
    reveal(tail_end);
    assert(waiting(false) + s =~= s);
    assert(waiting(true) =~= seq![92u8]);
}

/// An answer tells of what text came to.
pub proof fn answers_tell_of_outcomes<T>(r: Step<Result<T, Error>>, outcome: Outcome)
    requires
        tells(r, outcome),
    ensures
        r is Read <==> outcome is Waits,
        (r matches Step::Done(Ok(_))) <==> outcome is Ends,
        outcome matches Outcome::Fails(text) ==> r matches Step::Done(Err(e)) && e@ == text,
{
}

/// An array is opened by `=` and its type bit. What is wrong with them is the error, and what has
/// been found of them is gone.
pub proof fn arrays_are_opened(
    s: State,
    code: u8,
    after: State,
    stage: Opening,
    r: Step<Result<bool, Error>>,
)
    requires
        array_opened(s, Opening::Begin, code, after, stage, r),
    ensures
        after.depth == s.depth,
        after.max_depth == s.max_depth,
        after.terminated == s.terminated,
        ({
            let p = s.pending;
            if p.len() == 0 {
                &&& after.pending == p
                &&& !s.terminated ==> r is Read && stage == Opening::Begin
                &&& s.terminated ==> (r matches Step::Done(Err(e)) && e@
                    == "unexpected end of stream"@)
            } else if p[0] != 61 {
                &&& after.pending == p
                &&& r matches Step::Done(Err(e)) && e@ == delimiter_text(p, 61)
            } else if p.len() == 1 {
                &&& after.pending == p.skip(1)
                &&& !s.terminated ==> r is Read && stage == Opening::Dtype
                &&& s.terminated ==> (r matches Step::Done(Err(e)) && e@
                    == "unexpected end of stream"@)
            } else if p[1] != code {
                &&& after.pending == p.skip(1)
                &&& r matches Step::Done(Err(e)) && e@ == delimiter_text(p.skip(1), code)
            } else if p.len() == 2 {
                &&& after.pending == p.skip(2)
                &&& !s.terminated ==> r is Read && stage == Opening::Content
                &&& s.terminated ==> r == Step::Done(Ok::<bool, Error>(false))
            } else {
                &&& r == Step::Done(Ok::<bool, Error>(p[2] == 61))
                &&& after.pending == p.skip(
                    if p[2] == 61 {
                        3
                    } else {
                        2
                    },
                )
            }
        }),
{
    let p = s.pending;
    let left = seq![ARRAY_DELIMIT, code];
    assert(Opening::Begin.left(code) =~= left);
    assert(left.skip(1) =~= seq![code]);
    assert(left.skip(0) =~= left);
    assert(left.skip(2) =~= Seq::<u8>::empty());
    assert(p.skip(0) =~= p);
    reveal_with_fuel(matched, 3);
    if p.len() > 2 {
        assert(p.skip(2).skip(1) =~= p.skip(3));
    }
}

/// Opening an array goes on where it has stopped.
pub proof fn opening_an_array_goes_on(
    s: State,
    code: u8,
    after: State,
    stage: Opening,
    r: Step<Result<bool, Error>>,
)
    ensures
        array_opened(s, Opening::Dtype, code, after, stage, r) ==> array_opened(
            State { pending: seq![61u8] + s.pending, ..s },
            Opening::Begin,
            code,
            after,
            stage,
            r,
        ),
        array_opened(s, Opening::Content, code, after, stage, r) ==> array_opened(
            State { pending: seq![61u8, code] + s.pending, ..s },
            Opening::Begin,
            code,
            after,
            stage,
            r,
        ),
{
    let p = s.pending;
    let whole = seq![ARRAY_DELIMIT, code];
    assert(Opening::Begin.left(code) =~= whole);
    assert(whole.skip(1) =~= seq![code]);
    assert(Opening::Dtype.left(code) =~= seq![code]);
    assert(Opening::Content.left(code) =~= Seq::<u8>::empty());
    let a = seq![61u8] + p;
    assert(a.skip(1) =~= p);
    assert(matched(a, whole) == 1 + matched(p, seq![code]));
    let n = matched(p, seq![code]) as int;
    lemma_matched_bound(p, seq![code]);
    assert(a.skip(1 + n) =~= p.skip(n));
    assert(whole.skip(1 + n) =~= seq![code].skip(n));
    let b = seq![61u8, code] + p;
    assert(b.skip(1) =~= seq![code] + p);
    assert(b.skip(1).skip(1) =~= p);
    assert(whole.skip(1).skip(1) =~= Seq::<u8>::empty());
    assert(matched(p, Seq::<u8>::empty()) == 0);
    assert(matched(b.skip(1), whole.skip(1)) == 1);
    assert(matched(b, whole) == 2);
    assert(b.skip(2) =~= p);
    assert(p.skip(0) =~= p);
}

proof fn lemma_matched_bound(p: Seq<u8>, expected: Seq<u8>)
    ensures
        matched(p, expected) <= p.len(),
        matched(p, expected) <= expected.len(),
    decreases p.len(),
{
    if p.len() > 0 && expected.len() > 0 {
        lemma_matched_bound(p.skip(1), expected.skip(1));
    }
}

/// A list or map is opened by its first byte, where there is room for it, and closed at once where
/// it is empty.
pub proof fn lists_and_maps_are_opened(
    s: State,
    begin: u8,
    end: u8,
    after: State,
    stage: Opening,
    r: Step<Result<bool, Error>>,
)
    requires
        s.depth <= s.max_depth,
        opened(s, Opening::Begin, begin, end, after, stage, r),
    ensures
        after.max_depth == s.max_depth,
        after.terminated == s.terminated,
        ({
            let p = s.pending;
            if p.len() == 0 {
                &&& after == s
                &&& !s.terminated ==> r is Read && stage == Opening::Begin
                &&& s.terminated ==> (r matches Step::Done(Err(e)) && e@
                    == "unexpected end of stream"@)
            } else if p[0] != begin {
                &&& after == s
                &&& r matches Step::Done(Err(e)) && e@ == delimiter_text(p, begin)
            } else if s.depth == s.max_depth {
                &&& after.pending == p.skip(1)
                &&& after.depth == s.depth
                &&& r matches Step::Done(Err(e)) && e@ == "nesting depth limit exceeded (max "@
                    + decimal(s.max_depth) + ")"@
            } else if p.len() == 1 {
                &&& after.pending == p.skip(1)
                &&& after.depth == s.depth + 1
                &&& !s.terminated ==> r is Read && stage != Opening::Begin
                &&& s.terminated ==> r == Step::Done(Ok::<bool, Error>(false))
            } else if p[1] == end {
                &&& r == Step::Done(Ok::<bool, Error>(true))
                &&& after.pending == p.skip(2)
                &&& after.depth == s.depth
            } else {
                &&& r == Step::Done(Ok::<bool, Error>(false))
                &&& after.pending == p.skip(1)
                &&& after.depth == s.depth + 1
            }
        }),
{
    let p = s.pending;
    if p.len() > 1 {
        assert(p.skip(1).skip(1) =~= p.skip(2));
    }
}

/// A list or map is closed by its last byte, and goes on where another one follows.
pub proof fn lists_and_maps_are_closed(s: State, end: u8, after: State, r: Step<bool>)
    requires
        s.depth > 0,
        closed(s, end, after, r),
    ensures
        after.max_depth == s.max_depth,
        after.terminated == s.terminated,
        ({
            let p = s.pending;
            if p.len() > 0 && p[0] == end {
                r == Step::Done(true) && after.pending == p.skip(1) && after.depth + 1 == s.depth
            } else if p.len() > 0 || s.terminated {
                r == Step::Done(false) && after == s
            } else {
                r == Step::<bool>::Read && after == s
            }
        }),
{
}

/// Unless the caller says otherwise, lists and maps may be nested 1024 deep, and no deeper.
pub proof fn nesting_is_limited_by_default(m: Model)
    requires
        describes_itself(m),
    ensures
        decoded(encoding(m), None, DEFAULT_MAX_DEPTH as nat) == if nesting(m) <= 1024 {
            Ok::<Model, Seq<char>>(m)
        } else {
            Err::<Model, Seq<char>>("nesting depth limit exceeded (max "@ + decimal(1024) + ")"@)
        },
{
    limit_is_exact(m, DEFAULT_MAX_DEPTH as nat);
}

/// The first bytes of a stream are shown, as many as are asked for, or all there are.
pub proof fn no_more_is_shown_than_is_asked_for(s: Seq<u8>, n: nat)
    ensures
        n <= s.len() ==> at_most(s, n) == s.take(n as int),
        n >= s.len() ==> at_most(s, n) == s,
{
    assert(s.take(s.len() as int) =~= s);
}

/// Text is entered through its opening byte, or has been already.
pub proof fn text_is_entered_once(s: State, begin: u8)
    ensures
        inside(s, true) == s,
        inside(s, false).pending == s.pending.skip(1),
        inside(s, false).depth == s.depth,
        inside(s, false).max_depth == s.max_depth,
        inside(s, false).terminated == s.terminated,
        enters(s, true, begin),
        enters(s, false, begin) <==> s.pending.len() > 0 && s.pending[0] == begin,
        unfinished(s) is Waits <==> !s.terminated,
        s.terminated ==> unfinished(s) == Outcome::Fails("unexpected end of stream"@),
{
}

/// A value that was read is spoken of by what it stands for, and an error as it is.
pub proof fn answers_are_shown(v: Value, e: Error)
    ensures
        shown(Ok(v)) == Ok::<Model, Error>(v@),
        shown(Err(e)) == Err::<Model, Error>(e),
{
}

/// Consumed bytes are let go of where there are no others, or where there are more than 8192 of
/// them and more than half of all; no other byte is lost.
pub proof fn only_consumed_bytes_are_let_go_of(kept: Seq<u8>, n: nat)
    requires
        n <= kept.len(),
    ensures
        ({
            let (left, m) = compacted(kept, n);
            &&& m <= left.len()
            &&& left.skip(m as int) == kept.skip(n as int)
            &&& m == 0 || m == n
            &&& n == kept.len() || (n > 8192 && 2 * n > kept.len() + 1) ==> left.len() + n
                == kept.len()
            &&& n < kept.len() && (n <= 8192 || 2 * n < kept.len()) ==> left == kept && m == n
        }),
{
    assert(kept.skip(n as int).skip(0) =~= kept.skip(n as int));
}

} // verus!
