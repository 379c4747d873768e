//! Where values end.
//!
//! The functions here say how many bytes of a stream a value takes up, whatever it holds, and where
//! a decoder is left that does not get to its end.

use vstd::prelude::*;

use crate::constants::{
    Type, ARRAY_DELIMIT, LIST_BEGIN, LIST_END, MAP_BEGIN, MAP_END, STRING_DELIMIT,
};
use crate::element::{is_element, parse_error_text};
use crate::error::{depth_text, invalid_length_text, type_bit_text};
use crate::escape::{closes_at, lemma_closes_extend, lemma_text_end, let_go, text_end};

verus! {

/// Where reading stops without a value.
pub ghost struct Stop {
    /// The text of the error about it.
    pub text: Seq<char>,
    /// How many bytes have been consumed.
    pub at: nat,
    /// How many lists and maps have been opened and not closed.
    pub opened: nat,
}

impl Stop {
    /// The same, with `n` more bytes in front.
    pub open spec fn shift(self, n: nat) -> Stop {
        Stop { at: n + self.at, ..self }
    }

    /// The same, with `n` more lists and maps around.
    pub open spec fn raise(self, n: nat) -> Stop {
        Stop { opened: n + self.opened, ..self }
    }
}

/// What the bytes at the start of a stream are.
pub ghost enum Parsed<T> {
    /// They stand for a value, which takes up this many of them.
    Whole(T, nat),
    /// They are the beginning of a value. Reading waits here for more of them; where the stream
    /// ends instead, that is an error.
    Partial(Stop),
    /// They are no value, whatever follows them, which is an error.
    Invalid(Stop),
}

impl<T> Parsed<T> {
    /// The same, with `n` more bytes in front.
    pub open spec fn shift(self, n: nat) -> Parsed<T> {
        match self {
            Parsed::Whole(v, m) => Parsed::Whole(v, n + m),
            Parsed::Partial(stop) => Parsed::Partial(stop.shift(n)),
            Parsed::Invalid(stop) => Parsed::Invalid(stop.shift(n)),
        }
    }

    /// The same, with `n` more lists and maps around.
    pub open spec fn raise(self, n: nat) -> Parsed<T> {
        match self {
            Parsed::Whole(v, m) => Parsed::Whole(v, m),
            Parsed::Partial(stop) => Parsed::Partial(stop.raise(n)),
            Parsed::Invalid(stop) => Parsed::Invalid(stop.raise(n)),
        }
    }

    /// The same, of the value that `f` makes of the value.
    pub open spec fn map<U>(self, f: spec_fn(T) -> U) -> Parsed<U> {
        match self {
            Parsed::Whole(v, m) => Parsed::Whole(f(v), m),
            Parsed::Partial(stop) => Parsed::Partial(stop),
            Parsed::Invalid(stop) => Parsed::Invalid(stop),
        }
    }

    /// The same, of a value of another type, where there is no value.
    pub open spec fn failure<U>(self) -> Parsed<U> {
        match self {
            Parsed::Whole(..) => cut_short(0),
            Parsed::Partial(stop) => Parsed::Partial(stop),
            Parsed::Invalid(stop) => Parsed::Invalid(stop),
        }
    }

    /// Whether no more than `len` bytes are spoken of.
    pub open spec fn within(self, len: nat) -> bool {
        match self {
            Parsed::Whole(_, n) => n <= len,
            Parsed::Partial(stop) => stop.at <= len,
            Parsed::Invalid(stop) => stop.at <= len,
        }
    }
}

/// Bytes that are no value, behind the first `at` of which reading stops.
pub open spec fn invalid<T>(text: Seq<char>, at: nat) -> Parsed<T> {
    Parsed::Invalid(Stop { text, at, opened: 0 })
}

/// The bytes of a value that goes on behind the end of the stream, behind the first `at` of which
/// reading stops.
pub open spec fn cut_short<T>(at: nat) -> Parsed<T> {
    Parsed::Partial(Stop { text: "unexpected end of stream"@, at, opened: 0 })
}

/// How many bytes of text that ends with `end` are let go of while its end is not there: text of
/// an array stays as it is.
pub open spec fn text_let_go(end: u8, len: nat) -> nat {
    if end == STRING_DELIMIT {
        let_go(len)
    } else {
        0
    }
}

/// Text up to its end.
pub open spec fn skip_text(s: Seq<u8>, end: u8) -> Parsed<()> {
    match text_end(s, end) {
        Some(k) => Parsed::Whole((), (k + 1) as nat),
        None => cut_short(text_let_go(end, s.len())),
    }
}

/// A value of type `t`, with its type bit.
pub open spec fn skip_scalar(t: Type, s: Seq<u8>) -> Parsed<()> {
    if s.len() <= t.width() {
        Parsed::Partial(Stop { text: invalid_length_text(s.len(), t.label()), at: 0, opened: 0 })
    } else if is_element(t, s.subrange(1, 1 + t.width() as int)) {
        Parsed::Whole((), 1 + t.width())
    } else {
        invalid(parse_error_text(t, s.subrange(1, 1 + t.width() as int)), 1)
    }
}

/// A value that is neither a list nor a map.
#[verifier::opaque]
pub open spec fn skip_leaf(s: Seq<u8>) -> Parsed<()> {
    if s.len() == 0 {
        cut_short(0)
    } else if s[0] == ARRAY_DELIMIT {
        if s.len() == 1 {
            cut_short(1)
        } else {
            skip_text(s.skip(2), ARRAY_DELIMIT).shift(2)
        }
    } else if s[0] == STRING_DELIMIT {
        skip_text(s.skip(1), STRING_DELIMIT).shift(1)
    } else {
        match Type::from_code(s[0]) {
            Some(t) => skip_scalar(t, s),
            None => invalid(type_bit_text(s[0]), 0),
        }
    }
}

/// A value of any type, in which lists and maps may be nested `room` deep. Errors call the limit
/// on the nesting `limit`.
pub open spec fn skip_value(s: Seq<u8>, room: nat, limit: nat) -> Parsed<()>
    decreases s.len(), 0nat,
{
    if s.len() == 0 {
        cut_short(0)
    } else if s[0] == LIST_BEGIN {
        if room == 0 {
            invalid(depth_text(limit), 1)
        } else {
            skip_list(s.skip(1), (room - 1) as nat, limit).raise(1).shift(1)
        }
    } else if s[0] == MAP_BEGIN {
        if room == 0 {
            invalid(depth_text(limit), 1)
        } else {
            skip_map(s.skip(1), (room - 1) as nat, limit).raise(1).shift(1)
        }
    } else {
        skip_leaf(s)
    }
}

/// Values up to the end of a list.
pub open spec fn skip_list(s: Seq<u8>, room: nat, limit: nat) -> Parsed<()>
    decreases s.len(), 1nat,
{
    if s.len() == 0 {
        cut_short(0)
    } else if s[0] == LIST_END {
        Parsed::Whole((), 1)
    } else {
        match skip_value(s, room, limit) {
            Parsed::Whole(_, n) if 0 < n <= s.len() => skip_list(
                s.skip(n as int),
                room,
                limit,
            ).shift(n),
            other => other,
        }
    }
}

/// Keys, each with a value, up to the end of a map.
pub open spec fn skip_map(s: Seq<u8>, room: nat, limit: nat) -> Parsed<()>
    decreases s.len(), 2nat,
{
    if s.len() == 0 {
        cut_short(0)
    } else if s[0] == MAP_END {
        Parsed::Whole((), 1)
    } else {
        match skip_value(s, room, limit) {
            Parsed::Whole(_, n) if 0 < n <= s.len() => skip_entry(
                s.skip(n as int),
                room,
                limit,
            ).shift(n),
            other => other,
        }
    }
}

/// A value, then keys, each with a value, up to the end of a map.
pub open spec fn skip_entry(s: Seq<u8>, room: nat, limit: nat) -> Parsed<()>
    decreases s.len(), 1nat,
{
    match skip_value(s, room, limit) {
        Parsed::Whole(_, n) if 0 < n <= s.len() => skip_map(s.skip(n as int), room, limit).shift(
            n,
        ),
        other => other,
    }
}

/// Text takes up some of the bytes there are, or reading it stops inside them.
pub proof fn lemma_skip_text(s: Seq<u8>, end: u8)
    ensures
        skip_text(s, end).within(s.len()),
        skip_text(s, end) matches Parsed::Whole(_, n) ==> n > 0,
{
    lemma_text_end(s, end);
}

/// A value that is neither a list nor a map takes up some of the bytes there are, or reading it
/// stops inside them.
pub proof fn lemma_skip_leaf(s: Seq<u8>)
    ensures
        skip_leaf(s).within(s.len()),
        skip_leaf(s) matches Parsed::Whole(_, n) ==> n > 0,
{
    reveal(skip_leaf);
    if s.len() > 0 {
        if s[0] == ARRAY_DELIMIT && s.len() > 1 {
            lemma_skip_text(s.skip(2), ARRAY_DELIMIT);
        } else if s[0] == STRING_DELIMIT {
            lemma_skip_text(s.skip(1), STRING_DELIMIT);
        }
    }
}

/// A value takes up some of the bytes there are, or reading it stops inside them.
pub proof fn lemma_skip_value(s: Seq<u8>, room: nat, limit: nat)
    ensures
        skip_value(s, room, limit).within(s.len()),
        skip_value(s, room, limit) matches Parsed::Whole(_, n) ==> n > 0,
    decreases s.len(), 0nat,
{
    if s.len() > 0 {
        if s[0] == LIST_BEGIN && room > 0 {
            lemma_skip_list(s.skip(1), (room - 1) as nat, limit);
        } else if s[0] == MAP_BEGIN && room > 0 {
            lemma_skip_map(s.skip(1), (room - 1) as nat, limit);
        } else {
            lemma_skip_leaf(s);
        }
    }
}

/// What is left of a list takes up some of the bytes there are, or reading it
/// stops inside them.
pub proof fn lemma_skip_list(s: Seq<u8>, room: nat, limit: nat)
    ensures
        skip_list(s, room, limit).within(s.len()),
        skip_list(s, room, limit) matches Parsed::Whole(_, n) ==> n > 0,
    decreases s.len(), 1nat,
{
    if s.len() > 0 && s[0] != LIST_END {
        lemma_skip_value(s, room, limit);
        if let Parsed::Whole(_, n) = skip_value(s, room, limit) {
            lemma_skip_list(s.skip(n as int), room, limit);
        }
    }
}

/// What is left of a map takes up some of the bytes there are, or reading it
/// stops inside them.
pub proof fn lemma_skip_map(s: Seq<u8>, room: nat, limit: nat)
    ensures
        skip_map(s, room, limit).within(s.len()),
        skip_map(s, room, limit) matches Parsed::Whole(_, n) ==> n > 0,
    decreases s.len(), 2nat,
{
    if s.len() > 0 && s[0] != MAP_END {
        lemma_skip_value(s, room, limit);
        if let Parsed::Whole(_, n) = skip_value(s, room, limit) {
            lemma_skip_entry(s.skip(n as int), room, limit);
        }
    }
}

/// What is left of a map behind a key takes up some of the bytes there are, or reading it
/// stops inside them.
pub proof fn lemma_skip_entry(s: Seq<u8>, room: nat, limit: nat)
    ensures
        skip_entry(s, room, limit).within(s.len()),
        skip_entry(s, room, limit) matches Parsed::Whole(_, n) ==> n > 0,
    decreases s.len(), 1nat,
{
    lemma_skip_value(s, room, limit);
    if let Parsed::Whole(_, n) = skip_value(s, room, limit) {
        lemma_skip_map(s.skip(n as int), room, limit);
    }
}

/// Whether `after` is what `before` comes to when more bytes arrive: a value stays the value that
/// it was, and bytes that are no value do not become one.
pub open spec fn settled<T>(before: Parsed<T>, after: Parsed<T>) -> bool {
    before is Partial || after == before
}

/// The bytes behind text have no say in where it ends.
pub proof fn lemma_skip_text_extend(s: Seq<u8>, more: Seq<u8>, end: u8)
    ensures
        settled(skip_text(s, end), skip_text(s + more, end)),
{
    lemma_text_end(s, end);
    lemma_text_end(s + more, end);
    if let Some(k) = text_end(s, end) {
        lemma_closes_extend(s, more, end, k);
        assert(closes_at(s + more, end, k));
    }
}

/// The bytes behind a value that is neither a list nor a map have no say in where it ends.
pub proof fn lemma_skip_leaf_extend(s: Seq<u8>, more: Seq<u8>)
    ensures
        settled(skip_leaf(s), skip_leaf(s + more)),
{
    reveal(skip_leaf);
    if s.len() > 0 {
        let t = s + more;
        assert(t[0] == s[0]);
        if s[0] == ARRAY_DELIMIT {
            if s.len() > 1 {
                assert(t.skip(2) =~= s.skip(2) + more);
                lemma_skip_text_extend(s.skip(2), more, ARRAY_DELIMIT);
            }
        } else if s[0] == STRING_DELIMIT {
            assert(t.skip(1) =~= s.skip(1) + more);
            lemma_skip_text_extend(s.skip(1), more, STRING_DELIMIT);
        } else if let Some(ty) = Type::from_code(s[0]) {
            if s.len() > ty.width() {
                assert(t.subrange(1, 1 + ty.width() as int) =~= s.subrange(
                    1,
                    1 + ty.width() as int,
                ));
            }
        }
    }
}

/// The bytes behind a value have no say in where it ends, nor have those behind bytes that are
/// no value.
pub proof fn skip_value_extend(s: Seq<u8>, more: Seq<u8>, room: nat, limit: nat)
    ensures
        settled(skip_value(s, room, limit), skip_value(s + more, room, limit)),
    decreases s.len(), 0nat,
{
    if s.len() > 0 {
        let t = s + more;
        assert(t[0] == s[0]);
        assert(t.skip(1) =~= s.skip(1) + more);
        if s[0] == LIST_BEGIN {
            if room > 0 {
                lemma_skip_list_extend(s.skip(1), more, (room - 1) as nat, limit);
            }
        } else if s[0] == MAP_BEGIN {
            if room > 0 {
                lemma_skip_map_extend(s.skip(1), more, (room - 1) as nat, limit);
            }
        } else {
            lemma_skip_leaf_extend(s, more);
        }
    }
}

/// The bytes behind what is left of a list have no say in where it ends.
pub proof fn lemma_skip_list_extend(s: Seq<u8>, more: Seq<u8>, room: nat, limit: nat)
    ensures
        settled(skip_list(s, room, limit), skip_list(s + more, room, limit)),
    decreases s.len(), 1nat,
{
    if s.len() > 0 && s[0] != LIST_END {
        lemma_skip_value(s, room, limit);
        skip_value_extend(s, more, room, limit);
        if let Parsed::Whole(_, n) = skip_value(s, room, limit) {
            lemma_skip_list_extend(s.skip(n as int), more, room, limit);
            assert((s + more).skip(n as int) =~= s.skip(n as int) + more);
        }
    }
}

/// The bytes behind what is left of a map have no say in where it ends.
pub proof fn lemma_skip_map_extend(s: Seq<u8>, more: Seq<u8>, room: nat, limit: nat)
    ensures
        settled(skip_map(s, room, limit), skip_map(s + more, room, limit)),
    decreases s.len(), 2nat,
{
    if s.len() > 0 && s[0] != MAP_END {
        lemma_skip_value(s, room, limit);
        skip_value_extend(s, more, room, limit);
        if let Parsed::Whole(_, n) = skip_value(s, room, limit) {
            lemma_skip_entry_extend(s.skip(n as int), more, room, limit);
            assert((s + more).skip(n as int) =~= s.skip(n as int) + more);
        }
    }
}

/// The bytes behind what is left of a map, behind a key, have no say in where it ends.
pub proof fn lemma_skip_entry_extend(s: Seq<u8>, more: Seq<u8>, room: nat, limit: nat)
    ensures
        settled(skip_entry(s, room, limit), skip_entry(s + more, room, limit)),
    decreases s.len(), 1nat,
{
    lemma_skip_value(s, room, limit);
    skip_value_extend(s, more, room, limit);
    if let Parsed::Whole(_, n) = skip_value(s, room, limit) {
        lemma_skip_map_extend(s.skip(n as int), more, room, limit);
        assert((s + more).skip(n as int) =~= s.skip(n as int) + more);
    }
}

} // verus!
