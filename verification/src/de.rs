//! Reading a TBON stream.
//!
//! A [`Decoder`] holds the bytes of the stream that have arrived and have not been consumed.
//! Its methods never wait: one that needs bytes which have not arrived answers [`Step::Read`],
//! keeps what it has come to, and is called again once [`Decoder::buffer`] has been handed what
//! the source of the stream had to say next.

use bytes::Bytes;
use vstd::prelude::*;
use vstd::slice::{slice_subrange, slice_to_vec};
use vstd::string::*;
use vstd::utf8::{decode_utf8, valid_utf8};

use crate::buf::{bytes_as_slice, bytes_contents};
use crate::constants::{Type, ARRAY_DELIMIT, LIST_BEGIN, MAP_BEGIN, STRING_DELIMIT};
use crate::element::{parse_error_text, Element};
use crate::error::{
    depth_text, invalid_length_text, invalid_type_text, invalid_value_text, type_bit_text,
    Error,
};
use crate::escape::{lemma_text_end, text_end, unescape, unescape_bytes, Scan};
use crate::text::{decimal, push_decimal};
use crate::utf8::{string_from_utf8, utf8_error_text};

verus! {

/// How many bytes an error message shows of the stream.
pub const SNIPPET_LEN: usize = 10;

/// How deep lists and maps may be nested unless the caller says otherwise.
pub const DEFAULT_MAX_DEPTH: usize = 1024;

/// How many consumed bytes a decoder keeps, at least, before it moves the others to the front.
pub const COMPACT_LEN: usize = 8192;

/// What a method of a [`Decoder`] came to.
#[derive(Debug)]
pub enum Step<T> {
    /// Bytes are missing: read on from the source, then call the method again.
    Read,
    /// The method is done.
    Done(T),
}

/// What a decoder stands for.
#[verifier::ext_equal]
pub struct State {
    /// The bytes that have arrived and have not been consumed.
    pub pending: Seq<u8>,
    /// The number of lists and maps that are open.
    pub depth: nat,
    /// The number of lists and maps that may be open.
    pub max_depth: nat,
    /// Whether the source of the stream has ended.
    pub terminated: bool,
}

impl State {
    /// The state behind the next `n` bytes.
    pub open spec fn consume(self, n: int) -> State {
        State { pending: self.pending.skip(n), ..self }
    }

    /// The state with one more list or map open.
    pub open spec fn push(self) -> State {
        State { depth: self.depth + 1, ..self }
    }

    /// The state with one list or map less open.
    pub open spec fn pop(self) -> State {
        State { depth: (self.depth - 1) as nat, ..self }
    }

    /// The number of lists and maps that may still be opened.
    pub open spec fn room(self) -> nat {
        (self.max_depth - self.depth) as nat
    }
}

/// Whether bytes are missing: there are none, and the source has not ended.
pub open spec fn starved(s: State) -> bool {
    s.pending.len() == 0 && !s.terminated
}

/// Whether the stream ends here.
pub open spec fn ended(s: State) -> bool {
    s.pending.len() == 0 && s.terminated
}

/// How an error message shows a byte.
pub open spec fn byte_text(c: u8) -> Seq<char> {
    if c < 32 {
        decimal(c as nat)
    } else {
        seq![c as char]
    }
}

/// How an error message shows the bytes `s` of the stream.
pub open spec fn snippet(s: Seq<u8>) -> Seq<char>
    decreases s.len(),
{
    if s.len() == 0 {
        Seq::empty()
    } else if s.last() < 128 {
        snippet(s.drop_last()).push(s.last() as char)
    } else {
        snippet(s.drop_last()) + " "@ + decimal(s.last() as nat) + " "@
    }
}

/// The first `n` bytes of `s`, or all of them.
pub open spec fn at_most(s: Seq<u8>, n: nat) -> Seq<u8> {
    if s.len() <= n {
        s
    } else {
        s.take(n as int)
    }
}

/// The text of the error about a stream that goes on with `p` and not with `expected`.
pub open spec fn delimiter_text(p: Seq<u8>, expected: u8) -> Seq<char> {
    "unexpected delimiter "@ + byte_text(p[0]) + ", expected "@ + byte_text(expected) + " at "@
        + snippet(at_most(p, SNIPPET_LEN as nat))
}

/// What becomes of the bytes that are kept, the first `n` of which have been consumed, when
/// consumed bytes are let go of, and how many consumed ones are still kept.
pub open spec fn compacted(kept: Seq<u8>, n: nat) -> (Seq<u8>, nat) {
    if n == kept.len() || (n > COMPACT_LEN && n > kept.len() / 2) {
        (kept.skip(n as int), 0)
    } else {
        (kept, n)
    }
}

/// Letting go of consumed bytes moves no more bytes than it lets go of, and what it leaves of
/// them is little: not many, or no more than half of what is kept.
pub proof fn compaction_pays(kept: Seq<u8>, n: nat)
    requires
        n <= kept.len(),
    ensures
        compacted(kept, n) == (kept, n) || compacted(kept, n).0.len() <= n,
        compacted(kept, n).0.skip(compacted(kept, n).1 as int) == kept.skip(n as int),
        compacted(kept, n).1 <= COMPACT_LEN || compacted(kept, n).1 <= compacted(kept, n).0.len()
            / 2,
{
    assert(kept.skip(n as int).skip(0) =~= kept.skip(n as int));
}

/// Appends to `out` what an error message shows of the byte `c`.
fn push_byte(out: &mut String, c: u8)
    ensures
        final(out)@ == old(out)@ + byte_text(c),
{
    if c < 32 {
        push_decimal(out, c as usize);
    } else {
        out.push(c as char);
        proof {
            assert(out@ =~= old(out)@ + byte_text(c));
        }
    }
}

/// A structure that reads values from a TBON stream.
pub struct Decoder {
    buffer: Vec<u8>,
    offset: usize,
    max_depth: usize,
    depth: usize,
    terminated: bool,
}

impl View for Decoder {
    type V = State;

    closed spec fn view(&self) -> State {
        State {
            pending: self.buffer@.skip(self.offset as int),
            depth: self.depth as nat,
            max_depth: self.max_depth as nat,
            terminated: self.terminated,
        }
    }
}

impl Decoder {
    /// The bytes that are kept, consumed ones at the front.
    pub closed spec fn kept(self) -> Seq<u8> {
        self.buffer@
    }

    /// The number of consumed bytes that are kept.
    pub closed spec fn consumed(self) -> nat {
        self.offset as nat
    }

    /// What holds of every decoder.
    pub open spec fn wf(self) -> bool {
        &&& self.consumed() <= self.kept().len() <= isize::MAX
        &&& self@.pending == self.kept().skip(self.consumed() as int)
        &&& self@.depth <= self@.max_depth <= usize::MAX
    }

    /// A decoder at the start of a stream, in which lists and maps may be nested `max_depth` deep.
    pub fn with_max_depth(max_depth: usize) -> (decoder: Decoder)
        ensures
            decoder.wf(),
            decoder.kept() == Seq::<u8>::empty(),
            decoder@ == (State {
                pending: Seq::empty(),
                depth: 0,
                max_depth: max_depth as nat,
                terminated: false,
            }),
    {
        let decoder = Decoder {
            buffer: Vec::new(),
            offset: 0,
            max_depth,
            depth: 0,
            terminated: false,
        };
        assert(decoder@.pending =~= Seq::<u8>::empty());
        decoder
    }

    /// Opens a list or map.
    pub fn push_depth(&mut self) -> (r: Result<(), Error>)
        requires
            old(self).wf(),
        ensures
            final(self).wf(),
            match r {
                Ok(()) => old(self)@.room() > 0 && final(self)@ == old(self)@.push(),
                Err(e) => old(self)@.room() == 0 && final(self)@ == old(self)@ && e@ == depth_text(
                    old(self)@.max_depth,
                ),
            },
            final(self).kept() == old(self).kept(),
            final(self).consumed() == old(self).consumed(),
    {
        if self.depth >= self.max_depth {
            return Err(Error::too_deep(self.max_depth));
        }
        self.depth = self.depth + 1;
        Ok(())
    }

    /// Closes a list or map.
    pub fn pop_depth(&mut self)
        requires
            old(self).wf(),
            old(self)@.depth > 0,
        ensures
            final(self).wf(),
            final(self)@ == old(self)@.pop(),
            final(self).kept() == old(self).kept(),
            final(self).consumed() == old(self).consumed(),
    {
        self.depth = self.depth - 1;
    }

    /// The number of lists and maps that are open.
    pub fn depth(&self) -> (n: usize)
        ensures
            n == self@.depth,
    {
        self.depth
    }

    /// The number of lists and maps that may be open.
    pub fn max_depth(&self) -> (n: usize)
        ensures
            n == self@.max_depth,
    {
        self.max_depth
    }

    /// Whether the source of the stream has ended.
    pub fn is_terminated(&self) -> (b: bool)
        ensures
            b == self@.terminated,
    {
        self.terminated
    }

    /// The number of bytes that have arrived and have not been consumed.
    pub fn remaining(&self) -> (n: usize)
        requires
            self.wf(),
        ensures
            n == self@.pending.len(),
    {
        self.buffer.len() - self.offset
    }

    /// The bytes that have arrived and have not been consumed.
    pub fn available(&self) -> (s: &[u8])
        requires
            self.wf(),
        ensures
            s@ == self@.pending,
    {
        slice_subrange(self.buffer.as_slice(), self.offset, self.buffer.len())
    }

    /// Whether a chunk of the stream can be kept besides what is kept already.
    pub fn has_room(&self, data: &Bytes) -> (b: bool)
        requires
            self.wf(),
        ensures
            b == (self.kept().len() + bytes_contents(*data).len() <= isize::MAX),
    {
        bytes_as_slice(data).len() <= isize::MAX as usize - self.buffer.len()
    }

    /// Lets go of consumed bytes: of all of them where no others are kept, and else where they
    /// are many and more than half of what is kept.
    pub fn maybe_compact(&mut self)
        requires
            old(self).wf(),
        ensures
            final(self).wf(),
            final(self)@ == old(self)@,
            (final(self).kept(), final(self).consumed()) == compacted(
                old(self).kept(),
                old(self).consumed(),
            ),
    {
        if self.offset == 0 {
            proof {
                assert(self.buffer@.skip(0) =~= self.buffer@);
            }
            return;
        }
        if self.offset == self.buffer.len() {
            self.buffer.clear();
            self.offset = 0;
        } else if self.offset > COMPACT_LEN && self.offset > self.buffer.len() / 2 {
            let rest = self.buffer.split_off(self.offset);
            self.buffer = rest;
            self.offset = 0;
        }
        proof {
            assert(self@.pending =~= old(self)@.pending);
            assert(self.consumed() == 0 ==> self.kept() =~= old(self)@.pending);
        }
    }

    /// Consumes the next `n` bytes.
    pub fn consume(&mut self, n: usize)
        requires
            old(self).wf(),
            n <= old(self)@.pending.len(),
        ensures
            final(self).wf(),
            final(self)@ == old(self)@.consume(n as int),
            (final(self).kept(), final(self).consumed()) == compacted(
                old(self).kept(),
                old(self).consumed() + n as nat,
            ),
    {
        self.offset = self.offset + n;
        proof {
            assert(self@.pending =~= old(self)@.pending.skip(n as int));
        }
        self.maybe_compact();
    }

    /// Shows up to `max_len` of the bytes that have arrived and have not been consumed.
    pub fn contents(&self, max_len: usize) -> (s: String)
        requires
            self.wf(),
        ensures
            s@ == snippet(at_most(self@.pending, max_len as nat)),
    {
        let buf = self.available();
        let len: usize = if buf.len() <= max_len { buf.len() } else { max_len };
        let mut s = String::new();
        let mut i: usize = 0;
        proof {
            assert(buf@.take(0) =~= Seq::<u8>::empty());
        }
        while i < len
            invariant
                i <= len <= buf@.len(),
                s@ == snippet(buf@.take(i as int)),
            decreases len - i,
        {
            let c: u8 = buf[i];
            proof {
                assert(buf@.take(i + 1).drop_last() =~= buf@.take(i as int));
            }
            if c < 128 {
                s.push(c as char);
            } else {
                s.append(" ");
                push_decimal(&mut s, c as usize);
                s.append(" ");
            }
            i = i + 1;
        }
        proof {
            assert(buf@.take(len as int) =~= at_most(self@.pending, max_len as nat));
        }
        s
    }

    /// Appends bytes that have arrived.
    pub fn extend(&mut self, data: &[u8])
        requires
            old(self).wf(),
            old(self).kept().len() + data@.len() <= isize::MAX,
        ensures
            final(self).wf(),
            final(self)@ == (State {
                pending: old(self)@.pending + data@,
                ..old(self)@
            }),
            ({
                let (kept, consumed) = compacted(old(self).kept(), old(self).consumed());
                final(self).kept() == kept + data@ && final(self).consumed() == consumed
            }),
    {
        self.maybe_compact();
        let ghost before = self.buffer@;
        self.buffer.extend_from_slice(data);
        proof {
            assert(self.buffer@ =~= before + data@);
            assert(self@.pending =~= old(self)@.pending + data@);
        }
    }

    /// Takes note of what the source had to say: a chunk of the stream, an error, or nothing
    /// more. An error is handed back.
    pub fn buffer(&mut self, event: Option<Result<Bytes, Error>>) -> (r: Result<(), Error>)
        requires
            old(self).wf(),
            event matches Some(Ok(data)) ==> old(self).kept().len() + bytes_contents(data).len()
                <= isize::MAX,
        ensures
            final(self).wf(),
            match event {
                Some(Ok(data)) => r is Ok && final(self)@ == (State {
                    pending: old(self)@.pending + bytes_contents(data),
                    ..old(self)@
                }) && final(self).kept() == compacted(
                    old(self).kept(),
                    old(self).consumed(),
                ).0 + bytes_contents(data),
                Some(Err(e)) => r == Err::<(), Error>(e) && final(self)@ == old(self)@
                    && final(self).kept() == compacted(
                    old(self).kept(),
                    old(self).consumed(),
                ).0,
                None => r is Ok && final(self)@ == (State { terminated: true, ..old(self)@ })
                    && final(self).kept() == old(self).kept(),
            },
    {
        match event {
            Some(Ok(data)) => {
                self.extend(bytes_as_slice(&data));
                Ok(())
            },
            Some(Err(e)) => {
                self.maybe_compact();
                Err(e)
            },
            None => {
                self.terminated = true;
                Ok(())
            },
        }
    }
}

/// What a value of any type starts with.
#[derive(Clone, Copy, Debug, PartialEq, Eq, Structural)]
pub enum Lead {
    /// An array of values of this type.
    Array(Type),
    /// A list.
    List,
    /// A map.
    Dict,
    /// A string.
    Text,
    /// A single value of this type.
    Scalar(Type),
}

/// Whether the type of an array can be told from the array itself.
pub open spec fn self_describing(t: Type) -> bool {
    t != Type::Unit && t != Type::I8
}

/// The text of the error about the type bit `code` where a value of type `t` was expected.
pub open spec fn type_text(code: u8, t: Type) -> Seq<char> {
    match Type::from_code(code) {
        Some(found) => invalid_type_text(found.label(), t.label()),
        None => invalid_value_text(decimal(code as nat), "a TBON type bit"@),
    }
}

/// Whether the text at the start of the stream can be entered: its opening byte has been consumed,
/// or comes next.
pub open spec fn enters(s: State, opened: bool, begin: u8) -> bool {
    opened || (s.pending.len() > 0 && s.pending[0] == begin)
}

/// The state behind the opening byte of text.
pub open spec fn inside(s: State, opened: bool) -> State {
    if opened {
        s
    } else {
        s.consume(1)
    }
}

/// What a look at text comes to.
pub ghost enum Outcome {
    /// Bytes are missing.
    Waits,
    /// The text has been consumed.
    Ends,
    /// There is no such text: an error with this message.
    Fails(Seq<char>),
}

/// Whether `r` tells of `outcome`.
pub open spec fn tells<T>(r: Step<Result<T, Error>>, outcome: Outcome) -> bool {
    match r {
        Step::Read => outcome is Waits,
        Step::Done(Ok(_)) => outcome is Ends,
        Step::Done(Err(e)) => outcome == Outcome::Fails(e@),
    }
}

/// What comes of text, where bytes of it are missing.
pub open spec fn unfinished(s: State) -> Outcome {
    if s.terminated {
        Outcome::Fails("unexpected end of stream"@)
    } else {
        Outcome::Waits
    }
}

/// What reading text between the bytes `begin` and `end` comes to: the state afterwards, whether
/// the opening byte has been consumed, and the outcome.
pub open spec fn read_string(s: State, opened: bool, begin: u8, end: u8) -> (State, bool, Outcome) {
    let t = inside(s, opened);
    if enters(s, opened, begin) {
        match text_end(t.pending, end) {
            Some(k) => (t.consume(k + 1), true, Outcome::Ends),
            None => (t, true, unfinished(t)),
        }
    } else if s.pending.len() == 0 {
        (s, false, unfinished(s))
    } else {
        (s, false, Outcome::Fails(delimiter_text(s.pending, begin)))
    }
}

impl Decoder {
    /// Makes sure that the stream ends here.
    pub fn ensure_eof(&self) -> (r: Step<Result<(), Error>>)
        requires
            self.wf(),
        ensures
            match r {
                Step::Read => starved(self@),
                Step::Done(Ok(())) => ended(self@),
                Step::Done(Err(e)) => self@.pending.len() > 0 && e@
                    == "expected end of stream, found trailing bytes"@,
            },
    {
        if self.remaining() != 0 {
            Step::Done(Err(Error::trailing_bytes()))
        } else if self.terminated {
            Step::Done(Ok(()))
        } else {
            Step::Read
        }
    }

    /// The error about a stream that does not go on with `expected`.
    fn unexpected_delimiter(&self, expected: u8) -> (e: Error)
        requires
            self.wf(),
            self@.pending.len() > 0,
        ensures
            e@ == delimiter_text(self@.pending, expected),
    {
        let mut message = String::from_str("unexpected delimiter ");
        push_byte(&mut message, self.available()[0]);
        message.append(", expected ");
        push_byte(&mut message, expected);
        message.append(" at ");
        let shown = self.contents(SNIPPET_LEN);
        message.append(shown.as_str());
        Error::custom(message)
    }

    /// Consumes the given byte, which must come next.
    pub fn expect_delimiter(&mut self, delimiter: u8) -> (r: Step<Result<(), Error>>)
        requires
            old(self).wf(),
        ensures
            final(self).wf(),
            final(self).kept().len() <= old(self).kept().len(),
            match r {
                Step::Read => starved(old(self)@) && final(self)@ == old(self)@,
                Step::Done(Ok(())) => old(self)@.pending.len() > 0 && old(self)@.pending[0]
                    == delimiter && final(self)@ == old(self)@.consume(1),
                Step::Done(Err(e)) => final(self)@ == old(self)@ && if old(self)@.pending.len()
                    == 0 {
                    ended(old(self)@) && e@ == "unexpected end of stream"@
                } else {
                    old(self)@.pending[0] != delimiter && e@ == delimiter_text(
                        old(self)@.pending,
                        delimiter,
                    )
                },
            },
    {
        if self.remaining() == 0 {
            if self.terminated {
                Step::Done(Err(Error::unexpected_end()))
            } else {
                Step::Read
            }
        } else if self.available()[0] == delimiter {
            self.consume(1);
            Step::Done(Ok(()))
        } else {
            Step::Done(Err(self.unexpected_delimiter(delimiter)))
        }
    }

    /// Consumes the given byte if it comes next, and says whether it did.
    pub fn maybe_delimiter(&mut self, delimiter: u8) -> (r: Step<bool>)
        requires
            old(self).wf(),
        ensures
            final(self).wf(),
            final(self).kept().len() <= old(self).kept().len(),
            match r {
                Step::Read => starved(old(self)@) && final(self)@ == old(self)@,
                Step::Done(true) => old(self)@.pending.len() > 0 && old(self)@.pending[0]
                    == delimiter && final(self)@ == old(self)@.consume(1),
                Step::Done(false) => final(self)@ == old(self)@ && !starved(old(self)@)
                    && (old(self)@.pending.len() > 0 ==> old(self)@.pending[0] != delimiter),
            },
    {
        if self.remaining() == 0 {
            if self.terminated {
                Step::Done(false)
            } else {
                Step::Read
            }
        } else if self.available()[0] == delimiter {
            self.consume(1);
            Step::Done(true)
        } else {
            Step::Done(false)
        }
    }

    /// Consumes a value of type `N`.
    pub fn parse_element<N: Element>(&mut self) -> (r: Step<Result<N, Error>>)
        requires
            old(self).wf(),
        ensures
            final(self).wf(),
            final(self).kept().len() <= old(self).kept().len(),
            ({
                let s = old(self)@;
                let p = s.pending;
                let width = N::kind().width() as int;
                match r {
                    Step::Read => p.len() <= width && !s.terminated && final(self)@ == s,
                    Step::Done(Ok(v)) => p.len() > width && p[0] == N::kind().code()
                        && N::from_bytes(p.subrange(1, 1 + width)) == Some(v) && final(self)@
                        == s.consume(1 + width),
                    Step::Done(Err(e)) => if p.len() <= width {
                        s.terminated && final(self)@ == s && e@ == invalid_length_text(
                            p.len(),
                            N::kind().label(),
                        )
                    } else if p[0] != N::kind().code() {
                        final(self)@ == s.consume(1) && e@ == type_text(p[0], N::kind())
                    } else {
                        N::from_bytes(p.subrange(1, 1 + width)) is None && final(self)@
                            == s.consume(1) && e@ == parse_error_text(
                            N::kind(),
                            p.subrange(1, 1 + width),
                        )
                    },
                }
            }),
    {
        proof {
            N::width_bounds();
        }
        let size: usize = N::size();
        let dtype = N::dtype();
        if self.remaining() <= size {
            if self.terminated {
                return Step::Done(Err(Error::invalid_length(self.remaining(), dtype.name())));
            } else {
                return Step::Read;
            }
        }
        let code: u8 = self.available()[0];
        self.consume(1);
        if code != dtype.to_u8() {
            return match Type::from_u8(code) {
                Some(found) => Step::Done(Err(Error::invalid_type(found.name(), dtype.name()))),
                None => Step::Done(Err(Error::invalid_value(code, "a TBON type bit"))),
            };
        }
        let bytes = slice_subrange(self.available(), 0, size);
        proof {
            assert(bytes@ =~= old(self)@.pending.subrange(1, 1 + size));
        }
        match N::parse(bytes) {
            Ok(v) => {
                self.consume(size);
                proof {
                    assert(self@ =~= old(self)@.consume(1 + size));
                }
                Step::Done(Ok(v))
            },
            Err(e) => Step::Done(Err(e)),
        }
    }

    /// Consumes the unit value.
    pub fn parse_unit(&mut self) -> (r: Step<Result<(), Error>>)
        requires
            old(self).wf(),
        ensures
            final(self).wf(),
            final(self).kept().len() <= old(self).kept().len(),
            ({
                let s = old(self)@;
                match r {
                    Step::Read => starved(s) && final(self)@ == s,
                    Step::Done(Ok(())) => s.pending.len() > 0 && s.pending[0]
                        == Type::Unit.code() && final(self)@ == s.consume(1),
                    Step::Done(Err(e)) => if s.pending.len() == 0 {
                        ended(s) && final(self)@ == s && e@ == "unexpected end of stream"@
                    } else {
                        s.pending[0] != Type::Unit.code() && final(self)@ == s.consume(1) && e@
                            == invalid_type_text(
                            match Type::from_code(s.pending[0]) {
                                Some(found) => found.label(),
                                None => "(unknown)"@,
                            },
                            Type::Unit.label(),
                        )
                    },
                }
            }),
    {
        if self.remaining() == 0 {
            if self.terminated {
                return Step::Done(Err(Error::unexpected_end()));
            } else {
                return Step::Read;
            }
        }
        let code: u8 = self.available()[0];
        self.consume(1);
        if code == Type::Unit.to_u8() {
            return Step::Done(Ok(()));
        }
        let found = match Type::from_u8(code) {
            Some(found) => found.name(),
            None => "(unknown)",
        };
        Step::Done(Err(Error::invalid_type(found, Type::Unit.name())))
    }

    /// Consumes text between the bytes `begin` and `end` and returns the data that it stands
    /// for. How far it has come is kept in `scan` from call to call.
    pub fn buffer_string(&mut self, scan: &mut Scan, begin: u8, end: u8) -> (r: Step<
        Result<Bytes, Error>,
    >)
        requires
            old(self).wf(),
            old(scan).fits(old(self)@.pending, end),
        ensures
            final(self).wf(),
            final(self).kept().len() <= old(self).kept().len(),
            r is Read ==> final(scan).fits(final(self)@.pending, end),
            ({
                let (t, opened, outcome) = read_string(
                    old(self)@,
                    old(scan).opened(),
                    begin,
                    end,
                );
                let text = inside(old(self)@, old(scan).opened()).pending;
                &&& final(self)@ == t
                &&& tells(r, outcome)
                &&& outcome is Waits ==> final(scan).opened() == opened
                &&& r matches Step::Done(Ok(data)) ==> bytes_contents(data) == unescape(
                    text.take(text_end(text, end)->0),
                )
            }),
    {
        if !scan.is_opened() {
            match self.expect_delimiter(begin) {
                Step::Read => {
                    return Step::Read;
                },
                Step::Done(Err(e)) => {
                    return Step::Done(Err(e));
                },
                Step::Done(Ok(())) => {
                    scan.open();
                },
            }
        }
        let text = self.available();
        proof {
            lemma_text_end(text@, end);
        }
        if scan.advance(text, end) {
            let k: usize = scan.position();
            let data = unescape_bytes(slice_subrange(text, 0, k));
            proof {
                assert(text@.subrange(0, k as int) =~= self@.pending.take(k as int));
            }
            self.consume(k + 1);
            Step::Done(Ok(data))
        } else if self.terminated {
            Step::Done(Err(Error::unexpected_end()))
        } else {
            Step::Read
        }
    }

    /// Consumes a string. How far it has come is kept in `scan` from call to call.
    pub fn parse_string(&mut self, scan: &mut Scan) -> (r: Step<Result<String, Error>>)
        requires
            old(self).wf(),
            old(scan).fits(old(self)@.pending, STRING_DELIMIT),
        ensures
            final(self).wf(),
            final(self).kept().len() <= old(self).kept().len(),
            r is Read ==> final(scan).fits(final(self)@.pending, STRING_DELIMIT),
            ({
                let (t, opened, outcome) = read_string(
                    old(self)@,
                    old(scan).opened(),
                    STRING_DELIMIT,
                    STRING_DELIMIT,
                );
                let text = inside(old(self)@, old(scan).opened()).pending;
                let data = unescape(text.take(text_end(text, STRING_DELIMIT)->0));
                &&& final(self)@ == t
                &&& outcome is Waits ==> final(scan).opened() == opened
                &&& if outcome is Ends {
                    match r {
                        Step::Read => false,
                        Step::Done(Ok(text)) => valid_utf8(data) && text@ == decode_utf8(data),
                        Step::Done(Err(e)) => !valid_utf8(data) && e@ == "invalid UTF-8: "@
                            + utf8_error_text(data),
                    }
                } else {
                    tells(r, outcome)
                }
            }),
    {
        match self.buffer_string(scan, STRING_DELIMIT, STRING_DELIMIT) {
            Step::Read => Step::Read,
            Step::Done(Err(e)) => Step::Done(Err(e)),
            Step::Done(Ok(data)) => match string_from_utf8(slice_to_vec(bytes_as_slice(&data))) {
                Ok(text) => Step::Done(Ok(text)),
                Err(info) => Step::Done(Err(Error::invalid_utf8(info.as_str()))),
            },
        }
    }

    /// Says whether a value comes next. Where the unit value comes instead, consumes it and says
    /// no.
    pub fn decode_option(&mut self) -> (r: Step<Result<bool, Error>>)
        requires
            old(self).wf(),
        ensures
            final(self).wf(),
            final(self).kept().len() <= old(self).kept().len(),
            ({
                let s = old(self)@;
                match r {
                    Step::Read => starved(s) && final(self)@ == s,
                    Step::Done(Ok(false)) => s.pending.len() > 0 && s.pending[0]
                        == Type::Unit.code() && final(self)@ == s.consume(1),
                    Step::Done(Ok(true)) => s.pending.len() > 0 && s.pending[0]
                        != Type::Unit.code() && final(self)@ == s,
                    Step::Done(Err(e)) => ended(s) && final(self)@ == s && e@
                        == "unexpected end of stream"@,
                }
            }),
    {
        if self.remaining() == 0 {
            if self.terminated {
                return Step::Done(Err(Error::unexpected_end()));
            } else {
                return Step::Read;
            }
        }
        if self.available()[0] == Type::Unit.to_u8() {
            self.consume(1);
            Step::Done(Ok(false))
        } else {
            Step::Done(Ok(true))
        }
    }

    /// Says what the next value starts with, and consumes nothing.
    pub fn decode_any(&self) -> (r: Step<Result<Lead, Error>>)
        requires
            self.wf(),
        ensures
            ({
                let s = self@;
                let p = s.pending;
                match r {
                    Step::Read => !s.terminated && (p.len() == 0 || (p.len() == 1 && p[0]
                        == ARRAY_DELIMIT)),
                    Step::Done(Ok(lead)) => p.len() > 0 && match lead {
                        Lead::Array(t) => p[0] == ARRAY_DELIMIT && p.len() > 1
                            && Type::from_code(p[1]) == Some(t) && self_describing(t),
                        Lead::List => p[0] == LIST_BEGIN,
                        Lead::Dict => p[0] == MAP_BEGIN,
                        Lead::Text => p[0] == STRING_DELIMIT,
                        Lead::Scalar(t) => Type::from_code(p[0]) == Some(t),
                    },
                    Step::Done(Err(e)) => if p.len() == 0 || (p.len() == 1 && p[0]
                        == ARRAY_DELIMIT) {
                        s.terminated && e@ == "unexpected end of stream"@
                    } else if p[0] == ARRAY_DELIMIT {
                        match Type::from_code(p[1]) {
                            Some(t) => !self_describing(t) && e@ == invalid_type_text(
                                t.label(),
                                "a supported array type"@,
                            ),
                            None => e@ == type_bit_text(p[1]),
                        }
                    } else {
                        p[0] != LIST_BEGIN && p[0] != MAP_BEGIN && p[0] != STRING_DELIMIT
                            && Type::from_code(p[0]) is None && e@ == type_bit_text(p[0])
                    },
                }
            }),
    {
        let p = self.available();
        if p.len() == 0 || (p.len() == 1 && p[0] == ARRAY_DELIMIT) {
            if self.terminated {
                return Step::Done(Err(Error::unexpected_end()));
            } else {
                return Step::Read;
            }
        }
        let b: u8 = p[0];
        if b == ARRAY_DELIMIT {
            match Type::from_u8(p[1]) {
                None => Step::Done(Err(Error::invalid_type_bit(p[1]))),
                Some(t) => match t {
                    Type::Unit | Type::I8 => Step::Done(
                        Err(Error::invalid_type(t.name(), "a supported array type")),
                    ),
                    _ => Step::Done(Ok(Lead::Array(t))),
                },
            }
        } else if b == LIST_BEGIN {
            Step::Done(Ok(Lead::List))
        } else if b == MAP_BEGIN {
            Step::Done(Ok(Lead::Dict))
        } else if b == STRING_DELIMIT {
            Step::Done(Ok(Lead::Text))
        } else {
            match Type::from_u8(b) {
                Some(t) => Step::Done(Ok(Lead::Scalar(t))),
                None => Step::Done(Err(Error::invalid_type_bit(b))),
            }
        }
    }
}

} // verus!
