//! Values of a fixed size.
//!
//! Numbers are written most significant byte first, signed ones in two's complement.

use vstd::prelude::*;
use vstd::slice::slice_subrange;

use crate::constants::{Type, FALSE, TRUE};
use crate::error::{invalid_length_text, invalid_value_text, Error};
use crate::text::decimal;

verus! {

/// The number of values that `n` bytes can take.
pub open spec fn pow256(n: nat) -> nat
    decreases n,
{
    if n == 0 {
        1
    } else {
        256 * pow256((n - 1) as nat)
    }
}

/// The number that the bytes `s` stand for.
pub open spec fn be_value(s: Seq<u8>) -> nat
    decreases s.len(),
{
    if s.len() == 0 {
        0
    } else {
        256 * be_value(s.drop_last()) + s.last() as nat
    }
}

/// The lowest `width` bytes of the number `n`.
pub open spec fn be_bytes(n: nat, width: nat) -> Seq<u8>
    decreases width,
{
    if width == 0 {
        Seq::empty()
    } else {
        be_bytes(n / 256, (width - 1) as nat).push((n % 256) as u8)
    }
}

/// A number is what its bytes stand for.
pub proof fn be_round_trip(n: nat, width: nat)
    requires
        n < pow256(width),
    ensures
        be_bytes(n, width).len() == width,
        be_value(be_bytes(n, width)) == n,
    decreases width,
{
    if width > 0 {
        be_round_trip(n / 256, (width - 1) as nat);
        let s = be_bytes(n, width);
        assert(s.drop_last() =~= be_bytes(n / 256, (width - 1) as nat));
    }
}

/// Bytes are those of the number they stand for, which their count bounds.
pub proof fn be_value_bytes(s: Seq<u8>)
    ensures
        be_value(s) < pow256(s.len()),
        be_bytes(be_value(s), s.len()) == s,
    decreases s.len(),
{
    if s.len() > 0 {
        be_value_bytes(s.drop_last());
        let n = be_value(s);
        assert(n / 256 == be_value(s.drop_last()));
        assert(n % 256 == s.last());
        assert(s.drop_last().push(s.last()) =~= s);
    }
}

proof fn lemma_pow256(n: nat)
    requires
        n <= 8,
    ensures
        pow256(n) <= 0x1_0000_0000_0000_0000,
        pow256(1) == 0x100,
        pow256(2) == 0x1_0000,
        pow256(4) == 0x1_0000_0000,
        pow256(8) == 0x1_0000_0000_0000_0000,
{
    reveal_with_fuel(pow256, 9);
}

/// Returns the number that `bytes` stand for.
fn read_be(bytes: &[u8]) -> (n: u64)
    requires
        bytes@.len() <= 8,
    ensures
        n == be_value(bytes@),
        n < pow256(bytes@.len()),
{
    let len: usize = bytes.len();
    let mut n: u64 = 0;
    let mut i: usize = 0;
    while i < len
        invariant
            len == bytes@.len(),
            len <= 8,
            i <= len,
            n == be_value(bytes@.take(i as int)),
        decreases len - i,
    {
        proof {
            let s = bytes@.take(i + 1);
            assert(s.drop_last() =~= bytes@.take(i as int));
            be_value_bytes(s);
            lemma_pow256((i + 1) as nat);
        }
        n = n * 256 + bytes[i] as u64;
        i = i + 1;
    }
    proof {
        assert(bytes@.take(len as int) =~= bytes@);
        be_value_bytes(bytes@);
    }
    n
}

/// Appends the lowest `width` bytes of `n` to `out`.
fn write_be(out: &mut Vec<u8>, n: u64, width: usize)
    ensures
        final(out)@ == old(out)@ + be_bytes(n as nat, width as nat),
    decreases width,
{
    if width > 0 {
        write_be(out, n / 256, width - 1);
        out.push((n % 256) as u8);
    }
    proof {
        assert(out@ =~= old(out)@ + be_bytes(n as nat, width as nat));
    }
}

/// The bits of a 32-bit floating-point number.
#[derive(Clone, Copy, Debug, PartialEq, Eq, Structural)]
pub struct F32(pub u32);

/// The bits of a 64-bit floating-point number.
#[derive(Clone, Copy, Debug, PartialEq, Eq, Structural)]
pub struct F64(pub u64);

/// A value of a fixed size, such as a number.
pub trait Element: Sized + Copy {
    /// The type of the value.
    spec fn kind() -> Type;

    /// The bytes of the value.
    spec fn to_bytes(self) -> Seq<u8>;

    /// The value with the given bytes.
    spec fn from_bytes(bytes: Seq<u8>) -> Option<Self>;

    /// A value takes up some bytes, at most eight.
    proof fn width_bounds()
        ensures
            0 < Self::kind().width() <= 8,
    ;

    /// The bytes of a value are as many as its type says, and are those of this value.
    proof fn round_trip(self)
        ensures
            self.to_bytes().len() == Self::kind().width(),
            Self::from_bytes(self.to_bytes()) == Some(self),
    ;

    /// Which bytes are a value depends on the type alone.
    proof fn from_bytes_domain(bytes: Seq<u8>)
        ensures
            Self::from_bytes(bytes) is Some <==> is_element(Self::kind(), bytes),
    ;

    /// Returns the type of the value.
    fn dtype() -> (t: Type)
        ensures
            t == Self::kind(),
    ;

    /// Returns the number of bytes of the value.
    fn size() -> (n: usize)
        ensures
            n == Self::kind().width(),
    ;

    /// Returns the value with the given bytes.
    fn parse(bytes: &[u8]) -> (r: Result<Self, Error>)
        ensures
            match r {
                Ok(v) => Self::from_bytes(bytes@) == Some(v),
                Err(e) => Self::from_bytes(bytes@) is None && e@ == parse_error_text(
                    Self::kind(),
                    bytes@,
                ),
            },
    ;

    /// Appends the bytes of the value to `out`.
    fn write(self, out: &mut Vec<u8>)
        ensures
            final(out)@ == old(out)@ + self.to_bytes(),
    ;
}

/// The text of the error about `bytes` that are no value of type `t`.
pub open spec fn parse_error_text(t: Type, bytes: Seq<u8>) -> Seq<char> {
    if bytes.len() != t.width() {
        invalid_length_text(bytes.len(), t.label())
    } else {
        invalid_value_text(decimal(bytes[0] as nat), "a boolean"@)
    }
}

/// Whether `bytes` are a value of type `t`.
pub open spec fn is_element(t: Type, bytes: Seq<u8>) -> bool {
    &&& bytes.len() == t.width()
    &&& t == Type::Bool ==> bytes[0] == TRUE || bytes[0] == FALSE
}

impl Element for bool {
    open spec fn kind() -> Type {
        Type::Bool
    }

    open spec fn to_bytes(self) -> Seq<u8> {
        seq![if self { TRUE } else { FALSE }]
    }

    open spec fn from_bytes(bytes: Seq<u8>) -> Option<Self> {
        if bytes.len() != 1 {
            None
        } else if bytes[0] == TRUE {
            Some(true)
        } else if bytes[0] == FALSE {
            Some(false)
        } else {
            None
        }
    }

    proof fn width_bounds() {
    }

    proof fn round_trip(self) {
    }

    proof fn from_bytes_domain(bytes: Seq<u8>) {
    }

    fn dtype() -> (t: Type) {
        Type::Bool
    }

    fn size() -> (n: usize) {
        1
    }

    fn parse(bytes: &[u8]) -> (r: Result<Self, Error>) {
        if bytes.len() != 1 {
            Err(Error::invalid_length(bytes.len(), Type::Bool.name()))
        } else if bytes[0] == TRUE {
            Ok(true)
        } else if bytes[0] == FALSE {
            Ok(false)
        } else {
            Err(Error::invalid_value(bytes[0], "a boolean"))
        }
    }

    fn write(self, out: &mut Vec<u8>) {
        out.push(if self { TRUE } else { FALSE });
        proof {
            assert(out@ =~= old(out)@ + self.to_bytes());
        }
    }
}

impl Element for u8 {
    open spec fn kind() -> Type {
        Type::U8
    }

    open spec fn to_bytes(self) -> Seq<u8> {
        be_bytes(self as nat, 1)
    }

    open spec fn from_bytes(bytes: Seq<u8>) -> Option<Self> {
        if bytes.len() == 1 {
            Some(be_value(bytes) as u8)
        } else {
            None
        }
    }

    proof fn width_bounds() {
    }

    proof fn round_trip(self) {
        lemma_pow256(1);
        be_round_trip(self as nat, 1);
    }

    proof fn from_bytes_domain(bytes: Seq<u8>) {
    }

    fn dtype() -> (t: Type) {
        Type::U8
    }

    fn size() -> (n: usize) {
        1
    }

    fn parse(bytes: &[u8]) -> (r: Result<Self, Error>) {
        if bytes.len() != 1 {
            return Err(Error::invalid_length(bytes.len(), Type::U8.name()));
        }
        let n: u64 = read_be(bytes);
        proof {
            lemma_pow256(1);
        }
        Ok(n as u8)
    }

    fn write(self, out: &mut Vec<u8>) {
        write_be(out, self as u64, 1);
    }
}

impl Element for u16 {
    open spec fn kind() -> Type {
        Type::U16
    }

    open spec fn to_bytes(self) -> Seq<u8> {
        be_bytes(self as nat, 2)
    }

    open spec fn from_bytes(bytes: Seq<u8>) -> Option<Self> {
        if bytes.len() == 2 {
            Some(be_value(bytes) as u16)
        } else {
            None
        }
    }

    proof fn width_bounds() {
    }

    proof fn round_trip(self) {
        lemma_pow256(2);
        be_round_trip(self as nat, 2);
    }

    proof fn from_bytes_domain(bytes: Seq<u8>) {
    }

    fn dtype() -> (t: Type) {
        Type::U16
    }

    fn size() -> (n: usize) {
        2
    }

    fn parse(bytes: &[u8]) -> (r: Result<Self, Error>) {
        if bytes.len() != 2 {
            return Err(Error::invalid_length(bytes.len(), Type::U16.name()));
        }
        let n: u64 = read_be(bytes);
        proof {
            lemma_pow256(2);
        }
        Ok(n as u16)
    }

    fn write(self, out: &mut Vec<u8>) {
        write_be(out, self as u64, 2);
    }
}

impl Element for u32 {
    open spec fn kind() -> Type {
        Type::U32
    }

    open spec fn to_bytes(self) -> Seq<u8> {
        be_bytes(self as nat, 4)
    }

    open spec fn from_bytes(bytes: Seq<u8>) -> Option<Self> {
        if bytes.len() == 4 {
            Some(be_value(bytes) as u32)
        } else {
            None
        }
    }

    proof fn width_bounds() {
    }

    proof fn round_trip(self) {
        lemma_pow256(4);
        be_round_trip(self as nat, 4);
    }

    proof fn from_bytes_domain(bytes: Seq<u8>) {
    }

    fn dtype() -> (t: Type) {
        Type::U32
    }

    fn size() -> (n: usize) {
        4
    }

    fn parse(bytes: &[u8]) -> (r: Result<Self, Error>) {
        if bytes.len() != 4 {
            return Err(Error::invalid_length(bytes.len(), Type::U32.name()));
        }
        let n: u64 = read_be(bytes);
        proof {
            lemma_pow256(4);
        }
        Ok(n as u32)
    }

    fn write(self, out: &mut Vec<u8>) {
        write_be(out, self as u64, 4);
    }
}

impl Element for u64 {
    open spec fn kind() -> Type {
        Type::U64
    }

    open spec fn to_bytes(self) -> Seq<u8> {
        be_bytes(self as nat, 8)
    }

    open spec fn from_bytes(bytes: Seq<u8>) -> Option<Self> {
        if bytes.len() == 8 {
            Some(be_value(bytes) as u64)
        } else {
            None
        }
    }

    proof fn width_bounds() {
    }

    proof fn round_trip(self) {
        lemma_pow256(8);
        be_round_trip(self as nat, 8);
    }

    proof fn from_bytes_domain(bytes: Seq<u8>) {
    }

    fn dtype() -> (t: Type) {
        Type::U64
    }

    fn size() -> (n: usize) {
        8
    }

    fn parse(bytes: &[u8]) -> (r: Result<Self, Error>) {
        if bytes.len() != 8 {
            return Err(Error::invalid_length(bytes.len(), Type::U64.name()));
        }
        let n: u64 = read_be(bytes);
        proof {
            lemma_pow256(8);
        }
        Ok(n)
    }

    fn write(self, out: &mut Vec<u8>) {
        write_be(out, self, 8);
    }
}

impl Element for i8 {
    open spec fn kind() -> Type {
        Type::I8
    }

    open spec fn to_bytes(self) -> Seq<u8> {
        be_bytes((if self < 0 { self + 0x100 } else { self as int }) as nat, 1)
    }

    open spec fn from_bytes(bytes: Seq<u8>) -> Option<Self> {
        if bytes.len() == 1 {
            let n = be_value(bytes) as int;
            Some((if n < 0x80 { n } else { n - 0x100 }) as i8)
        } else {
            None
        }
    }

    proof fn width_bounds() {
    }

    proof fn round_trip(self) {
        lemma_pow256(1);
        be_round_trip((if self < 0 { self + 0x100 } else { self as int }) as nat, 1);
    }

    proof fn from_bytes_domain(bytes: Seq<u8>) {
    }

    fn dtype() -> (t: Type) {
        Type::I8
    }

    fn size() -> (n: usize) {
        1
    }

    fn parse(bytes: &[u8]) -> (r: Result<Self, Error>) {
        if bytes.len() != 1 {
            return Err(Error::invalid_length(bytes.len(), Type::I8.name()));
        }
        let n: u64 = read_be(bytes);
        proof {
            lemma_pow256(1);
        }
        Ok(if n < 0x80 { n as i8 } else { -1 - (0xff - n) as i8 })
    }

    fn write(self, out: &mut Vec<u8>) {
        write_be(out, if self < 0 { 0xff - (-1 - self) as u64 } else { self as u64 }, 1);
    }
}

impl Element for i16 {
    open spec fn kind() -> Type {
        Type::I16
    }

    open spec fn to_bytes(self) -> Seq<u8> {
        be_bytes((if self < 0 { self + 0x1_0000 } else { self as int }) as nat, 2)
    }

    open spec fn from_bytes(bytes: Seq<u8>) -> Option<Self> {
        if bytes.len() == 2 {
            let n = be_value(bytes) as int;
            Some((if n < 0x8000 { n } else { n - 0x1_0000 }) as i16)
        } else {
            None
        }
    }

    proof fn width_bounds() {
    }

    proof fn round_trip(self) {
        lemma_pow256(2);
        be_round_trip((if self < 0 { self + 0x1_0000 } else { self as int }) as nat, 2);
    }

    proof fn from_bytes_domain(bytes: Seq<u8>) {
    }

    fn dtype() -> (t: Type) {
        Type::I16
    }

    fn size() -> (n: usize) {
        2
    }

    fn parse(bytes: &[u8]) -> (r: Result<Self, Error>) {
        if bytes.len() != 2 {
            return Err(Error::invalid_length(bytes.len(), Type::I16.name()));
        }
        let n: u64 = read_be(bytes);
        proof {
            lemma_pow256(2);
        }
        Ok(if n < 0x8000 { n as i16 } else { -1 - (0xffff - n) as i16 })
    }

    fn write(self, out: &mut Vec<u8>) {
        write_be(out, if self < 0 { 0xffff - (-1 - self) as u64 } else { self as u64 }, 2);
    }
}

impl Element for i32 {
    open spec fn kind() -> Type {
        Type::I32
    }

    open spec fn to_bytes(self) -> Seq<u8> {
        be_bytes((if self < 0 { self + 0x1_0000_0000 } else { self as int }) as nat, 4)
    }

    open spec fn from_bytes(bytes: Seq<u8>) -> Option<Self> {
        if bytes.len() == 4 {
            let n = be_value(bytes) as int;
            Some((if n < 0x8000_0000 { n } else { n - 0x1_0000_0000 }) as i32)
        } else {
            None
        }
    }

    proof fn width_bounds() {
    }

    proof fn round_trip(self) {
        lemma_pow256(4);
        be_round_trip((if self < 0 { self + 0x1_0000_0000 } else { self as int }) as nat, 4);
    }

    proof fn from_bytes_domain(bytes: Seq<u8>) {
    }

    fn dtype() -> (t: Type) {
        Type::I32
    }

    fn size() -> (n: usize) {
        4
    }

    fn parse(bytes: &[u8]) -> (r: Result<Self, Error>) {
        if bytes.len() != 4 {
            return Err(Error::invalid_length(bytes.len(), Type::I32.name()));
        }
        let n: u64 = read_be(bytes);
        proof {
            lemma_pow256(4);
        }
        Ok(if n < 0x8000_0000 { n as i32 } else { -1 - (0xffff_ffff - n) as i32 })
    }

    fn write(self, out: &mut Vec<u8>) {
        write_be(out, if self < 0 { 0xffff_ffff - (-1 - self) as u64 } else { self as u64 }, 4);
    }
}

impl Element for i64 {
    open spec fn kind() -> Type {
        Type::I64
    }

    open spec fn to_bytes(self) -> Seq<u8> {
        be_bytes((if self < 0 { self + 0x1_0000_0000_0000_0000 } else { self as int }) as nat, 8)
    }

    open spec fn from_bytes(bytes: Seq<u8>) -> Option<Self> {
        if bytes.len() == 8 {
            let n = be_value(bytes) as int;
            Some((if n < 0x8000_0000_0000_0000 { n } else { n - 0x1_0000_0000_0000_0000 }) as i64)
        } else {
            None
        }
    }

    proof fn width_bounds() {
    }

    proof fn round_trip(self) {
        lemma_pow256(8);
        let n = if self < 0 { self + 0x1_0000_0000_0000_0000 } else { self as int };
        be_round_trip(n as nat, 8);
    }

    proof fn from_bytes_domain(bytes: Seq<u8>) {
    }

    fn dtype() -> (t: Type) {
        Type::I64
    }

    fn size() -> (n: usize) {
        8
    }

    fn parse(bytes: &[u8]) -> (r: Result<Self, Error>) {
        if bytes.len() != 8 {
            return Err(Error::invalid_length(bytes.len(), Type::I64.name()));
        }
        let n: u64 = read_be(bytes);
        proof {
            lemma_pow256(8);
        }
        if n < 0x8000_0000_0000_0000 {
            Ok(n as i64)
        } else {
            Ok(-1 - (0xffff_ffff_ffff_ffff - n) as i64)
        }
    }

    fn write(self, out: &mut Vec<u8>) {
        let n: u64 = if self < 0 {
            0xffff_ffff_ffff_ffff - (-1 - self) as u64
        } else {
            self as u64
        };
        write_be(out, n, 8);
    }
}

impl Element for F32 {
    open spec fn kind() -> Type {
        Type::F32
    }

    open spec fn to_bytes(self) -> Seq<u8> {
        be_bytes(self.0 as nat, 4)
    }

    open spec fn from_bytes(bytes: Seq<u8>) -> Option<Self> {
        if bytes.len() == 4 {
            Some(F32(be_value(bytes) as u32))
        } else {
            None
        }
    }

    proof fn width_bounds() {
    }

    proof fn round_trip(self) {
        lemma_pow256(4);
        be_round_trip(self.0 as nat, 4);
    }

    proof fn from_bytes_domain(bytes: Seq<u8>) {
    }

    fn dtype() -> (t: Type) {
        Type::F32
    }

    fn size() -> (n: usize) {
        4
    }

    fn parse(bytes: &[u8]) -> (r: Result<Self, Error>) {
        if bytes.len() != 4 {
            return Err(Error::invalid_length(bytes.len(), Type::F32.name()));
        }
        let n: u64 = read_be(bytes);
        proof {
            lemma_pow256(4);
        }
        Ok(F32(n as u32))
    }

    fn write(self, out: &mut Vec<u8>) {
        write_be(out, self.0 as u64, 4);
    }
}

impl Element for F64 {
    open spec fn kind() -> Type {
        Type::F64
    }

    open spec fn to_bytes(self) -> Seq<u8> {
        be_bytes(self.0 as nat, 8)
    }

    open spec fn from_bytes(bytes: Seq<u8>) -> Option<Self> {
        if bytes.len() == 8 {
            Some(F64(be_value(bytes) as u64))
        } else {
            None
        }
    }

    proof fn width_bounds() {
    }

    proof fn round_trip(self) {
        lemma_pow256(8);
        be_round_trip(self.0 as nat, 8);
    }

    proof fn from_bytes_domain(bytes: Seq<u8>) {
    }

    fn dtype() -> (t: Type) {
        Type::F64
    }

    fn size() -> (n: usize) {
        8
    }

    fn parse(bytes: &[u8]) -> (r: Result<Self, Error>) {
        if bytes.len() != 8 {
            return Err(Error::invalid_length(bytes.len(), Type::F64.name()));
        }
        let n: u64 = read_be(bytes);
        proof {
            lemma_pow256(8);
        }
        Ok(F64(n))
    }

    fn write(self, out: &mut Vec<u8>) {
        write_be(out, self.0, 8);
    }
}

/// The values of type `N` that `data` is made of, one behind the other, or the text of the error
/// about the first bytes that are none.
pub open spec fn elements<N: Element>(data: Seq<u8>) -> Result<Seq<N>, Seq<char>>
    decreases data.len(),
{
    let width = N::kind().width();
    if data.len() == 0 || width == 0 {
        Ok(Seq::empty())
    } else if data.len() < width {
        Err(parse_error_text(N::kind(), data))
    } else {
        match N::from_bytes(data.take(width as int)) {
            None => Err(parse_error_text(N::kind(), data.take(width as int))),
            Some(v) => match elements::<N>(data.skip(width as int)) {
                Ok(vs) => Ok(seq![v] + vs),
                Err(text) => Err(text),
            },
        }
    }
}

/// The bytes of `vs`, one behind the other.
pub open spec fn elements_bytes<N: Element>(vs: Seq<N>) -> Seq<u8>
    decreases vs.len(),
{
    if vs.len() == 0 {
        Seq::empty()
    } else {
        vs[0].to_bytes() + elements_bytes::<N>(vs.skip(1))
    }
}

/// Values are those that their bytes are made of.
pub proof fn elements_round_trip<N: Element>(vs: Seq<N>)
    ensures
        elements::<N>(elements_bytes(vs)) == Ok::<Seq<N>, Seq<char>>(vs),
    decreases vs.len(),
{
    if vs.len() > 0 {
        N::width_bounds();
        vs[0].round_trip();
        elements_round_trip(vs.skip(1));
        let width = N::kind().width() as int;
        let data = elements_bytes(vs);
        assert(data.take(width) =~= vs[0].to_bytes());
        assert(data.skip(width) =~= elements_bytes(vs.skip(1)));
        assert(seq![vs[0]] + vs.skip(1) =~= vs);
    } else {
        assert(vs =~= Seq::<N>::empty());
    }
}

/// Data can be read in pieces, each of which is made up of whole values.
pub proof fn elements_concat<N: Element>(a: Seq<u8>, b: Seq<u8>)
    requires
        a.len() % N::kind().width() == 0,
    ensures
        elements::<N>(a + b) == match elements::<N>(a) {
            Err(text) => Err(text),
            Ok(vs) => match elements::<N>(b) {
                Err(text) => Err(text),
                Ok(ws) => Ok(vs + ws),
            },
        },
    decreases a.len(),
{
    N::width_bounds();
    let width = N::kind().width() as int;
    if a.len() == 0 {
        assert(a + b =~= b);
        if let Ok(ws) = elements::<N>(b) {
            assert(Seq::<N>::empty() + ws =~= ws);
        }
    } else {
        assert(a.len() >= width && (a.len() - width) % width == 0) by (nonlinear_arith)
            requires
                a.len() > 0,
                width > 0,
                a.len() as int % width == 0,
        ;
        elements_concat::<N>(a.skip(width), b);
        assert((a + b).take(width) =~= a.take(width));
        assert((a + b).skip(width) =~= a.skip(width) + b);
        if let Some(v) = N::from_bytes(a.take(width)) {
            if let Ok(vs) = elements::<N>(a.skip(width)) {
                if let Ok(ws) = elements::<N>(b) {
                    assert(seq![v] + (vs + ws) =~= (seq![v] + vs) + ws);
                }
            }
        }
    }
}

/// Data is as long as its values are.
pub proof fn elements_len<N: Element>(data: Seq<u8>)
    ensures
        elements::<N>(data) matches Ok(vs) ==> vs.len() * N::kind().width() == data.len(),
    decreases data.len(),
{
    N::width_bounds();
    let width = N::kind().width();
    if data.len() >= width {
        elements_len::<N>(data.skip(width as int));
        if let Ok(vs) = elements::<N>(data.skip(width as int)) {
            assert((1 + vs.len()) * width == width + vs.len() * width) by (nonlinear_arith);
        }
    }
}

/// Returns the values of type `N` that `data` is made of.
pub fn parse_elements<N: Element>(data: &[u8]) -> (r: Result<Vec<N>, Error>)
    ensures
        match r {
            Ok(vs) => elements::<N>(data@) == Ok::<Seq<N>, Seq<char>>(vs@),
            Err(e) => elements::<N>(data@) == Err::<Seq<N>, Seq<char>>(e@),
        },
{
    proof {
        N::width_bounds();
    }
    let size: usize = N::size();
    let len: usize = data.len();
    let mut vs: Vec<N> = Vec::new();
    let mut i: usize = 0;
    proof {
        assert(data@.skip(0) =~= data@);
    }
    while i < len
        invariant
            0 < size == N::kind().width(),
            len == data@.len(),
            i <= len,
            elements::<N>(data@) == match elements::<N>(data@.skip(i as int)) {
                Ok(ws) => Ok(vs@ + ws),
                Err(text) => Err(text),
            },
        decreases len - i,
    {
        let ghost before = vs@;
        let ghost rest = data@.skip(i as int);
        let end: usize = if len - i < size { len } else { i + size };
        let bytes = slice_subrange(data, i, end);
        proof {
            N::from_bytes_domain(bytes@);
            if len - i < size {
                assert(bytes@ =~= rest);
            } else {
                assert(bytes@ =~= rest.take(size as int));
                assert(rest.skip(size as int) =~= data@.skip(end as int));
            }
        }
        match N::parse(bytes) {
            Err(e) => {
                return Err(e);
            },
            Ok(v) => {
                vs.push(v);
                proof {
                    if let Ok(ws) = elements::<N>(data@.skip(end as int)) {
                        assert(before + (seq![v] + ws) =~= vs@ + ws);
                    }
                }
            },
        }
        i = end;
    }
    proof {
        assert(data@.skip(len as int) =~= Seq::<u8>::empty());
        assert(vs@ + Seq::<N>::empty() =~= vs@);
    }
    Ok(vs)
}

/// Appends the bytes of `vs` to `out`, one behind the other.
pub fn write_elements<N: Element>(out: &mut Vec<u8>, vs: &[N])
    ensures
        final(out)@ == old(out)@ + elements_bytes(vs@),
{
    let len: usize = vs.len();
    let mut i: usize = 0;
    proof {
        assert(vs@.skip(0) =~= vs@);
    }
    while i < len
        invariant
            len == vs@.len(),
            i <= len,
            old(out)@ + elements_bytes(vs@) == out@ + elements_bytes(vs@.skip(i as int)),
        decreases len - i,
    {
        let ghost before = out@;
        vs[i].write(out);
        proof {
            let rest = vs@.skip(i as int);
            assert(rest.skip(1) =~= vs@.skip(i + 1));
            assert(before + (vs@[i as int].to_bytes() + elements_bytes(rest.skip(1))) =~= out@
                + elements_bytes(rest.skip(1)));
        }
        i = i + 1;
    }
    proof {
        assert(vs@.skip(len as int) =~= Seq::<N>::empty());
        assert(out@ + Seq::<u8>::empty() =~= out@);
    }
}

} // verus!
