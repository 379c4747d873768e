//! Writing a TBON stream.

use vstd::prelude::*;
use vstd::string::*;

use crate::constants::{
    Type, ARRAY_DELIMIT, LIST_BEGIN, LIST_END, MAP_BEGIN, MAP_END, STRING_DELIMIT,
};
use crate::element::{write_elements, Element};
use crate::escape::push_escaped;
use crate::model::{
    array_encoding, encoding, leaf_encoding, list_encoding, map_encoding, scalar_encoding,
    text_encoding,
};
use crate::value::{entries, models, Value};

verus! {

/// Appends the bytes of a value of type `N`.
fn push_element<N: Element>(out: &mut Vec<u8>, v: N)
    ensures
        final(out)@ == old(out)@ + scalar_encoding(v),
{
    out.push(N::dtype().to_u8());
    v.write(out);
    proof {
        assert(out@ =~= old(out)@ + scalar_encoding(v));
    }
}

/// Appends the bytes of an array.
fn push_array<N: Element>(out: &mut Vec<u8>, vs: &[N])
    ensures
        final(out)@ == old(out)@ + array_encoding(vs@),
{
    let mut data: Vec<u8> = Vec::new();
    write_elements(&mut data, vs);
    out.push(ARRAY_DELIMIT);
    out.push(N::dtype().to_u8());
    push_escaped(out, data.as_slice(), ARRAY_DELIMIT);
    out.push(ARRAY_DELIMIT);
    proof {
        assert(data@ =~= crate::element::elements_bytes(vs@));
        assert(out@ =~= old(out)@ + array_encoding(vs@));
    }
}

/// Appends the bytes of a string.
fn push_text(out: &mut Vec<u8>, text: &str)
    ensures
        final(out)@ == old(out)@ + text_encoding(text@),
{
    out.push(STRING_DELIMIT);
    push_escaped(out, text.as_bytes(), STRING_DELIMIT);
    out.push(STRING_DELIMIT);
    proof {
        assert(out@ =~= old(out)@ + text_encoding(text@));
    }
}

/// Appends the bytes of a value.
fn push_value(out: &mut Vec<u8>, value: &Value)
    ensures
        final(out)@ == old(out)@ + encoding(value@),
    decreases value,
{
    proof {
        reveal(leaf_encoding);
    }
    match value {
        Value::Unit => {
            out.push(Type::Unit.to_u8());
            proof {
                assert(out@ =~= old(out)@ + encoding(value@));
            }
        },
        Value::Bool(v) => push_element(out, *v),
        Value::I8(v) => push_element(out, *v),
        Value::I16(v) => push_element(out, *v),
        Value::I32(v) => push_element(out, *v),
        Value::I64(v) => push_element(out, *v),
        Value::U8(v) => push_element(out, *v),
        Value::U16(v) => push_element(out, *v),
        Value::U32(v) => push_element(out, *v),
        Value::U64(v) => push_element(out, *v),
        Value::F32(v) => push_element(out, *v),
        Value::F64(v) => push_element(out, *v),
        Value::Text(text) => push_text(out, text.as_str()),
        Value::ArrayBool(vs) => push_array(out, vs.as_slice()),
        Value::ArrayI8(vs) => push_array(out, vs.as_slice()),
        Value::ArrayI16(vs) => push_array(out, vs.as_slice()),
        Value::ArrayI32(vs) => push_array(out, vs.as_slice()),
        Value::ArrayI64(vs) => push_array(out, vs.as_slice()),
        Value::ArrayU8(vs) => push_array(out, vs.as_slice()),
        Value::ArrayU16(vs) => push_array(out, vs.as_slice()),
        Value::ArrayU32(vs) => push_array(out, vs.as_slice()),
        Value::ArrayU64(vs) => push_array(out, vs.as_slice()),
        Value::ArrayF32(vs) => push_array(out, vs.as_slice()),
        Value::ArrayF64(vs) => push_array(out, vs.as_slice()),
        Value::List(vs) => {
            out.push(LIST_BEGIN);
            let len: usize = vs.len();
            let mut i: usize = 0;
            proof {
                assert(vs@.skip(0) =~= vs@);
                assert(old(out)@ + encoding(value@) =~= out@ + list_encoding(models(vs@)));
            }
            while i < len
                invariant
                    value == Value::List(*vs),
                    len == vs@.len(),
                    i <= len,
                    old(out)@ + encoding(value@) == out@ + list_encoding(
                        models(vs@.skip(i as int)),
                    ),
                decreases len - i,
            {
                let ghost before = out@;
                let ghost rest = vs@.skip(i as int);
                push_value(out, &vs[i]);
                proof {
                    assert(rest.skip(1) =~= vs@.skip(i + 1));
                    assert(models(rest).skip(1) =~= models(rest.skip(1)));
                    assert(before + list_encoding(models(rest)) =~= out@ + list_encoding(
                        models(rest.skip(1)),
                    ));
                }
                i = i + 1;
            }
            out.push(LIST_END);
            proof {
                assert(vs@.skip(len as int) =~= Seq::<Value>::empty());
                assert(out@ =~= old(out)@ + encoding(value@));
            }
        },
        Value::Dict(es) => {
            out.push(MAP_BEGIN);
            let len: usize = es.len();
            let mut i: usize = 0;
            proof {
                assert(es@.skip(0) =~= es@);
                assert(old(out)@ + encoding(value@) =~= out@ + map_encoding(entries(es@)));
            }
            while i < len
                invariant
                    value == Value::Dict(*es),
                    len == es@.len(),
                    i <= len,
                    old(out)@ + encoding(value@) == out@ + map_encoding(
                        entries(es@.skip(i as int)),
                    ),
                decreases len - i,
            {
                let ghost before = out@;
                let ghost rest = es@.skip(i as int);
                push_value(out, &es[i].0);
                push_value(out, &es[i].1);
                proof {
                    assert(rest.skip(1) =~= es@.skip(i + 1));
                    assert(entries(rest).skip(1) =~= entries(rest.skip(1)));
                    assert(before + map_encoding(entries(rest)) =~= out@ + map_encoding(
                        entries(rest.skip(1)),
                    ));
                }
                i = i + 1;
            }
            out.push(MAP_END);
            proof {
                assert(es@.skip(len as int) =~= Seq::<(Value, Value)>::empty());
                assert(out@ =~= old(out)@ + encoding(value@));
            }
        },
    }
}

/// Returns the bytes of a value.
pub fn encode(value: &Value) -> (bytes: Vec<u8>)
    ensures
        bytes@ == encoding(value@),
{
    let mut out: Vec<u8> = Vec::new();
    push_value(&mut out, value);
    proof {
        assert(Seq::<u8>::empty() + encoding(value@) =~= encoding(value@));
    }
    out
}

} // verus!
