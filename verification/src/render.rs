//! Display rendering for decoded metadata values. The array rule here is
//! load-bearing for any consumer comparing display strings: arrays of length
//! at most five render every element comma-joined in brackets; longer arrays
//! render the first element, the second, a literal "...", the last element,
//! and the total count.
//!
//! Float values reach this module as already-rendered text (carried in
//! `F32Text` / `F64Text`), since producing a float's decimal text is the one
//! step of rendering that cannot stand in the verified library.

use vstd::prelude::*;
use vstd::string::StringExecFns;

use crate::text::{dec_text, int_text, push_dec_i64, push_dec_u64, push_dec_usize};
use crate::tree::MetadataInfo;

verus! {

/// A metadata value ready for display: the same closed union the decoder
/// produces, with each float leaf replaced by its decimal text.
#[derive(Debug, PartialEq)]
pub enum DisplayValue {
    U8(u8),
    I8(i8),
    U16(u16),
    I16(i16),
    U32(u32),
    I32(i32),
    F32Text(String),
    Bool(bool),
    Str(String),
    Array(Vec<DisplayValue>),
    U64(u64),
    I64(i64),
    F64Text(String),
}

/// The display text of a value: scalars as their decimal text, booleans as
/// "true"/"false", strings quoted, arrays per the bracket rule.
pub open spec fn display_text(v: DisplayValue) -> Seq<char>
    decreases v,
{
    match v {
        DisplayValue::U8(x) => dec_text(x as nat),
        DisplayValue::I8(x) => int_text(x as int),
        DisplayValue::U16(x) => dec_text(x as nat),
        DisplayValue::I16(x) => int_text(x as int),
        DisplayValue::U32(x) => dec_text(x as nat),
        DisplayValue::I32(x) => int_text(x as int),
        DisplayValue::F32Text(s) => s@,
        DisplayValue::Bool(b) => if b {
            "true"@
        } else {
            "false"@
        },
        DisplayValue::Str(s) => "\""@ + s@ + "\""@,
        DisplayValue::Array(vs) => if vs@.len() <= 5 {
            "["@ + display_join(vs@) + "]"@
        } else {
            "["@ + display_text(vs@[0]) + ", "@ + display_text(vs@[1]) + ", ..., "@ + display_text(
                vs@.last(),
            ) + " ("@ + dec_text(vs@.len()) + ")]"@
        },
        DisplayValue::U64(x) => dec_text(x as nat),
        DisplayValue::I64(x) => int_text(x as int),
        DisplayValue::F64Text(s) => s@,
    }
}

/// The comma-joined display texts of a run of values.
pub open spec fn display_join(vs: Seq<DisplayValue>) -> Seq<char>
    decreases vs,
{
    if vs.len() == 0 {
        Seq::empty()
    } else if vs.len() == 1 {
        display_text(vs[0])
    } else {
        display_join(vs.drop_last()) + ", "@ + display_text(vs.last())
    }
}

/// The short label of a value's kind, shown beside metadata entries.
pub open spec fn spec_type_label(v: DisplayValue) -> Seq<char> {
    match v {
        DisplayValue::U8(_) => "u8"@,
        DisplayValue::I8(_) => "i8"@,
        DisplayValue::U16(_) => "u16"@,
        DisplayValue::I16(_) => "i16"@,
        DisplayValue::U32(_) => "u32"@,
        DisplayValue::I32(_) => "i32"@,
        DisplayValue::F32Text(_) => "f32"@,
        DisplayValue::Bool(_) => "bool"@,
        DisplayValue::Str(_) => "string"@,
        DisplayValue::Array(_) => "array"@,
        DisplayValue::U64(_) => "u64"@,
        DisplayValue::I64(_) => "i64"@,
        DisplayValue::F64Text(_) => "f64"@,
    }
}

impl DisplayValue {
    pub fn type_label(&self) -> (r: &'static str)
        ensures
            r@ == spec_type_label(*self),
    {
        match self {
            DisplayValue::U8(_) => "u8",
            DisplayValue::I8(_) => "i8",
            DisplayValue::U16(_) => "u16",
            DisplayValue::I16(_) => "i16",
            DisplayValue::U32(_) => "u32",
            DisplayValue::I32(_) => "i32",
            DisplayValue::F32Text(_) => "f32",
            DisplayValue::Bool(_) => "bool",
            DisplayValue::Str(_) => "string",
            DisplayValue::Array(_) => "array",
            DisplayValue::U64(_) => "u64",
            DisplayValue::I64(_) => "i64",
            DisplayValue::F64Text(_) => "f64",
        }
    }
}

/// Appends the display text of `v` to `out`.
#[verifier::loop_isolation(false)]
pub fn push_display_value(v: &DisplayValue, out: &mut String)
    ensures
        final(out)@ == old(out)@ + display_text(*v),
    decreases v,
{
    match v {
        DisplayValue::U8(x) => {
            push_dec_u64(*x as u64, out);
        },
        DisplayValue::I8(x) => {
            push_dec_i64(*x as i64, out);
        },
        DisplayValue::U16(x) => {
            push_dec_u64(*x as u64, out);
        },
        DisplayValue::I16(x) => {
            push_dec_i64(*x as i64, out);
        },
        DisplayValue::U32(x) => {
            push_dec_u64(*x as u64, out);
        },
        DisplayValue::I32(x) => {
            push_dec_i64(*x as i64, out);
        },
        DisplayValue::F32Text(s) => {
            out.append(s.as_str());
        },
        DisplayValue::Bool(b) => {
            if *b {
                out.append("true");
            } else {
                out.append("false");
            }
        },
        DisplayValue::Str(s) => {
            out.append("\"");
            out.append(s.as_str());
            out.append("\"");
            proof {
                assert(out@ =~= old(out)@ + ("\""@ + s@ + "\""@));
            }
        },
        DisplayValue::Array(vs) => {
            out.append("[");
            if vs.len() <= 5 {
                let ghost base = out@;
                let mut i: usize = 0;
                while i < vs.len()
                    invariant
                        i <= vs@.len(),
                        vs@.len() <= 5,
                        out@ == base + display_join(vs@.subrange(0, i as int)),
                    decreases vs@.len() - i,
                {
                    if i > 0 {
                        out.append(", ");
                    }
                    proof {
                        assert(decreases_to!(v => vs@[i as int]));
                    }
                    push_display_value(&vs[i], out);
                    proof {
                        let sub1 = vs@.subrange(0, i + 1);
                        assert(sub1.drop_last() =~= vs@.subrange(0, i as int));
                        assert(sub1.last() == vs@[i as int]);
                        if i == 0 {
                            assert(display_join(sub1) == display_text(vs@[0]));
                            assert(display_join(vs@.subrange(0, 0)) =~= Seq::<char>::empty());
                            assert(out@ =~= base + display_join(sub1));
                        } else {
                            assert(display_join(sub1) == display_join(vs@.subrange(0, i as int))
                                + ", "@ + display_text(vs@[i as int]));
                            assert(out@ =~= base + display_join(sub1));
                        }
                    }
                    i = i + 1;
                }
                out.append("]");
                proof {
                    assert(vs@.subrange(0, vs@.len() as int) =~= vs@);
                    assert(out@ =~= old(out)@ + ("["@ + display_join(vs@) + "]"@));
                }
            } else {
                proof {
                    assert(decreases_to!(v => vs@[0]));
                }
                push_display_value(&vs[0], out);
                out.append(", ");
                proof {
                    assert(decreases_to!(v => vs@[1]));
                }
                push_display_value(&vs[1], out);
                out.append(", ..., ");
                proof {
                    assert(decreases_to!(v => vs@[vs@.len() - 1]));
                }
                let last = vs.len() - 1;
                push_display_value(&vs[last], out);
                out.append(" (");
                push_dec_usize(vs.len(), out);
                out.append(")]");
                proof {
                    assert(out@ =~= old(out)@ + ("["@ + display_text(vs@[0]) + ", "@
                        + display_text(vs@[1]) + ", ..., "@ + display_text(vs@.last()) + " ("@
                        + dec_text(vs@.len()) + ")]"@));
                }
            }
        },
        DisplayValue::U64(x) => {
            push_dec_u64(*x, out);
        },
        DisplayValue::I64(x) => {
            push_dec_i64(*x, out);
        },
        DisplayValue::F64Text(s) => {
            out.append(s.as_str());
        },
    }
}

/// One metadata record ready for the tree: the key, the value's display
/// text, and the value's kind label.
pub fn metadata_record(key: &String, value: &DisplayValue) -> (r: MetadataInfo)
    ensures
        r@.name == key@,
        r@.value == display_text(*value),
        r@.value_type == spec_type_label(*value),
{
    MetadataInfo {
        name: key.clone(),
        value: render_display_value(value),
        value_type: String::from_str(value.type_label()),
    }
}

/// The display text of a value as a fresh string.
pub fn render_display_value(v: &DisplayValue) -> (r: String)
    ensures
        r@ == display_text(*v),
{
    let mut out = String::new();
    push_display_value(v, &mut out);
    proof {
        assert(Seq::<char>::empty() + display_text(*v) =~= display_text(*v));
    }
    out
}

} // verus!
