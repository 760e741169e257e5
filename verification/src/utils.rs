//! Human-readable formatting: a tensor shape as a parenthesized list, byte
//! counts against 1024-based units, parameter counts against 1000-based
//! suffixes, each rendered to one decimal place with ties rounded to even.

use vstd::prelude::*;
use vstd::string::StringExecFns;

use crate::text::{dec_text, digit_char, push_dec_u64, push_dec_usize};

verus! {

/// The comma-joined decimal texts of a shape's extents.
pub open spec fn shape_join(s: Seq<usize>) -> Seq<char>
    decreases s.len(),
{
    if s.len() == 0 {
        Seq::empty()
    } else if s.len() == 1 {
        dec_text(s[0] as nat)
    } else {
        shape_join(s.drop_last()) + ", "@ + dec_text(s.last() as nat)
    }
}

/// A shape as text: the extents comma-joined in parentheses.
pub open spec fn shape_text(s: Seq<usize>) -> Seq<char> {
    "("@ + shape_join(s) + ")"@
}

/// Renders a shape: `(2, 3, 4)`.
#[verifier::loop_isolation(false)]
pub fn format_shape(shape: &Vec<usize>) -> (r: String)
    ensures
        r@ == shape_text(shape@),
{
    let mut out = String::new();
    out.append("(");
    let ghost base = out@;
    let mut i: usize = 0;
    proof {
        assert(shape_join(shape@.subrange(0, 0)) =~= Seq::<char>::empty());
        assert(out@ =~= base + shape_join(shape@.subrange(0, 0)));
    }
    while i < shape.len()
        invariant
            i <= shape@.len(),
            out@ == base + shape_join(shape@.subrange(0, i as int)),
        decreases shape@.len() - i,
    {
        if i > 0 {
            out.append(", ");
        }
        push_dec_usize(shape[i], &mut out);
        proof {
            let sub1 = shape@.subrange(0, i + 1);
            assert(sub1.drop_last() =~= shape@.subrange(0, i as int));
            assert(sub1.last() == shape@[i as int]);
            if i == 0 {
                assert(shape_join(sub1) == dec_text(shape@[0] as nat));
                assert(out@ =~= base + shape_join(sub1));
            } else {
                assert(out@ =~= base + shape_join(sub1));
            }
        }
        i = i + 1;
    }
    out.append(")");
    proof {
        assert(shape@.subrange(0, shape@.len() as int) =~= shape@);
        assert(out@ =~= shape_text(shape@));
    }
    out
}

/// Tenths rounded to the nearest, ties to even: how `n / d` prints to one
/// decimal place when `n` counts tenths.
pub open spec fn round_half_even(n: nat, d: nat) -> nat {
    let q = n / d;
    let r = n % d;
    if 2 * r < d {
        q
    } else if 2 * r > d {
        q + 1
    } else if q % 2 == 0 {
        q
    } else {
        q + 1
    }
}

/// One whole-plus-tenths figure: `15.3`.
pub open spec fn tenths_text(t: nat) -> Seq<char> {
    dec_text(t / 10) + "."@ + seq![digit_char(t % 10)]
}

/// A byte count as text: plain bytes below 1024, otherwise one decimal
/// place against the largest unit up to gigabytes that keeps the figure at
/// or above one.
pub open spec fn size_text(bytes: nat) -> Seq<char> {
    if bytes < 1024 {
        dec_text(bytes) + " B"@
    } else if bytes < 1048576 {
        tenths_text(round_half_even(bytes * 10, 1024)) + " KB"@
    } else if bytes < 1073741824 {
        tenths_text(round_half_even(bytes * 10, 1048576)) + " MB"@
    } else {
        tenths_text(round_half_even(bytes * 10, 1073741824)) + " GB"@
    }
}

/// The tenths figure of `n10 / d`, rounded half to even.
fn rhe_u128(n10: u128, d: u128) -> (t: u128)
    requires
        d >= 1,
        n10 < u128::MAX,
    ensures
        t as nat == round_half_even(n10 as nat, d as nat),
        t <= n10 / d + 1,
{
    let q = n10 / d;
    let r = n10 % d;
    if r > d - r {
        q + 1
    } else if r < d - r {
        q
    } else {
        if q % 2 == 0 {
            q
        } else {
            q + 1
        }
    }
}

fn push_tenths(t: u64, out: &mut String)
    ensures
        final(out)@ == old(out)@ + tenths_text(t as nat),
{
    push_dec_u64(t / 10, out);
    out.append(".");
    let d = (t % 10) as u8;
    proof {
        reveal_strlit("0");
        reveal_strlit("1");
        reveal_strlit("2");
        reveal_strlit("3");
        reveal_strlit("4");
        reveal_strlit("5");
        reveal_strlit("6");
        reveal_strlit("7");
        reveal_strlit("8");
        reveal_strlit("9");
    }
    let ds = match d {
        0 => "0",
        1 => "1",
        2 => "2",
        3 => "3",
        4 => "4",
        5 => "5",
        6 => "6",
        7 => "7",
        8 => "8",
        _ => "9",
    };
    out.append(ds);
    proof {
        assert(out@ =~= old(out)@ + tenths_text(t as nat));
    }
}

/// Renders a byte count: `512 B`, `1.5 KB`, `2.0 MB`, `3.4 GB`.
pub fn format_size(bytes: usize) -> (r: String)
    ensures
        r@ == size_text(bytes as nat),
{
    let mut out = String::new();
    if bytes < 1024 {
        push_dec_usize(bytes, &mut out);
        out.append(" B");
        proof {
            assert(out@ =~= size_text(bytes as nat));
        }
        return out;
    }
    let denom: u128 = if bytes < 1048576 {
        1024
    } else if bytes < 1073741824 {
        1048576
    } else {
        1073741824
    };
    let n10: u128 = (bytes as u128) * 10;
    let t = rhe_u128(n10, denom);
    proof {
        assert(n10 / denom <= n10 / 1024) by (nonlinear_arith)
            requires
                denom >= 1024,
                n10 >= 0,
        ;
        assert(n10 < 0x2_0000_0000_0000_0000_0u128);
    }
    push_tenths(t as u64, &mut out);
    if bytes < 1048576 {
        out.append(" KB");
    } else if bytes < 1073741824 {
        out.append(" MB");
    } else {
        out.append(" GB");
    }
    proof {
        assert(out@ =~= size_text(bytes as nat));
    }
    out
}

/// A parameter count as text: plain below one thousand, otherwise one
/// decimal place against the K, M or B suffix.
pub open spec fn params_text(p: nat) -> Seq<char> {
    if p < 1000 {
        dec_text(p)
    } else if p < 1000000 {
        tenths_text(round_half_even(p * 10, 1000)) + "K"@
    } else if p < 1000000000 {
        tenths_text(round_half_even(p * 10, 1000000)) + "M"@
    } else {
        tenths_text(round_half_even(p * 10, 1000000000)) + "B"@
    }
}

/// Renders a parameter count: `999`, `1.5K`, `70.0M`, `1.8B`.
pub fn format_parameters(params: usize) -> (r: String)
    ensures
        r@ == params_text(params as nat),
{
    let mut out = String::new();
    if params < 1000 {
        push_dec_usize(params, &mut out);
        proof {
            assert(out@ =~= params_text(params as nat));
        }
        return out;
    }
    let denom: u128 = if params < 1000000 {
        1000
    } else if params < 1000000000 {
        1000000
    } else {
        1000000000
    };
    let n10: u128 = (params as u128) * 10;
    let t = rhe_u128(n10, denom);
    proof {
        assert(n10 / denom <= n10 / 1000) by (nonlinear_arith)
            requires
                denom >= 1000,
                n10 >= 0,
        ;
        assert(n10 < 0x2_0000_0000_0000_0000_0u128);
    }
    push_tenths(t as u64, &mut out);
    if params < 1000000 {
        out.append("K");
    } else if params < 1000000000 {
        out.append("M");
    } else {
        out.append("B");
    }
    proof {
        assert(out@ =~= params_text(params as nat));
    }
    out
}

} // verus!
