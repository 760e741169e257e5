//! Decimal text: the mathematical text of an unsigned or signed integer, and
//! executable rendering proved to produce exactly it.

use vstd::prelude::*;
use vstd::string::StringExecFns;

verus! {

/// The character for one decimal digit.
pub open spec fn digit_char(d: nat) -> char {
    if d == 0 {
        '0'
    } else if d == 1 {
        '1'
    } else if d == 2 {
        '2'
    } else if d == 3 {
        '3'
    } else if d == 4 {
        '4'
    } else if d == 5 {
        '5'
    } else if d == 6 {
        '6'
    } else if d == 7 {
        '7'
    } else if d == 8 {
        '8'
    } else {
        '9'
    }
}

/// The decimal text of a non-negative integer, most significant digit first,
/// no leading zeros (zero itself is "0").
pub open spec fn dec_text(n: nat) -> Seq<char>
    decreases n,
{
    if n < 10 {
        seq![digit_char(n)]
    } else {
        dec_text(n / 10).push(digit_char(n % 10))
    }
}

/// The decimal text of a signed integer: a minus sign before the magnitude
/// when negative.
pub open spec fn int_text(n: int) -> Seq<char> {
    if n >= 0 {
        dec_text(n as nat)
    } else {
        seq!['-'] + dec_text((-n) as nat)
    }
}

/// The text of a run of decimal digits held least significant first.
pub open spec fn digits_text(ds: Seq<u8>) -> Seq<char>
    decreases ds.len(),
{
    if ds.len() == 0 {
        Seq::empty()
    } else {
        seq![digit_char(ds.last() as nat)] + digits_text(ds.drop_last())
    }
}

proof fn lemma_digits_text(ds: Seq<u8>)
    ensures
        digits_text(ds).len() == ds.len(),
        forall|k: int|
            0 <= k < ds.len() ==> #[trigger] digits_text(ds)[k] == digit_char(
                ds[ds.len() - 1 - k] as nat,
            ),
    decreases ds.len(),
{
    if ds.len() > 0 {
        lemma_digits_text(ds.drop_last());
        assert forall|k: int|
            0 <= k < ds.len() implies #[trigger] digits_text(ds)[k] == digit_char(
            ds[ds.len() - 1 - k] as nat,
        ) by {
            if k > 0 {
                assert(digits_text(ds)[k] == digits_text(ds.drop_last())[k - 1]);
                assert(ds.drop_last()[ds.drop_last().len() - 1 - (k - 1)] == ds[ds.len() - 1 - k]);
            }
        }
    }
}

fn digit_str(d: u8) -> (r: &'static str)
    requires
        d < 10,
    ensures
        r@ == seq![digit_char(d as nat)],
{
    proof {
        reveal_strlit("0");
        reveal_strlit("1");
        reveal_strlit("2");
        reveal_strlit("3");
        reveal_strlit("4");
        reveal_strlit("5");
        reveal_strlit("6");
        reveal_strlit("7");
        reveal_strlit("8");
        reveal_strlit("9");
    }
    match d {
        0 => "0",
        1 => "1",
        2 => "2",
        3 => "3",
        4 => "4",
        5 => "5",
        6 => "6",
        7 => "7",
        8 => "8",
        _ => "9",
    }
}

/// Appends the decimal text of `n` to `out`.
#[verifier::loop_isolation(false)]
pub fn push_dec_u64(n: u64, out: &mut String)
    ensures
        final(out)@ == old(out)@ + dec_text(n as nat),
{
    let mut ds: Vec<u8> = Vec::new();
    let mut m: u64 = n;
    ds.push((m % 10) as u8);
    proof {
        assert(ds@.drop_last() =~= Seq::<u8>::empty());
        assert(digits_text(Seq::<u8>::empty()) == Seq::<char>::empty());
        assert(digits_text(ds@) =~= seq![digit_char((n % 10) as nat)]);
        if n >= 10 {
            assert(dec_text(n as nat) =~= dec_text((n / 10) as nat) + digits_text(ds@));
        } else {
            assert(dec_text(n as nat) =~= digits_text(ds@));
        }
    }
    m = m / 10;
    while m > 0
        invariant
            ds@.len() >= 1,
            forall|i: int| 0 <= i < ds@.len() ==> #[trigger] ds@[i] < 10,
            m == 0 ==> dec_text(n as nat) =~= digits_text(ds@),
            m > 0 ==> dec_text(n as nat) =~= dec_text(m as nat) + digits_text(ds@),
        decreases m,
    {
        let ghost old_ds = ds@;
        ds.push((m % 10) as u8);
        proof {
            assert(ds@.drop_last() =~= old_ds);
            assert(digits_text(ds@) =~= seq![digit_char((m % 10) as nat)] + digits_text(old_ds));
            if m >= 10 {
                assert(dec_text(m as nat) =~= dec_text((m / 10) as nat) + seq![
                    digit_char((m % 10) as nat),
                ]);
                assert(dec_text(n as nat) =~= dec_text((m / 10) as nat) + digits_text(ds@));
            } else {
                assert(dec_text(m as nat) =~= seq![digit_char(m as nat)]);
                assert(dec_text(n as nat) =~= digits_text(ds@));
            }
        }
        m = m / 10;
    }
    proof {
        lemma_digits_text(ds@);
    }
    let mut j: usize = ds.len();
    while j > 0
        invariant
            j <= ds@.len(),
            out@ == old(out)@ + digits_text(ds@).take((ds@.len() - j) as int),
        decreases j,
    {
        let d = ds[j - 1];
        out.append(digit_str(d));
        proof {
            assert(digits_text(ds@)[(ds@.len() - j) as int] == digit_char(ds@[j - 1] as nat));
            assert(digits_text(ds@).take((ds@.len() - j + 1) as int) =~= digits_text(ds@).take(
                (ds@.len() - j) as int,
            ) + seq![digit_char(ds@[j - 1] as nat)]);
        }
        j = j - 1;
    }
    proof {
        assert(digits_text(ds@).take(ds@.len() as int) =~= digits_text(ds@));
        assert(out@ =~= old(out)@ + dec_text(n as nat));
    }
}

/// Appends the decimal text of `n` to `out`.
pub fn push_dec_usize(n: usize, out: &mut String)
    ensures
        final(out)@ == old(out)@ + dec_text(n as nat),
{
    push_dec_u64(n as u64, out);
}

/// Appends the decimal text of `n` to `out`, minus sign included when `n` is
/// negative.
pub fn push_dec_i64(n: i64, out: &mut String)
    ensures
        final(out)@ == old(out)@ + int_text(n as int),
{
    if n < 0 {
        proof {
            reveal_strlit("-");
        }
        out.append("-");
        let mag: u64 = ((-(n as i128)) as u64);
        push_dec_u64(mag, out);
        proof {
            assert(out@ =~= old(out)@ + int_text(n as int));
        }
    } else {
        push_dec_u64(n as u64, out);
    }
}

} // verus!
