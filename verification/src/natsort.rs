//! Natural sort: a name is tokenized into alternating runs of non-digit and
//! digit characters; digit runs compare as numeric magnitude, non-digit runs
//! lexicographically, and a digit run never compares equal to a non-digit
//! run. Ties fall through to later tokens; a name with no more tokens sorts
//! before one with more. So "layer2" sorts before "layer10".

use vstd::prelude::*;
use vstd::string::{StrSliceExecFns, StringExecFns};

verus! {

pub open spec fn is_digit(c: char) -> bool {
    '0' <= c && c <= '9'
}

pub open spec fn digit_val(c: char) -> nat {
    ((c as int) - 48) as nat
}

/// The length of the maximal prefix whose characters are all digits (when
/// `digits` is true) or all non-digits (when it is false).
pub open spec fn run_len(s: Seq<char>, digits: bool) -> nat
    decreases s.len(),
{
    if s.len() == 0 || is_digit(s[0]) != digits {
        0
    } else {
        (1 + run_len(s.drop_first(), digits)) as nat
    }
}

pub proof fn lemma_run_len(s: Seq<char>, digits: bool)
    ensures
        run_len(s, digits) <= s.len(),
        forall|k: int| 0 <= k < run_len(s, digits) ==> is_digit(#[trigger] s[k]) == digits,
        run_len(s, digits) < s.len() ==> is_digit(s[run_len(s, digits) as int]) != digits,
    decreases s.len(),
{
    if s.len() > 0 && is_digit(s[0]) == digits {
        lemma_run_len(s.drop_first(), digits);
        assert forall|k: int|
            0 <= k < run_len(s, digits) implies is_digit(#[trigger] s[k]) == digits by {
            if k > 0 {
                assert(s.drop_first()[k - 1] == s[k]);
            }
        }
        if run_len(s, digits) < s.len() {
            assert(s.drop_first()[run_len(s, digits) - 1] == s[run_len(s, digits) as int]);
        }
    }
}

/// A run is pinned down by its pointwise description: `m` matching
/// characters followed by the end or a mismatch.
pub proof fn lemma_run_len_eq(s: Seq<char>, digits: bool, m: int)
    requires
        0 <= m <= s.len(),
        forall|k: int| 0 <= k < m ==> is_digit(#[trigger] s[k]) == digits,
        m < s.len() ==> is_digit(s[m]) != digits,
    ensures
        run_len(s, digits) == m,
    decreases s.len(),
{
    if m == 0 {
    } else {
        assert(is_digit(s[0]) == digits);
        assert forall|k: int|
            0 <= k < m - 1 implies is_digit(#[trigger] s.drop_first()[k]) == digits by {
            assert(s.drop_first()[k] == s[k + 1]);
        }
        if m - 1 < s.drop_first().len() {
            assert(s.drop_first()[m - 1] == s[m]);
        }
        lemma_run_len_eq(s.drop_first(), digits, m - 1);
    }
}

/// The numeric value of a run of decimal digits (most significant first).
pub open spec fn dec_val(s: Seq<char>) -> nat
    decreases s.len(),
{
    if s.len() == 0 {
        0
    } else {
        dec_val(s.drop_last()) * 10 + digit_val(s.last())
    }
}

/// One token of a natural sort key.
pub enum KeyItem {
    Text(Seq<char>),
    Number(u32),
}

/// A digit run becomes a numeric token when its value fits 32 bits, and
/// stays a text token otherwise.
pub open spec fn digit_token(run: Seq<char>) -> KeyItem {
    if dec_val(run) <= u32::MAX {
        KeyItem::Number(dec_val(run) as u32)
    } else {
        KeyItem::Text(run)
    }
}

/// The natural sort key of a name: its runs, in order, each as one token.
pub open spec fn spec_nat_key(s: Seq<char>) -> Seq<KeyItem>
    decreases s.len(),
    via spec_nat_key_decreases
{
    if s.len() == 0 {
        Seq::empty()
    } else {
        let digits = is_digit(s[0]);
        let k = run_len(s, digits);
        let token = if digits {
            digit_token(s.subrange(0, k as int))
        } else {
            KeyItem::Text(s.subrange(0, k as int))
        };
        seq![token] + spec_nat_key(s.subrange(k as int, s.len() as int))
    }
}

#[via_fn]
proof fn spec_nat_key_decreases(s: Seq<char>) {
    if s.len() > 0 {
        let digits = is_digit(s[0]);
        assert(run_len(s, digits) >= 1);
        lemma_run_len(s, digits);
    }
}

/// One token of an executable natural sort key.
#[derive(Debug, Clone, PartialEq, Eq)]
pub enum NaturalSortItem {
    Text(String),
    Number(u32),
}

impl View for NaturalSortItem {
    type V = KeyItem;

    open spec fn view(&self) -> KeyItem {
        match self {
            NaturalSortItem::Text(s) => KeyItem::Text(s@),
            NaturalSortItem::Number(n) => KeyItem::Number(*n),
        }
    }
}

pub open spec fn key_views(s: Seq<NaturalSortItem>) -> Seq<KeyItem> {
    Seq::new(s.len(), |i: int| s[i]@)
}

/// Tokenizes a name into its natural sort key.
#[verifier::loop_isolation(false)]
pub fn natural_sort_key(name: &str) -> (r: Vec<NaturalSortItem>)
    ensures
        key_views(r@) == spec_nat_key(name@),
{
    let n = name.unicode_len();
    let mut out: Vec<NaturalSortItem> = Vec::new();
    let mut i: usize = 0;
    proof {
        assert(key_views(out@) =~= Seq::<KeyItem>::empty());
        assert(name@.subrange(0, n as int) =~= name@);
    }
    while i < n
        invariant
            i <= n,
            n == name@.len(),
            spec_nat_key(name@) == key_views(out@) + spec_nat_key(
                name@.subrange(i as int, n as int),
            ),
        decreases n - i,
    {
        let c0 = name.get_char(i);
        let digits = c0 >= '0' && c0 <= '9';
        let mut j: usize = i + 1;
        while j < n
            invariant
                i < j <= n,
                n == name@.len(),
                digits == is_digit(name@[i as int]),
                forall|k: int| i <= k < j ==> is_digit(#[trigger] name@[k]) == digits,
            decreases n - j,
        {
            let c = name.get_char(j);
            if (c >= '0' && c <= '9') != digits {
                break ;
            }
            j = j + 1;
        }
        let ghost suffix = name@.subrange(i as int, n as int);
        proof {
            assert forall|k: int| 0 <= k < j - i implies is_digit(#[trigger] suffix[k])
                == digits by {
                assert(suffix[k] == name@[i + k]);
            }
            if j - i < suffix.len() {
                assert(suffix[(j - i) as int] == name@[j as int]);
            }
            lemma_run_len_eq(suffix, digits, j - i);
            assert(suffix.subrange(0, (j - i) as int) =~= name@.subrange(i as int, j as int));
            assert(suffix.subrange((j - i) as int, suffix.len() as int) =~= name@.subrange(
                j as int,
                n as int,
            ));
        }
        let run = name.substring_char(i, j);
        let token: NaturalSortItem;
        if digits {
            let mut val: u64 = 0;
            let mut k: usize = i;
            proof {
                assert(name@.subrange(i as int, i as int) =~= Seq::<char>::empty());
            }
            while k < j
                invariant
                    i <= k <= j <= n,
                    n == name@.len(),
                    forall|t: int| i <= t < j ==> is_digit(#[trigger] name@[t]) == digits,
                    digits,
                    val == (if dec_val(name@.subrange(i as int, k as int)) <= u32::MAX {
                        dec_val(name@.subrange(i as int, k as int))
                    } else {
                        0x1_0000_0000
                    }),
                decreases j - k,
            {
                let c = name.get_char(k);
                let dv: u64 = (c as u32 - 48) as u64;
                let ghost pre = name@.subrange(i as int, k as int);
                let ghost cur = name@.subrange(i as int, k + 1);
                proof {
                    assert(cur.drop_last() =~= pre);
                    assert(cur.last() == name@[k as int]);
                    assert(dec_val(cur) == dec_val(pre) * 10 + digit_val(name@[k as int]));
                    if dec_val(pre) > u32::MAX {
                        assert(dec_val(pre) * 10 >= dec_val(pre)) by (nonlinear_arith);
                    }
                }
                if val <= 0xffff_ffff {
                    val = val * 10 + dv;
                    if val > 0xffff_ffff {
                        val = 0x1_0000_0000;
                        proof {
                            assert(dec_val(cur) > u32::MAX);
                        }
                    }
                } else {
                    proof {
                        assert(dec_val(cur) > u32::MAX);
                    }
                }
                k = k + 1;
            }
            if val <= 0xffff_ffff {
                token = NaturalSortItem::Number(val as u32);
            } else {
                token = NaturalSortItem::Text(String::from_str(run));
            }
        } else {
            token = NaturalSortItem::Text(String::from_str(run));
        }
        let ghost old_out = out@;
        out.push(token);
        proof {
            assert(key_views(out@) =~= key_views(old_out).push(token@));
            assert(spec_nat_key(suffix) == seq![token@] + spec_nat_key(
                name@.subrange(j as int, n as int),
            ));
            assert(key_views(out@) + spec_nat_key(name@.subrange(j as int, n as int))
                =~= key_views(old_out) + (seq![token@] + spec_nat_key(
                name@.subrange(j as int, n as int),
            )));
        }
        i = j;
    }
    proof {
        assert(name@.subrange(n as int, n as int) =~= Seq::<char>::empty());
        assert(key_views(out@) + Seq::<KeyItem>::empty() =~= key_views(out@));
    }
    out
}

/// Strict lexicographic order on character sequences, by code point; a
/// proper prefix sorts before its extensions.
pub open spec fn chars_lt(x: Seq<char>, y: Seq<char>) -> bool
    decreases x.len(),
{
    if y.len() == 0 {
        false
    } else if x.len() == 0 {
        true
    } else if x[0] == y[0] {
        chars_lt(x.drop_first(), y.drop_first())
    } else {
        x[0] < y[0]
    }
}

/// Strict order on single tokens: text before number when the kinds differ.
pub open spec fn item_lt(a: KeyItem, b: KeyItem) -> bool {
    match (a, b) {
        (KeyItem::Text(x), KeyItem::Text(y)) => chars_lt(x, y),
        (KeyItem::Text(_), KeyItem::Number(_)) => true,
        (KeyItem::Number(_), KeyItem::Text(_)) => false,
        (KeyItem::Number(x), KeyItem::Number(y)) => x < y,
    }
}

/// Non-strict lexicographic order on whole keys: equal tokens fall through,
/// a shorter key sorts before its extensions.
pub open spec fn key_le(a: Seq<KeyItem>, b: Seq<KeyItem>) -> bool
    decreases a.len(),
{
    if a.len() == 0 {
        true
    } else if b.len() == 0 {
        false
    } else if a[0] == b[0] {
        key_le(a.drop_first(), b.drop_first())
    } else {
        item_lt(a[0], b[0])
    }
}

/// Natural order on names.
pub open spec fn name_le(x: Seq<char>, y: Seq<char>) -> bool {
    key_le(spec_nat_key(x), spec_nat_key(y))
}

pub proof fn lemma_chars_lt_connex(x: Seq<char>, y: Seq<char>)
    ensures
        chars_lt(x, y) || chars_lt(y, x) || x == y,
    decreases x.len(),
{
    if y.len() == 0 || x.len() == 0 {
        if x.len() == 0 && y.len() == 0 {
            assert(x =~= y);
        }
    } else if x[0] == y[0] {
        lemma_chars_lt_connex(x.drop_first(), y.drop_first());
        if x.drop_first() == y.drop_first() {
            assert(x.drop_first().len() == y.drop_first().len());
            assert(x.len() == y.len());
            assert forall|i: int| 0 <= i < x.len() implies x[i] == y[i] by {
                if i == 0 {
                    assert(x[0] == y[0]);
                } else {
                    assert(x.drop_first()[i - 1] == y.drop_first()[i - 1]);
                    assert(x.drop_first()[i - 1] == x[i]);
                    assert(y.drop_first()[i - 1] == y[i]);
                }
            }
            assert(x =~= y);
        }
    }
}

pub proof fn lemma_chars_lt_asym(x: Seq<char>, y: Seq<char>)
    ensures
        !(chars_lt(x, y) && chars_lt(y, x)),
    decreases x.len(),
{
    if x.len() > 0 && y.len() > 0 && x[0] == y[0] {
        lemma_chars_lt_asym(x.drop_first(), y.drop_first());
    }
}

pub proof fn lemma_chars_lt_trans(x: Seq<char>, y: Seq<char>, z: Seq<char>)
    requires
        chars_lt(x, y),
        chars_lt(y, z),
    ensures
        chars_lt(x, z),
    decreases x.len(),
{
    if z.len() == 0 {
    } else if x.len() == 0 {
    } else {
        if x[0] == y[0] && y[0] == z[0] {
            lemma_chars_lt_trans(x.drop_first(), y.drop_first(), z.drop_first());
        }
    }
}

pub proof fn lemma_item_lt_connex(a: KeyItem, b: KeyItem)
    ensures
        item_lt(a, b) || item_lt(b, a) || a == b,
{
    match (a, b) {
        (KeyItem::Text(x), KeyItem::Text(y)) => {
            lemma_chars_lt_connex(x, y);
        },
        _ => {},
    }
}

pub proof fn lemma_item_lt_asym(a: KeyItem, b: KeyItem)
    ensures
        !(item_lt(a, b) && item_lt(b, a)),
{
    match (a, b) {
        (KeyItem::Text(x), KeyItem::Text(y)) => {
            lemma_chars_lt_asym(x, y);
        },
        _ => {},
    }
}

pub proof fn lemma_item_lt_trans(a: KeyItem, b: KeyItem, c: KeyItem)
    requires
        item_lt(a, b),
        item_lt(b, c),
    ensures
        item_lt(a, c),
{
    match (a, b, c) {
        (KeyItem::Text(x), KeyItem::Text(y), KeyItem::Text(z)) => {
            lemma_chars_lt_trans(x, y, z);
        },
        _ => {},
    }
}

/// The natural order is total: any two keys compare one way or the other.
pub proof fn lemma_key_le_total(a: Seq<KeyItem>, b: Seq<KeyItem>)
    ensures
        key_le(a, b) || key_le(b, a),
    decreases a.len(),
{
    if a.len() > 0 && b.len() > 0 {
        if a[0] == b[0] {
            lemma_key_le_total(a.drop_first(), b.drop_first());
        } else {
            lemma_item_lt_connex(a[0], b[0]);
        }
    }
}

/// The natural order is transitive.
pub proof fn lemma_key_le_trans(a: Seq<KeyItem>, b: Seq<KeyItem>, c: Seq<KeyItem>)
    requires
        key_le(a, b),
        key_le(b, c),
    ensures
        key_le(a, c),
    decreases a.len(),
{
    if a.len() == 0 {
    } else if b.len() == 0 {
    } else if c.len() == 0 {
    } else {
        if a[0] == b[0] && b[0] == c[0] {
            lemma_key_le_trans(a.drop_first(), b.drop_first(), c.drop_first());
        } else if a[0] == b[0] {
            // b[0] != c[0], so item_lt(b[0], c[0]) and a[0] != c[0]
        } else if b[0] == c[0] {
        } else {
            lemma_item_lt_trans(a[0], b[0], c[0]);
            lemma_item_lt_asym(a[0], b[0]);
            lemma_item_lt_asym(b[0], c[0]);
            lemma_item_lt_asym(a[0], c[0]);
            if a[0] == c[0] {
                lemma_item_lt_asym(a[0], b[0]);
            }
        }
    }
}

/// Any two names compare one way or the other in the natural order.
pub proof fn lemma_name_le_total(x: Seq<char>, y: Seq<char>)
    ensures
        name_le(x, y) || name_le(y, x),
{
    lemma_key_le_total(spec_nat_key(x), spec_nat_key(y));
}

/// The natural order on names is transitive.
pub proof fn lemma_name_le_trans(x: Seq<char>, y: Seq<char>, z: Seq<char>)
    requires
        name_le(x, y),
        name_le(y, z),
    ensures
        name_le(x, z),
{
    lemma_key_le_trans(spec_nat_key(x), spec_nat_key(y), spec_nat_key(z));
}

fn chars_lt_exec(x: &str, y: &str) -> (r: bool)
    ensures
        r == chars_lt(x@, y@),
{
    let xn = x.unicode_len();
    let yn = y.unicode_len();
    let mut i: usize = 0;
    proof {
        assert(x@.subrange(0, xn as int) =~= x@);
        assert(y@.subrange(0, yn as int) =~= y@);
    }
    loop
        invariant
            i <= xn,
            i <= yn,
            xn == x@.len(),
            yn == y@.len(),
            chars_lt(x@, y@) == chars_lt(x@.subrange(i as int, xn as int), y@.subrange(i as int, yn as int)),
        decreases xn - i,
    {
        let ghost xs = x@.subrange(i as int, xn as int);
        let ghost ys = y@.subrange(i as int, yn as int);
        if i >= yn {
            proof {
                assert(ys.len() == 0);
            }
            return false;
        }
        if i >= xn {
            proof {
                assert(xs.len() == 0 && ys.len() > 0);
            }
            return true;
        }
        let cx = x.get_char(i);
        let cy = y.get_char(i);
        proof {
            assert(xs[0] == x@[i as int]);
            assert(ys[0] == y@[i as int]);
            assert(xs.drop_first() =~= x@.subrange(i + 1, xn as int));
            assert(ys.drop_first() =~= y@.subrange(i + 1, yn as int));
        }
        if cx != cy {
            return cx < cy;
        }
        i = i + 1;
    }
}

fn item_eq_exec(a: &NaturalSortItem, b: &NaturalSortItem) -> (r: bool)
    ensures
        r == (a@ == b@),
{
    match (a, b) {
        (NaturalSortItem::Text(x), NaturalSortItem::Text(y)) => x.eq(y),
        (NaturalSortItem::Number(x), NaturalSortItem::Number(y)) => x == y,
        _ => false,
    }
}

fn item_lt_exec(a: &NaturalSortItem, b: &NaturalSortItem) -> (r: bool)
    ensures
        r == item_lt(a@, b@),
{
    match (a, b) {
        (NaturalSortItem::Text(x), NaturalSortItem::Text(y)) => chars_lt_exec(
            x.as_str(),
            y.as_str(),
        ),
        (NaturalSortItem::Text(_), NaturalSortItem::Number(_)) => true,
        (NaturalSortItem::Number(_), NaturalSortItem::Text(_)) => false,
        (NaturalSortItem::Number(x), NaturalSortItem::Number(y)) => x < y,
    }
}

/// Whether key `a` sorts at or before key `b` in the natural order.
#[verifier::loop_isolation(false)]
pub fn key_le_exec(a: &Vec<NaturalSortItem>, b: &Vec<NaturalSortItem>) -> (r: bool)
    ensures
        r == key_le(key_views(a@), key_views(b@)),
{
    let mut i: usize = 0;
    proof {
        assert(key_views(a@).subrange(0, a@.len() as int) =~= key_views(a@));
        assert(key_views(b@).subrange(0, b@.len() as int) =~= key_views(b@));
    }
    loop
        invariant
            i <= a@.len(),
            i <= b@.len(),
            key_le(key_views(a@), key_views(b@)) == key_le(
                key_views(a@).subrange(i as int, a@.len() as int),
                key_views(b@).subrange(i as int, b@.len() as int),
            ),
        decreases a@.len() - i,
    {
        let ghost xs = key_views(a@).subrange(i as int, a@.len() as int);
        let ghost ys = key_views(b@).subrange(i as int, b@.len() as int);
        if i >= a.len() {
            proof {
                assert(xs.len() == 0);
            }
            return true;
        }
        if i >= b.len() {
            proof {
                assert(ys.len() == 0 && xs.len() > 0);
            }
            return false;
        }
        proof {
            assert(xs[0] == key_views(a@)[i as int]);
            assert(ys[0] == key_views(b@)[i as int]);
            assert(xs.drop_first() =~= key_views(a@).subrange(i + 1, a@.len() as int));
            assert(ys.drop_first() =~= key_views(b@).subrange(i + 1, b@.len() as int));
        }
        if !item_eq_exec(&a[i], &b[i]) {
            return item_lt_exec(&a[i], &b[i]);
        }
        i = i + 1;
    }
}

/// Whether `x` sorts at or before `y` in the natural order on names.
pub fn name_le_exec(x: &str, y: &str) -> (r: bool)
    ensures
        r == name_le(x@, y@),
{
    let ka = natural_sort_key(x);
    let kb = natural_sort_key(y);
    key_le_exec(&ka, &kb)
}

} // verus!
