//! Decimal digit strings: their numeric value, bounds on that value,
//! rendering of unsigned integers, and parsing of the iteration column.

use vstd::prelude::*;
use crate::text::chars_of;
use crate::text::digit_char;
use crate::text::digit_val;
use crate::text::is_digit;

verus! {

// ===== powers of ten =====

pub open spec fn pow10(n: nat) -> nat
    decreases n,
{
    if n == 0 {
        1
    } else {
        10 * pow10((n - 1) as nat)
    }
}

pub proof fn lemma_pow10_pos(n: nat)
    ensures
        pow10(n) >= 1,
    decreases n,
{
    if n > 0 {
        lemma_pow10_pos((n - 1) as nat);
    }
}

pub proof fn lemma_pow10_mono(a: nat, b: nat)
    requires
        a <= b,
    ensures
        pow10(a) <= pow10(b),
    decreases b,
{
    if a < b {
        lemma_pow10_mono(a, (b - 1) as nat);
        lemma_pow10_pos((b - 1) as nat);
    }
}

pub proof fn lemma_pow10_vals()
    ensures
        pow10(9) == 1_000_000_000,
        pow10(19) == 10_000_000_000_000_000_000,
        pow10(38) == 100_000_000_000_000_000_000_000_000_000_000_000_000,
{
    reveal_with_fuel(pow10, 40);
}

// ===== digit strings =====

pub open spec fn all_digits(s: Seq<char>) -> bool {
    forall|i: int| 0 <= i < s.len() ==> is_digit(s[i])
}

/// Numeric value of a digit string, most significant digit first.
pub open spec fn digits_val(s: Seq<char>) -> int
    decreases s.len(),
{
    if s.len() == 0 {
        0
    } else {
        digits_val(s.drop_last()) * 10 + digit_val(s.last())
    }
}

pub proof fn lemma_digits_val_bounds(s: Seq<char>)
    requires
        all_digits(s),
    ensures
        0 <= digits_val(s) < pow10(s.len()),
    decreases s.len(),
{
    if s.len() == 0 {
    } else {
        assert(forall|i: int| 0 <= i < s.drop_last().len() ==> is_digit(#[trigger] s.drop_last()[i]));
        lemma_digits_val_bounds(s.drop_last());
        assert(is_digit(s.last()));
        assert(0 <= digit_val(s.last()) <= 9);
        assert(pow10(s.len()) == 10 * pow10((s.len() - 1) as nat));
    }
}

pub proof fn lemma_digits_val_first_nonzero(s: Seq<char>)
    requires
        all_digits(s),
        s.len() >= 1,
        s[0] != '0',
    ensures
        digits_val(s) >= pow10((s.len() - 1) as nat),
    decreases s.len(),
{
    if s.len() == 1 {
        assert(digit_val(s[0]) >= 1);
    } else {
        assert(forall|i: int| 0 <= i < s.drop_last().len() ==> is_digit(#[trigger] s.drop_last()[i]));
        assert(s.drop_last()[0] == s[0]);
        assert(s.drop_last().len() == s.len() - 1);
        lemma_digits_val_first_nonzero(s.drop_last());
        assert(digits_val(s.drop_last()) >= pow10((s.len() - 2) as nat));
        assert(is_digit(s.last()));
        assert(0 <= digit_val(s.last()));
        assert(digits_val(s) == digits_val(s.drop_last()) * 10 + digit_val(s.last()));
        assert(pow10((s.len() - 1) as nat) == 10 * pow10((s.len() - 2) as nat));
        assert(digits_val(s.drop_last()) * 10 >= pow10((s.len() - 2) as nat) * 10);
    }
}

pub proof fn lemma_digits_val_prefix_le(s: Seq<char>, i: int)
    requires
        all_digits(s),
        0 <= i <= s.len(),
    ensures
        digits_val(s.take(i)) <= digits_val(s),
    decreases s.len(),
{
    if i == s.len() {
        assert(s.take(i) =~= s);
    } else {
        assert(forall|j: int| 0 <= j < s.drop_last().len() ==> is_digit(#[trigger] s.drop_last()[j]));
        assert(s.drop_last().take(i) =~= s.take(i));
        lemma_digits_val_prefix_le(s.drop_last(), i);
        lemma_digits_val_bounds(s.drop_last());
        assert(is_digit(s.last()));
        assert(0 <= digit_val(s.last()));
        assert(digits_val(s) >= digits_val(s.drop_last()));
    }
}

/// One scanning step: appending a digit multiplies by ten and adds it.
pub proof fn lemma_digits_val_step(s: Seq<char>, i: int)
    requires
        0 <= i < s.len(),
    ensures
        digits_val(s.take(i + 1)) == digits_val(s.take(i)) * 10 + digit_val(s[i]),
{
    assert(s.take(i + 1).drop_last() =~= s.take(i));
    assert(s.take(i + 1).last() == s[i]);
}

/// Checks that every character of a vector is a decimal digit.
pub fn scan_digits(v: &Vec<char>) -> (r: bool)
    ensures
        r == all_digits(v@),
{
    let n: usize = v.len();
    let mut i: usize = 0;
    while i < n
        invariant
            i <= n,
            n == v@.len(),
            forall|j: int| 0 <= j < i ==> is_digit(v@[j]),
        decreases n - i,
    {
        if !digit_char(v[i]) {
            return false;
        }
        i = i + 1;
    }
    true
}

/// The numeric value of a short digit vector.
pub fn digits_value_u128(v: &Vec<char>) -> (r: u128)
    requires
        all_digits(v@),
        v@.len() <= 38,
    ensures
        r as int == digits_val(v@),
{
    proof {
        lemma_pow10_vals();
    }
    let n: usize = v.len();
    let mut acc: u128 = 0;
    let mut i: usize = 0;
    while i < n
        invariant
            i <= n <= 38,
            n == v@.len(),
            all_digits(v@),
            acc as int == digits_val(v@.take(i as int)),
            pow10(38) == 100_000_000_000_000_000_000_000_000_000_000_000_000,
        decreases n - i,
    {
        let c = v[i];
        proof {
            assert(forall|j: int|
                0 <= j < v@.take(i as int).len() ==> is_digit(#[trigger] v@.take(i as int)[j]));
            lemma_digits_val_bounds(v@.take(i as int));
            lemma_pow10_mono(i as nat, 37);
            assert(pow10(38) == 10 * pow10(37));
            lemma_digits_val_step(v@, i as int);
            assert(is_digit(c));
        }
        acc = acc * 10 + ((c as u32) - 48) as u128;
        i = i + 1;
    }
    proof {
        assert(v@.take(n as int) =~= v@);
    }
    acc
}

/// Ten to a small power.
pub fn pow10_u64(k: usize) -> (r: u64)
    requires
        k <= 19,
    ensures
        r as int == pow10(k as nat),
{
    proof {
        lemma_pow10_vals();
    }
    let mut p: u64 = 1;
    let mut t: usize = 0;
    while t < k
        invariant
            t <= k <= 19,
            p as int == pow10(t as nat),
            pow10(19) == 10_000_000_000_000_000_000,
        decreases k - t,
    {
        proof {
            lemma_pow10_mono((t + 1) as nat, 19);
            assert(pow10((t + 1) as nat) == 10 * pow10(t as nat));
        }
        p = p * 10;
        t = t + 1;
    }
    p
}

// ===== leading and trailing zeros =====

/// Index of the first digit that is not `'0'`; the length when all are.
pub open spec fn nz_idx(s: Seq<char>) -> int
    decreases s.len(),
{
    if s.len() == 0 {
        0
    } else if s[0] != '0' {
        0
    } else {
        1 + nz_idx(s.drop_first())
    }
}

pub proof fn lemma_nz_idx_bounds(s: Seq<char>)
    ensures
        0 <= nz_idx(s) <= s.len(),
        nz_idx(s) < s.len() ==> s[nz_idx(s)] != '0',
        forall|j: int| 0 <= j < nz_idx(s) ==> s[j] == '0',
    decreases s.len(),
{
    if s.len() == 0 {
    } else if s[0] != '0' {
    } else {
        lemma_nz_idx_bounds(s.drop_first());
        assert forall|j: int| 0 <= j < nz_idx(s) implies s[j] == '0' by {
            if j >= 1 {
                assert(s[j] == s.drop_first()[j - 1]);
            }
        }
    }
}

pub proof fn lemma_nz_idx_is(s: Seq<char>, k: int)
    requires
        0 <= k <= s.len(),
        forall|j: int| 0 <= j < k ==> s[j] == '0',
        k < s.len() ==> s[k] != '0',
    ensures
        nz_idx(s) == k,
    decreases s.len(),
{
    if s.len() == 0 {
    } else if s[0] != '0' {
        assert(k == 0);
    } else {
        assert(k >= 1) by {
            if k == 0 {
                assert(s[0] != '0');
            }
        }
        assert forall|j: int| 0 <= j < k - 1 implies s.drop_first()[j] == '0' by {
            assert(s.drop_first()[j] == s[j + 1]);
        }
        assert(k - 1 < s.drop_first().len() ==> s.drop_first()[k - 1] != '0');
        lemma_nz_idx_is(s.drop_first(), k - 1);
    }
}

/// How many `'0'` digits end the string.
pub open spec fn tz_count(s: Seq<char>) -> int
    decreases s.len(),
{
    if s.len() > 0 && s.last() == '0' {
        1 + tz_count(s.drop_last())
    } else {
        0
    }
}

pub proof fn lemma_tz_count_bounds(s: Seq<char>)
    ensures
        0 <= tz_count(s) <= s.len(),
        s.len() - tz_count(s) - 1 >= 0 ==> s[s.len() - tz_count(s) - 1] != '0',
        forall|j: int| s.len() - tz_count(s) <= j < s.len() ==> s[j] == '0',
    decreases s.len(),
{
    if s.len() > 0 && s.last() == '0' {
        lemma_tz_count_bounds(s.drop_last());
        assert forall|j: int| s.len() - tz_count(s) <= j < s.len() implies s[j] == '0' by {
            if j < s.len() - 1 {
                assert(s[j] == s.drop_last()[j]);
            }
        }
    }
}

pub proof fn lemma_tz_count_is(s: Seq<char>, k: int)
    requires
        0 <= k <= s.len(),
        forall|j: int| s.len() - k <= j < s.len() ==> s[j] == '0',
        s.len() - k - 1 >= 0 ==> s[s.len() - k - 1] != '0',
    ensures
        tz_count(s) == k,
    decreases s.len(),
{
    if s.len() > 0 && s.last() == '0' {
        assert(k >= 1) by {
            if k == 0 {
                assert(s[s.len() - 1] != '0');
            }
        }
        assert forall|j: int| s.drop_last().len() - (k - 1) <= j < s.drop_last().len() implies s.drop_last()[j]
            == '0' by {
            assert(s.drop_last()[j] == s[j]);
        }
        lemma_tz_count_is(s.drop_last(), k - 1);
    } else {
        if k >= 1 {
            if s.len() > 0 {
                assert(s[s.len() - 1] == '0');
            }
        }
    }
}

// ===== rendering =====

/// The character of one decimal digit.
pub open spec fn dec_digit(d: int) -> char {
    if d == 0 {
        '0'
    } else if d == 1 {
        '1'
    } else if d == 2 {
        '2'
    } else if d == 3 {
        '3'
    } else if d == 4 {
        '4'
    } else if d == 5 {
        '5'
    } else if d == 6 {
        '6'
    } else if d == 7 {
        '7'
    } else if d == 8 {
        '8'
    } else {
        '9'
    }
}

/// Decimal rendering of a non-negative integer, no leading zeros.
pub open spec fn dec_str(n: nat) -> Seq<char>
    decreases n,
{
    if n < 10 {
        seq![dec_digit(n as int)]
    } else {
        dec_str(n / 10) + seq![dec_digit((n % 10) as int)]
    }
}

pub fn digit_ascii(d: u8) -> (r: &'static str)
    requires
        d < 10,
    ensures
        r@ == seq![dec_digit(d as int)],
{
    if d == 0 {
        proof {
            reveal_strlit("0");
            assert(("0")@ =~= seq![dec_digit(0)]);
        }
        "0"
    } else if d == 1 {
        proof {
            reveal_strlit("1");
            assert(("1")@ =~= seq![dec_digit(1)]);
        }
        "1"
    } else if d == 2 {
        proof {
            reveal_strlit("2");
            assert(("2")@ =~= seq![dec_digit(2)]);
        }
        "2"
    } else if d == 3 {
        proof {
            reveal_strlit("3");
            assert(("3")@ =~= seq![dec_digit(3)]);
        }
        "3"
    } else if d == 4 {
        proof {
            reveal_strlit("4");
            assert(("4")@ =~= seq![dec_digit(4)]);
        }
        "4"
    } else if d == 5 {
        proof {
            reveal_strlit("5");
            assert(("5")@ =~= seq![dec_digit(5)]);
        }
        "5"
    } else if d == 6 {
        proof {
            reveal_strlit("6");
            assert(("6")@ =~= seq![dec_digit(6)]);
        }
        "6"
    } else if d == 7 {
        proof {
            reveal_strlit("7");
            assert(("7")@ =~= seq![dec_digit(7)]);
        }
        "7"
    } else if d == 8 {
        proof {
            reveal_strlit("8");
            assert(("8")@ =~= seq![dec_digit(8)]);
        }
        "8"
    } else {
        proof {
            reveal_strlit("9");
            assert(("9")@ =~= seq![dec_digit(9)]);
        }
        "9"
    }
}

/// The digits of `v`, last vector entry first.
pub open spec fn rev_digits(v: Seq<u8>) -> Seq<char> {
    Seq::new(v.len(), |i: int| dec_digit(v[v.len() - 1 - i] as int))
}

/// Renders an unsigned integer in decimal.
pub fn render_u64(n: u64) -> (r: String)
    ensures
        r@ == dec_str(n as nat),
{
    let mut digs: Vec<u8> = Vec::new();
    let mut m: u64 = n;
    while m >= 10
        invariant
            dec_str(n as nat) == dec_str(m as nat) + rev_digits(digs@),
            forall|i: int| 0 <= i < digs@.len() ==> digs@[i] < 10,
        decreases m,
    {
        let ghost d0 = digs@;
        let d: u8 = (m % 10) as u8;
        digs.push(d);
        proof {
            assert(rev_digits(digs@) =~= seq![dec_digit(d as int)] + rev_digits(d0));
            assert(dec_str(m as nat) == dec_str((m as nat) / 10) + seq![dec_digit(
                ((m as nat) % 10) as int,
            )]);
            assert((m as nat) / 10 == (m / 10) as nat);
            assert(dec_str(m as nat) + rev_digits(d0) =~= dec_str((m / 10) as nat) + rev_digits(
                digs@,
            ));
        }
        m = m / 10;
    }
    let ghost d0 = digs@;
    digs.push(m as u8);
    proof {
        assert(rev_digits(digs@) =~= seq![dec_digit(m as int)] + rev_digits(d0));
        assert(dec_str(m as nat) == seq![dec_digit(m as int)]);
        assert(dec_str(n as nat) =~= rev_digits(digs@));
    }
    let mut r = String::new();
    let total: usize = digs.len();
    let mut k: usize = 0;
    while k < total
        invariant
            k <= total,
            total == digs@.len(),
            forall|i: int| 0 <= i < total ==> digs@[i] < 10,
            r@ == rev_digits(digs@).take(k as int),
            dec_str(n as nat) == rev_digits(digs@),
        decreases total - k,
    {
        let piece = digit_ascii(digs[total - 1 - k]);
        r.append(piece);
        k = k + 1;
        proof {
            assert(r@ =~= rev_digits(digs@).take(k as int));
        }
    }
    proof {
        assert(rev_digits(digs@).take(total as int) =~= rev_digits(digs@));
    }
    r
}

// ===== parsing the iteration column =====

/// The digits of an unsigned-integer token, after an optional `'+'`.
pub open spec fn uint_body(s: Seq<char>) -> Seq<char> {
    if s.len() > 0 && s[0] == '+' {
        s.drop_first()
    } else {
        s
    }
}

/// The value of an unsigned-integer token: an optional `'+'`, then one or
/// more decimal digits, denoting a value that fits in 64 bits.
pub open spec fn uint_of(s: Seq<char>) -> Option<u64> {
    let b = uint_body(s);
    if b.len() >= 1 && all_digits(b) && digits_val(b) <= u64::MAX {
        Some(digits_val(b) as u64)
    } else {
        None
    }
}

/// Parses the iteration column.
pub fn parse_u64(s: &str) -> (r: Option<u64>)
    ensures
        r == uint_of(s@),
{
    let v = chars_of(s);
    let n: usize = v.len();
    let start: usize = if n > 0 && v[0] == '+' {
        1
    } else {
        0
    };
    let ghost b = uint_body(s@);
    proof {
        if start == 1 {
            assert(b =~= s@.skip(1));
        } else {
            assert(b =~= s@);
        }
        assert(b.len() == n - start);
    }
    if n == start {
        return None;
    }
    let mut acc: u128 = 0;
    let mut i: usize = start;
    while i < n
        invariant
            start <= i <= n,
            n == v@.len(),
            v@ == s@,
            b == uint_body(s@),
            b.len() == n - start,
            forall|j: int| 0 <= j < b.len() ==> b[j] == v@[start + j],
            forall|j: int| 0 <= j < i - start ==> is_digit(b[j]),
            acc == digits_val(b.take(i - start)),
            acc <= u64::MAX,
        decreases n - i,
    {
        let c = v[i];
        if !digit_char(c) {
            proof {
                assert(b[i - start] == c);
                assert(!all_digits(b));
            }
            return None;
        }
        let d: u32 = (c as u32) - 48;
        let acc2: u128 = acc * 10 + (d as u128);
        proof {
            lemma_digits_val_step(b, i - start);
            assert(b[i - start] == c);
            assert(digits_val(b.take(i - start + 1)) == acc * 10 + digit_val(c));
        }
        if acc2 > u64::MAX as u128 {
            proof {
                if all_digits(b) {
                    lemma_digits_val_prefix_le(b, i - start + 1);
                    assert(digits_val(b) > u64::MAX);
                }
            }
            return None;
        }
        acc = acc2;
        i = i + 1;
    }
    proof {
        assert(b.take(n - start) =~= b);
        assert(all_digits(b));
        assert(uint_of(s@) == Some(digits_val(b) as u64));
    }
    Some(acc as u64)
}

} // verus!
