//! The numeric value model of the library.
//!
//! A field value is an exact fixed-point decimal: a sign and a magnitude
//! counted in billionths (nine fractional digits), the magnitude held in a
//! `u64`. A decimal token denotes such a value when its significant digits
//! (at most 38 of them) scaled by its exponent land on a whole number of
//! billionths no larger than `u64::MAX`; every other token — malformed,
//! finer than one billionth, or too large — is rejected at parse time, so
//! all later arithmetic on values is exact.

use vstd::prelude::*;
use crate::num::all_digits;
use crate::num::dec_digit;
use crate::num::dec_str;
use crate::num::digit_ascii;
use crate::num::digits_val;
use crate::num::digits_value_u128;
use crate::num::lemma_digits_val_bounds;
use crate::num::lemma_digits_val_step;
use crate::num::lemma_nz_idx_is;
use crate::num::lemma_pow10_mono;
use crate::num::lemma_pow10_pos;
use crate::num::lemma_pow10_vals;
use crate::num::lemma_tz_count_is;
use crate::num::nz_idx;
use crate::num::pow10;
use crate::num::pow10_u64;
use crate::num::render_u64;
use crate::num::rev_digits;
use crate::num::scan_digits;
use crate::num::tz_count;
use crate::text::chars_of;
use crate::text::idx_of;
use crate::text::is_digit;
use crate::text::lemma_idx_of_is;
use crate::text::sub_vec;

verus! {

/// An exact signed fixed-point decimal: `nanos` billionths, negated when
/// `negative` is set. Zero is canonical: its sign is never set.
#[derive(Clone, Copy, PartialEq, Eq, Structural, Debug)]
pub struct Scalar {
    pub negative: bool,
    pub nanos: u64,
}

impl Scalar {
    /// The value, in billionths.
    pub open spec fn as_int(self) -> int {
        if self.negative {
            -(self.nanos as int)
        } else {
            self.nanos as int
        }
    }

    /// Zero never carries a sign.
    pub open spec fn valid(self) -> bool {
        self.negative ==> self.nanos > 0
    }
}

// ===== the token grammar =====

/// Length of a leading sign character.
pub open spec fn tok_sign_len(s: Seq<char>) -> int {
    if s.len() > 0 && (s[0] == '+' || s[0] == '-') {
        1
    } else {
        0
    }
}

/// Whether the token carries a minus sign.
pub open spec fn tok_neg(s: Seq<char>) -> bool {
    s.len() > 0 && s[0] == '-'
}

/// Index of the first exponent marker; the length when there is none.
pub open spec fn exp_idx(s: Seq<char>) -> int
    decreases s.len(),
{
    if s.len() == 0 {
        0
    } else if s[0] == 'e' || s[0] == 'E' {
        0
    } else {
        1 + exp_idx(s.drop_first())
    }
}

pub proof fn lemma_exp_idx_is(s: Seq<char>, k: int)
    requires
        0 <= k <= s.len(),
        forall|j: int| 0 <= j < k ==> !(s[j] == 'e' || s[j] == 'E'),
        k < s.len() ==> (s[k] == 'e' || s[k] == 'E'),
    ensures
        exp_idx(s) == k,
    decreases s.len(),
{
    if s.len() == 0 {
    } else if s[0] == 'e' || s[0] == 'E' {
        assert(k == 0);
    } else {
        assert(k >= 1) by {
            if k == 0 {
                assert(s[0] == 'e' || s[0] == 'E');
            }
        }
        assert forall|j: int| 0 <= j < k - 1 implies !(s.drop_first()[j] == 'e'
            || s.drop_first()[j] == 'E') by {
            assert(s.drop_first()[j] == s[j + 1]);
        }
        assert(k - 1 < s.drop_first().len() ==> (s.drop_first()[k - 1] == 'e' || s.drop_first()[k
            - 1] == 'E'));
        lemma_exp_idx_is(s.drop_first(), k - 1);
    }
}

/// The token after its sign.
pub open spec fn sc_body(s: Seq<char>) -> Seq<char> {
    s.skip(tok_sign_len(s))
}

/// The mantissa: everything before the exponent marker.
pub open spec fn sc_mant(s: Seq<char>) -> Seq<char> {
    sc_body(s).take(exp_idx(sc_body(s)))
}

pub open spec fn sc_has_exp(s: Seq<char>) -> bool {
    exp_idx(sc_body(s)) < sc_body(s).len()
}

/// The exponent token after the marker (meaningful only when present).
pub open spec fn sc_exp_tok(s: Seq<char>) -> Seq<char> {
    sc_body(s).skip(exp_idx(sc_body(s)) + 1)
}

/// The digits before the decimal point.
pub open spec fn sc_intd(s: Seq<char>) -> Seq<char> {
    sc_mant(s).take(idx_of(sc_mant(s), '.'))
}

/// The digits after the decimal point, if any.
pub open spec fn sc_frd(s: Seq<char>) -> Seq<char> {
    let m = sc_mant(s);
    let d = idx_of(m, '.');
    if d < m.len() {
        m.skip(d + 1)
    } else {
        Seq::empty()
    }
}

/// All mantissa digits, the decimal point removed.
pub open spec fn sc_digits(s: Seq<char>) -> Seq<char> {
    sc_intd(s) + sc_frd(s)
}

pub open spec fn sc_exp_digits(s: Seq<char>) -> Seq<char> {
    let t = sc_exp_tok(s);
    t.skip(tok_sign_len(t))
}

pub open spec fn sc_exp_ok(s: Seq<char>) -> bool {
    sc_exp_digits(s).len() >= 1 && all_digits(sc_exp_digits(s))
}

/// The signed exponent value.
pub open spec fn sc_exp_val(s: Seq<char>) -> int {
    if tok_neg(sc_exp_tok(s)) {
        -digits_val(sc_exp_digits(s))
    } else {
        digits_val(sc_exp_digits(s))
    }
}

/// Whether the token matches the decimal grammar: an optional sign, at
/// least one digit around an optional point, an optional signed exponent.
pub open spec fn sc_token_ok(s: Seq<char>) -> bool {
    all_digits(sc_intd(s)) && all_digits(sc_frd(s)) && sc_digits(s).len() >= 1 && (sc_has_exp(s)
        ==> sc_exp_ok(s))
}

// ===== the denoted magnitude =====

/// The magnitude in billionths denoted by mantissa digits `digits`, of
/// which the last `f` sit after the point, under exponent `e`; `None` when
/// that is not a whole number of billionths that fits in a `u64`.
///
/// With the zeros around the significant digits set aside, the magnitude
/// is their value shifted by `sh` decimal places. A negative shift cannot
/// reach a whole number (the last significant digit is not zero), a shift
/// past 19 places always overflows, and more than 38 significant digits
/// are outside this model.
pub open spec fn scalar_nanos(digits: Seq<char>, f: int, e: int) -> Option<int> {
    let nz = nz_idx(digits);
    if nz == digits.len() {
        Some(0)
    } else {
        let tz = tz_count(digits);
        let sig = digits.subrange(nz, digits.len() - tz);
        let sh = 9 + e - f + tz;
        if sig.len() > 38 {
            None
        } else if sh < 0 {
            None
        } else if sh > 19 {
            None
        } else if digits_val(sig) * pow10(sh as nat) > u64::MAX {
            None
        } else {
            Some(digits_val(sig) * pow10(sh as nat))
        }
    }
}

/// The value denoted by one field token, if any.
pub open spec fn spec_scalar(s: Seq<char>) -> Option<Scalar> {
    if sc_token_ok(s) {
        match scalar_nanos(
            sc_digits(s),
            sc_frd(s).len() as int,
            if sc_has_exp(s) {
                sc_exp_val(s)
            } else {
                0
            },
        ) {
            Some(v) => Some(Scalar { negative: tok_neg(s) && v != 0, nanos: v as u64 }),
            None => None,
        }
    } else {
        None
    }
}

pub proof fn lemma_spec_scalar_valid(s: Seq<char>)
    ensures
        spec_scalar(s) matches Some(sc) ==> sc.valid(),
{
    if sc_token_ok(s) {
        let digits = sc_digits(s);
        assert(all_digits(digits)) by {
            assert forall|i: int| 0 <= i < digits.len() implies is_digit(digits[i]) by {
                if i < sc_intd(s).len() {
                    assert(digits[i] == sc_intd(s)[i]);
                } else {
                    assert(digits[i] == sc_frd(s)[i - sc_intd(s).len()]);
                }
            }
        }
        let nz = nz_idx(digits);
        if nz == digits.len() {
        } else {
            crate::num::lemma_nz_idx_bounds(digits);
            crate::num::lemma_tz_count_bounds(digits);
            let tz = tz_count(digits);
            if nz >= digits.len() - tz {
                assert(digits[nz] == '0');
            }
            let sig = digits.subrange(nz, digits.len() - tz);
            assert(all_digits(sig)) by {
                assert forall|i: int| 0 <= i < sig.len() implies is_digit(sig[i]) by {
                    assert(sig[i] == digits[nz + i]);
                }
            }
            lemma_digits_val_bounds(sig);
            let sh = 9 + (if sc_has_exp(s) {
                sc_exp_val(s)
            } else {
                0
            }) - sc_frd(s).len() + tz;
            if 0 <= sh <= 19 && sig.len() <= 38 {
                lemma_pow10_pos(sh as nat);
                assert(digits_val(sig) * pow10(sh as nat) >= 0) by (nonlinear_arith)
                    requires
                        digits_val(sig) >= 0,
                        pow10(sh as nat) >= 0,
                ;
            }
        }
    }
}

// ===== scanning helpers =====

fn find_exp_mark(v: &Vec<char>) -> (r: usize)
    ensures
        r == exp_idx(v@),
        r <= v@.len(),
        r < v@.len() ==> (v@[r as int] == 'e' || v@[r as int] == 'E'),
{
    let n: usize = v.len();
    let mut i: usize = 0;
    while i < n
        invariant
            i <= n,
            n == v@.len(),
            forall|j: int| 0 <= j < i ==> !(v@[j] == 'e' || v@[j] == 'E'),
        decreases n - i,
    {
        let c = v[i];
        if c == 'e' || c == 'E' {
            proof {
                lemma_exp_idx_is(v@, i as int);
            }
            return i;
        }
        i = i + 1;
    }
    proof {
        lemma_exp_idx_is(v@, n as int);
    }
    n
}

fn find_dot(v: &Vec<char>) -> (r: usize)
    ensures
        r == idx_of(v@, '.'),
        r <= v@.len(),
{
    let n: usize = v.len();
    let mut i: usize = 0;
    while i < n
        invariant
            i <= n,
            n == v@.len(),
            forall|j: int| 0 <= j < i ==> v@[j] != '.',
        decreases n - i,
    {
        if v[i] == '.' {
            proof {
                lemma_idx_of_is(v@, '.', i as int);
            }
            return i;
        }
        i = i + 1;
    }
    proof {
        lemma_idx_of_is(v@, '.', n as int);
    }
    n
}

fn find_nz(v: &Vec<char>) -> (r: usize)
    ensures
        r == nz_idx(v@),
        r <= v@.len(),
{
    let n: usize = v.len();
    let mut i: usize = 0;
    while i < n
        invariant
            i <= n,
            n == v@.len(),
            forall|j: int| 0 <= j < i ==> v@[j] == '0',
        decreases n - i,
    {
        if v[i] != '0' {
            proof {
                lemma_nz_idx_is(v@, i as int);
            }
            return i;
        }
        i = i + 1;
    }
    proof {
        lemma_nz_idx_is(v@, n as int);
    }
    n
}

fn find_tz(v: &Vec<char>) -> (r: usize)
    ensures
        r == tz_count(v@),
        r <= v@.len(),
{
    let n: usize = v.len();
    let mut k: usize = 0;
    while k < n && v[n - 1 - k] == '0'
        invariant
            k <= n,
            n == v@.len(),
            forall|j: int| n - k <= j < n ==> v@[j] == '0',
        decreases n - k,
    {
        k = k + 1;
    }
    proof {
        lemma_tz_count_is(v@, k as int);
    }
    k
}

// ===== parsing =====

/// Parses one field token into a value.
#[verifier::rlimit(80)]
#[verifier::spinoff_prover]
pub fn parse_scalar(s: &str) -> (r: Option<Scalar>)
    ensures
        r == spec_scalar(s@),
{
    let v = chars_of(s);
    let n: usize = v.len();
    let sl: usize = if n > 0 && (v[0] == '+' || v[0] == '-') {
        1
    } else {
        0
    };
    let neg: bool = n > 0 && v[0] == '-';
    proof {
        assert(sl == tok_sign_len(s@));
        assert(neg == tok_neg(s@));
    }
    let body = sub_vec(&v, sl, n);
    proof {
        assert(body@ =~= sc_body(s@));
    }
    let blen: usize = body.len();
    let ei = find_exp_mark(&body);
    let mant = sub_vec(&body, 0, ei);
    proof {
        assert(mant@ =~= sc_mant(s@));
    }
    let mlen: usize = mant.len();
    let di = find_dot(&mant);
    let intd = sub_vec(&mant, 0, di);
    proof {
        assert(intd@ =~= sc_intd(s@));
    }
    let frd: Vec<char> = if di < mlen {
        sub_vec(&mant, di + 1, mlen)
    } else {
        Vec::new()
    };
    proof {
        if di < mlen {
            assert(frd@ =~= sc_frd(s@));
        } else {
            assert(frd@ =~= sc_frd(s@));
        }
    }
    let flen: usize = frd.len();
    if !scan_digits(&intd) {
        return None;
    }
    if !scan_digits(&frd) {
        return None;
    }
    let mut digits = intd;
    let mut tail = frd;
    digits.append(&mut tail);
    proof {
        assert(digits@ =~= sc_digits(s@));
        assert(all_digits(digits@));
    }
    let dlen: usize = digits.len();
    if dlen == 0 {
        return None;
    }
    // The exponent, validated and accumulated with a cap: any exponent
    // whose magnitude passes the cap puts the shift far outside [0, 19].
    let has_exp: bool = ei < blen;
    let mut e_neg: bool = false;
    let mut e_acc: u128 = 0;
    if has_exp {
        let exps = sub_vec(&body, ei + 1, blen);
        proof {
            assert(exps@ =~= sc_exp_tok(s@));
        }
        let elen: usize = exps.len();
        let esl: usize = if elen > 0 && (exps[0] == '+' || exps[0] == '-') {
            1
        } else {
            0
        };
        e_neg = elen > 0 && exps[0] == '-';
        proof {
            assert(esl == tok_sign_len(exps@));
            assert(e_neg == tok_neg(exps@));
        }
        let expd = sub_vec(&exps, esl, elen);
        proof {
            assert(expd@ =~= sc_exp_digits(s@));
        }
        let xlen: usize = expd.len();
        if xlen == 0 {
            return None;
        }
        if !scan_digits(&expd) {
            return None;
        }
        let mut j: usize = 0;
        while j < xlen
            invariant
                j <= xlen,
                xlen == expd@.len(),
                all_digits(expd@),
                (e_acc <= 1_000_000_000_000_000_000_009 && e_acc as int == digits_val(
                    expd@.take(j as int),
                )) || (e_acc > 100_000_000_000_000_000_000 && digits_val(expd@.take(j as int))
                    >= e_acc),
            decreases xlen - j,
        {
            let c = expd[j];
            proof {
                lemma_digits_val_step(expd@, j as int);
                assert(is_digit(expd@[j as int]));
                assert(forall|t: int|
                    0 <= t < expd@.take(j as int).len() ==> is_digit(
                        #[trigger] expd@.take(j as int)[t],
                    ));
                lemma_digits_val_bounds(expd@.take(j as int));
            }
            if e_acc <= 100_000_000_000_000_000_000 {
                e_acc = e_acc * 10 + ((c as u32) - 48) as u128;
            }
            j = j + 1;
        }
        proof {
            assert(expd@.take(xlen as int) =~= expd@);
        }
    }
    // Significant digits.
    let nz = find_nz(&digits);
    if nz == dlen {
        proof {
            assert(scalar_nanos(
                sc_digits(s@),
                sc_frd(s@).len() as int,
                if sc_has_exp(s@) {
                    sc_exp_val(s@)
                } else {
                    0
                },
            ) == Some(0int));
        }
        return Some(Scalar { negative: false, nanos: 0 });
    }
    let tz = find_tz(&digits);
    proof {
        crate::num::lemma_nz_idx_bounds(digits@);
        crate::num::lemma_tz_count_bounds(digits@);
        assert(digits@[nz as int] != '0');
        if nz as int >= dlen - tz {
            assert(digits@[nz as int] == '0');
        }
    }
    let sig = sub_vec(&digits, nz, dlen - tz);
    let slen: usize = dlen - tz - nz;
    let ghost e_val: int = if sc_has_exp(s@) {
        sc_exp_val(s@)
    } else {
        0
    };
    let ghost sh_spec: int = 9 + e_val - flen + tz;
    let ghost spec_res = scalar_nanos(sc_digits(s@), sc_frd(s@).len() as int, e_val);
    if slen > 38 {
        return None;
    }
    if has_exp && e_acc > 100_000_000_000_000_000_000 {
        proof {
            assert(digits_val(sc_exp_digits(s@)) > 100_000_000_000_000_000_000);
            assert(flen <= usize::MAX);
            assert(tz <= dlen <= usize::MAX);
            if e_neg {
                assert(sh_spec < 0);
            } else {
                assert(sh_spec > 19);
            }
            assert(spec_res is None);
        }
        return None;
    }
    let e_i: i128 = if e_neg {
        -(e_acc as i128)
    } else {
        e_acc as i128
    };
    proof {
        if has_exp {
            assert(e_val == e_i as int);
        } else {
            assert(e_val == 0 && e_acc == 0 && !e_neg);
        }
    }
    let sh: i128 = 9 + e_i - (flen as i128) + (tz as i128);
    proof {
        assert(sh as int == sh_spec);
    }
    if sh < 0 {
        return None;
    }
    if sh > 19 {
        return None;
    }
    let dval = digits_value_u128(&sig);
    proof {
        lemma_pow10_pos((sh as int) as nat);
        lemma_digits_val_bounds(sig@);
    }
    if dval > u64::MAX as u128 {
        proof {
            let p = pow10((sh as int) as nat);
            assert(digits_val(sig@) * p >= digits_val(sig@) * 1) by (nonlinear_arith)
                requires
                    digits_val(sig@) >= 0,
                    p >= 1,
            ;
            assert(spec_res is None);
        }
        return None;
    }
    let p = pow10_u64(sh as usize);
    proof {
        lemma_pow10_vals();
        lemma_pow10_mono((sh as int) as nat, 19);
        assert(dval * (p as u128) <= 0xffff_ffff_ffff_ffff * 10_000_000_000_000_000_000)
            by (nonlinear_arith)
            requires
                dval <= 0xffff_ffff_ffff_ffff,
                p <= 10_000_000_000_000_000_000,
                dval >= 0,
                p >= 0,
        ;
    }
    let prod: u128 = dval * (p as u128);
    proof {
        assert(prod as int == digits_val(sig@) * pow10((sh as int) as nat));
    }
    if prod > u64::MAX as u128 {
        proof {
            assert(spec_res is None);
        }
        return None;
    }
    proof {
        assert(spec_res == Some(prod as int));
        assert(sc_token_ok(s@));
    }
    Some(Scalar { negative: neg && prod > 0, nanos: prod as u64 })
}

// ===== rendering =====

/// Exactly `k` decimal places of `m`, most significant first.
pub open spec fn frac_all(m: nat, k: nat) -> Seq<char>
    decreases k,
{
    if k == 0 {
        Seq::empty()
    } else {
        frac_all(m / 10, (k - 1) as nat) + seq![dec_digit((m % 10) as int)]
    }
}

/// `k` decimal places of `m` with trailing zeros removed.
pub open spec fn frac_trim(m: nat, k: nat) -> Seq<char>
    decreases k,
{
    if k == 0 {
        Seq::empty()
    } else if m % 10 == 0 {
        frac_trim(m / 10, (k - 1) as nat)
    } else {
        frac_all(m, k)
    }
}

/// The decimal rendering of a value: optional sign, whole part, and the
/// fractional part without trailing zeros when it is not zero.
pub open spec fn scalar_str(sc: Scalar) -> Seq<char> {
    let sign: Seq<char> = if sc.negative {
        seq!['-']
    } else {
        Seq::empty()
    };
    let ip = dec_str((sc.nanos / 1_000_000_000) as nat);
    let fr = sc.nanos % 1_000_000_000;
    if fr == 0 {
        sign + ip
    } else {
        sign + ip + seq!['.'] + frac_trim(fr as nat, 9)
    }
}

fn render_frac(fr: u64) -> (r: String)
    requires
        1 <= fr < 1_000_000_000,
    ensures
        r@ == frac_trim(fr as nat, 9),
{
    let mut m: u64 = fr;
    let mut k: usize = 9;
    while k > 0 && m % 10 == 0
        invariant
            k <= 9,
            m >= 1,
            frac_trim(fr as nat, 9) == frac_trim(m as nat, k as nat),
        decreases k,
    {
        m = m / 10;
        k = k - 1;
    }
    let ghost kk = k as nat;
    proof {
        if k > 0 {
            assert(frac_trim(m as nat, kk) == frac_all(m as nat, kk));
        }
    }
    let mut digs: Vec<u8> = Vec::new();
    let mut mm: u64 = m;
    let mut j: usize = 0;
    while j < k
        invariant
            j <= k,
            frac_all(m as nat, k as nat) == frac_all(mm as nat, (k - j) as nat) + rev_digits(
                digs@,
            ),
            digs@.len() == j,
            forall|i: int| 0 <= i < digs@.len() ==> digs@[i] < 10,
        decreases k - j,
    {
        let ghost d0 = digs@;
        let d: u8 = (mm % 10) as u8;
        digs.push(d);
        proof {
            assert(rev_digits(digs@) =~= seq![dec_digit(d as int)] + rev_digits(d0));
            assert(frac_all(mm as nat, (k - j) as nat) == frac_all((mm / 10) as nat, (k - j
                - 1) as nat) + seq![dec_digit(((mm as nat) % 10) as int)]);
            assert(frac_all(mm as nat, (k - j) as nat) + rev_digits(d0) =~= frac_all(
                (mm / 10) as nat,
                (k - j - 1) as nat,
            ) + rev_digits(digs@));
        }
        mm = mm / 10;
        j = j + 1;
    }
    proof {
        assert(frac_all(mm as nat, 0) == Seq::<char>::empty());
        assert(frac_all(m as nat, k as nat) =~= rev_digits(digs@));
    }
    let mut r = String::new();
    let total: usize = digs.len();
    let mut t: usize = 0;
    while t < total
        invariant
            t <= total,
            total == digs@.len(),
            forall|i: int| 0 <= i < total ==> digs@[i] < 10,
            r@ == rev_digits(digs@).take(t as int),
            frac_trim(fr as nat, 9) == rev_digits(digs@),
        decreases total - t,
    {
        let piece = digit_ascii(digs[total - 1 - t]);
        r.append(piece);
        t = t + 1;
        proof {
            assert(r@ =~= rev_digits(digs@).take(t as int));
        }
    }
    proof {
        assert(rev_digits(digs@).take(total as int) =~= rev_digits(digs@));
    }
    r
}

/// Renders a value the way the export writes it.
pub fn render_scalar(sc: &Scalar) -> (r: String)
    ensures
        r@ == scalar_str(*sc),
{
    let mut r = String::new();
    if sc.negative {
        proof {
            reveal_strlit("-");
        }
        r.append("-");
        proof {
            assert(r@ =~= seq!['-']);
        }
    }
    let ghost sign = r@;
    let ip = render_u64(sc.nanos / 1_000_000_000);
    r.append(ip.as_str());
    let fr: u64 = sc.nanos % 1_000_000_000;
    if fr != 0 {
        proof {
            reveal_strlit(".");
        }
        r.append(".");
        proof {
            assert((".")@ =~= seq!['.']);
        }
        let frac = render_frac(fr);
        r.append(frac.as_str());
        proof {
            assert(r@ =~= scalar_str(*sc));
        }
    } else {
        proof {
            assert(r@ =~= scalar_str(*sc));
        }
    }
    r
}

} // verus!
