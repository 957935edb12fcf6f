//! Fixed-point scalars.
//!
//! Documents carry fractional quantities (positions, scales, skew angles,
//! keyframe durations and values) as decimal text. The library stores each
//! such quantity as an `i64` count of fixed-point units, `FIXED_SCALE`
//! units to one document unit, so that all later arithmetic is exact
//! integer arithmetic. Both plain and exponent notation are accepted;
//! digits beyond the supported precision are truncated toward zero, and a
//! magnitude past `FIXED_RAW_MAX` is rejected.

use vstd::prelude::*;

verus! {

/// Fixed-point units in one document unit.
pub const FIXED_SCALE: i64 = 10000;

/// Largest magnitude (in document units) an integer text may carry.
pub const FIXED_INT_MAX: i64 = 100_000_000_000;

/// Largest raw magnitude a parsed scalar may carry.
pub const FIXED_RAW_MAX: i64 = 100_000_000_000 * 10000 + 9999;

/// An exponent magnitude past this is treated as unbounded: it dwarfs
/// every possible digit count.
const EXP_SAT: u128 = 100_000_000_000_000_000_000;

pub open spec fn is_digit(c: char) -> bool {
    '0' <= c && c <= '9'
}

pub open spec fn digit_val(c: char) -> int {
    c as int - '0' as int
}

pub open spec fn all_digits(s: Seq<char>) -> bool {
    forall|i: int| 0 <= i < s.len() ==> is_digit(#[trigger] s[i])
}

/// Value of a digit string read as a base-10 numeral (0 for the empty string).
pub open spec fn digits_val(s: Seq<char>) -> int
    decreases s.len(),
{
    if s.len() == 0 {
        0
    } else {
        10 * digits_val(s.drop_last()) + digit_val(s.last())
    }
}

pub open spec fn pow10(n: nat) -> int
    decreases n,
{
    if n == 0 {
        1
    } else {
        10 * pow10((n - 1) as nat)
    }
}

/// First position at or after `i` that does not hold a digit.
pub open spec fn digits_end(s: Seq<char>, i: int) -> int
    decreases s.len() - i when 0 <= i <= s.len()
{
    if i == s.len() {
        i
    } else if is_digit(s[i]) {
        digits_end(s, i + 1)
    } else {
        i
    }
}

/// Position where the digits of the number begin: after a leading minus sign.
pub open spec fn sign_start(s: Seq<char>) -> int {
    if s.len() > 0 && s[0] == '-' {
        1int
    } else {
        0int
    }
}

// ---------------------------------------------------------------------
// The decimal grammar: -? digits (. digits)? ((e|E) (+|-)? digits)?
// ---------------------------------------------------------------------

/// End of the integer digits.
pub open spec fn int_end(s: Seq<char>) -> int {
    digits_end(s, sign_start(s))
}

/// A point follows the integer digits.
pub open spec fn has_frac(s: Seq<char>) -> bool {
    int_end(s) < s.len() && s[int_end(s)] == '.'
}

/// End of the fractional digits (the end of the integer digits when there
/// is no point).
pub open spec fn frac_end(s: Seq<char>) -> int {
    if has_frac(s) {
        digits_end(s, int_end(s) + 1)
    } else {
        int_end(s)
    }
}

pub open spec fn int_digits(s: Seq<char>) -> Seq<char> {
    s.subrange(sign_start(s), int_end(s))
}

pub open spec fn frac_digits(s: Seq<char>) -> Seq<char> {
    if has_frac(s) {
        s.subrange(int_end(s) + 1, frac_end(s))
    } else {
        Seq::empty()
    }
}

/// An exponent marker follows the digits.
pub open spec fn has_exp(s: Seq<char>) -> bool {
    frac_end(s) < s.len() && (s[frac_end(s)] == 'e' || s[frac_end(s)] == 'E')
}

/// Where the exponent's digits begin: after the marker and an optional sign.
pub open spec fn exp_digits_start(s: Seq<char>) -> int {
    if frac_end(s) + 1 < s.len() && (s[frac_end(s) + 1] == '+' || s[frac_end(s) + 1] == '-') {
        frac_end(s) + 2
    } else {
        frac_end(s) + 1
    }
}

pub open spec fn exp_negative(s: Seq<char>) -> bool {
    has_exp(s) && frac_end(s) + 1 < s.len() && s[frac_end(s) + 1] == '-'
}

pub open spec fn exp_digits(s: Seq<char>) -> Seq<char> {
    s.subrange(exp_digits_start(s), s.len() as int)
}

/// The signed exponent; zero when the text carries none.
pub open spec fn exp_value(s: Seq<char>) -> int {
    if !has_exp(s) {
        0
    } else if exp_negative(s) {
        -digits_val(exp_digits(s))
    } else {
        digits_val(exp_digits(s))
    }
}

/// The text matches the decimal grammar, with at least one digit in every
/// digit group.
pub open spec fn fixed_text_ok(s: Seq<char>) -> bool {
    &&& int_end(s) > sign_start(s)
    &&& (has_frac(s) ==> frac_end(s) > int_end(s) + 1)
    &&& if has_exp(s) {
        exp_digits_start(s) < s.len() && digits_end(s, exp_digits_start(s)) == s.len()
    } else {
        frac_end(s) == s.len()
    }
}

// ---------------------------------------------------------------------
// The value: mantissa digits cut four places past the integer digits,
// shifted by the exponent, truncated toward zero.
// ---------------------------------------------------------------------

/// The mantissa: integer digits then fractional digits.
pub open spec fn mantissa_digits(s: Seq<char>) -> Seq<char> {
    int_digits(s) + frac_digits(s)
}

/// Where the last kept digit of the scaled value sits in the mantissa.
pub open spec fn fixed_cut(s: Seq<char>) -> int {
    int_digits(s).len() + 4 + exp_value(s)
}

/// The first `c` digits of `d`, padded with zeros on the right when `c`
/// runs past them, read as a numeral: the scaled magnitude with everything
/// beyond the cut truncated.
pub open spec fn trunc_digits(d: Seq<char>, c: int) -> int {
    if c <= 0 {
        0
    } else if c <= d.len() {
        digits_val(d.take(c))
    } else {
        digits_val(d) * pow10((c - d.len()) as nat)
    }
}

pub open spec fn fixed_text_abs(s: Seq<char>) -> int {
    trunc_digits(mantissa_digits(s), fixed_cut(s))
}

/// The value denoted by the text, in fixed-point units, truncated toward
/// zero.
pub open spec fn fixed_text_val(s: Seq<char>) -> int {
    if sign_start(s) == 1 {
        -fixed_text_abs(s)
    } else {
        fixed_text_abs(s)
    }
}

/// The text parses and its scaled magnitude is within the supported range.
pub open spec fn fixed_text_in_range(s: Seq<char>) -> bool {
    fixed_text_ok(s) && fixed_text_abs(s) <= FIXED_RAW_MAX
}

// ---------------------------------------------------------------------
// Facts about numerals.
// ---------------------------------------------------------------------

proof fn lemma_pow10_pos(n: nat)
    ensures
        pow10(n) >= 1,
    decreases n,
{
    if n > 0 {
        lemma_pow10_pos((n - 1) as nat);
    }
}

proof fn lemma_pow10_mono(a: nat, b: nat)
    requires
        a <= b,
    ensures
        pow10(a) <= pow10(b),
    decreases b,
{
    if a < b {
        lemma_pow10_mono(a, (b - 1) as nat);
        lemma_pow10_pos((b - 1) as nat);
    }
}

proof fn lemma_pow10_add(a: nat, b: nat)
    ensures
        pow10(a + b) == pow10(a) * pow10(b),
    decreases b,
{
    if b > 0 {
        lemma_pow10_add(a, (b - 1) as nat);
        assert(pow10(a + b) == 10 * pow10((a + b - 1) as nat));
        assert(10 * (pow10(a) * pow10((b - 1) as nat)) == pow10(a) * (10 * pow10(
            (b - 1) as nat,
        ))) by (nonlinear_arith);
    }
}

proof fn lemma_digits_val_nonneg(s: Seq<char>)
    requires
        all_digits(s),
    ensures
        digits_val(s) >= 0,
    decreases s.len(),
{
    if s.len() > 0 {
        assert(all_digits(s.drop_last()));
        lemma_digits_val_nonneg(s.drop_last());
    }
}

/// Extending a numeral by one digit multiplies its value by ten and adds
/// the digit.
proof fn lemma_digits_val_step(s: Seq<char>, i: int)
    requires
        0 <= i < s.len(),
    ensures
        digits_val(s.subrange(0, i + 1)) == 10 * digits_val(s.subrange(0, i)) + digit_val(s[i]),
{
    let t = s.subrange(0, i + 1);
    assert(t.drop_last() =~= s.subrange(0, i));
    assert(t.last() == s[i]);
}

/// A numeral is at least as large as any of its prefixes.
proof fn lemma_digits_val_prefix_le(s: Seq<char>, i: int)
    requires
        all_digits(s),
        0 <= i <= s.len(),
    ensures
        digits_val(s.subrange(0, i)) <= digits_val(s),
    decreases s.len() - i,
{
    if i == s.len() {
        assert(s.subrange(0, i) =~= s);
    } else {
        lemma_digits_val_prefix_le(s, i + 1);
        lemma_digits_val_step(s, i);
        assert(all_digits(s.subrange(0, i)));
        lemma_digits_val_nonneg(s.subrange(0, i));
        assert(digit_val(s[i]) >= 0);
    }
}

/// A numeral of `j` digits is below `10^j`.
proof fn lemma_digits_val_bound(s: Seq<char>, j: int)
    requires
        all_digits(s),
        0 <= j <= s.len(),
    ensures
        digits_val(s.subrange(0, j)) < pow10(j as nat),
    decreases j,
{
    if j == 0 {
        assert(s.subrange(0, 0) =~= Seq::<char>::empty());
    } else {
        lemma_digits_val_bound(s, j - 1);
        lemma_digits_val_step(s, j - 1);
    }
}

/// A leading zero contributes nothing.
proof fn lemma_digits_val_drop_zero(u: Seq<char>)
    requires
        u.len() > 0,
        u[0] == '0',
    ensures
        digits_val(u) == digits_val(u.drop_first()),
    decreases u.len(),
{
    if u.len() == 1 {
        assert(u.drop_last() =~= Seq::<char>::empty());
        assert(u.drop_first() =~= Seq::<char>::empty());
        assert(digit_val('0') == 0);
    } else {
        let dl = u.drop_last();
        assert(dl[0] == '0');
        lemma_digits_val_drop_zero(dl);
        assert(u.drop_first().drop_last() =~= dl.drop_first());
        assert(u.drop_first().last() == u.last());
    }
}

/// A prefix of zeros contributes nothing.
proof fn lemma_digits_val_zero_prefix(u: Seq<char>, z: int)
    requires
        0 <= z <= u.len(),
        forall|k: int| 0 <= k < z ==> u[k] == '0',
    ensures
        digits_val(u) == digits_val(u.subrange(z, u.len() as int)),
    decreases z,
{
    if z == 0 {
        assert(u.subrange(0, u.len() as int) =~= u);
    } else {
        lemma_digits_val_drop_zero(u);
        let v = u.drop_first();
        assert(forall|k: int| 0 <= k < z - 1 ==> v[k] == '0');
        lemma_digits_val_zero_prefix(v, z - 1);
        assert(v.subrange(z - 1, v.len() as int) =~= u.subrange(z, u.len() as int));
    }
}

/// A numeral with a nonzero digit at position `z` is at least the power of
/// ten of the digits that follow.
proof fn lemma_digits_val_lower(u: Seq<char>, z: int)
    requires
        all_digits(u),
        0 <= z < u.len(),
        digit_val(u[z]) >= 1,
    ensures
        digits_val(u) >= pow10((u.len() - 1 - z) as nat),
    decreases u.len(),
{
    let dl = u.drop_last();
    assert(all_digits(dl));
    if z == u.len() - 1 {
        lemma_digits_val_nonneg(dl);
    } else {
        assert(dl[z] == u[z]);
        lemma_digits_val_lower(dl, z);
        assert(digit_val(u.last()) >= 0);
    }
}

/// A zero mantissa has zero magnitude, wherever the cut falls.
proof fn lemma_trunc_zeros(d: Seq<char>, c: int)
    requires
        forall|k: int| 0 <= k < d.len() ==> d[k] == '0',
    ensures
        trunc_digits(d, c) == 0,
{
    if c <= 0 {
    } else if c <= d.len() {
        let t = d.take(c);
        assert(forall|k: int| 0 <= k < t.len() ==> t[k] == '0');
        lemma_digits_val_zero_prefix(t, c);
        assert(t.subrange(c, c) =~= Seq::<char>::empty());
    } else {
        lemma_digits_val_zero_prefix(d, d.len() as int);
        assert(d.subrange(d.len() as int, d.len() as int) =~= Seq::<char>::empty());
    }
}

/// A cut inside the leading zeros keeps nothing.
proof fn lemma_trunc_zero_prefix(d: Seq<char>, z: int, c: int)
    requires
        0 <= z <= d.len(),
        forall|k: int| 0 <= k < z ==> d[k] == '0',
        c <= z,
    ensures
        trunc_digits(d, c) == 0,
{
    if c > 0 {
        let t = d.take(c);
        assert(forall|k: int| 0 <= k < t.len() ==> t[k] == '0');
        lemma_trunc_zeros(t, c);
        assert(trunc_digits(t, c) == digits_val(t.take(c)));
        assert(t.take(c) =~= t);
    }
}

/// With a nonzero digit at `z` before the cut, the magnitude is at least
/// the power of ten of the kept digits that follow `z`.
proof fn lemma_trunc_lower(d: Seq<char>, z: int, c: int)
    requires
        all_digits(d),
        0 <= z < d.len(),
        digit_val(d[z]) >= 1,
        c > z,
    ensures
        trunc_digits(d, c) >= pow10((c - 1 - z) as nat),
{
    if c <= d.len() {
        let t = d.take(c);
        assert(all_digits(t));
        assert(t[z] == d[z]);
        lemma_digits_val_lower(t, z);
    } else {
        lemma_digits_val_lower(d, z);
        let a = (d.len() - 1 - z) as nat;
        let b = (c - d.len()) as nat;
        lemma_pow10_add(a, b);
        lemma_pow10_pos(b);
        assert(digits_val(d) * pow10(b) >= pow10(a) * pow10(b)) by (nonlinear_arith)
            requires
                digits_val(d) >= pow10(a),
                pow10(b) >= 1,
        ;
    }
}

// ---------------------------------------------------------------------
// Scanning.
// ---------------------------------------------------------------------

/// Scanning right from a digit reaches the same stopping point.
proof fn lemma_digits_end_step(s: Seq<char>, i: int)
    requires
        0 <= i < s.len(),
        is_digit(s[i]),
    ensures
        digits_end(s, i) == digits_end(s, i + 1),
{
}

proof fn lemma_digits_end_range(s: Seq<char>, i: int)
    requires
        0 <= i <= s.len(),
    ensures
        i <= digits_end(s, i) <= s.len(),
        forall|j: int| i <= j < digits_end(s, i) ==> is_digit(#[trigger] s[j]),
        digits_end(s, i) < s.len() ==> !is_digit(s[digits_end(s, i)]),
    decreases s.len() - i,
{
    if i < s.len() && is_digit(s[i]) {
        lemma_digits_end_range(s, i + 1);
    }
}

/// Scan for the first non-digit at or after `from`.
fn scan_digits(s: &str, n: usize, from: usize) -> (k: usize)
    requires
        n == s@.len(),
        from <= n,
    ensures
        k == digits_end(s@, from as int),
        from <= k <= n,
{
    let mut i: usize = from;
    while i < n
        invariant
            from <= i <= n,
            n == s@.len(),
            digits_end(s@, from as int) == digits_end(s@, i as int),
        decreases n - i,
    {
        let c = s.get_char(i);
        if !('0' <= c && c <= '9') {
            return i;
        }
        proof {
            lemma_digits_end_step(s@, i as int);
        }
        i = i + 1;
    }
    i
}

/// Scan for the first nonzero character of the mantissa.
fn scan_zeros(v: &Vec<char>) -> (z: usize)
    ensures
        z <= v@.len(),
        forall|k: int| 0 <= k < z ==> v@[k] == '0',
        z < v@.len() ==> v@[z as int] != '0',
{
    let n = v.len();
    let mut i: usize = 0;
    while i < n
        invariant
            i <= n,
            n == v@.len(),
            forall|k: int| 0 <= k < i ==> v@[k] == '0',
        decreases n - i,
    {
        if !(v[i] == '0') {
            return i;
        }
        i = i + 1;
    }
    i
}

/// Accumulate the numeral `s[from..to]`, stopping as soon as the value
/// would pass `FIXED_INT_MAX`.
fn accumulate_digits(s: &str, from: usize, to: usize) -> (r: Option<i64>)
    requires
        from <= to <= s@.len(),
        forall|j: int| from <= j < to ==> is_digit(#[trigger] s@[j]),
    ensures
        match r {
            Some(v) => 0 <= v <= FIXED_INT_MAX && v == digits_val(
                s@.subrange(from as int, to as int),
            ),
            None => digits_val(s@.subrange(from as int, to as int)) > FIXED_INT_MAX as int,
        },
{
    let ghost whole = s@.subrange(from as int, to as int);
    proof {
        assert(all_digits(whole));
    }
    let mut acc: i64 = 0;
    let mut i: usize = from;
    while i < to
        invariant
            from <= i <= to <= s@.len(),
            forall|j: int| from <= j < to ==> is_digit(#[trigger] s@[j]),
            whole == s@.subrange(from as int, to as int),
            all_digits(whole),
            0 <= acc <= FIXED_INT_MAX,
            acc == digits_val(whole.subrange(0, i - from)),
        decreases to - i,
    {
        let c = s.get_char(i);
        assert(is_digit(s@[i as int]));
        let d: i64 = (c as u32 - '0' as u32) as i64;
        assert(0 <= d <= 9);
        proof {
            assert(whole[i - from] == s@[i as int]);
            lemma_digits_val_step(whole, i - from);
        }
        let next: i64 = acc * 10 + d;
        if next > FIXED_INT_MAX {
            proof {
                lemma_digits_val_prefix_le(whole, i + 1 - from);
            }
            return None;
        }
        acc = next;
        i = i + 1;
    }
    assert(whole.subrange(0, i - from) =~= whole);
    Some(acc)
}

// ---------------------------------------------------------------------
// Integer text.
// ---------------------------------------------------------------------

/// The text matches `-? digits`.
pub open spec fn int_text_ok(s: Seq<char>) -> bool {
    let start = sign_start(s);
    s.len() > start && digits_end(s, start) == s.len()
}

pub open spec fn int_text_mag(s: Seq<char>) -> int {
    digits_val(s.subrange(sign_start(s), s.len() as int))
}

/// The integer denoted by the text.
pub open spec fn int_text_val(s: Seq<char>) -> int {
    if sign_start(s) == 1 {
        -int_text_mag(s)
    } else {
        int_text_mag(s)
    }
}

/// Parse integer text.
///
/// Returns `None` when the text does not match `-? digits` or its
/// magnitude passes `FIXED_INT_MAX`.
pub fn int_from_text(s: &str) -> (r: Option<i64>)
    ensures
        match r {
            Some(v) => int_text_ok(s@) && v == int_text_val(s@) && -FIXED_INT_MAX <= v
                <= FIXED_INT_MAX,
            None => !(int_text_ok(s@) && -FIXED_INT_MAX <= int_text_val(s@) <= FIXED_INT_MAX),
        },
{
    let n = s.unicode_len();
    let neg = n > 0 && s.get_char(0) == '-';
    let start: usize = if neg {
        1
    } else {
        0
    };
    assert(start as int == sign_start(s@));
    let k = scan_digits(s, n, start);
    if k == start {
        return None;
    }
    if k != n {
        return None;
    }
    proof {
        lemma_digits_end_range(s@, start as int);
    }
    let mag = match accumulate_digits(s, start, n) {
        Some(v) => v,
        None => {
            return None;
        },
    };
    if neg {
        Some(-mag)
    } else {
        Some(mag)
    }
}

// ---------------------------------------------------------------------
// Fixed-point text.
// ---------------------------------------------------------------------

/// The exponent's magnitude, and whether it passed the saturation bound.
fn exp_magnitude(s: &str, n: usize, from: usize) -> (r: (u128, bool))
    requires
        n == s@.len(),
        from <= n,
        forall|k: int| from <= k < n ==> is_digit(#[trigger] s@[k]),
    ensures
        ({
            let ed = s@.subrange(from as int, n as int);
            &&& !r.1 ==> r.0 as int == digits_val(ed) && r.0 <= EXP_SAT
            &&& r.1 ==> digits_val(ed) > EXP_SAT as int
        }),
{
    let ghost ed = s@.subrange(from as int, n as int);
    proof {
        assert(ed.subrange(0, 0) =~= Seq::<char>::empty());
    }
    let mut e_abs: u128 = 0;
    let mut e_huge = false;
    let mut i: usize = from;
    while i < n
        invariant
            from <= i <= n,
            n == s@.len(),
            ed == s@.subrange(from as int, n as int),
            forall|k: int| from <= k < n ==> is_digit(#[trigger] s@[k]),
            !e_huge ==> e_abs as int == digits_val(ed.subrange(0, i - from)),
            e_abs <= EXP_SAT,
            e_huge ==> digits_val(ed.subrange(0, i - from)) > EXP_SAT as int,
        decreases n - i,
    {
        let ch = s.get_char(i);
        let d: u128 = (ch as u32 - '0' as u32) as u128;
        proof {
            assert(ed[i - from] == s@[i as int]);
            lemma_digits_val_step(ed, i as int - from as int);
            if e_huge {
                assert(all_digits(ed.subrange(0, i - from)));
                lemma_digits_val_nonneg(ed.subrange(0, i - from));
            }
        }
        if !e_huge {
            let nx = e_abs * 10 + d;
            if nx > EXP_SAT {
                e_huge = true;
            } else {
                e_abs = nx;
            }
        }
        i = i + 1;
    }
    proof {
        assert(ed.subrange(0, n as int - from as int) =~= ed);
    }
    (e_abs, e_huge)
}

/// Copy the integer and fractional digits into one mantissa.
fn mantissa_vec(s: &str, start: usize, b: usize, f_from: usize, f_to: usize) -> (v: Vec<char>)
    requires
        start <= b <= f_from <= f_to <= s@.len(),
    ensures
        v@ == s@.subrange(start as int, b as int) + s@.subrange(f_from as int, f_to as int),
{
    let mut v: Vec<char> = Vec::new();
    let mut i: usize = start;
    proof {
        assert(v@ =~= s@.subrange(start as int, start as int));
    }
    while i < b
        invariant
            start <= i <= b <= s@.len(),
            v@ == s@.subrange(start as int, i as int),
        decreases b - i,
    {
        v.push(s.get_char(i));
        proof {
            assert(v@ =~= s@.subrange(start as int, i as int + 1));
        }
        i = i + 1;
    }
    let mut j: usize = f_from;
    while j < f_to
        invariant
            f_from <= j <= f_to <= s@.len(),
            start <= b <= s@.len(),
            v@ == s@.subrange(start as int, b as int) + s@.subrange(f_from as int, j as int),
        decreases f_to - j,
    {
        proof {
            assert(s@.subrange(f_from as int, j as int).push(s@[j as int]) =~= s@.subrange(
                f_from as int,
                j as int + 1,
            ));
        }
        v.push(s.get_char(j));
        j = j + 1;
    }
    v
}

/// The truncated magnitude of a mantissa at a cut, when it fits the range.
#[verifier::rlimit(100)]
fn trunc_magnitude(mant: &Vec<char>, cut: i128) -> (r: Option<i64>)
    requires
        all_digits(mant@),
    ensures
        match r {
            Some(v) => 0 <= v <= FIXED_RAW_MAX && v as int == trunc_digits(mant@, cut as int),
            None => trunc_digits(mant@, cut as int) > FIXED_RAW_MAX as int,
        },
{
    let ghost md = mant@;
    let dn = mant.len();
    let z = scan_zeros(mant);
    if z == dn {
        proof {
            lemma_trunc_zeros(md, cut as int);
        }
        return Some(0);
    }
    proof {
        assert(is_digit(md[z as int]) && md[z as int] != '0');
        assert(digit_val(md[z as int]) >= 1);
    }
    if cut <= z as i128 {
        proof {
            lemma_trunc_zero_prefix(md, z as int, cut as int);
        }
        return Some(0);
    }
    if cut - (z as i128) > 16 {
        proof {
            lemma_trunc_lower(md, z as int, cut as int);
            lemma_pow10_mono(16, (cut - 1 - z) as nat);
            assert(pow10(16) == 10_000_000_000_000_000) by {
                reveal_with_fuel(pow10, 17);
            }
        }
        return None;
    }
    // At most sixteen digits stand past the leading zeros, so the kept
    // numeral fits comfortably.
    let m: usize = if cut <= dn as i128 {
        cut as usize
    } else {
        dn
    };
    let mut acc: i64 = 0;
    let mut i: usize = z;
    proof {
        assert(md.subrange(z as int, z as int) =~= Seq::<char>::empty());
    }
    while i < m
        invariant
            z <= i <= m,
            m <= dn,
            dn == mant@.len(),
            mant@ == md,
            all_digits(md),
            z < dn,
            forall|k: int| 0 <= k < z ==> md[k] == '0',
            m as i128 <= cut,
            cut - (z as i128) <= 16,
            (z as i128) < cut,
            0 <= acc,
            acc as int == digits_val(md.subrange(z as int, i as int)),
            (acc as int) < pow10((i - z) as nat),
        decreases m - i,
    {
        let ch = mant[i];
        proof {
            assert(is_digit(md[i as int]));
        }
        let d: i64 = (ch as u32 - '0' as u32) as i64;
        proof {
            let w2 = md.subrange(z as int, i as int + 1);
            assert(w2.drop_last() =~= md.subrange(z as int, i as int));
            assert(w2.last() == md[i as int]);
            assert(all_digits(w2));
            lemma_digits_val_bound(w2, w2.len() as int);
            assert(w2.take(w2.len() as int) =~= w2);
            lemma_pow10_mono((i - z) as nat, 15);
            assert(pow10(15) == 1_000_000_000_000_000) by {
                reveal_with_fuel(pow10, 16);
            }
        }
        acc = acc * 10 + d;
        i = i + 1;
    }
    proof {
        lemma_digits_val_zero_prefix(md.take(m as int), z as int);
        assert(md.take(m as int).subrange(z as int, m as int) =~= md.subrange(z as int, m as int));
        assert(acc as int == digits_val(md.take(m as int)));
        assert(((m as i128) - (m as i128)) as nat == 0);
        assert(pow10(0) == 1);
        assert(acc as int == digits_val(md.take(m as int)) * pow10(
            ((m as i128) - (m as i128)) as nat,
        ));
    }
    // Zeros pad the right when the cut runs past the mantissa.
    let mut t: i128 = m as i128;
    while t < cut
        invariant
            m as i128 <= t <= cut,
            cut - (z as i128) <= 16,
            (z as int) < m as int,
            m <= dn,
            dn == mant@.len(),
            mant@ == md,
            all_digits(md),
            0 <= acc,
            acc as int == digits_val(md.take(m as int)) * pow10((t - m as i128) as nat),
            (acc as int) < pow10((t - z as i128) as nat),
        decreases cut - t,
    {
        proof {
            assert(pow10((t + 1 - m as i128) as nat) == 10 * pow10((t - m as i128) as nat));
            lemma_pow10_mono((t - z as i128) as nat, 15);
            assert(pow10(15) == 1_000_000_000_000_000) by {
                reveal_with_fuel(pow10, 16);
            }
            assert(digits_val(md.take(m as int)) * (10 * pow10((t - m as i128) as nat)) == 10 * (
            digits_val(md.take(m as int)) * pow10((t - m as i128) as nat))) by (nonlinear_arith);
        }
        acc = acc * 10;
        t = t + 1;
    }
    proof {
        assert(t == cut);
        if cut <= dn as i128 {
            assert(m as int == cut as int);
            assert(((t - m as i128) as nat) == 0);
            assert(pow10(0) == 1);
            assert(acc as int == digits_val(md.take(m as int)));
            assert(acc as int == trunc_digits(md, cut as int));
        } else {
            assert(m == dn);
            assert(md.take(dn as int) =~= md);
            assert((cut as int - dn as int) == ((t - m as i128) as int));
            assert(acc as int == trunc_digits(md, cut as int));
        }
    }
    if acc > FIXED_RAW_MAX {
        return None;
    }
    Some(acc)
}

/// Parse decimal text into a fixed-point scalar.
///
/// Accepts plain and exponent notation (`-12.5`, `2.5e3`, `1E-2`),
/// truncating toward zero at four fractional places. Returns `None` when
/// the text does not match the grammar or its magnitude passes
/// `FIXED_RAW_MAX`.
#[verifier::rlimit(100)]
pub fn fixed_from_text(s: &str) -> (r: Option<i64>)
    ensures
        match r {
            Some(v) => fixed_text_in_range(s@) && v == fixed_text_val(s@) && -FIXED_RAW_MAX <= v
                <= FIXED_RAW_MAX,
            None => !fixed_text_in_range(s@),
        },
{
    let n = s.unicode_len();
    let neg = n > 0 && s.get_char(0) == '-';
    let start: usize = if neg {
        1
    } else {
        0
    };
    assert(start as int == sign_start(s@));
    let b = scan_digits(s, n, start);
    if b == start {
        return None;
    }
    // Fraction.
    let mut f_from: usize = b;
    let mut f_to: usize = b;
    if b < n && s.get_char(b) == '.' {
        let ft = scan_digits(s, n, b + 1);
        if ft == b + 1 {
            return None;
        }
        f_from = b + 1;
        f_to = ft;
    }
    proof {
        lemma_digits_end_range(s@, start as int);
        if f_to > b {
            lemma_digits_end_range(s@, b as int + 1);
        }
        assert(int_end(s@) == b as int);
        assert(frac_end(s@) == f_to as int);
    }
    // Exponent.
    let mut e_negv = false;
    let mut has_e = false;
    let mut e_from: usize = n;
    if f_to < n {
        let c0 = s.get_char(f_to);
        if !(c0 == 'e' || c0 == 'E') {
            return None;
        }
        has_e = true;
        let mut q = f_to + 1;
        if q < n {
            let sc = s.get_char(q);
            if sc == '+' || sc == '-' {
                e_negv = sc == '-';
                q = q + 1;
            }
        }
        if q >= n {
            return None;
        }
        let et = scan_digits(s, n, q);
        if et != n {
            return None;
        }
        e_from = q;
        proof {
            lemma_digits_end_range(s@, q as int);
        }
    }
    proof {
        assert(fixed_text_ok(s@));
        assert(has_exp(s@) == has_e);
        if has_e {
            assert(exp_digits_start(s@) == e_from as int);
            assert(exp_negative(s@) == e_negv);
        }
    }
    // Exponent magnitude, saturated once it dwarfs any digit count.
    let mut e_abs: u128 = 0;
    let mut e_huge = false;
    if has_e {
        let em = exp_magnitude(s, n, e_from);
        e_abs = em.0;
        e_huge = em.1;
        proof {
            assert(exp_digits(s@) =~= s@.subrange(e_from as int, n as int));
        }
    }
    // The mantissa digits, integer then fractional.
    let mant = mantissa_vec(s, start, b, f_from, f_to);
    let ghost md = mantissa_digits(s@);
    proof {
        if f_to == b {
            assert(s@.subrange(f_from as int, f_from as int) =~= Seq::<char>::empty());
        }
        assert(mant@ =~= md);
        assert(all_digits(md));
    }
    if e_huge {
        if e_negv {
            // The cut lies far left of every digit: everything truncates.
            proof {
                assert(fixed_cut(s@) <= 0);
                assert(trunc_digits(md, fixed_cut(s@)) == 0);
            }
            return Some(0);
        }
        // With any nonzero digit the magnitude dwarfs the range; a zero
        // mantissa is zero whatever the exponent says.
        let dn = mant.len();
        let z = scan_zeros(&mant);
        if z == dn {
            proof {
                lemma_trunc_zeros(md, fixed_cut(s@));
            }
            return Some(0);
        }
        proof {
            assert(is_digit(md[z as int]) && md[z as int] != '0');
            assert(digit_val(md[z as int]) >= 1);
            assert(fixed_cut(s@) - 1 - z >= 16);
            lemma_trunc_lower(md, z as int, fixed_cut(s@));
            lemma_pow10_mono(16, (fixed_cut(s@) - 1 - z) as nat);
            assert(pow10(16) == 10_000_000_000_000_000) by {
                reveal_with_fuel(pow10, 17);
            }
        }
        return None;
    }
    let e_i: i128 = if has_e {
        if e_negv {
            -(e_abs as i128)
        } else {
            e_abs as i128
        }
    } else {
        0
    };
    let ilen = b - start;
    let cut_i: i128 = ilen as i128 + 4 + e_i;
    proof {
        assert(cut_i as int == fixed_cut(s@));
    }
    match trunc_magnitude(&mant, cut_i) {
        Some(a) => {
            if neg {
                Some(-a)
            } else {
                Some(a)
            }
        },
        None => None,
    }
}

} // verus!
