//! Exact numeric model for textual trace values.
//!
//! Every numeric field of a trace event is a decimal string. Instead of
//! binary floating point, the verified core represents such a value as a
//! fixed-point integer scaled by `10^9` (nine fractional decimal digits),
//! and emits gauge values as exact fractions. Digits beyond the ninth
//! fractional place are ignored; integer parts must stay below `10^18`.

use vstd::prelude::*;

verus! {

/// Fixed-point scale: one unit is `10^-9` of the represented value.
pub const FP_SCALE: i128 = 1_000_000_000;

/// Magnitude bound on fixed-point values: `10^18 * FP_SCALE`.
pub const FP_LIMIT: i128 = 1_000_000_000_000_000_000_000_000_000;

/// An exact fraction `num / den`, the form in which gauge values are emitted.
#[derive(Clone, Copy, Debug, PartialEq, Eq, Structural)]
pub struct Frac {
    pub num: i128,
    pub den: i128,
}

impl Frac {
    /// A fraction is well formed when its denominator is positive.
    pub open spec fn wf(self) -> bool {
        self.den > 0
    }

    /// The fraction denoting a fixed-point value `v` (that is, `v / 10^9`).
    pub fn from_fp(v: i128) -> (r: Frac)
        ensures
            r.num == v,
            r.den == FP_SCALE,
            r.wf(),
    {
        Frac { num: v, den: FP_SCALE }
    }
}

pub open spec fn pow10(n: nat) -> int
    decreases n,
{
    if n == 0 {
        1
    } else {
        10 * pow10((n - 1) as nat)
    }
}

/// Concrete values of the powers of ten the proofs rely on.
pub proof fn lemma_pow10_vals()
    ensures
        pow10(0) == 1,
        pow10(6) == 1_000_000,
        pow10(8) == 100_000_000,
        pow10(9) == 1_000_000_000,
        pow10(18) == 1_000_000_000_000_000_000,
        pow10(27) == 1_000_000_000_000_000_000_000_000_000,
{
    assert(pow10(0) == 1);
    assert(pow10(1) == 10);
    assert(pow10(2) == 100);
    assert(pow10(3) == 1_000);
    assert(pow10(4) == 10_000);
    assert(pow10(5) == 100_000);
    assert(pow10(6) == 1_000_000);
    assert(pow10(7) == 10_000_000);
    assert(pow10(8) == 100_000_000);
    assert(pow10(9) == 1_000_000_000);
    assert(pow10(10) == 10_000_000_000);
    assert(pow10(11) == 100_000_000_000);
    assert(pow10(12) == 1_000_000_000_000);
    assert(pow10(13) == 10_000_000_000_000);
    assert(pow10(14) == 100_000_000_000_000);
    assert(pow10(15) == 1_000_000_000_000_000);
    assert(pow10(16) == 10_000_000_000_000_000);
    assert(pow10(17) == 100_000_000_000_000_000);
    assert(pow10(18) == 1_000_000_000_000_000_000);
    assert(pow10(19) == 10_000_000_000_000_000_000);
    assert(pow10(20) == 100_000_000_000_000_000_000);
    assert(pow10(21) == 1_000_000_000_000_000_000_000);
    assert(pow10(22) == 10_000_000_000_000_000_000_000);
    assert(pow10(23) == 100_000_000_000_000_000_000_000);
    assert(pow10(24) == 1_000_000_000_000_000_000_000_000);
    assert(pow10(25) == 10_000_000_000_000_000_000_000_000);
    assert(pow10(26) == 100_000_000_000_000_000_000_000_000);
    assert(pow10(27) == 1_000_000_000_000_000_000_000_000_000);
}

pub proof fn lemma_pow10_pos(n: nat)
    ensures
        pow10(n) >= 1,
    decreases n,
{
    if n > 0 {
        lemma_pow10_pos((n - 1) as nat);
    }
}

pub open spec fn is_dec_digit(c: char) -> bool {
    c == '0' || c == '1' || c == '2' || c == '3' || c == '4' || c == '5' || c == '6' || c == '7'
        || c == '8' || c == '9'
}

pub open spec fn digit_val(c: char) -> int {
    if c == '0' {
        0
    } else if c == '1' {
        1
    } else if c == '2' {
        2
    } else if c == '3' {
        3
    } else if c == '4' {
        4
    } else if c == '5' {
        5
    } else if c == '6' {
        6
    } else if c == '7' {
        7
    } else if c == '8' {
        8
    } else {
        9
    }
}

pub open spec fn all_digits(s: Seq<char>) -> bool {
    forall|i: int| 0 <= i < s.len() ==> is_dec_digit(#[trigger] s[i])
}

/// Value of a digit string read most-significant first.
pub open spec fn digits_val(s: Seq<char>) -> int
    decreases s.len(),
{
    if s.len() == 0 {
        0
    } else {
        digits_val(s.drop_last()) * 10 + digit_val(s.last())
    }
}

pub proof fn lemma_digits_val_nonneg(s: Seq<char>)
    requires
        all_digits(s),
    ensures
        digits_val(s) >= 0,
    decreases s.len(),
{
    if s.len() > 0 {
        assert(all_digits(s.drop_last()));
        lemma_digits_val_nonneg(s.drop_last());
    }
}

/// Splitting a digit string: the prefix is scaled by `10^|suffix|`.
pub proof fn lemma_digits_val_append(s: Seq<char>, t: Seq<char>)
    ensures
        digits_val(s + t) == digits_val(s) * pow10(t.len()) + digits_val(t),
    decreases t.len(),
{
    if t.len() == 0 {
        assert(s + t =~= s);
        assert(pow10(0) == 1);
    } else {
        lemma_digits_val_append(s, t.drop_last());
        assert((s + t).drop_last() =~= s + t.drop_last());
        assert((s + t).last() == t.last());
        let a = digits_val(s);
        let p = pow10((t.len() - 1) as nat);
        let b = digits_val(t.drop_last());
        assert((a * p + b) * 10 == a * (10 * p) + b * 10) by (nonlinear_arith);
        assert(pow10(t.len()) == 10 * p);
    }
}

/// A digit-string prefix never exceeds the whole string's value.
pub proof fn lemma_digits_val_prefix_le(s: Seq<char>, n: int)
    requires
        all_digits(s),
        0 <= n <= s.len(),
    ensures
        digits_val(s.take(n)) <= digits_val(s),
{
    let rest = s.skip(n);
    assert(s.take(n) + rest =~= s);
    lemma_digits_val_append(s.take(n), rest);
    assert(all_digits(rest));
    lemma_digits_val_nonneg(rest);
    assert(all_digits(s.take(n)));
    lemma_digits_val_nonneg(s.take(n));
    lemma_pow10_pos(rest.len());
    assert(digits_val(s.take(n)) * pow10(rest.len()) >= digits_val(s.take(n)) * 1) by (
        nonlinear_arith)
        requires
            digits_val(s.take(n)) >= 0,
            pow10(rest.len()) >= 1,
    ;
}

/// A digit string's value is below `10^len`.
pub proof fn lemma_all_digits_val_bound(s: Seq<char>)
    requires
        all_digits(s),
    ensures
        0 <= digits_val(s) < pow10(s.len()),
    decreases s.len(),
{
    if s.len() == 0 {
    } else {
        assert(all_digits(s.drop_last()));
        lemma_all_digits_val_bound(s.drop_last());
        assert(digits_val(s.drop_last()) * 10 <= (pow10((s.len() - 1) as nat) - 1) * 10) by (
            nonlinear_arith)
            requires
                digits_val(s.drop_last()) <= pow10((s.len() - 1) as nat) - 1,
        ;
    }
}

pub proof fn lemma_pow10_add(a: nat, b: nat)
    ensures
        pow10(a) * pow10(b) == pow10(a + b),
    decreases a,
{
    if a == 0 {
    } else {
        lemma_pow10_add((a - 1) as nat, b);
        assert(pow10(a) * pow10(b) == 10 * (pow10((a - 1) as nat) * pow10(b))) by (nonlinear_arith)
            requires
                pow10(a) == 10 * pow10((a - 1) as nat),
        ;
    }
}

/// Fractional digits scaled to exactly nine decimal places; digits beyond
/// the ninth are ignored.
pub open spec fn frac9_val(s: Seq<char>) -> int {
    if s.len() >= 9 {
        digits_val(s.take(9))
    } else {
        digits_val(s) * pow10((9 - s.len()) as nat)
    }
}

proof fn lemma_frac9_val_bound(s: Seq<char>)
    requires
        all_digits(s),
    ensures
        0 <= frac9_val(s) < pow10(9),
{
    if s.len() >= 9 {
        assert(all_digits(s.take(9)));
        lemma_all_digits_val_bound(s.take(9));
    } else {
        lemma_all_digits_val_bound(s);
        let k = (9 - s.len()) as nat;
        lemma_pow10_add(s.len(), k);
        lemma_pow10_pos(k);
        lemma_pow10_pos(s.len());
        assert(0 <= digits_val(s) * pow10(k) <= (pow10(s.len()) - 1) * pow10(k)) by (
            nonlinear_arith)
            requires
                0 <= digits_val(s) <= pow10(s.len()) - 1,
                pow10(k) >= 1,
        ;
        assert((pow10(s.len()) - 1) * pow10(k) < pow10(s.len()) * pow10(k)) by (nonlinear_arith)
            requires
                pow10(k) >= 1,
        ;
    }
}

/// Index of the first `'.'` in `s`, or `s.len()` if there is none.
pub open spec fn first_dot(s: Seq<char>) -> int
    decreases s.len(),
{
    if s.len() == 0 {
        0
    } else if s[0] == '.' {
        0
    } else {
        1 + first_dot(s.skip(1))
    }
}

pub proof fn lemma_first_dot_bounds(s: Seq<char>)
    ensures
        0 <= first_dot(s) <= s.len(),
        forall|i: int| 0 <= i < first_dot(s) ==> s[i] != '.',
        first_dot(s) < s.len() ==> s[first_dot(s)] == '.',
    decreases s.len(),
{
    if s.len() > 0 && s[0] != '.' {
        lemma_first_dot_bounds(s.skip(1));
        assert forall|i: int| 0 <= i < first_dot(s) implies s[i] != '.' by {
            if i >= 1 {
                assert(s.skip(1)[i - 1] == s[i]);
            }
        }
        if first_dot(s) < s.len() {
            assert(s.skip(1)[first_dot(s) - 1] == s[first_dot(s)]);
        }
    }
}

/// If no dot occurs among the first `k` characters, the first dot is at `k`
/// or later.
proof fn lemma_no_dot_prefix(s: Seq<char>, k: int)
    requires
        0 <= k <= s.len(),
        forall|j: int| 0 <= j < k ==> #[trigger] s[j] != '.',
    ensures
        first_dot(s) >= k,
{
    lemma_first_dot_bounds(s);
    if first_dot(s) < k {
        assert(s[first_dot(s)] == '.');
    }
}

/// The fixed-point reading of a decimal string: an optional sign, one or
/// more integer digits, and an optional fraction introduced by `'.'`.
/// `None` when the string does not fit that grammar or its integer part
/// reaches `10^18`.
pub open spec fn fp_value_of(s: Seq<char>) -> Option<int> {
    let signed = s.len() > 0 && (s[0] == '-' || s[0] == '+');
    let neg = s.len() > 0 && s[0] == '-';
    let body = if signed {
        s.skip(1)
    } else {
        s
    };
    let d = first_dot(body);
    let ip = body.take(d);
    let fr = if d == body.len() {
        Seq::<char>::empty()
    } else {
        body.skip(d + 1)
    };
    if ip.len() >= 1 && all_digits(ip) && all_digits(fr) && digits_val(ip) < pow10(18) {
        let mag = digits_val(ip) * pow10(9) + frac9_val(fr);
        Some(
            if neg {
                -mag
            } else {
                mag
            },
        )
    } else {
        None
    }
}

/// The `u64` reading of a decimal string: an optional `'+'` and one or more
/// digits whose value fits in a `u64`.
pub open spec fn u64_value_of(s: Seq<char>) -> Option<int> {
    let body = if s.len() > 0 && s[0] == '+' {
        s.skip(1)
    } else {
        s
    };
    if body.len() >= 1 && all_digits(body) && digits_val(body) <= u64::MAX {
        Some(digits_val(body))
    } else {
        None
    }
}

/// Decimal digit string of `n`, most significant digit first.
pub open spec fn dec_digits_of(n: nat) -> Seq<char>
    decreases n,
{
    if n < 10 {
        seq![digit_char(n as int)]
    } else {
        dec_digits_of(n / 10).push(digit_char(n as int % 10))
    }
}

pub open spec fn digit_char(d: int) -> char {
    if d == 0 {
        '0'
    } else if d == 1 {
        '1'
    } else if d == 2 {
        '2'
    } else if d == 3 {
        '3'
    } else if d == 4 {
        '4'
    } else if d == 5 {
        '5'
    } else if d == 6 {
        '6'
    } else if d == 7 {
        '7'
    } else if d == 8 {
        '8'
    } else {
        '9'
    }
}

fn digit_str(d: u64) -> (r: &'static str)
    requires
        d < 10,
    ensures
        r@ =~= seq![digit_char(d as int)],
{
    proof {
        reveal_strlit("0");
        reveal_strlit("1");
        reveal_strlit("2");
        reveal_strlit("3");
        reveal_strlit("4");
        reveal_strlit("5");
        reveal_strlit("6");
        reveal_strlit("7");
        reveal_strlit("8");
        reveal_strlit("9");
    }
    match d {
        0 => "0",
        1 => "1",
        2 => "2",
        3 => "3",
        4 => "4",
        5 => "5",
        6 => "6",
        7 => "7",
        8 => "8",
        _ => "9",
    }
}

/// Render `n` in decimal, most significant digit first.
pub fn u64_to_string(n: u64) -> (r: String)
    ensures
        r@ == dec_digits_of(n as nat),
    decreases n,
{
    if n < 10 {
        String::from_str(digit_str(n))
    } else {
        let prefix = u64_to_string(n / 10);
        let r = prefix.concat(digit_str(n % 10));
        proof {
            assert(r@ =~= dec_digits_of((n / 10) as nat).push(digit_char(n as int % 10)));
        }
        r
    }
}

fn digit_of_char(c: char) -> (r: Option<u64>)
    ensures
        match r {
            Some(d) => is_dec_digit(c) && d == digit_val(c) && d < 10,
            None => !is_dec_digit(c),
        },
{
    match c {
        '0' => Some(0),
        '1' => Some(1),
        '2' => Some(2),
        '3' => Some(3),
        '4' => Some(4),
        '5' => Some(5),
        '6' => Some(6),
        '7' => Some(7),
        '8' => Some(8),
        '9' => Some(9),
        _ => None,
    }
}

fn pow10_i128(n: u64) -> (r: i128)
    requires
        n <= 9,
    ensures
        r == pow10(n as nat),
        1 <= r <= 1_000_000_000,
{
    proof {
        lemma_pow10_vals();
        assert(pow10(1) == 10);
        assert(pow10(2) == 100);
        assert(pow10(3) == 1_000);
        assert(pow10(4) == 10_000);
        assert(pow10(5) == 100_000);
        assert(pow10(6) == 1_000_000);
        assert(pow10(7) == 10_000_000);
    }
    match n {
        0 => 1,
        1 => 10,
        2 => 100,
        3 => 1_000,
        4 => 10_000,
        5 => 100_000,
        6 => 1_000_000,
        7 => 10_000_000,
        8 => 100_000_000,
        _ => 1_000_000_000,
    }
}

/// Parse a decimal string as a fixed-point value; exactly the reading
/// given by [`fp_value_of`].
pub fn parse_fp(s: &str) -> (r: Option<i128>)
    ensures
        match r {
            Some(v) => fp_value_of(s@) == Some(v as int),
            None => fp_value_of(s@) is None,
        },
        r is Some ==> -FP_LIMIT < r.unwrap() < FP_LIMIT,
{
    let len = s.unicode_len();
    let mut idx: usize = 0;
    let mut neg = false;
    if len > 0 {
        let c0 = s.get_char(0);
        if c0 == '-' {
            neg = true;
            idx = 1;
        } else if c0 == '+' {
            idx = 1;
        }
    }
    let ghost body = s@.skip(idx as int);
    proof {
        if idx == 0 {
            assert(s@.skip(0) =~= s@);
        }
    }
    // Integer part: scan digits up to the first dot or the end.
    let mut val: i128 = 0;
    let mut i: usize = idx;
    while i < len && s.get_char(i) != '.'
        invariant
            idx <= i <= len,
            len == s@.len(),
            idx <= 1,
            (idx == 1) == (s@.len() > 0 && (s@[0] == '-' || s@[0] == '+')),
            body == s@.skip(idx as int),
            body == (if s@.len() > 0 && (s@[0] == '-' || s@[0] == '+') {
                s@.skip(1)
            } else {
                s@
            }),
            all_digits(s@.subrange(idx as int, i as int)),
            val == digits_val(s@.subrange(idx as int, i as int)),
            0 <= val < 1_000_000_000_000_000_000,
            forall|j: int| idx <= j < i ==> s@[j] != '.',
        decreases len - i,
    {
        let c = s.get_char(i);
        proof {
            assert forall|j: int| 0 <= j < i + 1 - idx implies #[trigger] body[j] != '.' by {
                assert(body[j] == s@[j + idx]);
            }
            lemma_no_dot_prefix(body, i + 1 - idx);
            lemma_first_dot_bounds(body);
        }
        let d = match digit_of_char(c) {
            Some(d) => d,
            None => {
                proof {
                    let dl = first_dot(body);
                    let ip = body.take(dl);
                    assert(ip[i - idx] == body[i - idx]);
                    assert(body[i - idx] == s@[i as int]);
                    assert(!is_dec_digit(ip[i - idx]));
                }
                return None;
            },
        };
        let new_val = val * 10 + (d as i128);
        proof {
            let pre = s@.subrange(idx as int, i as int);
            let ext = s@.subrange(idx as int, i + 1);
            assert(ext.drop_last() =~= pre);
            assert(ext.last() == s@[i as int]);
        }
        if new_val >= 1_000_000_000_000_000_000 {
            proof {
                // The digits seen so far are a prefix of the integer part,
                // so the whole integer part is at least this large.
                let dl = first_dot(body);
                let ip = body.take(dl);
                assert(s@.subrange(idx as int, i + 1) =~= ip.take(i + 1 - idx));
                if all_digits(ip) {
                    lemma_digits_val_prefix_le(ip, i + 1 - idx);
                    lemma_pow10_vals();
                }
            }
            return None;
        }
        val = new_val;
        i = i + 1;
    }
    let ghost dl = first_dot(body);
    proof {
        assert forall|j: int| 0 <= j < i - idx implies #[trigger] body[j] != '.' by {
            assert(body[j] == s@[j + idx]);
        }
        lemma_no_dot_prefix(body, i - idx);
        lemma_first_dot_bounds(body);
        if i < len {
            assert(body[i - idx] == s@[i as int]);
            assert(dl == i - idx);
        } else {
            assert(dl == body.len());
        }
        assert(body.take(dl) =~= s@.subrange(idx as int, i as int));
    }
    if i == idx {
        // No integer digits.
        return None;
    }
    // Fraction part, if any: the first nine digits carry value.
    let ghost frs = if dl == body.len() {
        Seq::<char>::empty()
    } else {
        body.skip(dl + 1)
    };
    let mut frac: i128 = 0;
    let mut scale: u64 = 9;
    if i < len {
        proof {
            assert(frs =~= s@.skip(i + 1));
        }
        let mut j: usize = i + 1;
        while j < len
            invariant
                i + 1 <= j <= len,
                len == s@.len(),
                idx <= i < len,
                idx <= 1,
                (idx == 1) == (s@.len() > 0 && (s@[0] == '-' || s@[0] == '+')),
                body == s@.skip(idx as int),
                body == (if s@.len() > 0 && (s@[0] == '-' || s@[0] == '+') {
                    s@.skip(1)
                } else {
                    s@
                }),
                dl == first_dot(body),
                dl == i - idx,
                frs == body.skip(dl + 1),
                frs == s@.skip(i + 1),
                all_digits(s@.subrange(i + 1, j as int)),
                scale == if j - i - 1 < 9 {
                    9 - (j - i - 1)
                } else {
                    0int
                },
                frac == if j - i - 1 <= 9 {
                    digits_val(s@.subrange(i + 1, j as int))
                } else {
                    digits_val(s@.subrange(i + 1, i + 10))
                },
                0 <= frac <= 999_999_999,
            decreases len - j,
    {
            let c = s.get_char(j);
            let d = match digit_of_char(c) {
                Some(d) => d,
                None => {
                    proof {
                        assert(frs[j - i - 1] == s@[j as int]);
                        assert(!is_dec_digit(frs[j - i - 1]));
                    }
                    return None;
                },
            };
            proof {
                let pre = s@.subrange(i + 1, j as int);
                let ext = s@.subrange(i + 1, j + 1);
                assert(ext.drop_last() =~= pre);
                assert(ext.last() == s@[j as int]);
            }
            if j - i - 1 < 9 {
                proof {
                    let pre = s@.subrange(i + 1, j as int);
                    lemma_all_digits_val_bound(pre);
                    lemma_pow10_vals();
                    lemma_pow10_le(pre.len(), 8);
                }
                frac = frac * 10 + (d as i128);
                scale = scale - 1;
                proof {
                    if j + 1 - i - 1 == 9 {
                        assert(s@.subrange(i + 1, j + 1) =~= s@.subrange(i + 1, i + 10));
                    }
                }
            } else {
                proof {
                    assert(s@.subrange(i + 1, i + 10) =~= s@.subrange(i + 1, j + 1).subrange(0, 9));
                }
            }
            j = j + 1;
        }
        proof {
            assert(s@.subrange(i + 1, len as int) =~= s@.skip(i + 1));
            if frs.len() >= 9 {
                assert(frs.take(9) =~= s@.subrange(i + 1, i + 10));
            }
        }
    }
    proof {
        lemma_pow10_vals();
        if i == len {
            assert(frs =~= Seq::<char>::empty());
        }
        lemma_frac9_val_bound_if(frs);
    }
    let p = pow10_i128(scale);
    proof {
        assert(frac * p <= 999_999_999 * 1_000_000_000) by (nonlinear_arith)
            requires
                0 <= frac <= 999_999_999,
                1 <= p <= 1_000_000_000,
        ;
        assert(frac * p >= 0) by (nonlinear_arith)
            requires
                frac >= 0,
                p >= 1,
        ;
    }
    let frac_scaled = frac * p;
    proof {
        // frac_scaled equals the nine-place fraction value.
        if i < len {
            if frs.len() >= 9 {
                assert(scale == 0);
                assert(frac_scaled == frac9_val(frs));
            } else {
                assert(frac == digits_val(frs));
                assert(scale == 9 - frs.len());
                assert(frac_scaled == frac9_val(frs));
            }
        } else {
            assert(frac_scaled == 0);
            assert(frac9_val(frs) == 0);
        }
        assert(val * 1_000_000_000 <= 999_999_999_999_999_999 * 1_000_000_000) by (nonlinear_arith)
            requires
                0 <= val <= 999_999_999_999_999_999,
        ;
        assert(val * 1_000_000_000 >= 0) by (nonlinear_arith)
            requires
                val >= 0,
        ;
    }
    let mag = val * 1_000_000_000 + frac_scaled;
    proof {
        let ip = body.take(dl);
        assert(digits_val(ip) == val);
        assert(ip.len() >= 1);
        assert(fp_value_of(s@) is Some);
        assert(fp_value_of(s@).unwrap() == if neg {
            -(val * pow10(9) + frac9_val(frs))
        } else {
            val * pow10(9) + frac9_val(frs)
        });
    }
    if neg {
        Some(-mag)
    } else {
        Some(mag)
    }
}

proof fn lemma_frac9_val_bound_if(s: Seq<char>)
    ensures
        all_digits(s) ==> 0 <= frac9_val(s) < pow10(9),
{
    if all_digits(s) {
        lemma_frac9_val_bound(s);
    }
}

pub proof fn lemma_pow10_le(a: nat, b: nat)
    requires
        a <= b,
    ensures
        pow10(a) <= pow10(b),
    decreases b,
{
    if a < b {
        lemma_pow10_le(a, (b - 1) as nat);
        lemma_pow10_pos((b - 1) as nat);
    }
}

/// Parse a decimal string as a `u64`; exactly the reading given by
/// [`u64_value_of`].
pub fn parse_u64(s: &str) -> (r: Option<u64>)
    ensures
        match r {
            Some(v) => u64_value_of(s@) == Some(v as int),
            None => u64_value_of(s@) is None,
        },
{
    let len = s.unicode_len();
    let mut idx: usize = 0;
    if len > 0 && s.get_char(0) == '+' {
        idx = 1;
    }
    let ghost body = s@.skip(idx as int);
    proof {
        if idx == 0 {
            assert(s@.skip(0) =~= s@);
        }
    }
    if idx == len {
        proof {
            assert(body.len() == 0);
        }
        return None;
    }
    let mut val: u64 = 0;
    let mut i: usize = idx;
    while i < len
        invariant
            idx <= i <= len,
            len == s@.len(),
            idx <= 1,
            (idx == 1) == (s@.len() > 0 && s@[0] == '+'),
            body == s@.skip(idx as int),
            body == (if s@.len() > 0 && s@[0] == '+' {
                s@.skip(1)
            } else {
                s@
            }),
            all_digits(s@.subrange(idx as int, i as int)),
            val == digits_val(s@.subrange(idx as int, i as int)),
        decreases len - i,
    {
        let c = s.get_char(i);
        let d = match digit_of_char(c) {
            Some(d) => d,
            None => {
                proof {
                    assert(body[i - idx] == s@[i as int]);
                    assert(!is_dec_digit(body[i - idx]));
                }
                return None;
            },
        };
        proof {
            let pre = s@.subrange(idx as int, i as int);
            let ext = s@.subrange(idx as int, i + 1);
            assert(ext.drop_last() =~= pre);
            assert(ext.last() == s@[i as int]);
        }
        let next = match val.checked_mul(10) {
            Some(m) => m.checked_add(d),
            None => None,
        };
        match next {
            Some(v) => {
                val = v;
            },
            None => {
                proof {
                    assert(s@.subrange(idx as int, i + 1) =~= body.take(i + 1 - idx));
                    if all_digits(body) {
                        lemma_digits_val_prefix_le(body, i + 1 - idx);
                    }
                }
                return None;
            },
        }
        i = i + 1;
    }
    proof {
        assert(body =~= s@.subrange(idx as int, len as int));
    }
    Some(val)
}

/// Absolute value.
pub open spec fn sabs(a: int) -> int {
    if a >= 0 {
        a
    } else {
        -a
    }
}

/// Truncating fixed-point division: the quotient of two fixed-point values
/// as a fixed-point value, rounded toward zero.
pub open spec fn fp_div_val(v: int, e: int) -> int {
    let mag = (sabs(v) * FP_SCALE) / sabs(e);
    if (v < 0) != (e < 0) {
        -mag
    } else {
        mag
    }
}

/// Divide two fixed-point values; `None` for a zero divisor or a quotient
/// out of range.
pub fn fp_div(v: i128, e: i128) -> (r: Option<i128>)
    requires
        -FP_LIMIT < v < FP_LIMIT,
        -FP_LIMIT < e < FP_LIMIT,
    ensures
        match r {
            Some(q) => e != 0 && q == fp_div_val(v as int, e as int) && -FP_LIMIT < q < FP_LIMIT,
            None => e == 0 || sabs(fp_div_val(v as int, e as int)) >= FP_LIMIT,
        },
{
    if e == 0 {
        return None;
    }
    let neg = (v < 0) != (e < 0);
    let mv: u128 = if v < 0 {
        (-v) as u128
    } else {
        v as u128
    };
    let me: u128 = if e < 0 {
        (-e) as u128
    } else {
        e as u128
    };
    proof {
        lemma_pow10_vals();
        assert(mv * 1_000_000_000 < 1_000_000_000_000_000_000_000_000_000u128 * 1_000_000_000) by (
            nonlinear_arith)
            requires
                mv < 1_000_000_000_000_000_000_000_000_000u128,
        ;
    }
    let q = (mv * 1_000_000_000) / me;
    proof {
        assert(q == (sabs(v as int) * FP_SCALE) / sabs(e as int));
    }
    if q >= 1_000_000_000_000_000_000_000_000_000 {
        return None;
    }
    if neg {
        Some(-(q as i128))
    } else {
        Some(q as i128)
    }
}

/// Rendering then reading digits is the identity.
pub proof fn lemma_dec_digits_val(n: nat)
    ensures
        all_digits(dec_digits_of(n)),
        digits_val(dec_digits_of(n)) == n,
        dec_digits_of(n).len() >= 1,
        dec_digits_of(n)[0] != '-' && dec_digits_of(n)[0] != '+',
    decreases n,
{
    if n < 10 {
        assert(dec_digits_of(n) =~= seq![digit_char(n as int)]);
        assert(dec_digits_of(n).drop_last() =~= Seq::<char>::empty());
        assert(digits_val(Seq::<char>::empty()) == 0);
    } else {
        lemma_dec_digits_val(n / 10);
        let d = dec_digits_of(n);
        assert(d =~= dec_digits_of(n / 10).push(digit_char(n as int % 10)));
        assert(d.drop_last() =~= dec_digits_of(n / 10));
        assert(d.last() == digit_char(n as int % 10));
        assert(digit_val(digit_char(n as int % 10)) == n as int % 10);
        assert(d[0] == dec_digits_of(n / 10)[0]);
    }
}

} // verus!
