//! Byte-level parsing helpers for the topology file format.
//!
//! One line of a topology file reads `mixid, weight, is_malicious, layer`.
//! Fields are split on commas, trimmed of ASCII whitespace and lowercased
//! before being read as numbers or booleans.  Weights are decimal numbers
//! held in fixed point with [`WEIGHT_FRAC_DIGITS`] fractional digits.

use vstd::prelude::*;

verus! {

/// Number of decimal fractional digits a weight keeps.
pub const WEIGHT_FRAC_DIGITS: u32 = 16;

/// Fixed-point scale for weights: `10^WEIGHT_FRAC_DIGITS`.
pub const WEIGHT_SCALE: u128 = 10_000_000_000_000_000;

pub const BYTE_COMMA: u8 = 0x2c;
pub const BYTE_UNDERSCORE: u8 = 0x5f;
pub const BYTE_E_LOWER: u8 = 0x65;
pub const BYTE_E_UPPER: u8 = 0x45;
pub const BYTE_DOT: u8 = 0x2e;
pub const BYTE_PLUS: u8 = 0x2b;
pub const BYTE_MINUS: u8 = 0x2d;

pub open spec fn is_ascii_digit(b: u8) -> bool {
    0x30 <= b && b <= 0x39
}

pub open spec fn all_digits(s: Seq<u8>) -> bool {
    forall|i: int| 0 <= i < s.len() ==> is_ascii_digit(#[trigger] s[i])
}

/// Value of a string of decimal digits, most significant first.
pub open spec fn digits_value(s: Seq<u8>) -> int
    decreases s.len(),
{
    if s.len() == 0 {
        0
    } else {
        digits_value(s.drop_last()) * 10 + s.last() - 0x30
    }
}

pub open spec fn pow10(n: nat) -> int
    decreases n,
{
    if n == 0 {
        1
    } else {
        10 * pow10((n - 1) as nat)
    }
}

/// ASCII whitespace, the characters `str::trim` removes from ASCII text.
pub open spec fn is_ascii_ws(b: u8) -> bool {
    b == 0x20 || (0x09 <= b && b <= 0x0d)
}

pub open spec fn trim_front(s: Seq<u8>) -> Seq<u8>
    decreases s.len(),
{
    if s.len() > 0 && is_ascii_ws(s[0]) {
        trim_front(s.subrange(1, s.len() as int))
    } else {
        s
    }
}

pub open spec fn trim_back(s: Seq<u8>) -> Seq<u8>
    decreases s.len(),
{
    if s.len() > 0 && is_ascii_ws(s.last()) {
        trim_back(s.drop_last())
    } else {
        s
    }
}

pub open spec fn trim_bytes(s: Seq<u8>) -> Seq<u8> {
    trim_back(trim_front(s))
}

pub open spec fn to_lower_byte(b: u8) -> u8 {
    if 0x41 <= b && b <= 0x5a {
        (b + 0x20) as u8
    } else {
        b
    }
}

pub open spec fn to_lower(s: Seq<u8>) -> Seq<u8> {
    s.map_values(|b: u8| to_lower_byte(b))
}

/// A field as the parser sees it: trimmed, then lowercased.
pub open spec fn norm_field(s: Seq<u8>) -> Seq<u8> {
    to_lower(trim_bytes(s))
}

/// Splitting on a separator, as `str::split(c)` does: an empty input
/// gives one empty field, and every separator starts a new field.
pub open spec fn split_sep(s: Seq<u8>, sep: u8) -> Seq<Seq<u8>>
    decreases s.len(),
{
    if s.len() == 0 {
        seq![Seq::<u8>::empty()]
    } else if s[0] == sep {
        seq![Seq::<u8>::empty()].add(split_sep(s.subrange(1, s.len() as int), sep))
    } else {
        let rest = split_sep(s.subrange(1, s.len() as int), sep);
        seq![seq![s[0]].add(rest[0])].add(rest.subrange(1, rest.len() as int))
    }
}

/// Splitting on commas, the shape of a topology line.
pub open spec fn split_commas(s: Seq<u8>) -> Seq<Seq<u8>> {
    split_sep(s, BYTE_COMMA)
}

pub proof fn lemma_split_sep_len(s: Seq<u8>, sep: u8)
    ensures
        split_sep(s, sep).len() >= 1,
    decreases s.len(),
{
    if s.len() > 0 {
        lemma_split_sep_len(s.subrange(1, s.len() as int), sep);
    }
}

/// If the first `k` bytes hold no separator and byte `k` (if any) is one,
/// the split is the first `k` bytes followed by the split of the remainder.
pub proof fn lemma_split_sep_step(s: Seq<u8>, sep: u8, k: int)
    requires
        0 <= k <= s.len(),
        forall|i: int| 0 <= i < k ==> s[i] != sep,
        k < s.len() ==> s[k] == sep,
    ensures
        k == s.len() ==> split_sep(s, sep) =~~= seq![s],
        k < s.len() ==> split_sep(s, sep) =~~= seq![s.subrange(0, k)].add(
            split_sep(s.subrange(k + 1, s.len() as int), sep),
        ),
    decreases k,
{
    lemma_split_sep_len(s, sep);
    if k == 0 {
        if s.len() == 0 {
            assert(s =~= Seq::<u8>::empty());
            assert(split_sep(s, sep) =~~= seq![s]);
        } else {
            assert(s.subrange(1, s.len() as int) =~= s.subrange(k + 1, s.len() as int));
            assert(s.subrange(0, 0) =~= Seq::<u8>::empty());
            assert(split_sep(s, sep) =~~= seq![s.subrange(0, 0)].add(
                split_sep(s.subrange(1, s.len() as int), sep),
            ));
        }
    } else {
        let t = s.subrange(1, s.len() as int);
        lemma_split_sep_step(t, sep, k - 1);
        lemma_split_sep_len(t, sep);
        let rest = split_sep(t, sep);
        if k == s.len() {
            assert(rest =~~= seq![t]);
            assert(seq![s[0]].add(rest[0]) =~= s);
            assert(split_sep(s, sep) =~~= seq![s]);
        } else {
            assert(t.subrange(k - 1, t.len() as int) =~= s.subrange(k, s.len() as int));
            assert(t.subrange(k, t.len() as int) =~= s.subrange(k + 1, s.len() as int));
            assert(rest =~~= seq![t.subrange(0, k - 1)].add(
                split_sep(t.subrange(k, t.len() as int), sep),
            ));
            assert(seq![s[0]].add(rest[0]) =~= s.subrange(0, k));
            assert(rest.subrange(1, rest.len() as int) =~~= split_sep(
                s.subrange(k + 1, s.len() as int), sep,
            ));
            assert(split_sep(s, sep) =~~= seq![s.subrange(0, k)].add(
                split_sep(s.subrange(k + 1, s.len() as int), sep),
            ));
        }
    }
}

pub proof fn lemma_digits_value_nonneg(s: Seq<u8>)
    requires
        all_digits(s),
    ensures
        digits_value(s) >= 0,
    decreases s.len(),
{
    if s.len() > 0 {
        assert(all_digits(s.drop_last())) by {
            assert(forall|i: int|
                0 <= i < s.len() - 1 ==> is_ascii_digit(#[trigger] s.drop_last()[i]));
        }
        lemma_digits_value_nonneg(s.drop_last());
    }
}

pub proof fn lemma_digits_value_bound(s: Seq<u8>)
    requires
        all_digits(s),
    ensures
        0 <= digits_value(s) < pow10(s.len()),
    decreases s.len(),
{
    if s.len() > 0 {
        assert(all_digits(s.drop_last())) by {
            assert(forall|i: int|
                0 <= i < s.len() - 1 ==> is_ascii_digit(#[trigger] s.drop_last()[i]));
        }
        lemma_digits_value_bound(s.drop_last());
    }
}

/// A digit string is worth at least any of its prefixes.
pub proof fn lemma_digits_value_prefix(s: Seq<u8>, i: int)
    requires
        all_digits(s),
        0 <= i <= s.len(),
    ensures
        digits_value(s.subrange(0, i)) <= digits_value(s),
    decreases s.len() - i,
{
    if i < s.len() {
        let p = s.subrange(0, i + 1);
        assert(p.drop_last() =~= s.subrange(0, i));
        assert(all_digits(p.drop_last()));
        lemma_digits_value_nonneg(p.drop_last());
        assert(digits_value(s.subrange(0, i)) <= digits_value(p));
        lemma_digits_value_prefix(s, i + 1);
        assert(s.subrange(0, i + 1) =~= p);
    } else {
        assert(s.subrange(0, i) =~= s);
    }
}

/// Read an unsigned decimal digit string into a `u128`.
pub fn parse_digits_u128(s: &[u8]) -> (r: Option<u128>)
    ensures
        r is Some <==> (s@.len() > 0 && all_digits(s@) && digits_value(s@) <= u128::MAX),
        r is Some ==> r->0 == digits_value(s@),
{
    let n = s.len();
    if n == 0 {
        return None;
    }
    let mut acc: u128 = 0;
    let mut i: usize = 0;
    while i < n
        invariant
            0 <= i <= n,
            n == s@.len(),
            all_digits(s@.subrange(0, i as int)),
            acc == digits_value(s@.subrange(0, i as int)),
        decreases n - i,
    {
        let b = s[i];
        if b < 0x30 || b > 0x39 {
            assert(!is_ascii_digit(s@[i as int]));
            return None;
        }
        let d: u128 = (b - 0x30) as u128;
        proof {
            assert(s@.subrange(0, i + 1).drop_last() =~= s@.subrange(0, i as int));
            assert(all_digits(s@.subrange(0, i + 1)));
        }
        if acc > (u128::MAX - d) / 10 {
            proof {
                assert(acc * 10 + d > u128::MAX) by (nonlinear_arith)
                    requires
                        acc > (u128::MAX - d) / 10,
                        0 <= d <= 9,
                ;
                if all_digits(s@) {
                    lemma_digits_value_prefix(s@, i + 1);
                }
            }
            return None;
        }
        proof {
            assert(acc * 10 + d <= u128::MAX) by (nonlinear_arith)
                requires
                    acc <= (u128::MAX - d) / 10,
                    0 <= d <= 9,
            ;
        }
        acc = acc * 10 + d;
        i = i + 1;
    }
    proof {
        assert(s@.subrange(0, n as int) =~= s@);
    }
    Some(acc)
}

/// Trim ASCII whitespace from both ends and lowercase ASCII letters.
pub fn normalize_field(s: &[u8]) -> (r: Vec<u8>)
    ensures
        r@ == norm_field(s@),
{
    let n = s.len();
    let mut lo: usize = 0;
    while lo < n && (s[lo] == 0x20 || (0x09 <= s[lo] && s[lo] <= 0x0d))
        invariant
            0 <= lo <= n,
            n == s@.len(),
            forall|i: int| 0 <= i < lo ==> is_ascii_ws(#[trigger] s@[i]),
        decreases n - lo,
    {
        lo = lo + 1;
    }
    let mut hi: usize = n;
    while hi > lo && (s[hi - 1] == 0x20 || (0x09 <= s[hi - 1] && s[hi - 1] <= 0x0d))
        invariant
            lo <= hi <= n,
            n == s@.len(),
            forall|i: int| 0 <= i < lo ==> is_ascii_ws(#[trigger] s@[i]),
            forall|i: int| hi <= i < n ==> is_ascii_ws(#[trigger] s@[i]),
        decreases hi,
    {
        hi = hi - 1;
    }
    proof {
        lemma_trim_indices(s@, lo as int, hi as int);
    }
    let mut out: Vec<u8> = Vec::new();
    let mut i: usize = lo;
    while i < hi
        invariant
            lo <= i <= hi <= n,
            n == s@.len(),
            out@.len() == i - lo,
            forall|j: int|
                0 <= j < out@.len() ==> out@[j] == to_lower_byte(#[trigger] s@[lo + j]),
        decreases hi - i,
    {
        let b = s[i];
        if 0x41 <= b && b <= 0x5a {
            out.push(b + 0x20);
        } else {
            out.push(b);
        }
        i = i + 1;
    }
    proof {
        let sub = s@.subrange(lo as int, hi as int);
        assert(to_lower(sub).len() == sub.len());
        assert(forall|j: int| 0 <= j < sub.len() ==> #[trigger] to_lower(sub)[j] == to_lower_byte(
            sub[j],
        ));
        assert(forall|j: int| 0 <= j < sub.len() ==> #[trigger] sub[j] == s@[lo + j]);
        assert(out@ =~= to_lower(sub));
    }
    out
}

pub open spec fn strip_plus(s: Seq<u8>) -> Seq<u8> {
    if s.len() > 0 && s[0] == BYTE_PLUS {
        s.subrange(1, s.len() as int)
    } else {
        s
    }
}

/// What `str::parse::<u32>` accepts: an optional `+`, then decimal digits.
pub open spec fn parse_u32_spec(s: Seq<u8>) -> Option<u32> {
    let d = strip_plus(s);
    if d.len() > 0 && all_digits(d) && digits_value(d) <= u32::MAX {
        Some(digits_value(d) as u32)
    } else {
        None
    }
}

/// What `str::parse::<i8>` accepts: an optional sign, then decimal digits.
pub open spec fn parse_i8_spec(s: Seq<u8>) -> Option<i8> {
    if s.len() > 0 && s[0] == BYTE_MINUS {
        let d = s.subrange(1, s.len() as int);
        if d.len() > 0 && all_digits(d) && digits_value(d) <= 128 {
            Some((-digits_value(d)) as i8)
        } else {
            None
        }
    } else {
        let d = strip_plus(s);
        if d.len() > 0 && all_digits(d) && digits_value(d) <= 127 {
            Some(digits_value(d) as i8)
        } else {
            None
        }
    }
}

/// What `str::parse::<bool>` accepts: exactly `true` or `false`.
pub open spec fn parse_bool_spec(s: Seq<u8>) -> Option<bool> {
    if s.len() == 4 && s[0] == 0x74 && s[1] == 0x72 && s[2] == 0x75 && s[3] == 0x65 {
        Some(true)
    } else if s.len() == 5 && s[0] == 0x66 && s[1] == 0x61 && s[2] == 0x6c && s[3] == 0x73
        && s[4] == 0x65 {
        Some(false)
    } else {
        None
    }
}

/// Index of the first `.` in `s`, or `s.len()` if there is none.
pub open spec fn first_dot(s: Seq<u8>) -> int
    decreases s.len(),
{
    if s.len() == 0 {
        0
    } else if s[0] == BYTE_DOT {
        0
    } else {
        1 + first_dot(s.subrange(1, s.len() as int))
    }
}

pub proof fn lemma_first_dot(s: Seq<u8>, k: int)
    requires
        0 <= k <= s.len(),
        forall|i: int| 0 <= i < k ==> s[i] != BYTE_DOT,
        k < s.len() ==> s[k] == BYTE_DOT,
    ensures
        first_dot(s) == k,
    decreases k,
{
    if k == 0 {
    } else {
        lemma_first_dot(s.subrange(1, s.len() as int), k - 1);
    }
}

/// Index of the first `e` or `E` in `s`, or `s.len()` if there is none.
pub open spec fn first_exp(s: Seq<u8>) -> int
    decreases s.len(),
{
    if s.len() == 0 {
        0
    } else if s[0] == BYTE_E_LOWER || s[0] == BYTE_E_UPPER {
        0
    } else {
        1 + first_exp(s.subrange(1, s.len() as int))
    }
}

pub proof fn lemma_first_exp(s: Seq<u8>, k: int)
    requires
        0 <= k <= s.len(),
        forall|i: int| 0 <= i < k ==> (s[i] != BYTE_E_LOWER && #[trigger] s[i] != BYTE_E_UPPER),
        k < s.len() ==> (s[k] == BYTE_E_LOWER || s[k] == BYTE_E_UPPER),
    ensures
        first_exp(s) == k,
    decreases k,
{
    if k == 0 {
    } else {
        lemma_first_exp(s.subrange(1, s.len() as int), k - 1);
    }
}

/// A signed decimal exponent, as `f64`'s parser reads it after `e`.
pub open spec fn parse_exp_spec(ep: Seq<u8>) -> Option<int> {
    let neg = ep.len() > 0 && ep[0] == BYTE_MINUS;
    let dm = if ep.len() > 0 && (ep[0] == BYTE_MINUS || ep[0] == BYTE_PLUS) {
        ep.subrange(1, ep.len() as int)
    } else {
        ep
    };
    if dm.len() > 0 && all_digits(dm) && digits_value(dm) <= u128::MAX {
        if neg {
            Some(-digits_value(dm))
        } else {
            Some(digits_value(dm))
        }
    } else {
        None
    }
}

/// Fixed-point value of mantissa digits under a signed decimal shift:
/// the shift moves the point right by `16 - |fp| + ex` places, appending
/// zeros or truncating low digits (the floor), and the result must fit.
pub open spec fn weight_digits_shift(ip: Seq<u8>, fp: Seq<u8>, ex: int) -> Option<u128> {
    if (ip.len() > 0 || fp.len() > 0) && all_digits(ip) && all_digits(fp) {
        let digits = ip + fp;
        let shift = 16 - fp.len() + ex;
        if shift >= 0 {
            if digits_value(digits) * pow10(shift as nat) <= u128::MAX {
                Some((digits_value(digits) * pow10(shift as nat)) as u128)
            } else {
                None
            }
        } else {
            let keep = digits.len() + shift;
            if keep <= 0 {
                Some(0)
            } else {
                if digits_value(digits.subrange(0, keep)) <= u128::MAX {
                    Some(digits_value(digits.subrange(0, keep)) as u128)
                } else {
                    None
                }
            }
        }
    } else {
        None
    }
}

/// The mantissa before an explicit exponent: digits with at most one dot.
pub open spec fn weight_with_exp(m: Seq<u8>, ex: int) -> Option<u128> {
    let kd = first_dot(m);
    if kd == m.len() {
        weight_digits_shift(m, Seq::<u8>::empty(), ex)
    } else {
        let ip = m.subrange(0, kd);
        let fp = m.subrange(kd + 1, m.len() as int);
        if first_dot(fp) < fp.len() {
            None
        } else {
            weight_digits_shift(ip, fp, ex)
        }
    }
}

/// Fixed-point value of a decimal with integer digits `ip` and fractional
/// digits `fp`.  The first [`WEIGHT_FRAC_DIGITS`] fractional digits are
/// kept; further digits are ignored.
pub open spec fn weight_of_parts(ip: Seq<u8>, fp: Seq<u8>) -> Option<u128> {
    let fp16 = if fp.len() > 16 {
        fp.subrange(0, 16)
    } else {
        fp
    };
    if (ip.len() > 0 || fp.len() > 0) && all_digits(ip) && all_digits(fp) && digits_value(ip)
        < (u128::MAX as int) / (WEIGHT_SCALE as int) {
        Some(
            (digits_value(ip) * WEIGHT_SCALE + digits_value(fp16) * pow10(
                (16 - fp16.len()) as nat,
            )) as u128,
        )
    } else {
        None
    }
}

/// A weight accepted by the line parser: an optional `+`, decimal digits,
/// optionally one `.` with more digits, optionally `e` or `E` with a
/// signed decimal exponent; at least one mantissa digit in all.
pub open spec fn parse_weight_spec(s: Seq<u8>) -> Option<u128> {
    let d = strip_plus(s);
    let ke = first_exp(d);
    if ke == d.len() {
        let k = first_dot(d);
        if k == d.len() {
            weight_of_parts(d, Seq::<u8>::empty())
        } else {
            let ip = d.subrange(0, k);
            let fp = d.subrange(k + 1, d.len() as int);
            if first_dot(fp) < fp.len() {
                None
            } else {
                weight_of_parts(ip, fp)
            }
        }
    } else {
        let m = d.subrange(0, ke);
        let ep = d.subrange(ke + 1, d.len() as int);
        match parse_exp_spec(ep) {
            Some(ex) => weight_with_exp(m, ex),
            None => None,
        }
    }
}

pub proof fn lemma_pow10_bounds(n: nat)
    requires
        n <= 16,
    ensures
        1 <= pow10(n) <= WEIGHT_SCALE,
    decreases n,
{
    lemma_pow10_pos(n);
    lemma_pow10_mono(16);
    assert(pow10(16) == WEIGHT_SCALE) by {
        reveal_with_fuel(pow10, 17);
    }
}

proof fn lemma_pow10_mono(n: nat)
    ensures
        forall|m: nat| m <= n ==> pow10(m) <= #[trigger] pow10(n),
    decreases n,
{
    if n > 0 {
        lemma_pow10_mono((n - 1) as nat);
        assert forall|m: nat| m <= n implies pow10(m) <= #[trigger] pow10(n) by {
            if m <= n - 1 {
                assert(pow10(m) <= pow10((n - 1) as nat));
                assert(pow10((n - 1) as nat) >= 1) by {
                    lemma_pow10_pos((n - 1) as nat);
                }
            }
        }
    }
}

proof fn lemma_pow10_pos(n: nat)
    ensures
        pow10(n) >= 1,
    decreases n,
{
    if n > 0 {
        lemma_pow10_pos((n - 1) as nat);
    }
}

/// Powers of ten up to `10^38` fit a `u128`.
proof fn lemma_pow10_le_max(n: nat)
    requires
        n <= 38,
    ensures
        1 <= pow10(n) <= u128::MAX,
{
    lemma_pow10_pos(n);
    lemma_pow10_mono(38);
    assert(pow10(38) <= u128::MAX) by {
        reveal_with_fuel(pow10, 40);
    }
}

/// Powers of ten from `10^39` on exceed a `u128`.
proof fn lemma_pow10_gt_max(n: nat)
    requires
        n >= 39,
    ensures
        pow10(n) > u128::MAX,
{
    lemma_pow10_mono(n);
    assert(pow10(39) > u128::MAX) by {
        reveal_with_fuel(pow10, 41);
    }
    assert(pow10(39) <= pow10(n));
}

/// A digit string is worth zero exactly when every digit is `0`.
proof fn lemma_digits_zero(s: Seq<u8>)
    requires
        all_digits(s),
    ensures
        (digits_value(s) == 0) <==> (forall|i: int| 0 <= i < s.len() ==> s[i] == 0x30),
    decreases s.len(),
{
    if s.len() > 0 {
        assert(all_digits(s.drop_last())) by {
            assert(forall|i: int|
                0 <= i < s.len() - 1 ==> is_ascii_digit(#[trigger] s.drop_last()[i]));
        }
        lemma_digits_zero(s.drop_last());
        lemma_digits_value_nonneg(s.drop_last());
        if digits_value(s) == 0 {
            assert(s.last() == 0x30);
            assert(digits_value(s.drop_last()) == 0);
            assert forall|i: int| 0 <= i < s.len() implies s[i] == 0x30 by {
                if i < s.len() - 1 {
                    assert(s.drop_last()[i] == 0x30);
                }
            }
        } else {
            if forall|i: int| 0 <= i < s.len() ==> s[i] == 0x30 {
                assert(forall|i: int|
                    0 <= i < s.len() - 1 ==> #[trigger] s.drop_last()[i] == 0x30);
                assert(digits_value(s.drop_last()) == 0);
                assert(s.last() == 0x30);
                assert(false);
            }
        }
    }
}

/// Compute `10^n` for small `n`.
pub fn pow10_u128(n: u32) -> (r: u128)
    requires
        n <= 38,
    ensures
        r == pow10(n as nat),
{
    let mut acc: u128 = 1;
    let mut i: u32 = 0;
    while i < n
        invariant
            0 <= i <= n <= 38,
            acc == pow10(i as nat),
        decreases n - i,
    {
        proof {
            lemma_pow10_le_max((i + 1) as nat);
        }
        acc = acc * 10;
        i = i + 1;
    }
    acc
}

/// Read a weight field into its fixed-point representation.
#[verifier::loop_isolation(false)]
#[verifier::rlimit(60)]
pub fn parse_weight_field(s: &[u8]) -> (r: Option<u128>)
    ensures
        r == parse_weight_spec(s@),
{
    let n = s.len();
    let start: usize = if n > 0 && s[0] == BYTE_PLUS {
        1
    } else {
        0
    };
    let d = vstd::slice::slice_subrange(s, start, n);
    proof {
        if start == 1 {
            assert(d@ =~= strip_plus(s@));
        } else {
            assert(d@ =~= strip_plus(s@));
        }
    }
    let dn = d.len();
    // find the exponent marker, if any
    let mut ke: usize = 0;
    while ke < dn && d[ke] != BYTE_E_LOWER && d[ke] != BYTE_E_UPPER
        invariant
            0 <= ke <= dn,
            dn == d@.len(),
            forall|i: int|
                0 <= i < ke ==> (d@[i] != BYTE_E_LOWER && #[trigger] d@[i] != BYTE_E_UPPER),
        decreases dn - ke,
    {
        ke = ke + 1;
    }
    proof {
        lemma_first_exp(d@, ke as int);
    }
    if ke < dn {
        return parse_weight_exp_field(
            vstd::slice::slice_subrange(d, 0, ke),
            vstd::slice::slice_subrange(d, ke + 1, dn),
        );
    }
        let dn = d.len();
        // find the first dot
        let mut k: usize = 0;
        while k < dn && d[k] != BYTE_DOT
            invariant
                0 <= k <= dn,
                dn == d@.len(),
                forall|i: int| 0 <= i < k ==> d@[i] != BYTE_DOT,
            decreases dn - k,
        {
            k = k + 1;
        }
        proof {
            lemma_first_dot(d@, k as int);
        }
        if k == dn {
            let vi = match parse_digits_u128(d) {
                Some(v) => v,
                None => {
                    return None;
                },
            };
            proof {
                lemma_digits_value_nonneg(d@);
            }
            if vi >= u128::MAX / WEIGHT_SCALE {
                return None;
            }
            proof {
                lemma_weight_fits(vi as int, 0);
            }
            return Some(vi * WEIGHT_SCALE);
        }
        let ip = vstd::slice::slice_subrange(d, 0, k);
        let fp = vstd::slice::slice_subrange(d, k + 1, dn);
        // a second dot makes the field unparseable
        let fpn = fp.len();
        let mut j: usize = 0;
        while j < fpn && fp[j] != BYTE_DOT
            invariant
                0 <= j <= fpn,
                fpn == fp@.len(),
                forall|i: int| 0 <= i < j ==> fp@[i] != BYTE_DOT,
            decreases fpn - j,
        {
            j = j + 1;
        }
        proof {
            lemma_first_dot(fp@, j as int);
        }
        if j < fpn {
            return None;
        }
        if ip.len() == 0 && fp.len() == 0 {
            return None;
        }
        // integer part
        let vi: u128 = if ip.len() == 0 {
            0
        } else {
            match parse_digits_u128(ip) {
                Some(v) => v,
                None => {
                    return None;
                },
            }
        };
        // fractional part: keep the first 16 digits, check the rest are digits
        let fp16_len: usize = if fpn > 16 {
            16
        } else {
            fpn
        };
        let fp16 = vstd::slice::slice_subrange(fp, 0, fp16_len);
        let vf: u128 = if fp16.len() == 0 {
            0
        } else {
            match parse_digits_u128(fp16) {
                Some(v) => {
                    proof {
                        lemma_digits_value_bound(fp16@);
                    }
                    v
                },
                None => {
                    proof {
                        if all_digits(fp@) {
                            assert(all_digits(fp16@));
                            lemma_digits_value_bound(fp16@);
                            lemma_pow10_bounds(fp16@.len() as nat);
                            assert(pow10(fp16@.len() as nat) <= WEIGHT_SCALE < u128::MAX);
                            assert(false);
                        }
                    }
                    return None;
                },
            }
        };
        // the digits beyond the 16 kept must still be digits
        let mut t: usize = fp16_len;
        while t < fpn
            invariant
                fp16_len <= t <= fpn,
                fpn == fp@.len(),
                forall|i: int| fp16_len <= i < t ==> is_ascii_digit(#[trigger] fp@[i]),
            decreases fpn - t,
        {
            let b = fp[t];
            if b < 0x30 || b > 0x39 {
                assert(!is_ascii_digit(fp@[t as int]));
                return None;
            }
            t = t + 1;
        }
        proof {
            if fp16_len < fpn {
                assert forall|i: int| 0 <= i < fp@.len() implies is_ascii_digit(
                    #[trigger] fp@[i],
                ) by {
                    if i < fp16_len {
                        assert(fp@[i] == fp16@[i]);
                        assert(is_ascii_digit(fp16@[i]));
                    }
                }
                assert(all_digits(fp@));
            } else {
                assert(fp16@ =~= fp@);
            }
        }
        if vi >= u128::MAX / WEIGHT_SCALE {
            return None;
        }
        let scale = pow10_u128((16 - fp16_len) as u32);
        proof {
            lemma_digits_value_bound(fp16@);
            lemma_frac_scaled(digits_value(fp16@), fp16_len as int);
            lemma_weight_fits(vi as int, digits_value(fp16@) * pow10((16 - fp16_len) as nat));
        }
        Some(vi * WEIGHT_SCALE + vf * scale)
}

/// Read a weight with an explicit exponent: `m` is the mantissa before
/// the marker, `ep` the signed exponent after it.
#[verifier::loop_isolation(false)]
#[verifier::rlimit(100)]
fn parse_weight_exp_field(m: &[u8], ep: &[u8]) -> (r: Option<u128>)
    ensures
        r == (match parse_exp_spec(ep@) {
            Some(ex) => weight_with_exp(m@, ex),
            None => None,
        }),
{
    // the signed exponent
    let en = ep.len();
    let neg: bool = en > 0 && ep[0] == BYTE_MINUS;
    let estart: usize = if en > 0 && (ep[0] == BYTE_MINUS || ep[0] == BYTE_PLUS) {
        1
    } else {
        0
    };
    let dm = vstd::slice::slice_subrange(ep, estart, en);
    proof {
        if en > 0 && (ep@[0] == BYTE_MINUS || ep@[0] == BYTE_PLUS) {
            assert(dm@ =~= ep@.subrange(1, en as int));
        } else {
            assert(dm@ =~= ep@);
        }
    }
    let mag = match parse_digits_u128(dm) {
        Some(v) => v,
        None => {
            return None;
        },
    };
    let ghost ex: int = if neg {
        -(mag as int)
    } else {
        mag as int
    };
    proof {
        assert(parse_exp_spec(ep@) == Some(ex));
        lemma_digits_value_nonneg(dm@);
    }
    // the mantissa, split at its first dot; a second dot is refused
    let mlen = m.len();
    let mut kd: usize = 0;
    while kd < mlen && m[kd] != BYTE_DOT
        invariant
            0 <= kd <= mlen,
            mlen == m@.len(),
            forall|i: int| 0 <= i < kd ==> m@[i] != BYTE_DOT,
        decreases mlen - kd,
    {
        kd = kd + 1;
    }
    proof {
        lemma_first_dot(m@, kd as int);
    }
    let ip: &[u8] = vstd::slice::slice_subrange(m, 0, kd);
    let fp: &[u8] = if kd == mlen {
        vstd::slice::slice_subrange(m, mlen, mlen)
    } else {
        vstd::slice::slice_subrange(m, kd + 1, mlen)
    };
    proof {
        if kd == mlen {
            assert(ip@ =~= m@);
            assert(fp@ =~= Seq::<u8>::empty());
        }
    }
    if kd < mlen {
        // refuse a second dot
        let fpn = fp.len();
        let mut j: usize = 0;
        while j < fpn && fp[j] != BYTE_DOT
            invariant
                0 <= j <= fpn,
                fpn == fp@.len(),
                forall|i: int| 0 <= i < j ==> fp@[i] != BYTE_DOT,
            decreases fpn - j,
        {
            j = j + 1;
        }
        proof {
            lemma_first_dot(fp@, j as int);
        }
        if j < fpn {
            return None;
        }
    }
    if ip.len() == 0 && fp.len() == 0 {
        return None;
    }
    // every mantissa byte must be a digit
    let mut t: usize = 0;
    while t < ip.len()
        invariant
            0 <= t <= ip@.len(),
            forall|i: int| 0 <= i < t ==> is_ascii_digit(#[trigger] ip@[i]),
        decreases ip@.len() - t,
    {
        let b = ip[t];
        if b < 0x30 || b > 0x39 {
            assert(!is_ascii_digit(ip@[t as int]));
            return None;
        }
        t = t + 1;
    }
    let mut t2: usize = 0;
    while t2 < fp.len()
        invariant
            0 <= t2 <= fp@.len(),
            forall|i: int| 0 <= i < t2 ==> is_ascii_digit(#[trigger] fp@[i]),
        decreases fp@.len() - t2,
    {
        let b = fp[t2];
        if b < 0x30 || b > 0x39 {
            assert(!is_ascii_digit(fp@[t2 as int]));
            return None;
        }
        t2 = t2 + 1;
    }
    let f = fp.len();
    let ghost gshift: int = 16 - (f as int) + ex;
    // split on the direction and size of the shift
    if !neg {
        if mag >= f as u128 {
            let up = mag - (f as u128);
            if up > 22 {
                proof {
                    assert(gshift >= 39);
                }
                return weight_all_zero(ip, fp, Ghost(ex));
            }
            let shift: u32 = 16 + (up as u32);
            proof {
                assert(shift as int == gshift);
            }
            weight_scaled_up(ip, fp, shift, Ghost(ex))
        } else {
            let down0 = (f as u128) - mag;
            if down0 <= 16 {
                let shift: u32 = 16 - (down0 as u32);
                proof {
                    assert(shift as int == gshift);
                }
                weight_scaled_up(ip, fp, shift, Ghost(ex))
            } else {
                let down = down0 - 16;
                proof {
                    assert(down as int == -gshift);
                }
                weight_scaled_down(ip, fp, down, Ghost(ex))
            }
        }
    } else {
        if mag > u128::MAX - (f as u128) {
            proof {
                assert((ip@ + fp@).len() as int + gshift <= 0);
                assert(weight_digits_shift(ip@, fp@, ex) == Some(0u128));
            }
            return Some(0);
        }
        let total = mag + (f as u128);
        if total <= 16 {
            let shift: u32 = 16 - (total as u32);
            proof {
                assert(shift as int == gshift);
            }
            weight_scaled_up(ip, fp, shift, Ghost(ex))
        } else {
            let down = total - 16;
            proof {
                assert(down as int == -gshift);
            }
            weight_scaled_down(ip, fp, down, Ghost(ex))
        }
    }
}

/// The mantissa digits multiplied by `10^shift`, when that fits.
#[verifier::loop_isolation(false)]
fn weight_scaled_up(ip: &[u8], fp: &[u8], shift: u32, Ghost(ex): Ghost<int>) -> (r: Option<u128>)
    requires
        shift <= 38,
        all_digits(ip@),
        all_digits(fp@),
        ip@.len() + fp@.len() > 0,
        shift as int == 16 - fp@.len() + ex,
    ensures
        r == weight_digits_shift(ip@, fp@, ex),
{
    let mut dvec = vstd::slice::slice_to_vec(ip);
    let mut f2 = vstd::slice::slice_to_vec(fp);
    dvec.append(&mut f2);
    proof {
        assert(dvec@ =~= ip@ + fp@);
        lemma_pow10_le_max(shift as nat);
    }
    let dv = match parse_digits_u128(dvec.as_slice()) {
        Some(v) => v,
        None => {
            proof {
                let dvi = digits_value(ip@ + fp@);
                assert(dvi > u128::MAX);
                assert(dvi * pow10(shift as nat) >= dvi) by (nonlinear_arith)
                    requires
                        dvi > 0,
                        pow10(shift as nat) >= 1,
                ;
            }
            return None;
        },
    };
    let p = pow10_u128(shift);
    if dv > u128::MAX / p {
        proof {
            assert((dv as int) * (p as int) > u128::MAX) by (nonlinear_arith)
                requires
                    dv > (u128::MAX as int) / (p as int),
                    p >= 1,
            ;
        }
        None
    } else {
        proof {
            assert((dv as int) * (p as int) <= u128::MAX) by (nonlinear_arith)
                requires
                    0 <= dv <= (u128::MAX as int) / (p as int),
                    p >= 1,
            ;
        }
        Some(dv * p)
    }
}

/// The mantissa digits with the low `down` digits cut off (the floor).
#[verifier::loop_isolation(false)]
fn weight_scaled_down(ip: &[u8], fp: &[u8], down: u128, Ghost(ex): Ghost<int>) -> (r: Option<
    u128,
>)
    requires
        down >= 1,
        all_digits(ip@),
        all_digits(fp@),
        ip@.len() + fp@.len() > 0,
        ip@.len() + fp@.len() <= usize::MAX,
        down as int == (fp@.len() as int) - 16 - ex,
    ensures
        r == weight_digits_shift(ip@, fp@, ex),
{
    let iplen = ip.len();
    let flen = fp.len();
    let total = iplen + flen;
    if down >= total as u128 {
        proof {
            assert((ip@ + fp@).len() as int + (16 - fp@.len() + ex) <= 0);
        }
        return Some(0);
    }
    let keep = total - (down as usize);
    let pvec: Vec<u8> = if keep <= iplen {
        vstd::slice::slice_to_vec(vstd::slice::slice_subrange(ip, 0, keep))
    } else {
        let mut v = vstd::slice::slice_to_vec(ip);
        let mut w = vstd::slice::slice_to_vec(vstd::slice::slice_subrange(fp, 0, keep - iplen));
        v.append(&mut w);
        v
    };
    proof {
        assert(pvec@ =~= (ip@ + fp@).subrange(0, keep as int));
        assert(all_digits(pvec@)) by {
            assert(forall|i: int|
                0 <= i < pvec@.len() ==> #[trigger] pvec@[i] == (ip@ + fp@)[i]);
            assert(forall|i: int|
                0 <= i < (ip@ + fp@).len() ==> is_ascii_digit(#[trigger] (ip@ + fp@)[i]));
        }
    }
    match parse_digits_u128(pvec.as_slice()) {
        Some(v) => Some(v),
        None => None,
    }
}

/// Zero when every mantissa digit is zero; any other mantissa scaled
/// this far up cannot fit.
#[verifier::loop_isolation(false)]
fn weight_all_zero(ip: &[u8], fp: &[u8], Ghost(ex): Ghost<int>) -> (r: Option<u128>)
    requires
        all_digits(ip@),
        all_digits(fp@),
        ip@.len() + fp@.len() > 0,
        16 - fp@.len() + ex >= 39,
    ensures
        r == weight_digits_shift(ip@, fp@, ex),
{
    proof {
        lemma_digits_zero(ip@ + fp@);
        lemma_digits_value_nonneg(ip@ + fp@);
        lemma_pow10_gt_max((16 - fp@.len() + ex) as nat);
    }
    let mut t: usize = 0;
    while t < ip.len()
        invariant
            0 <= t <= ip@.len(),
            forall|i: int| 0 <= i < t ==> #[trigger] ip@[i] == 0x30,
        decreases ip@.len() - t,
    {
        if ip[t] != 0x30 {
            proof {
                assert((ip@ + fp@)[t as int] != 0x30);
                let dvi = digits_value(ip@ + fp@);
                assert(dvi >= 1);
                assert(dvi * pow10((16 - fp@.len() + ex) as nat) >= pow10(
                    (16 - fp@.len() + ex) as nat,
                )) by (nonlinear_arith)
                    requires
                        dvi >= 1,
                        pow10((16 - fp@.len() + ex) as nat) >= 0,
                ;
            }
            return None;
        }
        t = t + 1;
    }
    let mut t2: usize = 0;
    while t2 < fp.len()
        invariant
            0 <= t2 <= fp@.len(),
            forall|i: int| 0 <= i < ip@.len() ==> #[trigger] ip@[i] == 0x30,
            forall|i: int| 0 <= i < t2 ==> #[trigger] fp@[i] == 0x30,
        decreases fp@.len() - t2,
    {
        if fp[t2] != 0x30 {
            proof {
                assert((ip@ + fp@)[ip@.len() + t2] != 0x30);
                let dvi = digits_value(ip@ + fp@);
                assert(dvi >= 1);
                assert(dvi * pow10((16 - fp@.len() + ex) as nat) >= pow10(
                    (16 - fp@.len() + ex) as nat,
                )) by (nonlinear_arith)
                    requires
                        dvi >= 1,
                        pow10((16 - fp@.len() + ex) as nat) >= 0,
                ;
            }
            return None;
        }
        t2 = t2 + 1;
    }
    proof {
        assert(forall|i: int|
            0 <= i < (ip@ + fp@).len() ==> #[trigger] (ip@ + fp@)[i] == 0x30);
        assert(digits_value(ip@ + fp@) == 0);
        assert(0int * pow10((16 - fp@.len() + ex) as nat) == 0) by (nonlinear_arith);
    }
    Some(0)
}

/// The fixed-point combination of the two parts stays within `u128`.
proof fn lemma_weight_fits(vi: int, vfs: int)
    requires
        0 <= vi < (u128::MAX as int) / (WEIGHT_SCALE as int),
        0 <= vfs < WEIGHT_SCALE,
    ensures
        vi * WEIGHT_SCALE + vfs <= u128::MAX,
        vi * WEIGHT_SCALE >= 0,
{
    assert(vi * WEIGHT_SCALE + vfs <= u128::MAX) by (nonlinear_arith)
        requires
            0 <= vi < (u128::MAX as int) / (WEIGHT_SCALE as int),
            0 <= vfs < WEIGHT_SCALE,
    ;
    assert(vi * WEIGHT_SCALE >= 0) by (nonlinear_arith)
        requires
            vi >= 0,
    ;
}

/// A fractional part scaled into sixteen digits stays below the scale.
proof fn lemma_frac_scaled(dv: int, l: int)
    requires
        0 <= l <= 16,
        0 <= dv < pow10(l as nat),
    ensures
        0 <= dv * pow10((16 - l) as nat) < WEIGHT_SCALE,
{
    lemma_pow10_add(l as nat, (16 - l) as nat);
    assert(pow10(16) == WEIGHT_SCALE) by {
        reveal_with_fuel(pow10, 17);
    }
    lemma_pow10_bounds((16 - l) as nat);
    assert(dv * pow10((16 - l) as nat) < pow10(l as nat) * pow10((16 - l) as nat))
        by (nonlinear_arith)
        requires
            0 <= dv < pow10(l as nat),
            pow10((16 - l) as nat) >= 1,
    ;
    assert(dv * pow10((16 - l) as nat) >= 0) by (nonlinear_arith)
        requires
            dv >= 0,
            pow10((16 - l) as nat) >= 1,
    ;
}

proof fn lemma_pow10_add(a: nat, b: nat)
    ensures
        pow10(a) * pow10(b) == pow10((a + b) as nat),
    decreases a,
{
    if a == 0 {
        assert(pow10(0) == 1);
    } else {
        lemma_pow10_add((a - 1) as nat, b);
        assert(pow10(a) * pow10(b) == 10 * (pow10((a - 1) as nat) * pow10(b)))
            by (nonlinear_arith)
            requires
                pow10(a) == 10 * pow10((a - 1) as nat),
        ;
    }
}

/// Read a `u32` field, as `str::parse::<u32>` would.
pub fn parse_u32_field(s: &[u8]) -> (r: Option<u32>)
    ensures
        r == parse_u32_spec(s@),
{
    let n = s.len();
    let start: usize = if n > 0 && s[0] == BYTE_PLUS {
        1
    } else {
        0
    };
    let d = vstd::slice::slice_subrange(s, start, n);
    proof {
        assert(d@ =~= strip_plus(s@));
    }
    match parse_digits_u128(d) {
        Some(v) => {
            proof {
                lemma_digits_value_nonneg(d@);
            }
            if v <= u32::MAX as u128 {
                Some(v as u32)
            } else {
                None
            }
        },
        None => None,
    }
}

/// Read an `i8` field, as `str::parse::<i8>` would.
pub fn parse_i8_field(s: &[u8]) -> (r: Option<i8>)
    ensures
        r == parse_i8_spec(s@),
{
    let n = s.len();
    if n > 0 && s[0] == BYTE_MINUS {
        let d = vstd::slice::slice_subrange(s, 1, n);
        match parse_digits_u128(d) {
            Some(v) => {
                proof {
                    lemma_digits_value_nonneg(d@);
                }
                if v <= 128 {
                    Some((-(v as i32)) as i8)
                } else {
                    None
                }
            },
            None => None,
        }
    } else {
        let start: usize = if n > 0 && s[0] == BYTE_PLUS {
            1
        } else {
            0
        };
        let d = vstd::slice::slice_subrange(s, start, n);
        proof {
            assert(d@ =~= strip_plus(s@));
        }
        match parse_digits_u128(d) {
            Some(v) => {
                proof {
                    lemma_digits_value_nonneg(d@);
                }
                if v <= 127 {
                    Some(v as i8)
                } else {
                    None
                }
            },
            None => None,
        }
    }
}

/// Read a `bool` field, as `str::parse::<bool>` would.
pub fn parse_bool_field(s: &[u8]) -> (r: Option<bool>)
    ensures
        r == parse_bool_spec(s@),
{
    let n = s.len();
    if n == 4 && s[0] == 0x74 && s[1] == 0x72 && s[2] == 0x75 && s[3] == 0x65 {
        Some(true)
    } else if n == 5 && s[0] == 0x66 && s[1] == 0x61 && s[2] == 0x6c && s[3] == 0x73 && s[4]
        == 0x65 {
        Some(false)
    } else {
        None
    }
}

/// Split a byte string on a separator, as `str::split(c)` does.
pub fn split_sep_bytes(s: &[u8], sep: u8) -> (r: Vec<Vec<u8>>)
    ensures
        r@.len() == split_sep(s@, sep).len(),
        forall|i: int| 0 <= i < r@.len() ==> #[trigger] r@[i]@ == split_sep(s@, sep)[i],
    decreases s@.len(),
{
    let n = s.len();
    let mut k: usize = 0;
    while k < n && s[k] != sep
        invariant
            0 <= k <= n,
            n == s@.len(),
            forall|i: int| 0 <= i < k ==> s@[i] != sep,
        decreases n - k,
    {
        k = k + 1;
    }
    proof {
        lemma_split_sep_step(s@, sep, k as int);
    }
    if k == n {
        let mut out: Vec<Vec<u8>> = Vec::new();
        out.push(vstd::slice::slice_to_vec(s));
        return out;
    }
    let head = vstd::slice::slice_to_vec(vstd::slice::slice_subrange(s, 0, k));
    let tail = vstd::slice::slice_subrange(s, k + 1, n);
    let mut rest = split_sep_bytes(tail, sep);
    let mut out: Vec<Vec<u8>> = Vec::new();
    out.push(head);
    out.append(&mut rest);
    proof {
        let sp = split_sep(s@, sep);
        assert(sp =~~= seq![s@.subrange(0, k as int)].add(split_sep(tail@, sep)));
        assert(forall|i: int| 0 <= i < out@.len() ==> #[trigger] out@[i]@ == sp[i]);
    }
    out
}

/// Split a byte string on commas.
pub fn split_commas_bytes(s: &[u8]) -> (r: Vec<Vec<u8>>)
    ensures
        r@.len() == split_commas(s@).len(),
        forall|i: int| 0 <= i < r@.len() ==> #[trigger] r@[i]@ == split_commas(s@)[i],
{
    split_sep_bytes(s, BYTE_COMMA)
}

/// `trim_bytes` keeps exactly the bytes between the first and last
/// non-whitespace positions.
proof fn lemma_trim_indices(s: Seq<u8>, lo: int, hi: int)
    requires
        0 <= lo <= hi <= s.len(),
        forall|i: int| 0 <= i < lo ==> is_ascii_ws(#[trigger] s[i]),
        forall|i: int| hi <= i < s.len() ==> is_ascii_ws(#[trigger] s[i]),
        lo < s.len() ==> !is_ascii_ws(s[lo]),
        lo < hi ==> !is_ascii_ws(s[hi - 1]),
    ensures
        trim_bytes(s) =~= s.subrange(lo, hi),
{
    lemma_trim_front_index(s, lo);
    let t = s.subrange(lo, s.len() as int);
    assert(forall|i: int| hi - lo <= i < t.len() ==> is_ascii_ws(#[trigger] t[i])) by {
        assert(forall|i: int|
            hi - lo <= i < t.len() ==> t[i] == s[lo + i] && is_ascii_ws(#[trigger] s[lo + i]));
    }
    lemma_trim_back_index(s.subrange(lo, s.len() as int), hi - lo);
    assert(s.subrange(lo, s.len() as int).subrange(0, hi - lo) =~= s.subrange(lo, hi));
}

proof fn lemma_trim_front_index(s: Seq<u8>, lo: int)
    requires
        0 <= lo <= s.len(),
        forall|i: int| 0 <= i < lo ==> is_ascii_ws(#[trigger] s[i]),
        lo < s.len() ==> !is_ascii_ws(s[lo]),
    ensures
        trim_front(s) =~= s.subrange(lo, s.len() as int),
    decreases lo,
{
    if lo == 0 {
        assert(s.len() > 0 ==> !is_ascii_ws(s[0]));
        assert(trim_front(s) =~= s.subrange(0, s.len() as int));
    } else {
        let t = s.subrange(1, s.len() as int);
        assert(is_ascii_ws(s[0]));
        lemma_trim_front_index(t, lo - 1);
        assert(t.subrange(lo - 1, t.len() as int) =~= s.subrange(lo, s.len() as int));
    }
}

proof fn lemma_trim_back_index(s: Seq<u8>, hi: int)
    requires
        0 <= hi <= s.len(),
        forall|i: int| hi <= i < s.len() ==> is_ascii_ws(#[trigger] s[i]),
        hi > 0 ==> !is_ascii_ws(s[hi - 1]),
    ensures
        trim_back(s) =~= s.subrange(0, hi),
    decreases s.len(),
{
    if s.len() > 0 && is_ascii_ws(s.last()) {
        assert(hi < s.len());
        lemma_trim_back_index(s.drop_last(), hi);
        assert(s.drop_last().subrange(0, hi) =~= s.subrange(0, hi));
    } else {
        assert(hi == s.len());
        assert(s.subrange(0, hi) =~= s);
    }
}

} // verus!
