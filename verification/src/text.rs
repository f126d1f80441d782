use vstd::prelude::*;

verus! {

/// Largest integer part that a statistic's text may carry: any larger value
/// would not fit the scaled representation.
pub const STAT_INT_LIMIT: u64 = 18_446_744_073_709_550;

/// Largest scaled statistic value: `STAT_INT_LIMIT * 1000 + 999`.
pub const STAT_MAX: u64 = 18_446_744_073_709_550_999;

pub open spec fn is_digit(b: u8) -> bool {
    48 <= b && b <= 57
}

pub open spec fn all_digits(s: Seq<u8>) -> bool {
    forall|i: int| 0 <= i < s.len() ==> is_digit(#[trigger] s[i])
}

/// Numeric value of a digit string, most significant digit first.
pub open spec fn digits_value(s: Seq<u8>) -> int
    decreases s.len(),
{
    if s.len() == 0 {
        0
    } else {
        digits_value(s.drop_last()) * 10 + (s.last() - 48)
    }
}

/// Decimal digit string of `n`, without leading zeros (`0` itself is one digit).
pub open spec fn dec_digits(n: nat) -> Seq<u8>
    decreases n,
{
    if n < 10 {
        seq![(n + 48) as u8]
    } else {
        dec_digits(n / 10).push(((n % 10) + 48) as u8)
    }
}

pub proof fn lemma_dec_digits_value(n: nat)
    ensures
        all_digits(dec_digits(n)),
        digits_value(dec_digits(n)) == n,
        dec_digits(n).len() >= 1,
    decreases n,
{
    if n < 10 {
        let d = dec_digits(n);
        assert(d.drop_last() =~= Seq::<u8>::empty());
        assert(digits_value(Seq::<u8>::empty()) == 0);
        assert(digits_value(d) == d.last() - 48);
    } else {
        lemma_dec_digits_value(n / 10);
        let d = dec_digits(n);
        assert(d.drop_last() =~= dec_digits(n / 10));
        vstd::arithmetic::div_mod::lemma_fundamental_div_mod(n as int, 10);
        assert forall|i: int| 0 <= i < d.len() implies is_digit(#[trigger] d[i]) by {
            if i < d.len() - 1 {
                assert(d[i] == dec_digits(n / 10)[i]);
            }
        }
    }
}

pub proof fn lemma_digits_value_nonneg(s: Seq<u8>)
    requires
        all_digits(s),
    ensures
        digits_value(s) >= 0,
    decreases s.len(),
{
    if s.len() > 0 {
        assert(all_digits(s.drop_last()));
        lemma_digits_value_nonneg(s.drop_last());
    }
}

/// The value of a digit string is never below the value of any of its prefixes.
pub proof fn lemma_digits_value_prefix_le(s: Seq<u8>, i: int)
    requires
        all_digits(s),
        0 <= i <= s.len(),
    ensures
        digits_value(s.take(i)) <= digits_value(s),
    decreases s.len() - i,
{
    if i == s.len() {
        assert(s.take(i) =~= s);
    } else {
        lemma_digits_value_prefix_le(s, i + 1);
        assert(s.take(i + 1).drop_last() =~= s.take(i));
        assert(all_digits(s.take(i)));
        lemma_digits_value_nonneg(s.take(i));
        assert(digits_value(s.take(i + 1)) == digits_value(s.take(i)) * 10 + (s[i] - 48));
    }
}

/// Byte-wise equality of two slices.
pub fn bytes_eq(a: &[u8], b: &[u8]) -> (r: bool)
    ensures
        r <==> a@ == b@,
{
    if a.len() != b.len() {
        return false;
    }
    let mut i: usize = 0;
    while i < a.len()
        invariant
            i <= a@.len(),
            a@.len() == b@.len(),
            forall|j: int| 0 <= j < i ==> a@[j] == b@[j],
        decreases a@.len() - i,
    {
        if a[i] != b[i] {
            return false;
        }
        i = i + 1;
    }
    proof {
        assert(a@ =~= b@);
    }
    true
}

/// Index of the first occurrence of `b` in `s`, if any.
pub fn find_byte(s: &[u8], b: u8) -> (r: Option<usize>)
    ensures
        r matches Some(i) ==> s@.index_of_first(b) == Some(i as int) && i < s@.len(),
        r is None ==> s@.index_of_first(b) is None,
{
    let mut i: usize = 0;
    while i < s.len()
        invariant
            i <= s@.len(),
            forall|j: int| 0 <= j < i ==> s@[j] != b,
        decreases s@.len() - i,
    {
        if s[i] == b {
            proof {
                lemma_index_of_first_at(s@, b, i as int);
            }
            return Some(i);
        }
        i = i + 1;
    }
    proof {
        s@.index_of_first_ensures(b);
        if s@.contains(b) {
            let w = choose|w: int| 0 <= w < s@.len() && s@[w] == b;
            assert(s@[w] != b);
        }
    }
    None
}

/// Value of a two-digit string.
pub proof fn lemma_digits_value2(a: u8, b: u8)
    ensures
        digits_value(seq![a, b]) == (a - 48) * 10 + (b - 48),
{
    assert(seq![a, b].drop_last() =~= seq![a]);
    assert(seq![a].drop_last() =~= Seq::<u8>::empty());
    assert(digits_value(Seq::<u8>::empty()) == 0);
    assert(digits_value(seq![a]) == a - 48);
    assert(digits_value(seq![a, b]) == digits_value(seq![a]) * 10 + (b - 48));
}

/// Value of a three-digit string.
pub proof fn lemma_digits_value3(a: u8, b: u8, c: u8)
    ensures
        digits_value(seq![a, b, c]) == ((a - 48) * 10 + (b - 48)) * 10 + (c - 48),
{
    lemma_digits_value2(a, b);
    assert(seq![a, b, c].drop_last() =~= seq![a, b]);
    assert(digits_value(seq![a, b, c]) == digits_value(seq![a, b]) * 10 + (c - 48));
}

/// A sequence whose first occurrence of `b` is at `i` has `index_of_first` `Some(i)`.
pub proof fn lemma_index_of_first_at(s: Seq<u8>, b: u8, i: int)
    requires
        0 <= i < s.len(),
        s[i] == b,
        forall|j: int| 0 <= j < i ==> s[j] != b,
    ensures
        s.index_of_first(b) == Some(i),
{
    s.index_of_first_ensures(b);
    assert(s.contains(b));
    let k = s.index_of_first(b).unwrap();
    if k < i {
        assert(s[k] != b);
    }
}

pub fn all_digits_exec(s: &[u8]) -> (r: bool)
    ensures
        r == all_digits(s@),
{
    let mut i: usize = 0;
    while i < s.len()
        invariant
            i <= s@.len(),
            forall|j: int| 0 <= j < i ==> is_digit(#[trigger] s@[j]),
        decreases s@.len() - i,
    {
        let c = s[i];
        if c < 48 || c > 57 {
            return false;
        }
        i = i + 1;
    }
    true
}

/// Parses a non-empty all-digit string whose value is at most `limit`;
/// anything else is a non-match.
pub fn parse_digits(s: &[u8], limit: u64) -> (r: Option<u64>)
    ensures
        s@.len() > 0 && all_digits(s@) && digits_value(s@) <= limit ==> r == Some(
            digits_value(s@) as u64,
        ),
        !(s@.len() > 0 && all_digits(s@) && digits_value(s@) <= limit) ==> r is None,
{
    if s.len() == 0 {
        return None;
    }
    let mut acc: u128 = 0;
    let mut i: usize = 0;
    while i < s.len()
        invariant
            0 < s@.len(),
            i <= s@.len(),
            all_digits(s@.take(i as int)),
            acc == digits_value(s@.take(i as int)),
            acc <= limit,
        decreases s@.len() - i,
    {
        let c = s[i];
        if c < 48 || c > 57 {
            assert(!all_digits(s@));
            return None;
        }
        proof {
            assert(s@.take(i + 1).drop_last() =~= s@.take(i as int));
            assert(s@.take(i + 1).last() == s@[i as int]);
            assert(all_digits(s@.take(i + 1)));
        }
        acc = acc * 10 + ((c - 48) as u128);
        i = i + 1;
        if acc > limit as u128 {
            proof {
                if all_digits(s@) {
                    lemma_digits_value_prefix_le(s@, i as int);
                }
            }
            return None;
        }
    }
    proof {
        assert(s@.take(s@.len() as int) =~= s@);
    }
    Some(acc as u64)
}

pub open spec fn parse_u32_spec(s: Seq<u8>) -> Option<u32> {
    if s.len() > 0 && all_digits(s) && digits_value(s) <= u32::MAX {
        Some(digits_value(s) as u32)
    } else {
        None
    }
}

/// Parses an unsigned decimal field of the results table.
pub fn parse_u32(s: &[u8]) -> (r: Option<u32>)
    ensures
        r == parse_u32_spec(s@),
{
    match parse_digits(s, 0xffff_ffff) {
        Some(v) => {
            proof {
                lemma_digits_value_nonneg(s@);
            }
            Some(v as u32)
        },
        None => None,
    }
}

/// Decimal text of `n`.
pub fn format_u64(n: u64) -> (r: Vec<u8>)
    ensures
        r@ == dec_digits(n as nat),
{
    let mut rev: Vec<u8> = Vec::new();
    let mut m: u64 = n;
    while m >= 10
        invariant
            dec_digits(n as nat) == dec_digits(m as nat) + rev@.reverse(),
        decreases m,
    {
        let d: u8 = (m % 10) as u8 + 48;
        proof {
            assert(dec_digits(m as nat) == dec_digits((m as nat) / 10).push(d));
            assert(rev@.push(d).reverse() =~= seq![d] + rev@.reverse());
            assert(dec_digits((m as nat) / 10) + rev@.push(d).reverse() =~= dec_digits(
                (m as nat) / 10,
            ).push(d) + rev@.reverse());
        }
        rev.push(d);
        m = m / 10;
    }
    let d: u8 = m as u8 + 48;
    proof {
        assert(dec_digits(m as nat) =~= seq![d]);
        assert(rev@.push(d).reverse() =~= seq![d] + rev@.reverse());
        assert(rev@.push(d).reverse() =~= dec_digits(n as nat));
    }
    rev.push(d);
    let ghost target = dec_digits(n as nat);
    let mut out: Vec<u8> = Vec::new();
    let mut i: usize = rev.len();
    while i > 0
        invariant
            i <= rev@.len(),
            rev@.reverse() == target,
            out@.len() == rev@.len() - i,
            forall|j: int| 0 <= j < out@.len() ==> out@[j] == target[j],
        decreases i,
    {
        i = i - 1;
        out.push(rev[i]);
    }
    proof {
        assert(out@ =~= target);
    }
    out
}

/// Fixed-point statistic text: integer part, a dot, three fractional digits.
pub open spec fn stat_text(v: u64) -> Seq<u8> {
    dec_digits((v / 1000) as nat) + seq![46] + frac3_digits((v % 1000) as nat)
}

pub open spec fn frac3_digits(f: nat) -> Seq<u8> {
    seq![
        ((f / 100 % 10) + 48) as u8,
        ((f / 10 % 10) + 48) as u8,
        ((f % 10) + 48) as u8,
    ]
}

/// Scaled value of a fractional digit string: the first three digits count,
/// further digits are beyond the stored precision and are truncated.
pub open spec fn frac_milli(s: Seq<u8>) -> int {
    if s.len() == 0 {
        0
    } else if s.len() == 1 {
        (s[0] - 48) * 100
    } else if s.len() == 2 {
        digits_value(s) * 10
    } else {
        digits_value(s.take(3))
    }
}

/// A statistic's text is a digit string with at most one dot: the value is
/// scaled to thousandths. A missing fractional part counts as zero; a line
/// whose integer part would overflow the scaled range is a non-match.
pub open spec fn parse_stat_spec(s: Seq<u8>) -> Option<u64> {
    match s.index_of_first(46) {
        None => if s.len() > 0 && all_digits(s) && digits_value(s) <= STAT_INT_LIMIT {
            Some((digits_value(s) * 1000) as u64)
        } else {
            None
        },
        Some(i) => {
            let ip = s.take(i);
            let fp = s.skip(i + 1);
            if ip.len() + fp.len() > 0 && all_digits(ip) && all_digits(fp) && digits_value(ip)
                <= STAT_INT_LIMIT {
                Some((digits_value(ip) * 1000 + frac_milli(fp)) as u64)
            } else {
                None
            }
        },
    }
}

/// Scaled value of the fractional field, given that it holds digits alone.
fn frac_milli_exec(s: &[u8]) -> (r: u64)
    requires
        all_digits(s@),
    ensures
        r == frac_milli(s@),
        r <= 999,
{
    if s.len() == 0 {
        0
    } else if s.len() == 1 {
        proof {
            assert(is_digit(s@[0]));
        }
        ((s[0] - 48) as u64) * 100
    } else if s.len() == 2 {
        proof {
            assert(is_digit(s@[0]) && is_digit(s@[1]));
            assert(s@ =~= seq![s@[0], s@[1]]);
            lemma_digits_value2(s@[0], s@[1]);
        }
        ((s[0] - 48) as u64) * 10 * 10 + ((s[1] - 48) as u64) * 10
    } else {
        proof {
            assert(is_digit(s@[0]) && is_digit(s@[1]) && is_digit(s@[2]));
            assert(s@.take(3) =~= seq![s@[0], s@[1], s@[2]]);
            lemma_digits_value3(s@[0], s@[1], s@[2]);
        }
        ((s[0] - 48) as u64) * 100 + ((s[1] - 48) as u64) * 10 + ((s[2] - 48) as u64)
    }
}

/// Parses a statistic field into its scaled value.
pub fn parse_stat(s: &[u8]) -> (r: Option<u64>)
    ensures
        r == parse_stat_spec(s@),
        r matches Some(v) ==> v <= STAT_MAX,
{
    match find_byte(s, 46) {
        None => {
            match parse_digits(s, STAT_INT_LIMIT) {
                Some(v) => {
                    proof {
                        lemma_digits_value_nonneg(s@);
                    }
                    Some(v * 1000)
                },
                None => None,
            }
        },
        Some(i) => {
            let n = s.len();
            let ip = &s[0..i];
            let fp = &s[i + 1..n];
            proof {
                s@.index_of_first_ensures(46);
                assert(ip@ =~= s@.take(i as int));
                assert(fp@ =~= s@.skip(i + 1));
            }
            if ip.len() == 0 && fp.len() == 0 {
                return None;
            }
            if !all_digits_exec(fp) {
                return None;
            }
            let int_part: u64 = if ip.len() == 0 {
                0
            } else {
                match parse_digits(ip, STAT_INT_LIMIT) {
                    Some(v) => v,
                    None => {
                        return None;
                    },
                }
            };
            let frac = frac_milli_exec(fp);
            proof {
                if ip@.len() > 0 {
                    lemma_digits_value_nonneg(ip@);
                }
            }
            Some(int_part * 1000 + frac)
        },
    }
}

/// Formats a scaled statistic back into its table text.
pub fn format_stat(v: u64) -> (r: Vec<u8>)
    ensures
        r@ == stat_text(v),
{
    let mut out = format_u64(v / 1000);
    out.push(46);
    let f: u64 = v % 1000;
    out.push((f / 100) as u8 + 48);
    out.push(((f / 10) % 10) as u8 + 48);
    out.push((f % 10) as u8 + 48);
    proof {
        assert(f / 100 % 10 == f / 100);
        assert(out@ =~= stat_text(v));
    }
    out
}

/// Formatting a scaled statistic and parsing it back returns the same value.
pub proof fn lemma_stat_round_trip(v: u64)
    requires
        v <= STAT_MAX,
    ensures
        parse_stat_spec(stat_text(v)) == Some(v),
{
    let s = stat_text(v);
    let ip = dec_digits((v / 1000) as nat);
    let fp = frac3_digits((v % 1000) as nat);
    lemma_dec_digits_value((v / 1000) as nat);
    assert(s[ip.len() as int] == 46);
    assert forall|j: int| 0 <= j < ip.len() implies s[j] != 46 by {
        assert(s[j] == ip[j]);
        assert(is_digit(ip[j]));
    }
    lemma_index_of_first_at(s, 46, ip.len() as int);
    assert(s.take(ip.len() as int) =~= ip);
    assert(s.skip(ip.len() as int + 1) =~= fp);
    let f = (v % 1000) as nat;
    assert(all_digits(fp)) by {
        assert(is_digit(fp[0]) && is_digit(fp[1]) && is_digit(fp[2]));
    }
    assert(fp.take(3) =~= fp);
    assert(fp =~= seq![fp[0], fp[1], fp[2]]);
    lemma_digits_value3(fp[0], fp[1], fp[2]);
    assert(digits_value(fp) == ((f / 100 % 10) * 10 + (f / 10 % 10)) * 10 + (f % 10));
    assert((f / 100 % 10) * 100 + (f / 10 % 10) * 10 + (f % 10) == f) by (nonlinear_arith)
        requires
            f == (v % 1000) as nat,
    ;
    assert(frac_milli(fp) == f);
    vstd::arithmetic::div_mod::lemma_fundamental_div_mod(v as int, 1000);
}

} // verus!
