use vstd::prelude::*;

verus! {

/// ASCII code of the digit `d` (0..=9).
pub open spec fn digit_byte(d: int) -> u8 {
    (48 + d) as u8
}

/// Whether `b` is an ASCII digit.
pub open spec fn is_digit(b: u8) -> bool {
    48 <= b && b <= 57
}

/// Whether every byte of `s` is an ASCII digit.
pub open spec fn all_digits(s: Seq<u8>) -> bool {
    forall|i: int| 0 <= i < s.len() ==> is_digit(#[trigger] s[i])
}

/// Value of a string of ASCII digits read in base ten.
pub open spec fn digits_value(s: Seq<u8>) -> int
    decreases s.len(),
{
    if s.len() == 0 {
        0
    } else {
        digits_value(s.drop_last()) * 10 + (s.last() - 48)
    }
}

/// Shortest base-ten text of `n` (no sign, no leading zero).
pub open spec fn decimal(n: nat) -> Seq<u8>
    decreases n,
{
    if n < 10 {
        seq![digit_byte(n as int)]
    } else {
        decimal(n / 10).push(digit_byte((n % 10) as int))
    }
}

/// Base-ten text of an integer: a minus sign before the magnitude when negative.
pub open spec fn signed_decimal(v: int) -> Seq<u8> {
    if v < 0 {
        seq![45u8] + decimal((-v) as nat)
    } else {
        decimal(v as nat)
    }
}

/// The digits of an unsigned integer text: what follows an optional leading `+`.
pub open spec fn unsigned_digits(s: Seq<u8>) -> Seq<u8> {
    if s.len() > 0 && s[0] == 43u8 {
        s.drop_first()
    } else {
        s
    }
}

/// The number an unsigned integer text denotes, as std's `FromStr` for the
/// unsigned integer types reads it: an optional `+`, then one or more ASCII
/// digits; `None` for anything else.
pub open spec fn unsigned_text_value(s: Seq<u8>) -> Option<int> {
    let d = unsigned_digits(s);
    if d.len() > 0 && all_digits(d) {
        Some(digits_value(d))
    } else {
        None
    }
}

/// The number a signed integer text denotes, as std's `FromStr` for the
/// signed integer types reads it: an optional `+` or `-`, then one or more
/// ASCII digits; `None` for anything else.
pub open spec fn signed_text_value(s: Seq<u8>) -> Option<int> {
    if s.len() > 0 && s[0] == 45u8 {
        let d = s.drop_first();
        if d.len() > 0 && all_digits(d) {
            Some(-digits_value(d))
        } else {
            None
        }
    } else {
        unsigned_text_value(s)
    }
}

/// A digit string's value is at least 0.
pub proof fn lemma_digits_value_nonneg(s: Seq<u8>)
    requires
        all_digits(s),
    ensures
        digits_value(s) >= 0,
    decreases s.len(),
{
    if s.len() > 0 {
        assert(is_digit(s[s.len() - 1]));
        lemma_digits_value_nonneg(s.drop_last());
    }
}

/// Appending digits never lowers the value of a digit string.
pub proof fn lemma_digits_value_grows(a: Seq<u8>, b: Seq<u8>)
    requires
        all_digits(a),
        all_digits(b),
    ensures
        digits_value(a + b) >= digits_value(a),
    decreases b.len(),
{
    if b.len() == 0 {
        assert(a + b =~= a);
    } else {
        let b1 = b.drop_last();
        assert((a + b).drop_last() =~= a + b1);
        assert(is_digit(b[b.len() - 1]));
        lemma_digits_value_grows(a, b1);
        assert forall|i: int| 0 <= i < (a + b1).len() implies is_digit(#[trigger] (a + b1)[i]) by {
            if i < a.len() {
                assert((a + b1)[i] == a[i]);
            } else {
                assert((a + b1)[i] == b1[i - a.len()]);
                assert(b1[i - a.len()] == b[i - a.len()]);
            }
        }
        lemma_digits_value_nonneg(a + b1);
    }
}

/// The text of `n` is a nonempty digit string without a leading `+` whose value is `n`.
pub proof fn lemma_decimal_reads_back(n: nat)
    ensures
        decimal(n).len() > 0,
        all_digits(decimal(n)),
        digits_value(decimal(n)) == n,
        decimal(n)[0] != 43u8,
        decimal(n)[0] != 45u8,
    decreases n,
{
    if n < 10 {
        let s = seq![digit_byte(n as int)];
        assert(s.drop_last() =~= Seq::<u8>::empty());
        assert(digit_byte(n as int) == 48 + n);
        assert(decimal(n) == s);
        assert(digits_value(s) == digits_value(s.drop_last()) * 10 + (s.last() - 48));
    } else {
        lemma_decimal_reads_back(n / 10);
        let p = decimal(n / 10);
        let s = p.push(digit_byte((n % 10) as int));
        assert(s.drop_last() =~= p);
        assert(digit_byte((n % 10) as int) == 48 + n % 10);
        assert(n == (n / 10) * 10 + n % 10);
        assert(decimal(n) == s);
        assert(digits_value(s) == digits_value(s.drop_last()) * 10 + (s.last() - 48));
        assert(s[0] == p[0]);
        assert forall|i: int| 0 <= i < s.len() implies is_digit(#[trigger] s[i]) by {
            if i < p.len() {
                assert(s[i] == p[i]);
            }
        }
    }
}

/// Reading back the text written for a natural number gives that number.
pub proof fn lemma_unsigned_round_trip(n: nat)
    ensures
        unsigned_text_value(decimal(n)) == Some(n as int),
{
    lemma_decimal_reads_back(n);
}

/// Reading back the text written for an integer gives that integer.
pub proof fn lemma_signed_round_trip(v: int)
    ensures
        signed_text_value(signed_decimal(v)) == Some(v),
{
    if v < 0 {
        let m = (-v) as nat;
        lemma_decimal_reads_back(m);
        let s = seq![45u8] + decimal(m);
        assert(s.drop_first() =~= decimal(m));
        assert(s[0] == 45u8);
    } else {
        lemma_decimal_reads_back(v as nat);
    }
}

/// `t` is the shortest base-ten text of `n`: one or more ASCII digits
/// reading `n`, with no leading zero unless `t` is the single digit `0`.
pub open spec fn canonical_digits(t: Seq<u8>, n: int) -> bool {
    &&& t.len() > 0
    &&& all_digits(t)
    &&& digits_value(t) == n
    &&& (t[0] == 48u8 ==> t.len() == 1)
}

/// `t` is the shortest base-ten text of the integer `v`: a `-` before the
/// shortest text of the magnitude when `v` is negative, the shortest text of
/// `v` otherwise.
pub open spec fn canonical_signed(t: Seq<u8>, v: int) -> bool {
    if v < 0 {
        t.len() > 1 && t[0] == 45u8 && canonical_digits(t.drop_first(), -v)
    } else {
        canonical_digits(t, v)
    }
}

/// The text of `n` begins with `0` only when `n` is zero.
proof fn lemma_decimal_leading_zero(n: nat)
    ensures
        decimal(n)[0] == 48u8 ==> n == 0,
    decreases n,
{
    if n >= 10 {
        lemma_decimal_leading_zero(n / 10);
        lemma_decimal_reads_back(n / 10);
        assert(decimal(n)[0] == decimal(n / 10)[0]);
    }
}

/// The text written for a natural number is its shortest base-ten text.
pub proof fn lemma_decimal_is_canonical(n: nat)
    ensures
        canonical_digits(decimal(n), n as int),
{
    lemma_decimal_reads_back(n);
    lemma_decimal_leading_zero(n);
}

/// The text written for an integer is its shortest base-ten text, signed.
pub proof fn lemma_signed_decimal_is_canonical(v: int)
    ensures
        canonical_signed(signed_decimal(v), v),
{
    if v < 0 {
        let m = (-v) as nat;
        lemma_decimal_is_canonical(m);
        let s = seq![45u8] + decimal(m);
        assert(s.drop_first() =~= decimal(m));
    } else {
        lemma_decimal_is_canonical(v as nat);
    }
}

/// Appends the decimal text of `n` to `buf`.
pub fn push_unsigned(buf: &mut Vec<u8>, n: u64)
    ensures
        final(buf)@ == old(buf)@ + decimal(n as nat),
    decreases n,
{
    let ghost start = buf@;
    if n >= 10 {
        push_unsigned(buf, n / 10);
    }
    let d: u8 = (n % 10) as u8;
    buf.push(48u8 + d);
    assert(buf@ =~= start + decimal(n as nat));
}

/// Appends the decimal text of `v`, with a leading `-` when negative, to `buf`.
pub fn push_signed(buf: &mut Vec<u8>, v: i32)
    ensures
        final(buf)@ == old(buf)@ + signed_decimal(v as int),
{
    let ghost start = buf@;
    if v < 0 {
        buf.push(45u8);
        let m: u64 = (0i64 - (v as i64)) as u64;
        push_unsigned(buf, m);
        assert(buf@ =~= start + signed_decimal(v as int));
    } else {
        push_unsigned(buf, v as u64);
    }
}

/// The value of a nonempty digit string when it does not exceed `limit`; `None` otherwise.
pub open spec fn bounded_value(d: Seq<u8>, limit: int) -> Option<int> {
    if d.len() > 0 && all_digits(d) && digits_value(d) <= limit {
        Some(digits_value(d))
    } else {
        None
    }
}

/// Reads `s[start..]` as a nonempty string of ASCII digits whose value is at
/// most `limit`.
fn parse_digits(s: &[u8], start: usize, limit: u64) -> (r: Option<u64>)
    requires
        start <= s@.len(),
    ensures
        r is Some <==> bounded_value(s@.subrange(start as int, s@.len() as int), limit as int) is Some,
        r is Some ==> r.unwrap() as int == bounded_value(
            s@.subrange(start as int, s@.len() as int),
            limit as int,
        ).unwrap(),
{
    let ghost d = s@.subrange(start as int, s@.len() as int);
    if start == s.len() {
        return None;
    }
    let mut acc: u64 = 0;
    let mut i: usize = start;
    while i < s.len()
        invariant
            start < s@.len(),
            start <= i <= s@.len(),
            d == s@.subrange(start as int, s@.len() as int),
            all_digits(s@.subrange(start as int, i as int)),
            acc as int == digits_value(s@.subrange(start as int, i as int)),
            acc <= limit,
        decreases s@.len() - i,
    {
        let b: u8 = s[i];
        let ghost pre = s@.subrange(start as int, i as int);
        let ghost next = s@.subrange(start as int, i + 1);
        assert(next.drop_last() =~= pre);
        if b < 48u8 || b > 57u8 {
            assert(!is_digit(d[i - start]));
            return None;
        }
        assert(all_digits(next)) by {
            assert forall|j: int| 0 <= j < next.len() implies is_digit(#[trigger] next[j]) by {
                if j < pre.len() {
                    assert(next[j] == pre[j]);
                }
            }
        }
        let v: u64 = (b - 48u8) as u64;
        assert(digits_value(next) == digits_value(pre) * 10 + v);
        if v > limit || acc > (limit - v) / 10 {
            proof {
                assert(acc * 10 + v > limit) by (nonlinear_arith)
                    requires
                        v > limit || acc > (limit - v) / 10,
                        v <= 9,
                ;
                if all_digits(d) {
                    let rest = s@.subrange(i + 1, s@.len() as int);
                    assert(next + rest =~= d);
                    assert(all_digits(rest)) by {
                        assert forall|j: int| 0 <= j < rest.len() implies is_digit(#[trigger] rest[j]) by {
                            assert(rest[j] == d[j + (i + 1 - start)]);
                        }
                    }
                    lemma_digits_value_grows(next, rest);
                }
            }
            return None;
        }
        assert(acc * 10 + v <= limit) by (nonlinear_arith)
            requires
                v <= limit,
                acc <= (limit - v) / 10,
        ;
        acc = acc * 10 + v;
        i = i + 1;
    }
    assert(d =~= s@.subrange(start as int, i as int));
    Some(acc)
}

/// What `str::parse::<usize>` gives for the UTF-8 text `s`: the number when
/// `s` is an optional `+` followed by one or more ASCII digits and the
/// value fits in `usize`; `None` otherwise.
pub fn parse_usize(s: &[u8]) -> (r: Option<usize>)
    ensures
        r is Some <==> (unsigned_text_value(s@) is Some && unsigned_text_value(s@).unwrap()
            <= usize::MAX),
        r is Some ==> r.unwrap() as int == unsigned_text_value(s@).unwrap(),
{
    let start: usize = if s.len() > 0 && s[0] == 43u8 { 1 } else { 0 };
    assert(unsigned_digits(s@) =~= s@.subrange(start as int, s@.len() as int));
    match parse_digits(s, start, usize::MAX as u64) {
        Some(v) => Some(v as usize),
        None => None,
    }
}

/// What `str::parse::<u32>` gives for the UTF-8 text `s`: the number when
/// `s` is an optional `+` followed by one or more ASCII digits and the
/// value fits in `u32`; `None` otherwise.
pub fn parse_u32(s: &[u8]) -> (r: Option<u32>)
    ensures
        r is Some <==> (unsigned_text_value(s@) is Some && unsigned_text_value(s@).unwrap()
            <= u32::MAX),
        r is Some ==> r.unwrap() as int == unsigned_text_value(s@).unwrap(),
{
    let start: usize = if s.len() > 0 && s[0] == 43u8 { 1 } else { 0 };
    assert(unsigned_digits(s@) =~= s@.subrange(start as int, s@.len() as int));
    match parse_digits(s, start, u32::MAX as u64) {
        Some(v) => Some(v as u32),
        None => None,
    }
}

/// What `str::parse::<i32>` gives for the UTF-8 text `s`: the number when
/// `s` is an optional `+` or `-` followed by one or more ASCII digits and
/// the value fits in `i32`; `None` otherwise.
pub fn parse_i32(s: &[u8]) -> (r: Option<i32>)
    ensures
        r is Some <==> (signed_text_value(s@) is Some && i32::MIN <= signed_text_value(s@).unwrap()
            <= i32::MAX),
        r is Some ==> r.unwrap() as int == signed_text_value(s@).unwrap(),
{
    if s.len() > 0 && s[0] == 45u8 {
        assert(s@.drop_first() =~= s@.subrange(1, s@.len() as int));
        match parse_digits(s, 1, 0x8000_0000u64) {
            Some(m) => {
                assert(m <= 0x8000_0000u64);
                Some((0i64 - (m as i64)) as i32)
            },
            None => None,
        }
    } else {
        let start: usize = if s.len() > 0 && s[0] == 43u8 { 1 } else { 0 };
        assert(unsigned_digits(s@) =~= s@.subrange(start as int, s@.len() as int));
        match parse_digits(s, start, 0x7fff_ffffu64) {
            Some(v) => Some(v as i32),
            None => None,
        }
    }
}

} // verus!
