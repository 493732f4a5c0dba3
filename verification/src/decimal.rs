use vstd::prelude::*;

verus! {

/// The ASCII digit of `d` (for `d < 10`).
pub open spec fn digit_byte(d: nat) -> u8 {
    (48 + d) as u8
}

/// The decimal notation of `n`, without sign or leading zeros.
pub open spec fn decimal(n: nat) -> Seq<u8>
    decreases n,
{
    if n < 10 {
        seq![digit_byte(n)]
    } else {
        decimal(n / 10).push(digit_byte(n % 10))
    }
}

pub open spec fn is_digit(b: u8) -> bool {
    48 <= b <= 57
}

/// The number that a string of ASCII digits spells.
pub open spec fn digits_value(s: Seq<u8>) -> nat
    decreases s.len(),
{
    if s.len() == 0 {
        0
    } else {
        digits_value(s.drop_last()) * 10 + (s.last() - 48) as nat
    }
}

/// The digits of an unsigned number in text: an optional `+`, then at least one digit.
pub open spec fn unsigned_digits(s: Seq<u8>) -> Seq<u8> {
    if s.len() > 0 && s[0] == 43 {
        s.drop_first()
    } else {
        s
    }
}

/// What the standard library makes of text as a `usize`: `None` when the text
/// is not an optional `+` and one or more digits, or the number is too large.
pub open spec fn spec_parse_usize(s: Seq<u8>) -> Option<nat> {
    let d = unsigned_digits(s);
    if d.len() == 0 || !(forall|i: int| 0 <= i < d.len() ==> is_digit(#[trigger] d[i])) {
        None
    } else if digits_value(d) > usize::MAX {
        None
    } else {
        Some(digits_value(d))
    }
}

/// Writes `n` in decimal.
pub fn to_decimal(n: u64) -> (r: Vec<u8>)
    ensures
        r@ == decimal(n as nat),
    decreases n,
{
    if n < 10 {
        let mut v: Vec<u8> = Vec::new();
        v.push(48 + n as u8);
        assert(v@ =~= decimal(n as nat));
        v
    } else {
        let mut v = to_decimal(n / 10);
        v.push(48 + (n % 10) as u8);
        v
    }
}

proof fn lemma_digits_prefix_grows(s: Seq<u8>, k: int)
    requires
        0 <= k <= s.len(),
        forall|i: int| 0 <= i < s.len() ==> is_digit(#[trigger] s[i]),
    ensures
        digits_value(s.take(k)) <= digits_value(s),
    decreases s.len() - k,
{
    if k < s.len() {
        lemma_digits_prefix_grows(s, k + 1);
        assert(s.take(k + 1).drop_last() =~= s.take(k));
    } else {
        assert(s.take(k) =~= s);
    }
}

/// Reads text as a `usize` the way the standard library does.
pub fn parse_usize(s: &Vec<u8>) -> (r: Option<usize>)
    ensures
        r is Some ==> spec_parse_usize(s@) == Some(r.unwrap() as nat),
        r is None ==> spec_parse_usize(s@) is None,
{
    let n = s.len();
    let mut start: usize = 0;
    if n > 0 && s[0] == 43 {
        start = 1;
    }
    let ghost d = unsigned_digits(s@);
    assert(d =~= s@.subrange(start as int, n as int));
    if start == n {
        assert(d.len() == 0);
        assert(spec_parse_usize(s@) is None);
        return None;
    }
    let mut i = start;
    while i < n
        invariant
            start <= i <= n,
            n == s@.len(),
            d == s@.subrange(start as int, n as int),
            d == unsigned_digits(s@),
            forall|k: int| start <= k < i ==> is_digit(#[trigger] s@[k]),
        decreases n - i,
    {
        if s[i] < 48 || s[i] > 57 {
            assert(!is_digit(d[i - start]));
            return None;
        }
        i = i + 1;
    }
    assert(forall|k: int| 0 <= k < d.len() ==> is_digit(#[trigger] d[k])) by {
        assert forall|k: int| 0 <= k < d.len() implies is_digit(#[trigger] d[k]) by {
            assert(d[k] == s@[start + k]);
        }
    }
    let mut value: usize = 0;
    let mut j = start;
    while j < n
        invariant
            start <= j <= n,
            n == s@.len(),
            d == s@.subrange(start as int, n as int),
            d == unsigned_digits(s@),
            forall|k: int| 0 <= k < d.len() ==> is_digit(#[trigger] d[k]),
            value == digits_value(d.take(j - start)),
        decreases n - j,
    {
        let ghost pre = d.take(j - start);
        let ghost next = d.take(j - start + 1);
        assert(next.drop_last() =~= pre);
        assert(next.last() == s@[j as int]);
        let digit = (s[j] - 48) as usize;
        let times = match value.checked_mul(10) {
            Some(t) => t,
            None => {
                proof {
                    lemma_digits_prefix_grows(d, j - start + 1);
                }
                return None;
            },
        };
        value = match times.checked_add(digit) {
            Some(t) => t,
            None => {
                proof {
                    lemma_digits_prefix_grows(d, j - start + 1);
                }
                return None;
            },
        };
        j = j + 1;
    }
    assert(d.take(n - start) =~= d);
    Some(value)
}

/// The decimal notation of `n` is a nonempty string of digits without sign
/// that spells `n`.
pub proof fn lemma_decimal_digits(n: nat)
    ensures
        decimal(n).len() > 0,
        forall|i: int| 0 <= i < decimal(n).len() ==> is_digit(#[trigger] decimal(n)[i]),
        decimal(n)[0] != 43,
        digits_value(decimal(n)) == n,
    decreases n,
{
    if n >= 10 {
        lemma_decimal_digits(n / 10);
        assert(decimal(n).drop_last() =~= decimal(n / 10));
        assert(decimal(n).last() == digit_byte(n % 10));
        assert((n / 10) * 10 + n % 10 == n);
        assert(digit_byte(n % 10) - 48 == n % 10);
    } else {
        assert(decimal(n).drop_last() =~= Seq::<u8>::empty());
        assert(digits_value(Seq::<u8>::empty()) == 0);
        assert(digit_byte(n) - 48 == n);
    }
}

/// Reading back the decimal notation of a number gives the number: the keys
/// that the tree builder writes are the numbers that the key scan reads.
pub proof fn lemma_parse_decimal_roundtrip(n: nat)
    requires
        n <= usize::MAX,
    ensures
        spec_parse_usize(decimal(n)) == Some(n),
{
    lemma_decimal_digits(n);
}

} // verus!
