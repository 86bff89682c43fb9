//! Conversions between strings and their characters, and decimal numbers in text.

use vstd::prelude::*;

verus! {

/// The characters of `s`, in order.
pub(crate) fn chars_of(s: &str) -> (v: Vec<char>)
    ensures
        v@ == s@,
{
    broadcast use vstd::string::axiom_spec_iter;

    let mut v: Vec<char> = Vec::new();
    for c in iter: s.chars()
        invariant
            v@ == iter.seq().take(iter.index() as int),
    {
        v.push(c);
    }
    assert(v@ =~= s@);
    v
}

/// `String::from_iter`: the string made of the given characters, in order.
#[verifier::external_body]
pub(crate) fn string_of(chars: &[char]) -> (s: String)
    ensures
        s@ == chars@,
{
    String::from_iter(chars)
}

/// The character of the decimal digit `d` (`0 <= d < 10`).
pub open spec fn digit_char(d: int) -> char {
    (d + 48) as char
}

/// `c` is one of the ASCII digits `0` to `9`.
pub open spec fn is_digit(c: char) -> bool {
    '0' <= c <= '9'
}

/// The numeric value of the ASCII digit `c`.
pub open spec fn digit_value(c: char) -> int {
    (c as int) - 48
}

/// The decimal numeral of `n`, most significant digit first, without leading zeros.
pub open spec fn decimal(n: nat) -> Seq<char>
    decreases n,
{
    if n < 10 {
        seq![digit_char(n as int)]
    } else {
        decimal(n / 10).push(digit_char((n % 10) as int))
    }
}

/// Every character of `s` is a digit.
pub open spec fn all_digits(s: Seq<char>) -> bool {
    forall|i: int| 0 <= i < s.len() ==> is_digit(#[trigger] s[i])
}

/// The number that the digit string `s` denotes (0 for the empty string).
pub open spec fn digits_value(s: Seq<char>) -> nat
    decreases s.len(),
{
    if s.len() == 0 {
        0
    } else {
        (digits_value(s.drop_last()) * 10 + digit_value(s.last())) as nat
    }
}

/// What parsing `s` as a `u64` gives: an optional `+` (not alone), then one or
/// more ASCII digits whose value fits in a `u64`; anything else is refused.
pub open spec fn parse_u64_spec(s: Seq<char>) -> Option<u64> {
    let digits = if s.len() >= 2 && s[0] == '+' {
        s.drop_first()
    } else {
        s
    };
    if digits.len() > 0 && all_digits(digits) && digits_value(digits) <= u64::MAX {
        Some(digits_value(digits) as u64)
    } else {
        None
    }
}

proof fn lemma_digit_char(d: int)
    requires
        0 <= d < 10,
    ensures
        is_digit(digit_char(d)),
        digit_value(digit_char(d)) == d,
{
}

proof fn lemma_decimal_digits(n: nat)
    ensures
        decimal(n).len() > 0,
        all_digits(decimal(n)),
        digits_value(decimal(n)) == n,
        decimal(n)[0] != '+',
    decreases n,
{
    lemma_digit_char((n % 10) as int);
    if n < 10 {
        assert(decimal(n).drop_last() =~= Seq::<char>::empty());
        assert(digits_value(Seq::<char>::empty()) == 0);
    } else {
        lemma_decimal_digits(n / 10);
        let s = decimal(n);
        assert(s.last() == digit_char((n % 10) as int));
        assert((n / 10) * 10 + n % 10 == n);
        assert(s.drop_last() =~= decimal(n / 10));
        assert forall|i: int| 0 <= i < s.len() implies is_digit(#[trigger] s[i]) by {
            if i < s.len() - 1 {
                assert(s[i] == decimal(n / 10)[i]);
            }
        }
    }
}

/// Reading back a decimal numeral gives the number it was made from.
pub proof fn lemma_parse_decimal(n: u64)
    ensures
        parse_u64_spec(decimal(n as nat)) == Some(n),
{
    lemma_decimal_digits(n as nat);
}

fn digit_to_char(d: u64) -> (c: char)
    requires
        d < 10,
    ensures
        c == digit_char(d as int),
{
    ((d as u8) + 48u8) as char
}

fn push_decimal(n: u64, out: &mut Vec<char>)
    ensures
        final(out)@ == old(out)@ + decimal(n as nat),
    decreases n,
{
    if n < 10 {
        out.push(digit_to_char(n));
    } else {
        push_decimal(n / 10, out);
        out.push(digit_to_char(n % 10));
    }
}

/// The decimal numeral of `n`, as `format!("{}", n)` writes it.
pub fn format_u64(n: u64) -> (s: String)
    ensures
        s@ == decimal(n as nat),
{
    let mut chars: Vec<char> = Vec::new();
    push_decimal(n, &mut chars);
    string_of(chars.as_slice())
}

/// `n` spaces.
pub open spec fn spaces(n: nat) -> Seq<char> {
    Seq::new(n, |i: int| ' ')
}

/// `s` right-aligned in a field of `width` characters: spaces before it when it
/// is shorter, as `format!("{:>width$}", ..)` pads.
pub open spec fn pad_left(s: Seq<char>, width: nat) -> Seq<char> {
    if s.len() < width {
        spaces((width - s.len()) as nat) + s
    } else {
        s
    }
}

/// The decimal numeral of `n` right-aligned in a field of `width` characters,
/// as `format!("{:>width$}", n)` writes it.
pub fn format_u64_padded(n: u64, width: usize) -> (s: String)
    ensures
        s@ == pad_left(decimal(n as nat), width as nat),
{
    let mut digits: Vec<char> = Vec::new();
    push_decimal(n, &mut digits);
    assert(digits@ =~= decimal(n as nat));
    let mut chars: Vec<char> = Vec::new();
    if digits.len() < width {
        let fill = width - digits.len();
        let mut k: usize = 0;
        while k < fill
            invariant
                k <= fill,
                chars@ =~= spaces(k as nat),
            decreases fill - k,
        {
            chars.push(' ');
            k = k + 1;
        }
    }
    let mut j: usize = 0;
    let ghost lead = chars@;
    while j < digits.len()
        invariant
            j <= digits.len(),
            chars@ =~= lead + digits@.subrange(0, j as int),
        decreases digits.len() - j,
    {
        chars.push(digits[j]);
        j = j + 1;
    }
    assert(digits@.subrange(0, j as int) =~= digits@);
    string_of(chars.as_slice())
}

/// Appends `n` spaces to `s`.
pub fn push_spaces(s: &mut String, n: usize)
    ensures
        final(s)@ == old(s)@ + spaces(n as nat),
{
    let mut k: usize = 0;
    while k < n
        invariant
            k <= n,
            s@ =~= old(s)@ + spaces(k as nat),
        decreases n - k,
    {
        s.append(" ");
        proof {
            reveal_strlit(" ");
        }
        k = k + 1;
    }
}

/// Parses `s` as a `u64` as `str::parse::<u64>` does: `None` exactly where it
/// reports an error.
pub fn parse_u64(s: &str) -> (r: Option<u64>)
    ensures
        r == parse_u64_spec(s@),
{
    let chars = chars_of(s);
    assert(chars@.subrange(0, chars@.len() as int) =~= s@);
    parse_u64_in(&chars, 0, chars.len())
}

/// Parses the characters `chars[lo..hi]` as a `u64`, as [`parse_u64`] does.
pub fn parse_u64_in(chars: &Vec<char>, lo: usize, hi: usize) -> (r: Option<u64>)
    requires
        lo <= hi <= chars.len(),
    ensures
        r == parse_u64_spec(chars@.subrange(lo as int, hi as int)),
{
    let ghost s = chars@.subrange(lo as int, hi as int);
    let mut start: usize = lo;
    if hi - lo >= 2 && chars[lo] == '+' {
        start = lo + 1;
    }
    let ghost digits = if s.len() >= 2 && s[0] == '+' { s.drop_first() } else { s };
    assert(digits =~= chars@.subrange(start as int, hi as int));
    if start == hi {
        return None;
    }
    let mut value: u64 = 0;
    let mut k: usize = start;
    while k < hi
        invariant
            lo <= start <= k <= hi <= chars.len(),
            s == chars@.subrange(lo as int, hi as int),
            digits == chars@.subrange(start as int, hi as int),
            digits == (if s.len() >= 2 && s[0] == '+' { s.drop_first() } else { s }),
            all_digits(chars@.subrange(start as int, k as int)),
            value == digits_value(chars@.subrange(start as int, k as int)),
        decreases hi - k,
    {
        let c = chars[k];
        if c < '0' || c > '9' {
            assert(!is_digit(c));
            assert(digits[k - start] == c);
            assert(!is_digit(digits[k - start]));
            assert(!all_digits(digits));
            return None;
        }
        let d = (c as u32 - 48) as u64;
        assert(d == digit_value(c));
        let ghost prefix = chars@.subrange(start as int, k as int);
        let ghost next = chars@.subrange(start as int, k + 1);
        assert(next.drop_last() =~= prefix);
        assert(next.last() == c);
        match value.checked_mul(10) {
            Some(v10) => match v10.checked_add(d) {
                Some(v) => {
                    value = v;
                },
                None => {
                    proof {
                        if all_digits(digits) {
                            lemma_prefix_value_bound(digits, (k + 1 - start) as int);
                        }
                    }
                    assert(next =~= digits.subrange(0, (k + 1 - start) as int));
                    return None;
                },
            },
            None => {
                proof {
                    if all_digits(digits) {
                        lemma_prefix_value_bound(digits, (k + 1 - start) as int);
                    }
                }
                assert(next =~= digits.subrange(0, (k + 1 - start) as int));
                return None;
            },
        }
        k = k + 1;
    }
    assert(chars@.subrange(start as int, k as int) =~= digits);
    Some(value)
}

/// The value of a digit string is at least that of any of its prefixes.
proof fn lemma_prefix_value_bound(s: Seq<char>, k: int)
    requires
        0 <= k <= s.len(),
        all_digits(s),
    ensures
        digits_value(s.subrange(0, k)) <= digits_value(s),
    decreases s.len() - k,
{
    if k < s.len() {
        lemma_prefix_value_bound(s, k + 1);
        let p = s.subrange(0, k + 1);
        assert(p.drop_last() =~= s.subrange(0, k));
        assert(is_digit(s[k]));
        assert(p.last() == s[k]);
    } else {
        assert(s.subrange(0, k) =~= s);
    }
}

} // verus!
