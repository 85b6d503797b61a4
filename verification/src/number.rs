use vstd::prelude::*;
use vstd::string::*;
use vstd::utf8::*;

verus! {

/// Whether `c` is one of the ten decimal digits.
pub open spec fn is_digit(c: char) -> bool {
    '0' <= c && c <= '9'
}

/// The number a decimal digit stands for.
pub open spec fn digit(c: char) -> nat {
    if is_digit(c) {
        (c as u32 - 48) as nat
    } else {
        0
    }
}

/// Whether every character of `t` is a decimal digit.
pub open spec fn all_digits(t: Seq<char>) -> bool {
    forall|i: int| 0 <= i < t.len() ==> is_digit(#[trigger] t[i])
}

/// The number that the digits of `t` write in base ten.
pub open spec fn magnitude(t: Seq<char>) -> nat
    decreases t.len(),
{
    if t.len() == 0 {
        0
    } else {
        10 * magnitude(t.drop_last()) + digit(t.last())
    }
}

/// The number written by `t`, where `t` is one or more digits and the
/// number is at most `limit`.
pub open spec fn magnitude_within(t: Seq<char>, limit: nat) -> Option<nat> {
    if t.len() > 0 && all_digits(t) && magnitude(t) <= limit {
        Some(magnitude(t))
    } else {
        None
    }
}

/// The count written by `t`: one or more digits, no sign, and a number
/// that fits.
pub open spec fn length_of(t: Seq<char>) -> Option<usize> {
    match magnitude_within(t, usize::MAX as nat) {
        Some(m) => Some(m as usize),
        None => None,
    }
}

/// The integer written by `t`: an optional `+` or `-`, then one or more
/// digits, and a number that fits in 64 bits with its sign.
pub open spec fn integer_of(t: Seq<char>) -> Option<i64> {
    if t.len() > 0 && t[0] == '-' {
        match magnitude_within(t.drop_first(), 0x8000_0000_0000_0000) {
            Some(m) => Some((-(m as int)) as i64),
            None => None,
        }
    } else if t.len() > 0 && t[0] == '+' {
        match magnitude_within(t.drop_first(), 0x7fff_ffff_ffff_ffff) {
            Some(m) => Some(m as i64),
            None => None,
        }
    } else {
        match magnitude_within(t, 0x7fff_ffff_ffff_ffff) {
            Some(m) => Some(m as i64),
            None => None,
        }
    }
}

/// The character that writes a digit.
pub open spec fn digit_char(d: nat) -> char {
    if d == 0 {
        '0'
    } else if d == 1 {
        '1'
    } else if d == 2 {
        '2'
    } else if d == 3 {
        '3'
    } else if d == 4 {
        '4'
    } else if d == 5 {
        '5'
    } else if d == 6 {
        '6'
    } else if d == 7 {
        '7'
    } else if d == 8 {
        '8'
    } else {
        '9'
    }
}

/// A number written in base ten, without leading zeros.
pub open spec fn decimal(n: nat) -> Seq<char>
    decreases n,
{
    if n < 10 {
        seq![digit_char(n)]
    } else {
        decimal(n / 10).push(digit_char(n % 10))
    }
}

/// An integer written in base ten, with `-` before a negative one.
pub open spec fn signed_decimal(n: int) -> Seq<char> {
    if n < 0 {
        seq!['-'] + decimal((-n) as nat)
    } else {
        decimal(n as nat)
    }
}

/// What `decimal` writes is read back as the same number.
pub proof fn lemma_decimal(n: nat)
    ensures
        decimal(n).len() > 0,
        all_digits(decimal(n)),
        magnitude(decimal(n)) == n,
    decreases n,
{
    if n < 10 {
        assert(digit(digit_char(n)) == n);
        assert(seq![digit_char(n)].drop_last() =~= Seq::<char>::empty());
        reveal_with_fuel(magnitude, 2);
    } else {
        lemma_decimal(n / 10);
        let d = decimal(n);
        assert(digit(digit_char(n % 10)) == n % 10);
        assert(d.drop_last() =~= decimal(n / 10));
        assert(d.last() == digit_char(n % 10));
    }
}

/// A count written in base ten is read back as the same count.
pub proof fn lemma_length_of_decimal(n: usize)
    ensures
        length_of(decimal(n as nat)) == Some(n),
{
    lemma_decimal(n as nat);
}

/// An integer written in base ten is read back as the same integer.
pub proof fn lemma_integer_of_decimal(n: i64)
    ensures
        integer_of(signed_decimal(n as int)) == Some(n),
{
    if n < 0 {
        let m = (-n) as nat;
        lemma_decimal(m);
        assert((seq!['-'] + decimal(m)).drop_first() =~= decimal(m));
    } else {
        lemma_decimal(n as nat);
        let d = decimal(n as nat);
        assert(is_digit(d[0]));
    }
}

/// Digits written behind others never make the number smaller.
pub proof fn lemma_magnitude_grows(t: Seq<char>, i: int)
    requires
        0 <= i <= t.len(),
    ensures
        magnitude(t.subrange(0, i)) <= magnitude(t),
    decreases t.len() - i,
{
    if i == t.len() {
        assert(t.subrange(0, i) =~= t);
    } else {
        lemma_magnitude_grows(t.drop_last(), i);
        assert(t.drop_last().subrange(0, i) =~= t.subrange(0, i));
    }
}

/// Reads the digits of `s` from `from` on.
fn digits_within(s: &str, from: usize, limit: u64) -> (r: Option<u64>)
    requires
        is_ascii(s),
        from <= s@.len(),
    ensures
        match magnitude_within(s@.subrange(from as int, s@.len() as int), limit as nat) {
            Some(m) => r == Some(m as u64),
            None => r is None,
        },
{
    let bytes = s.as_bytes();
    let n: usize = bytes.len();
    proof {
        is_ascii_chars_encode_utf8(s@);
    }
    let ghost d = s@.subrange(from as int, n as int);
    if from == n {
        return None;
    }
    let mut acc: u64 = 0;
    let mut i: usize = from;
    while i < n
        invariant
            from <= i <= n,
            n == s@.len(),
            n == bytes@.len(),
            d == s@.subrange(from as int, n as int),
            forall|j: int| 0 <= j < n ==> s@[j] as u8 == #[trigger] bytes@[j],
            is_ascii_chars(s@),
            all_digits(d.subrange(0, i - from)),
            acc == magnitude(d.subrange(0, i - from)),
            acc <= limit,
        decreases n - i,
    {
        let b: u8 = bytes[i];
        let ghost c = s@[i as int];
        assert(c == d[i - from]);
        assert(c as u32 <= 0x7f);
        if b < 48 || b > 57 {
            assert(!is_digit(c));
            return None;
        }
        assert(is_digit(c));
        let next: u128 = acc as u128 * 10 + (b - 48) as u128;
        proof {
            let longer = d.subrange(0, i - from + 1);
            assert(longer.drop_last() =~= d.subrange(0, i - from));
            assert(longer.last() == c);
            assert(next == magnitude(longer));
            lemma_magnitude_grows(d, i - from + 1);
        }
        if next > limit as u128 {
            return None;
        }
        acc = next as u64;
        i = i + 1;
        proof {
            assert forall|j: int| 0 <= j < i - from implies is_digit(
                #[trigger] d.subrange(0, i - from)[j],
            ) by {
                if j < i - from - 1 {
                    assert(d.subrange(0, i - from - 1)[j] == d.subrange(0, i - from)[j]);
                }
            }
        }
    }
    proof {
        assert(d.subrange(0, n - from) =~= d);
    }
    Some(acc)
}

/// Reads a count: one or more digits, no sign.
pub fn parse_length(s: &str) -> (r: Option<usize>)
    ensures
        r == length_of(s@),
{
    if !s.is_ascii() {
        proof {
            if all_digits(s@) {
                assert forall|i: int| 0 <= i < s@.len() implies '\0' <= #[trigger] s@[i]
                    <= '\u{7f}' by {
                    assert(is_digit(s@[i]));
                }
            }
        }
        return None;
    }
    proof {
        assert(s@.subrange(0, s@.len() as int) =~= s@);
    }
    match digits_within(s, 0, usize::MAX as u64) {
        Some(m) => Some(m as usize),
        None => None,
    }
}

/// Reads a signed integer: an optional `+` or `-`, then one or more digits.
pub fn parse_integer(s: &str) -> (r: Option<i64>)
    ensures
        r == integer_of(s@),
{
    if !s.is_ascii() {
        proof {
            let t = s@;
            let k: int = choose|k: int| 0 <= k < t.len() && !('\0' <= #[trigger] t[k] <= '\u{7f}');
            assert(!is_digit(t[k]));
            if t.len() > 0 && (t[0] == '-' || t[0] == '+') {
                assert(k > 0);
                assert(t.drop_first()[k - 1] == t[k]);
            }
        }
        return None;
    }
    let bytes = s.as_bytes();
    proof {
        is_ascii_chars_encode_utf8(s@);
        assert(s@.subrange(0, s@.len() as int) =~= s@);
        if s@.len() > 0 {
            assert(s@.drop_first() =~= s@.subrange(1, s@.len() as int));
            assert(s@[0] as u8 == bytes@[0]);
            assert(s@[0] as u32 <= 0x7f);
        }
    }
    if bytes.len() > 0 && bytes[0] == 45 {
        match digits_within(s, 1, 0x8000_0000_0000_0000) {
            Some(m) => {
                if m == 0x8000_0000_0000_0000 {
                    Some(i64::MIN)
                } else {
                    Some(-(m as i64))
                }
            },
            None => None,
        }
    } else if bytes.len() > 0 && bytes[0] == 43 {
        match digits_within(s, 1, 0x7fff_ffff_ffff_ffff) {
            Some(m) => Some(m as i64),
            None => None,
        }
    } else {
        match digits_within(s, 0, 0x7fff_ffff_ffff_ffff) {
            Some(m) => Some(m as i64),
            None => None,
        }
    }
}

} // verus!
