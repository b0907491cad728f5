//! Text primitives shared by the other modules: UTF-8 byte lengths, string
//! comparison, character classes and decimal numerals.

use vstd::prelude::*;
use vstd::std_specs::iter::IteratorSpec;
use vstd::utf8::*;

verus! {

/// Number of bytes that `s` occupies when encoded as UTF-8.
pub open spec fn utf8_len(s: Seq<char>) -> nat {
    encode_utf8(s).len()
}

/// Encoding distributes over concatenation.
pub proof fn lemma_utf8_concat(a: Seq<char>, b: Seq<char>)
    ensures
        encode_utf8(a + b) == encode_utf8(a) + encode_utf8(b),
        utf8_len(a + b) == utf8_len(a) + utf8_len(b),
    decreases a.len(),
{
    if a.len() > 0 {
        assert((a + b).drop_first() == a.drop_first() + b);
        lemma_utf8_concat(a.drop_first(), b);
        assert(encode_utf8(a + b) == encode_scalar(a[0] as u32) + (encode_utf8(a.drop_first())
            + encode_utf8(b)));
    }
}

/// Every character takes between one and four bytes.
pub proof fn lemma_utf8_char(c: char)
    ensures
        1 <= utf8_len(seq![c]) <= 4,
        c <= '\x7f' ==> utf8_len(seq![c]) == 1,
{
    let s = seq![c];
    assert(encode_utf8(s.drop_first()) == Seq::<u8>::empty());
}

/// Appending one character adds at least one byte.
pub proof fn lemma_utf8_push(s: Seq<char>, c: char)
    ensures
        utf8_len(s.push(c)) == utf8_len(s) + utf8_len(seq![c]),
        utf8_len(s.push(c)) > utf8_len(s),
{
    assert(s.push(c) == s + seq![c]);
    lemma_utf8_concat(s, seq![c]);
    lemma_utf8_char(c);
}

/// Text takes at least one byte per character.
pub proof fn lemma_utf8_len_lower(s: Seq<char>)
    ensures
        utf8_len(s) >= s.len(),
    decreases s.len(),
{
    if s.len() > 0 {
        assert(s == s.drop_last().push(s.last()));
        lemma_utf8_push(s.drop_last(), s.last());
        lemma_utf8_len_lower(s.drop_last());
    }
}

/// A prefix of a text takes no more bytes than the text.
pub proof fn lemma_utf8_prefix(s: Seq<char>, k: int)
    requires
        0 <= k <= s.len(),
    ensures
        utf8_len(s.take(k)) + utf8_len(s.skip(k)) == utf8_len(s),
{
    assert(s == s.take(k) + s.skip(k));
    lemma_utf8_concat(s.take(k), s.skip(k));
}

/// Text made of ASCII characters only takes one byte per character.
pub proof fn lemma_utf8_ascii(s: Seq<char>)
    requires
        is_ascii_chars(s),
    ensures
        utf8_len(s) == s.len(),
{
    is_ascii_chars_encode_utf8(s);
}

/// Trusted: `String::push` appends the one character `c` to the end of
/// `s` and changes nothing else.
#[verifier::external_body]
pub(crate) fn push_char(s: &mut String, c: char)
    ensures
        final(s)@ == old(s)@.push(c),
{
    s.push(c);
}

/// Appends `count` copies of `c` to `out`.
pub fn push_repeat(out: &mut String, c: char, count: usize)
    ensures
        final(out)@ == old(out)@ + Seq::new(count as nat, |i: int| c),
{
    let mut done: usize = 0;
    while done < count
        invariant
            done <= count,
            out@ == old(out)@ + Seq::new(done as nat, |i: int| c),
        decreases count - done,
    {
        push_char(out, c);
        done += 1;
    }
}

/// Length of `s` in bytes.
pub fn byte_len(s: &str) -> (n: usize)
    ensures
        n == utf8_len(s@),
{
    s.as_bytes().len()
}

/// Two strings hold the same text exactly when they hold the same bytes.
pub fn str_eq(a: &str, b: &str) -> (r: bool)
    ensures
        r == (a@ == b@),
{
    let x = a.as_bytes();
    let y = b.as_bytes();
    proof {
        encode_utf8_decode_utf8(a@);
        encode_utf8_decode_utf8(b@);
    }
    if x.len() != y.len() {
        return false;
    }
    let mut i: usize = 0;
    while i < x.len()
        invariant
            i <= x.len(),
            x.len() == y.len(),
            x@ == encode_utf8(a@),
            y@ == encode_utf8(b@),
            forall|j: int| 0 <= j < i ==> x@[j] == y@[j],
        decreases x.len() - i,
    {
        if x[i] != y[i] {
            return false;
        }
        i += 1;
    }
    assert(x@ =~= y@);
    true
}

/// Whether Unicode counts `c` as white space (`White_Space`).
pub open spec fn is_white_space(c: char) -> bool {
    ||| '\u{9}' <= c <= '\u{d}'
    ||| c == ' '
    ||| c == '\u{85}'
    ||| c == '\u{a0}'
    ||| c == '\u{1680}'
    ||| '\u{2000}' <= c <= '\u{200a}'
    ||| c == '\u{2028}'
    ||| c == '\u{2029}'
    ||| c == '\u{202f}'
    ||| c == '\u{205f}'
    ||| c == '\u{3000}'
}

/// Tells whether `c` is white space.
pub fn is_whitespace(c: char) -> (r: bool)
    ensures
        r == is_white_space(c),
{
    ('\u{9}' <= c && c <= '\u{d}') || c == ' ' || c == '\u{85}' || c == '\u{a0}' || c
        == '\u{1680}' || ('\u{2000}' <= c && c <= '\u{200a}') || c == '\u{2028}' || c
        == '\u{2029}' || c == '\u{202f}' || c == '\u{205f}' || c == '\u{3000}'
}

/// Whether `c` is one of the decimal digits `0` to `9`.
pub open spec fn is_digit(c: char) -> bool {
    '0' <= c <= '9'
}

/// The number that the digit `c` stands for.
pub open spec fn digit_value(c: char) -> nat
    recommends
        is_digit(c),
{
    (c as nat - '0' as nat) as nat
}

/// The digit that stands for `d`.
pub open spec fn digit_char(d: nat) -> char
    recommends
        d < 10,
{
    ('0' as nat + d) as char
}

/// Whether every character of `s` is a decimal digit.
pub open spec fn all_digits(s: Seq<char>) -> bool {
    forall|i: int| 0 <= i < s.len() ==> is_digit(#[trigger] s[i])
}

/// The number that the digits of `s` spell, most significant digit first.
pub open spec fn decimal_value(s: Seq<char>) -> nat
    recommends
        all_digits(s),
    decreases s.len(),
{
    if s.len() == 0 {
        0
    } else {
        10 * decimal_value(s.drop_last()) + digit_value(s.last())
    }
}

/// The decimal numeral of `n`, without leading zeros.
pub open spec fn decimal(n: nat) -> Seq<char>
    decreases n,
{
    if n < 10 {
        seq![digit_char(n)]
    } else {
        decimal(n / 10).push(digit_char(n % 10))
    }
}

/// The decimal numeral of `n`, with a leading minus sign if `n` is negative.
pub open spec fn decimal_signed(n: int) -> Seq<char> {
    if n < 0 {
        seq!['-'] + decimal((-n) as nat)
    } else {
        decimal(n as nat)
    }
}

/// A numeral is made of ASCII characters, at least one of them.
pub proof fn lemma_decimal_ascii(n: nat)
    ensures
        decimal(n).len() >= 1,
        is_ascii_chars(decimal(n)),
        all_digits(decimal(n)),
    decreases n,
{
    if n >= 10 {
        lemma_decimal_ascii(n / 10);
    }
}

/// A prefix of a digit string spells no more than the whole string.
pub proof fn lemma_decimal_value_prefix(s: Seq<char>, k: int)
    requires
        0 <= k <= s.len(),
    ensures
        decimal_value(s.take(k)) <= decimal_value(s),
    decreases s.len(),
{
    if k == s.len() {
        assert(s.take(k) == s);
    } else {
        assert(s.drop_last().take(k) == s.take(k));
        lemma_decimal_value_prefix(s.drop_last(), k);
    }
}

/// The numeral of the number that a digit string spells is no longer than
/// the string: reading a number drops leading zeros and nothing else.
pub proof fn lemma_decimal_of_value_len(s: Seq<char>)
    requires
        s.len() >= 1,
        all_digits(s),
    ensures
        1 <= decimal(decimal_value(s)).len() <= s.len(),
    decreases s.len(),
{
    let t = s.drop_last();
    let v = decimal_value(s);
    lemma_decimal_ascii(v);
    if v >= 10 {
        assert(v / 10 == decimal_value(t));
        assert(all_digits(t));
        lemma_decimal_of_value_len(t);
    }
}

/// A digit string that is as long as the numeral of its value is that
/// numeral: it has no leading zeros.
pub proof fn lemma_decimal_of_value(s: Seq<char>)
    requires
        s.len() >= 1,
        all_digits(s),
        decimal(decimal_value(s)).len() == s.len(),
    ensures
        decimal(decimal_value(s)) == s,
    decreases s.len(),
{
    let t = s.drop_last();
    let v = decimal_value(s);
    if v >= 10 {
        assert(v / 10 == decimal_value(t));
        assert(all_digits(t));
        lemma_decimal_of_value(t);
    }
}

/// Within the bytes of three texts in a row, the bytes of the middle one
/// stand right after the bytes of the first.
pub proof fn lemma_utf8_middle(a: Seq<char>, b: Seq<char>, c: Seq<char>)
    ensures
        utf8_len(a + b + c) == utf8_len(a) + utf8_len(b) + utf8_len(c),
        encode_utf8(a + b + c).subrange(
            utf8_len(a) as int,
            (utf8_len(a) + utf8_len(b)) as int,
        ) == encode_utf8(b),
{
    lemma_utf8_concat(a, b);
    lemma_utf8_concat(a + b, c);
    assert(encode_utf8(a + b + c).subrange(
        utf8_len(a) as int,
        (utf8_len(a) + utf8_len(b)) as int,
    ) =~= encode_utf8(b));
}

/// The one-character string that holds the digit for `d`.
fn digit_str(d: usize) -> (r: &'static str)
    requires
        d < 10,
    ensures
        r@ == seq![digit_char(d as nat)],
{
    proof {
        reveal_strlit("0");
        reveal_strlit("1");
        reveal_strlit("2");
        reveal_strlit("3");
        reveal_strlit("4");
        reveal_strlit("5");
        reveal_strlit("6");
        reveal_strlit("7");
        reveal_strlit("8");
        reveal_strlit("9");
    }
    let r = if d == 0 {
        "0"
    } else if d == 1 {
        "1"
    } else if d == 2 {
        "2"
    } else if d == 3 {
        "3"
    } else if d == 4 {
        "4"
    } else if d == 5 {
        "5"
    } else if d == 6 {
        "6"
    } else if d == 7 {
        "7"
    } else if d == 8 {
        "8"
    } else {
        "9"
    };
    r
}

/// Appends the decimal numeral of `n` to `out`.
pub fn push_decimal(out: &mut String, n: usize)
    ensures
        final(out)@ == old(out)@ + decimal(n as nat),
    decreases n,
{
    if n >= 10 {
        push_decimal(out, n / 10);
    }
    out.append(digit_str(n % 10));
}

/// Ten to the power `k`.
spec fn pow10(k: nat) -> nat
    decreases k,
{
    if k == 0 {
        1
    } else {
        10 * pow10((k - 1) as nat)
    }
}

/// A number below ten to the `k` has a numeral of at most `k` digits.
proof fn lemma_decimal_len_bound(n: nat, k: nat)
    requires
        k >= 1,
        n < pow10(k),
    ensures
        decimal(n).len() <= k,
    decreases k,
{
    if n >= 10 {
        assert(pow10(1) == 10) by {
            reveal_with_fuel(pow10, 2);
        }
        lemma_decimal_len_bound(n / 10, (k - 1) as nat);
    }
}

/// Number of characters in the decimal numeral of `v`, sign included.
pub fn decimal_len(v: i64) -> (r: usize)
    ensures
        r == decimal_signed(v as int).len(),
        1 <= r <= 20,
{
    let mut count: usize = if v < 0 {
        2
    } else {
        1
    };
    let mut rest: u64 = if v < 0 {
        (-(v + 1)) as u64 + 1
    } else {
        v as u64
    };
    let ghost magnitude = rest as nat;
    let ghost sign: nat = if v < 0 {
        1
    } else {
        0
    };
    proof {
        assert(pow10(19) == 10_000_000_000_000_000_000nat) by {
            reveal_with_fuel(pow10, 20);
        }
        lemma_decimal_len_bound(magnitude, 19);
        lemma_decimal_ascii(magnitude);
    }
    while rest >= 10
        invariant
            count + decimal(rest as nat).len() == 1 + sign + decimal(magnitude).len(),
            sign <= 1,
            decimal(magnitude).len() <= 19,
            decimal(rest as nat).len() >= 1,
        decreases rest,
    {
        rest = rest / 10;
        count += 1;
        proof {
            lemma_decimal_ascii(rest as nat);
        }
    }
    count
}

/// The signed 64-bit number that `s` spells, if `s` is a non-empty string
/// of decimal digits whose value such a number can hold.
pub open spec fn decimal_i64(s: Seq<char>) -> Option<i64> {
    if s.len() > 0 && all_digits(s) && decimal_value(s) <= i64::MAX {
        Some(decimal_value(s) as i64)
    } else {
        None
    }
}

/// Reads a string of decimal digits as a signed 64-bit number.
pub fn parse_decimal(s: &str) -> (r: Option<i64>)
    ensures
        r == decimal_i64(s@),
{
    let mut it = s.chars();
    let mut value: i64 = 0;
    let mut seen = false;
    let ghost mut i: int = 0;
    loop
        invariant
            0 <= i <= s@.len(),
            it.remaining() == s@.skip(i),
            it.obeys_prophetic_iter_laws(),
            all_digits(s@.take(i)),
            value == decimal_value(s@.take(i)),
            seen == (i > 0),
        decreases s@.len() - i,
    {
        match it.next() {
            None => {
                assert(s@.take(i) == s@);
                return if seen {
                    Some(value)
                } else {
                    None
                };
            },
            Some(c) => {
                if !('0' <= c && c <= '9') {
                    return None;
                }
                let d = (c as u32 - '0' as u32) as i64;
                proof {
                    assert(s@.take(i + 1).drop_last() == s@.take(i));
                    assert(all_digits(s@.take(i + 1)));
                }
                if value > (i64::MAX - d) / 10 {
                    proof {
                        lemma_decimal_value_prefix(s@, i + 1);
                    }
                    return None;
                }
                value = value * 10 + d;
                seen = true;
                proof {
                    i = i + 1;
                }
            },
        }
    }
}

} // verus!
