//! Characters, decimal integers and strings.
use vstd::prelude::*;
use vstd::utf8::{encode_utf8, encode_scalar, char_is_scalar, has_width_1_encoding, has_width_2_encoding, has_width_3_encoding, has_width_4_encoding};

verus! {

/// Appends a character to a string (`String::push`).
#[verifier::external_body]
fn string_push(s: &mut String, c: char)
    ensures
        final(s)@ == old(s)@.push(c),
{
    s.push(c);
}

/// The characters of a string slice, in order.
pub fn chars_of(s: &str) -> (v: Vec<char>)
    ensures
        v@ == s@,
{
    broadcast use vstd::string::axiom_spec_iter;
    let mut v: Vec<char> = Vec::new();
    for c in it: s.chars()
        invariant
            it.seq() == s@,
            v@ == it.seq().take(it.index() as int),
    {
        v.push(c);
        proof {
            assert(v@ == it.seq().take(it.index() as int + 1));
        }
    }
    v
}

/// A string made of the characters `cs[start..end]`.
pub fn string_of(cs: &Vec<char>, start: usize, end: usize) -> (r: String)
    requires
        start <= end <= cs.len(),
    ensures
        r@ == cs@.subrange(start as int, end as int),
{
    let mut r = String::new();
    let mut i = start;
    while i < end
        invariant
            start <= i <= end <= cs.len(),
            r@ == cs@.subrange(start as int, i as int),
        decreases end - i,
    {
        string_push(&mut r, cs[i]);
        proof {
            assert(r@ == cs@.subrange(start as int, i + 1));
        }
        i = i + 1;
    }
    r
}

/// A string made of all the characters of `cs`.
pub fn string_from_chars(cs: &Vec<char>) -> (r: String)
    ensures
        r@ == cs@,
{
    let r = string_of(cs, 0, cs.len());
    proof {
        assert(cs@.subrange(0, cs@.len() as int) == cs@);
    }
    r
}

/// Appends the characters of `s` to `out`.
pub fn push_str(out: &mut String, s: &str)
    ensures
        final(out)@ == old(out)@ + s@,
{
    let cs = chars_of(s);
    let mut i: usize = 0;
    while i < cs.len()
        invariant
            i <= cs.len(),
            cs@ == s@,
            out@ == old(out)@ + s@.take(i as int),
        decreases cs.len() - i,
    {
        string_push(out, cs[i]);
        proof {
            assert(s@.take(i + 1) == s@.take(i as int).push(s@[i as int]));
        }
        i = i + 1;
    }
    proof {
        assert(s@.take(cs.len() as int) == s@);
    }
}

/// Appends a character to `out`.
pub fn push_char(out: &mut String, c: char)
    ensures
        final(out)@ == old(out)@.push(c),
{
    string_push(out, c);
}

/// An ASCII decimal digit.
pub open spec fn is_digit(c: char) -> bool {
    '0' <= c <= '9'
}

/// The value of a decimal digit.
pub open spec fn digit_value(c: char) -> int {
    c as int - '0' as int
}

/// The character for a digit value in `0..10`.
pub open spec fn digit_char(d: int) -> char {
    (d + '0' as int) as char
}

/// The value of a sequence of decimal digits, most significant first.
pub open spec fn digits_value(s: Seq<char>) -> int
    decreases s.len(),
{
    if s.len() == 0 {
        0
    } else {
        digits_value(s.drop_last()) * 10 + digit_value(s.last())
    }
}

/// Index of the first character of `s` that is not a decimal digit, or its length.
pub open spec fn first_non_digit(s: Seq<char>) -> int
    decreases s.len(),
{
    if s.len() == 0 {
        0
    } else if !is_digit(s[0]) {
        0
    } else {
        1 + first_non_digit(s.drop_first())
    }
}

/// Why a string could not be parsed as an integer.
#[derive(Debug, Clone, Copy, PartialEq, Eq, Structural)]
pub enum IntErrorKind {
    /// The string is empty.
    Empty,
    /// A character is not a digit, or a sign stands alone.
    InvalidDigit,
    /// The number is larger than `i64::MAX`.
    PosOverflow,
    /// The number is smaller than `i64::MIN`.
    NegOverflow,
}

/// The outcome of parsing a decimal `i64` with an optional sign, scanning
/// left to right and failing at the first invalid digit or overflow.
pub open spec fn parse_i64_spec(s: Seq<char>) -> Result<i64, IntErrorKind> {
    if s.len() == 0 {
        Err(IntErrorKind::Empty)
    } else if (s[0] == '+' || s[0] == '-') && s.len() == 1 {
        Err(IntErrorKind::InvalidDigit)
    } else {
        let neg = s[0] == '-';
        let digits = if s[0] == '+' || s[0] == '-' { s.drop_first() } else { s };
        let k = first_non_digit(digits);
        let v = digits_value(digits.take(k));
        if !neg && v > i64::MAX {
            Err(IntErrorKind::PosOverflow)
        } else if neg && -v < i64::MIN {
            Err(IntErrorKind::NegOverflow)
        } else if k < digits.len() {
            Err(IntErrorKind::InvalidDigit)
        } else if neg {
            Ok((-v) as i64)
        } else {
            Ok(v as i64)
        }
    }
}

proof fn lemma_first_non_digit(s: Seq<char>, i: int)
    requires
        0 <= i <= s.len(),
        forall|j: int| 0 <= j < i ==> is_digit(#[trigger] s[j]),
    ensures
        i <= first_non_digit(s) <= s.len(),
        i < s.len() && !is_digit(s[i]) ==> first_non_digit(s) == i,
        forall|j: int| 0 <= j < first_non_digit(s) ==> is_digit(#[trigger] s[j]),
    decreases s.len(),
{
    if s.len() > 0 {
        if i > 0 {
            assert forall|j: int| 0 <= j < i - 1 implies is_digit(#[trigger] s.drop_first()[j]) by {
                assert(s.drop_first()[j] == s[j + 1]);
            }
            lemma_first_non_digit(s.drop_first(), i - 1);
        } else {
            lemma_first_non_digit(s.drop_first(), 0);
        }
        assert forall|j: int| 0 <= j < first_non_digit(s) implies is_digit(#[trigger] s[j]) by {
            if j > 0 {
                assert(s[j] == s.drop_first()[j - 1]);
            }
        }
    }
}

/// One more digit multiplies the value so far by ten and adds the digit.
pub proof fn lemma_digits_value_push(s: Seq<char>, i: int)
    requires
        0 <= i < s.len(),
    ensures
        digits_value(s.take(i + 1)) == digits_value(s.take(i)) * 10 + digit_value(s[i]),
{
    assert(s.take(i + 1).drop_last() == s.take(i));
}

/// A longer prefix of digits has a value at least as large.
pub proof fn lemma_digits_value_mono(s: Seq<char>, i: int, j: int)
    requires
        0 <= i <= j <= s.len(),
        forall|k: int| 0 <= k < j ==> is_digit(#[trigger] s[k]),
    ensures
        0 <= digits_value(s.take(i)) <= digits_value(s.take(j)),
    decreases j - i,
{
    if i == j {
        lemma_digits_value_nonneg(s, i);
    } else {
        lemma_digits_value_mono(s, i, j - 1);
        lemma_digits_value_push(s, j - 1);
    }
}

proof fn lemma_digits_value_nonneg(s: Seq<char>, i: int)
    requires
        0 <= i <= s.len(),
        forall|k: int| 0 <= k < i ==> is_digit(#[trigger] s[k]),
    ensures
        0 <= digits_value(s.take(i)),
    decreases i,
{
    if i > 0 {
        lemma_digits_value_nonneg(s, i - 1);
        lemma_digits_value_push(s, i - 1);
    }
}

/// Parse a decimal `i64` with an optional leading `+` or `-`, as `str::parse` does.
pub fn parse_i64(s: &Vec<char>) -> (r: Result<i64, IntErrorKind>)
    ensures
        r == parse_i64_spec(s@),
{
    if s.len() == 0 {
        return Err(IntErrorKind::Empty);
    }
    let first = s[0];
    if (first == '+' || first == '-') && s.len() == 1 {
        return Err(IntErrorKind::InvalidDigit);
    }
    let neg = first == '-';
    let start: usize = if first == '+' || first == '-' { 1 } else { 0 };
    let ghost digits = if first == '+' || first == '-' { s@.drop_first() } else { s@ };
    let mut acc: i64 = 0;
    let mut i = start;
    while i < s.len()
        invariant
            start <= i <= s.len(),
            start == 0 || start == 1,
            s@.len() > 0,
            first == s@[0],
            neg == (first == '-'),
            start == 1 <==> (first == '+' || first == '-'),
            digits == (if first == '+' || first == '-' { s@.drop_first() } else { s@ }),
            digits == s@.subrange(start as int, s@.len() as int),
            forall|j: int| 0 <= j < i - start ==> is_digit(#[trigger] digits[j]),
            neg ==> acc == -digits_value(digits.take(i - start)),
            !neg ==> acc == digits_value(digits.take(i - start)),
        decreases s.len() - i,
    {
        let c = s[i];
        let ghost k = i - start;
        assert(digits[k] == c);
        if !('0' <= c && c <= '9') {
            proof {
                lemma_first_non_digit(digits, k);
                assert(first_non_digit(digits) == k);
                assert(k < digits.len());

            }
            return Err(IntErrorKind::InvalidDigit);
        }
        let d = (c as u32 - '0' as u32) as i64;
        proof {
            assert(is_digit(digits[k]));
            assert(forall|j: int| 0 <= j < k + 1 ==> is_digit(#[trigger] digits[j]));
            lemma_digits_value_push(digits, k);
            lemma_first_non_digit(digits, k + 1);
            lemma_digits_value_mono(digits, k + 1, first_non_digit(digits));
        }
        if neg {
            if acc < -922337203685477580 || (acc == -922337203685477580 && d > 8) {
                return Err(IntErrorKind::NegOverflow);
            }
            acc = acc * 10 - d;
        } else {
            if acc > 922337203685477580 || (acc == 922337203685477580 && d > 7) {
                return Err(IntErrorKind::PosOverflow);
            }
            acc = acc * 10 + d;
        }
        i = i + 1;
    }
    proof {
        lemma_first_non_digit(digits, digits.len() as int);
        assert(digits.take(digits.len() as int) == digits);
    }
    Ok(acc)
}

/// Decimal digits of a natural number, most significant first.
pub open spec fn nat_digits(n: nat) -> Seq<char>
    decreases n,
{
    if n < 10 {
        seq![digit_char(n as int)]
    } else {
        nat_digits(n / 10).push(digit_char((n % 10) as int))
    }
}

/// Decimal notation of an integer, with a leading `-` for negative numbers.
pub open spec fn decimal(x: int) -> Seq<char> {
    if x < 0 {
        seq!['-'] + nat_digits((-x) as nat)
    } else {
        nat_digits(x as nat)
    }
}

/// A digit value written as a character reads back as that value.
proof fn lemma_digit_char(d: int)
    requires
        0 <= d < 10,
    ensures
        is_digit(digit_char(d)),
        digit_value(digit_char(d)) == d,
{
}

/// The decimal digits of `n` are digits, at least one, and read back as `n`.
pub proof fn lemma_nat_digits(n: nat)
    ensures
        nat_digits(n).len() >= 1,
        forall|j: int| 0 <= j < nat_digits(n).len() ==> is_digit(#[trigger] nat_digits(n)[j]),
        digits_value(nat_digits(n)) == n,
    decreases n,
{
    if n < 10 {
        lemma_digit_char(n as int);
        assert(nat_digits(n).drop_last() =~= Seq::<char>::empty());
        assert(digits_value(Seq::<char>::empty()) == 0);
    } else {
        lemma_nat_digits(n / 10);
        lemma_digit_char((n % 10) as int);
        let s = nat_digits(n / 10);
        assert(nat_digits(n).drop_last() =~= s);
        assert(digits_value(nat_digits(n)) == digits_value(s) * 10 + digit_value(digit_char((n % 10) as int)));
        assert((n / 10) * 10 + n % 10 == n);
    }
}

/// The decimal notation of an `i64` parses back to it.
pub proof fn lemma_parse_decimal(x: int)
    requires
        i64::MIN <= x <= i64::MAX,
    ensures
        parse_i64_spec(decimal(x)) == Ok::<i64, IntErrorKind>(x as i64),
        forall|j: int| 0 <= j < decimal(x).len() ==> is_digit(#[trigger] decimal(x)[j]) || decimal(x)[j] == '-',
{
    let s = decimal(x);
    if x < 0 {
        let m = (-x) as nat;
        lemma_nat_digits(m);
        let digits = nat_digits(m);
        assert(s.drop_first() =~= digits);
        lemma_first_non_digit(digits, digits.len() as int);
        assert(digits.take(digits.len() as int) =~= digits);
        assert forall|j: int| 0 <= j < s.len() implies is_digit(#[trigger] s[j]) || s[j] == '-' by {
            if j > 0 {
                assert(s[j] == digits[j - 1]);
            }
        }
    } else {
        let m = x as nat;
        lemma_nat_digits(m);
        lemma_first_non_digit(s, s.len() as int);
        assert(s.take(s.len() as int) =~= s);
    }
}

/// The character of a decimal digit value.
pub fn digit_to_char(d: u64) -> (c: char)
    requires
        d < 10,
    ensures
        c == digit_char(d as int),
        is_digit(c),
        digit_value(c) == d,
{
    match d {
        0 => '0',
        1 => '1',
        2 => '2',
        3 => '3',
        4 => '4',
        5 => '5',
        6 => '6',
        7 => '7',
        8 => '8',
        _ => '9',
    }
}

/// Writes the decimal digits of `n` at the end of `out`.
pub fn push_nat_digits(out: &mut String, n: u64)
    ensures
        final(out)@ == old(out)@ + nat_digits(n as nat),
    decreases n,
{
    if n >= 10 {
        push_nat_digits(out, n / 10);
    }
    let c = digit_to_char(n % 10);
    string_push(out, c);
    proof {
        if n < 10 {
            assert(nat_digits(n as nat) == seq![c]);
        } else {
            assert(nat_digits(n as nat) == nat_digits((n / 10) as nat).push(c));
        }
    }
}

/// Writes the decimal notation of `x` at the end of `out`.
pub fn push_decimal(out: &mut String, x: i64)
    ensures
        final(out)@ == old(out)@ + decimal(x as int),
{
    if x < 0 {
        string_push(out, '-');
        let n: u64 = (-(x as i128)) as u64;
        push_nat_digits(out, n);
        proof {
            assert(old(out)@.push('-') + nat_digits(n as nat) == old(out)@ + (seq!['-'] + nat_digits(n as nat)));
        }
    } else {
        push_nat_digits(out, x as u64);
    }
}

/// Byte offset of the character at index `i` in the UTF-8 encoding of `cs`.
pub open spec fn byte_offset(cs: Seq<char>, i: int) -> int {
    encode_utf8(cs.take(i)).len() as int
}

/// Number of bytes of the UTF-8 encoding of a character.
pub open spec fn utf8_width(c: char) -> int {
    encode_scalar(c as u32).len() as int
}

proof fn lemma_encode_utf8_append(a: Seq<char>, c: char)
    ensures
        encode_utf8(a.push(c)).len() == encode_utf8(a).len() + encode_scalar(c as u32).len(),
    decreases a.len(),
{
    if a.len() == 0 {
        assert(a.push(c).drop_first() == Seq::<char>::empty());
        assert(encode_utf8(Seq::<char>::empty()) == Seq::<u8>::empty());
    } else {
        assert(a.push(c).drop_first() == a.drop_first().push(c));
        lemma_encode_utf8_append(a.drop_first(), c);
    }
}

/// Moving one character forward advances the byte offset by its width.
pub proof fn lemma_byte_offset_step(cs: Seq<char>, i: int)
    requires
        0 <= i < cs.len(),
    ensures
        byte_offset(cs, i + 1) == byte_offset(cs, i) + utf8_width(cs[i]),
        1 <= utf8_width(cs[i]) <= 4,
{
    assert(cs.take(i + 1) == cs.take(i).push(cs[i]));
    lemma_encode_utf8_append(cs.take(i), cs[i]);
    char_is_scalar(cs[i]);
}

/// Byte offsets grow strictly with the character index.
pub proof fn lemma_byte_offset_mono(cs: Seq<char>, i: int, j: int)
    requires
        0 <= i <= j <= cs.len(),
    ensures
        byte_offset(cs, i) + (j - i) <= byte_offset(cs, j),
    decreases j - i,
{
    if i < j {
        lemma_byte_offset_mono(cs, i, j - 1);
        lemma_byte_offset_step(cs, j - 1);
    }
}

/// The byte offset of the start is zero.
pub proof fn lemma_byte_offset_zero(cs: Seq<char>)
    ensures
        byte_offset(cs, 0) == 0,
{
    assert(cs.take(0) == Seq::<char>::empty());
}

/// Number of bytes of the UTF-8 encoding of a character.
pub fn char_width(c: char) -> (r: usize)
    ensures
        r == utf8_width(c),
        1 <= r <= 4,
{
    proof {
        char_is_scalar(c);
    }
    let v = c as u32;
    if v <= 0x7f {
        1
    } else if v <= 0x7ff {
        2
    } else if v <= 0xffff {
        3
    } else {
        4
    }
}

/// The byte offset of every character of `cs`, followed by the total length.
pub fn byte_offsets(cs: &Vec<char>) -> (r: Vec<usize>)
    requires
        encode_utf8(cs@).len() <= usize::MAX,
    ensures
        r.len() == cs.len() + 1,
        forall|k: int| 0 <= k <= cs.len() ==> #[trigger] r@[k] == byte_offset(cs@, k),
{
    let mut r: Vec<usize> = Vec::new();
    let mut off: usize = 0;
    let mut i: usize = 0;
    proof {
        lemma_byte_offset_zero(cs@);
    }
    while i < cs.len()
        invariant
            i <= cs.len(),
            encode_utf8(cs@).len() <= usize::MAX,
            r.len() == i,
            off == byte_offset(cs@, i as int),
            forall|k: int| 0 <= k < i ==> #[trigger] r@[k] == byte_offset(cs@, k),
        decreases cs.len() - i,
    {
        r.push(off);
        proof {
            lemma_byte_offset_step(cs@, i as int);
            lemma_byte_offset_mono(cs@, i + 1, cs.len() as int);
            assert(cs@.take(cs.len() as int) == cs@);
        }
        off = off + char_width(cs[i]);
        i = i + 1;
    }
    r.push(off);
    r
}

} // verus!
