//! Character-level text helpers: whitespace trimming, fixed-width padding
//! and decimal numbers.
use vstd::prelude::*;
use vstd::string::*;
use vstd::utf8::*;

verus! {

/// The characters of `s`, in order.
pub fn chars_of(s: &str) -> (v: Vec<char>)
    ensures
        v@ == s@,
{
    let mut v: Vec<char> = Vec::new();
    for c in rest: s.chars()
        invariant
            rest.seq() == s@,
            v@ == s@.subrange(0, rest.index() as int),
    {
        v.push(c);
        assert(v@ =~= s@.subrange(0, rest.index() + 1));
    }
    assert(s@.subrange(0, s@.len() as int) =~= s@);
    v
}

/// White space, as Unicode defines the property `White_Space`.
pub open spec fn is_space(c: char) -> bool {
    let u = c as u32;
    ||| 0x09 <= u <= 0x0d
    ||| u == 0x20
    ||| u == 0x85
    ||| u == 0xa0
    ||| u == 0x1680
    ||| 0x2000 <= u <= 0x200a
    ||| u == 0x2028
    ||| u == 0x2029
    ||| u == 0x202f
    ||| u == 0x205f
    ||| u == 0x3000
}

/// Whether `c` is white space.
pub fn is_whitespace(c: char) -> (r: bool)
    ensures
        r == is_space(c),
{
    let u: u32 = c as u32;
    (0x09 <= u && u <= 0x0d) || u == 0x20 || u == 0x85 || u == 0xa0 || u == 0x1680 || (0x2000 <= u
        && u <= 0x200a) || u == 0x2028 || u == 0x2029 || u == 0x202f || u == 0x205f || u == 0x3000
}

/// The number of white-space characters at the start of `s`.
pub open spec fn leading_spaces(s: Seq<char>) -> nat
    decreases s.len(),
{
    if s.len() > 0 && is_space(s[0]) {
        1 + leading_spaces(s.drop_first())
    } else {
        0
    }
}

/// The number of white-space characters at the end of `s`.
pub open spec fn trailing_spaces(s: Seq<char>) -> nat
    decreases s.len(),
{
    if s.len() > 0 && is_space(s.last()) {
        1 + trailing_spaces(s.drop_last())
    } else {
        0
    }
}

/// `s` without the white space at its start and at its end.
pub open spec fn trim(s: Seq<char>) -> Seq<char> {
    let rest = s.subrange(leading_spaces(s) as int, s.len() as int);
    rest.subrange(0, rest.len() - trailing_spaces(rest))
}

/// A run of white space of length `k` at the start of `s`, followed by
/// something else or by the end, is all the leading white space.
pub proof fn lemma_leading_spaces(s: Seq<char>, k: int)
    requires
        0 <= k <= s.len(),
        forall|i: int| 0 <= i < k ==> is_space(#[trigger] s[i]),
        k < s.len() ==> !is_space(s[k]),
    ensures
        leading_spaces(s) == k,
    decreases k,
{
    if k > 0 {
        let t = s.drop_first();
        assert forall|i: int| 0 <= i < k - 1 implies is_space(#[trigger] t[i]) by {
            assert(t[i] == s[i + 1]);
        }
        lemma_leading_spaces(t, k - 1);
    }
}

/// The mirror image of `lemma_leading_spaces`.
pub proof fn lemma_trailing_spaces(s: Seq<char>, k: int)
    requires
        0 <= k <= s.len(),
        forall|i: int| s.len() - k <= i < s.len() ==> is_space(#[trigger] s[i]),
        k < s.len() ==> !is_space(s[s.len() - k - 1]),
    ensures
        trailing_spaces(s) == k,
    decreases k,
{
    if k > 0 {
        let t = s.drop_last();
        assert forall|i: int| t.len() - (k - 1) <= i < t.len() implies is_space(#[trigger] t[i]) by {
            assert(t[i] == s[i]);
        }
        lemma_trailing_spaces(t, k - 1);
    }
}

/// `s` without the white space at its start and at its end.
pub fn trimmed<'a>(s: &'a str) -> (r: &'a str)
    ensures
        r@ == trim(s@),
{
    let chars = chars_of(s);
    let n: usize = chars.len();
    let mut from: usize = 0;
    while from < n && is_whitespace(chars[from])
        invariant
            n == chars@.len(),
            from <= n,
            forall|i: int| 0 <= i < from ==> is_space(#[trigger] chars@[i]),
        decreases n - from,
    {
        from += 1;
    }
    let mut to: usize = n;
    while to > from && is_whitespace(chars[to - 1])
        invariant
            n == chars@.len(),
            from <= to <= n,
            forall|i: int| to <= i < n ==> is_space(#[trigger] chars@[i]),
        decreases to,
    {
        to -= 1;
    }
    proof {
        lemma_leading_spaces(chars@, from as int);
        let rest = chars@.subrange(from as int, n as int);
        assert forall|i: int| rest.len() - (n - to) <= i < rest.len() implies is_space(
            #[trigger] rest[i],
        ) by {
            assert(rest[i] == chars@[i + from]);
        }
        lemma_trailing_spaces(rest, n - to);
        assert(rest.subrange(0, rest.len() - (n - to)) =~= chars@.subrange(from as int, to as int));
    }
    s.substring_char(from, to)
}

/// `n` copies of `c`.
pub open spec fn repeat(c: char, n: int) -> Seq<char> {
    Seq::new(
        if n > 0 {
            n as nat
        } else {
            0
        },
        |i: int| c,
    )
}

/// The number of bytes in the UTF-8 encoding of `s`.
pub open spec fn byte_len(s: Seq<char>) -> nat {
    encode_utf8(s).len()
}

/// `s` centred by spaces in a field of `width` bytes; where the padding is
/// odd the extra space stands on the right. A text that already fills the
/// field or is longer is left as it is.
pub open spec fn centered(s: Seq<char>, width: int) -> Seq<char> {
    let pad = width - byte_len(s);
    repeat(' ', pad / 2) + s + repeat(' ', pad - pad / 2)
}

/// The encoding of a concatenation is the concatenation of the encodings.
pub proof fn lemma_encode_concat(a: Seq<char>, b: Seq<char>)
    ensures
        encode_utf8(a + b) == encode_utf8(a) + encode_utf8(b),
    decreases a.len(),
{
    if a.len() == 0 {
        assert(a + b =~= b);
        assert(encode_utf8(a) + encode_utf8(b) =~= encode_utf8(b));
    } else {
        assert((a + b).drop_first() =~= a.drop_first() + b);
        assert((a + b)[0] == a[0]);
        lemma_encode_concat(a.drop_first(), b);
        assert(encode_scalar(a[0] as u32) + (encode_utf8(a.drop_first()) + encode_utf8(b))
            =~= (encode_scalar(a[0] as u32) + encode_utf8(a.drop_first())) + encode_utf8(b));
    }
}

/// A run of an ASCII character takes one byte for each character.
pub proof fn lemma_repeat_bytes(c: char, n: int)
    requires
        c as u32 <= 0x7f,
    ensures
        byte_len(repeat(c, n)) == repeat(c, n).len(),
        repeat(c, n).len() == if n > 0 { n } else { 0 },
{
    assert(is_ascii_chars(repeat(c, n)));
    is_ascii_chars_encode_utf8(repeat(c, n));
}

/// A text that fits a field fills it exactly once centred.
pub proof fn lemma_centered_fills(s: Seq<char>, width: int)
    requires
        byte_len(s) <= width,
    ensures
        byte_len(centered(s, width)) == width,
{
    let pad = width - byte_len(s);
    let left = repeat(' ', pad / 2);
    let right = repeat(' ', pad - pad / 2);
    lemma_repeat_bytes(' ', pad / 2);
    lemma_repeat_bytes(' ', pad - pad / 2);
    lemma_encode_concat(left + s, right);
    lemma_encode_concat(left, s);
}

/// A text without white space at either end is what trimming leaves of it
/// once centred.
pub proof fn lemma_trim_centered(s: Seq<char>, width: int)
    requires
        s.len() > 0 ==> !is_space(s[0]) && !is_space(s.last()),
    ensures
        trim(centered(s, width)) == s,
{
    let pad = width - byte_len(s);
    let left = repeat(' ', pad / 2);
    let right = repeat(' ', pad - pad / 2);
    let all = centered(s, width);
    assert(all =~= left + s + right);
    if s.len() == 0 {
        assert forall|i: int| 0 <= i < all.len() implies is_space(#[trigger] all[i]) by {}
        lemma_leading_spaces(all, all.len() as int);
        let rest = all.subrange(all.len() as int, all.len() as int);
        assert(rest.len() == 0);
        assert(rest.subrange(0, rest.len() - trailing_spaces(rest)) =~= s);
    } else {
        assert forall|i: int| 0 <= i < left.len() implies is_space(#[trigger] all[i]) by {}
        assert(all[left.len() as int] == s[0]);
        lemma_leading_spaces(all, left.len() as int);
        let rest = all.subrange(left.len() as int, all.len() as int);
        assert(rest =~= s + right);
        assert forall|i: int| rest.len() - right.len() <= i < rest.len() implies is_space(
            #[trigger] rest[i],
        ) by {}
        assert(rest[rest.len() - right.len() - 1] == s.last());
        lemma_trailing_spaces(rest, right.len() as int);
        assert(rest.subrange(0, rest.len() - right.len()) =~= s);
    }
}

/// `s` centred by spaces in a field of `width` bytes.
pub fn pad_center(s: &str, width: usize) -> (r: String)
    ensures
        r@ == centered(s@, width as int),
{
    let used: usize = s.as_bytes().len();
    if used >= width {
        proof {
            let pad = width - byte_len(s@);
            assert(repeat(' ', pad / 2) + s@ + repeat(' ', pad - pad / 2) =~= s@);
        }
        return String::from_str(s);
    }
    let pad: usize = width - used;
    let left: usize = pad / 2;
    let right: usize = pad - left;
    let mut r = String::new();
    let mut i: usize = 0;
    while i < left
        invariant
            i <= left,
            r@ == repeat(' ', i as int),
        decreases left - i,
    {
        proof {
            reveal_strlit(" ");
        }
        r.append(" ");
        i += 1;
        assert(r@ =~= repeat(' ', i as int));
    }
    r.append(s);
    let mut j: usize = 0;
    while j < right
        invariant
            j <= right,
            r@ == repeat(' ', left as int) + s@ + repeat(' ', j as int),
        decreases right - j,
    {
        proof {
            reveal_strlit(" ");
        }
        r.append(" ");
        j += 1;
        assert(r@ =~= repeat(' ', left as int) + s@ + repeat(' ', j as int));
    }
    r
}

/// The character of the decimal digit `d`.
pub open spec fn digit_char(d: int) -> char {
    ((48 + d) as u8) as char
}

/// Whether `c` is a decimal digit.
pub open spec fn is_digit(c: char) -> bool {
    48 <= c as u32 <= 57
}

/// Whether `s` holds decimal digits only.
pub open spec fn all_digits(s: Seq<char>) -> bool {
    forall|i: int| 0 <= i < s.len() ==> is_digit(#[trigger] s[i])
}

/// The number that the digits of `s` write in base ten.
pub open spec fn digits_value(s: Seq<char>) -> int
    decreases s.len(),
{
    if s.len() == 0 {
        0
    } else {
        digits_value(s.drop_last()) * 10 + (s.last() as u32 - 48)
    }
}

/// `n` in base ten, without leading zeros.
pub open spec fn decimal(n: nat) -> Seq<char>
    decreases n,
{
    if n < 10 {
        seq![digit_char(n as int)]
    } else {
        decimal(n / 10).push(digit_char((n % 10) as int))
    }
}

/// `n` in base ten, with zeros in front up to `width` digits.
pub open spec fn zero_padded(n: nat, width: int) -> Seq<char> {
    repeat('0', width - decimal(n).len()) + decimal(n)
}

/// Ten to the power `k`.
pub open spec fn pow10(k: nat) -> nat
    decreases k,
{
    if k == 0 {
        1
    } else {
        10 * pow10((k - 1) as nat)
    }
}

/// The digits of `n` are digits, and they write `n`.
pub proof fn lemma_decimal(n: nat)
    ensures
        decimal(n).len() >= 1,
        all_digits(decimal(n)),
        digits_value(decimal(n)) == n,
    decreases n,
{
    if n < 10 {
        let s = decimal(n);
        assert(s.drop_last() =~= Seq::<char>::empty());
        assert(digits_value(s.drop_last()) == 0);
    } else {
        lemma_decimal(n / 10);
        let s = decimal(n);
        assert(s.drop_last() =~= decimal(n / 10));
    }
}

/// A number has at most `k` digits exactly when it is below ten to the `k`.
pub proof fn lemma_decimal_len(n: nat, k: nat)
    requires
        k >= 1,
    ensures
        decimal(n).len() <= k <==> n < pow10(k),
    decreases k,
{
    reveal_with_fuel(pow10, 2);
    if n < 10 {
        lemma_pow10_grows(k);
    } else if k == 1 {
        lemma_decimal(n / 10);
    } else {
        lemma_decimal_len(n / 10, (k - 1) as nat);
    }
}

/// Every power of ten is at least ten from the first on.
pub proof fn lemma_pow10_grows(k: nat)
    requires
        k >= 1,
    ensures
        pow10(k) >= 10,
    decreases k,
{
    reveal_with_fuel(pow10, 2);
    if k > 1 {
        lemma_pow10_grows((k - 1) as nat);
    }
}

/// Zeros in front do not change the number written.
pub proof fn lemma_leading_zeros(k: int, s: Seq<char>)
    ensures
        digits_value(repeat('0', k) + s) == digits_value(s),
    decreases s.len(),
{
    let z = repeat('0', k);
    if s.len() == 0 {
        assert(z + s =~= z);
        lemma_zeros_value(k);
    } else {
        assert((z + s).drop_last() =~= z + s.drop_last());
        lemma_leading_zeros(k, s.drop_last());
    }
}

/// A run of zeros writes zero.
pub proof fn lemma_zeros_value(k: int)
    ensures
        digits_value(repeat('0', k)) == 0,
    decreases k,
{
    if k > 0 {
        assert(repeat('0', k).drop_last() =~= repeat('0', k - 1));
        lemma_zeros_value(k - 1);
    }
}

/// The single-character text of the decimal digit `d`.
fn digit_str(d: u64) -> (r: &'static str)
    requires
        d < 10,
    ensures
        r@ == seq![digit_char(d as int)],
{
    proof {
        reveal_strlit("0");
        reveal_strlit("1");
        reveal_strlit("2");
        reveal_strlit("3");
        reveal_strlit("4");
        reveal_strlit("5");
        reveal_strlit("6");
        reveal_strlit("7");
        reveal_strlit("8");
        reveal_strlit("9");
    }
    let r = if d == 0 {
        "0"
    } else if d == 1 {
        "1"
    } else if d == 2 {
        "2"
    } else if d == 3 {
        "3"
    } else if d == 4 {
        "4"
    } else if d == 5 {
        "5"
    } else if d == 6 {
        "6"
    } else if d == 7 {
        "7"
    } else if d == 8 {
        "8"
    } else {
        "9"
    };
    assert(r@ =~= seq![digit_char(d as int)]);
    r
}

/// `n` in base ten, without leading zeros.
pub fn decimal_string(n: u64) -> (r: String)
    ensures
        r@ == decimal(n as nat),
    decreases n,
{
    if n < 10 {
        String::from_str(digit_str(n))
    } else {
        let mut r = decimal_string(n / 10);
        r.append(digit_str(n % 10));
        assert(r@ =~= decimal(n as nat));
        r
    }
}

/// `n` in base ten, with zeros in front up to `width` digits.
pub fn pad_decimal(n: u64, width: usize) -> (r: String)
    ensures
        r@ == zero_padded(n as nat, width as int),
{
    let digits = decimal_string(n);
    let have: usize = digits.as_str().unicode_len();
    let mut r = String::new();
    let mut i: usize = have;
    while i < width
        invariant
            i == have || i <= width,
            have == digits@.len(),
            i >= have,
            r@ == repeat('0', i - have),
        decreases width - i,
    {
        proof {
            reveal_strlit("0");
        }
        r.append("0");
        i += 1;
        assert(r@ =~= repeat('0', i - have));
    }
    proof {
        if width <= have {
            assert(repeat('0', width - have) =~= repeat('0', i - have));
        }
    }
    r.append(digits.as_str());
    r
}

/// A number written by digits is not negative.
pub proof fn lemma_digits_nonnegative(s: Seq<char>)
    requires
        all_digits(s),
    ensures
        digits_value(s) >= 0,
    decreases s.len(),
{
    if s.len() > 0 {
        lemma_digits_nonnegative(s.drop_last());
    }
}

/// The first `k` digits of a number write no more than all of them.
pub proof fn lemma_digits_prefix(s: Seq<char>, k: int)
    requires
        all_digits(s),
        0 <= k <= s.len(),
    ensures
        0 <= digits_value(s.subrange(0, k)) <= digits_value(s),
    decreases s.len() - k,
{
    if k == s.len() {
        assert(s.subrange(0, k) =~= s);
        lemma_digits_nonnegative(s);
    } else {
        lemma_digits_prefix(s, k + 1);
        let longer = s.subrange(0, k + 1);
        assert(longer.drop_last() =~= s.subrange(0, k));
        assert(all_digits(s.subrange(0, k)));
        lemma_digits_nonnegative(s.subrange(0, k));
        assert(is_digit(longer.last()));
    }
}

/// The digits of an unsigned number: `s` without a plus sign in front.
pub open spec fn unsigned_body(s: Seq<char>) -> Seq<char> {
    if s.len() > 0 && s[0] == '+' {
        s.drop_first()
    } else {
        s
    }
}

/// The number that `s` writes: decimal digits, at least one, with or
/// without a plus sign in front.
pub open spec fn parse_unsigned(s: Seq<char>) -> Option<int> {
    let d = unsigned_body(s);
    if d.len() > 0 && all_digits(d) {
        Some(digits_value(d))
    } else {
        None
    }
}

/// The number that `s` writes: decimal digits, at least one, with or
/// without a sign in front.
pub open spec fn parse_signed(s: Seq<char>) -> Option<int> {
    if s.len() > 0 && s[0] == '-' {
        let d = s.drop_first();
        if d.len() > 0 && all_digits(d) {
            Some(-digits_value(d))
        } else {
            None
        }
    } else {
        parse_unsigned(s)
    }
}

/// `parse_unsigned`, as far as the number fits 64 bits.
pub open spec fn parse_u64(s: Seq<char>) -> Option<u64> {
    match parse_unsigned(s) {
        Some(v) => if v <= u64::MAX {
            Some(v as u64)
        } else {
            None
        },
        None => None,
    }
}

/// `parse_signed`, as far as the number fits 32 bits with a sign.
pub open spec fn parse_i32(s: Seq<char>) -> Option<i32> {
    match parse_signed(s) {
        Some(v) => if i32::MIN <= v <= i32::MAX {
            Some(v as i32)
        } else {
            None
        },
        None => None,
    }
}

/// What the digits from `from` on write, if they are digits, at least one,
/// and the number fits 64 bits.
pub open spec fn digits_u64(s: Seq<char>, from: int) -> Option<u64> {
    let d = s.subrange(from, s.len() as int);
    if d.len() > 0 && all_digits(d) && digits_value(d) <= u64::MAX {
        Some(digits_value(d) as u64)
    } else {
        None
    }
}

/// Reads the digits of `chars` from `from` on.
pub fn read_digits(chars: &Vec<char>, from: usize) -> (r: Option<u64>)
    requires
        from <= chars@.len(),
    ensures
        r == digits_u64(chars@, from as int),
{
    let n: usize = chars.len();
    let ghost d = chars@.subrange(from as int, n as int);
    if from == n {
        return None;
    }
    let mut acc: u64 = 0;
    let mut i: usize = from;
    assert(d.subrange(0, 0) =~= Seq::<char>::empty());
    while i < n
        invariant
            n == chars@.len(),
            from <= i <= n,
            d == chars@.subrange(from as int, n as int),
            all_digits(d.subrange(0, i - from)),
            acc == digits_value(d.subrange(0, i - from)),
        decreases n - i,
    {
        let u: u32 = chars[i] as u32;
        if u < 48 || u > 57 {
            assert(!is_digit(d[i - from]));
            return None;
        }
        let v: u64 = (u - 48) as u64;
        let ghost longer = d.subrange(0, i - from + 1);
        proof {
            assert(longer.drop_last() =~= d.subrange(0, i - from));
            assert(longer.last() == chars@[i as int]);
            assert forall|k: int| 0 <= k < longer.len() implies is_digit(#[trigger] longer[k]) by {
                if k < longer.len() - 1 {
                    assert(longer[k] == d.subrange(0, i - from)[k]);
                }
            }
        }
        if acc > (u64::MAX - v) / 10 {
            proof {
                if all_digits(d) {
                    lemma_digits_prefix(d, i - from + 1);
                }
            }
            return None;
        }
        acc = acc * 10 + v;
        i += 1;
    }
    assert(d.subrange(0, n - from) =~= d);
    Some(acc)
}

/// Reads an unsigned decimal number.
pub fn read_u64(s: &str) -> (r: Option<u64>)
    ensures
        r == parse_u64(s@),
{
    let chars = chars_of(s);
    if chars.len() == 0 {
        return None;
    }
    let from: usize = if chars[0] == '+' {
        1
    } else {
        0
    };
    proof {
        assert(unsigned_body(chars@) =~= chars@.subrange(from as int, chars@.len() as int));
        let d = unsigned_body(chars@);
        if d.len() > 0 && all_digits(d) {
            lemma_digits_nonnegative(d);
        }
    }
    read_digits(&chars, from)
}

/// Reads a decimal number of 32 bits with or without a sign.
pub fn read_i32(chars: &Vec<char>) -> (r: Option<i32>)
    ensures
        r == parse_i32(chars@),
{
    if chars.len() == 0 {
        return None;
    }
    if chars[0] == '-' {
        proof {
            let d = chars@.drop_first();
            assert(d =~= chars@.subrange(1, chars@.len() as int));
            if d.len() > 0 && all_digits(d) {
                lemma_digits_nonnegative(d);
            }
        }
        match read_digits(chars, 1) {
            Some(m) => if m > 2147483648 {
                None
            } else {
                Some((0 - m as i64) as i32)
            },
            None => None,
        }
    } else {
        let from: usize = if chars[0] == '+' {
            1
        } else {
            0
        };
        proof {
            let d = unsigned_body(chars@);
            assert(d =~= chars@.subrange(from as int, chars@.len() as int));
            if d.len() > 0 && all_digits(d) {
                lemma_digits_nonnegative(d);
            }
        }
        match read_digits(chars, from) {
            Some(m) => if m > 2147483647 {
                None
            } else {
                Some(m as i32)
            },
            None => None,
        }
    }
}

/// Digits are ASCII: each takes one byte.
pub proof fn lemma_digits_ascii(s: Seq<char>)
    requires
        all_digits(s),
    ensures
        is_ascii_chars(s),
        byte_len(s) == s.len(),
{
    assert forall|i: int| 0 <= i < s.len() implies '\0' <= #[trigger] s[i] <= '\u{7f}' by {
        lemma_digit_ascii(s[i]);
    }
    is_ascii_chars_encode_utf8(s);
}

/// A digit is an ASCII character.
pub proof fn lemma_digit_ascii(c: char)
    requires
        is_digit(c),
    ensures
        '\0' <= c <= '\u{7f}',
{
}

/// A number padded with zeros reads back as itself.
pub proof fn lemma_zero_padded_reads(n: nat, width: int)
    ensures
        parse_unsigned(zero_padded(n, width)) == Some(n as int),
        trim(zero_padded(n, width)) == zero_padded(n, width),
        zero_padded(n, width).len() == if width > decimal(n).len() {
            width
        } else {
            decimal(n).len() as int
        },
        is_ascii_chars(zero_padded(n, width)),
{
    let z = repeat('0', width - decimal(n).len());
    let p = zero_padded(n, width);
    lemma_decimal(n);
    lemma_leading_zeros(width - decimal(n).len(), decimal(n));
    assert(p =~= z + decimal(n));
    assert forall|i: int| 0 <= i < p.len() implies is_digit(#[trigger] p[i]) by {
        if i >= z.len() {
            assert(p[i] == decimal(n)[i - z.len()]);
        }
    }
    lemma_digits_ascii(p);
    assert(unsigned_body(p) == p);
    assert(!is_space(p[0]));
    assert(!is_space(p.last()));
    lemma_leading_spaces(p, 0);
    let rest = p.subrange(0, p.len() as int);
    assert(rest =~= p);
    lemma_trailing_spaces(p, 0);
    assert(p.subrange(0, p.len() as int) =~= p);
}

} // verus!
