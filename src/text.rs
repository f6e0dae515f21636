//! Text helpers: decimal rendering and reading of numbers, string equality,
//! UTF-8 decoding and trimming.
use vstd::prelude::*;
use vstd::utf8::{decode_utf8, valid_utf8};

verus! {

/// The character of a decimal digit.
pub open spec fn digit_char(d: nat) -> char {
    if d == 0 {
        '0'
    } else if d == 1 {
        '1'
    } else if d == 2 {
        '2'
    } else if d == 3 {
        '3'
    } else if d == 4 {
        '4'
    } else if d == 5 {
        '5'
    } else if d == 6 {
        '6'
    } else if d == 7 {
        '7'
    } else if d == 8 {
        '8'
    } else {
        '9'
    }
}

/// The decimal digits of `n`, most significant first, with no leading zero.
pub open spec fn decimal(n: nat) -> Seq<char>
    decreases n,
{
    if n < 10 {
        seq![digit_char(n)]
    } else {
        decimal(n / 10).push(digit_char(n % 10))
    }
}

fn digit_str(d: u32) -> (r: &'static str)
    requires
        d < 10,
    ensures
        r@ == seq![digit_char(d as nat)],
{
    proof {
        reveal_strlit("0");
        reveal_strlit("1");
        reveal_strlit("2");
        reveal_strlit("3");
        reveal_strlit("4");
        reveal_strlit("5");
        reveal_strlit("6");
        reveal_strlit("7");
        reveal_strlit("8");
        reveal_strlit("9");
    }
    if d == 0 {
        "0"
    } else if d == 1 {
        "1"
    } else if d == 2 {
        "2"
    } else if d == 3 {
        "3"
    } else if d == 4 {
        "4"
    } else if d == 5 {
        "5"
    } else if d == 6 {
        "6"
    } else if d == 7 {
        "7"
    } else if d == 8 {
        "8"
    } else {
        "9"
    }
}

/// Appends the decimal digits of `n` to `out`.
pub fn push_decimal(out: &mut String, n: u32)
    ensures
        final(out)@ == old(out)@ + decimal(n as nat),
    decreases n,
{
    if n < 10 {
        out.append(digit_str(n));
    } else {
        push_decimal(out, n / 10);
        out.append(digit_str(n % 10));
        assert(decimal(n as nat) == decimal((n / 10) as nat).push(digit_char((n % 10) as nat)));
    }
}

} // verus!

verus! {

/// Whether two strings hold the same characters.
pub fn str_eq(a: &str, b: &str) -> (r: bool)
    ensures
        r == (a@ == b@),
{
    let n = a.unicode_len();
    if n != b.unicode_len() {
        return false;
    }
    let mut i: usize = 0;
    while i < n
        invariant
            n == a@.len(),
            n == b@.len(),
            i <= n,
            a@.subrange(0, i as int) == b@.subrange(0, i as int),
        decreases n - i,
    {
        if a.get_char(i) != b.get_char(i) {
            return false;
        }
        assert(a@.subrange(0, i + 1) == a@.subrange(0, i as int).push(a@[i as int]));
        assert(b@.subrange(0, i + 1) == b@.subrange(0, i as int).push(b@[i as int]));
        i = i + 1;
    }
    assert(a@ == a@.subrange(0, n as int));
    assert(b@ == b@.subrange(0, n as int));
    true
}

} // verus!

verus! {

/// The digits of a fraction in thousandths, `1 <= f < 1000`, without trailing zeros.
pub open spec fn thousandths(f: nat) -> Seq<char> {
    let d1 = f / 100;
    let d2 = f / 10 % 10;
    let d3 = f % 10;
    if d3 != 0 {
        seq![digit_char(d1), digit_char(d2), digit_char(d3)]
    } else if d2 != 0 {
        seq![digit_char(d1), digit_char(d2)]
    } else {
        seq![digit_char(d1)]
    }
}

/// A quantity given in thousandths, written as a decimal number: the whole
/// part, then a point and the fraction where the fraction is not zero.
pub open spec fn milli_decimal(m: nat) -> Seq<char> {
    if m % 1000 == 0 {
        decimal(m / 1000)
    } else {
        decimal(m / 1000) + seq!['.'] + thousandths(m % 1000)
    }
}

/// Appends `milli_decimal(m)` to `out`.
pub fn push_milli_decimal(out: &mut String, m: u32)
    ensures
        final(out)@ == old(out)@ + milli_decimal(m as nat),
{
    push_decimal(out, m / 1000);
    let f = m % 1000;
    if f != 0 {
        proof {
            reveal_strlit(".");
        }
        out.append(".");
        let d1 = f / 100;
        let d2 = f / 10 % 10;
        let d3 = f % 10;
        out.append(digit_str(d1));
        if d2 != 0 || d3 != 0 {
            out.append(digit_str(d2));
        }
        if d3 != 0 {
            out.append(digit_str(d3));
        }
        assert(final(out)@ =~= old(out)@ + milli_decimal(m as nat));
    }
}

/// A signed integer in decimal, with a leading `-` where it is negative.
pub open spec fn signed_decimal(v: int) -> Seq<char> {
    if v < 0 {
        seq!['-'] + decimal((-v) as nat)
    } else {
        decimal(v as nat)
    }
}

/// Appends `signed_decimal(v)` to `out`.
pub fn push_signed_decimal(out: &mut String, v: i32)
    ensures
        final(out)@ == old(out)@ + signed_decimal(v as int),
{
    if v < 0 {
        proof {
            reveal_strlit("-");
        }
        out.append("-");
        let magnitude = (-(v as i64)) as u32;
        push_decimal(out, magnitude);
        assert(final(out)@ =~= old(out)@ + signed_decimal(v as int));
    } else {
        push_decimal(out, v as u32);
    }
}

} // verus!

verus! {

/// Relies on `std::str::from_utf8`: it accepts exactly the byte strings that
/// are valid UTF-8, and then yields the characters they encode.
#[verifier::external_body]
pub(crate) fn decode_utf8_text(bytes: &[u8]) -> (r: Option<String>)
    ensures
        r is Some <==> valid_utf8(bytes@),
        r is Some ==> r->0@ == decode_utf8(bytes@),
{
    match std::str::from_utf8(bytes) {
        Ok(s) => Some(s.to_string()),
        Err(_) => None,
    }
}

/// The characters of `bytes` where they are valid UTF-8, otherwise nothing.
pub open spec fn text_or_empty(bytes: Seq<u8>) -> Seq<char> {
    if valid_utf8(bytes) {
        decode_utf8(bytes)
    } else {
        Seq::empty()
    }
}

/// Decodes `bytes` as UTF-8; invalid bytes give an empty text.
pub fn decode_or_empty(bytes: &[u8]) -> (r: String)
    ensures
        r@ == text_or_empty(bytes@),
{
    match decode_utf8_text(bytes) {
        Some(s) => s,
        None => String::new(),
    }
}

/// A character with the Unicode `White_Space` property, the set that
/// `char::is_whitespace` tests.
pub open spec fn is_white_space(c: char) -> bool {
    let v = c as u32;
    (0x9 <= v <= 0xd) || v == 0x20 || v == 0x85 || v == 0xa0 || v == 0x1680 || (0x2000 <= v
        <= 0x200a) || v == 0x2028 || v == 0x2029 || v == 0x202f || v == 0x205f || v == 0x3000
}

/// The characters that a trim removes: white space, or the NUL character.
pub open spec fn trimmed_char(white: bool, c: char) -> bool {
    if white {
        is_white_space(c)
    } else {
        c == '\0'
    }
}

/// `s` without its leading characters of the kind.
pub open spec fn trim_start(s: Seq<char>, white: bool) -> Seq<char>
    decreases s.len(),
{
    if s.len() > 0 && trimmed_char(white, s[0]) {
        trim_start(s.drop_first(), white)
    } else {
        s
    }
}

/// `s` without its trailing characters of the kind.
pub open spec fn trim_end(s: Seq<char>, white: bool) -> Seq<char>
    decreases s.len(),
{
    if s.len() > 0 && trimmed_char(white, s.last()) {
        trim_end(s.drop_last(), white)
    } else {
        s
    }
}

/// `s` without its leading and trailing characters of the kind.
pub open spec fn trim(s: Seq<char>, white: bool) -> Seq<char> {
    trim_end(trim_start(s, white), white)
}

fn is_trimmed_char(white: bool, c: char) -> (r: bool)
    ensures
        r == trimmed_char(white, c),
{
    if white {
        let v = c as u32;
        (0x9 <= v && v <= 0xd) || v == 0x20 || v == 0x85 || v == 0xa0 || v == 0x1680 || (0x2000
            <= v && v <= 0x200a) || v == 0x2028 || v == 0x2029 || v == 0x202f || v == 0x205f || v
            == 0x3000
    } else {
        c == '\0'
    }
}

/// Removes the leading and trailing characters of the kind: white space, or NUL.
pub fn trim_text(s: &str, white: bool) -> (r: String)
    ensures
        r@ == trim(s@, white),
{
    let n = s.unicode_len();
    let mut i: usize = 0;
    assert(s@.subrange(0, n as int) =~= s@);
    while i < n && is_trimmed_char(white, s.get_char(i))
        invariant
            n == s@.len(),
            i <= n,
            trim_start(s@, white) == trim_start(s@.subrange(i as int, n as int), white),
        decreases n - i,
    {
        assert(s@.subrange(i as int, n as int).drop_first() =~= s@.subrange(i + 1, n as int));
        i = i + 1;
    }
    let mut j: usize = n;
    assert(s@.subrange(i as int, j as int) == trim_start(s@, white));
    while j > i && is_trimmed_char(white, s.get_char(j - 1))
        invariant
            n == s@.len(),
            i <= j <= n,
            trim(s@, white) == trim_end(s@.subrange(i as int, j as int), white),
        decreases j,
    {
        assert(s@.subrange(i as int, j as int).drop_last() =~= s@.subrange(i as int, j - 1));
        j = j - 1;
    }
    String::from_str(s.substring_char(i, j))
}

} // verus!

verus! {

/// A decimal digit character.
pub open spec fn is_digit(c: char) -> bool {
    '0' <= c && c <= '9'
}

/// Every character is a decimal digit.
pub open spec fn all_digits(s: Seq<char>) -> bool {
    forall|i: int| 0 <= i < s.len() ==> #[trigger] is_digit(s[i])
}

/// The value of a digit character.
pub open spec fn digit_value(c: char) -> nat {
    if is_digit(c) {
        (c as u32 - '0' as u32) as nat
    } else {
        0
    }
}

/// The value of a string of decimal digits, most significant first.
pub open spec fn digits_value(s: Seq<char>) -> nat
    decreases s.len(),
{
    if s.len() == 0 {
        0
    } else {
        digits_value(s.drop_last()) * 10 + digit_value(s.last())
    }
}

pub proof fn lemma_digit_char(d: nat)
    requires
        d < 10,
    ensures
        is_digit(digit_char(d)),
        digit_value(digit_char(d)) == d,
{
}

/// The decimal digits of `n` are digits, at least one, and read back as `n`.
pub proof fn lemma_decimal(n: nat)
    ensures
        decimal(n).len() >= 1,
        all_digits(decimal(n)),
        digits_value(decimal(n)) == n,
    decreases n,
{
    if n < 10 {
        lemma_digit_char(n);
        assert(decimal(n).drop_last() =~= Seq::<char>::empty());
        assert(digits_value(Seq::<char>::empty()) == 0);
        assert(digits_value(decimal(n)) == digits_value(decimal(n).drop_last()) * 10 + digit_value(
            decimal(n).last(),
        ));
    } else {
        lemma_decimal(n / 10);
        lemma_digit_char(n % 10);
        let s = decimal(n);
        assert(s.drop_last() == decimal(n / 10));
        assert(s.last() == digit_char(n % 10));
        assert((n / 10) * 10 + n % 10 == n);
        assert(digits_value(s) == digits_value(s.drop_last()) * 10 + digit_value(s.last()));
        assert forall|i: int| 0 <= i < s.len() implies #[trigger] is_digit(s[i]) by {
            if i < s.len() - 1 {
                assert(s[i] == decimal(n / 10)[i]);
            }
        }
    }
}

/// A prefix of a string of digits is worth no more than the whole.
pub proof fn lemma_digits_prefix(s: Seq<char>, k: int)
    requires
        0 <= k <= s.len(),
    ensures
        digits_value(s.subrange(0, k)) <= digits_value(s),
    decreases s.len(),
{
    if k < s.len() {
        assert(s.drop_last().subrange(0, k) =~= s.subrange(0, k));
        lemma_digits_prefix(s.drop_last(), k);
    } else {
        assert(s.subrange(0, k) =~= s);
    }
}

/// The value of a digit character, or `None` for another character.
pub fn char_digit(c: char) -> (r: Option<u32>)
    ensures
        r is Some <==> is_digit(c),
        r is Some ==> r->0 as nat == digit_value(c) && r->0 < 10,
{
    if '0' <= c && c <= '9' {
        Some(c as u32 - '0' as u32)
    } else {
        None
    }
}

/// The position of the first `.` in `s`, or its length where there is none.
pub open spec fn dot_index(s: Seq<char>) -> nat
    decreases s.len(),
{
    if s.len() == 0 {
        0
    } else if s[0] == '.' {
        0
    } else {
        1 + dot_index(s.drop_first())
    }
}

/// Ten to the power `n`.
pub open spec fn pow10(n: nat) -> nat
    decreases n,
{
    if n == 0 {
        1
    } else {
        10 * pow10((n - 1) as nat)
    }
}

/// A string of `n` digits is worth less than `10^n`.
pub proof fn lemma_digits_bound(s: Seq<char>)
    requires
        all_digits(s),
    ensures
        digits_value(s) < pow10(s.len()),
    decreases s.len(),
{
    if s.len() > 0 {
        let p = s.drop_last();
        assert(all_digits(p)) by {
            assert forall|i: int| 0 <= i < p.len() implies #[trigger] is_digit(p[i]) by {
                assert(p[i] == s[i]);
            }
        }
        lemma_digits_bound(p);
        assert(is_digit(s[s.len() - 1]));
        assert(digit_value(s.last()) < 10);
        assert(digits_value(s) == digits_value(p) * 10 + digit_value(s.last()));
        assert(pow10(s.len()) == 10 * pow10(p.len()));
        assert(digits_value(p) * 10 + digit_value(s.last()) < 10 * pow10(p.len())) by (
        nonlinear_arith)
            requires
                digits_value(p) < pow10(p.len()),
                digit_value(s.last()) < 10,
        ;
    }
}

/// The index of the first `.` in `s[from..to]`, or `to` where there is none.
pub fn find_dot(s: &str, from: usize, to: usize) -> (r: usize)
    requires
        from <= to <= s@.len(),
    ensures
        from <= r <= to,
        r - from == dot_index(s@.subrange(from as int, to as int)),
{
    let ghost x = s@.subrange(from as int, to as int);
    let mut i: usize = from;
    assert(x.subrange(0, x.len() as int) =~= x);
    while i < to && s.get_char(i) != '.'
        invariant
            from <= i <= to <= s@.len(),
            x == s@.subrange(from as int, to as int),
            dot_index(x) == (i - from) + dot_index(x.subrange(i - from, x.len() as int)),
        decreases to - i,
    {
        assert(x.subrange(i - from, x.len() as int).drop_first() =~= x.subrange(
            i - from + 1,
            x.len() as int,
        ));
        i = i + 1;
    }
    if i == to {
        assert(x.subrange(i - from, x.len() as int) =~= Seq::<char>::empty());
    } else {
        assert(x.subrange(i - from, x.len() as int)[0] == '.');
    }
    i
}

/// Reads `s[from..to]` as a number of decimal digits no greater than `limit`;
/// `None` where a character is not a digit or the number is too large.
pub fn parse_digits(s: &str, from: usize, to: usize, limit: u64) -> (r: Option<u64>)
    requires
        from <= to <= s@.len(),
        limit <= 0xffff_ffff,
    ensures
        r is Some <==> all_digits(s@.subrange(from as int, to as int)) && digits_value(
            s@.subrange(from as int, to as int),
        ) <= limit,
        r is Some ==> r->0 == digits_value(s@.subrange(from as int, to as int)),
{
    let ghost w = s@.subrange(from as int, to as int);
    let mut v: u64 = 0;
    let mut j: usize = from;
    assert(w.subrange(0, 0) =~= Seq::<char>::empty());
    while j < to
        invariant
            from <= j <= to <= s@.len(),
            limit <= 0xffff_ffff,
            w == s@.subrange(from as int, to as int),
            all_digits(w.subrange(0, j - from)),
            v == digits_value(w.subrange(0, j - from)),
            v <= limit,
        decreases to - j,
    {
        let c = s.get_char(j);
        assert(c == w[j - from]);
        let ghost p = j - from;
        match char_digit(c) {
            None => {
                return None;
            },
            Some(d) => {
                assert(w.subrange(0, p + 1).drop_last() =~= w.subrange(0, p));
                assert forall|q: int| 0 <= q < p + 1 implies #[trigger] is_digit(
                    w.subrange(0, p + 1)[q],
                ) by {
                    if q < p {
                        assert(w.subrange(0, p + 1)[q] == w.subrange(0, p)[q]);
                    }
                }
                let nv = v * 10 + d as u64;
                if nv > limit {
                    proof {
                        lemma_digits_prefix(w, p + 1);
                    }
                    return None;
                }
                v = nv;
            },
        }
        j = j + 1;
    }
    assert(w.subrange(0, w.len() as int) =~= w);
    Some(v)
}

} // verus!
