//! Strings as sequences of characters.
use vstd::prelude::*;
use vstd::string::*;
use vstd::utf8::{decode_utf8, valid_utf8};

verus! {

/// `String::push` adds a character at the end.
pub assume_specification[ String::push ](s: &mut String, ch: char)
    ensures
        final(s)@ == old(s)@.push(ch),
;

/// `String::from_utf8`: the text that `bytes` encode, where they are valid UTF-8.
#[verifier::external_body]
pub(crate) fn string_from_utf8(bytes: Vec<u8>) -> (r: Option<String>)
    ensures
        match r {
            Some(s) => valid_utf8(bytes@) && s@ == decode_utf8(bytes@),
            None => !valid_utf8(bytes@),
        },
{
    String::from_utf8(bytes).ok()
}

/// The character for a decimal digit.
pub open spec fn digit_char(d: nat) -> char {
    if d == 0 {
        '0'
    } else if d == 1 {
        '1'
    } else if d == 2 {
        '2'
    } else if d == 3 {
        '3'
    } else if d == 4 {
        '4'
    } else if d == 5 {
        '5'
    } else if d == 6 {
        '6'
    } else if d == 7 {
        '7'
    } else if d == 8 {
        '8'
    } else {
        '9'
    }
}

/// A number in decimal, without leading zeros.
pub open spec fn decimal(n: nat) -> Seq<char>
    decreases n,
{
    if n < 10 {
        seq![digit_char(n)]
    } else {
        decimal(n / 10).push(digit_char(n % 10))
    }
}

/// A signed number in decimal.
pub open spec fn signed_decimal(n: int) -> Seq<char> {
    if n < 0 {
        seq!['-'] + decimal((-n) as nat)
    } else {
        decimal(n as nat)
    }
}

fn char_of_digit(d: u128) -> (c: char)
    requires
        d < 10,
    ensures
        c == digit_char(d as nat),
{
    if d == 0 {
        '0'
    } else if d == 1 {
        '1'
    } else if d == 2 {
        '2'
    } else if d == 3 {
        '3'
    } else if d == 4 {
        '4'
    } else if d == 5 {
        '5'
    } else if d == 6 {
        '6'
    } else if d == 7 {
        '7'
    } else if d == 8 {
        '8'
    } else {
        '9'
    }
}

/// Appends `n` in decimal.
pub fn push_decimal(s: &mut String, n: u128)
    ensures
        final(s)@ == old(s)@ + decimal(n as nat),
    decreases n,
{
    if n >= 10 {
        push_decimal(s, n / 10);
    }
    s.push(char_of_digit(n % 10));
    assert(s@ =~= old(s)@ + decimal(n as nat));
}

/// Appends a signed number in decimal.
pub fn push_signed_decimal(s: &mut String, n: i128)
    requires
        n > i128::MIN,
    ensures
        final(s)@ == old(s)@ + signed_decimal(n as int),
{
    if n < 0 {
        s.push('-');
        push_decimal(s, (-n) as u128);
        assert(s@ =~= old(s)@ + signed_decimal(n as int));
    } else {
        push_decimal(s, n as u128);
    }
}

/// The characters of a string.
pub fn chars_of(s: &str) -> (r: Vec<char>)
    ensures
        r@ == s@,
{
    let mut out: Vec<char> = Vec::new();
    for c in it: s.chars()
        invariant
            it.seq() == s@,
            out@ == s@.take(it.index() as int),
    {
        assert(s@.take(it.index() as int + 1) =~= s@.take(it.index() as int).push(c));
        out.push(c);
    }
    assert(s@.take(s@.len() as int) =~= s@);
    out
}

/// The string of characters.
pub fn string_of(chars: &[char]) -> (r: String)
    ensures
        r@ == chars@,
{
    let mut out: String = String::new();
    let mut i: usize = 0;
    assert(chars@.take(0) =~= Seq::<char>::empty());
    while i < chars.len()
        invariant
            i <= chars@.len(),
            out@ == chars@.take(i as int),
        decreases chars@.len() - i,
    {
        out.push(chars[i]);
        i = i + 1;
        assert(chars@.take(i as int) =~= chars@.take(i - 1).push(chars@[i - 1]));
    }
    assert(chars@.take(i as int) =~= chars@);
    out
}

/// Whether two lists of characters are equal.
pub fn chars_equal(a: &[char], b: &[char]) -> (r: bool)
    ensures
        r == (a@ == b@),
{
    if a.len() != b.len() {
        return false;
    }
    let mut i: usize = 0;
    while i < a.len()
        invariant
            a@.len() == b@.len(),
            i <= a@.len(),
            forall|k: int| 0 <= k < i ==> a@[k] == b@[k],
        decreases a@.len() - i,
    {
        if a[i] != b[i] {
            return false;
        }
        i = i + 1;
    }
    assert(a@ =~= b@);
    true
}

/// Whether two strings are equal.
pub fn same_text(a: &str, b: &str) -> (r: bool)
    ensures
        r == (a@ == b@),
{
    chars_equal(&chars_of(a), &chars_of(b))
}

/// Whether `chars` is the text `b`.
pub fn is_text(chars: &[char], b: &str) -> (r: bool)
    ensures
        r == (chars@ == b@),
{
    chars_equal(chars, &chars_of(b))
}

/// Whether `pat` stands at `i` in `text`.
pub open spec fn matches_at(text: Seq<char>, pat: Seq<char>, i: int) -> bool {
    0 <= i && i + pat.len() <= text.len() && text.subrange(i, i + pat.len()) == pat
}

/// Where `pat` first stands in `text` from `i` on.
pub open spec fn find_from(text: Seq<char>, pat: Seq<char>, i: int) -> Option<int>
    decreases text.len() + 1 - i,
{
    if i + pat.len() > text.len() {
        None
    } else if matches_at(text, pat, i) {
        Some(i)
    } else {
        find_from(text, pat, i + 1)
    }
}

/// Where `pat` first stands in `text` from `from` on.
pub fn find_chars(text: &[char], pat: &[char], from: usize) -> (r: Option<usize>)
    requires
        from <= text@.len(),
    ensures
        match r {
            Some(k) => find_from(text@, pat@, from as int) == Some(k as int) && from <= k && k
                + pat@.len() <= text@.len() && matches_at(text@, pat@, k as int),
            None => find_from(text@, pat@, from as int) is None,
        },
{
    let mut i: usize = from;
    while pat.len() <= text.len() - i
        invariant
            from <= i <= text@.len(),
            find_from(text@, pat@, from as int) == find_from(text@, pat@, i as int),
        decreases text@.len() - i,
    {
        if chars_equal(&text[i..i + pat.len()], pat) {
            return Some(i);
        }
        if i == text.len() {
            assert(text@.subrange(i as int, i as int) =~= pat@);
            return None;
        }
        i = i + 1;
    }
    None
}

/// Where `c` last stands in `text`, before `n`.
pub open spec fn last_before(text: Seq<char>, c: char, n: nat) -> Option<int>
    decreases n,
{
    if n == 0 {
        None
    } else if text[n - 1] == c {
        Some(n - 1)
    } else {
        last_before(text, c, (n - 1) as nat)
    }
}

/// Where `c` last stands in `text`.
pub fn rfind_char(text: &[char], c: char) -> (r: Option<usize>)
    ensures
        match r {
            Some(k) => last_before(text@, c, text@.len()) == Some(k as int) && k < text@.len(),
            None => last_before(text@, c, text@.len()) is None,
        },
{
    let mut n: usize = text.len();
    while n > 0
        invariant
            n <= text@.len(),
            last_before(text@, c, text@.len()) == last_before(text@, c, n as nat),
        decreases n,
    {
        if text[n - 1] == c {
            return Some(n - 1);
        }
        n = n - 1;
    }
    None
}

/// Whether a character has the Unicode property White_Space.
pub open spec fn is_white_space(c: char) -> bool {
    let u = c as u32;
    ||| 0x09 <= u <= 0x0D
    ||| u == 0x20
    ||| u == 0x85
    ||| u == 0xA0
    ||| u == 0x1680
    ||| 0x2000 <= u <= 0x200A
    ||| u == 0x2028
    ||| u == 0x2029
    ||| u == 0x202F
    ||| u == 0x205F
    ||| u == 0x3000
}

fn white_space(c: char) -> (r: bool)
    ensures
        r == is_white_space(c),
{
    let u: u32 = c as u32;
    (0x09 <= u && u <= 0x0D) || u == 0x20 || u == 0x85 || u == 0xA0 || u == 0x1680 || (0x2000 <= u
        && u <= 0x200A) || u == 0x2028 || u == 0x2029 || u == 0x202F || u == 0x205F || u == 0x3000
}

/// `s` without white space at its start.
pub open spec fn trim_start(s: Seq<char>) -> Seq<char>
    decreases s.len(),
{
    if s.len() > 0 && is_white_space(s[0]) {
        trim_start(s.skip(1))
    } else {
        s
    }
}

/// `s` without white space at its end.
pub open spec fn trim_end(s: Seq<char>) -> Seq<char>
    decreases s.len(),
{
    if s.len() > 0 && is_white_space(s.last()) {
        trim_end(s.drop_last())
    } else {
        s
    }
}

/// `s` without white space around it.
pub open spec fn trim(s: Seq<char>) -> Seq<char> {
    trim_end(trim_start(s))
}

/// `s` without white space around it.
pub fn trim_chars(s: &[char]) -> (r: &[char])
    ensures
        r@ == trim(s@),
{
    let mut a: &[char] = s;
    while a.len() > 0 && white_space(a[0])
        invariant
            trim_start(s@) == trim_start(a@),
        decreases a@.len(),
    {
        let n: usize = a.len();
        assert(a@.subrange(1, n as int) =~= a@.skip(1));
        a = &a[1..n];
    }
    let ghost b = a@;
    while a.len() > 0 && white_space(a[a.len() - 1])
        invariant
            trim_start(s@) == b,
            trim_end(b) == trim_end(a@),
        decreases a@.len(),
    {
        let n: usize = a.len();
        assert(a@.subrange(0, n - 1) =~= a@.drop_last());
        a = &a[0..n - 1];
    }
    a
}

/// `s` without the characters `c` at its start.
pub open spec fn strip_start(s: Seq<char>, c: char) -> Seq<char>
    decreases s.len(),
{
    if s.len() > 0 && s[0] == c {
        strip_start(s.skip(1), c)
    } else {
        s
    }
}

/// `s` without the characters `c` at its start.
pub fn strip_start_chars(s: &[char], c: char) -> (r: &[char])
    ensures
        r@ == strip_start(s@, c),
{
    let mut a: &[char] = s;
    while a.len() > 0 && a[0] == c
        invariant
            strip_start(s@, c) == strip_start(a@, c),
        decreases a@.len(),
    {
        let n: usize = a.len();
        assert(a@.subrange(1, n as int) =~= a@.skip(1));
        a = &a[1..n];
    }
    a
}

/// Whether `s` begins with `pat`.
pub open spec fn begins_with(s: Seq<char>, pat: Seq<char>) -> bool {
    pat.len() <= s.len() && s.take(pat.len() as int) == pat
}

/// Whether `s` begins with `pat`.
pub fn chars_begin_with(s: &[char], pat: &[char]) -> (r: bool)
    ensures
        r == begins_with(s@, pat@),
{
    if s.len() < pat.len() {
        return false;
    }
    assert(s@.subrange(0, pat@.len() as int) =~= s@.take(pat@.len() as int));
    chars_equal(&s[0..pat.len()], pat)
}

/// The value of a decimal digit.
pub open spec fn digit_value(c: char) -> Option<nat> {
    if '0' <= c <= '9' {
        Some((c as u32 - '0' as u32) as nat)
    } else {
        None
    }
}

/// The number that decimal digits spell.
pub open spec fn digits_value(s: Seq<char>) -> Option<nat>
    decreases s.len(),
{
    if s.len() == 0 {
        Some(0)
    } else {
        match (digits_value(s.drop_last()), digit_value(s.last())) {
            (Some(v), Some(d)) => Some(v * 10 + d),
            _ => None,
        }
    }
}

/// The number, at most `max`, that a text spells: decimal digits, at least one, after
/// at most one plus sign.
pub open spec fn number_of(s: Seq<char>, max: u64) -> Option<u64> {
    let d = if s.len() > 0 && s[0] == '+' {
        s.skip(1)
    } else {
        s
    };
    if d.len() == 0 {
        None
    } else {
        match digits_value(d) {
            Some(v) => if v <= max {
                Some(v as u64)
            } else {
                None
            },
            None => None,
        }
    }
}

/// More digits spell no smaller number.
proof fn lemma_digits_grow(s: Seq<char>, n: int)
    requires
        0 <= n <= s.len(),
        digits_value(s) is Some,
    ensures
        digits_value(s.take(n)) is Some,
        digits_value(s.take(n))->0 <= digits_value(s)->0,
    decreases s.len(),
{
    if n == s.len() {
        assert(s.take(n) =~= s);
    } else {
        lemma_digits_grow(s.drop_last(), n);
        assert(s.drop_last().take(n) =~= s.take(n));
    }
}

/// The number, at most `max`, that a text spells.
pub fn parse_number(s: &[char], max: u64) -> (r: Option<u64>)
    ensures
        r == number_of(s@, max),
{
    let n: usize = s.len();
    let start: usize = if n > 0 && s[0] == '+' {
        1
    } else {
        0
    };
    let d: &[char] = &s[start..n];
    assert(d@ =~= if s@.len() > 0 && s@[0] == '+' {
        s@.skip(1)
    } else {
        s@
    });
    if d.len() == 0 {
        return None;
    }
    let mut v: u128 = 0;
    let mut i: usize = 0;
    assert(d@.take(0) =~= Seq::<char>::empty());
    while i < d.len()
        invariant
            i <= d@.len(),
            d@ == (if s@.len() > 0 && s@[0] == '+' {
                s@.skip(1)
            } else {
                s@
            }),
            d@.len() > 0,
            v <= max,
            digits_value(d@.take(i as int)) == Some(v as nat),
        decreases d@.len() - i,
    {
        let c: char = d[i];
        proof {
            let t = d@.take(i + 1);
            assert(t.drop_last() =~= d@.take(i as int));
            if digits_value(d@) is Some {
                lemma_digits_grow(d@, i + 1);
            }
        }
        if c < '0' || c > '9' {
            return None;
        }
        v = v * 10 + (c as u32 - '0' as u32) as u128;
        if v > max as u128 {
            return None;
        }
        i = i + 1;
    }
    assert(d@.take(i as int) =~= d@);
    Some(v as u64)
}

/// An ASCII capital as a small letter; any other character as it is.
pub open spec fn lower_char(c: char) -> char {
    if 'A' <= c <= 'Z' {
        (c as u8 + 32) as char
    } else {
        c
    }
}

/// A text with small letters for ASCII capitals.
pub open spec fn lower(s: Seq<char>) -> Seq<char> {
    Seq::new(s.len(), |i: int| lower_char(s[i]))
}

/// A text with small letters for ASCII capitals.
pub fn lower_chars(s: &[char]) -> (r: Vec<char>)
    ensures
        r@ == lower(s@),
{
    let mut out: Vec<char> = Vec::new();
    let mut i: usize = 0;
    while i < s.len()
        invariant
            i <= s@.len(),
            out@ == lower(s@).take(i as int),
        decreases s@.len() - i,
    {
        let c: char = s[i];
        let d: char = if 'A' <= c && c <= 'Z' {
            (c as u8 + 32) as char
        } else {
            c
        };
        out.push(d);
        i = i + 1;
        assert(lower(s@).take(i as int) =~= lower(s@).take(i - 1).push(d));
    }
    assert(lower(s@).take(i as int) =~= lower(s@));
    out
}

/// The character for a hexadecimal digit, with letters from `a` on.
pub open spec fn hex_char(d: nat, a: char) -> char {
    if d < 10 {
        digit_char(d)
    } else {
        (a as u8 + (d - 10)) as char
    }
}

/// The `width` low hexadecimal digits of a number, with letters from `a` on.
pub open spec fn hex_text(n: nat, width: nat, a: char) -> Seq<char>
    decreases width,
{
    if width == 0 {
        Seq::empty()
    } else {
        hex_text(n / 16, (width - 1) as nat, a).push(hex_char(n % 16, a))
    }
}

/// Appends the `width` low hexadecimal digits of a number, with letters from `a` on.
pub fn push_hex(s: &mut String, n: u64, width: u32, a: char)
    requires
        a == 'a' || a == 'A',
    ensures
        final(s)@ == old(s)@ + hex_text(n as nat, width as nat, a),
    decreases width,
{
    if width > 0 {
        push_hex(s, n / 16, width - 1, a);
        let d: u64 = n % 16;
        let c: char = if d < 10 {
            char_of_digit(d as u128)
        } else {
            (a as u8 + (d as u8 - 10)) as char
        };
        s.push(c);
    }
    assert(s@ =~= old(s)@ + hex_text(n as nat, width as nat, a));
}

/// Whether `s` ends with `pat`.
pub open spec fn ends_with(s: Seq<char>, pat: Seq<char>) -> bool {
    pat.len() <= s.len() && s.skip(s.len() - pat.len()) == pat
}

/// Whether `s` ends with `pat`.
pub fn text_ends_with(s: &str, pat: &str) -> (r: bool)
    ensures
        r == ends_with(s@, pat@),
{
    let a: Vec<char> = chars_of(s);
    let b: Vec<char> = chars_of(pat);
    if a.len() < b.len() {
        return false;
    }
    let start: usize = a.len() - b.len();
    assert(a@.subrange(start as int, a@.len() as int) =~= a@.skip(start as int));
    chars_equal(&a.as_slice()[start..a.len()], &b)
}

/// Whether `pat` stands somewhere in `s`.
pub open spec fn contains_text(s: Seq<char>, pat: Seq<char>) -> bool {
    find_from(s, pat, 0) is Some
}

/// Whether `pat` stands somewhere in `s`.
pub fn text_contains(s: &str, pat: &str) -> (r: bool)
    ensures
        r == contains_text(s@, pat@),
{
    find_chars(&chars_of(s), &chars_of(pat), 0).is_some()
}

/// Zeros in front of a text, up to a width.
pub open spec fn zero_padded(s: Seq<char>, width: nat) -> Seq<char>
    decreases width - s.len(),
{
    if s.len() >= width {
        s
    } else {
        zero_padded(seq!['0'] + s, width)
    }
}

/// Appends a number in decimal, with zeros in front of it up to a width.
pub fn push_padded(s: &mut String, n: u128, width: usize)
    ensures
        final(s)@ == old(s)@ + zero_padded(decimal(n as nat), width as nat),
{
    let mut digits: String = String::new();
    push_decimal(&mut digits, n);
    assert(digits@ =~= decimal(n as nat));
    let mut text: Vec<char> = chars_of(digits.as_str());
    let ghost whole = zero_padded(decimal(n as nat), width as nat);
    while text.len() < width
        invariant
            whole == zero_padded(text@, width as nat),
        decreases width - text@.len(),
    {
        let ghost before = text@;
        text.insert(0, '0');
        assert(text@ =~= seq!['0'] + before);
    }
    s.append(string_of(&text).as_str());
}

/// Spaces behind a text, up to a width.
pub open spec fn space_padded(s: Seq<char>, width: nat) -> Seq<char>
    decreases width - s.len(),
{
    if s.len() >= width {
        s
    } else {
        space_padded(s.push(' '), width)
    }
}

/// Appends a text with spaces behind it up to a width.
pub fn push_column(s: &mut String, text: &str, width: usize)
    ensures
        final(s)@ == old(s)@ + space_padded(text@, width as nat),
{
    let mut chars: Vec<char> = chars_of(text);
    while chars.len() < width
        invariant
            space_padded(text@, width as nat) == space_padded(chars@, width as nat),
        decreases width - chars@.len(),
    {
        chars.push(' ');
    }
    s.append(string_of(&chars).as_str());
}

/// A number in decimal.
pub fn decimal_text(n: u128) -> (r: String)
    ensures
        r@ == decimal(n as nat),
{
    let mut s: String = String::new();
    push_decimal(&mut s, n);
    assert(s@ =~= decimal(n as nat));
    s
}

/// The first `n` characters of a text without white space at the ends, and with one
/// space for each run of white space inside.
pub open spec fn squeezed(s: Seq<char>, n: nat) -> Seq<char>
    decreases n,
{
    if n == 0 {
        Seq::empty()
    } else {
        let before = squeezed(s, (n - 1) as nat);
        let c = s[n - 1];
        if is_white_space(c) {
            before
        } else if n >= 2 && is_white_space(s[n - 2]) && before.len() > 0 {
            before.push(' ').push(c)
        } else {
            before.push(c)
        }
    }
}

/// Whether two texts are equal but for spacing and the case of ASCII letters.
pub open spec fn same_words(a: Seq<char>, b: Seq<char>) -> bool {
    lower(squeezed(a, a.len())) == lower(squeezed(b, b.len()))
}

fn squeeze(s: &[char]) -> (r: Vec<char>)
    ensures
        r@ == squeezed(s@, s@.len()),
{
    let mut out: Vec<char> = Vec::new();
    let mut i: usize = 0;
    while i < s.len()
        invariant
            i <= s@.len(),
            out@ == squeezed(s@, i as nat),
        decreases s@.len() - i,
    {
        if !white_space(s[i]) {
            if i > 0 && white_space(s[i - 1]) && out.len() > 0 {
                out.push(' ');
            }
            out.push(s[i]);
        }
        i = i + 1;
    }
    out
}

/// Whether two texts are equal but for spacing and the case of ASCII letters.
pub fn eq_ignore_case(a: &str, b: &str) -> (r: bool)
    ensures
        r == same_words(a@, b@),
{
    chars_equal(&lower_chars(&squeeze(&chars_of(a))), &lower_chars(&squeeze(&chars_of(b))))
}

} // verus!
