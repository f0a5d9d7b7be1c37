//! What is written reads back: numbers, digests, and texts with white space around them.
use crate::filter::track_meta::{ascii_capitals, capitals, is_ascii};
use crate::manifest::formats::{hash_of, hex32, hex_byte, hex_value};
use crate::text::{
    decimal, digits_value, find_from, hex_char, hex_text, is_white_space, last_before, lower,
    matches_at, number_of, signed_decimal, squeezed, strip_start, trim, trim_end, trim_start,
    zero_padded,
};
use crate::tools::inspect::hex_of;
use vstd::prelude::*;

verus! {

/// A number in decimal reads back, and begins with a zero only if it is zero.
pub proof fn decimal_reads_back(n: nat)
    ensures
        digits_value(decimal(n)) == Some(n),
        decimal(n).len() > 0,
        n > 0 ==> decimal(n)[0] != '0',
        decimal(n)[0] != '+',
        forall|max: u64| #[trigger]
            number_of(decimal(n), max) == if n <= max {
                Some(n as u64)
            } else {
                None
            },
    decreases n,
{
    if n < 10 {
        let s = decimal(n);
        assert(s.drop_last() =~= Seq::<char>::empty());
        assert(digits_value(s.drop_last()) == Some(0nat));
    } else {
        decimal_reads_back(n / 10);
        let s = decimal(n);
        assert(s.drop_last() =~= decimal(n / 10));
        assert(s[0] == decimal(n / 10)[0]);
    }
}

/// Zeros in front of a number do not change it, and fill it up to the width.
pub proof fn padded_number_reads_back(n: nat, width: nat)
    ensures
        digits_value(zero_padded(decimal(n), width)) == Some(n),
        zero_padded(decimal(n), width).len() == if decimal(n).len() < width {
            width
        } else {
            decimal(n).len()
        },
{
    decimal_reads_back(n);
    lemma_padded(decimal(n), width);
}

proof fn lemma_padded(s: Seq<char>, width: nat)
    ensures
        digits_value(zero_padded(s, width)) == digits_value(s),
        zero_padded(s, width).len() == if s.len() < width {
            width
        } else {
            s.len()
        },
    decreases width - s.len(),
{
    if s.len() < width {
        lemma_padded(seq!['0'] + s, width);
        lemma_leading_zero(s);
    }
}

proof fn lemma_leading_zero(s: Seq<char>)
    ensures
        digits_value(seq!['0'] + s) == digits_value(s),
    decreases s.len(),
{
    let t = seq!['0'] + s;
    if s.len() == 0 {
        assert(t.drop_last() =~= Seq::<char>::empty());
        assert(digits_value(t.drop_last()) == Some(0nat));
    } else {
        assert(t.drop_last() =~= seq!['0'] + s.drop_last());
        lemma_leading_zero(s.drop_last());
    }
}

/// A hexadecimal digit, small or capital, has the value that it stands for.
pub proof fn hex_digit_reads_back(d: nat)
    requires
        d < 16,
    ensures
        hex_value(hex_char(d, 'a')) == Some(d as u8),
        hex_value(hex_char(d, 'A')) == Some(d as u8),
        !is_white_space(hex_char(d, 'a')),
{
}

/// The two digits of a byte: first the high half, then the low half.
proof fn lemma_hex_pair(b: u8)
    ensures
        hex_text(b as nat, 2, 'a') == seq![
            hex_char(b as nat / 16, 'a'),
            hex_char(b as nat % 16, 'a'),
        ],
        hex_byte(hex_char(b as nat / 16, 'a'), hex_char(b as nat % 16, 'a')) == b,
{
    reveal_with_fuel(hex_text, 3);
    hex_digit_reads_back(b as nat / 16);
    hex_digit_reads_back(b as nat % 16);
    assert((b as nat / 16) % 16 == b as nat / 16);
    assert(hex_text(b as nat, 2, 'a') =~= seq![
        hex_char(b as nat / 16, 'a'),
        hex_char(b as nat % 16, 'a'),
    ]);
}

pub proof fn lemma_hex_of(bytes: Seq<u8>)
    ensures
        hex_of(bytes).len() == 2 * bytes.len(),
        forall|i: int|
            0 <= i < bytes.len() ==> hex_of(bytes)[2 * i] == hex_char(
                #[trigger] bytes[i] as nat / 16,
                'a',
            ) && hex_of(bytes)[2 * i + 1] == hex_char(bytes[i] as nat % 16, 'a'),
    decreases bytes.len(),
{
    if bytes.len() > 0 {
        let d = bytes.drop_last();
        lemma_hex_of(d);
        lemma_hex_pair(bytes.last());
        assert forall|i: int| 0 <= i < bytes.len() implies hex_of(bytes)[2 * i] == hex_char(
            #[trigger] bytes[i] as nat / 16,
            'a',
        ) && hex_of(bytes)[2 * i + 1] == hex_char(bytes[i] as nat % 16, 'a') by {
            if i < d.len() {
                assert(d[i] == bytes[i]);
            }
        }
    }
}

/// The hexadecimal text of a digest reads back as the digest.
pub proof fn hex_reads_back(h: Seq<u8>)
    requires
        h.len() == 32,
    ensures
        hex32(hex_of(h)) == Some(h),
        hash_of(hex_of(h)) == h,
{
    let s = hex_of(h);
    lemma_hex_of(h);
    assert forall|k: int| 0 <= k < 64 implies hex_value(#[trigger] s[k]) is Some
        && !is_white_space(s[k]) by {
        let i = k / 2;
        let b = h[i] as nat;
        hex_digit_reads_back(b / 16);
        hex_digit_reads_back(b % 16);
        assert(s[2 * i] == hex_char(b / 16, 'a') && s[2 * i + 1] == hex_char(b % 16, 'a'));
        assert(k == 2 * i || k == 2 * i + 1);
    }
    assert(trim(s) == s);
    let out = Seq::new(32, |i: int| hex_byte(s[2 * i], s[2 * i + 1]));
    assert forall|i: int| 0 <= i < 32 implies #[trigger] out[i] == h[i] by {
        lemma_hex_pair(h[i]);
    }
    assert(out =~= h);
}

/// Whether a text is white space alone.
pub open spec fn is_blank(s: Seq<char>) -> bool {
    forall|i: int| 0 <= i < s.len() ==> is_white_space(#[trigger] s[i])
}

/// A trimmed text is what stands between white space, and neither begins nor ends with any.
pub proof fn trimmed_text_stands_between_blanks(s: Seq<char>)
    ensures
        exists|a: Seq<char>, b: Seq<char>|
            is_blank(a) && is_blank(b) && s == #[trigger] (a + trim(s) + b),
        trim(s).len() > 0 ==> !is_white_space(trim(s)[0]) && !is_white_space(trim(s).last()),
{
    let a = lemma_trim_start(s);
    let t = trim_start(s);
    let b = lemma_trim_end(t);
    assert(s =~= a + trim(s) + b);
    if trim(s).len() > 0 {
        assert(t[0] == trim(s)[0]);
    }
}

proof fn lemma_trim_start(s: Seq<char>) -> (a: Seq<char>)
    ensures
        is_blank(a),
        s == a + trim_start(s),
        trim_start(s).len() > 0 ==> !is_white_space(trim_start(s)[0]),
    decreases s.len(),
{
    if s.len() > 0 && is_white_space(s[0]) {
        let a = lemma_trim_start(s.skip(1));
        let r = seq![s[0]] + a;
        assert(s =~= seq![s[0]] + s.skip(1));
        assert(s =~= r + trim_start(s));
        assert forall|i: int| 0 <= i < r.len() implies is_white_space(#[trigger] r[i]) by {
            if i > 0 {
                assert(r[i] == a[i - 1]);
            }
        }
        r
    } else {
        assert(s =~= Seq::<char>::empty() + s);
        Seq::empty()
    }
}

proof fn lemma_trim_end(s: Seq<char>) -> (b: Seq<char>)
    ensures
        is_blank(b),
        s == trim_end(s) + b,
        trim_end(s).len() > 0 ==> !is_white_space(trim_end(s).last()),
    decreases s.len(),
{
    if s.len() > 0 && is_white_space(s.last()) {
        let b = lemma_trim_end(s.drop_last());
        let r = b.push(s.last());
        assert(s =~= s.drop_last().push(s.last()));
        assert(s =~= trim_end(s) + r);
        r
    } else {
        assert(s =~= s + Seq::<char>::empty());
        Seq::empty()
    }
}

/// A text is found where it first stands, and is not found only where it stands nowhere.
pub proof fn text_is_found_where_it_first_stands(text: Seq<char>, pat: Seq<char>, from: int)
    requires
        0 <= from,
    ensures
        match find_from(text, pat, from) {
            Some(k) => from <= k && k + pat.len() <= text.len() && text.subrange(k, k + pat.len())
                == pat && forall|j: int| from <= j < k ==> !#[trigger] matches_at(text, pat, j),
            None => forall|j: int| from <= j ==> !#[trigger] matches_at(text, pat, j),
        },
    decreases text.len() + 1 - from,
{
    if from + pat.len() <= text.len() && !matches_at(text, pat, from) {
        text_is_found_where_it_first_stands(text, pat, from + 1);
    }
}

/// A character is found where it last stands.
pub proof fn character_is_found_where_it_last_stands(text: Seq<char>, c: char, n: nat)
    requires
        n <= text.len(),
    ensures
        match last_before(text, c, n) {
            Some(k) => 0 <= k < n && text[k] == c && forall|j: int|
                k < j < n ==> #[trigger] text[j] != c,
            None => forall|j: int| 0 <= j < n ==> #[trigger] text[j] != c,
        },
    decreases n,
{
    if n > 0 && text[n - 1] != c {
        character_is_found_where_it_last_stands(text, c, (n - 1) as nat);
    }
}

/// What is left when a character is stripped does not begin with it, and only that character
/// was taken away.
pub proof fn stripped_text_begins_otherwise(s: Seq<char>, c: char)
    ensures
        ({
            let r = strip_start(s, c);
            &&& r.len() > 0 ==> r[0] != c
            &&& r.len() <= s.len()
            &&& r == s.skip(s.len() - r.len())
            &&& forall|i: int| 0 <= i < s.len() - r.len() ==> #[trigger] s[i] == c
        }),
    decreases s.len(),
{
    if s.len() > 0 && s[0] == c {
        stripped_text_begins_otherwise(s.skip(1), c);
        let r = strip_start(s, c);
        assert(s.skip(s.len() - r.len()) =~= s.skip(1).skip(s.len() - 1 - r.len()));
        assert forall|i: int| 0 <= i < s.len() - r.len() implies #[trigger] s[i] == c by {
            if i > 0 {
                assert(s.skip(1)[i - 1] == s[i]);
            }
        }
    } else {
        assert(s.skip(0) =~= s);
    }
}

/// Lower case changes the capitals from `A` to `Z`, each to the small letter 32 places on,
/// and nothing else.
pub proof fn lower_case_changes_capitals_alone(s: Seq<char>)
    ensures
        lower(s).len() == s.len(),
        forall|i: int|
            0 <= i < s.len() ==> #[trigger] lower(s)[i] as u32 == if 65 <= s[i] as u32 <= 90 {
                s[i] as u32 + 32
            } else {
                s[i] as u32 as int
            },
{
}

/// Whether a text has no white space.
pub open spec fn is_solid(s: Seq<char>) -> bool {
    forall|i: int| 0 <= i < s.len() ==> !is_white_space(#[trigger] s[i])
}

/// Spacing does not count: a word stays as it is, white space at the ends goes, and any white
/// space between two words counts as one space.
pub proof fn spacing_does_not_count(a: Seq<char>, gap: Seq<char>, b: Seq<char>)
    requires
        is_blank(gap),
    ensures
        is_solid(b) ==> squeezed(b, b.len()) == b,
        squeezed(gap + b, (gap + b).len()) == squeezed(b, b.len()),
        squeezed(a + gap, (a + gap).len()) == squeezed(a, a.len()),
        a.len() > 0 && gap.len() > 0 && b.len() > 0 && !is_white_space(a.last())
            && !is_white_space(b[0]) ==> squeezed(a + gap + b, (a + gap + b).len()) == squeezed(
            a,
            a.len(),
        ).push(' ') + squeezed(b, b.len()),
{
    if is_solid(b) {
        lemma_solid(b, b.len());
    }
    lemma_blank_start(gap, b, b.len());
    lemma_blank_end(a, gap, gap.len());
    lemma_squeezed_prefix(a + gap, a, a.len());
    if a.len() > 0 && gap.len() > 0 && b.len() > 0 && !is_white_space(a.last())
        && !is_white_space(b[0]) {
        lemma_squeezed_prefix(a + gap + b, a + gap, (a + gap).len());
        lemma_squeezed_grows(a, a.len());
        lemma_two_words(a, gap, b, b.len());
    }
}

proof fn lemma_squeezed_prefix(s: Seq<char>, t: Seq<char>, n: nat)
    requires
        n <= s.len(),
        n <= t.len(),
        forall|i: int| 0 <= i < n ==> s[i] == t[i],
    ensures
        squeezed(s, n) == squeezed(t, n),
    decreases n,
{
    if n > 0 {
        lemma_squeezed_prefix(s, t, (n - 1) as nat);
    }
}

proof fn lemma_solid(s: Seq<char>, n: nat)
    requires
        n <= s.len(),
        is_solid(s),
    ensures
        squeezed(s, n) == s.take(n as int),
    decreases n,
{
    if n > 0 {
        lemma_solid(s, (n - 1) as nat);
        assert(s.take(n as int) =~= s.take(n - 1).push(s[n - 1]));
        if n >= 2 {
            assert(!is_white_space(s[n - 2]));
        }
    } else {
        assert(s.take(0) =~= Seq::<char>::empty());
    }
    if n == s.len() {
        assert(s.take(n as int) =~= s);
    }
}

proof fn lemma_all_blank(s: Seq<char>, n: nat)
    requires
        n <= s.len(),
        forall|i: int| 0 <= i < n ==> is_white_space(#[trigger] s[i]),
    ensures
        squeezed(s, n) == Seq::<char>::empty(),
    decreases n,
{
    if n > 0 {
        lemma_all_blank(s, (n - 1) as nat);
    }
}

/// A prefix that ends with a character that is no white space leaves something.
proof fn lemma_squeezed_grows(s: Seq<char>, n: nat)
    requires
        0 < n <= s.len(),
        !is_white_space(s[n - 1]),
    ensures
        squeezed(s, n).len() > 0,
{
}

proof fn lemma_blank_start(gap: Seq<char>, b: Seq<char>, n: nat)
    requires
        n <= b.len(),
        is_blank(gap),
    ensures
        squeezed(gap + b, gap.len() + n) == squeezed(b, n),
    decreases n,
{
    let s = gap + b;
    if n == 0 {
        assert forall|i: int| 0 <= i < gap.len() implies is_white_space(#[trigger] s[i]) by {
            assert(s[i] == gap[i]);
        }
        lemma_all_blank(s, gap.len());
    } else {
        lemma_blank_start(gap, b, (n - 1) as nat);
        assert(s[gap.len() + n - 1] == b[n - 1]);
        if n >= 2 {
            assert(s[gap.len() + n - 2] == b[n - 2]);
        } else {
            assert(squeezed(b, 0) =~= Seq::<char>::empty());
        }
    }
}

proof fn lemma_blank_end(a: Seq<char>, gap: Seq<char>, n: nat)
    requires
        n <= gap.len(),
        is_blank(gap),
    ensures
        squeezed(a + gap, a.len() + n) == squeezed(a, a.len()),
    decreases n,
{
    let s = a + gap;
    if n == 0 {
        lemma_squeezed_prefix(s, a, a.len());
    } else {
        lemma_blank_end(a, gap, (n - 1) as nat);
        assert(s[a.len() + n - 1] == gap[n - 1]);
    }
}

proof fn lemma_two_words(a: Seq<char>, gap: Seq<char>, b: Seq<char>, n: nat)
    requires
        0 < n <= b.len(),
        is_blank(gap),
        gap.len() > 0,
        squeezed(a, a.len()).len() > 0,
        !is_white_space(b[0]),
    ensures
        squeezed(a + gap + b, a.len() + gap.len() + n) == squeezed(a, a.len()).push(' ') + squeezed(
            b,
            n,
        ),
    decreases n,
{
    let s = a + gap + b;
    let k = a.len() + gap.len();
    let w = squeezed(a, a.len());
    assert(s[k + n - 1] == b[n - 1]);
    if n == 1 {
        lemma_squeezed_prefix(s, a + gap, k);
        lemma_blank_end(a, gap, gap.len());
        assert(s[k - 1] == gap[gap.len() - 1]);
        assert(squeezed(s, k) == w);
        assert(squeezed(b, 0) =~= Seq::<char>::empty());
        assert(squeezed(b, 1) =~= seq![b[0]]);
        assert(squeezed(s, k + 1) == w.push(' ').push(b[0]));
        assert(w.push(' ').push(b[0]) =~= w.push(' ') + squeezed(b, 1));
    } else {
        lemma_two_words(a, gap, b, (n - 1) as nat);
        lemma_word_left(b, (n - 1) as nat);
        assert(s[k + n - 2] == b[n - 2]);
        let before = squeezed(b, (n - 1) as nat);
        let c = b[n - 1];
        if !is_white_space(c) {
            if is_white_space(b[n - 2]) {
                assert((w.push(' ') + before).push(' ').push(c) =~= w.push(' ') + before.push(
                    ' ',
                ).push(c));
            } else {
                assert((w.push(' ') + before).push(c) =~= w.push(' ') + before.push(c));
            }
        }
    }
}

proof fn lemma_word_left(b: Seq<char>, n: nat)
    requires
        0 < n <= b.len(),
        !is_white_space(b[0]),
    ensures
        squeezed(b, n).len() > 0,
    decreases n,
{
    if n > 1 {
        lemma_word_left(b, (n - 1) as nat);
    }
}

/// A negative number is written with a sign before its size, another without one.
pub proof fn signed_numbers_carry_their_sign(n: int)
    ensures
        n < 0 ==> signed_decimal(n)[0] == '-' && digits_value(signed_decimal(n).skip(1)) == Some(
            (-n) as nat,
        ),
        n >= 0 ==> digits_value(signed_decimal(n)) == Some(n as nat),
{
    if n < 0 {
        decimal_reads_back((-n) as nat);
        assert(signed_decimal(n).skip(1) =~= decimal((-n) as nat));
    } else {
        decimal_reads_back(n as nat);
    }
}

/// White space is what Unicode calls so: the controls from tab to carriage return and the next
/// line, the space and the spaces without a break, and the separators.
pub proof fn white_space_is_that_of_unicode(c: char)
    ensures
        ({
            let u = c as u32;
            is_white_space(c) <==> u == 9 || u == 10 || u == 11 || u == 12 || u == 13 || u == 32 || u
                == 133 || u == 160 || u == 5760 || (8192 <= u <= 8202) || u == 8232 || u == 8233
                || u == 8239 || u == 8287 || u == 12288
        }),
{
}

/// Capitals change the letters from `a` to `z`, each to the capital 32 places before it, and
/// nothing else of an ASCII text.
pub proof fn capitals_change_small_letters_alone(s: Seq<char>)
    requires
        is_ascii(s),
    ensures
        capitals(s).len() == s.len(),
        forall|i: int|
            0 <= i < s.len() ==> if 'a' <= s[i] <= 'z' {
                #[trigger] capitals(s)[i] as u32 == s[i] as u32 - 32
            } else {
                capitals(s)[i] == s[i]
            },
{
    assert forall|i: int| 0 <= i < s.len() implies if 'a' <= s[i] <= 'z' {
        #[trigger] capitals(s)[i] as u32 == s[i] as u32 - 32
    } else {
        capitals(s)[i] == s[i]
    } by {
        let c = s[i];
        assert(capitals(s)[i] == ascii_capitals(s)[i]);
        if 'a' <= c <= 'z' {
            let d = (c as u8 - 32) as char;
            assert(ascii_capitals(s)[i] == d);
            assert(d as u32 == c as u32 - 32);
        } else {
            assert(ascii_capitals(s)[i] == c);
        }
    }
}

} // verus!
