//! What texts, numbers and lines are read as.

use vstd::prelude::*;
use vstd::utf8::encode_utf8;

use crate::bytes::{
    be16, be24, be24_bytes, be32, be32_bytes, be64, be64_bytes, first_index, le32, le32_bytes, le64,
    le64_bytes, lower, same_ignoring_case,
};
use crate::metadata::vorbis::track_number_of;
use crate::metadata::{synchsafe, synchsafe_bytes};
use crate::text::{
    before, decimal, digit_char, digit_value, first_place, is_white, last_place, lines, lowered,
    next_part, number_of, padded_end, padded_start, part_at, parsed, shortened, trim_end,
    trim_start, trimmed, utf16_text, word_end, words,
};

verus! {

/// Capital letters are made small; every other character stays, and so does the length.
pub proof fn law_lowered(s: Seq<char>, i: int)
    requires
        0 <= i < s.len(),
    ensures
        lowered(s).len() == s.len(),
        'A' <= s[i] <= 'Z' ==> lowered(s)[i] as int == s[i] as int + 32,
        !('A' <= s[i] <= 'Z') ==> lowered(s)[i] == s[i],
{
}

/// Bytes are compared without regard to the case of ASCII letters.
pub proof fn law_same_ignoring_case(a: Seq<u8>, b: Seq<u8>, i: int)
    requires
        same_ignoring_case(a, b),
        0 <= i < a.len(),
    ensures
        a.len() == b.len(),
        a[i] == b[i] || (0x41 <= a[i] <= 0x5a && b[i] == a[i] + 32) || (0x41 <= b[i] <= 0x5a && a[i]
            == b[i] + 32),
{
    assert(lower(a[i]) == lower(b[i]));
}

/// A digit counts from 0 to 15: the ten decimal ones, and letters of either case after them.
pub proof fn law_digit_values(c: char)
    ensures
        '0' <= c <= '9' ==> digit_value(c) == c as int - 48,
        'a' <= c <= 'f' ==> digit_value(c) == c as int - 87,
        'A' <= c <= 'F' ==> digit_value(c) == c as int - 55,
        !('0' <= c <= '9' || 'a' <= c <= 'f' || 'A' <= c <= 'F') ==> digit_value(c) >= 16,
{
}

/// A digit behind a number makes it `radix` times as large and adds its own value.
pub proof fn law_positional(s: Seq<char>, c: char, radix: int, max: int)
    requires
        2 <= radix <= 16,
        s.len() > 0,
        s[0] != '+',
        digit_value(c) < radix,
    ensures
        parsed(s, radix, max) matches Some(n) && n * radix + digit_value(c) <= max ==> parsed(
            s.push(c),
            radix,
            max,
        ) == Some(parsed(s, radix, max)->0 * radix + digit_value(c)),
{
    let t = s.push(c);
    assert(t.drop_last() =~= s);
    assert(t[0] == s[0]);
    if parsed(s, radix, max) is Some {
        assert forall|i: int| 0 <= i < t.len() implies digit_value(#[trigger] t[i]) < radix by {
            if i < s.len() {
                assert(t[i] == s[i]);
            }
        }
    }
}

/// A number is written in decimal digits, without zeros before them.
pub proof fn law_decimal(n: nat)
    ensures
        decimal(n).len() >= 1,
        n >= 10 ==> decimal(n) == decimal(n / 10).push((48 + n % 10) as char),
        n < 10 ==> decimal(n) == seq![(48 + n) as char],
        decimal(n)[0] == '0' ==> n == 0,
        forall|i: int| 0 <= i < decimal(n).len() ==> '0' <= #[trigger] decimal(n)[i] <= '9',
    decreases n,
{
    let s = decimal(n);
    if n >= 10 {
        law_decimal(n / 10);
        assert(s[0] == decimal(n / 10)[0]);
        assert forall|i: int| 0 <= i < s.len() implies '0' <= #[trigger] s[i] <= '9' by {
            if i < s.len() - 1 {
                assert(s[i] == decimal(n / 10)[i]);
            }
        }
    }
}

pub proof fn lemma_decimal_value(n: nat)
    ensures
        number_of(decimal(n), 10) == n,
    decreases n,
{
    let s = decimal(n);
    if n < 10 {
        assert(s.drop_last() =~= Seq::<char>::empty());
        assert(number_of(s.drop_last(), 10) == 0);
        assert(digit_value(digit_char(n as int)) == n);
    } else {
        lemma_decimal_value(n / 10);
        assert(s.drop_last() =~= decimal(n / 10));
        assert(digit_value(digit_char(n as int % 10)) == n as int % 10);
    }
}

/// A decimal number is read back, with a plus sign before it or without, and refused where it is
/// larger than it may be.
pub proof fn law_decimal_read_back(n: nat, max: int)
    ensures
        parsed(decimal(n), 10, max) == (if n <= max {
            Some(n as int)
        } else {
            None
        }),
        parsed(seq!['+'] + decimal(n), 10, max) == parsed(decimal(n), 10, max),
{
    let s = decimal(n);
    law_decimal(n);
    lemma_decimal_value(n);
    assert(s[0] != '+');
    assert(crate::text::all_digits(s, 10));
    let t = seq!['+'] + s;
    assert(t.subrange(1, t.len() as int) =~= s);
}

/// A text with anything but digits in it, behind a first plus sign, is no number; nor is none.
pub proof fn law_no_number(s: Seq<char>, i: int, radix: int, max: int)
    requires
        2 <= radix <= 16,
    ensures
        1 <= i < s.len() && digit_value(s[i]) >= radix ==> parsed(s, radix, max) is None,
        s.len() > 0 && s[0] != '+' && digit_value(s[0]) >= radix ==> parsed(s, radix, max) is None,
        s.len() == 0 ==> parsed(s, radix, max) is None,
{
    let t = crate::text::without_plus(s);
    if 1 <= i < s.len() && digit_value(s[i]) >= radix {
        if s[0] == '+' {
            assert(t[i - 1] == s[i]);
        } else {
            assert(t[i] == s[i]);
        }
    }
    if s.len() > 0 && s[0] != '+' && digit_value(s[0]) >= radix {
        assert(t[0] == s[0]);
    }
}

/// The characters that count as white space.
pub proof fn law_white(c: char)
    ensures
        is_white(c) <==> (9 <= c as u32 <= 13 || c as u32 == 0x20 || c as u32 == 0x85 || c as u32
            == 0xa0 || c as u32 == 0x1680 || 0x2000 <= c as u32 <= 0x200a || c as u32 == 0x2028
            || c as u32 == 0x2029 || c as u32 == 0x202f || c as u32 == 0x205f || c as u32
            == 0x3000),
{
}

/// Whether a text is nothing but white space.
pub open spec fn all_white(s: Seq<char>) -> bool {
    forall|i: int| 0 <= i < s.len() ==> is_white(#[trigger] s[i])
}

/// Whether a text neither starts nor ends with white space.
pub open spec fn tight(s: Seq<char>) -> bool {
    s.len() > 0 ==> !is_white(s[0]) && !is_white(s[s.len() - 1])
}

pub proof fn lemma_trim_start(left: Seq<char>, s: Seq<char>)
    requires
        all_white(left),
        s.len() == 0 || !is_white(s[0]),
    ensures
        trim_start(left + s) == s,
    decreases left.len(),
{
    let all = left + s;
    if left.len() == 0 {
        assert(all =~= s);
    } else {
        let rest = left.subrange(1, left.len() as int);
        assert(all[0] == left[0]);
        assert(all.subrange(1, all.len() as int) =~= rest + s);
        assert forall|i: int| 0 <= i < rest.len() implies is_white(#[trigger] rest[i]) by {
            assert(rest[i] == left[i + 1]);
        }
        lemma_trim_start(rest, s);
    }
}

pub proof fn lemma_trim_end(s: Seq<char>, right: Seq<char>)
    requires
        all_white(right),
        s.len() == 0 || !is_white(s[s.len() - 1]),
    ensures
        trim_end(s + right) == s,
    decreases right.len(),
{
    let all = s + right;
    if right.len() == 0 {
        assert(all =~= s);
    } else {
        let rest = right.subrange(0, right.len() - 1);
        assert(all[all.len() - 1] == right[right.len() - 1]);
        assert(all.subrange(0, all.len() - 1) =~= s + rest);
        assert forall|i: int| 0 <= i < rest.len() implies is_white(#[trigger] rest[i]) by {
            assert(rest[i] == right[i]);
        }
        lemma_trim_end(s, rest);
    }
}

/// White space on both sides is taken away, and nothing else.
pub proof fn law_trimmed(left: Seq<char>, s: Seq<char>, right: Seq<char>)
    requires
        all_white(left),
        all_white(right),
        tight(s),
    ensures
        trimmed(left + s + right) == s,
{
    if s.len() == 0 {
        let white = left + right;
        assert(left + s + right =~= white + s);
        assert forall|i: int| 0 <= i < white.len() implies is_white(#[trigger] white[i]) by {
            if i < left.len() {
                assert(white[i] == left[i]);
            } else {
                assert(white[i] == right[i - left.len()]);
            }
        }
        lemma_trim_start(white, s);
        lemma_trim_end(s, Seq::empty());
        assert(s + Seq::<char>::empty() =~= s);
    } else {
        let t = s + right;
        assert(left + s + right =~= left + t);
        assert(t[0] == s[0]);
        lemma_trim_start(left, t);
        lemma_trim_end(s, right);
    }
}

/// The first place of a character is where the text before it lacks it.
pub proof fn law_first_place(ahead: Seq<char>, c: char, behind: Seq<char>)
    requires
        forall|i: int| 0 <= i < ahead.len() ==> #[trigger] ahead[i] != c,
    ensures
        first_place(ahead + seq![c] + behind, c) == Some(ahead.len() as int),
        first_place(ahead, c) is None,
        before(ahead + seq![c] + behind, c) == ahead,
        before(ahead, c) == ahead,
{
    let s = ahead + seq![c] + behind;
    let n = ahead.len() as int;
    crate::text::lemma_first_place(s, c);
    crate::text::lemma_first_place(ahead, c);
    assert(s[n] == c);
    assert forall|j: int| 0 <= j < n implies s[j] != c by {
        assert(s[j] == ahead[j]);
    }
    assert(s.subrange(0, n) =~= ahead);
}

/// The last place of a character is where the text behind it lacks it.
pub proof fn law_last_place(ahead: Seq<char>, c: char, behind: Seq<char>)
    requires
        forall|i: int| 0 <= i < behind.len() ==> #[trigger] behind[i] != c,
    ensures
        last_place(ahead + seq![c] + behind, c) == Some(ahead.len() as int),
        last_place(behind, c) is None,
    decreases behind.len(),
{
    let s = ahead + seq![c] + behind;
    if behind.len() == 0 {
        assert(s[s.len() - 1] == c);
    } else {
        let rest = behind.drop_last();
        assert(s[s.len() - 1] == behind[behind.len() - 1]);
        assert(s.drop_last() =~= ahead + seq![c] + rest);
        assert forall|i: int| 0 <= i < rest.len() implies #[trigger] rest[i] != c by {
            assert(rest[i] == behind[i]);
        }
        law_last_place(ahead, c, rest);
    }
}

/// A track number is read from the digits before a slash, with white space round them or without;
/// a number too large for 32 bits counts as none.
pub proof fn law_track_number(left: Seq<char>, n: nat, right: Seq<char>, rest: Seq<char>)
    requires
        all_white(left),
        all_white(right),
    ensures
        n <= u32::MAX ==> track_number_of(left + decimal(n) + right) == n,
        n <= u32::MAX ==> track_number_of(left + decimal(n) + right + seq!['/'] + rest) == n,
        n > u32::MAX ==> track_number_of(left + decimal(n) + right) == 0,
{
    let s = left + decimal(n) + right;
    law_decimal(n);
    law_decimal_read_back(n, u32::MAX as int);
    assert(tight(decimal(n))) by {
        let d = decimal(n);
        assert('0' <= d[0] <= '9' && '0' <= d[d.len() - 1] <= '9');
    }
    law_trimmed(left, decimal(n), right);
    assert forall|i: int| 0 <= i < s.len() implies #[trigger] s[i] != '/' by {
        if i < left.len() {
            assert(is_white(left[i]));
        } else if i < left.len() + decimal(n).len() {
            assert('0' <= decimal(n)[i - left.len()] <= '9');
        } else {
            assert(is_white(right[i - left.len() - decimal(n).len()]));
        }
    }
    law_first_place(s, '/', rest);
}

/// A text with a letter before the first slash is no track number.
pub proof fn law_no_track_number(s: Seq<char>, i: int)
    requires
        0 <= i < s.len(),
        forall|j: int| 0 <= j < s.len() ==> #[trigger] s[j] != '/',
        tight(s),
        digit_value(s[i]) >= 10,
        s[i] != '+',
    ensures
        track_number_of(s) == 0,
{
    law_first_place(s, '/', Seq::empty());
    law_trimmed(Seq::empty(), s, Seq::empty());
    assert(Seq::<char>::empty() + s + Seq::<char>::empty() =~= s);
    law_no_number(s, i, 10, u32::MAX as int);
}

/// A big-endian number is read with its first byte as the most significant one.
#[verifier::spinoff_prover]
#[verifier::rlimit(40)]
pub proof fn law_big_endian(b: Seq<u8>, at: int, n: int, m: int)
    requires
        0 <= n < 0x1_0000_0000,
        0 <= m < 0x1_0000_0000_0000_0000,
    ensures
        be16(b, at) == b[at] * 256 + b[at + 1],
        be24(b, at) == (b[at] * 256 + b[at + 1]) * 256 + b[at + 2],
        be32(b, at) == ((b[at] * 256 + b[at + 1]) * 256 + b[at + 2]) * 256 + b[at + 3],
        be64(b, at) == be32(b, at) * 0x1_0000_0000 + be32(b, at + 4),
        be32_bytes(n).len() == 4,
        be32(be32_bytes(n), 0) == n,
        be64_bytes(m).len() == 8,
        be64(be64_bytes(m), 0) == m,
        n < 0x100_0000 ==> be24_bytes(n).len() == 3 && be24(be24_bytes(n), 0) == n,
{
    crate::bytes::lemma_be32_round_trip(n);
    crate::bytes::lemma_be64_round_trip(m);
    if n < 0x100_0000 {
        crate::bytes::lemma_be24_round_trip(n);
    }
}

/// A little-endian number is read with its first byte as the least significant one.
#[verifier::spinoff_prover]
#[verifier::rlimit(40)]
pub proof fn law_little_endian(b: Seq<u8>, at: int, n: int, m: int)
    requires
        0 <= n < 0x1_0000_0000,
        0 <= m < 0x1_0000_0000_0000_0000,
    ensures
        le32(b, at) == b[at] + (b[at + 1] + (b[at + 2] + b[at + 3] * 256) * 256) * 256,
        le64(b, at) == le32(b, at) + le32(b, at + 4) * 0x1_0000_0000,
        le32_bytes(n).len() == 4,
        le32(le32_bytes(n), 0) == n,
        le64_bytes(m).len() == 8,
        le64(le64_bytes(m), 0) == m,
{
    crate::bytes::lemma_le32_round_trip(n);
    crate::bytes::lemma_le64_round_trip(m);
}

/// A "synchsafe" number has seven bits in each of its four bytes, the most significant ones first.
#[verifier::spinoff_prover]
pub proof fn law_synchsafe(b: Seq<u8>, at: int, n: int)
    requires
        0 <= n < 0x1000_0000,
    ensures
        b[at] < 128 && b[at + 1] < 128 && b[at + 2] < 128 && b[at + 3] < 128 ==> synchsafe(b, at)
            == ((b[at] * 128 + b[at + 1]) * 128 + b[at + 2]) * 128 + b[at + 3],
        synchsafe_bytes(n).len() == 4,
        synchsafe(synchsafe_bytes(n), 0) == n,
        forall|i: int| 0 <= i < 4 ==> #[trigger] synchsafe_bytes(n)[i] < 128,
{
    crate::metadata::lemma_synchsafe_round_trip(n);
    lemma_seven_bits(n);
    if b[at] < 128 && b[at + 1] < 128 && b[at + 2] < 128 && b[at + 3] < 128 {
        lemma_synchsafe_read(b, at);
    }
}

#[verifier::spinoff_prover]
proof fn lemma_seven_bits(n: int)
    ensures
        forall|i: int| 0 <= i < 4 ==> #[trigger] synchsafe_bytes(n)[i] < 128,
{
    let w = synchsafe_bytes(n);
    assert(w[0] < 128 && w[1] < 128 && w[2] < 128 && w[3] < 128);
    assert forall|i: int| 0 <= i < 4 implies #[trigger] w[i] < 128 by {
        assert(i == 0 || i == 1 || i == 2 || i == 3);
    }
}

#[verifier::spinoff_prover]
proof fn lemma_synchsafe_read(b: Seq<u8>, at: int)
    requires
        b[at] < 128 && b[at + 1] < 128 && b[at + 2] < 128 && b[at + 3] < 128,
    ensures
        synchsafe(b, at) == ((b[at] * 128 + b[at + 1]) * 128 + b[at + 2]) * 128 + b[at + 3],
{
    assert(b[at] % 0x80 == b[at] && b[at + 1] % 0x80 == b[at + 1] && b[at + 2] % 0x80 == b[at + 2]
        && b[at + 3] % 0x80 == b[at + 3]);
}

/// The code units of a text in UTF-16.
pub open spec fn utf16_units(s: Seq<char>) -> Seq<u16>
    decreases s.len(),
{
    if s.len() == 0 {
        seq![]
    } else {
        let c = s[0] as u32;
        (if c < 0x1_0000 {
            seq![c as u16]
        } else {
            seq![
                (0xD800 + (c - 0x1_0000) / 0x400) as u16,
                (0xDC00 + (c - 0x1_0000) % 0x400) as u16,
            ]
        }) + utf16_units(s.drop_first())
    }
}

/// A text is read back from its code units in UTF-16.
#[verifier::spinoff_prover]
#[verifier::rlimit(40)]
pub proof fn law_utf16_read_back(s: Seq<char>)
    ensures
        utf16_text(utf16_units(s)) == Some(s),
    decreases s.len(),
{
    let u = utf16_units(s);
    if s.len() == 0 {
        assert(s =~= seq![]);
    } else {
        let rest = s.drop_first();
        let c = s[0] as u32;
        vstd::utf8::char_is_scalar(s[0]);
        vstd::utf8::char_u32_cast(s[0], c);
        law_utf16_read_back(rest);
        assert(seq![s[0]] + rest =~= s);
        if c < 0x1_0000 {
            assert(u[0] == c);
            assert(u.skip(1) =~= utf16_units(rest));
            assert(u[0] as char == s[0]);
        } else {
            assert(u.skip(2) =~= utf16_units(rest));
            let high = u[0];
            let low = u[1];
            assert(high == 0xD800 + (c - 0x1_0000) / 0x400);
            assert(low == 0xDC00 + (c - 0x1_0000) % 0x400);
            assert((0x1_0000 + (high - 0xD800) * 0x400 + (low - 0xDC00)) == c);
            assert((0x1_0000 + (high - 0xD800) * 0x400 + (low - 0xDC00)) as char == s[0]);
        }
    }
}

/// A surrogate without its counterpart makes UTF-16 invalid.
pub proof fn law_utf16_refused(units: Seq<u16>)
    requires
        units.len() > 0,
        0xD800 <= units[0] < 0xE000,
        units[0] < 0xDC00 ==> units.len() == 1 || !(0xDC00 <= units[1] < 0xE000),
    ensures
        utf16_text(units) is None,
{
}

/// The UTF-8 of two texts one after the other.
pub proof fn lemma_encode_parts(a: Seq<char>, b: Seq<char>)
    ensures
        encode_utf8(a + b) == encode_utf8(a) + encode_utf8(b),
    decreases a.len(),
{
    if a.len() == 0 {
        assert(a + b =~= b);
        assert(encode_utf8(a) =~= Seq::<u8>::empty());
        assert(encode_utf8(a) + encode_utf8(b) =~= encode_utf8(b));
    } else {
        let s = a + b;
        assert(s[0] == a[0]);
        assert(s.drop_first() =~= a.drop_first() + b);
        lemma_encode_parts(a.drop_first(), b);
        assert(encode_utf8(s) =~= encode_utf8(a) + encode_utf8(b));
    }
}

/// Whether a line has no line end in it.
pub open spec fn one_line(s: Seq<char>) -> bool {
    forall|i: int| 0 <= i < s.len() ==> #[trigger] s[i] != '\n' && s[i] != '\r'
}

/// Lines that end in a line feed, with a carriage return before it or without, are told apart; the
/// last one needs no line end.
pub proof fn law_line(s: Seq<char>, rest: Seq<char>)
    requires
        one_line(s),
    ensures
        lines(s + seq!['\n'] + rest) == seq![s] + lines(rest),
        lines(s + seq!['\r', '\n'] + rest) == seq![s] + lines(rest),
        s.len() > 0 ==> lines(s) == seq![s],
        lines(Seq::empty()) == Seq::<Seq<char>>::empty(),
{
    let a = s + seq!['\n'] + rest;
    law_first_place(s, '\n', rest);
    assert(a.subrange(0, s.len() as int) =~= s);
    assert(a.subrange((s.len() + 1) as int, a.len() as int) =~= rest);
    assert(crate::text::without_return(s) == s);
    let t = s + seq!['\r'];
    let z = s + seq!['\r', '\n'] + rest;
    assert(z =~= t + seq!['\n'] + rest);
    assert forall|i: int| 0 <= i < t.len() implies #[trigger] t[i] != '\n' by {
        if i < s.len() {
            assert(t[i] == s[i]);
        }
    }
    law_first_place(t, '\n', rest);
    assert(z.subrange(0, t.len() as int) =~= t);
    assert(z.subrange((t.len() + 1) as int, z.len() as int) =~= rest);
    assert(t.drop_last() =~= s);
}

pub proof fn lemma_word_end(word: Seq<char>, rest: Seq<char>)
    requires
        forall|i: int| 0 <= i < word.len() ==> !is_white(#[trigger] word[i]),
        rest.len() == 0 || is_white(rest[0]),
    ensures
        word_end(word + rest) == word.len(),
    decreases word.len(),
{
    let all = word + rest;
    if word.len() == 0 {
        assert(all =~= rest);
    } else {
        let tail = word.subrange(1, word.len() as int);
        assert(all[0] == word[0]);
        assert(all.subrange(1, all.len() as int) =~= tail + rest);
        assert forall|i: int| 0 <= i < tail.len() implies !is_white(#[trigger] tail[i]) by {
            assert(tail[i] == word[i + 1]);
        }
        lemma_word_end(tail, rest);
    }
}

/// The first word of a text is what stands between its first white space and the next.
pub proof fn law_first_word(left: Seq<char>, word: Seq<char>, rest: Seq<char>)
    requires
        all_white(left),
        word.len() > 0,
        forall|i: int| 0 <= i < word.len() ==> !is_white(#[trigger] word[i]),
        rest.len() == 0 || is_white(rest[0]),
    ensures
        words(left + word + rest) == seq![word] + words(rest),
        words(left) == Seq::<Seq<char>>::empty(),
{
    let t = word + rest;
    assert(left + word + rest =~= left + t);
    assert(t[0] == word[0]);
    lemma_trim_start(left, t);
    lemma_word_end(word, rest);
    assert(t.subrange(0, word.len() as int) =~= word);
    assert(t.subrange(word.len() as int, t.len() as int) =~= rest);
    lemma_trim_start(left, Seq::empty());
    assert(left + Seq::<char>::empty() =~= left);
}

/// A part is found where it first stands.
pub proof fn law_next_part(s: Seq<char>, part: Seq<char>, from: int, at: int)
    requires
        0 <= from <= at,
        at + part.len() <= s.len(),
        s.subrange(at, at + part.len()) == part,
        forall|j: int| from <= j < at ==> #[trigger] s.subrange(j, j + part.len()) != part,
    ensures
        next_part(s, from, part) == Some(at),
    decreases at - from,
{
    if from < at {
        assert(s.subrange(from, from + part.len()) != part);
        assert(!part_at(s, from, part));
        law_next_part(s, part, from + 1, at);
    } else {
        assert(part_at(s, at, part));
    }
}

/// Padding makes a text as wide as asked, on the side asked, and leaves a wider one alone.
pub proof fn law_padding(s: Seq<char>, width: int, fill: char)
    ensures
        s.len() >= width ==> padded_start(s, width, fill) == s && padded_end(s, width, fill) == s,
        s.len() < width ==> padded_start(s, width, fill).len() == width && padded_end(
            s,
            width,
            fill,
        ).len() == width,
        s.len() < width ==> padded_start(s, width, fill).subrange(width - s.len(), width) == s,
        s.len() < width ==> padded_end(s, width, fill).subrange(0, s.len() as int) == s,
        forall|i: int|
            0 <= i < width - s.len() ==> #[trigger] padded_start(s, width, fill)[i] == fill,
        forall|i: int|
            s.len() <= i < width ==> #[trigger] padded_end(s, width, fill)[i] == fill,
{
    let p = padded_start(s, width, fill);
    let q = padded_end(s, width, fill);
    if s.len() >= width {
        assert(p =~= s);
        assert(q =~= s);
    } else {
        assert(p.subrange(width - s.len(), width) =~= s);
        assert(q.subrange(0, s.len() as int) =~= s);
    }
}

/// A text is cut to so many characters, and a shorter one stays.
pub proof fn law_shortened(s: Seq<char>, max: int)
    requires
        0 <= max,
    ensures
        s.len() <= max ==> shortened(s, max) == s,
        s.len() > max ==> shortened(s, max) == s.subrange(0, max),
{
    if s.len() > max {
        assert(shortened(s, max) =~= s.subrange(0, max));
    }
}

/// The first place of a byte is where the bytes before it lack it.
pub proof fn law_first_index(ahead: Seq<u8>, x: u8, behind: Seq<u8>)
    requires
        forall|i: int| 0 <= i < ahead.len() ==> #[trigger] ahead[i] != x,
    ensures
        first_index(ahead + seq![x] + behind, x) == Some(ahead.len() as int),
        first_index(ahead, x) is None,
{
    let b = ahead + seq![x] + behind;
    assert forall|j: int| 0 <= j < ahead.len() implies b[j] != x by {
        assert(b[j] == ahead[j]);
    }
    crate::bytes::lemma_first_index_is(b, x, ahead.len() as int);
    crate::bytes::lemma_first_index(ahead, x);
}

} // verus!
