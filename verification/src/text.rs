//! Text as sequences of characters: conversions, trimming, splitting and numbers.

use vstd::prelude::*;
use vstd::slice::slice_subrange;
use vstd::utf8::{decode_utf8, encode_scalar, encode_utf8, valid_utf8};

verus! {

/// `String::push` appends one character.
pub assume_specification[ std::string::String::push ](s: &mut std::string::String, c: char)
    ensures
        final(s)@ == old(s)@.push(c),
;

/// `char::from_u32` gives the character whose code is `i`, and none where `i` is no Unicode
/// scalar value, that is for a surrogate or a number above `0x10FFFF`.
pub assume_specification[ char::from_u32 ](i: u32) -> (r: Option<char>)
    ensures
        r is Some <==> (i < 0xD800 || 0xE000 <= i <= 0x10FFFF),
        r matches Some(c) ==> c == i as char,
;

/// `String::from_utf8` accepts exactly the valid UTF-8 byte strings, and gives the text they
/// encode.
#[verifier::external_body]
pub(crate) fn utf8_text(b: &[u8]) -> (r: Option<String>)
    ensures
        r is Some <==> valid_utf8(b@),
        r matches Some(s) ==> s@ == decode_utf8(b@),
{
    String::from_utf8(b.to_vec()).ok()
}

/// The text that `String::from_utf8_lossy` makes of a byte string that is not valid UTF-8: what it
/// encodes, with replacement characters for the invalid parts.
pub uninterp spec fn utf8_lossy(b: Seq<u8>) -> Seq<char>;

/// `String::from_utf8_lossy` gives the text that a valid UTF-8 byte string encodes; for another
/// byte string it gives a text that depends on the bytes alone.
#[verifier::external_body]
pub(crate) fn lossy_text(b: &[u8]) -> (r: String)
    ensures
        valid_utf8(b@) ==> r@ == decode_utf8(b@),
        !valid_utf8(b@) ==> r@ == utf8_lossy(b@),
{
    String::from_utf8_lossy(b).into_owned()
}

/// The text in a byte string, with replacement characters for what is not valid UTF-8.
pub open spec fn as_text(b: Seq<u8>) -> Seq<char> {
    if valid_utf8(b) {
        decode_utf8(b)
    } else {
        utf8_lossy(b)
    }
}

/// A text is read back from the bytes that encode it.
pub proof fn lemma_as_text(s: Seq<char>)
    ensures
        valid_utf8(encode_utf8(s)),
        decode_utf8(encode_utf8(s)) == s,
        as_text(encode_utf8(s)) == s,
{
    broadcast use vstd::utf8::encode_utf8_valid_utf8;
    broadcast use vstd::utf8::encode_utf8_decode_utf8;

}

/// An ASCII character is encoded as itself, and no other character holds an ASCII byte.
proof fn lemma_scalar_bytes(c: char)
    ensures
        (c as u32) < 0x80 ==> encode_scalar(c as u32) == seq![c as u8],
        (c as u32) >= 0x80 ==> forall|k: int|
            0 <= k < encode_scalar(c as u32).len() ==> #[trigger] encode_scalar(c as u32)[k] >= 0x80,
{
    let v = c as u32;
    assert(v < 0x80 ==> (v & 0x7F) as u8 == v as u8) by (bit_vector);
    assert(0xC0u8 | ((v >> 6) & 0x1F) as u8 >= 0x80u8) by (bit_vector);
    assert(0xE0u8 | ((v >> 12) & 0x0F) as u8 >= 0x80u8) by (bit_vector);
    assert(0xF0u8 | ((v >> 18) & 0x7) as u8 >= 0x80u8) by (bit_vector);
    assert(0x80u8 | (v & 0x3F) as u8 >= 0x80u8) by (bit_vector);
    assert(0x80u8 | ((v >> 6) & 0x3F) as u8 >= 0x80u8) by (bit_vector);
    assert(0x80u8 | ((v >> 12) & 0x3F) as u8 >= 0x80u8) by (bit_vector);
}

proof fn lemma_scalar_lacks(d: char, c: char)
    requires
        (c as u32) < 0x80,
        d != c,
    ensures
        forall|k: int|
            0 <= k < encode_scalar(d as u32).len() ==> #[trigger] encode_scalar(d as u32)[k]
                != c as u8,
{
    lemma_scalar_bytes(d);
}

/// The encoding of a text that lacks an ASCII character lacks its byte.
pub proof fn lemma_utf8_lacks(s: Seq<char>, c: char)
    requires
        (c as u32) < 0x80,
        forall|i: int| 0 <= i < s.len() ==> #[trigger] s[i] != c,
    ensures
        forall|k: int| 0 <= k < encode_utf8(s).len() ==> #[trigger] encode_utf8(s)[k] != c as u8,
    decreases s.len(),
{
    if s.len() > 0 {
        let rest = s.drop_first();
        let first = encode_scalar(s[0] as u32);
        lemma_scalar_lacks(s[0], c);
        assert forall|i: int| 0 <= i < rest.len() implies #[trigger] rest[i] != c by {
            assert(rest[i] == s[i + 1]);
        }
        lemma_utf8_lacks(rest, c);
        let all = encode_utf8(s);
        assert(s[0] != c);
        assert forall|k: int| 0 <= k < all.len() implies #[trigger] all[k] != c as u8 by {
            if k < first.len() {
                assert(all[k] == first[k]);
            } else {
                assert(all[k] == encode_utf8(rest)[k - first.len()]);
            }
        }
    }
}

/// The characters of a text.
pub fn chars_of(s: &str) -> (r: Vec<char>)
    ensures
        r@ == s@,
{
    let mut r: Vec<char> = Vec::new();
    for c in it: s.chars()
        invariant
            r@ =~= it.seq().take(it.index()),
            it.seq() == s@,
    {
        r.push(c);
    }
    r
}

/// The text made of some characters.
pub fn string_of(chars: &[char]) -> (r: String)
    ensures
        r@ == chars@,
{
    let mut r = String::new();
    let mut i: usize = 0;
    while i < chars.len()
        invariant
            i <= chars@.len(),
            r@ =~= chars@.take(i as int),
        decreases chars@.len() - i,
    {
        r.push(chars[i]);
        i = i + 1;
    }
    assert(chars@.take(i as int) =~= chars@);
    r
}

/// The text that UTF-16 code units encode: a unit outside the surrogates stands for itself, a high
/// surrogate and the low one after it for a character beyond the basic plane. A surrogate that is
/// not part of such a pair encodes nothing.
pub open spec fn utf16_text(units: Seq<u16>) -> Option<Seq<char>>
    decreases units.len(),
{
    if units.len() == 0 {
        Some(seq![])
    } else if units[0] < 0xD800 || 0xE000 <= units[0] {
        led_by(units[0] as char, utf16_text(units.skip(1)))
    } else if units[0] < 0xDC00 && units.len() >= 2 && 0xDC00 <= units[1] < 0xE000 {
        led_by(
            (0x1_0000 + (units[0] - 0xD800) * 0x400 + (units[1] - 0xDC00)) as char,
            utf16_text(units.skip(2)),
        )
    } else {
        None
    }
}

/// `rest`, where there is one, with `c` before it.
pub open spec fn led_by(c: char, rest: Option<Seq<char>>) -> Option<Seq<char>> {
    match rest {
        Some(t) => Some(seq![c] + t),
        None => None,
    }
}

/// Decodes UTF-16 code units.
pub fn decode_utf16(units: &Vec<u16>) -> (r: Option<String>)
    ensures
        match r {
            Some(s) => utf16_text(units@) == Some(s@),
            None => utf16_text(units@) is None,
        },
{
    let mut r = String::new();
    let mut i: usize = 0;
    let n: usize = units.len();
    assert(units@.skip(0) =~= units@);
    assert(utf16_text(units@) matches Some(t) ==> r@ + t =~= t);
    while i < n
        invariant
            i <= n,
            n == units.len(),
            utf16_text(units@) == (match utf16_text(units@.skip(i as int)) {
                Some(t) => Some(r@ + t),
                None => None,
            }),
        decreases n - i,
    {
        let ghost rest = units@.skip(i as int);
        let ghost done = r@;
        let u: u32 = units[i] as u32;
        if u < 0xD800 || u >= 0xE000 {
            match char::from_u32(u) {
                Some(c) => {
                    r.push(c);
                    assert(c == rest[0] as char);
                    assert(rest.skip(1) =~= units@.skip(i + 1));
                    assert(utf16_text(units@.skip(i + 1)) matches Some(t) ==> done + (seq![c] + t)
                        =~= r@ + t);
                },
                None => return None,
            }
            i = i + 1;
        } else if u < 0xDC00 && n - i >= 2 && 0xDC00 <= units[i + 1] && units[i + 1] < 0xE000 {
            let low: u32 = units[i + 1] as u32;
            match char::from_u32(0x1_0000 + (u - 0xD800) * 0x400 + (low - 0xDC00)) {
                Some(c) => {
                    r.push(c);
                    assert(c == (0x1_0000 + (rest[0] - 0xD800) * 0x400 + (rest[1] - 0xDC00)) as char);
                    assert(rest.skip(2) =~= units@.skip(i + 2));
                    assert(utf16_text(units@.skip(i + 2)) matches Some(t) ==> done + (seq![c] + t)
                        =~= r@ + t);
                },
                None => return None,
            }
            i = i + 2;
        } else {
            return None;
        }
    }
    assert(units@.skip(i as int) =~= Seq::<u16>::empty());
    assert(r@ + Seq::<char>::empty() =~= r@);
    Some(r)
}

/// Appends a text.
pub fn push_text(out: &mut String, more: &str)
    ensures
        final(out)@ == old(out)@ + more@,
{
    out.append(more);
}

/// A text in two parts.
pub fn joined(a: &str, b: &str) -> (r: String)
    ensures
        r@ == a@ + b@,
{
    let mut r = a.to_owned();
    r.append(b);
    r
}

/// Tells whether two lists of characters are equal.
pub fn same_chars(a: &[char], b: &[char]) -> (r: bool)
    ensures
        r == (a@ == b@),
{
    if a.len() != b.len() {
        return false;
    }
    let mut i: usize = 0;
    while i < a.len()
        invariant
            i <= a@.len(),
            a@.len() == b@.len(),
            forall|j: int| 0 <= j < i ==> a@[j] == b@[j],
        decreases a@.len() - i,
    {
        if a[i] != b[i] {
            return false;
        }
        i = i + 1;
    }
    assert(a@ =~= b@);
    true
}

/// Tells whether two texts are equal.
pub fn same_text(a: &str, b: &str) -> (r: bool)
    ensures
        r == (a@ == b@),
{
    same_chars(&chars_of(a), &chars_of(b))
}

/// `c` with an ASCII capital made small.
pub open spec fn small(c: char) -> char {
    if 'A' <= c <= 'Z' {
        (c as u32 + 0x20) as char
    } else {
        c
    }
}

/// `s` with ASCII capitals made small.
pub open spec fn lowered(s: Seq<char>) -> Seq<char> {
    Seq::new(s.len(), |i: int| small(s[i]))
}

/// Makes an ASCII capital small.
pub fn to_small(c: char) -> (r: char)
    ensures
        r == small(c),
{
    if 'A' <= c && c <= 'Z' {
        (c as u8 + 0x20) as char
    } else {
        c
    }
}

/// Makes the ASCII capitals of a text small.
pub fn to_lowered(s: &[char]) -> (r: Vec<char>)
    ensures
        r@ == lowered(s@),
{
    let mut r: Vec<char> = Vec::new();
    let mut i: usize = 0;
    while i < s.len()
        invariant
            i <= s@.len(),
            r@ =~= lowered(s@).take(i as int),
        decreases s@.len() - i,
    {
        r.push(to_small(s[i]));
        i = i + 1;
    }
    assert(r@ =~= lowered(s@));
    r
}

/// Tells whether some characters make up a text.
pub fn is_text(s: &[char], text: &str) -> (r: bool)
    ensures
        r == (s@ == text@),
{
    same_chars(s, &chars_of(text))
}

/// The characters with the Unicode property `White_Space`.
pub open spec fn is_white(c: char) -> bool {
    ||| '\u{9}' <= c <= '\u{d}'
    ||| c == '\u{20}'
    ||| c == '\u{85}'
    ||| c == '\u{a0}'
    ||| c == '\u{1680}'
    ||| '\u{2000}' <= c <= '\u{200a}'
    ||| c == '\u{2028}'
    ||| c == '\u{2029}'
    ||| c == '\u{202f}'
    ||| c == '\u{205f}'
    ||| c == '\u{3000}'
}

/// Tells whether a character has the Unicode property `White_Space`.
pub fn white(c: char) -> (r: bool)
    ensures
        r == is_white(c),
{
    ('\u{9}' <= c && c <= '\u{d}') || c == '\u{20}' || c == '\u{85}' || c == '\u{a0}' || c
        == '\u{1680}' || ('\u{2000}' <= c && c <= '\u{200a}') || c == '\u{2028}' || c == '\u{2029}'
        || c == '\u{202f}' || c == '\u{205f}' || c == '\u{3000}'
}

/// `s` without the white space at its start.
pub open spec fn trim_start(s: Seq<char>) -> Seq<char>
    decreases s.len(),
{
    if s.len() > 0 && is_white(s[0]) {
        trim_start(s.subrange(1, s.len() as int))
    } else {
        s
    }
}

/// `s` without the white space at its end.
pub open spec fn trim_end(s: Seq<char>) -> Seq<char>
    decreases s.len(),
{
    if s.len() > 0 && is_white(s[s.len() - 1]) {
        trim_end(s.subrange(0, s.len() - 1))
    } else {
        s
    }
}

/// `s` without the white space at either end.
pub open spec fn trimmed(s: Seq<char>) -> Seq<char> {
    trim_end(trim_start(s))
}

/// Takes the white space off both ends.
pub fn trim(s: &[char]) -> (r: &[char])
    ensures
        r@ == trimmed(s@),
{
    let mut from: usize = 0;
    assert(s@.subrange(0, s@.len() as int) =~= s@);
    while from < s.len() && white(s[from])
        invariant
            from <= s@.len(),
            trim_start(s@.subrange(from as int, s@.len() as int)) == trim_start(s@),
        decreases s@.len() - from,
    {
        assert(s@.subrange(from as int, s@.len() as int).subrange(1, s@.len() - from) =~= s@.subrange(
            from + 1,
            s@.len() as int,
        ));
        from = from + 1;
    }
    let mut to: usize = s.len();
    let ghost mid = s@.subrange(from as int, s@.len() as int);
    assert(mid == trim_start(s@));
    while from < to && white(s[to - 1])
        invariant
            from <= to <= s@.len(),
            trim_end(s@.subrange(from as int, to as int)) == trim_end(mid),
        decreases to - from,
    {
        assert(s@.subrange(from as int, to as int).subrange(0, to - from - 1) =~= s@.subrange(
            from as int,
            to - 1,
        ));
        to = to - 1;
    }
    slice_subrange(s, from, to)
}

/// The place of the first `wanted` in `s`.
pub open spec fn first_place(s: Seq<char>, wanted: char) -> Option<int>
    decreases s.len(),
{
    if s.len() == 0 {
        None
    } else if s[0] == wanted {
        Some(0)
    } else {
        match first_place(s.drop_first(), wanted) {
            Some(i) => Some(i + 1),
            None => None,
        }
    }
}

/// What `first_place` finds is the first place that holds `wanted`.
#[verifier::spinoff_prover]
#[verifier::rlimit(40)]
pub proof fn lemma_first_place(s: Seq<char>, wanted: char)
    ensures
        match first_place(s, wanted) {
            Some(i) => 0 <= i < s.len() && s[i] == wanted && forall|j: int|
                0 <= j < i ==> s[j] != wanted,
            None => forall|j: int| 0 <= j < s.len() ==> s[j] != wanted,
        },
    decreases s.len(),
{
    if s.len() > 0 && s[0] != wanted {
        let rest = s.drop_first();
        lemma_first_place(rest, wanted);
        match first_place(rest, wanted) {
            Some(i) => {
                assert forall|j: int| 0 <= j < i + 1 implies s[j] != wanted by {
                    if j > 0 {
                        assert(rest[j - 1] == s[j]);
                    }
                }
            },
            None => {
                assert forall|j: int| 0 <= j < s.len() implies s[j] != wanted by {
                    if j > 0 {
                        assert(rest[j - 1] == s[j]);
                    }
                }
            },
        }
    }
}

/// Finds the first `wanted` in `s`.
pub fn find_char(s: &[char], wanted: char) -> (r: Option<usize>)
    ensures
        match r {
            Some(i) => first_place(s@, wanted) == Some(i as int) && i < s.len(),
            None => first_place(s@, wanted) is None,
        },
{
    proof {
        lemma_first_place(s@, wanted);
    }
    let mut i: usize = 0;
    while i < s.len()
        invariant
            i <= s@.len(),
            forall|j: int| 0 <= j < i ==> s@[j] != wanted,
        decreases s@.len() - i,
    {
        if s[i] == wanted {
            proof {
                lemma_first_place(s@, wanted);
            }
            return Some(i);
        }
        i = i + 1;
    }
    None
}

/// The place of the last `wanted` in `s`.
pub open spec fn last_place(s: Seq<char>, wanted: char) -> Option<int>
    decreases s.len(),
{
    if s.len() == 0 {
        None
    } else if s[s.len() - 1] == wanted {
        Some(s.len() - 1)
    } else {
        last_place(s.drop_last(), wanted)
    }
}

/// Finds the last `wanted` in `s`.
pub fn find_last_char(s: &[char], wanted: char) -> (r: Option<usize>)
    ensures
        match r {
            Some(i) => last_place(s@, wanted) == Some(i as int) && i < s.len() && s@[i as int]
                == wanted,
            None => last_place(s@, wanted) is None,
        },
{
    let mut i: usize = s.len();
    assert(s@.take(i as int) =~= s@);
    while i > 0
        invariant
            i <= s@.len(),
            last_place(s@, wanted) == last_place(s@.take(i as int), wanted),
        decreases i,
    {
        assert(s@.take(i as int).drop_last() =~= s@.take(i - 1));
        if s[i - 1] == wanted {
            return Some(i - 1);
        }
        i = i - 1;
    }
    None
}

/// The part of `s` before the first `mark`, or all of it.
pub open spec fn before(s: Seq<char>, mark: char) -> Seq<char> {
    match first_place(s, mark) {
        Some(i) => s.subrange(0, i),
        None => s,
    }
}

/// Takes the part of `s` before the first `mark`, or all of it.
pub fn part_before(s: &[char], mark: char) -> (r: &[char])
    ensures
        r@ == before(s@, mark),
{
    match find_char(s, mark) {
        Some(i) => slice_subrange(s, 0, i),
        None => s,
    }
}

/// Whether `s` begins with `prefix`.
pub open spec fn begins_with(s: Seq<char>, prefix: Seq<char>) -> bool {
    prefix.len() <= s.len() && s.subrange(0, prefix.len() as int) == prefix
}

/// Whether `part` stands in `s` at `at`.
pub open spec fn part_at(s: Seq<char>, at: int, part: Seq<char>) -> bool {
    &&& 0 <= at
    &&& at + part.len() <= s.len()
    &&& s.subrange(at, at + part.len()) == part
}

/// Tells whether `part` stands in `s` at `at`.
pub fn is_part_at(s: &[char], at: usize, part: &[char]) -> (r: bool)
    ensures
        r == part_at(s@, at as int, part@),
{
    if at > s.len() || part.len() > s.len() - at {
        return false;
    }
    same_chars(slice_subrange(s, at, at + part.len()), part)
}

/// Tells whether `s` begins with `prefix`.
pub fn starts_with(s: &[char], prefix: &str) -> (r: bool)
    ensures
        r == begins_with(s@, prefix@),
{
    is_part_at(s, 0, &chars_of(prefix))
}

/// Whether `part` stands somewhere in `s`.
pub open spec fn holds(s: Seq<char>, part: Seq<char>) -> bool {
    exists|at: int| part_at(s, at, part)
}

/// Tells whether `part` stands somewhere in `s`.
pub fn contains(s: &[char], part: &[char]) -> (r: bool)
    ensures
        r == holds(s@, part@),
{
    if part.len() > s.len() {
        return false;
    }
    let last: usize = s.len() - part.len();
    let mut at: usize = 0;
    while at <= last
        invariant
            last == s@.len() - part@.len(),
            at <= last + 1,
            last < usize::MAX || part@.len() == 0,
            forall|j: int| 0 <= j < at ==> !part_at(s@, j, part@),
        decreases last + 1 - at,
    {
        if is_part_at(s, at, part) {
            return true;
        }
        if at == last {
            return false;
        }
        at = at + 1;
    }
    false
}

/// The value of a digit in a base of at most sixteen.
pub open spec fn digit_value(c: char) -> int {
    if '0' <= c <= '9' {
        c as int - '0' as int
    } else if 'a' <= c <= 'f' {
        c as int - 'a' as int + 10
    } else if 'A' <= c <= 'F' {
        c as int - 'A' as int + 10
    } else {
        16
    }
}

/// Gives the value of a digit, or sixteen for what is none.
pub fn digit_of(c: char) -> (d: u32)
    ensures
        d == digit_value(c),
        d <= 16,
{
    if '0' <= c && c <= '9' {
        c as u32 - '0' as u32
    } else if 'a' <= c && c <= 'f' {
        c as u32 - 'a' as u32 + 10
    } else if 'A' <= c && c <= 'F' {
        c as u32 - 'A' as u32 + 10
    } else {
        16
    }
}

/// Whether every character of `s` is a digit in base `radix`.
pub open spec fn all_digits(s: Seq<char>, radix: int) -> bool {
    forall|i: int| 0 <= i < s.len() ==> digit_value(#[trigger] s[i]) < radix
}

/// The number that digits in base `radix` stand for.
pub open spec fn number_of(s: Seq<char>, radix: int) -> int
    decreases s.len(),
{
    if s.len() == 0 {
        0
    } else {
        number_of(s.drop_last(), radix) * radix + digit_value(s.last())
    }
}

/// `s` without a plus sign at its start.
pub open spec fn without_plus(s: Seq<char>) -> Seq<char> {
    if s.len() > 0 && s[0] == '+' {
        s.subrange(1, s.len() as int)
    } else {
        s
    }
}

/// The number from `0` to `max` that `s` writes in base `radix`: digits, with a plus sign before
/// them or without.
pub open spec fn parsed(s: Seq<char>, radix: int, max: int) -> Option<int> {
    let t = without_plus(s);
    if t.len() > 0 && all_digits(t, radix) && number_of(t, radix) <= max {
        Some(number_of(t, radix))
    } else {
        None
    }
}

/// More digits do not make a number smaller.
#[verifier::spinoff_prover]
#[verifier::rlimit(40)]
pub proof fn lemma_number_grows(s: Seq<char>, k: int, radix: int)
    requires
        0 <= k <= s.len(),
        1 <= radix,
        all_digits(s, radix),
    ensures
        0 <= number_of(s.take(k), radix) <= number_of(s, radix),
    decreases s.len(),
{
    if k < s.len() {
        assert(s.drop_last().take(k) =~= s.take(k));
        lemma_number_grows(s.drop_last(), k, radix);
        let n = number_of(s.drop_last(), radix);
        assert(n <= n * radix) by (nonlinear_arith)
            requires
                0 <= n,
                1 <= radix,
        ;
        assert(0 <= digit_value(s.last()));
    } else if s.len() > 0 {
        assert(s.take(k) =~= s);
        assert(s.drop_last().take(s.len() - 1) =~= s.drop_last());
        lemma_number_grows(s.drop_last(), s.len() - 1, radix);
        let n = number_of(s.drop_last(), radix);
        assert(0 <= n * radix) by (nonlinear_arith)
            requires
                0 <= n,
                1 <= radix,
        ;
    } else {
        assert(s.take(k) =~= s);
    }
}

/// Reads the number from `0` to `max` that `s` writes in base `radix`.
pub fn parse_number(s: &[char], radix: u32, max: u64) -> (r: Option<u64>)
    requires
        2 <= radix <= 16,
    ensures
        match r {
            Some(n) => parsed(s@, radix as int, max as int) == Some(n as int),
            None => parsed(s@, radix as int, max as int) is None,
        },
{
    let t: &[char] = if s.len() > 0 && s[0] == '+' {
        slice_subrange(s, 1, s.len())
    } else {
        s
    };
    assert(t@ == without_plus(s@));
    if t.len() == 0 {
        return None;
    }
    let mut i: usize = 0;
    while i < t.len()
        invariant
            i <= t@.len(),
            t@ == without_plus(s@),
            forall|j: int| 0 <= j < i ==> digit_value(#[trigger] t@[j]) < radix,
        decreases t@.len() - i,
    {
        if digit_of(t[i]) >= radix {
            return None;
        }
        i = i + 1;
    }
    let mut n: u64 = 0;
    let mut k: usize = 0;
    assert(t@.take(0) =~= Seq::<char>::empty());
    while k < t.len()
        invariant
            k <= t@.len(),
            2 <= radix <= 16,
            t@ == without_plus(s@),
            all_digits(t@, radix as int),
            n == number_of(t@.take(k as int), radix as int),
            n <= max,
        decreases t@.len() - k,
    {
        assert(t@.take(k + 1).drop_last() =~= t@.take(k as int));
        assert(t@.take(k + 1).last() == t@[k as int]);
        assert(0 <= n * radix <= 0xFFFF_FFFF_FFFF_FFFF * 16) by (nonlinear_arith)
            requires
                0 <= n <= 0xFFFF_FFFF_FFFF_FFFF,
                2 <= radix <= 16,
        ;
        let wide: u128 = (n as u128) * (radix as u128) + (digit_of(t[k]) as u128);
        assert(wide == number_of(t@.take(k + 1), radix as int));
        if wide > max as u128 {
            proof {
                lemma_number_grows(t@, k + 1, radix as int);
            }
            return None;
        }
        n = wide as u64;
        k = k + 1;
    }
    assert(t@.take(k as int) =~= t@);
    Some(n)
}

/// The character of a decimal digit.
pub open spec fn digit_char(d: int) -> char {
    (0x30 + d) as char
}

/// The decimal digits of a number.
pub open spec fn decimal(n: nat) -> Seq<char>
    decreases n,
{
    if n < 10 {
        seq![digit_char(n as int)]
    } else {
        decimal(n / 10).push(digit_char(n as int % 10))
    }
}

/// Writes a number in decimal.
pub fn decimal_text(n: u64) -> (r: String)
    ensures
        r@ == decimal(n as nat),
    decreases n,
{
    let last: u8 = 0x30 + (n % 10) as u8;
    let mut r = if n < 10 {
        String::new()
    } else {
        decimal_text(n / 10)
    };
    r.push(last as char);
    assert(r@ =~= decimal(n as nat));
    r
}

/// `n` times the character `fill`.
pub open spec fn repeated(fill: char, n: int) -> Seq<char> {
    Seq::new(if n > 0 { n as nat } else { 0 }, |i: int| fill)
}

/// `s` with `fill` before it, up to a length of `width`.
pub open spec fn padded_start(s: Seq<char>, width: int, fill: char) -> Seq<char> {
    repeated(fill, width - s.len()) + s
}

/// `s` with `fill` after it, up to a length of `width`.
pub open spec fn padded_end(s: Seq<char>, width: int, fill: char) -> Seq<char> {
    s + repeated(fill, width - s.len())
}

/// Appends `fill` `n` times.
pub fn push_repeated(out: &mut String, fill: char, n: usize)
    ensures
        final(out)@ == old(out)@ + repeated(fill, n as int),
{
    let mut i: usize = 0;
    while i < n
        invariant
            i <= n,
            out@ =~= old(out)@ + repeated(fill, i as int),
        decreases n - i,
    {
        out.push(fill);
        i = i + 1;
    }
}

/// Puts `fill` before a text, up to a length of `width`.
pub fn pad_start(s: &str, width: usize, fill: char) -> (r: String)
    ensures
        r@ == padded_start(s@, width as int, fill),
{
    let n: usize = chars_of(s).len();
    let mut r = String::new();
    if n < width {
        push_repeated(&mut r, fill, width - n);
    }
    r.append(s);
    assert(r@ =~= padded_start(s@, width as int, fill));
    r
}

/// Puts `fill` after a text, up to a length of `width`.
pub fn pad_end(s: &str, width: usize, fill: char) -> (r: String)
    ensures
        r@ == padded_end(s@, width as int, fill),
{
    let n: usize = chars_of(s).len();
    let mut r = s.to_owned();
    if n < width {
        push_repeated(&mut r, fill, width - n);
    }
    assert(r@ =~= padded_end(s@, width as int, fill));
    r
}

/// The first `max` characters of `s`, or all of them.
pub open spec fn shortened(s: Seq<char>, max: int) -> Seq<char> {
    if s.len() <= max {
        s
    } else {
        s.take(max)
    }
}

/// Cuts a text to at most `max` characters.
pub fn truncate(s: &str, max: usize) -> (r: String)
    ensures
        r@ == shortened(s@, max as int),
{
    let chars = chars_of(s);
    if chars.len() <= max {
        s.to_owned()
    } else {
        string_of(slice_subrange(&chars, 0, max))
    }
}

/// `s` without a carriage return at its end.
pub open spec fn without_return(s: Seq<char>) -> Seq<char> {
    if s.len() > 0 && s[s.len() - 1] == '\r' {
        s.drop_last()
    } else {
        s
    }
}

/// The lines of a text. A line ends with a line feed, which a carriage return may precede; the
/// last line may lack its ending.
pub open spec fn lines(s: Seq<char>) -> Seq<Seq<char>>
    decreases s.len(),
{
    if s.len() == 0 {
        seq![]
    } else {
        match first_place(s, '\n') {
            Some(i) => if 0 <= i < s.len() {
                seq![without_return(s.subrange(0, i))] + lines(s.subrange(i + 1, s.len() as int))
            } else {
                seq![]
            },
            None => seq![s],
        }
    }
}

/// The views of a list of texts.
pub open spec fn char_views(list: Seq<Vec<char>>) -> Seq<Seq<char>> {
    list.map_values(|v: Vec<char>| v@)
}

/// Copies some characters.
pub fn copy_chars(s: &[char]) -> (r: Vec<char>)
    ensures
        r@ == s@,
{
    vstd::slice::slice_to_vec(s)
}

/// Splits a text into its lines.
pub fn split_lines(s: &[char]) -> (r: Vec<Vec<char>>)
    ensures
        char_views(r@) == lines(s@),
{
    let mut r: Vec<Vec<char>> = Vec::new();
    let mut pos: usize = 0;
    assert(s@.subrange(0, s@.len() as int) =~= s@);
    assert(char_views(r@) + lines(s@) =~= lines(s@));
    while pos < s.len()
        invariant
            pos <= s@.len(),
            char_views(r@) + lines(s@.subrange(pos as int, s@.len() as int)) == lines(s@),
        decreases s@.len() - pos,
    {
        let rest = slice_subrange(s, pos, s.len());
        let ghost old_views = char_views(r@);
        match find_char(rest, '\n') {
            Some(i) => {
                let to: usize = if i > 0 && rest[i - 1] == '\r' {
                    i - 1
                } else {
                    i
                };
                let line = copy_chars(slice_subrange(rest, 0, to));
                assert(line@ =~= without_return(rest@.subrange(0, i as int)));
                r.push(line);
                assert(char_views(r@) =~= old_views.push(line@));
                assert(rest@.subrange(i + 1, rest@.len() as int) =~= s@.subrange(
                    pos + i + 1,
                    s@.len() as int,
                ));
                assert(old_views + (seq![line@] + lines(rest@.subrange(i + 1, rest@.len() as int)))
                    =~= old_views.push(line@) + lines(rest@.subrange(i + 1, rest@.len() as int)));
                pos = pos + i + 1;
            },
            None => {
                let line = copy_chars(rest);
                r.push(line);
                assert(char_views(r@) =~= old_views.push(line@));
                assert(old_views + seq![rest@] =~= old_views.push(line@));
                return r;
            },
        }
    }
    assert(s@.subrange(pos as int, s@.len() as int) =~= Seq::<char>::empty());
    assert(char_views(r@) + Seq::<Seq<char>>::empty() =~= char_views(r@));
    r
}

/// The first place at or after `at` where `part` stands in `s`.
pub open spec fn next_part(s: Seq<char>, at: int, part: Seq<char>) -> Option<int>
    decreases s.len() - at + 1,
{
    if at + part.len() > s.len() {
        None
    } else if part_at(s, at, part) {
        Some(at)
    } else {
        next_part(s, at + 1, part)
    }
}

/// Finds the first place where `part` stands in `s`.
pub fn find_part(s: &[char], part: &[char]) -> (r: Option<usize>)
    ensures
        match r {
            Some(i) => next_part(s@, 0, part@) == Some(i as int) && i + part@.len() <= s.len(),
            None => next_part(s@, 0, part@) is None,
        },
{
    if part.len() > s.len() {
        return None;
    }
    let last: usize = s.len() - part.len();
    let mut at: usize = 0;
    loop
        invariant
            last == s@.len() - part@.len(),
            at <= last,
            next_part(s@, 0, part@) == next_part(s@, at as int, part@),
        decreases last - at,
    {
        if is_part_at(s, at, part) {
            return Some(at);
        }
        assert(next_part(s@, at as int, part@) == next_part(s@, at + 1, part@));
        if at == last {
            assert(next_part(s@, at + 1, part@) is None);
            return None;
        }
        at = at + 1;
    }
}

/// The place of the first white space in `s`, or its length.
pub open spec fn word_end(s: Seq<char>) -> int
    decreases s.len(),
{
    if s.len() == 0 || is_white(s[0]) {
        0
    } else {
        1 + word_end(s.subrange(1, s.len() as int))
    }
}

/// The parts of `s` between white space.
pub open spec fn words(s: Seq<char>) -> Seq<Seq<char>>
    decreases s.len(),
{
    let t = trim_start(s);
    let end = word_end(t);
    if t.len() == 0 || end <= 0 || end > t.len() || t.len() > s.len() {
        seq![]
    } else {
        seq![t.subrange(0, end)] + words(t.subrange(end, t.len() as int))
    }
}

/// Takes the white space off the start.
fn cut_start(s: &[char]) -> (r: &[char])
    ensures
        r@ == trim_start(s@),
        r@.len() <= s@.len(),
{
    let mut from: usize = 0;
    assert(s@.subrange(0, s@.len() as int) =~= s@);
    while from < s.len() && white(s[from])
        invariant
            from <= s@.len(),
            trim_start(s@.subrange(from as int, s@.len() as int)) == trim_start(s@),
        decreases s@.len() - from,
    {
        assert(s@.subrange(from as int, s@.len() as int).subrange(1, s@.len() - from) =~= s@.subrange(
            from + 1,
            s@.len() as int,
        ));
        from = from + 1;
    }
    slice_subrange(s, from, s.len())
}

/// Finds the first white space, or the end.
fn find_word_end(s: &[char]) -> (r: usize)
    ensures
        r == word_end(s@),
        r <= s@.len(),
{
    let mut i: usize = 0;
    assert(s@.subrange(0, s@.len() as int) =~= s@);
    while i < s.len() && !white(s[i])
        invariant
            i <= s@.len(),
            word_end(s@) == i + word_end(s@.subrange(i as int, s@.len() as int)),
        decreases s@.len() - i,
    {
        assert(s@.subrange(i as int, s@.len() as int).subrange(1, s@.len() - i) =~= s@.subrange(
            i + 1,
            s@.len() as int,
        ));
        i = i + 1;
    }
    i
}

/// Splits a text at white space.
pub fn split_words(s: &[char]) -> (r: Vec<Vec<char>>)
    ensures
        char_views(r@) == words(s@),
{
    let mut r: Vec<Vec<char>> = Vec::new();
    let mut rest: &[char] = s;
    assert(char_views(r@) + words(s@) =~= words(s@));
    loop
        invariant
            char_views(r@) + words(rest@) == words(s@),
        decreases rest@.len(),
    {
        let ghost done = char_views(r@);
        let t = cut_start(rest);
        let end: usize = find_word_end(t);
        if t.len() == 0 || end == 0 {
            assert(done + Seq::<Seq<char>>::empty() =~= done);
            return r;
        }
        let word = copy_chars(slice_subrange(t, 0, end));
        let ghost after = words(t@.subrange(end as int, t@.len() as int));
        r.push(word);
        assert(char_views(r@) =~= done.push(word@));
        assert(done + (seq![word@] + after) =~= done.push(word@) + after);
        rest = slice_subrange(t, end, t.len());
    }
}

/// Tells whether two texts are equal but for the case of ASCII letters.
pub fn same_letters(a: &str, b: &str) -> (r: bool)
    ensures
        r == (lowered(a@) == lowered(b@)),
{
    same_chars(&to_lowered(&chars_of(a)), &to_lowered(&chars_of(b)))
}

} // verus!
