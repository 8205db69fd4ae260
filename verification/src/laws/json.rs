//! What a JSON document is read as.

use vstd::prelude::*;
use vstd::utf8::encode_utf8;

use crate::bytes::stands_at;
use crate::json::{
    after_blanks, after_digits, ascii_text, byte_is, document, escaped, fields_at, hex_at,
    hex_value, items_at, number_at, run_end, string_at, value_at, Flaw, Value,
};
use crate::laws::text::lemma_encode_parts;

verus! {

/// A result of reading, and the place behind what was read.
pub type Read<T> = Result<(T, int), Flaw>;

/// Whether a character needs an escape in a JSON text.
pub open spec fn special(c: char) -> bool {
    c == '"' || c == '\\'
}

/// A text as it stands between quotes, with a backslash before each quote and backslash.
pub open spec fn quoted(s: Seq<char>) -> Seq<u8>
    decreases s.len(),
{
    if s.len() == 0 {
        seq![]
    } else if special(s[0]) {
        seq![0x5cu8, s[0] as u8] + quoted(s.drop_first())
    } else {
        encode_utf8(seq![s[0]]) + quoted(s.drop_first())
    }
}

/// How many characters at the start of a text need no escape.
pub open spec fn plain_start(s: Seq<char>) -> int
    decreases s.len(),
{
    if s.len() == 0 || special(s[0]) {
        0
    } else {
        1 + plain_start(s.drop_first())
    }
}

#[verifier::spinoff_prover]
#[verifier::rlimit(40)]
proof fn lemma_plain_start(s: Seq<char>)
    ensures
        ({
            let n = plain_start(s);
            &&& 0 <= n <= s.len()
            &&& forall|i: int| 0 <= i < n ==> !special(#[trigger] s[i])
            &&& n < s.len() ==> special(s[n])
            &&& quoted(s) == encode_utf8(s.take(n)) + quoted(s.skip(n))
        }),
    decreases s.len(),
{
    let n = plain_start(s);
    if s.len() == 0 || special(s[0]) {
        assert(s.take(0) =~= Seq::<char>::empty());
        assert(s.skip(0) =~= s);
        assert(encode_utf8(s.take(0)) =~= Seq::<u8>::empty());
        assert(quoted(s) =~= encode_utf8(s.take(0)) + quoted(s.skip(0)));
    } else {
        let rest = s.drop_first();
        lemma_plain_start(rest);
        assert(s.take(n) =~= seq![s[0]] + rest.take(n - 1));
        lemma_encode_parts(seq![s[0]], rest.take(n - 1));
        assert(s.skip(n) =~= rest.skip(n - 1));
        assert forall|i: int| 0 <= i < n implies !special(#[trigger] s[i]) by {
            if i > 0 {
                assert(s[i] == rest[i - 1]);
            }
        }
        if n < s.len() {
            assert(s[n] == rest[n - 1]);
        }
        assert(quoted(s) =~= encode_utf8(s.take(n)) + quoted(s.skip(n)));
    }
}

proof fn lemma_run_end(b: Seq<u8>, pos: int, end: int)
    requires
        pos <= end < b.len(),
        b[end] == 0x22 || b[end] == 0x5c,
        forall|k: int| pos <= k < end ==> #[trigger] b[k] != 0x22 && b[k] != 0x5c,
    ensures
        run_end(b, pos) == end,
    decreases end - pos,
{
    if pos < end {
        lemma_run_end(b, pos + 1, end);
    }
}

/// Any text is read back from between its quotes.
#[verifier::spinoff_prover]
#[verifier::rlimit(40)]
pub proof fn law_text_read_back(ahead: Seq<u8>, s: Seq<char>, behind: Seq<u8>)
    ensures
        string_at(ahead + quoted(s) + seq![0x22u8] + behind, ahead.len() as int) == Ok::<
            (Seq<char>, int),
            Flaw,
        >((s, (ahead.len() + quoted(s).len() + 1) as int)),
    decreases s.len(),
{
    let b = ahead + quoted(s) + seq![0x22u8] + behind;
    let pos = ahead.len() as int;
    let n = plain_start(s);
    lemma_plain_start(s);
    if s.len() == 0 {
        assert(b[pos] == 0x22);
        assert(s =~= Seq::<char>::empty());
    } else if n == 0 {
        let rest = s.drop_first();
        let next = ahead + seq![0x5cu8, s[0] as u8];
        assert(special(s[0]));
        assert(quoted(s) == seq![0x5cu8, s[0] as u8] + quoted(rest));
        assert(b =~= next + quoted(rest) + seq![0x22u8] + behind);
        law_text_read_back(next, rest, behind);
        assert(b[pos] == 0x5c);
        assert(b[pos + 1] == s[0] as u8);
        assert('"' as u8 == 0x22u8 && '\\' as u8 == 0x5cu8);
        assert(escaped(s[0] as u8) == Some(s[0]));
        assert(seq![s[0]] + rest =~= s);
    } else {
        let part = s.take(n);
        let rest = s.skip(n);
        let run = encode_utf8(part);
        let next = ahead + run;
        let end = pos + run.len();
        assert(b =~= next + quoted(rest) + seq![0x22u8] + behind);
        law_text_read_back(next, rest, behind);
        assert forall|i: int| 0 <= i < part.len() implies #[trigger] part[i] != '"' && part[i]
            != '\\' by {
            assert(!special(s[i]));
        }
        crate::text::lemma_utf8_lacks(part, '"');
        crate::text::lemma_utf8_lacks(part, '\\');
        assert('"' as u8 == 0x22u8 && '\\' as u8 == 0x5cu8);
        crate::laws::http::lemma_encode_filled(part);
        assert forall|k: int| pos <= k < end implies #[trigger] b[k] != 0x22 && b[k] != 0x5c by {
            assert(b[k] == run[k - pos]);
        }
        assert(b[end] == 0x22 || b[end] == 0x5c) by {
            if rest.len() > 0 {
                assert(rest[0] == s[n]);
                assert(b[end] == quoted(rest)[0]);
            } else {
                assert(quoted(rest) =~= Seq::<u8>::empty());
            }
        }
        lemma_run_end(b, pos, end);
        assert(b.subrange(pos, end) =~= run);
        crate::text::lemma_as_text(part);
        assert(b[pos] == run[0]);
        assert(part + rest =~= s);
    }
}

/// What stands behind an escape in a text is read as it is anywhere else.
pub open spec fn then_read(c: char, rest: Read<Seq<char>>) -> Read<Seq<char>> {
    match rest {
        Ok((text, end)) => Ok((seq![c] + text, end)),
        Err(flaw) => Err(flaw),
    }
}

/// Every escape of a backslash and one letter stands for the character that JSON gives it, and no
/// other letter makes an escape.
pub proof fn law_escapes(b: Seq<u8>, pos: int)
    requires
        0 <= pos,
        pos + 1 < b.len(),
        b[pos] == 0x5c,
    ensures
        b[pos + 1] == 0x22 ==> string_at(b, pos) == then_read('"', string_at(b, pos + 2)),
        b[pos + 1] == 0x5c ==> string_at(b, pos) == then_read('\\', string_at(b, pos + 2)),
        b[pos + 1] == 0x2f ==> string_at(b, pos) == then_read('/', string_at(b, pos + 2)),
        b[pos + 1] == 0x62 ==> string_at(b, pos) == then_read('\u{8}', string_at(b, pos + 2)),
        b[pos + 1] == 0x66 ==> string_at(b, pos) == then_read('\u{c}', string_at(b, pos + 2)),
        b[pos + 1] == 0x6e ==> string_at(b, pos) == then_read('\u{a}', string_at(b, pos + 2)),
        b[pos + 1] == 0x72 ==> string_at(b, pos) == then_read('\u{d}', string_at(b, pos + 2)),
        b[pos + 1] == 0x74 ==> string_at(b, pos) == then_read('\u{9}', string_at(b, pos + 2)),
        b[pos + 1] != 0x22 && b[pos + 1] != 0x5c && b[pos + 1] != 0x2f && b[pos + 1] != 0x62 && b[pos
            + 1] != 0x66 && b[pos + 1] != 0x6e && b[pos + 1] != 0x72 && b[pos + 1] != 0x74 && b[pos
            + 1] != 0x75 ==> string_at(b, pos) is Err,
{
}

/// Whether a byte is a hexadecimal digit with this value.
pub open spec fn hex_digit(b: u8, d: int) -> bool {
    ||| 0 <= d < 10 && b == 0x30 + d
    ||| 10 <= d < 16 && (b == 0x61 + d - 10 || b == 0x41 + d - 10)
}

/// Whether four bytes are the hexadecimal digits of a number.
pub open spec fn four_digits(b: Seq<u8>, pos: int, code: int) -> bool {
    &&& 0 <= pos
    &&& pos + 4 <= b.len()
    &&& 0 <= code < 0x1_0000
    &&& hex_digit(b[pos], code / 0x1000)
    &&& hex_digit(b[pos + 1], code / 0x100 % 0x10)
    &&& hex_digit(b[pos + 2], code / 0x10 % 0x10)
    &&& hex_digit(b[pos + 3], code % 0x10)
}

proof fn lemma_four_digits(b: Seq<u8>, pos: int, code: int)
    requires
        four_digits(b, pos, code),
    ensures
        hex_at(b, pos, 4, 0) == Ok::<(int, int), Flaw>((code, pos + 4)),
{
    let x = code / 0x10;
    let y = x / 0x10;
    let z = y / 0x10;
    assert(code / 0x100 == y && code / 0x1000 == z);
    assert(code == ((z * 16 + y % 0x10) * 16 + x % 0x10) * 16 + code % 0x10);
    assert(hex_value(b[pos]) == z);
    assert(hex_value(b[pos + 1]) == y % 0x10);
    assert(hex_value(b[pos + 2]) == x % 0x10);
    assert(hex_value(b[pos + 3]) == code % 0x10);
    reveal_with_fuel(hex_at, 5);
}

/// An escape of `u` and four hexadecimal digits stands for the character with that number, and two
/// of them that are a pair of surrogates for the character beyond the basic plane that they encode.
pub proof fn law_unicode_escapes(b: Seq<u8>, pos: int, code: int, low: int)
    requires
        0 <= pos,
        pos + 6 <= b.len(),
        b[pos] == 0x5c,
        b[pos + 1] == 0x75,
        four_digits(b, pos + 2, code),
    ensures
        code < 0xD800 || code >= 0xE000 ==> string_at(b, pos) == then_read(
            code as char,
            string_at(b, pos + 6),
        ),
        0xD800 <= code < 0xDC00 && pos + 12 <= b.len() && b[pos + 6] == 0x5c && b[pos + 7] == 0x75
            && four_digits(b, pos + 8, low) && 0xDC00 <= low < 0xE000 ==> string_at(b, pos)
            == then_read(
            (0x1_0000 + (code - 0xD800) * 0x400 + (low - 0xDC00)) as char,
            string_at(b, pos + 12),
        ),
        0xDC00 <= code < 0xE000 ==> string_at(b, pos) == then_read(
            '\u{fffd}',
            string_at(b, pos + 6),
        ),
{
    lemma_four_digits(b, pos + 2, code);
    if pos + 12 <= b.len() && four_digits(b, pos + 8, low) {
        lemma_four_digits(b, pos + 8, low);
    }
}

/// Whether bytes are digits.
pub open spec fn digits(b: Seq<u8>) -> bool {
    forall|i: int| 0 <= i < b.len() ==> 0x30 <= #[trigger] b[i] <= 0x39
}

/// The parts of a number: digits, the digits behind a point, and an exponent.
pub struct Numeral {
    pub negative: bool,
    pub whole: Seq<u8>,
    pub fraction: Option<Seq<u8>>,
    pub exponent: Option<Exponent>,
}

/// The exponent of a number: its letter, its sign and its digits.
pub struct Exponent {
    pub letter: u8,
    pub sign: Option<u8>,
    pub digits: Seq<u8>,
}

impl Numeral {
    /// Whether the parts make up a number.
    pub open spec fn sound(self) -> bool {
        &&& self.whole.len() > 0 && digits(self.whole)
        &&& self.fraction matches Some(f) ==> digits(f)
        &&& self.exponent matches Some(e) ==> {
            &&& e.letter == 0x65 || e.letter == 0x45
            &&& e.sign matches Some(s) ==> s == 0x2b || s == 0x2d
            &&& e.digits.len() > 0 && digits(e.digits)
        }
    }

    /// What stands before the point.
    pub open spec fn front(self) -> Seq<u8> {
        (if self.negative {
            seq![0x2du8]
        } else {
            seq![]
        }) + self.whole
    }

    /// The point and what stands behind it.
    pub open spec fn middle(self) -> Seq<u8> {
        match self.fraction {
            Some(f) => seq![0x2eu8] + f,
            None => seq![],
        }
    }

    /// The exponent.
    pub open spec fn back(self) -> Seq<u8> {
        match self.exponent {
            Some(e) => seq![e.letter] + (match e.sign {
                Some(s) => seq![s],
                None => seq![],
            }) + e.digits,
            None => seq![],
        }
    }

    /// The number as it is written.
    pub open spec fn bytes(self) -> Seq<u8> {
        self.front() + self.middle() + self.back()
    }
}

/// Whether a number cannot go on with these bytes.
pub open spec fn ends_number(behind: Seq<u8>) -> bool {
    behind.len() == 0 || !(0x30 <= behind[0] <= 0x39 || behind[0] == 0x2e || behind[0] == 0x65
        || behind[0] == 0x45)
}

proof fn lemma_digits_end(b: Seq<u8>, pos: int, end: int)
    requires
        0 <= pos <= end <= b.len(),
        forall|k: int| pos <= k < end ==> 0x30 <= #[trigger] b[k] <= 0x39,
        end == b.len() || !(0x30 <= b[end] <= 0x39),
    ensures
        after_digits(b, pos) == end,
    decreases end - pos,
{
    if pos < end {
        lemma_digits_end(b, pos + 1, end);
    }
}

/// A number is read as it is written, with a sign, a fraction and an exponent or without.
#[verifier::spinoff_prover]
#[verifier::rlimit(60)]
pub proof fn law_number_read_back(ahead: Seq<u8>, n: Numeral, behind: Seq<u8>)
    requires
        n.sound(),
        ends_number(behind),
    ensures
        number_at(ahead + n.bytes() + behind, ahead.len() as int) == Ok::<(Seq<char>, int), Flaw>(
            (ascii_text(n.bytes()), (ahead.len() + n.bytes().len()) as int),
        ),
{
    let all = n.bytes();
    let b = ahead + all + behind;
    let pos = ahead.len() as int;
    let front = n.front();
    let middle = n.middle();
    let back = n.back();
    let whole = pos + front.len() - n.whole.len();
    let point = pos + front.len();
    let mantissa = point + middle.len();
    let end = mantissa + back.len();
    assert(end == pos + all.len());
    assert(forall|k: int| pos <= k < point ==> #[trigger] b[k] == front[k - pos]);
    assert(forall|k: int| point <= k < mantissa ==> #[trigger] b[k] == middle[k - point]);
    assert(forall|k: int| mantissa <= k < end ==> #[trigger] b[k] == back[k - mantissa]);
    assert(end < b.len() ==> b[end] == behind[0]);
    assert(forall|k: int| whole <= k < point ==> #[trigger] b[k] == n.whole[k - whole]);
    assert(b[whole] == n.whole[0]);
    assert(point < b.len() ==> !(0x30 <= b[point] <= 0x39)) by {
        if point < mantissa {
            assert(b[point] == middle[0]);
        } else if mantissa < end {
            assert(b[mantissa] == back[0]);
        }
    }
    lemma_digits_end(b, whole, point);
    if let Some(f) = n.fraction {
        assert(b[point] == middle[0]);
        assert(forall|k: int| point < k < mantissa ==> #[trigger] b[k] == f[k - point - 1]);
        assert(mantissa < b.len() ==> !(0x30 <= b[mantissa] <= 0x39)) by {
            if mantissa < end {
                assert(b[mantissa] == back[0]);
            }
        }
        lemma_digits_end(b, point + 1, mantissa);
    } else {
        assert(mantissa == point);
        assert(!byte_is(b, point, 0x2e)) by {
            if mantissa < end {
                assert(b[mantissa] == back[0]);
            }
        }
    }
    if let Some(e) = n.exponent {
        assert(b[mantissa] == back[0]);
        let from = end - e.digits.len();
        assert(forall|k: int| from <= k < end ==> #[trigger] b[k] == e.digits[k - from]);
        assert(b[from] == e.digits[0]);
        lemma_digits_end(b, from, end);
        if let Some(s) = e.sign {
            assert(b[mantissa + 1] == back[1]);
            assert(from == mantissa + 2);
        } else {
            assert(from == mantissa + 1);
        }
    } else {
        assert(end == mantissa);
    }
    assert(b.subrange(pos, end) =~= all);
}

/// Whether bytes are blanks: spaces, tabs and line ends.
pub open spec fn blanks(b: Seq<u8>) -> bool {
    forall|i: int|
        0 <= i < b.len() ==> (#[trigger] b[i] == 0x20 || b[i] == 0x09 || b[i] == 0x0a || b[i]
            == 0x0d)
}

/// Whether bytes do not start with a blank.
pub open spec fn unblank(b: Seq<u8>) -> bool {
    b.len() == 0 || (b[0] != 0x20 && b[0] != 0x09 && b[0] != 0x0a && b[0] != 0x0d)
}

proof fn lemma_blanks(ahead: Seq<u8>, gap: Seq<u8>, behind: Seq<u8>)
    requires
        blanks(gap),
        unblank(behind),
    ensures
        after_blanks(ahead + gap + behind, ahead.len() as int) == ahead.len() + gap.len(),
    decreases gap.len(),
{
    let b = ahead + gap + behind;
    let pos = ahead.len() as int;
    if gap.len() == 0 {
        if behind.len() > 0 {
            assert(b[pos] == behind[0]);
        }
    } else {
        let rest = gap.drop_first();
        assert(b[pos] == gap[0]);
        assert(b =~= ahead.push(gap[0]) + rest + behind);
        assert forall|i: int| 0 <= i < rest.len() implies (#[trigger] rest[i] == 0x20 || rest[i]
            == 0x09 || rest[i] == 0x0a || rest[i] == 0x0d) by {
            assert(rest[i] == gap[i + 1]);
        }
        lemma_blanks(ahead.push(gap[0]), rest, behind);
    }
}

/// Whether a value can be written: its numbers are numbers.
pub open spec fn writable(v: Value) -> bool
    decreases v,
{
    match v {
        Value::Number(n) => exists|p: Numeral| #[trigger] p.sound() && ascii_text(p.bytes()) == n,
        Value::Array(list) => all_writable(list),
        Value::Object(list) => fields_writable(list),
        _ => true,
    }
}

/// Whether values can be written.
pub open spec fn all_writable(list: Seq<Value>) -> bool
    decreases list,
{
    if list.len() == 0 {
        true
    } else {
        writable(list[0]) && all_writable(list.subrange(1, list.len() as int))
    }
}

/// Whether fields can be written.
pub open spec fn fields_writable(list: Seq<(Seq<char>, Value)>) -> bool
    decreases list,
{
    if list.len() == 0 {
        true
    } else {
        writable(list[0].1) && fields_writable(list.subrange(1, list.len() as int))
    }
}

/// A value as it is written, with the same blanks wherever blanks may stand inside it.
pub open spec fn shown(v: Value, gap: Seq<u8>) -> Seq<u8>
    decreases v,
{
    match v {
        Value::Null => seq![0x6eu8, 0x75, 0x6c, 0x6c],
        Value::Bool(true) => seq![0x74u8, 0x72, 0x75, 0x65],
        Value::Bool(false) => seq![0x66u8, 0x61, 0x6c, 0x73, 0x65],
        Value::Number(n) => (choose|p: Numeral| #[trigger] p.sound() && ascii_text(p.bytes())
            == n).bytes(),
        Value::Text(s) => seq![0x22u8] + quoted(s) + seq![0x22u8],
        Value::Array(list) => seq![0x5bu8] + gap + all_shown(list, gap) + seq![0x5du8],
        Value::Object(list) => seq![0x7bu8] + gap + fields_shown(list, gap) + seq![0x7du8],
    }
}

/// Values as they are written, with a comma between each two.
pub open spec fn all_shown(list: Seq<Value>, gap: Seq<u8>) -> Seq<u8>
    decreases list,
{
    if list.len() == 0 {
        seq![]
    } else if list.len() == 1 {
        shown(list[0], gap) + gap
    } else {
        shown(list[0], gap) + gap + seq![0x2cu8] + gap + all_shown(
            list.subrange(1, list.len() as int),
            gap,
        )
    }
}

/// Fields as they are written, with a comma between each two.
pub open spec fn fields_shown(list: Seq<(Seq<char>, Value)>, gap: Seq<u8>) -> Seq<u8>
    decreases list,
{
    if list.len() == 0 {
        seq![]
    } else {
        let first = seq![0x22u8] + quoted(list[0].0) + seq![0x22u8] + gap + seq![0x3au8] + gap
            + shown(list[0].1, gap) + gap;
        if list.len() == 1 {
            first
        } else {
            first + seq![0x2cu8] + gap + fields_shown(list.subrange(1, list.len() as int), gap)
        }
    }
}

/// Whether what follows a value cannot be taken for a part of it.
pub open spec fn apart(behind: Seq<u8>) -> bool {
    behind.len() == 0 || behind[0] == 0x2c || behind[0] == 0x5d || behind[0] == 0x7d || behind[0]
        == 0x20 || behind[0] == 0x09 || behind[0] == 0x0a || behind[0] == 0x0d
}

proof fn lemma_shown_start(v: Value, gap: Seq<u8>)
    requires
        writable(v),
    ensures
        shown(v, gap).len() > 0,
        unblank(shown(v, gap)),
        shown(v, gap)[0] != 0x5d && shown(v, gap)[0] != 0x7d,
{
    if let Value::Number(n) = v {
        let p = choose|p: Numeral| #[trigger] p.sound() && ascii_text(p.bytes()) == n;
        lemma_numeral_start(p);
    }
}

proof fn lemma_numeral_start(p: Numeral)
    requires
        p.sound(),
    ensures
        p.bytes().len() > 0,
        p.bytes()[0] == 0x2d || 0x30 <= p.bytes()[0] <= 0x39,
{
    assert(p.bytes()[0] == p.front()[0]);
    if !p.negative {
        assert(p.front()[0] == p.whole[0]);
    }
}

proof fn lemma_apart(gap: Seq<u8>, mark: u8, behind: Seq<u8>)
    requires
        blanks(gap),
        mark == 0x2c || mark == 0x5d || mark == 0x7d,
    ensures
        apart(gap + seq![mark] + behind),
{
    let all = gap + seq![mark] + behind;
    if gap.len() > 0 {
        assert(all[0] == gap[0]);
    } else {
        assert(all[0] == mark);
    }
}

/// A value starts behind the blanks.
proof fn lemma_value_start(ahead: Seq<u8>, lead: Seq<u8>, v: Value, gap: Seq<u8>, behind: Seq<u8>)
    requires
        writable(v),
        blanks(lead),
    ensures
        ({
            let s = shown(v, gap);
            let b = ahead + lead + s + behind;
            let p = (ahead.len() + lead.len()) as int;
            &&& after_blanks(b, ahead.len() as int) == p
            &&& p < b.len()
            &&& b[p] == s[0]
            &&& s.len() > 0
        }),
{
    let s = shown(v, gap);
    lemma_shown_start(v, gap);
    assert(ahead + lead + s + behind =~= ahead + lead + (s + behind));
    assert((s + behind)[0] == s[0]);
    lemma_blanks(ahead, lead, s + behind);
}

/// The words `null`, `true` and `false` are read where they stand.
proof fn lemma_word(ahead: Seq<u8>, lead: Seq<u8>, v: Value, gap: Seq<u8>, behind: Seq<u8>)
    requires
        v is Null || v is Bool,
        blanks(lead),
    ensures
        value_at(ahead + lead + shown(v, gap) + behind, ahead.len() as int) == Ok::<
            (Value, int),
            Flaw,
        >((v, (ahead.len() + lead.len() + shown(v, gap).len()) as int)),
{
    let s = shown(v, gap);
    let b = ahead + lead + s + behind;
    let p = (ahead.len() + lead.len()) as int;
    lemma_value_start(ahead, lead, v, gap, behind);
    assert(b.subrange(p, p + s.len()) =~= s);
    assert(stands_at(b, p, s));
    if v == Value::Bool(false) {
        assert(!stands_at(b, p, crate::json::true_bytes())) by {
            assert(b.subrange(p, p + 4)[0] == 0x66);
        }
    }
    assert(crate::json::null_bytes() =~= seq![0x6eu8, 0x75, 0x6c, 0x6c]);
    assert(crate::json::true_bytes() =~= seq![0x74u8, 0x72, 0x75, 0x65]);
    assert(crate::json::false_bytes() =~= seq![0x66u8, 0x61, 0x6c, 0x73, 0x65]);
}

/// A number is read where it stands.
proof fn lemma_number(ahead: Seq<u8>, lead: Seq<u8>, v: Value, gap: Seq<u8>, behind: Seq<u8>)
    requires
        v is Number,
        writable(v),
        blanks(lead),
        apart(behind),
    ensures
        value_at(ahead + lead + shown(v, gap) + behind, ahead.len() as int) == Ok::<
            (Value, int),
            Flaw,
        >((v, (ahead.len() + lead.len() + shown(v, gap).len()) as int)),
{
    let n = v->Number_0;
    let q = choose|q: Numeral| #[trigger] q.sound() && ascii_text(q.bytes()) == n;
    lemma_value_start(ahead, lead, v, gap, behind);
    lemma_numeral_start(q);
    law_number_read_back(ahead + lead, q, behind);
}

/// A text is read where it stands.
proof fn lemma_text(ahead: Seq<u8>, lead: Seq<u8>, v: Value, gap: Seq<u8>, behind: Seq<u8>)
    requires
        v is Text,
        blanks(lead),
    ensures
        value_at(ahead + lead + shown(v, gap) + behind, ahead.len() as int) == Ok::<
            (Value, int),
            Flaw,
        >((v, (ahead.len() + lead.len() + shown(v, gap).len()) as int)),
{
    let t = v->Text_0;
    let b = ahead + lead + shown(v, gap) + behind;
    let inner = ahead + lead + seq![0x22u8];
    lemma_value_start(ahead, lead, v, gap, behind);
    assert(shown(v, gap)[0] == 0x22);
    assert(b =~= inner + quoted(t) + seq![0x22u8] + behind);
    law_text_read_back(inner, t, behind);
}

/// Where the items of an array start.
pub open spec fn array_inside(ahead: Seq<u8>, lead: Seq<u8>, gap: Seq<u8>) -> Seq<u8> {
    ahead + lead + seq![0x5bu8] + gap
}

/// Where the fields of an object start.
pub open spec fn object_inside(ahead: Seq<u8>, lead: Seq<u8>, gap: Seq<u8>) -> Seq<u8> {
    ahead + lead + seq![0x7bu8] + gap
}

/// An array is read where it stands, if its items are.
proof fn lemma_array(
    ahead: Seq<u8>,
    lead: Seq<u8>,
    list: Seq<Value>,
    gap: Seq<u8>,
    behind: Seq<u8>,
)
    requires
        all_writable(list),
        blanks(lead),
        blanks(gap),
        list.len() > 0 ==> ({
            let start = array_inside(ahead, lead, gap);
            items_at(
                start + Seq::<u8>::empty() + all_shown(list, gap) + seq![0x5du8] + behind,
                start.len() as int,
            ) == Ok::<(Seq<Value>, int), Flaw>(
                (list, (start.len() + 0 + all_shown(list, gap).len() + 1) as int),
            )
        }),
    ensures
        value_at(
            ahead + lead + shown(Value::Array(list), gap) + behind,
            ahead.len() as int,
        ) == Ok::<(Value, int), Flaw>(
            (
                Value::Array(list),
                (ahead.len() + lead.len() + shown(Value::Array(list), gap).len()) as int,
            ),
        ),
{
    let v = Value::Array(list);
    let b = ahead + lead + shown(v, gap) + behind;
    let start = array_inside(ahead, lead, gap);
    let inner = ahead + lead + seq![0x5bu8];
    let rest = all_shown(list, gap) + seq![0x5du8] + behind;
    let q = start.len() as int;
    lemma_value_start(ahead, lead, v, gap, behind);
    assert(shown(v, gap)[0] == 0x5b);
    assert(b =~= inner + gap + rest);
    if list.len() == 0 {
        assert(all_shown(list, gap) =~= Seq::<u8>::empty());
        assert(rest[0] == 0x5d);
        assert(list =~= Seq::<Value>::empty());
    } else {
        lemma_shown_start(list[0], gap);
        assert(rest[0] == shown(list[0], gap)[0]);
        assert(b =~= start + Seq::<u8>::empty() + all_shown(list, gap) + seq![0x5du8] + behind);
    }
    lemma_blanks(inner, gap, rest);
    assert(b[q] == rest[0]);
}

/// An object is read where it stands, if its fields are.
proof fn lemma_object(
    ahead: Seq<u8>,
    lead: Seq<u8>,
    list: Seq<(Seq<char>, Value)>,
    gap: Seq<u8>,
    behind: Seq<u8>,
)
    requires
        fields_writable(list),
        blanks(lead),
        blanks(gap),
        list.len() > 0 ==> ({
            let start = object_inside(ahead, lead, gap);
            fields_at(
                start + Seq::<u8>::empty() + fields_shown(list, gap) + seq![0x7du8] + behind,
                start.len() as int,
            ) == Ok::<(Seq<(Seq<char>, Value)>, int), Flaw>(
                (list, (start.len() + 0 + fields_shown(list, gap).len() + 1) as int),
            )
        }),
    ensures
        value_at(
            ahead + lead + shown(Value::Object(list), gap) + behind,
            ahead.len() as int,
        ) == Ok::<(Value, int), Flaw>(
            (
                Value::Object(list),
                (ahead.len() + lead.len() + shown(Value::Object(list), gap).len()) as int,
            ),
        ),
{
    let v = Value::Object(list);
    let b = ahead + lead + shown(v, gap) + behind;
    let start = object_inside(ahead, lead, gap);
    let inner = ahead + lead + seq![0x7bu8];
    let rest = fields_shown(list, gap) + seq![0x7du8] + behind;
    let q = start.len() as int;
    lemma_value_start(ahead, lead, v, gap, behind);
    assert(shown(v, gap)[0] == 0x7b);
    assert(b =~= inner + gap + rest);
    if list.len() == 0 {
        assert(fields_shown(list, gap) =~= Seq::<u8>::empty());
        assert(rest[0] == 0x7d);
        assert(list =~= Seq::<(Seq<char>, Value)>::empty());
    } else {
        lemma_fields_layout(Seq::empty(), list, gap, behind);
        assert(rest[0] == 0x22) by {
            assert(fields_shown(list, gap)[0] == 0x22);
        }
        assert(b =~= start + Seq::<u8>::empty() + fields_shown(list, gap) + seq![0x7du8] + behind);
    }
    lemma_blanks(inner, gap, rest);
    assert(b[q] == rest[0]);
}

/// A value is read back where it stands, behind blanks or without.
proof fn lemma_value(ahead: Seq<u8>, lead: Seq<u8>, v: Value, gap: Seq<u8>, behind: Seq<u8>)
    requires
        writable(v),
        blanks(lead),
        blanks(gap),
        apart(behind),
    ensures
        value_at(ahead + lead + shown(v, gap) + behind, ahead.len() as int) == Ok::<
            (Value, int),
            Flaw,
        >((v, (ahead.len() + lead.len() + shown(v, gap).len()) as int)),
    decreases v, 0int,
{
    match v {
        Value::Null | Value::Bool(_) => {
            lemma_word(ahead, lead, v, gap, behind);
        },
        Value::Number(_) => {
            lemma_number(ahead, lead, v, gap, behind);
        },
        Value::Text(_) => {
            lemma_text(ahead, lead, v, gap, behind);
        },
        Value::Array(list) => {
            if list.len() > 0 {
                lemma_items(array_inside(ahead, lead, gap), Seq::empty(), list, gap, behind);
            }
            lemma_array(ahead, lead, list, gap, behind);
        },
        Value::Object(list) => {
            if list.len() > 0 {
                lemma_fields(object_inside(ahead, lead, gap), Seq::empty(), list, gap, behind);
            }
            lemma_object(ahead, lead, list, gap, behind);
        },
    }
}

#[verifier::spinoff_prover]
#[verifier::rlimit(60)]
proof fn lemma_items(
    ahead: Seq<u8>,
    lead: Seq<u8>,
    list: Seq<Value>,
    gap: Seq<u8>,
    behind: Seq<u8>,
)
    requires
        list.len() > 0,
        all_writable(list),
        blanks(lead),
        blanks(gap),
    ensures
        items_at(
            ahead + lead + all_shown(list, gap) + seq![0x5du8] + behind,
            ahead.len() as int,
        ) == Ok::<(Seq<Value>, int), Flaw>(
            (list, (ahead.len() + lead.len() + all_shown(list, gap).len() + 1) as int),
        ),
    decreases list, 1int,
{
    let b = ahead + lead + all_shown(list, gap) + seq![0x5du8] + behind;
    let first = shown(list[0], gap);
    let rest = list.subrange(1, list.len() as int);
    let done = ahead + lead + first;
    let none = Seq::<u8>::empty();
    if list.len() == 1 {
        let tail = gap + seq![0x5du8] + behind;
        lemma_apart(gap, 0x5d, behind);
        assert(b =~= ahead + lead + first + tail);
        lemma_value(ahead, lead, list[0], gap, tail);
        assert(b =~= done + gap + (seq![0x5du8] + behind));
        lemma_blanks(done, gap, seq![0x5du8] + behind);
        assert(b[(done + gap).len() as int] == 0x5d);
        assert(seq![list[0]] =~= list);
    } else {
        let others = all_shown(rest, gap) + seq![0x5du8] + behind;
        let tail = gap + seq![0x2cu8] + (gap + others);
        lemma_apart(gap, 0x2c, gap + others);
        assert(b =~= ahead + lead + first + tail);
        lemma_value(ahead, lead, list[0], gap, tail);
        assert(b =~= done + gap + (seq![0x2cu8] + (gap + others)));
        lemma_blanks(done, gap, seq![0x2cu8] + (gap + others));
        assert(b[(done + gap).len() as int] == 0x2c);
        let next = done + gap + seq![0x2cu8];
        assert(b =~= next + gap + all_shown(rest, gap) + seq![0x5du8] + behind);
        lemma_items(next, gap, rest, gap, behind);
        assert(seq![list[0]] + rest =~= list);
    }
}

/// A field as it is written: its key between quotes, a colon and its value.
pub open spec fn field_shown(key: Seq<u8>, gap: Seq<u8>, value: Seq<u8>) -> Seq<u8> {
    seq![0x22u8] + key + seq![0x22u8] + gap + seq![0x3au8] + gap + value + gap
}

proof fn lemma_field_layout(
    start: Seq<u8>,
    key: Seq<u8>,
    gap: Seq<u8>,
    value: Seq<u8>,
    last: Seq<u8>,
)
    ensures
        ({
            let b = start + field_shown(key, gap, value) + last;
            let after_colon = gap + value + (gap + last);
            let after_name = gap + (seq![0x3au8] + after_colon);
            let name = seq![0x22u8] + key + seq![0x22u8];
            let named = start + name;
            &&& b == start + (name + after_name)
            &&& b == (start + seq![0x22u8]) + key + seq![0x22u8] + after_name
            &&& b == named + gap + (seq![0x3au8] + after_colon)
            &&& b == (named + gap + seq![0x3au8]) + gap + value + (gap + last)
            &&& b == (named + gap + seq![0x3au8] + gap + value) + gap + last
        }),
{
    let b = start + field_shown(key, gap, value) + last;
    let after_colon = gap + value + (gap + last);
    let after_name = gap + (seq![0x3au8] + after_colon);
    let name = seq![0x22u8] + key + seq![0x22u8];
    let named = start + name;
    assert(b =~= start + (name + after_name));
    assert(b =~= (start + seq![0x22u8]) + key + seq![0x22u8] + after_name);
    assert(b =~= named + gap + (seq![0x3au8] + after_colon));
    assert(b =~= (named + gap + seq![0x3au8]) + gap + value + (gap + last));
    assert(b =~= (named + gap + seq![0x3au8] + gap + value) + gap + last);
}

/// The key of a field, and its colon, are read where they stand.
#[verifier::spinoff_prover]
#[verifier::rlimit(40)]
proof fn lemma_field_name(
    ahead: Seq<u8>,
    lead: Seq<u8>,
    key: Seq<char>,
    gap: Seq<u8>,
    value: Seq<u8>,
    last: Seq<u8>,
)
    requires
        blanks(lead),
        blanks(gap),
    ensures
        ({
            let start = ahead + lead;
            let b = start + field_shown(quoted(key), gap, value) + last;
            let end = start.len() + 2 + quoted(key).len();
            &&& after_blanks(b, ahead.len() as int) == start.len()
            &&& byte_is(b, start.len() as int, 0x22)
            &&& string_at(b, (start.len() + 1) as int) == Ok::<(Seq<char>, int), Flaw>((key, end as int))
            &&& after_blanks(b, end as int) == end + gap.len()
            &&& byte_is(b, (end + gap.len()) as int, 0x3a)
        }),
{
    let start = ahead + lead;
    let b = start + field_shown(quoted(key), gap, value) + last;
    let after_colon = gap + value + (gap + last);
    let after_name = gap + (seq![0x3au8] + after_colon);
    let name = seq![0x22u8] + quoted(key) + seq![0x22u8];
    lemma_field_layout(start, quoted(key), gap, value, last);
    assert((name + after_name)[0] == 0x22);
    lemma_blanks(ahead, lead, name + after_name);
    assert(b[start.len() as int] == 0x22);
    law_text_read_back(start + seq![0x22u8], key, after_name);
    let colon = seq![0x3au8] + after_colon;
    assert(colon[0] == 0x3a);
    lemma_blanks(start + name, gap, colon);
    assert(b[(start + name + gap).len() as int] == 0x3a);
}

#[verifier::spinoff_prover]
#[verifier::rlimit(60)]
proof fn lemma_fields(
    ahead: Seq<u8>,
    lead: Seq<u8>,
    list: Seq<(Seq<char>, Value)>,
    gap: Seq<u8>,
    behind: Seq<u8>,
)
    requires
        list.len() > 0,
        fields_writable(list),
        blanks(lead),
        blanks(gap),
    ensures
        fields_at(
            ahead + lead + fields_shown(list, gap) + seq![0x7du8] + behind,
            ahead.len() as int,
        ) == Ok::<(Seq<(Seq<char>, Value)>, int), Flaw>(
            (list, (ahead.len() + lead.len() + fields_shown(list, gap).len() + 1) as int),
        ),
    decreases list, 1int,
{
    let rest = list.subrange(1, list.len() as int);
    let v = list[0].1;
    let mark: u8 = if list.len() == 1 {
        0x7d
    } else {
        0x2c
    };
    let after = if list.len() == 1 {
        behind
    } else {
        gap + (fields_shown(rest, gap) + seq![0x7du8] + behind)
    };
    let last = seq![mark] + after;
    let before_value = ahead + lead + (seq![0x22u8] + quoted(list[0].0) + seq![0x22u8]) + gap
        + seq![0x3au8];
    lemma_apart(gap, mark, after);
    assert(gap + last =~= gap + seq![mark] + after);
    lemma_value(before_value, gap, v, gap, gap + last);
    lemma_field_read(ahead, lead, list[0], gap, shown(v, gap), mark, after);
    lemma_fields_layout(ahead + lead, list, gap, behind);
    if list.len() == 1 {
        assert(seq![list[0]] =~= list);
    } else {
        let next = before_value + gap + shown(v, gap) + gap + seq![0x2cu8];
        lemma_fields(next, gap, rest, gap, behind);
        assert(seq![list[0]] + rest =~= list);
    }
}

/// One field of an object is read where it stands, if its value is.
#[verifier::spinoff_prover]
#[verifier::rlimit(60)]
proof fn lemma_field_read(
    ahead: Seq<u8>,
    lead: Seq<u8>,
    field: (Seq<char>, Value),
    gap: Seq<u8>,
    value: Seq<u8>,
    mark: u8,
    after: Seq<u8>,
)
    requires
        blanks(lead),
        blanks(gap),
        mark == 0x2c || mark == 0x7d,
        ({
            let name = seq![0x22u8] + quoted(field.0) + seq![0x22u8];
            let before_value = ahead + lead + name + gap + seq![0x3au8];
            value_at(
                before_value + gap + value + (gap + (seq![mark] + after)),
                before_value.len() as int,
            ) == Ok::<(Value, int), Flaw>(
                (field.1, (before_value.len() + gap.len() + value.len()) as int),
            )
        }),
    ensures
        ({
            let first = field_shown(quoted(field.0), gap, value);
            let b = ahead + lead + first + (seq![mark] + after);
            let end = (ahead.len() + lead.len() + first.len() + 1) as int;
            &&& mark == 0x7d ==> fields_at(b, ahead.len() as int) == Ok::<
                (Seq<(Seq<char>, Value)>, int),
                Flaw,
            >((seq![field], end))
            &&& mark == 0x2c ==> fields_at(b, ahead.len() as int) == crate::json::fields_before(
                seq![field],
                fields_at(b, end),
            )
        }),
{
    let (key, v) = field;
    let start = ahead + lead;
    let last = seq![mark] + after;
    let b = start + field_shown(quoted(key), gap, value) + last;
    let named = start + (seq![0x22u8] + quoted(key) + seq![0x22u8]);
    let before_value = named + gap + seq![0x3au8];
    let done = before_value + gap + value;
    lemma_field_name(ahead, lead, key, gap, value, last);
    lemma_field_layout(start, quoted(key), gap, value, last);
    assert(last[0] == mark);
    lemma_blanks(done, gap, last);
    let p = (done + gap).len() as int;
    assert(b[p] == mark) by {
        assert(((done + gap) + last)[p] == last[0]);
    }
    lemma_field_step(
        b,
        ahead.len() as int,
        start.len() as int,
        key,
        (start.len() + 2 + quoted(key).len()) as int,
        v,
        done.len() as int,
    );
}

proof fn lemma_fields_layout(
    start: Seq<u8>,
    list: Seq<(Seq<char>, Value)>,
    gap: Seq<u8>,
    behind: Seq<u8>,
)
    requires
        list.len() > 0,
    ensures
        ({
            let rest = list.subrange(1, list.len() as int);
            let more = gap + (fields_shown(rest, gap) + seq![0x7du8] + behind);
            let first = field_shown(quoted(list[0].0), gap, shown(list[0].1, gap));
            let b = start + fields_shown(list, gap) + seq![0x7du8] + behind;
            &&& list.len() == 1 ==> b == start + first + (seq![0x7du8] + behind)
            &&& list.len() > 1 ==> b == start + first + (seq![0x2cu8] + more)
            &&& list.len() > 1 ==> b == (start + (seq![0x22u8] + quoted(list[0].0) + seq![0x22u8])
                + gap + seq![0x3au8] + gap + shown(list[0].1, gap) + gap + seq![0x2cu8]) + gap
                + fields_shown(rest, gap) + seq![0x7du8] + behind
            &&& first.len() == 3 + quoted(list[0].0).len() + gap.len() * 3 + shown(
                list[0].1,
                gap,
            ).len()
            &&& list.len() == 1 ==> fields_shown(list, gap) == first
            &&& list.len() > 1 ==> fields_shown(list, gap).len() == first.len() + 1 + gap.len()
                + fields_shown(rest, gap).len()
        }),
{
    let rest = list.subrange(1, list.len() as int);
    let more = gap + (fields_shown(rest, gap) + seq![0x7du8] + behind);
    let first = field_shown(quoted(list[0].0), gap, shown(list[0].1, gap));
    let b = start + fields_shown(list, gap) + seq![0x7du8] + behind;
    if list.len() == 1 {
        assert(b =~= start + first + (seq![0x7du8] + behind));
    } else {
        assert(fields_shown(list, gap) == first + seq![0x2cu8] + gap + fields_shown(rest, gap));
        assert(b =~= start + first + (seq![0x2cu8] + more));
        let next = start + (seq![0x22u8] + quoted(list[0].0) + seq![0x22u8]) + gap + seq![0x3au8]
            + gap + shown(list[0].1, gap) + gap + seq![0x2cu8];
        assert(next =~= start + first + seq![0x2cu8]);
        assert(b =~= next + gap + fields_shown(rest, gap) + seq![0x7du8] + behind);
    }
}

/// One field of an object, and what follows it.
proof fn lemma_field_step(
    b: Seq<u8>,
    pos: int,
    start: int,
    key: Seq<char>,
    end: int,
    v: Value,
    done: int,
)
    requires
        0 <= pos <= start < end <= done,
        after_blanks(b, pos) == start,
        byte_is(b, start, 0x22),
        string_at(b, start + 1) == Ok::<(Seq<char>, int), Flaw>((key, end)),
        end <= after_blanks(b, end) < done <= after_blanks(b, done),
        byte_is(b, after_blanks(b, end), 0x3a),
        value_at(b, after_blanks(b, end) + 1) == Ok::<(Value, int), Flaw>((v, done)),
    ensures
        byte_is(b, after_blanks(b, done), 0x2c) ==> fields_at(b, pos)
            == crate::json::fields_before(
            seq![(key, v)],
            fields_at(b, after_blanks(b, done) + 1),
        ),
        byte_is(b, after_blanks(b, done), 0x7d) ==> fields_at(b, pos) == Ok::<
            (Seq<(Seq<char>, Value)>, int),
            Flaw,
        >((seq![(key, v)], after_blanks(b, done) + 1)),
{
}

/// Any value is read back from the document it is written as, whatever blanks stand in it and round
/// it: each number as it is written, each text character by character, the items of each array and
/// the fields of each object in their order.
pub proof fn law_document_read_back(v: Value, left: Seq<u8>, gap: Seq<u8>, right: Seq<u8>)
    requires
        writable(v),
        blanks(left) && blanks(gap) && blanks(right),
    ensures
        document(left + shown(v, gap) + right) == Ok::<Value, Flaw>(v),
{
    let none = Seq::<u8>::empty();
    let b = left + shown(v, gap) + right;
    assert(apart(right)) by {
        if right.len() > 0 {
            assert(right[0] == 0x20 || right[0] == 0x09 || right[0] == 0x0a || right[0] == 0x0d);
        }
    }
    lemma_value(none, left, v, gap, right);
    assert(none + left + shown(v, gap) + right =~= b);
    let done = left + shown(v, gap);
    lemma_blanks(done, right, none);
    assert(done + right + none =~= b);
}

/// Anything but blanks behind a value makes a document invalid, and so does nothing at all.
pub proof fn law_document_refused(v: Value, gap: Seq<u8>, mark: u8, more: Seq<u8>)
    requires
        writable(v),
        blanks(gap),
        mark == 0x2c || mark == 0x5d || mark == 0x7d,
    ensures
        document(shown(v, gap) + gap + seq![mark] + more) is Err,
        document(gap) is Err,
{
    let none = Seq::<u8>::empty();
    let tail = gap + seq![mark] + more;
    let b = shown(v, gap) + gap + seq![mark] + more;
    lemma_apart(gap, mark, more);
    lemma_value(none, none, v, gap, tail);
    assert(none + none + shown(v, gap) + tail =~= b);
    lemma_blanks(shown(v, gap), gap, seq![mark] + more);
    assert(shown(v, gap) + gap + (seq![mark] + more) =~= b);
    lemma_blanks(none, gap, none);
    assert(none + gap + none =~= gap);
}

} // verus!
