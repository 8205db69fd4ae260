//! A tiny dependency-free JSON parser.
//!
//! The LRCLIB API returns flat JSON objects and arrays of objects with
//! string / number / boolean fields. This module holds just enough JSON to
//! parse those responses: objects, arrays, strings (with the full set of
//! escape sequences), numbers, booleans and null.
//!
//! The parser preserves object key insertion order, which keeps diagnostics
//! and debugging pleasant. A number is kept as it is written; its value as a
//! floating-point number is left to the caller.

use vstd::prelude::*;
use vstd::slice::slice_subrange;
use vstd::utf8::{decode_utf8, encode_utf8, valid_utf8};

use crate::bytes::{is_at, stands_at};
use crate::text::{decimal, decimal_text, joined, push_text, same_text, utf8_text};

verus! {

/// A parsed JSON value.
#[derive(Debug)]
pub enum Json {
    Null,
    Bool(bool),
    /// The literal as it is written.
    Number(String),
    String(String),
    Array(Vec<Json>),
    /// Object stored as an ordered list of `(key, value)` pairs.
    Object(Vec<(String, Json)>),
}

/// What a [`Json`] value holds.
pub enum Value {
    Null,
    Bool(bool),
    Number(Seq<char>),
    Text(Seq<char>),
    Array(Seq<Value>),
    Object(Seq<(Seq<char>, Value)>),
}

impl Json {
    /// What the value holds.
    pub open spec fn value(self) -> Value
        decreases self,
    {
        match self {
            Json::Null => Value::Null,
            Json::Bool(b) => Value::Bool(b),
            Json::Number(n) => Value::Number(n@),
            Json::String(s) => Value::Text(s@),
            Json::Array(items) => Value::Array(values(items@)),
            Json::Object(entries) => Value::Object(fields(entries@)),
        }
    }
}

/// What a list of values holds.
pub open spec fn values(list: Seq<Json>) -> Seq<Value>
    decreases list,
{
    if list.len() == 0 {
        seq![]
    } else {
        seq![list[0].value()] + values(list.subrange(1, list.len() as int))
    }
}

/// What a list of fields holds.
pub open spec fn fields(list: Seq<(String, Json)>) -> Seq<(Seq<char>, Value)>
    decreases list,
{
    if list.len() == 0 {
        seq![]
    } else {
        seq![(list[0].0@, list[0].1.value())] + fields(list.subrange(1, list.len() as int))
    }
}

pub proof fn lemma_values(list: Seq<Json>)
    ensures
        values(list).len() == list.len(),
        forall|i: int| 0 <= i < list.len() ==> #[trigger] values(list)[i] == list[i].value(),
    decreases list.len(),
{
    if list.len() > 0 {
        let rest = list.subrange(1, list.len() as int);
        lemma_values(rest);
        assert forall|i: int| 0 <= i < list.len() implies #[trigger] values(list)[i]
            == list[i].value() by {
            if i > 0 {
                assert(values(list)[i] == values(rest)[i - 1]);
                assert(rest[i - 1] == list[i]);
            }
        }
    }
}

pub proof fn lemma_fields(list: Seq<(String, Json)>)
    ensures
        fields(list).len() == list.len(),
        forall|i: int|
            0 <= i < list.len() ==> #[trigger] fields(list)[i] == (list[i].0@, list[i].1.value()),
    decreases list.len(),
{
    if list.len() > 0 {
        let rest = list.subrange(1, list.len() as int);
        lemma_fields(rest);
        assert forall|i: int| 0 <= i < list.len() implies #[trigger] fields(list)[i] == (
            list[i].0@,
            list[i].1.value(),
        ) by {
            if i > 0 {
                assert(fields(list)[i] == fields(rest)[i - 1]);
                assert(rest[i - 1] == list[i]);
            }
        }
    }
}

/// Copies a value.
fn copy_value(v: &Json) -> (r: Json)
    ensures
        r.value() == v.value(),
    decreases v,
{
    match v {
        Json::Null => Json::Null,
        Json::Bool(b) => Json::Bool(*b),
        Json::Number(n) => Json::Number(n.as_str().to_owned()),
        Json::String(s) => Json::String(s.as_str().to_owned()),
        Json::Array(items) => Json::Array(copy_values(items)),
        Json::Object(entries) => Json::Object(copy_fields(entries)),
    }
}

/// Copies a list of values.
fn copy_values(list: &Vec<Json>) -> (r: Vec<Json>)
    ensures
        values(r@) == values(list@),
    decreases list,
{
    let mut r: Vec<Json> = Vec::new();
    let mut i: usize = 0;
    while i < list.len()
        invariant
            i <= list@.len(),
            r@.len() == i,
            forall|j: int| 0 <= j < i ==> (#[trigger] r@[j]).value() == list@[j].value(),
        decreases list@.len() - i,
    {
        r.push(copy_value(&list[i]));
        i = i + 1;
    }
    proof {
        lemma_values(r@);
        lemma_values(list@);
        assert(values(r@) =~= values(list@));
    }
    r
}

/// Copies a list of fields.
fn copy_fields(list: &Vec<(String, Json)>) -> (r: Vec<(String, Json)>)
    ensures
        fields(r@) == fields(list@),
    decreases list,
{
    let mut r: Vec<(String, Json)> = Vec::new();
    let mut i: usize = 0;
    while i < list.len()
        invariant
            i <= list@.len(),
            r@.len() == i,
            forall|j: int|
                0 <= j < i ==> (#[trigger] r@[j]).0@ == list@[j].0@ && r@[j].1.value()
                    == list@[j].1.value(),
        decreases list@.len() - i,
    {
        let entry = &list[i];
        r.push((entry.0.as_str().to_owned(), copy_value(&entry.1)));
        i = i + 1;
    }
    proof {
        lemma_fields(r@);
        lemma_fields(list@);
        assert(fields(r@) =~= fields(list@));
    }
    r
}

impl Clone for Json {
    fn clone(&self) -> (r: Self)
        ensures
            r.value() == self.value(),
    {
        copy_value(self)
    }
}

/// The value of the first field with a key.
pub open spec fn field_of(list: Seq<(Seq<char>, Value)>, key: Seq<char>) -> Option<Value>
    decreases list.len(),
{
    if list.len() == 0 {
        None
    } else if list[0].0 == key {
        Some(list[0].1)
    } else {
        field_of(list.drop_first(), key)
    }
}

/// The field of an object with a key; none for what is no object.
pub open spec fn member(v: Value, key: Seq<char>) -> Option<Value> {
    match v {
        Value::Object(list) => field_of(list, key),
        _ => None,
    }
}

impl Json {
    /// Looks up a field in an object by key. Returns `None` for non-objects
    /// or missing keys.
    pub fn get(&self, key: &str) -> (r: Option<&Json>)
        ensures
            match r {
                Some(v) => member(self.value(), key@) == Some(v.value()),
                None => member(self.value(), key@) is None,
            },
    {
        if let Json::Object(entries) = self {
            let ghost all = fields(entries@);
            let mut i: usize = 0;
            proof {
                lemma_fields(entries@);
                assert(all.skip(0) =~= all);
            }
            while i < entries.len()
                invariant
                    i <= entries@.len(),
                    all == fields(entries@),
                    all.len() == entries@.len(),
                    forall|j: int|
                        0 <= j < entries@.len() ==> #[trigger] all[j] == (
                            entries@[j].0@,
                            entries@[j].1.value(),
                        ),
                    self.value() == Value::Object(all),
                    field_of(all, key@) == field_of(all.skip(i as int), key@),
                decreases entries@.len() - i,
            {
                assert(all.skip(i as int)[0] == all[i as int]);
                assert(all.skip(i as int).drop_first() =~= all.skip(i + 1));
                if same_text(&entries[i].0, key) {
                    return Some(&entries[i].1);
                }
                i = i + 1;
            }
            assert(all.skip(i as int) =~= seq![]);
        }
        None
    }

    /// The text of a string value.
    pub fn as_str(&self) -> (r: Option<&str>)
        ensures
            match r {
                Some(s) => self.value() == Value::Text(s@),
                None => self.value() !is Text,
            },
    {
        if let Json::String(s) = self {
            Some(s.as_str())
        } else {
            None
        }
    }

    /// The literal of a number value.
    pub fn number_text(&self) -> (r: Option<&str>)
        ensures
            match r {
                Some(s) => self.value() == Value::Number(s@),
                None => self.value() !is Number,
            },
    {
        if let Json::Number(s) = self {
            Some(s.as_str())
        } else {
            None
        }
    }

    /// The truth value of a boolean.
    pub fn as_bool(&self) -> (r: Option<bool>)
        ensures
            match r {
                Some(b) => self.value() == Value::Bool(b),
                None => self.value() !is Bool,
            },
    {
        if let Json::Bool(b) = self {
            Some(*b)
        } else {
            None
        }
    }

    /// The items of an array.
    pub fn as_array(&self) -> (r: Option<&Vec<Json>>)
        ensures
            match r {
                Some(items) => self.value() == Value::Array(values(items@)),
                None => self.value() !is Array,
            },
    {
        if let Json::Array(a) = self {
            Some(a)
        } else {
            None
        }
    }

    /// Tells whether the value is `null`.
    pub fn is_null(&self) -> (r: bool)
        ensures
            r == (self.value() is Null),
    {
        matches!(self, Json::Null)
    }
}

/// Parse error carrying a byte offset into the original input for context.
#[derive(Debug, Clone)]
pub struct JsonError {
    pub offset: usize,
    pub message: String,
}

/// What a [`JsonError`] tells.
pub struct Flaw {
    pub offset: int,
    pub message: Seq<char>,
}

impl View for JsonError {
    type V = Flaw;

    open spec fn view(&self) -> Flaw {
        Flaw { offset: self.offset as int, message: self.message@ }
    }
}

impl JsonError {
    /// Makes an error.
    fn new(offset: usize, message: &str) -> (r: Self)
        ensures
            r@ == (Flaw { offset: offset as int, message: message@ }),
    {
        JsonError { offset, message: message.to_owned() }
    }

    /// The error as it is shown.
    pub fn shown(&self) -> (r: String)
        ensures
            r@ == "json error at byte "@ + decimal(self.offset as nat) + ": "@ + self.message@,
    {
        let mut r = joined("json error at byte ", &decimal_text(self.offset as u64));
        push_text(&mut r, ": ");
        push_text(&mut r, &self.message);
        r
    }
}

/// What parsing gives: something and the place after it, or a flaw.
pub type Parsed<T> = Result<(T, int), Flaw>;

/// Whether a byte is white space.
pub open spec fn blank(b: u8) -> bool {
    b == 0x20 || b == 0x09 || b == 0x0a || b == 0x0d
}

/// The place of the first byte at or after `pos` that is no white space.
pub open spec fn after_blanks(b: Seq<u8>, pos: int) -> int
    decreases b.len() - pos,
{
    if 0 <= pos < b.len() && blank(b[pos]) {
        after_blanks(b, pos + 1)
    } else {
        pos
    }
}

/// Skips white space.
fn skip_ws(b: &[u8], pos: usize) -> (r: usize)
    requires
        pos <= b.len(),
    ensures
        r == after_blanks(b@, pos as int),
        pos <= r <= b.len(),
{
    let mut p: usize = pos;
    while p < b.len() && (b[p] == 0x20 || b[p] == 0x09 || b[p] == 0x0a || b[p] == 0x0d)
        invariant
            pos <= p <= b.len(),
            after_blanks(b@, pos as int) == after_blanks(b@, p as int),
        decreases b.len() - p,
    {
        p = p + 1;
    }
    p
}

/// Whether the byte at `pos` is there and is `c`.
pub open spec fn byte_is(b: Seq<u8>, pos: int, c: u8) -> bool {
    0 <= pos < b.len() && b[pos] == c
}

/// Tells whether the byte at `pos` is there and is `c`.
fn peek_is(b: &[u8], pos: usize, c: u8) -> (r: bool)
    ensures
        r == byte_is(b@, pos as int, c),
{
    pos < b.len() && b[pos] == c
}

/// The value of a hexadecimal digit, or sixteen for what is none.
pub open spec fn hex_value(b: u8) -> int {
    if 0x30 <= b <= 0x39 {
        b - 0x30
    } else if 0x61 <= b <= 0x66 {
        b - 0x61 + 10
    } else if 0x41 <= b <= 0x46 {
        b - 0x41 + 10
    } else {
        16
    }
}

/// Gives the value of a hexadecimal digit, or sixteen for what is none.
fn hex_digit(b: u8) -> (r: u32)
    ensures
        r == hex_value(b),
        r <= 16,
{
    if 0x30 <= b && b <= 0x39 {
        (b - 0x30) as u32
    } else if 0x61 <= b && b <= 0x66 {
        (b - 0x61) as u32 + 10
    } else if 0x41 <= b && b <= 0x46 {
        (b - 0x41) as u32 + 10
    } else {
        16
    }
}

/// The number that `n` hexadecimal digits from `pos` on make up, after those that made up `value`.
pub open spec fn hex_at(b: Seq<u8>, pos: int, n: int, value: int) -> Parsed<int>
    decreases n,
{
    if n <= 0 {
        Ok((value, pos))
    } else if pos >= b.len() {
        Err(Flaw { offset: pos, message: "incomplete \\u escape"@ })
    } else if hex_value(b[pos]) == 16 {
        Err(Flaw { offset: pos, message: "invalid hex digit in \\u escape"@ })
    } else {
        hex_at(b, pos + 1, n - 1, value * 16 + hex_value(b[pos]))
    }
}

/// Reads exactly 4 hex digits following a `\u` escape.
fn parse_hex4(b: &[u8], pos: usize) -> (r: Result<u32, JsonError>)
    requires
        pos <= b.len(),
    ensures
        match (r, hex_at(b@, pos as int, 4, 0)) {
            (Ok(v), Ok((value, end))) => v == value && end == pos + 4 && pos + 4 <= b.len() && v
                < 0x1_0000,
            (Err(e), Err(flaw)) => e@ == flaw && e.offset <= b.len(),
            _ => false,
        },
{
    let mut value: u32 = 0;
    let mut i: usize = 0;
    let mut limit: u32 = 1;
    while i < 4
        invariant
            i <= 4,
            pos + i <= b.len(),
            limit == (if i == 0 {
                1int
            } else if i == 1 {
                0x10int
            } else if i == 2 {
                0x100int
            } else if i == 3 {
                0x1000int
            } else {
                0x1_0000int
            }),
            value < limit,
            hex_at(b@, pos as int, 4, 0) == hex_at(b@, pos + i, 4 - i, value as int),
        decreases 4 - i,
    {
        let p: usize = pos + i;
        if p >= b.len() {
            return Err(JsonError::new(p, "incomplete \\u escape"));
        }
        let d: u32 = hex_digit(b[p]);
        if d == 16 {
            return Err(JsonError::new(p, "invalid hex digit in \\u escape"));
        }
        value = value * 16 + d;
        limit = limit * 16;
        i = i + 1;
    }
    Ok(value)
}

/// The character that stands for what cannot be told.
pub open spec fn replacement() -> char {
    '\u{fffd}'
}

/// The character of a simple escape.
pub open spec fn escaped(b: u8) -> Option<char> {
    if b == 0x22 {
        Some('"')
    } else if b == 0x5c {
        Some('\\')
    } else if b == 0x2f {
        Some('/')
    } else if b == 0x62 {
        Some('\u{8}')
    } else if b == 0x66 {
        Some('\u{c}')
    } else if b == 0x6e {
        Some('\n')
    } else if b == 0x72 {
        Some('\r')
    } else if b == 0x74 {
        Some('\t')
    } else {
        None
    }
}

/// Gives the character of a simple escape.
fn simple_escape(b: u8) -> (r: Option<char>)
    ensures
        r == escaped(b),
{
    if b == 0x22 {
        Some('"')
    } else if b == 0x5c {
        Some('\\')
    } else if b == 0x2f {
        Some('/')
    } else if b == 0x62 {
        Some('\u{8}')
    } else if b == 0x66 {
        Some('\u{c}')
    } else if b == 0x6e {
        Some('\n')
    } else if b == 0x72 {
        Some('\r')
    } else if b == 0x74 {
        Some('\t')
    } else {
        None
    }
}

/// The character of a `\u` escape whose hex digits stand at `pos`, and the place after it.
///
/// A high surrogate makes up one character with the low one in the `\u` escape after it; a
/// surrogate without its counterpart gives the replacement character, and what follows it is read
/// as if it stood alone.
pub open spec fn unicode_at(b: Seq<u8>, pos: int) -> Parsed<char> {
    match hex_at(b, pos, 4, 0) {
        Err(flaw) => Err(flaw),
        Ok((code, end)) => if 0xD800 <= code <= 0xDBFF {
            if !byte_is(b, end, 0x5c) || !byte_is(b, end + 1, 0x75) {
                Ok((replacement(), end))
            } else {
                match hex_at(b, end + 2, 4, 0) {
                    Err(flaw) => Err(flaw),
                    Ok((low, after)) => if 0xDC00 <= low <= 0xDFFF {
                        Ok(
                            (
                                (0x1_0000 + (code - 0xD800) * 0x400 + (low - 0xDC00)) as char,
                                after,
                            ),
                        )
                    } else {
                        Ok((replacement(), end))
                    },
                }
            }
        } else if 0xDC00 <= code <= 0xDFFF {
            Ok((replacement(), end))
        } else {
            Ok((code as char, end))
        },
    }
}

/// Reads the character of a `\u` escape.
fn parse_unicode(b: &[u8], pos: usize) -> (r: Result<(char, usize), JsonError>)
    requires
        pos <= b.len(),
    ensures
        match (r, unicode_at(b@, pos as int)) {
            (Ok((c, end)), Ok((ch, e))) => c == ch && end == e && pos < end <= b.len(),
            (Err(e), Err(flaw)) => e@ == flaw && e.offset <= b.len(),
            _ => false,
        },
{
    let code: u32 = match parse_hex4(b, pos) {
        Ok(code) => code,
        Err(e) => return Err(e),
    };
    let end: usize = pos + 4;
    if 0xD800 <= code && code <= 0xDBFF {
        if !peek_is(b, end, 0x5c) || !peek_is(b, end + 1, 0x75) {
            return Ok(('\u{fffd}', end));
        }
        let low: u32 = match parse_hex4(b, end + 2) {
            Ok(low) => low,
            Err(e) => return Err(e),
        };
        if 0xDC00 <= low && low <= 0xDFFF {
            if let Some(c) = char::from_u32(0x1_0000 + (code - 0xD800) * 0x400 + (low - 0xDC00)) {
                return Ok((c, end + 6));
            }
        }
        return Ok(('\u{fffd}', end));
    }
    match char::from_u32(code) {
        Some(c) => Ok((c, end)),
        None => Ok(('\u{fffd}', end)),
    }
}

/// The place of the first quote or backslash at or after `pos`, or the end.
pub open spec fn run_end(b: Seq<u8>, pos: int) -> int
    decreases b.len() - pos,
{
    if pos < b.len() && b[pos] != 0x22 && b[pos] != 0x5c {
        run_end(b, pos + 1)
    } else {
        pos
    }
}

/// The text of bytes that stand for themselves.
pub open spec fn run_text(run: Seq<u8>) -> Seq<char> {
    if valid_utf8(run) {
        decode_utf8(run)
    } else {
        seq![replacement()]
    }
}

/// `rest`, where there is one, with `done` before it.
pub open spec fn text_before(done: Seq<char>, rest: Parsed<Seq<char>>) -> Parsed<Seq<char>> {
    match rest {
        Ok((text, end)) => Ok((done + text, end)),
        Err(flaw) => Err(flaw),
    }
}

/// The text of a string from `pos`, within the quotes, to its closing quote.
pub open spec fn string_at(b: Seq<u8>, pos: int) -> Parsed<Seq<char>>
    decreases b.len() - pos,
{
    if pos < 0 || pos >= b.len() {
        Err(Flaw { offset: pos, message: "unterminated string"@ })
    } else if b[pos] == 0x22 {
        Ok((seq![], pos + 1))
    } else if b[pos] == 0x5c {
        if pos + 1 >= b.len() {
            Err(Flaw { offset: pos + 1, message: "unterminated escape"@ })
        } else if b[pos + 1] == 0x75 {
            match unicode_at(b, pos + 2) {
                Err(flaw) => Err(flaw),
                Ok((c, end)) => if pos < end <= b.len() {
                    text_before(seq![c], string_at(b, end))
                } else {
                    Err(Flaw { offset: pos, message: seq![] })
                },
            }
        } else {
            match escaped(b[pos + 1]) {
                Some(c) => text_before(seq![c], string_at(b, pos + 2)),
                None => Err(Flaw { offset: pos + 2, message: "invalid escape character"@ }),
            }
        }
    } else {
        let end = run_end(b, pos);
        if pos < end <= b.len() {
            text_before(run_text(b.subrange(pos, end)), string_at(b, end))
        } else {
            Err(Flaw { offset: pos, message: seq![] })
        }
    }
}

/// Finds the end of a run of bytes that stand for themselves.
fn find_run_end(b: &[u8], pos: usize) -> (r: usize)
    requires
        pos < b.len(),
        b@[pos as int] != 0x22,
        b@[pos as int] != 0x5c,
    ensures
        r == run_end(b@, pos as int),
        pos < r <= b.len(),
{
    let mut p: usize = pos + 1;
    while p < b.len() && b[p] != 0x22 && b[p] != 0x5c
        invariant
            pos < p <= b.len(),
            run_end(b@, pos as int) == run_end(b@, p as int),
        decreases b.len() - p,
    {
        p = p + 1;
    }
    p
}

/// Parses the rest of a JSON string after its opening quote, resolving every standard escape
/// sequence and UTF-16 surrogate pair.
fn parse_string(b: &[u8], pos: usize) -> (r: Result<(String, usize), JsonError>)
    requires
        pos <= b.len(),
    ensures
        match (r, string_at(b@, pos as int)) {
            (Ok((s, end)), Ok((text, e))) => s@ == text && end == e && pos < end <= b.len(),
            (Err(e), Err(flaw)) => e@ == flaw && e.offset <= b.len(),
            _ => false,
        },
{
    let mut out = String::new();
    let mut p: usize = pos;
    proof {
        if let Ok((text, _)) = string_at(b@, pos as int) {
            assert(out@ + text =~= text);
        }
    }
    while p < b.len()
        invariant
            pos <= p <= b.len(),
            text_before(out@, string_at(b@, p as int)) == string_at(b@, pos as int),
        decreases b.len() - p,
    {
        let ghost done = out@;
        let c: u8 = b[p];
        if c == 0x22 {
            assert(done + Seq::<char>::empty() =~= done);
            return Ok((out, p + 1));
        }
        let ghost mut piece = Seq::<char>::empty();
        let ghost from = p as int;
        if c == 0x5c {
            if p + 1 >= b.len() {
                return Err(JsonError::new(p + 1, "unterminated escape"));
            }
            if b[p + 1] == 0x75 {
                match parse_unicode(b, p + 2) {
                    Ok((ch, end)) => {
                        out.push(ch);
                        proof {
                            piece = seq![ch];
                        }
                        p = end;
                    },
                    Err(e) => return Err(e),
                }
            } else {
                match simple_escape(b[p + 1]) {
                    Some(ch) => {
                        out.push(ch);
                        proof {
                            piece = seq![ch];
                        }
                        p = p + 2;
                    },
                    None => return Err(JsonError::new(p + 2, "invalid escape character")),
                }
            }
        } else {
            let end: usize = find_run_end(b, p);
            match utf8_text(slice_subrange(b, p, end)) {
                Some(s) => {
                    push_text(&mut out, &s);
                },
                None => {
                    out.push('\u{fffd}');
                },
            }
            proof {
                piece = run_text(b@.subrange(p as int, end as int));
            }
            p = end;
        }
        proof {
            assert(out@ =~= done + piece);
            assert(string_at(b@, from) == text_before(piece, string_at(b@, p as int)));
            if let Ok((text, _)) = string_at(b@, p as int) {
                assert(done + (piece + text) =~= out@ + text);
            }
        }
    }
    Err(JsonError::new(p, "unterminated string"))
}

/// Whether a byte is a decimal digit.
pub open spec fn digit(b: u8) -> bool {
    0x30 <= b <= 0x39
}

/// The place of the first byte at or after `pos` that is no decimal digit.
pub open spec fn after_digits(b: Seq<u8>, pos: int) -> int
    decreases b.len() - pos,
{
    if pos < b.len() && digit(b[pos]) {
        after_digits(b, pos + 1)
    } else {
        pos
    }
}

/// Skips decimal digits.
fn skip_digits(b: &[u8], pos: usize) -> (r: usize)
    requires
        pos <= b.len(),
    ensures
        r == after_digits(b@, pos as int),
        pos <= r <= b.len(),
        forall|i: int| pos <= i < r ==> digit(#[trigger] b@[i]),
{
    let mut p: usize = pos;
    while p < b.len() && 0x30 <= b[p] && b[p] <= 0x39
        invariant
            pos <= p <= b.len(),
            after_digits(b@, pos as int) == after_digits(b@, p as int),
            forall|i: int| pos <= i < p ==> digit(#[trigger] b@[i]),
        decreases b.len() - p,
    {
        p = p + 1;
    }
    p
}

/// The characters of ASCII bytes.
pub open spec fn ascii_text(b: Seq<u8>) -> Seq<char> {
    Seq::new(b.len(), |i: int| b[i] as char)
}

/// The literal of the number at `pos`: a minus sign or none, digits, a fraction and an exponent.
/// It needs a digit before the exponent, and one in the exponent where there is one.
pub open spec fn number_at(b: Seq<u8>, pos: int) -> Parsed<Seq<char>> {
    let whole = if byte_is(b, pos, 0x2d) {
        pos + 1
    } else {
        pos
    };
    let point = after_digits(b, whole);
    let mantissa = if byte_is(b, point, 0x2e) {
        after_digits(b, point + 1)
    } else {
        point
    };
    let signed = byte_is(b, mantissa, 0x65) || byte_is(b, mantissa, 0x45);
    let exponent = if byte_is(b, mantissa + 1, 0x2b) || byte_is(b, mantissa + 1, 0x2d) {
        mantissa + 2
    } else {
        mantissa + 1
    };
    let end = if signed {
        after_digits(b, exponent)
    } else {
        mantissa
    };
    if (point > whole || mantissa > point + 1) && (signed ==> end > exponent) {
        Ok((ascii_text(b.subrange(pos, end)), end))
    } else {
        Err(Flaw { offset: end, message: "invalid number"@ })
    }
}

/// Copies ASCII bytes as text.
fn ascii_string(b: &[u8], from: usize, to: usize) -> (r: String)
    requires
        from <= to <= b.len(),
    ensures
        r@ == ascii_text(b@.subrange(from as int, to as int)),
{
    let mut r = String::new();
    let mut i: usize = from;
    while i < to
        invariant
            from <= i <= to <= b.len(),
            r@ =~= ascii_text(b@.subrange(from as int, to as int)).take(i - from),
        decreases to - i,
    {
        r.push(b[i] as char);
        i = i + 1;
    }
    assert(r@ =~= ascii_text(b@.subrange(from as int, to as int)));
    r
}

/// Parses a number.
fn parse_number(b: &[u8], pos: usize) -> (r: Result<(String, usize), JsonError>)
    requires
        pos < b.len(),
        b@[pos as int] == 0x2d || digit(b@[pos as int]),
    ensures
        match (r, number_at(b@, pos as int)) {
            (Ok((s, end)), Ok((text, e))) => s@ == text && end == e && pos < end <= b.len(),
            (Err(e), Err(flaw)) => e@ == flaw && e.offset <= b.len(),
            _ => false,
        },
{
    let whole: usize = if peek_is(b, pos, 0x2d) {
        pos + 1
    } else {
        pos
    };
    let point: usize = skip_digits(b, whole);
    let mantissa: usize = if peek_is(b, point, 0x2e) {
        skip_digits(b, point + 1)
    } else {
        point
    };
    let signed = peek_is(b, mantissa, 0x65) || peek_is(b, mantissa, 0x45);
    let mut digits = point > whole || (mantissa > point && mantissa - point > 1);
    let mut end: usize = mantissa;
    if signed {
        let exponent: usize = if peek_is(b, mantissa + 1, 0x2b) || peek_is(b, mantissa + 1, 0x2d) {
            mantissa + 2
        } else {
            mantissa + 1
        };
        end = skip_digits(b, exponent);
        digits = digits && end > exponent;
    }
    if digits {
        Ok((ascii_string(b, pos, end), end))
    } else {
        Err(JsonError::new(end, "invalid number"))
    }
}

/// The bytes of `true`.
pub open spec fn true_bytes() -> Seq<u8> {
    seq![0x74u8, 0x72, 0x75, 0x65]
}

/// The bytes of `false`.
pub open spec fn false_bytes() -> Seq<u8> {
    seq![0x66u8, 0x61, 0x6c, 0x73, 0x65]
}

/// The bytes of `null`.
pub open spec fn null_bytes() -> Seq<u8> {
    seq![0x6eu8, 0x75, 0x6c, 0x6c]
}

/// The flaw with a message at a place.
pub open spec fn flaw_at<T>(offset: int, message: Seq<char>) -> Parsed<T> {
    Err(Flaw { offset, message })
}

/// The value at `pos`, after white space.
pub open spec fn value_at(b: Seq<u8>, pos: int) -> Parsed<Value>
    decreases b.len() - pos, 0int,
{
    let p = after_blanks(b, pos);
    if pos < 0 || p < pos || p >= b.len() {
        flaw_at(p, "expected JSON value"@)
    } else if b[p] == 0x7b {
        let q = after_blanks(b, p + 1);
        if byte_is(b, q, 0x7d) {
            Ok((Value::Object(seq![]), q + 1))
        } else if q <= p || q > b.len() {
            flaw_at(p, seq![])
        } else {
            match fields_at(b, q) {
                Ok((list, end)) => Ok((Value::Object(list), end)),
                Err(flaw) => Err(flaw),
            }
        }
    } else if b[p] == 0x5b {
        let q = after_blanks(b, p + 1);
        if byte_is(b, q, 0x5d) {
            Ok((Value::Array(seq![]), q + 1))
        } else if q <= p || q > b.len() {
            flaw_at(p, seq![])
        } else {
            match items_at(b, q) {
                Ok((list, end)) => Ok((Value::Array(list), end)),
                Err(flaw) => Err(flaw),
            }
        }
    } else if b[p] == 0x22 {
        match string_at(b, p + 1) {
            Ok((text, end)) => Ok((Value::Text(text), end)),
            Err(flaw) => Err(flaw),
        }
    } else if b[p] == 0x74 || b[p] == 0x66 {
        if stands_at(b, p, true_bytes()) {
            Ok((Value::Bool(true), p + 4))
        } else if stands_at(b, p, false_bytes()) {
            Ok((Value::Bool(false), p + 5))
        } else {
            flaw_at(p, "invalid literal"@)
        }
    } else if b[p] == 0x6e {
        if stands_at(b, p, null_bytes()) {
            Ok((Value::Null, p + 4))
        } else {
            flaw_at(p, "invalid literal"@)
        }
    } else if b[p] == 0x2d || digit(b[p]) {
        match number_at(b, p) {
            Ok((text, end)) => Ok((Value::Number(text), end)),
            Err(flaw) => Err(flaw),
        }
    } else {
        flaw_at(p, "expected JSON value"@)
    }
}

/// The items of an array from `pos` to its closing bracket.
pub open spec fn items_at(b: Seq<u8>, pos: int) -> Parsed<Seq<Value>>
    decreases b.len() - pos, 1int,
{
    match value_at(b, pos) {
        Err(flaw) => Err(flaw),
        Ok((v, end)) => {
            let p = after_blanks(b, end);
            if byte_is(b, p, 0x2c) {
                if p < pos {
                    flaw_at(p, seq![])
                } else {
                    items_before(seq![v], items_at(b, p + 1))
                }
            } else if byte_is(b, p, 0x5d) {
                Ok((seq![v], p + 1))
            } else {
                flaw_at(p, "expected ',' or ']' in array"@)
            }
        },
    }
}

/// The fields of an object from `pos` to its closing brace.
pub open spec fn fields_at(b: Seq<u8>, pos: int) -> Parsed<Seq<(Seq<char>, Value)>>
    decreases b.len() - pos, 1int,
{
    let start = after_blanks(b, pos);
    if !byte_is(b, start, 0x22) {
        flaw_at(start, "expected string key in object"@)
    } else {
        match string_at(b, start + 1) {
            Err(flaw) => Err(flaw),
            Ok((key, after)) => {
                let colon = after_blanks(b, after);
                if !byte_is(b, colon, 0x3a) {
                    flaw_at(colon, "expected ':' after object key"@)
                } else if colon < pos {
                    flaw_at(colon, seq![])
                } else {
                    match value_at(b, colon + 1) {
                        Err(flaw) => Err(flaw),
                        Ok((v, end)) => {
                            let p = after_blanks(b, end);
                            if byte_is(b, p, 0x2c) {
                                if p < pos {
                                    flaw_at(p, seq![])
                                } else {
                                    fields_before(seq![(key, v)], fields_at(b, p + 1))
                                }
                            } else if byte_is(b, p, 0x7d) {
                                Ok((seq![(key, v)], p + 1))
                            } else {
                                flaw_at(p, "expected ',' or '}' in object"@)
                            }
                        },
                    }
                }
            },
        }
    }
}

/// `rest`, where there is one, with other items before it.
pub open spec fn items_before(done: Seq<Value>, rest: Parsed<Seq<Value>>) -> Parsed<Seq<Value>> {
    match rest {
        Ok((list, end)) => Ok((done + list, end)),
        Err(flaw) => Err(flaw),
    }
}

/// `rest`, where there is one, with other fields before it.
pub open spec fn fields_before(
    done: Seq<(Seq<char>, Value)>,
    rest: Parsed<Seq<(Seq<char>, Value)>>,
) -> Parsed<Seq<(Seq<char>, Value)>> {
    match rest {
        Ok((list, end)) => Ok((done + list, end)),
        Err(flaw) => Err(flaw),
    }
}

/// Parses `true` or `false`.
fn parse_bool(b: &[u8], pos: usize) -> (r: Result<(bool, usize), JsonError>)
    requires
        pos < b.len(),
    ensures
        match r {
            Ok((true, end)) => stands_at(b@, pos as int, true_bytes()) && end == pos + 4 && end
                <= b.len(),
            Ok((false, end)) => !stands_at(b@, pos as int, true_bytes()) && stands_at(
                b@,
                pos as int,
                false_bytes(),
            ) && end == pos + 5 && end <= b.len(),
            Err(e) => !stands_at(b@, pos as int, true_bytes()) && !stands_at(
                b@,
                pos as int,
                false_bytes(),
            ) && e@ == (Flaw { offset: pos as int, message: "invalid literal"@ }),
        },
{
    let yes: Vec<u8> = vec![0x74, 0x72, 0x75, 0x65];
    let no: Vec<u8> = vec![0x66, 0x61, 0x6c, 0x73, 0x65];
    assert(yes@ =~= true_bytes());
    assert(no@ =~= false_bytes());
    if is_at(b, pos, &yes) {
        Ok((true, pos + 4))
    } else if is_at(b, pos, &no) {
        Ok((false, pos + 5))
    } else {
        Err(JsonError::new(pos, "invalid literal"))
    }
}

/// Parses `null`.
fn parse_null(b: &[u8], pos: usize) -> (r: Result<usize, JsonError>)
    requires
        pos < b.len(),
    ensures
        match r {
            Ok(end) => stands_at(b@, pos as int, null_bytes()) && end == pos + 4 && end <= b.len(),
            Err(e) => !stands_at(b@, pos as int, null_bytes()) && e@ == (Flaw {
                offset: pos as int,
                message: "invalid literal"@,
            }),
        },
{
    let null: Vec<u8> = vec![0x6e, 0x75, 0x6c, 0x6c];
    assert(null@ =~= null_bytes());
    if is_at(b, pos, &null) {
        Ok(pos + 4)
    } else {
        Err(JsonError::new(pos, "invalid literal"))
    }
}

/// Parses a value.
fn parse_value(b: &[u8], pos: usize) -> (r: Result<(Json, usize), JsonError>)
    requires
        pos <= b.len(),
    ensures
        match (r, value_at(b@, pos as int)) {
            (Ok((v, end)), Ok((value, e))) => v.value() == value && end == e && pos < end
                <= b.len(),
            (Err(e), Err(flaw)) => e@ == flaw && e.offset <= b.len(),
            _ => false,
        },
    decreases b.len() - pos, 0int,
{
    let p: usize = skip_ws(b, pos);
    if p >= b.len() {
        return Err(JsonError::new(p, "expected JSON value"));
    }
    let c: u8 = b[p];
    if c == 0x7b {
        let q: usize = skip_ws(b, p + 1);
        if peek_is(b, q, 0x7d) {
            let none: Vec<(String, Json)> = Vec::new();
            assert(fields(none@) =~= seq![]);
            return Ok((Json::Object(none), q + 1));
        }
        match parse_object(b, q) {
            Ok((entries, end)) => Ok((Json::Object(entries), end)),
            Err(e) => Err(e),
        }
    } else if c == 0x5b {
        let q: usize = skip_ws(b, p + 1);
        if peek_is(b, q, 0x5d) {
            let none: Vec<Json> = Vec::new();
            assert(values(none@) =~= seq![]);
            return Ok((Json::Array(none), q + 1));
        }
        match parse_array(b, q) {
            Ok((items, end)) => Ok((Json::Array(items), end)),
            Err(e) => Err(e),
        }
    } else if c == 0x22 {
        match parse_string(b, p + 1) {
            Ok((s, end)) => Ok((Json::String(s), end)),
            Err(e) => Err(e),
        }
    } else if c == 0x74 || c == 0x66 {
        match parse_bool(b, p) {
            Ok((v, end)) => Ok((Json::Bool(v), end)),
            Err(e) => Err(e),
        }
    } else if c == 0x6e {
        match parse_null(b, p) {
            Ok(end) => Ok((Json::Null, end)),
            Err(e) => Err(e),
        }
    } else if c == 0x2d || (0x30 <= c && c <= 0x39) {
        match parse_number(b, p) {
            Ok((s, end)) => Ok((Json::Number(s), end)),
            Err(e) => Err(e),
        }
    } else {
        Err(JsonError::new(p, "expected JSON value"))
    }
}

/// Parses the items of an array up to its closing bracket.
fn parse_array(b: &[u8], pos: usize) -> (r: Result<(Vec<Json>, usize), JsonError>)
    requires
        pos <= b.len(),
    ensures
        match (r, items_at(b@, pos as int)) {
            (Ok((items, end)), Ok((list, e))) => values(items@) == list && end == e && pos < end
                <= b.len(),
            (Err(e), Err(flaw)) => e@ == flaw && e.offset <= b.len(),
            _ => false,
        },
    decreases b.len() - pos, 1int,
{
    let mut items: Vec<Json> = Vec::new();
    let mut at: usize = pos;
    proof {
        assert(values(items@) =~= seq![]);
        if let Ok((list, _)) = items_at(b@, pos as int) {
            assert(values(items@) + list =~= list);
        }
    }
    loop
        invariant
            pos <= at <= b.len(),
            items_before(values(items@), items_at(b@, at as int)) == items_at(b@, pos as int),
        decreases b.len() - at,
    {
        let ghost done = values(items@);
        let (v, end) = match parse_value(b, at) {
            Ok(found) => found,
            Err(e) => return Err(e),
        };
        let ghost view = v.value();
        let ghost before = items@;
        items.push(v);
        proof {
            lemma_values(before);
            lemma_values(items@);
            assert(values(items@) =~= done.push(view));
            assert(done + seq![view] =~= done.push(view));
        }
        let p: usize = skip_ws(b, end);
        if peek_is(b, p, 0x2c) {
            proof {
                if let Ok((list, _)) = items_at(b@, p + 1) {
                    assert(done + (seq![view] + list) =~= done.push(view) + list);
                }
            }
            at = p + 1;
        } else if peek_is(b, p, 0x5d) {
            return Ok((items, p + 1));
        } else {
            return Err(JsonError::new(p, "expected ',' or ']' in array"));
        }
    }
}

/// Parses the fields of an object up to its closing brace.
fn parse_object(b: &[u8], pos: usize) -> (r: Result<(Vec<(String, Json)>, usize), JsonError>)
    requires
        pos <= b.len(),
    ensures
        match (r, fields_at(b@, pos as int)) {
            (Ok((entries, end)), Ok((list, e))) => fields(entries@) == list && end == e && pos < end
                <= b.len(),
            (Err(e), Err(flaw)) => e@ == flaw && e.offset <= b.len(),
            _ => false,
        },
    decreases b.len() - pos, 1int,
{
    let mut entries: Vec<(String, Json)> = Vec::new();
    let mut at: usize = pos;
    proof {
        assert(fields(entries@) =~= seq![]);
        if let Ok((list, _)) = fields_at(b@, pos as int) {
            assert(fields(entries@) + list =~= list);
        }
    }
    loop
        invariant
            pos <= at <= b.len(),
            fields_before(fields(entries@), fields_at(b@, at as int)) == fields_at(b@, pos as int),
        decreases b.len() - at,
    {
        let ghost done = fields(entries@);
        let start: usize = skip_ws(b, at);
        if !peek_is(b, start, 0x22) {
            return Err(JsonError::new(start, "expected string key in object"));
        }
        let (key, after) = match parse_string(b, start + 1) {
            Ok(found) => found,
            Err(e) => return Err(e),
        };
        let colon: usize = skip_ws(b, after);
        if !peek_is(b, colon, 0x3a) {
            return Err(JsonError::new(colon, "expected ':' after object key"));
        }
        let (v, end) = match parse_value(b, colon + 1) {
            Ok(found) => found,
            Err(e) => return Err(e),
        };
        let ghost view = (key@, v.value());
        let ghost before = entries@;
        entries.push((key, v));
        proof {
            lemma_fields(before);
            lemma_fields(entries@);
            assert(fields(entries@) =~= done.push(view));
            assert(done + seq![view] =~= done.push(view));
        }
        let p: usize = skip_ws(b, end);
        if peek_is(b, p, 0x2c) {
            proof {
                if let Ok((list, _)) = fields_at(b@, p + 1) {
                    assert(done + (seq![view] + list) =~= done.push(view) + list);
                }
            }
            at = p + 1;
        } else if peek_is(b, p, 0x7d) {
            return Ok((entries, p + 1));
        } else {
            return Err(JsonError::new(p, "expected ',' or '}' in object"));
        }
    }
}

/// The value of a JSON document, with white space around it and nothing else.
pub open spec fn document(b: Seq<u8>) -> Result<Value, Flaw> {
    match value_at(b, 0) {
        Err(flaw) => Err(flaw),
        Ok((v, end)) => {
            let p = after_blanks(b, end);
            if p == b.len() {
                Ok(v)
            } else {
                Err(Flaw { offset: p, message: "trailing data after JSON value"@ })
            }
        },
    }
}

/// Parses a JSON document. Returns the root value or an error.
pub fn parse(input: &str) -> (r: Result<Json, JsonError>)
    ensures
        match (r, document(encode_utf8(input@))) {
            (Ok(v), Ok(value)) => v.value() == value,
            (Err(e), Err(flaw)) => e@ == flaw && e.offset <= encode_utf8(input@).len(),
            _ => false,
        },
{
    let b = input.as_bytes();
    match parse_value(b, 0) {
        Ok((v, end)) => {
            let p: usize = skip_ws(b, end);
            if p != b.len() {
                Err(JsonError::new(p, "trailing data after JSON value"))
            } else {
                Ok(v)
            }
        },
        Err(e) => Err(e),
    }
}

/// The value of the last field with a key.
pub open spec fn last_field_of(list: Seq<(Seq<char>, Value)>, key: Seq<char>) -> Option<Value>
    decreases list.len(),
{
    if list.len() == 0 {
        None
    } else if list.last().0 == key {
        Some(list.last().1)
    } else {
        last_field_of(list.drop_last(), key)
    }
}

/// What a lookup list holds.
pub open spec fn pairs(list: Seq<(&str, &Json)>) -> Seq<(Seq<char>, Value)> {
    list.map_values(|p: (&str, &Json)| (p.0@, p.1.value()))
}

/// Whether no key stands twice in a list.
pub open spec fn distinct(list: Seq<(Seq<char>, Value)>) -> bool {
    forall|i: int, j: int| 0 <= i < j < list.len() ==> #[trigger] list[i].0 != #[trigger] list[j].0
}

#[verifier::spinoff_prover]
#[verifier::rlimit(40)]
proof fn lemma_field_of(list: Seq<(Seq<char>, Value)>, key: Seq<char>)
    ensures
        match field_of(list, key) {
            Some(v) => exists|i: int| 0 <= i < list.len() && #[trigger] list[i] == (key, v),
            None => forall|i: int| 0 <= i < list.len() ==> (#[trigger] list[i]).0 != key,
        },
    decreases list.len(),
{
    if list.len() > 0 {
        let rest = list.drop_first();
        lemma_field_of(rest, key);
        if list[0].0 == key {
            assert(list[0] == (key, list[0].1));
        } else {
            match field_of(rest, key) {
                Some(v) => {
                    let i = choose|i: int| 0 <= i < rest.len() && #[trigger] rest[i] == (key, v);
                    assert(list[i + 1] == (key, v));
                },
                None => {
                    assert forall|i: int| 0 <= i < list.len() implies (#[trigger] list[i]).0
                        != key by {
                        if i > 0 {
                            assert(rest[i - 1] == list[i]);
                        }
                    }
                },
            }
        }
    }
}

/// In a list without double keys, the field at any place is the one that is found.
proof fn lemma_field_there(list: Seq<(Seq<char>, Value)>, i: int)
    requires
        distinct(list),
        0 <= i < list.len(),
    ensures
        field_of(list, list[i].0) == Some(list[i].1),
{
    let key = list[i].0;
    lemma_field_of(list, key);
    if let Some(v) = field_of(list, key) {
        let j = choose|j: int| 0 <= j < list.len() && #[trigger] list[j] == (key, v);
        if j < i {
            assert(list[j].0 != list[i].0);
        } else if i < j {
            assert(list[i].0 != list[j].0);
        }
    }
}

/// Looks for a key in a lookup list.
fn find_key(list: &Vec<(&str, &Json)>, key: &str) -> (r: Option<usize>)
    ensures
        match r {
            Some(i) => i < list.len() && pairs(list@)[i as int].0 == key@,
            None => forall|i: int|
                0 <= i < list.len() ==> (#[trigger] pairs(list@)[i]).0 != key@,
        },
{
    let mut i: usize = 0;
    while i < list.len()
        invariant
            i <= list@.len(),
            forall|j: int| 0 <= j < i ==> (#[trigger] pairs(list@)[j]).0 != key@,
        decreases list@.len() - i,
    {
        if same_text(list[i].0, key) {
            return Some(i);
        }
        i = i + 1;
    }
    None
}

#[verifier::spinoff_prover]
#[verifier::rlimit(40)]
proof fn lemma_pairs_step(
    old_pairs: Seq<(Seq<char>, Value)>,
    new_pairs: Seq<(Seq<char>, Value)>,
    at: int,
    entry: (Seq<char>, Value),
    key: Seq<char>,
)
    requires
        distinct(old_pairs),
        distinct(new_pairs),
        0 <= at <= old_pairs.len(),
        new_pairs == (if at < old_pairs.len() {
            old_pairs.update(at, entry)
        } else {
            old_pairs.push(entry)
        }),
        at < old_pairs.len() ==> old_pairs[at].0 == entry.0,
    ensures
        field_of(new_pairs, key) == (if key == entry.0 {
            Some(entry.1)
        } else {
            field_of(old_pairs, key)
        }),
{
    lemma_field_of(old_pairs, key);
    lemma_field_of(new_pairs, key);
    assert(new_pairs[at] == entry);
    if key == entry.0 {
        lemma_field_there(new_pairs, at);
    } else {
        match field_of(old_pairs, key) {
            Some(v) => {
                let i = choose|i: int|
                    0 <= i < old_pairs.len() && #[trigger] old_pairs[i] == (key, v);
                assert(new_pairs[i] == (key, v));
                lemma_field_there(new_pairs, i);
            },
            None => {
                if let Some(v) = field_of(new_pairs, key) {
                    let i = choose|i: int|
                        0 <= i < new_pairs.len() && #[trigger] new_pairs[i] == (key, v);
                    assert(old_pairs[i] == (key, v));
                }
            },
        }
    }
}

/// Convenience helper: builds a small lookup list from an object's fields, with each key once.
/// Where a key stands twice in the object, its last value counts.
pub fn object_map(obj: &Json) -> (r: Option<Vec<(&str, &Json)>>)
    ensures
        match (r, obj.value()) {
            (Some(list), Value::Object(all)) => distinct(pairs(list@)) && forall|key: Seq<char>|
                #[trigger] field_of(pairs(list@), key) == last_field_of(all, key),
            (None, Value::Object(_)) => false,
            (Some(_), _) => false,
            (None, _) => true,
        },
{
    match obj {
        Json::Object(entries) => {
            let ghost all = fields(entries@);
            let mut list: Vec<(&str, &Json)> = Vec::new();
            let mut i: usize = 0;
            proof {
                lemma_fields(entries@);
                assert(all.take(0) =~= seq![]);
                assert(pairs(list@) =~= seq![]);
            }
            while i < entries.len()
                invariant
                    i <= entries@.len(),
                    all == fields(entries@),
                    all.len() == entries@.len(),
                    forall|j: int|
                        0 <= j < entries@.len() ==> #[trigger] all[j] == (
                            entries@[j].0@,
                            entries@[j].1.value(),
                        ),
                    distinct(pairs(list@)),
                    forall|key: Seq<char>| #[trigger]
                        field_of(pairs(list@), key) == last_field_of(all.take(i as int), key),
                decreases entries@.len() - i,
            {
                let key = entries[i].0.as_str();
                let value = &entries[i].1;
                let ghost before = pairs(list@);
                let ghost entry = all[i as int];
                let ghost mut at: int = list@.len() as int;
                match find_key(&list, key) {
                    Some(k) => {
                        list.set(k, (key, value));
                        proof {
                            at = k as int;
                            assert(pairs(list@) =~= before.update(at, entry));
                        }
                    },
                    None => {
                        list.push((key, value));
                        assert(pairs(list@) =~= before.push(entry));
                    },
                }
                proof {
                    let now = pairs(list@);
                    assert(distinct(now)) by {
                        assert forall|x: int, y: int| 0 <= x < y < now.len() implies #[trigger] now[x].0
                            != #[trigger] now[y].0 by {
                            if x < before.len() && y < before.len() {
                                assert(before[x].0 != before[y].0);
                            } else {
                                assert(before[x].0 != entry.0);
                            }
                        }
                    }
                    assert(all.take(i + 1).last() == entry);
                    assert(all.take(i + 1).drop_last() =~= all.take(i as int));
                    assert forall|k: Seq<char>| #[trigger]
                        field_of(now, k) == last_field_of(all.take(i + 1), k) by {
                        lemma_pairs_step(before, now, at, entry, k);
                        assert(field_of(before, k) == last_field_of(all.take(i as int), k));
                    }
                }
                i = i + 1;
            }
            assert(all.take(i as int) =~= all);
            Some(list)
        },
        _ => None,
    }
}

/// Every simple escape is resolved wherever it stands in a text, and so is what follows it.
pub proof fn law_escape_resolved(b: Seq<u8>, pos: int)
    requires
        0 <= pos,
        pos + 1 < b.len(),
        b[pos] == 0x5c,
        escaped(b[pos + 1]) is Some,
    ensures
        string_at(b, pos) == text_before(seq![escaped(b[pos + 1])->0], string_at(b, pos + 2)),
{
}

/// A surrogate escape without its counterpart gives the replacement character and takes nothing
/// else with it: what follows it is read as it is anywhere else.
pub proof fn law_lone_surrogate(b: Seq<u8>, pos: int, code: int)
    requires
        0 <= pos,
        pos + 1 < b.len(),
        b[pos] == 0x5c,
        b[pos + 1] == 0x75,
        hex_at(b, pos + 2, 4, 0) == Ok::<(int, int), Flaw>((code, pos + 6)),
        0xD800 <= code <= 0xDFFF,
        !(code <= 0xDBFF && byte_is(b, pos + 6, 0x5c) && byte_is(b, pos + 7, 0x75) && (hex_at(
            b,
            pos + 8,
            4,
            0,
        ) matches Ok((low, _)) && 0xDC00 <= low <= 0xDFFF)),
    ensures
        string_at(b, pos) == text_before(seq![replacement()], string_at(b, pos + 6)),
{
    lemma_hex_within(b, pos + 2, 4, 0);
}

proof fn lemma_hex_within(b: Seq<u8>, pos: int, n: int, value: int)
    requires
        hex_at(b, pos, n, value) is Ok,
        n >= 0,
    ensures
        hex_at(b, pos, n, value)->Ok_0.1 == pos + n,
        n > 0 ==> pos + n <= b.len(),
    decreases n,
{
    if n > 0 {
        lemma_hex_within(b, pos + 1, n - 1, value * 16 + hex_value(b[pos]));
    }
}

/// A text without quotes and backslashes stands for itself between quotes.
#[verifier::spinoff_prover]
#[verifier::rlimit(40)]
pub proof fn law_plain_string(before: Seq<u8>, text: Seq<char>, after: Seq<u8>)
    requires
        forall|i: int| 0 <= i < text.len() ==> #[trigger] text[i] != '"' && text[i] != '\\',
    ensures
        string_at(before + encode_utf8(text) + seq![0x22u8] + after, before.len() as int) == Ok::<
            (Seq<char>, int),
            Flaw,
        >((text, (before.len() + encode_utf8(text).len() + 1) as int)),
{
    let run = encode_utf8(text);
    let b = before + run + seq![0x22u8] + after;
    let pos = before.len() as int;
    let end = pos + run.len();
    crate::text::lemma_utf8_lacks(text, '"');
    crate::text::lemma_utf8_lacks(text, '\\');
    crate::text::lemma_as_text(text);
    assert(b[end] == 0x22);
    assert(string_at(b, end) == Ok::<(Seq<char>, int), Flaw>((seq![], end + 1)));
    if run.len() == 0 {
        assert(run =~= Seq::<u8>::empty());
        assert(encode_utf8(Seq::<char>::empty()) =~= Seq::<u8>::empty());
        crate::text::lemma_as_text(Seq::empty());
        assert(text =~= seq![]);
    } else {
        assert forall|k: int| pos <= k < end implies #[trigger] b[k] != 0x22 && b[k] != 0x5c by {
            assert(b[k] == run[k - pos]);
        }
        lemma_run_end(b, pos, end);
        assert(b.subrange(pos, end) =~= run);
        assert(text + Seq::<char>::empty() =~= text);
    }
}

proof fn lemma_run_end(b: Seq<u8>, pos: int, end: int)
    requires
        pos <= end < b.len(),
        b[end] == 0x22 || b[end] == 0x5c,
        forall|k: int| pos <= k < end ==> #[trigger] b[k] != 0x22 && b[k] != 0x5c,
    ensures
        run_end(b, pos) == end,
    decreases end - pos,
{
    if pos < end {
        lemma_run_end(b, pos + 1, end);
    }
}

} // verus!
