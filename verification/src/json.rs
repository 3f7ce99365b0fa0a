//! Reading one number out of a JSON response.

use vstd::prelude::*;
use lite_json::JsonValue;
use vstd::string::StringSliceAdditionalSpecFns;
use vstd::string::StrSliceExecFns;
use crate::decimal::{converted, NumberValue};
use crate::value::{NumberType, PrimitiveOracleType};

verus! {

/// One member of a JSON object: its name, and its number where its value is
/// one.
#[derive(Clone, Debug, PartialEq, Eq)]
pub struct JsonMember {
    pub key: Vec<char>,
    pub number: Option<NumberValue>,
}

/// As much of a parsed JSON text as the oracle reads: the members of the
/// object at its root, in the order of the text.
#[derive(Clone, Debug, PartialEq, Eq)]
pub enum JsonDocument {
    /// The root is an object.
    Object(Vec<JsonMember>),
    /// The root is anything else.
    Other,
}

/// The mathematical content of a [`JsonDocument`].
pub enum JsonShape {
    Object(Seq<(Seq<char>, Option<NumberValue>)>),
    Other,
}

/// The names and numbers of `members`, in their order.
pub open spec fn member_views(members: Seq<JsonMember>) -> Seq<(Seq<char>, Option<NumberValue>)> {
    Seq::new(members.len(), |i: int| (members[i].key@, members[i].number))
}

impl View for JsonDocument {
    type V = JsonShape;

    open spec fn view(&self) -> JsonShape {
        match self {
            JsonDocument::Object(members) => JsonShape::Object(member_views(members@)),
            JsonDocument::Other => JsonShape::Other,
        }
    }
}

/// The content of a parse result; a text that is no JSON has none.
pub open spec fn shape_of(doc: Option<JsonDocument>) -> Option<JsonShape> {
    match doc {
        Some(d) => Some(d@),
        None => None,
    }
}

/// What `lite_json::parse_json` makes of a text: nothing where the text is no
/// JSON, else the members of the object at the root.
pub uninterp spec fn parsed_json(text: Seq<char>) -> Option<JsonShape>;

/// Whether `b` is an ASCII digit.
pub open spec fn is_digit(b: u8) -> bool {
    0x30 <= b <= 0x39
}

/// Whether every byte of `bytes` from `from` up to `to` is a digit.
pub open spec fn all_digits(bytes: Seq<u8>, from: int, to: int) -> bool {
    forall|k: int| from <= k < to ==> is_digit(#[trigger] bytes[k])
}

/// Whether `b` is the letter that starts an exponent, `e` or `E`.
pub open spec fn is_exponent_letter(b: u8) -> bool {
    b == 0x65 || b == 0x45
}

/// Whether `b` is a sign, `+` or `-`.
pub open spec fn is_sign(b: u8) -> bool {
    b == 0x2b || b == 0x2d
}

/// Whether the digits that start at `i` would be read as an exponent: a
/// digit and then `e` or `E` stand before them, with or without a sign
/// between the letter and them.
pub open spec fn after_exponent_mark(bytes: Seq<u8>, i: int) -> bool {
    ||| i >= 2 && is_exponent_letter(bytes[i - 1]) && is_digit(bytes[i - 2])
    ||| i >= 3 && is_sign(bytes[i - 1]) && is_exponent_letter(bytes[i - 2]) && is_digit(
        bytes[i - 3],
    )
}

/// Whether the digits that start at `i` would be read as a fraction: a point
/// stands before them.
pub open spec fn after_point(bytes: Seq<u8>, i: int) -> bool {
    i >= 1 && bytes[i - 1] == 0x2e
}

/// The largest number that the digits from `i` on may spell: what a signed
/// 32-bit integer holds in an exponent, what an unsigned 64-bit integer holds
/// in a fraction, and what a signed 64-bit integer holds elsewhere.
pub open spec fn run_limit(bytes: Seq<u8>, i: int) -> int {
    if after_point(bytes, i) {
        0xffff_ffff_ffff_ffff
    } else if after_exponent_mark(bytes, i) {
        0x7fff_ffff
    } else {
        0x7fff_ffff_ffff_ffff
    }
}

/// The number that the digits of `bytes` from `from` up to `to` spell;
/// leading zeros add nothing.
pub open spec fn run_value(bytes: Seq<u8>, from: int, to: int) -> int
    decreases to - from,
{
    if to <= from {
        0
    } else {
        run_value(bytes, from, to - 1) * 10 + (bytes[to - 1] - 0x30)
    }
}

/// Whether a run of digits can start at `i`: no digit stands before.
pub open spec fn starts_run(bytes: Seq<u8>, i: int) -> bool {
    i == 0 || !is_digit(bytes[i - 1])
}

/// Where a reader of string literals stands.
#[derive(Clone, Copy, Debug, PartialEq, Eq, Structural)]
pub enum Lex {
    /// Not in a string literal.
    Outside,
    /// In a string literal.
    Inside,
    /// In a string literal, behind a backslash.
    Escaped,
}

/// Where the reader stands behind the byte `b`. A quote opens a literal and
/// closes it, unless a backslash stands before it in the literal.
pub open spec fn lex_step(state: Lex, b: u8) -> Lex {
    match state {
        Lex::Outside => if b == 0x22 {
            Lex::Inside
        } else {
            Lex::Outside
        },
        Lex::Inside => if b == 0x5c {
            Lex::Escaped
        } else if b == 0x22 {
            Lex::Outside
        } else {
            Lex::Inside
        },
        Lex::Escaped => Lex::Inside,
    }
}

/// Where the reader stands before the byte at `i`, having started outside
/// at the front of `bytes`.
pub open spec fn lex_state(bytes: Seq<u8>, i: int) -> Lex
    decreases i,
{
    if i <= 0 {
        Lex::Outside
    } else {
        lex_step(lex_state(bytes, i - 1), bytes[i - 1])
    }
}

/// Whether every byte is an ASCII character.
pub open spec fn is_ascii_text(bytes: Seq<u8>) -> bool {
    forall|k: int| 0 <= k < bytes.len() ==> #[trigger] bytes[k] < 0x80
}

/// Whether digits at `i` may be read as a number: in a text of ASCII, only
/// outside string literals; in a text with other characters, anywhere.
pub open spec fn read_as_number(bytes: Seq<u8>, i: int) -> bool {
    !is_ascii_text(bytes) || lex_state(bytes, i) == Lex::Outside
}

/// Whether every number in `bytes` is small enough to be read: wherever
/// digits may be read as a number, they spell no more than [`run_limit`].
pub open spec fn numbers_fit(bytes: Seq<u8>) -> bool {
    forall|i: int, j: int|
        0 <= i <= j <= bytes.len() && starts_run(bytes, i) && #[trigger] all_digits(bytes, i, j)
            && read_as_number(bytes, i) ==> run_value(bytes, i, j) <= run_limit(bytes, i)
}

/// The longest text that is parsed, in bytes.
pub const MAX_TEXT_LEN: usize = 0x7fff_ffff;

fn digit(b: u8) -> (r: bool)
    ensures
        r == is_digit(b),
{
    0x30 <= b && b <= 0x39
}

fn exponent_letter(b: u8) -> (r: bool)
    ensures
        r == is_exponent_letter(b),
{
    b == 0x65 || b == 0x45
}

fn sign(b: u8) -> (r: bool)
    ensures
        r == is_sign(b),
{
    b == 0x2b || b == 0x2d
}

fn step(state: Lex, b: u8) -> (r: Lex)
    ensures
        r == lex_step(state, b),
{
    match state {
        Lex::Outside => if b == 0x22 {
            Lex::Inside
        } else {
            Lex::Outside
        },
        Lex::Inside => if b == 0x5c {
            Lex::Escaped
        } else if b == 0x22 {
            Lex::Outside
        } else {
            Lex::Inside
        },
        Lex::Escaped => Lex::Inside,
    }
}

/// The largest number that digits starting at `i` may spell.
fn limit_at(bytes: &[u8], i: usize) -> (r: u128)
    requires
        i <= bytes.len(),
    ensures
        r == run_limit(bytes@, i as int),
{
    if i >= 1 && bytes[i - 1] == 0x2e {
        0xffff_ffff_ffff_ffff
    } else if (i >= 2 && exponent_letter(bytes[i - 1]) && digit(bytes[i - 2])) || (i >= 3 && sign(
        bytes[i - 1],
    ) && exponent_letter(bytes[i - 2]) && digit(bytes[i - 3])) {
        0x7fff_ffff
    } else {
        0x7fff_ffff_ffff_ffff
    }
}

/// Decides [`is_ascii_text`].
pub fn check_ascii(bytes: &[u8]) -> (r: bool)
    ensures
        r == is_ascii_text(bytes@),
{
    let mut k: usize = 0;
    while k < bytes.len()
        invariant
            k <= bytes.len(),
            forall|j: int| 0 <= j < k ==> #[trigger] bytes@[j] < 0x80,
        decreases bytes.len() - k,
    {
        if bytes[k] >= 0x80 {
            return false;
        }
        k = k + 1;
    }
    true
}

/// Decides [`numbers_fit`].
pub fn check_numbers_fit(bytes: &[u8]) -> (ok: bool)
    ensures
        ok == numbers_fit(bytes@),
{
    let ascii: bool = check_ascii(bytes);
    let mut state: Lex = Lex::Outside;
    let mut start: usize = 0;
    let mut read: bool = true;
    let mut limit: u128 = 0;
    let mut value: u128 = 0;
    let mut k: usize = 0;
    while k < bytes.len()
        invariant
            start <= k <= bytes.len(),
            ascii == is_ascii_text(bytes@),
            state == lex_state(bytes@, k as int),
            all_digits(bytes@, start as int, k as int),
            starts_run(bytes@, start as int),
            start < k ==> read == read_as_number(bytes@, start as int) && limit == run_limit(
                bytes@,
                start as int,
            ) && (read ==> value == run_value(bytes@, start as int, k as int) && value <= limit),
            limit <= 0xffff_ffff_ffff_ffff,
            forall|i: int, j: int|
                0 <= i <= j <= k && starts_run(bytes@, i) && #[trigger] all_digits(bytes@, i, j)
                    && read_as_number(bytes@, i) ==> run_value(bytes@, i, j) <= run_limit(
                    bytes@,
                    i,
                ),
        decreases bytes.len() - k,
    {
        let b: u8 = bytes[k];
        if digit(b) {
            if start == k {
                read = !ascii || state == Lex::Outside;
                limit = limit_at(bytes, k);
                value = 0;
            }
            assert(all_digits(bytes@, start as int, k + 1));
            if read {
                value = value * 10 + (b - 0x30) as u128;
                assert(value == run_value(bytes@, start as int, k + 1));
                if value > limit {
                    return false;
                }
            }
            assert forall|i: int, j: int|
                0 <= i <= j <= k + 1 && starts_run(bytes@, i) && #[trigger] all_digits(
                    bytes@,
                    i,
                    j,
                ) && read_as_number(bytes@, i) implies run_value(bytes@, i, j) <= run_limit(
                bytes@,
                i,
            ) by {
                if j == k + 1 && i < j {
                    if i < start {
                        assert(is_digit(bytes@[start - 1]));
                    }
                    if i > start {
                        assert(is_digit(bytes@[i - 1]));
                    }
                }
            }
        } else {
            assert forall|i: int, j: int|
                0 <= i <= j <= k + 1 && starts_run(bytes@, i) && #[trigger] all_digits(
                    bytes@,
                    i,
                    j,
                ) && read_as_number(bytes@, i) implies run_value(bytes@, i, j) <= run_limit(
                bytes@,
                i,
            ) by {
                if j == k + 1 && i < j {
                    assert(is_digit(bytes@[k as int]));
                }
            }
            start = k + 1;
        }
        state = step(state, b);
        k = k + 1;
    }
    true
}

/// Trusted: `lite_json::parse_json`, with its result cut down to what the
/// oracle reads. The contract gives the result the name [`parsed_json`] and
/// claims nothing else of it.
///
/// The parser adds up the digits of an integer and of a fraction in 64 bits
/// and those of an exponent in 32 bits, negates a signed 64-bit integer, and
/// counts positions in 32 bits. The two conditions keep each of these in
/// range. It reads digits as a number only where a value may start; in a
/// text of ASCII that is never inside a string literal. In a text with other
/// characters it steps by characters and compares by bytes, so that what it
/// takes for a literal need not be one: there every run of digits is held to
/// its limit.
#[verifier::external_body]
pub(crate) fn parse_text(text: &str) -> (doc: Option<JsonDocument>)
    requires
        numbers_fit(text.spec_bytes()),
        text.spec_bytes().len() <= MAX_TEXT_LEN,
    ensures
        shape_of(doc) == parsed_json(text@),
{
    match lite_json::parse_json(text) {
        Ok(JsonValue::Object(members)) => Some(JsonDocument::Object(
            members.into_iter().map(|(key, value)| JsonMember {
                key,
                number: match value {
                    JsonValue::Number(n) => Some(NumberValue::new(n.integer, n.fraction, n.fraction_length, n.exponent)),
                    _ => None,
                },
            }).collect(),
        )),
        Ok(_) => Some(JsonDocument::Other),
        Err(_) => None,
    }
}

/// How many leading characters `key` and `path` have in common.
pub open spec fn common_prefix(key: Seq<char>, path: Seq<char>) -> nat
    decreases key.len(),
{
    if key.len() == 0 || path.len() == 0 || key[0] != path[0] {
        0
    } else {
        1 + common_prefix(key.skip(1), path.skip(1))
    }
}

/// Whether `key` is matched by `path`: every character of `key` equals the
/// character of `path` at the same place.
pub open spec fn key_matches(key: Seq<char>, path: Seq<char>) -> bool {
    common_prefix(key, path) == key.len()
}

/// How much of `path` is used up by holding `key` against it: the characters
/// up to and including the first one that differs.
pub open spec fn consumed(key: Seq<char>, path: Seq<char>) -> nat {
    let same = common_prefix(key, path);
    if same == key.len() || same == path.len() {
        same
    } else {
        same + 1
    }
}

/// The number found by holding the members from `i` on, one after another,
/// against what is left of `path` after its first `used` characters.
///
/// The path is read once from front to back: a member that does not match
/// uses up the characters it was compared with, and the next member is held
/// against the rest. The first member that matches decides: its number is
/// the result, and there is none if its value is no number.
pub open spec fn scan(
    members: Seq<(Seq<char>, Option<NumberValue>)>,
    path: Seq<char>,
    i: int,
    used: int,
) -> Option<NumberValue>
    decreases members.len() - i,
{
    if i < 0 || i >= members.len() || used < 0 || used > path.len() {
        None
    } else if key_matches(members[i].0, path.skip(used)) {
        members[i].1
    } else {
        scan(members, path, i + 1, used + consumed(members[i].0, path.skip(used)))
    }
}

/// The number that `path` selects in a document. Only the members of the
/// object at the root are looked at; a root that is no object holds nothing.
pub open spec fn extracted(doc: JsonShape, path: Seq<char>) -> Option<NumberValue> {
    match doc {
        JsonShape::Object(members) => scan(members, path, 0, 0),
        JsonShape::Other => None,
    }
}

/// The common prefix of `key` and of `path` from `from` on.
fn match_key(key: &Vec<char>, path: &[char], from: usize) -> (same: usize)
    requires
        from <= path.len(),
    ensures
        same == common_prefix(key@, path@.skip(from as int)),
        same <= key.len(),
        from + same <= path.len(),
{
    let mut j: usize = 0;
    assert(key@.skip(0) =~= key@);
    while j < key.len() && from + j < path.len() && key[j] == path[from + j]
        invariant
            j <= key.len(),
            from + j <= path.len(),
            common_prefix(key@, path@.skip(from as int)) == j + common_prefix(
                key@.skip(j as int),
                path@.skip(from + j),
            ),
        decreases key.len() - j,
    {
        proof {
            let k = key@.skip(j as int);
            let p = path@.skip(from + j);
            assert(k[0] == key@[j as int]);
            assert(p[0] == path@[from + j]);
            assert(k.skip(1) =~= key@.skip(j + 1));
            assert(p.skip(1) =~= path@.skip(from + j + 1));
        }
        j = j + 1;
    }
    proof {
        let k = key@.skip(j as int);
        let p = path@.skip(from + j);
        if j < key.len() && from + j < path.len() {
            assert(k[0] == key@[j as int]);
            assert(p[0] == path@[from + j]);
        }
        assert(common_prefix(k, p) == 0);
    }
    j
}

/// Finds the number that `path` selects among the members of the object at
/// the root of `document`.
pub fn extract(document: &JsonDocument, path: &[char]) -> (r: Option<NumberValue>)
    ensures
        r == extracted(document@, path@),
{
    match document {
        JsonDocument::Other => None,
        JsonDocument::Object(members) => {
            let ghost shape = member_views(members@);
            let mut used: usize = 0;
            let mut i: usize = 0;
            while i < members.len()
                invariant
                    i <= members.len(),
                    used <= path.len(),
                    shape == member_views(members@),
                    document@ == JsonShape::Object(shape),
                    scan(shape, path@, i as int, used as int) == scan(shape, path@, 0, 0),
                decreases members.len() - i,
            {
                let same: usize = match_key(&members[i].key, path, used);
                assert(shape[i as int] == (members@[i as int].key@, members@[i as int].number));
                assert(path@.skip(used as int).len() == path@.len() - used);
                assert(scan(shape, path@, i as int, used as int) == if key_matches(
                    shape[i as int].0,
                    path@.skip(used as int),
                ) {
                    shape[i as int].1
                } else {
                    scan(
                        shape,
                        path@,
                        i + 1,
                        used + consumed(shape[i as int].0, path@.skip(used as int)),
                    )
                });
                if same == members[i].key.len() {
                    return members[i].number;
                }
                if used + same < path.len() {
                    used = used + same + 1;
                } else {
                    used = used + same;
                }
                i = i + 1;
            }
            None
        },
    }
}

/// The value of representation `number_type` that `path` selects in a parse
/// result, where there is one.
pub open spec fn selected(doc: Option<JsonShape>, path: Seq<char>, kind: NumberType) -> Option<
    PrimitiveOracleType,
> {
    match doc {
        Some(shape) => match extracted(shape, path) {
            Some(number) => converted(number, kind),
            None => None,
        },
        None => None,
    }
}

/// Extracts the number that `path` selects in a parse result and converts it
/// to the representation `number_type`.
pub fn select(doc: &Option<JsonDocument>, path: &[char], number_type: NumberType) -> (r: Option<
    PrimitiveOracleType,
>)
    ensures
        r == selected(shape_of(*doc), path@, number_type),
{
    match doc {
        Some(document) => match extract(document, path) {
            Some(number) => PrimitiveOracleType::from_number_value(number, number_type),
            None => None,
        },
        None => None,
    }
}

/// Whether a text is handed to the parser: it is not longer than
/// [`MAX_TEXT_LEN`] bytes and its numbers fit.
pub open spec fn parseable(text: &str) -> bool {
    text.spec_bytes().len() <= MAX_TEXT_LEN && numbers_fit(text.spec_bytes())
}

/// The characters of `text`.
pub fn chars_of(text: &str) -> (r: Vec<char>)
    ensures
        r@ == text@,
{
    let n: usize = text.unicode_len();
    let mut out: Vec<char> = Vec::new();
    let mut i: usize = 0;
    while i < n
        invariant
            i <= n,
            n == text@.len(),
            out@ == text@.take(i as int),
        decreases n - i,
    {
        out.push(text.get_char(i));
        assert(text@.take(i + 1) =~= text@.take(i as int).push(text@[i as int]));
        i = i + 1;
    }
    assert(text@.take(n as int) =~= text@);
    out
}

/// Parses `data` as JSON, finds the member that `key_str` selects and
/// converts its number to the representation `number_type`.
///
/// There is no value where `data` is not [`parseable`], is no JSON, has no
/// object at its root, has no member that matches, or where the member that
/// matches holds no number or a number without a value in `number_type`.
pub fn parse_data(key_str: &str, number_type: NumberType, data: &str) -> (r: Option<
    PrimitiveOracleType,
>)
    ensures
        r == (if parseable(data) {
            selected(parsed_json(data@), key_str@, number_type)
        } else {
            None
        }),
{
    let bytes = data.as_bytes();
    if bytes.len() > MAX_TEXT_LEN || !check_numbers_fit(bytes) {
        return None;
    }
    let doc = parse_text(data);
    let path = chars_of(key_str);
    select(&doc, path.as_slice(), number_type)
}

} // verus!
