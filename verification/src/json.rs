//! The interchange format: a small JSON dialect (null, integers, strings,
//! arrays, objects) with a verified printer and parser.
//!
//! The printer emits a canonical text: no whitespace, integers in decimal,
//! strings with the short escapes plus `\u00XX` for the other control
//! characters.  The parser is lenient: it also accepts whitespace between
//! tokens, the common string escapes, `\uXXXX` for any Basic Multilingual
//! Plane scalar, and object keys in any order.  Parsing the canonical text of a value yields the value back;
//! `lemma_parse_print` states this and the codec builds its round-trip law
//! on it.

use vstd::prelude::*;

verus! {

broadcast use vstd::seq::group_seq_axioms, vstd::std_specs::vec::group_vec_axioms;

/// An executable document tree.
#[derive(Debug)]
pub enum Json {
    Null,
    Int(i64),
    Str(String),
    Arr(Vec<Json>),
    Obj(Vec<(String, Json)>),
}

/// Mathematical view of a `Json` tree.
#[verifier::ext_equal]
pub ghost enum JsonV {
    Null,
    Int(i64),
    Str(Seq<char>),
    Arr(Seq<JsonV>),
    Obj(Seq<(Seq<char>, JsonV)>),
}

/// Views of a sequence of trees.
pub open spec fn seq_view(l: Seq<Json>) -> Seq<JsonV>
    decreases l,
{
    Seq::new(l.len(), |i: int| if 0 <= i < l.len() { l[i]@ } else { JsonV::Null })
}

/// Views of a sequence of keyed members.
pub open spec fn members_view(l: Seq<(String, Json)>) -> Seq<(Seq<char>, JsonV)>
    decreases l,
{
    Seq::new(
        l.len(),
        |i: int| if 0 <= i < l.len() {
            (l[i].0@, l[i].1@)
        } else {
            (Seq::empty(), JsonV::Null)
        },
    )
}

impl View for Json {
    type V = JsonV;

    open spec fn view(&self) -> JsonV
        decreases self,
    {
        match self {
            Json::Null => JsonV::Null,
            Json::Int(i) => JsonV::Int(*i),
            Json::Str(s) => JsonV::Str(s@),
            Json::Arr(v) => JsonV::Arr(seq_view(v@)),
            Json::Obj(m) => JsonV::Obj(members_view(m@)),
        }
    }
}

impl DeepView for Json {
    type V = JsonV;

    open spec fn deep_view(&self) -> JsonV {
        self.view()
    }
}

// ---------------------------------------------------------------------------
// Printing
// ---------------------------------------------------------------------------

/// How one character is written inside a quoted string.
pub open spec fn esc_char(c: char) -> Seq<char> {
    if c == '"' {
        seq!['\\', '"']
    } else if c == '\\' {
        seq!['\\', '\\']
    } else if c == '\n' {
        seq!['\\', 'n']
    } else if c == '\r' {
        seq!['\\', 'r']
    } else if c == '\t' {
        seq!['\\', 't']
    } else if (c as u32) < 0x20 {
        seq![
            '\\',
            'u',
            '0',
            '0',
            hex_digit_char((c as u32) as int / 16),
            hex_digit_char((c as u32) as int % 16),
        ]
    } else {
        seq![c]
    }
}

/// The body of a quoted string: each character escaped as needed.
pub open spec fn esc(s: Seq<char>) -> Seq<char>
    decreases s.len(),
{
    if s.len() == 0 {
        Seq::empty()
    } else {
        esc_char(s[0]) + esc(s.drop_first())
    }
}

/// The decimal digit character for `d` (0 through 9).
pub open spec fn digit_char(d: int) -> char {
    if d == 0 { '0' }
    else if d == 1 { '1' }
    else if d == 2 { '2' }
    else if d == 3 { '3' }
    else if d == 4 { '4' }
    else if d == 5 { '5' }
    else if d == 6 { '6' }
    else if d == 7 { '7' }
    else if d == 8 { '8' }
    else { '9' }
}

/// Decimal digits of a nonnegative integer, most significant first.
pub open spec fn dec_digits(n: int) -> Seq<char>
    recommends n >= 0,
    decreases n,
{
    if n < 10 {
        seq![digit_char(n)]
    } else {
        dec_digits(n / 10) + seq![digit_char(n % 10)]
    }
}

/// Decimal text of an integer, with a leading minus sign when negative.
pub open spec fn print_int(i: int) -> Seq<char> {
    if i < 0 {
        seq!['-'] + dec_digits(-i)
    } else {
        dec_digits(i)
    }
}

/// Canonical text of a value.
pub open spec fn print_json(j: JsonV) -> Seq<char>
    decreases j,
{
    match j {
        JsonV::Null => seq!['n', 'u', 'l', 'l'],
        JsonV::Int(i) => print_int(i as int),
        JsonV::Str(s) => seq!['"'] + esc(s) + seq!['"'],
        JsonV::Arr(l) => seq!['['] + print_items(l) + seq![']'],
        JsonV::Obj(m) => seq!['{'] + print_members(m) + seq!['}'],
    }
}

/// Canonical text of array elements, comma separated.
pub open spec fn print_items(l: Seq<JsonV>) -> Seq<char>
    decreases l,
{
    if l.len() == 0 {
        Seq::empty()
    } else if l.len() == 1 {
        print_json(l[0])
    } else {
        print_json(l[0]) + seq![','] + print_items(l.drop_first())
    }
}

/// Canonical text of object members, comma separated.
pub open spec fn print_members(m: Seq<(Seq<char>, JsonV)>) -> Seq<char>
    decreases m,
{
    if m.len() == 0 {
        Seq::empty()
    } else {
        let head = seq!['"'] + esc(m[0].0) + seq!['"', ':'] + print_json(m[0].1);
        if m.len() == 1 {
            head
        } else {
            head + seq![','] + print_members(m.drop_first())
        }
    }
}

// ---------------------------------------------------------------------------
// Parsing
// ---------------------------------------------------------------------------

/// Whitespace the parser skips between tokens.
pub open spec fn is_ws(c: char) -> bool {
    c == ' ' || c == '\n' || c == '\r' || c == '\t'
}

/// `s` without its leading whitespace.
pub open spec fn skip_ws(s: Seq<char>) -> Seq<char>
    decreases s.len(),
{
    if s.len() > 0 && is_ws(s[0]) {
        skip_ws(s.drop_first())
    } else {
        s
    }
}

pub open spec fn is_digit(c: char) -> bool {
    c == '0' || c == '1' || c == '2' || c == '3' || c == '4'
    || c == '5' || c == '6' || c == '7' || c == '8' || c == '9'
}

/// The value of a decimal digit character.
pub open spec fn digit_val(c: char) -> int {
    if c == '0' { 0 }
    else if c == '1' { 1 }
    else if c == '2' { 2 }
    else if c == '3' { 3 }
    else if c == '4' { 4 }
    else if c == '5' { 5 }
    else if c == '6' { 6 }
    else if c == '7' { 7 }
    else if c == '8' { 8 }
    else { 9 }
}

/// The longest prefix of `s` made of decimal digits.
pub open spec fn digits_prefix(s: Seq<char>) -> Seq<char>
    decreases s.len(),
{
    if s.len() > 0 && is_digit(s[0]) {
        seq![s[0]] + digits_prefix(s.drop_first())
    } else {
        Seq::empty()
    }
}

/// The integer a digit sequence denotes.
pub open spec fn digits_val(ds: Seq<char>) -> int
    decreases ds.len(),
{
    if ds.len() == 0 {
        0
    } else {
        digits_val(ds.drop_last()) * 10 + digit_val(ds.last())
    }
}

/// Whether a character is a hexadecimal digit, either case.
pub open spec fn is_hex_digit(c: char) -> bool {
    ||| is_digit(c)
    ||| c == 'a' || c == 'b' || c == 'c' || c == 'd' || c == 'e' || c == 'f'
    ||| c == 'A' || c == 'B' || c == 'C' || c == 'D' || c == 'E' || c == 'F'
}

/// The value of a hexadecimal digit character.
pub open spec fn hex_val(c: char) -> int {
    if is_digit(c) { digit_val(c) }
    else if c == 'a' || c == 'A' { 10 }
    else if c == 'b' || c == 'B' { 11 }
    else if c == 'c' || c == 'C' { 12 }
    else if c == 'd' || c == 'D' { 13 }
    else if c == 'e' || c == 'E' { 14 }
    else { 15 }
}

/// The lowercase hexadecimal digit character for `d` (0 through 15).
pub open spec fn hex_digit_char(d: int) -> char {
    if d < 10 { digit_char(d) }
    else if d == 10 { 'a' }
    else if d == 11 { 'b' }
    else if d == 12 { 'c' }
    else if d == 13 { 'd' }
    else if d == 14 { 'e' }
    else { 'f' }
}

/// Whether `v` is a Unicode scalar value, the value of some character.
pub open spec fn is_scalar_value(v: u32) -> bool {
    v < 0xd800 || (0xe000 <= v && v < 0x110000)
}

/// The character a string escape denotes, if the escape is accepted.
pub open spec fn unesc_char(c: char) -> Option<char> {
    if c == '"' { Some('"') }
    else if c == '\\' { Some('\\') }
    else if c == '/' { Some('/') }
    else if c == 'n' { Some('\n') }
    else if c == 'r' { Some('\r') }
    else if c == 't' { Some('\t') }
    else if c == 'b' { Some('\u{8}') }
    else if c == 'f' { Some('\u{c}') }
    else { None }
}

/// Parses the body of a quoted string after the opening quote, up to and
/// including the closing quote.  Returns the string and the remaining text.
pub open spec fn parse_str_body(s: Seq<char>) -> Option<(Seq<char>, Seq<char>)>
    decreases s.len(),
{
    if s.len() == 0 {
        None
    } else if s[0] == '"' {
        Some((Seq::empty(), s.drop_first()))
    } else if s[0] == '\\' {
        if s.len() >= 2 && s[1] == 'u' {
            if s.len() >= 6 && is_hex_digit(s[2]) && is_hex_digit(s[3]) && is_hex_digit(s[4])
                && is_hex_digit(s[5]) {
                let v = (hex_val(s[2]) * 4096 + hex_val(s[3]) * 256 + hex_val(s[4]) * 16
                    + hex_val(s[5])) as u32;
                if is_scalar_value(v) {
                    match parse_str_body(s.subrange(6, s.len() as int)) {
                        Some((t, rest)) => Some((seq![v as char] + t, rest)),
                        None => None,
                    }
                } else {
                    None
                }
            } else {
                None
            }
        } else if s.len() >= 2 {
            match unesc_char(s[1]) {
                Some(c) => match parse_str_body(s.subrange(2, s.len() as int)) {
                    Some((t, rest)) => Some((seq![c] + t, rest)),
                    None => None,
                },
                None => None,
            }
        } else {
            None
        }
    } else {
        match parse_str_body(s.drop_first()) {
            Some((t, rest)) => Some((seq![s[0]] + t, rest)),
            None => None,
        }
    }
}

/// Parses a decimal integer (optional minus sign, one or more digits) into
/// a 64-bit value; rejects values outside the 64-bit range.
pub open spec fn parse_int(s: Seq<char>) -> Option<(JsonV, Seq<char>)> {
    if s.len() > 0 && s[0] == '-' {
        let ds = digits_prefix(s.drop_first());
        if ds.len() == 0 {
            None
        } else if digits_val(ds) <= 0x8000_0000_0000_0000 {
            Some((JsonV::Int((-digits_val(ds)) as i64), s.subrange(1 + ds.len() as int, s.len() as int)))
        } else {
            None
        }
    } else {
        let ds = digits_prefix(s);
        if ds.len() == 0 {
            None
        } else if digits_val(ds) <= 0x7fff_ffff_ffff_ffff {
            Some((JsonV::Int(digits_val(ds) as i64), s.subrange(ds.len() as int, s.len() as int)))
        } else {
            None
        }
    }
}

/// Parses one value.  Expects the value to start at `s[0]` (no leading
/// whitespace).  Returns the value and the remaining text.
pub open spec fn parse_value(s: Seq<char>) -> Option<(JsonV, Seq<char>)>
    decreases s.len(), 2int,
{
    if s.len() == 0 {
        None
    } else if s[0] == 'n' {
        if s.len() >= 4 && s.subrange(0, 4) == seq!['n', 'u', 'l', 'l'] {
            Some((JsonV::Null, s.subrange(4, s.len() as int)))
        } else {
            None
        }
    } else if s[0] == '"' {
        match parse_str_body(s.drop_first()) {
            Some((t, rest)) => Some((JsonV::Str(t), rest)),
            None => None,
        }
    } else if s[0] == '[' {
        let t = skip_ws(s.drop_first());
        if t.len() > 0 && t[0] == ']' {
            Some((JsonV::Arr(Seq::empty()), t.drop_first()))
        } else if t.len() < s.len() {
            match parse_items(t) {
                Some((l, rest)) => Some((JsonV::Arr(l), rest)),
                None => None,
            }
        } else {
            None
        }
    } else if s[0] == '{' {
        let t = skip_ws(s.drop_first());
        if t.len() > 0 && t[0] == '}' {
            Some((JsonV::Obj(Seq::empty()), t.drop_first()))
        } else if t.len() < s.len() {
            match parse_members(t) {
                Some((m, rest)) => Some((JsonV::Obj(m), rest)),
                None => None,
            }
        } else {
            None
        }
    } else if s[0] == '-' || is_digit(s[0]) {
        parse_int(s)
    } else {
        None
    }
}

/// Parses one or more comma-separated array elements followed by `]`.
/// Expects the first element to start at `s[0]`.
pub open spec fn parse_items(s: Seq<char>) -> Option<(Seq<JsonV>, Seq<char>)>
    decreases s.len(), 3int,
{
    match parse_value(s) {
        None => None,
        Some((v, r)) => {
            let r1 = skip_ws(r);
            if r1.len() == 0 {
                None
            } else if r1[0] == ']' {
                Some((seq![v], r1.drop_first()))
            } else if r1[0] == ',' {
                let r2 = skip_ws(r1.drop_first());
                if r2.len() < s.len() {
                    match parse_items(r2) {
                        Some((l, rest)) => Some((seq![v] + l, rest)),
                        None => None,
                    }
                } else {
                    None
                }
            } else {
                None
            }
        },
    }
}

/// Parses one or more comma-separated `"key": value` members followed by
/// `}`.  Expects the first key's opening quote at `s[0]`.
pub open spec fn parse_members(s: Seq<char>) -> Option<(Seq<(Seq<char>, JsonV)>, Seq<char>)>
    decreases s.len(), 3int,
{
    if s.len() == 0 || s[0] != '"' {
        None
    } else {
        match parse_str_body(s.drop_first()) {
            None => None,
            Some((k, r)) => {
                let r1 = skip_ws(r);
                if r1.len() == 0 || r1[0] != ':' {
                    None
                } else {
                    let r2 = skip_ws(r1.drop_first());
                    if r2.len() < s.len() {
                        match parse_value(r2) {
                            None => None,
                            Some((v, r3)) => {
                                let r4 = skip_ws(r3);
                                if r4.len() == 0 {
                                    None
                                } else if r4[0] == '}' {
                                    Some((seq![(k, v)], r4.drop_first()))
                                } else if r4[0] == ',' {
                                    let r5 = skip_ws(r4.drop_first());
                                    if r5.len() < s.len() {
                                        match parse_members(r5) {
                                            Some((m, rest)) => Some((seq![(k, v)] + m, rest)),
                                            None => None,
                                        }
                                    } else {
                                        None
                                    }
                                } else {
                                    None
                                }
                            },
                        }
                    } else {
                        None
                    }
                }
            },
        }
    }
}

/// The value under the first member with key `k`, if any.
pub open spec fn obj_get(m: Seq<(Seq<char>, JsonV)>, k: Seq<char>) -> Option<JsonV>
    decreases m.len(),
{
    if m.len() == 0 {
        None
    } else if m[0].0 == k {
        Some(m[0].1)
    } else {
        obj_get(m.drop_first(), k)
    }
}

/// Parses a complete document: one value with optional surrounding
/// whitespace and nothing after it.
pub open spec fn parse_doc(s: Seq<char>) -> Option<JsonV> {
    match parse_value(skip_ws(s)) {
        None => None,
        Some((v, rest)) => {
            if skip_ws(rest).len() == 0 {
                Some(v)
            } else {
                None
            }
        },
    }
}

// ---------------------------------------------------------------------------
// The printer's text parses back to the printed value
// ---------------------------------------------------------------------------

/// Skipping whitespace does nothing when the text does not start with any.
pub proof fn lemma_skip_ws_nop(s: Seq<char>)
    requires
        s.len() == 0 || !is_ws(s[0]),
    ensures
        skip_ws(s) == s,
{
}

/// An escaped string body followed by a closing quote parses back to the
/// original string.
pub proof fn lemma_parse_esc(s: Seq<char>, rest: Seq<char>)
    ensures
        parse_str_body(esc(s) + seq!['"'] + rest) == Some((s, rest)),
    decreases s.len(),
{
    let input = esc(s) + seq!['"'] + rest;
    if s.len() == 0 {
        assert(input =~= seq!['"'] + rest);
        assert(input.drop_first() =~= rest);
    } else {
        let c = s[0];
        let tail = s.drop_first();
        assert(esc(s) == esc_char(c) + esc(tail));
        lemma_parse_esc(tail, rest);
        if c == '"' || c == '\\' || c == '\n' || c == '\r' || c == '\t' {
            assert(esc_char(c).len() == 2 && esc_char(c)[0] == '\\');
            assert(input[0] == '\\');
            assert(input[1] == esc_char(c)[1]);
            assert(unesc_char(esc_char(c)[1]) == Some(c));
            assert(input.subrange(2, input.len() as int) =~= esc(tail) + seq!['"'] + rest);
            assert(seq![c] + tail =~= s);
        } else if (c as u32) < 0x20 {
            let hi = (c as u32) as int / 16;
            let lo = (c as u32) as int % 16;
            assert(esc_char(c).len() == 6);
            assert(input[0] == '\\');
            assert(input[1] == 'u');
            assert(input[2] == '0');
            assert(input[3] == '0');
            assert(input[4] == hex_digit_char(hi));
            assert(input[5] == hex_digit_char(lo));
            assert(0 <= hi < 2 && 0 <= lo < 16);
            assert(is_hex_digit(hex_digit_char(hi)) && hex_val(hex_digit_char(hi)) == hi);
            assert(is_hex_digit(hex_digit_char(lo)) && hex_val(hex_digit_char(lo)) == lo);
            assert(is_hex_digit('0') && hex_val('0') == 0);
            let v = (hex_val(input[2]) * 4096 + hex_val(input[3]) * 256 + hex_val(input[4]) * 16
                + hex_val(input[5])) as u32;
            assert(hi * 16 + lo == c as u32);
            assert(v == c as u32);
            assert(is_scalar_value(v));
            vstd::utf8::char_u32_cast(c, v);
            assert(v as char == c);
            assert(input.subrange(6, input.len() as int) =~= esc(tail) + seq!['"'] + rest);
            assert(seq![c] + tail =~= s);
        } else {
            assert(esc_char(c) =~= seq![c]);
            assert(input[0] == c);
            assert(input.drop_first() =~= esc(tail) + seq!['"'] + rest);
            assert(seq![c] + tail =~= s);
        }
    }
}

/// Decimal digit text is nonempty and made of digits only.
pub proof fn lemma_dec_digits_shape(n: int)
    requires
        n >= 0,
    ensures
        dec_digits(n).len() >= 1,
        forall|i: int| 0 <= i < dec_digits(n).len() ==> is_digit(#[trigger] dec_digits(n)[i]),
    decreases n,
{
    if n >= 10 {
        lemma_dec_digits_shape(n / 10);
    }
}

/// The longest digit prefix of digit text followed by non-digit text is
/// exactly the digit text.
pub proof fn lemma_digits_prefix(a: Seq<char>, b: Seq<char>)
    requires
        forall|i: int| 0 <= i < a.len() ==> is_digit(#[trigger] a[i]),
        b.len() == 0 || !is_digit(b[0]),
    ensures
        digits_prefix(a + b) == a,
    decreases a.len(),
{
    if a.len() == 0 {
        assert(a + b =~= b);
        assert(digits_prefix(b) =~= Seq::<char>::empty());
        assert(a =~= Seq::<char>::empty());
    } else {
        assert((a + b)[0] == a[0]);
        assert((a + b).drop_first() =~= a.drop_first() + b);
        lemma_digits_prefix(a.drop_first(), b);
        assert(seq![a[0]] + a.drop_first() =~= a);
    }
}

/// Reading the decimal digits of `n` yields `n` again.
pub proof fn lemma_digits_val_dec(n: int)
    requires
        n >= 0,
    ensures
        digits_val(dec_digits(n)) == n,
    decreases n,
{
    if n < 10 {
        let ds = dec_digits(n);
        assert(ds =~= seq![digit_char(n)]);
        assert(ds.drop_last() =~= Seq::<char>::empty());
        assert(digits_val(Seq::<char>::empty()) == 0);
        assert(ds.last() == digit_char(n));
        assert(digit_val(digit_char(n)) == n);
        assert(digits_val(ds) == digit_val(digit_char(n)));
    } else {
        lemma_digits_val_dec(n / 10);
        let ds = dec_digits(n);
        assert(ds =~= dec_digits(n / 10) + seq![digit_char(n % 10)]);
        assert(ds.drop_last() =~= dec_digits(n / 10));
        assert(ds.last() == digit_char(n % 10));
        assert(digit_val(digit_char(n % 10)) == n % 10);
        assert(digits_val(ds) == n / 10 * 10 + n % 10);
    }
}

/// The printed text of any value is nonempty and starts with a value's
/// opening character, which is neither whitespace nor a delimiter.
pub proof fn lemma_print_first(j: JsonV)
    ensures
        print_json(j).len() >= 1,
        !is_ws(print_json(j)[0]),
        print_json(j)[0] == 'n' || print_json(j)[0] == '"' || print_json(j)[0] == '['
            || print_json(j)[0] == '{' || print_json(j)[0] == '-' || is_digit(print_json(j)[0]),
{
    match j {
        JsonV::Int(i) => {
            if i < 0 {
                lemma_dec_digits_shape(-i as int);
            } else {
                lemma_dec_digits_shape(i as int);
                assert(print_json(j)[0] == dec_digits(i as int)[0]);
            }
        },
        _ => {},
    }
}

/// Printed integer text followed by non-digit text parses back to the
/// integer.
pub proof fn lemma_parse_print_int(i: i64, rest: Seq<char>)
    requires
        rest.len() == 0 || !is_digit(rest[0]),
    ensures
        parse_value(print_int(i as int) + rest) == Some((JsonV::Int(i), rest)),
{
    let input = print_int(i as int) + rest;
    if i < 0 {
        let n: int = -(i as int);
        lemma_dec_digits_shape(n);
        lemma_digits_val_dec(n);
        assert(input[0] == '-');
        assert(input.drop_first() =~= dec_digits(n) + rest);
        lemma_digits_prefix(dec_digits(n), rest);
        let ds = digits_prefix(input.drop_first());
        assert(ds == dec_digits(n));
        assert(digits_val(ds) == n);
        assert(n <= 0x8000_0000_0000_0000);
        assert((-digits_val(ds)) as i64 == i);
        assert(input.subrange(1 + ds.len() as int, input.len() as int) =~= rest);
    } else {
        let n: int = i as int;
        lemma_dec_digits_shape(n);
        lemma_digits_val_dec(n);
        assert(input[0] == dec_digits(n)[0]);
        assert(is_digit(input[0]));
        lemma_digits_prefix(dec_digits(n), rest);
        assert(digits_prefix(input) == dec_digits(n));
        let ds = digits_prefix(input);
        assert(digits_val(ds) == n);
        assert(digits_val(ds) as i64 == i);
        assert(input.subrange(ds.len() as int, input.len() as int) =~= rest);
    }
}

/// The canonical text of a value, followed by anything that does not start
/// with a digit, parses back to the value.
#[verifier::rlimit(100)]
pub proof fn lemma_parse_print(j: JsonV, rest: Seq<char>)
    requires
        rest.len() == 0 || !is_digit(rest[0]),
    ensures
        parse_value(print_json(j) + rest) == Some((j, rest)),
    decreases j, 0int,
{
    let input = print_json(j) + rest;
    match j {
        JsonV::Null => {
            assert(input[0] == 'n');
            assert(input.subrange(0, 4) =~= seq!['n', 'u', 'l', 'l']);
            assert(input.subrange(4, input.len() as int) =~= rest);
            assert(parse_value(input) == Some((j, rest)));
        },
        JsonV::Int(i) => {
            lemma_parse_print_int(i, rest);
            assert(print_json(j) =~= print_int(i as int));
            assert(input =~= print_int(i as int) + rest);
            assert(parse_value(input) == Some((j, rest)));
        },
        JsonV::Str(s) => {
            assert(input[0] == '"');
            assert(input.drop_first() =~= esc(s) + seq!['"'] + rest);
            lemma_parse_esc(s, rest);
            assert(parse_value(input) == Some((j, rest)));
        },
        JsonV::Arr(l) => {
            assert(input[0] == '[');
            if l.len() == 0 {
                assert(print_items(l) =~= Seq::<char>::empty());
                let t = input.drop_first();
                assert(t =~= seq![']'] + rest);
                assert(!is_ws(t[0]));
                lemma_skip_ws_nop(t);
                assert(t.drop_first() =~= rest);
                assert(l =~= Seq::<JsonV>::empty());
                assert(j =~= JsonV::Arr(Seq::<JsonV>::empty()));
            } else {
                let t = input.drop_first();
                assert(t =~= print_items(l) + seq![']'] + rest);
                lemma_print_first(l[0]);
                assert(print_items(l)[0] == print_json(l[0])[0]);
                assert(!is_ws(t[0]));
                lemma_skip_ws_nop(t);
                assert(t[0] == print_json(l[0])[0]);
                assert(t[0] != ']');
                assert(t.len() < input.len());
                lemma_parse_print_items(l, rest);
            }
            assert(parse_value(input) == Some((j, rest)));
        },
        JsonV::Obj(m) => {
            assert(input[0] == '{');
            if m.len() == 0 {
                assert(print_members(m) =~= Seq::<char>::empty());
                let t = input.drop_first();
                assert(t =~= seq!['}'] + rest);
                lemma_skip_ws_nop(t);
                assert(t.drop_first() =~= rest);
                assert(m =~= Seq::<(Seq<char>, JsonV)>::empty());
                assert(j =~= JsonV::Obj(Seq::<(Seq<char>, JsonV)>::empty()));
            } else {
                let t = input.drop_first();
                assert(t =~= print_members(m) + seq!['}'] + rest);
                assert(print_members(m)[0] == '"');
                assert(!is_ws(t[0]));
                lemma_skip_ws_nop(t);
                assert(t[0] != '}');
                assert(t.len() < input.len());
                lemma_parse_print_members(m, rest);
            }
            assert(parse_value(input) == Some((j, rest)));
        },
    }
}

/// The canonical text of one or more array elements, a closing bracket and
/// a tail parses back to the elements and the tail.
#[verifier::rlimit(100)]
pub proof fn lemma_parse_print_items(l: Seq<JsonV>, rest: Seq<char>)
    requires
        l.len() >= 1,
    ensures
        parse_items(print_items(l) + seq![']'] + rest) == Some((l, rest)),
    decreases l, 1int,
{
    let s = print_items(l) + seq![']'] + rest;
    if l.len() == 1 {
        assert(s =~= print_json(l[0]) + (seq![']'] + rest));
        lemma_parse_print(l[0], seq![']'] + rest);
        let r = (seq![']'] + rest);
        lemma_skip_ws_nop(r);
        assert(r[0] == ']');
        assert(r.drop_first() =~= rest);
        assert(seq![l[0]] =~= l);
    } else {
        let tail = l.drop_first();
        assert(decreases_to!(l => tail));
        let after0 = seq![','] + print_items(tail) + seq![']'] + rest;
        assert(s =~= print_json(l[0]) + after0);
        lemma_parse_print(l[0], after0);
        lemma_skip_ws_nop(after0);
        assert(after0[0] == ',');
        let r2in = after0.drop_first();
        assert(r2in =~= print_items(tail) + seq![']'] + rest);
        lemma_print_first(tail[0]);
        assert(print_items(tail)[0] == print_json(tail[0])[0]);
        assert(!is_ws(r2in[0]));
        lemma_skip_ws_nop(r2in);
        lemma_print_first(l[0]);
        assert(r2in.len() < s.len());
        lemma_parse_print_items(tail, rest);
        assert(seq![l[0]] + tail =~= l);
    }
}

/// The canonical text of one or more object members, a closing brace and a
/// tail parses back to the members and the tail.
#[verifier::rlimit(100)]
pub proof fn lemma_parse_print_members(m: Seq<(Seq<char>, JsonV)>, rest: Seq<char>)
    requires
        m.len() >= 1,
    ensures
        parse_members(print_members(m) + seq!['}'] + rest) == Some((m, rest)),
    decreases m, 1int,
{
    let s = print_members(m) + seq!['}'] + rest;
    let k = m[0].0;
    let v = m[0].1;
    assert(decreases_to!(m => m[0]));
    assert(decreases_to!(m[0] => m[0].1));
    let head = seq!['"'] + esc(k) + seq!['"', ':'] + print_json(v);
    if m.len() == 1 {
        assert(s =~= head + seq!['}'] + rest);
        assert(s[0] == '"');
        let after_quote = esc(k) + seq!['"'] + (seq![':'] + print_json(v) + seq!['}'] + rest);
        assert(s.drop_first() =~= after_quote);
        lemma_parse_esc(k, seq![':'] + print_json(v) + seq!['}'] + rest);
        let r = seq![':'] + print_json(v) + seq!['}'] + rest;
        lemma_skip_ws_nop(r);
        assert(r[0] == ':');
        let r2 = r.drop_first();
        assert(r2 =~= print_json(v) + (seq!['}'] + rest));
        lemma_print_first(v);
        lemma_skip_ws_nop(r2);
        assert(r2.len() < s.len());
        lemma_parse_print(v, seq!['}'] + rest);
        let r3 = seq!['}'] + rest;
        lemma_skip_ws_nop(r3);
        assert(r3[0] == '}');
        assert(r3.drop_first() =~= rest);
        assert(seq![(k, v)] =~= m);
    } else {
        let tail = m.drop_first();
        assert(decreases_to!(m => tail));
        assert(s =~= head + seq![','] + print_members(tail) + seq!['}'] + rest);
        assert(s[0] == '"');
        let afterv = seq![','] + print_members(tail) + seq!['}'] + rest;
        let after_colon = print_json(v) + afterv;
        let after_key = seq![':'] + after_colon;
        assert(s.drop_first() =~= esc(k) + seq!['"'] + after_key);
        lemma_parse_esc(k, after_key);
        lemma_skip_ws_nop(after_key);
        assert(after_key[0] == ':');
        let r2 = after_key.drop_first();
        assert(r2 =~= after_colon);
        lemma_print_first(v);
        lemma_skip_ws_nop(r2);
        assert(r2.len() < s.len());
        lemma_parse_print(v, afterv);
        lemma_skip_ws_nop(afterv);
        assert(afterv[0] == ',');
        let r5 = afterv.drop_first();
        assert(r5 =~= print_members(tail) + seq!['}'] + rest);
        assert(print_members(tail)[0] == '"');
        lemma_skip_ws_nop(r5);
        assert(r5.len() < s.len());
        lemma_parse_print_members(tail, rest);
        assert(seq![(k, v)] + tail =~= m);
    }
}

/// Escaping distributes over appending one character.
pub proof fn lemma_esc_push(s: Seq<char>, c: char)
    ensures
        esc(s.push(c)) == esc(s) + esc_char(c),
    decreases s.len(),
{
    if s.len() == 0 {
        assert(s.push(c) =~= seq![c]);
        assert(s.push(c)[0] == c);
        assert(s.push(c).drop_first() =~= Seq::<char>::empty());
        assert(esc(s.push(c).drop_first()) =~= Seq::<char>::empty());
        assert(esc(s.push(c)) =~= esc_char(c) + esc(s.push(c).drop_first()));
        assert(esc(s.push(c)) =~= esc_char(c));
        assert(esc(s) =~= Seq::<char>::empty());
        assert(esc(s) + esc_char(c) =~= esc_char(c));
    } else {
        assert(s.push(c)[0] == s[0]);
        assert(s.push(c).drop_first() =~= s.drop_first().push(c));
        lemma_esc_push(s.drop_first(), c);
        assert(esc(s.push(c)) =~= esc_char(s[0]) + (esc(s.drop_first()) + esc_char(c)));
        assert(esc_char(s[0]) + (esc(s.drop_first()) + esc_char(c)) =~= (esc_char(s[0]) + esc(
            s.drop_first(),
        )) + esc_char(c));
    }
}

/// Round trip of whole documents: parsing the canonical text of a value
/// yields the value.
pub proof fn lemma_parse_print_doc(j: JsonV)
    ensures
        parse_doc(print_json(j)) == Some(j),
{
    lemma_print_first(j);
    lemma_skip_ws_nop(print_json(j));
    assert(print_json(j) + Seq::<char>::empty() =~= print_json(j));
    lemma_parse_print(j, Seq::empty());
    lemma_skip_ws_nop(Seq::empty());
}

// ---------------------------------------------------------------------------
// Executable printer
// ---------------------------------------------------------------------------

/// Relies on `core::str::Chars` through `Iterator::collect`: collecting a
/// string's characters yields exactly the character sequence of the string.
#[verifier::external_body]
pub(crate) fn str_to_chars(s: &str) -> (r: Vec<char>)
    ensures
        r@ == s@,
{
    s.chars().collect()
}

/// Relies on `String`'s `FromIterator` impl through `Iterator::collect`:
/// collecting characters yields the string with exactly those characters.
#[verifier::external_body]
pub(crate) fn chars_to_string(v: &Vec<char>) -> (r: String)
    ensures
        r@ == v@,
{
    v.iter().collect()
}

/// The decimal digit character of `d`.
fn digit_to_char(d: u64) -> (c: char)
    requires
        d < 10,
    ensures
        c == digit_char(d as int),
{
    match d {
        0 => '0',
        1 => '1',
        2 => '2',
        3 => '3',
        4 => '4',
        5 => '5',
        6 => '6',
        7 => '7',
        8 => '8',
        _ => '9',
    }
}

/// Appends the decimal digits of `n` to `out`.
fn write_digits(n: u64, out: &mut Vec<char>)
    ensures
        final(out)@ == old(out)@ + dec_digits(n as int),
    decreases n,
{
    if n < 10 {
        out.push(digit_to_char(n));
        assert(out@ =~= old(out)@ + dec_digits(n as int));
    } else {
        write_digits(n / 10, out);
        out.push(digit_to_char(n % 10));
        assert(out@ =~= old(out)@ + dec_digits(n as int));
    }
}

/// Appends the decimal text of `i` to `out`.
pub(crate) fn write_int(i: i64, out: &mut Vec<char>)
    ensures
        final(out)@ == old(out)@ + print_int(i as int),
{
    if i < 0 {
        out.push('-');
        let mag: u64 = ((-(i + 1)) as u64) + 1;
        assert(mag == -(i as int));
        write_digits(mag, out);
        assert(out@ =~= old(out)@ + print_int(i as int));
    } else {
        write_digits(i as u64, out);
    }
}

fn hex_char_exec(d: u32) -> (r: char)
    requires
        d < 16,
    ensures
        r == hex_digit_char(d as int),
{
    if d == 0 { '0' }
    else if d == 1 { '1' }
    else if d == 2 { '2' }
    else if d == 3 { '3' }
    else if d == 4 { '4' }
    else if d == 5 { '5' }
    else if d == 6 { '6' }
    else if d == 7 { '7' }
    else if d == 8 { '8' }
    else if d == 9 { '9' }
    else if d == 10 { 'a' }
    else if d == 11 { 'b' }
    else if d == 12 { 'c' }
    else if d == 13 { 'd' }
    else if d == 14 { 'e' }
    else { 'f' }
}

/// Appends the escaped body of string `s` to `out`.
fn write_esc(s: &Vec<char>, out: &mut Vec<char>)
    ensures
        final(out)@ == old(out)@ + esc(s@),
{
    let ghost base = out@;
    let mut k: usize = 0;
    while k < s.len()
        invariant
            k <= s.len(),
            out@ == base + esc(s@.subrange(0, k as int)),
        decreases s.len() - k,
    {
        let c = s[k];
        if c == '"' || c == '\\' {
            out.push('\\');
            out.push(c);
        } else if c == '\n' {
            out.push('\\');
            out.push('n');
        } else if c == '\r' {
            out.push('\\');
            out.push('r');
        } else if c == '\t' {
            out.push('\\');
            out.push('t');
        } else if (c as u32) < 0x20 {
            out.push('\\');
            out.push('u');
            out.push('0');
            out.push('0');
            out.push(hex_char_exec((c as u32) / 16));
            out.push(hex_char_exec((c as u32) % 16));
        } else {
            out.push(c);
        }
        proof {
            lemma_esc_push(s@.subrange(0, k as int), c);
            assert(s@.subrange(0, k as int).push(c) =~= s@.subrange(0, k + 1 as int));
            assert(out@ =~= base + esc(s@.subrange(0, k + 1 as int)));
        }
        k = k + 1;
    }
    assert(s@.subrange(0, s@.len() as int) =~= s@);
}

/// Appends the quoted, escaped form of string `s` to `out`.
fn write_quoted(s: &str, out: &mut Vec<char>)
    ensures
        final(out)@ == old(out)@ + seq!['"'] + esc(s@) + seq!['"'],
{
    out.push('"');
    let cs = str_to_chars(s);
    write_esc(&cs, out);
    out.push('"');
}

/// Appends the canonical text of `j` to `out`.
pub fn write_json(j: &Json, out: &mut Vec<char>)
    ensures
        final(out)@ == old(out)@ + print_json(j.deep_view()),
    decreases j.deep_view(), 0int,
{
    match j {
        Json::Null => {
            out.push('n');
            out.push('u');
            out.push('l');
            out.push('l');
            assert(out@ =~= old(out)@ + print_json(j.deep_view()));
        },
        Json::Int(i) => {
            write_int(*i, out);
        },
        Json::Str(s) => {
            write_quoted(s.as_str(), out);
            assert(out@ =~= old(out)@ + print_json(j.deep_view()));
        },
        Json::Arr(v) => {
            out.push('[');
            let ghost l = seq_view(v@);
            proof {
                assert(j.deep_view() == JsonV::Arr(l));
                assert(l.skip(0) =~= l);
                assert(j.deep_view()->Arr_0 == l);
                assert(decreases_to!(j.deep_view() => j.deep_view()->Arr_0));
            }
            if v.len() > 0 {
                write_items(v, 0, out);
            }
            out.push(']');
            proof {
                if v.len() == 0 {
                    assert(l =~= Seq::<JsonV>::empty());
                    assert(print_items(l) =~= Seq::<char>::empty());
                }
                assert(out@ =~= old(out)@ + print_json(j.deep_view()));
            }
        },
        Json::Obj(m) => {
            out.push('{');
            let ghost mv = members_view(m@);
            proof {
                assert(j.deep_view() == JsonV::Obj(mv));
                assert(mv.skip(0) =~= mv);
                assert(j.deep_view()->Obj_0 == mv);
                assert(decreases_to!(j.deep_view() => j.deep_view()->Obj_0));
            }
            if m.len() > 0 {
                write_members(m, 0, out);
            }
            out.push('}');
            proof {
                if m.len() == 0 {
                    assert(mv =~= Seq::<(Seq<char>, JsonV)>::empty());
                    assert(print_members(mv) =~= Seq::<char>::empty());
                }
                assert(out@ =~= old(out)@ + print_json(j.deep_view()));
            }
        },
    }
}

/// Appends the canonical text of the elements `v[i..]`, comma separated.
fn write_items(v: &Vec<Json>, i: usize, out: &mut Vec<char>)
    requires
        i < v.len(),
    ensures
        final(out)@ == old(out)@ + print_items(seq_view(v@).skip(i as int)),
    decreases seq_view(v@).skip(i as int), 1int,
{
    let ghost l = seq_view(v@).skip(i as int);
    proof {
        assert(l[0] == seq_view(v@)[i as int]);
        assert(seq_view(v@)[i as int] == v@[i as int]@);
        assert(decreases_to!(l => l[0]));
    }
    write_json(&v[i], out);
    if i + 1 < v.len() {
        out.push(',');
        proof {
            assert(l.drop_first() =~= seq_view(v@).skip(i + 1 as int));
            assert(decreases_to!(l => l.subrange(1, l.len() as int)));
            assert(l.subrange(1, l.len() as int) == l.drop_first());
        }
        write_items(v, i + 1, out);
        assert(out@ =~= old(out)@ + print_items(l));
    } else {
        assert(l.len() == 1);
        assert(out@ =~= old(out)@ + print_items(l));
    }
}

/// Appends the canonical text of the members `m[i..]`, comma separated.
fn write_members(m: &Vec<(String, Json)>, i: usize, out: &mut Vec<char>)
    requires
        i < m.len(),
    ensures
        final(out)@ == old(out)@ + print_members(members_view(m@).skip(i as int)),
    decreases members_view(m@).skip(i as int), 1int,
{
    let ghost mv = members_view(m@).skip(i as int);
    proof {
        assert(mv[0] == members_view(m@)[i as int]);
        assert(members_view(m@)[i as int] == (m@[i as int].0@, m@[i as int].1@));
        assert(decreases_to!(mv => mv[0]));
        assert(decreases_to!(mv[0] => mv[0].1));
        assert(mv[0].1 == m@[i as int].1@);
    }
    write_quoted(m[i].0.as_str(), out);
    out.push(':');
    write_json(&m[i].1, out);
    if i + 1 < m.len() {
        out.push(',');
        proof {
            assert(mv.drop_first() =~= members_view(m@).skip(i + 1 as int));
            assert(decreases_to!(mv => mv.subrange(1, mv.len() as int)));
            assert(mv.subrange(1, mv.len() as int) == mv.drop_first());
        }
        write_members(m, i + 1, out);
        assert(out@ =~= old(out)@ + print_members(mv));
    } else {
        assert(mv.len() == 1);
        assert(out@ =~= old(out)@ + print_members(mv));
    }
}

/// The canonical text of a document tree.
pub fn to_text(j: &Json) -> (r: String)
    ensures
        r@ == print_json(j.deep_view()),
{
    let mut out: Vec<char> = Vec::new();
    write_json(j, &mut out);
    chars_to_string(&out)
}

// ---------------------------------------------------------------------------
// Executable parser
// ---------------------------------------------------------------------------

/// The text from position `i` on.
pub open spec fn suffix(s: Seq<char>, i: int) -> Seq<char> {
    s.subrange(i, s.len() as int)
}

/// A digit string denotes a nonnegative value.
proof fn lemma_digits_val_nonneg(ds: Seq<char>)
    ensures
        digits_val(ds) >= 0,
    decreases ds.len(),
{
    if ds.len() > 0 {
        lemma_digits_val_nonneg(ds.drop_last());
    }
}

/// A prefix of a digit string denotes no more than the whole string.
proof fn lemma_digits_val_mono(ds: Seq<char>, k: int)
    requires
        0 <= k <= ds.len(),
    ensures
        digits_val(ds.subrange(0, k)) <= digits_val(ds),
    decreases ds.len(),
{
    if k == ds.len() {
        assert(ds.subrange(0, k) =~= ds);
    } else {
        assert(ds.drop_last().subrange(0, k) =~= ds.subrange(0, k));
        lemma_digits_val_mono(ds.drop_last(), k);
        lemma_digits_val_nonneg(ds.drop_last());
        assert(digits_val(ds.drop_last()) * 10 >= digits_val(ds.drop_last()));
        assert(digit_val(ds.last()) >= 0);
    }
}

fn is_ws_c(c: char) -> (r: bool)
    ensures
        r == is_ws(c),
{
    c == ' ' || c == '\n' || c == '\r' || c == '\t'
}

fn is_digit_c(c: char) -> (r: bool)
    ensures
        r == is_digit(c),
{
    c == '0' || c == '1' || c == '2' || c == '3' || c == '4' || c == '5' || c == '6' || c == '7'
        || c == '8' || c == '9'
}

fn char_digit(c: char) -> (r: u64)
    requires
        is_digit(c),
    ensures
        r < 10,
        r == digit_val(c),
{
    if c == '0' { 0 }
    else if c == '1' { 1 }
    else if c == '2' { 2 }
    else if c == '3' { 3 }
    else if c == '4' { 4 }
    else if c == '5' { 5 }
    else if c == '6' { 6 }
    else if c == '7' { 7 }
    else if c == '8' { 8 }
    else { 9 }
}

fn unesc_c(c: char) -> (r: Option<char>)
    ensures
        r == unesc_char(c),
{
    if c == '"' { Some('"') }
    else if c == '\\' { Some('\\') }
    else if c == '/' { Some('/') }
    else if c == 'n' { Some('\n') }
    else if c == 'r' { Some('\r') }
    else if c == 't' { Some('\t') }
    else if c == 'b' { Some('\u{8}') }
    else if c == 'f' { Some('\u{c}') }
    else { None }
}

fn is_hex_c(c: char) -> (r: bool)
    ensures
        r == is_hex_digit(c),
{
    is_digit_c(c) || c == 'a' || c == 'b' || c == 'c' || c == 'd' || c == 'e' || c == 'f'
        || c == 'A' || c == 'B' || c == 'C' || c == 'D' || c == 'E' || c == 'F'
}

fn hex_val_c(c: char) -> (r: u32)
    requires
        is_hex_digit(c),
    ensures
        r < 16,
        r == hex_val(c),
{
    if is_digit_c(c) {
        char_digit(c) as u32
    } else if c == 'a' || c == 'A' {
        10
    } else if c == 'b' || c == 'B' {
        11
    } else if c == 'c' || c == 'C' {
        12
    } else if c == 'd' || c == 'D' {
        13
    } else if c == 'e' || c == 'E' {
        14
    } else {
        15
    }
}

/// Relies on `char::from_u32`: `Some` exactly for Unicode scalar values
/// (below 0x110000 and not a surrogate), carrying that value.
#[verifier::external_body]
fn char_from_u32(v: u32) -> (r: Option<char>)
    ensures
        r is Some <==> is_scalar_value(v),
        (match r {
            Some(c) => c as u32 == v,
            None => true,
        }),
{
    char::from_u32(v)
}

/// Advances past whitespace, returning the first non-whitespace position.
fn skip_ws_at(s: &Vec<char>, i: usize) -> (r: usize)
    requires
        i <= s@.len(),
    ensures
        i <= r <= s@.len(),
        suffix(s@, r as int) == skip_ws(suffix(s@, i as int)),
        r == s@.len() || !is_ws(s@[r as int]),
{
    let mut k: usize = i;
    while k < s.len() && is_ws_c(s[k])
        invariant
            i <= k <= s@.len(),
            skip_ws(suffix(s@, i as int)) == skip_ws(suffix(s@, k as int)),
        decreases s@.len() - k,
    {
        proof {
            assert(suffix(s@, k as int)[0] == s@[k as int]);
            assert(suffix(s@, k as int).drop_first() =~= suffix(s@, k + 1 as int));
        }
        k = k + 1;
    }
    proof {
        if k < s@.len() {
            assert(suffix(s@, k as int)[0] == s@[k as int]);
            assert(skip_ws(suffix(s@, k as int)) == suffix(s@, k as int));
        } else {
            assert(suffix(s@, k as int).len() == 0);
        }
    }
    k
}

/// Parses a quoted string body starting after the opening quote at `i`.
fn parse_str_body_at(s: &Vec<char>, i: usize) -> (r: Option<(Vec<char>, usize)>)
    requires
        i <= s@.len(),
    ensures
        (match r {
            Some((t, n)) => {
                &&& i <= n <= s@.len()
                &&& parse_str_body(suffix(s@, i as int)) == Some((t@, suffix(s@, n as int)))
            },
            None => parse_str_body(suffix(s@, i as int)) is None,
        }),
{
    let mut acc: Vec<char> = Vec::new();
    let mut k: usize = i;
    while k < s.len()
        invariant
            i <= k <= s@.len(),
            (parse_str_body(suffix(s@, i as int)) == (match parse_str_body(
                suffix(s@, k as int),
            ) {
                Some((t, rest)) => Some((acc@ + t, rest)),
                None => None,
            })),
        decreases s@.len() - k,
    {
        let c = s[k];
        proof {
            assert(suffix(s@, k as int)[0] == s@[k as int]);
        }
        if c == '"' {
            proof {
                assert(suffix(s@, k as int).drop_first() =~= suffix(s@, k + 1 as int));
                assert(acc@ + Seq::<char>::empty() =~= acc@);
            }
            return Some((acc, k + 1));
        } else if c == '\\' {
            if k + 1 >= s.len() {
                proof {
                    assert(suffix(s@, k as int).len() < 2);
                }
                return None;
            }
            let e = s[k + 1];
            proof {
                assert(suffix(s@, k as int)[1] == s@[k + 1 as int]);
            }
            if e == 'u' {
                if s.len() - k < 6 {
                    proof {
                        assert(suffix(s@, k as int).len() < 6);
                    }
                    return None;
                }
                let h2 = s[k + 2];
                let h3 = s[k + 3];
                let h4 = s[k + 4];
                let h5 = s[k + 5];
                proof {
                    assert(suffix(s@, k as int)[2] == s@[k + 2 as int]);
                    assert(suffix(s@, k as int)[3] == s@[k + 3 as int]);
                    assert(suffix(s@, k as int)[4] == s@[k + 4 as int]);
                    assert(suffix(s@, k as int)[5] == s@[k + 5 as int]);
                }
                if !(is_hex_c(h2) && is_hex_c(h3) && is_hex_c(h4) && is_hex_c(h5)) {
                    return None;
                }
                let v: u32 = hex_val_c(h2) * 4096 + hex_val_c(h3) * 256 + hex_val_c(h4) * 16
                    + hex_val_c(h5);
                proof {
                    assert(v == (hex_val(s@[k + 2 as int]) * 4096 + hex_val(s@[k + 3 as int])
                        * 256 + hex_val(s@[k + 4 as int]) * 16 + hex_val(
                        s@[k + 5 as int],
                    )) as u32);
                }
                match char_from_u32(v) {
                    None => {
                        return None;
                    },
                    Some(u) => {
                        proof {
                            let sk = suffix(s@, k as int);
                            assert(sk.subrange(6, sk.len() as int) =~= suffix(s@, k + 6 as int));
                            vstd::utf8::char_u32_cast(u, v);
                            assert(u == v as char);
                        }
                        acc.push(u);
                        proof {
                            match parse_str_body(suffix(s@, k + 6 as int)) {
                                Some((t2, r2)) => {
                                    assert(acc@.drop_last() + (seq![u] + t2) =~= acc@ + t2);
                                },
                                None => {},
                            }
                        }
                        k = k + 6;
                    },
                }
            } else {
                match unesc_c(e) {
                    None => {
                        return None;
                    },
                    Some(u) => {
                        proof {
                            let sk = suffix(s@, k as int);
                            assert(sk.subrange(2, sk.len() as int) =~= suffix(s@, k + 2 as int));
                        }
                        acc.push(u);
                        proof {
                            match parse_str_body(suffix(s@, k + 2 as int)) {
                                Some((t2, r2)) => {
                                    assert(acc@.drop_last() + (seq![u] + t2) =~= acc@ + t2);
                                },
                                None => {},
                            }
                        }
                        k = k + 2;
                    },
                }
            }
        } else {
            proof {
                let sk = suffix(s@, k as int);
                assert(sk.drop_first() =~= suffix(s@, k + 1 as int));
            }
            acc.push(c);
            proof {
                match parse_str_body(suffix(s@, k + 1 as int)) {
                    Some((t2, r2)) => {
                        assert(acc@.drop_last() + (seq![c] + t2) =~= acc@ + t2);
                    },
                    None => {},
                }
            }
            k = k + 1;
        }
    }
    proof {
        assert(suffix(s@, k as int).len() == 0);
    }
    None
}

/// Parses a decimal integer at `i`: an optional minus sign and digits.
#[verifier::loop_isolation(false)]
fn parse_int_at(s: &Vec<char>, i: usize) -> (r: Option<(i64, usize)>)
    requires
        i <= s@.len(),
    ensures
        (match r {
            Some((value, n)) => {
                &&& i <= n <= s@.len()
                &&& parse_int(suffix(s@, i as int)) == Some(
                    (JsonV::Int(value), suffix(s@, n as int)),
                )
            },
            None => parse_int(suffix(s@, i as int)) is None,
        }),
{
    let ghost si = suffix(s@, i as int);
    let neg = i < s.len() && s[i] == '-';
    proof {
        if i < s@.len() {
            assert(si[0] == s@[i as int]);
        }
    }
    let p: usize = if neg { i + 1 } else { i };
    let ghost sp = suffix(s@, p as int);
    proof {
        if neg {
            assert(si.drop_first() =~= sp);
        }
    }
    // Find the end of the digit run.
    let mut q: usize = p;
    while q < s.len() && is_digit_c(s[q])
        invariant
            p <= q <= s@.len(),
            forall|t: int| p <= t < q ==> is_digit(#[trigger] s@[t]),
        decreases s@.len() - q,
    {
        q = q + 1;
    }
    let ghost ds = s@.subrange(p as int, q as int);
    proof {
        assert(sp =~= ds + suffix(s@, q as int));
        assert(forall|t: int| 0 <= t < ds.len() ==> is_digit(#[trigger] ds[t]));
        lemma_digits_prefix(ds, suffix(s@, q as int));
        assert(digits_prefix(sp) == ds);
    }
    if q == p {
        proof {
            assert(ds.len() == 0);
        }
        return None;
    }
    let limit: u64 = if neg { 0x8000_0000_0000_0000 } else { 0x7fff_ffff_ffff_ffff };
    // Accumulate the value, rejecting anything beyond the 64-bit range.
    let mut val: u64 = 0;
    let mut k: usize = p;
    while k < q
        invariant
            p <= k <= q <= s@.len(),
            forall|t: int| p <= t < q ==> is_digit(#[trigger] s@[t]),
            ds == s@.subrange(p as int, q as int),
            val == digits_val(s@.subrange(p as int, k as int)),
            val <= limit,
            limit == if neg { 0x8000_0000_0000_0000u64 } else { 0x7fff_ffff_ffff_ffffu64 },
        decreases q - k,
    {
        let d = char_digit(s[k]);
        if val > (limit - d) / 10 {
            proof {
                let partial = s@.subrange(p as int, k + 1 as int);
                assert(partial.drop_last() =~= s@.subrange(p as int, k as int));
                assert(partial.last() == s@[k as int]);
                assert(digits_val(partial) == val * 10 + digit_val(s@[k as int]));
                assert(digits_val(partial) > limit);
                assert(partial =~= ds.subrange(0, k + 1 - p));
                lemma_digits_val_mono(ds, k + 1 - p);
                assert(digits_val(ds) > limit);
            }
            return None;
        }
        proof {
            let partial = s@.subrange(p as int, k + 1 as int);
            assert(partial.drop_last() =~= s@.subrange(p as int, k as int));
            assert(partial.last() == s@[k as int]);
        }
        val = val * 10 + d;
        k = k + 1;
    }
    proof {
        assert(s@.subrange(p as int, k as int) == ds);
        assert(digits_val(ds) == val);
    }
    if neg {
        let value: i64 = if val == 0x8000_0000_0000_0000 {
            i64::MIN
        } else {
            -(val as i64)
        };
        proof {
            assert(value == (-digits_val(ds)) as i64);
            assert(si.subrange(1 + ds.len() as int, si.len() as int) =~= suffix(s@, q as int));
        }
        Some((value, q))
    } else {
        proof {
            assert(digits_prefix(si) == ds);
            assert(si.subrange(ds.len() as int, si.len() as int) =~= suffix(s@, q as int));
        }
        Some((val as i64, q))
    }
}

/// Parses one value starting exactly at position `i`.
pub fn parse_value_at(s: &Vec<char>, i: usize) -> (r: Option<(Json, usize)>)
    requires
        i <= s@.len(),
    ensures
        (match r {
            Some((j, n)) => {
                &&& i <= n <= s@.len()
                &&& parse_value(suffix(s@, i as int)) == Some((j@, suffix(s@, n as int)))
            },
            None => parse_value(suffix(s@, i as int)) is None,
        }),
    decreases s@.len() - i, 2int,
{
    let ghost si = suffix(s@, i as int);
    if i == s.len() {
        return None;
    }
    let c = s[i];
    proof {
        assert(si[0] == s@[i as int]);
    }
    if c == 'n' {
        if s.len() - i >= 4 && s[i + 1] == 'u' && s[i + 2] == 'l' && s[i + 3] == 'l' {
            proof {
                assert(si.subrange(0, 4) =~= seq!['n', 'u', 'l', 'l']);
                assert(si.subrange(4, si.len() as int) =~= suffix(s@, i + 4 as int));
            }
            Some((Json::Null, i + 4))
        } else {
            proof {
                if si.len() >= 4 {
                    assert(si[1] == s@[i + 1 as int]);
                    assert(si[2] == s@[i + 2 as int]);
                    assert(si[3] == s@[i + 3 as int]);
                    assert(si.subrange(0, 4)[1] == si[1]);
                    assert(si.subrange(0, 4)[2] == si[2]);
                    assert(si.subrange(0, 4)[3] == si[3]);
                    assert(si.subrange(0, 4) != seq!['n', 'u', 'l', 'l']);
                }
            }
            None
        }
    } else if c == '"' {
        proof {
            assert(si.drop_first() =~= suffix(s@, i + 1 as int));
        }
        match parse_str_body_at(s, i + 1) {
            Some((t, n)) => {
                let st = chars_to_string(&t);
                Some((Json::Str(st), n))
            },
            None => None,
        }
    } else if c == '[' {
        proof {
            assert(si.drop_first() =~= suffix(s@, i + 1 as int));
        }
        let t_pos = skip_ws_at(s, i + 1);
        if t_pos < s.len() && s[t_pos] == ']' {
            proof {
                let t = suffix(s@, t_pos as int);
                assert(t[0] == s@[t_pos as int]);
                assert(t.drop_first() =~= suffix(s@, t_pos + 1 as int));
                assert(seq_view(Seq::<Json>::empty()) =~= Seq::<JsonV>::empty());
            }
            let items: Vec<Json> = Vec::new();
            proof {
                assert(items@ =~= Seq::<Json>::empty());
            }
            Some((Json::Arr(items), t_pos + 1))
        } else {
            proof {
                let t = suffix(s@, t_pos as int);
                if t_pos < s@.len() {
                    assert(t[0] == s@[t_pos as int]);
                }
                assert(t.len() < si.len());
            }
            match parse_items_at(s, t_pos) {
                Some((items, n)) => Some((Json::Arr(items), n)),
                None => None,
            }
        }
    } else if c == '{' {
        proof {
            assert(si.drop_first() =~= suffix(s@, i + 1 as int));
        }
        let t_pos = skip_ws_at(s, i + 1);
        if t_pos < s.len() && s[t_pos] == '}' {
            proof {
                let t = suffix(s@, t_pos as int);
                assert(t[0] == s@[t_pos as int]);
                assert(t.drop_first() =~= suffix(s@, t_pos + 1 as int));
                assert(members_view(Seq::<(String, Json)>::empty()) =~= Seq::<
                    (Seq<char>, JsonV),
                >::empty());
            }
            let members: Vec<(String, Json)> = Vec::new();
            proof {
                assert(members@ =~= Seq::<(String, Json)>::empty());
            }
            Some((Json::Obj(members), t_pos + 1))
        } else {
            proof {
                let t = suffix(s@, t_pos as int);
                if t_pos < s@.len() {
                    assert(t[0] == s@[t_pos as int]);
                }
                assert(t.len() < si.len());
            }
            match parse_members_at(s, t_pos) {
                Some((members, n)) => Some((Json::Obj(members), n)),
                None => None,
            }
        }
    } else if c == '-' || is_digit_c(c) {
        match parse_int_at(s, i) {
            Some((value, n)) => Some((Json::Int(value), n)),
            None => None,
        }
    } else {
        None
    }
}

/// Parses one or more comma-separated elements and the closing bracket,
/// starting at the first element.
fn parse_items_at(s: &Vec<char>, i: usize) -> (r: Option<(Vec<Json>, usize)>)
    requires
        i <= s@.len(),
    ensures
        (match r {
            Some((l, n)) => {
                &&& i <= n <= s@.len()
                &&& parse_items(suffix(s@, i as int)) == Some((seq_view(l@), suffix(s@, n as int)))
            },
            None => parse_items(suffix(s@, i as int)) is None,
        }),
    decreases s@.len() - i, 3int,
{
    let ghost si = suffix(s@, i as int);
    match parse_value_at(s, i) {
        None => None,
        Some((v, n)) => {
            let r1 = skip_ws_at(s, n);
            if r1 == s.len() {
                return None;
            }
            let c = s[r1];
            proof {
                assert(suffix(s@, r1 as int)[0] == s@[r1 as int]);
            }
            if c == ']' {
                proof {
                    let t = suffix(s@, r1 as int);
                    assert(t.drop_first() =~= suffix(s@, r1 + 1 as int));
                }
                let mut out: Vec<Json> = Vec::new();
                out.push(v);
                proof {
                    assert(seq_view(out@) =~= seq![out@[0]@]);
                }
                Some((out, r1 + 1))
            } else if c == ',' {
                proof {
                    assert(suffix(s@, r1 as int).drop_first() =~= suffix(s@, r1 + 1 as int));
                }
                let r2 = skip_ws_at(s, r1 + 1);
                if r2 <= i {
                    return None;
                }
                match parse_items_at(s, r2) {
                    None => None,
                    Some((rest_items, n2)) => {
                        let mut out = rest_items;
                        out.insert(0, v);
                        proof {
                            assert(seq_view(out@) =~= seq![v@] + seq_view(out@.drop_first()));
                            assert(out@.drop_first() =~= out@.subrange(1, out@.len() as int));
                            assert(seq_view(out@.drop_first()) =~= seq_view(
                                out@.subrange(1, out@.len() as int),
                            ));
                        }
                        Some((out, n2))
                    },
                }
            } else {
                None
            }
        },
    }
}

/// Parses one or more comma-separated `"key": value` members and the
/// closing brace, starting at the first key's opening quote.
fn parse_members_at(s: &Vec<char>, i: usize) -> (r: Option<(Vec<(String, Json)>, usize)>)
    requires
        i <= s@.len(),
    ensures
        (match r {
            Some((m, n)) => {
                &&& i <= n <= s@.len()
                &&& parse_members(suffix(s@, i as int)) == Some(
                    (members_view(m@), suffix(s@, n as int)),
                )
            },
            None => parse_members(suffix(s@, i as int)) is None,
        }),
    decreases s@.len() - i, 3int,
{
    let ghost si = suffix(s@, i as int);
    if i == s.len() {
        return None;
    }
    let c0 = s[i];
    proof {
        assert(si[0] == s@[i as int]);
    }
    if c0 != '"' {
        return None;
    }
    proof {
        assert(si.drop_first() =~= suffix(s@, i + 1 as int));
    }
    match parse_str_body_at(s, i + 1) {
        None => None,
        Some((kchars, kp)) => {
            let key = chars_to_string(&kchars);
            let r1 = skip_ws_at(s, kp);
            if r1 == s.len() {
                return None;
            }
            let c1 = s[r1];
            proof {
                assert(suffix(s@, r1 as int)[0] == s@[r1 as int]);
            }
            if c1 != ':' {
                return None;
            }
            proof {
                assert(suffix(s@, r1 as int).drop_first() =~= suffix(s@, r1 + 1 as int));
            }
            let r2 = skip_ws_at(s, r1 + 1);
            if r2 <= i {
                return None;
            }
            match parse_value_at(s, r2) {
                None => None,
                Some((v, vp)) => {
                    let r4 = skip_ws_at(s, vp);
                    if r4 == s.len() {
                        return None;
                    }
                    let c2 = s[r4];
                    proof {
                        assert(suffix(s@, r4 as int)[0] == s@[r4 as int]);
                    }
                    if c2 == '}' {
                        proof {
                            assert(suffix(s@, r4 as int).drop_first() =~= suffix(
                                s@,
                                r4 + 1 as int,
                            ));
                        }
                        let mut out: Vec<(String, Json)> = Vec::new();
                        out.push((key, v));
                        proof {
                            assert(members_view(out@) =~= seq![(out@[0].0@, out@[0].1@)]);
                        }
                        Some((out, r4 + 1))
                    } else if c2 == ',' {
                        proof {
                            assert(suffix(s@, r4 as int).drop_first() =~= suffix(
                                s@,
                                r4 + 1 as int,
                            ));
                        }
                        let r5 = skip_ws_at(s, r4 + 1);
                        if r5 <= i {
                            return None;
                        }
                        match parse_members_at(s, r5) {
                            None => None,
                            Some((rest_members, n2)) => {
                                let mut out = rest_members;
                                out.insert(0, (key, v));
                                proof {
                                    assert(out@.drop_first() =~= out@.subrange(
                                        1,
                                        out@.len() as int,
                                    ));
                                    assert(members_view(out@) =~= seq![(out@[0].0@, out@[0].1@)]
                                        + members_view(out@.drop_first()));
                                }
                                Some((out, n2))
                            },
                        }
                    } else {
                        None
                    }
                },
            }
        },
    }
}

/// Parses a complete document from text: one value, optionally surrounded
/// by whitespace; anything else after the value is an error.
pub fn parse_text(text: &str) -> (r: Option<Json>)
    ensures
        (match r {
            Some(j) => parse_doc(text@) == Some(j@),
            None => parse_doc(text@) is None,
        }),
{
    let cs = str_to_chars(text);
    proof {
        assert(suffix(cs@, 0) =~= cs@);
    }
    let start = skip_ws_at(&cs, 0);
    match parse_value_at(&cs, start) {
        None => None,
        Some((j, n)) => {
            let e = skip_ws_at(&cs, n);
            if e == cs.len() {
                proof {
                    assert(suffix(cs@, e as int).len() == 0);
                }
                Some(j)
            } else {
                proof {
                    assert(suffix(cs@, e as int).len() > 0);
                }
                None
            }
        },
    }
}

} // verus!
