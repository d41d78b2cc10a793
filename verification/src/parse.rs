use vstd::prelude::*;

use crate::error::ParseError;
use crate::model::ValueView;
use crate::Number;
use crate::Value;
use crate::{push_char, str_chars};
use vstd::string::StringSliceAdditionalSpecFns;
use vstd::utf8::{encode_scalar, encode_utf8};

verus! {

/// Everything a parsing function can hand back.
pub type ParseResult<T> = Result<T, ParseError>;

/// Relies on `char::from_u32`: `Some` exactly for Unicode scalar values
/// (not a surrogate, at most 0x10FFFF), and then the character with that
/// code point.
pub assume_specification[ char::from_u32 ](i: u32) -> (r: Option<char>)
    ensures
        r is Some <==> (i < 0xD800 || (0xE000 <= i && i <= 0x10FFFF)),
        r matches Some(c) ==> c == i as char,
;

/// The numeric value of a hexadecimal digit, either case, or `None`.
pub open spec fn spec_hex_value(c: char) -> Option<u16> {
    if '0' <= c && c <= '9' {
        Some((c as u32 - '0' as u32) as u16)
    } else if 'a' <= c && c <= 'f' {
        Some((c as u32 - 'a' as u32 + 10) as u16)
    } else if 'A' <= c && c <= 'F' {
        Some((c as u32 - 'A' as u32 + 10) as u16)
    } else {
        None
    }
}

/// Convert a hexadecimal character into its value.
pub fn hex_value(chr: char) -> (r: Option<u16>)
    ensures
        r == spec_hex_value(chr),
{
    if chr >= '0' && chr <= '9' {
        Some((chr as u32 - '0' as u32) as u16)
    } else if chr >= 'a' && chr <= 'f' {
        Some((chr as u32 - 'a' as u32 + 10) as u16)
    } else if chr >= 'A' && chr <= 'F' {
        Some((chr as u32 - 'A' as u32 + 10) as u16)
    } else {
        None
    }
}

/// Read four hex digits from the front of `s` into one 16-bit code unit,
/// in the order the characters stand: a missing digit is `UnexpectedEOF`,
/// a present non-digit is `InvalidHex`.
pub open spec fn spec_hex4_value(s: Seq<char>) -> Result<u16, ParseError> {
    if s.len() == 0 {
        Err(ParseError::UnexpectedEOF)
    } else if spec_hex_value(s[0]) is None {
        Err(ParseError::InvalidHex)
    } else if s.len() == 1 {
        Err(ParseError::UnexpectedEOF)
    } else if spec_hex_value(s[1]) is None {
        Err(ParseError::InvalidHex)
    } else if s.len() == 2 {
        Err(ParseError::UnexpectedEOF)
    } else if spec_hex_value(s[2]) is None {
        Err(ParseError::InvalidHex)
    } else if s.len() == 3 {
        Err(ParseError::UnexpectedEOF)
    } else if spec_hex_value(s[3]) is None {
        Err(ParseError::InvalidHex)
    } else {
        Ok(
            (spec_hex_value(s[0])->0 * 4096 + spec_hex_value(s[1])->0 * 256 + spec_hex_value(
                s[2],
            )->0 * 16 + spec_hex_value(s[3])->0) as u16,
        )
    }
}

/// Is this 16-bit code unit a lone surrogate, which is not a scalar value?
pub open spec fn is_surrogate(h: u16) -> bool {
    0xD800 <= h && h <= 0xDFFF
}

/// What one escape unit at the front of `s` (right after a backslash) means:
/// `Ok((c, k))` says the unit is `k` characters long and names `c`.
pub open spec fn spec_escape_unit(s: Seq<char>) -> Result<(char, int), ParseError> {
    if s.len() == 0 {
        Err(ParseError::UnexpectedEOF)
    } else if s[0] == 'u' {
        match spec_hex4_value(s.skip(1)) {
            Err(e) => Err(e),
            Ok(h) => if is_surrogate(h) {
                Err(ParseError::InvalidEscapeSequence)
            } else {
                Ok((((h as u32) as char), 5))
            },
        }
    } else if s[0] == 'f' {
        Ok(('\u{c}', 1))
    } else if s[0] == 'b' {
        Ok(('\u{8}', 1))
    } else if s[0] == 'n' {
        Ok(('\n', 1))
    } else if s[0] == 'r' {
        Ok(('\r', 1))
    } else if s[0] == 't' {
        Ok(('\t', 1))
    } else {
        // Any other escaped character stands for itself (lenient policy).
        Ok((s[0], 1))
    }
}

/// The unescaped form of `s`: backslash units decoded one after the other,
/// every other character passed through.
pub open spec fn spec_unescape(s: Seq<char>) -> Result<Seq<char>, ParseError>
    decreases s.len(),
{
    if s.len() == 0 {
        Ok(Seq::empty())
    } else if s[0] != '\\' {
        match spec_unescape(s.skip(1)) {
            Ok(t) => Ok(seq![s[0]] + t),
            Err(e) => Err(e),
        }
    } else {
        match spec_escape_unit(s.skip(1)) {
            Err(e) => Err(e),
            Ok((c, k)) => if 1 + k <= s.len() {
                match spec_unescape(s.skip(1 + k)) {
                    Ok(t) => Ok(seq![c] + t),
                    Err(e) => Err(e),
                }
            } else {
                // An escape unit never says it is longer than what is there.
                Err(ParseError::UnexpectedEOF)
            },
        }
    }
}

/// Decode one escape unit starting at `v[i]`, the character right after a
/// backslash.
#[verifier::rlimit(100)]
fn unescape_unit(v: &Vec<char>, i: usize) -> (r: ParseResult<(char, usize)>)
    requires
        i <= v@.len(),
    ensures
        match spec_escape_unit(v@.skip(i as int)) {
            Ok((c, k)) => r matches Ok(p) && p.0 == c && p.1 == k && 1 <= k && i + k <= v@.len(),
            Err(e) => r matches Err(e2) && e2 == e,
        },
{
    if i >= v.len() {
        return Err(ParseError::UnexpectedEOF);
    }
    proof {
        assert(v@.skip(i as int).skip(1) =~= v@.skip(i + 1));
    }
    let c = v[i];
    if c == 'u' {
        if i + 1 >= v.len() {
            return Err(ParseError::UnexpectedEOF);
        }
        let d0 = match hex_value(v[i + 1]) {
            Some(d) => d,
            None => {
                return Err(ParseError::InvalidHex);
            },
        };
        if i + 2 >= v.len() {
            return Err(ParseError::UnexpectedEOF);
        }
        let d1 = match hex_value(v[i + 2]) {
            Some(d) => d,
            None => {
                return Err(ParseError::InvalidHex);
            },
        };
        if i + 3 >= v.len() {
            return Err(ParseError::UnexpectedEOF);
        }
        let d2 = match hex_value(v[i + 3]) {
            Some(d) => d,
            None => {
                return Err(ParseError::InvalidHex);
            },
        };
        if i + 4 >= v.len() {
            return Err(ParseError::UnexpectedEOF);
        }
        let d3 = match hex_value(v[i + 4]) {
            Some(d) => d,
            None => {
                return Err(ParseError::InvalidHex);
            },
        };
        let h: u16 = d0 * 4096 + d1 * 256 + d2 * 16 + d3;
        match char::from_u32(h as u32) {
            Some(res) => Ok((res, 5)),
            None => Err(ParseError::InvalidEscapeSequence),
        }
    } else if c == 'f' {
        Ok(('\u{c}', 1))
    } else if c == 'b' {
        Ok(('\u{8}', 1))
    } else if c == 'n' {
        Ok(('\n', 1))
    } else if c == 'r' {
        Ok(('\r', 1))
    } else if c == 't' {
        Ok(('\t', 1))
    } else {
        Ok((c, 1))
    }
}

/// Unescape a string: the inverse of `crate::format::escape_string`, and the
/// transform the string parser applies between the quotes.
pub fn unescape_string(string: &str) -> (r: ParseResult<String>)
    ensures
        match spec_unescape(string@) {
            Ok(t) => r matches Ok(out) && out@ == t,
            Err(e) => r matches Err(e2) && e2 == e,
        },
{
    let v = str_chars(string);
    let mut buffer = String::new();
    let mut i: usize = 0;
    proof {
        assert(v@.skip(0) =~= v@);
    }
    while i < v.len()
        invariant
            v@ == string@,
            0 <= i <= v@.len(),
            forall|t: Seq<char>|
                spec_unescape(v@.skip(i as int)) == Ok::<Seq<char>, ParseError>(t)
                    ==> spec_unescape(v@) == Ok::<Seq<char>, ParseError>(buffer@ + t),
            forall|e: ParseError|
                spec_unescape(v@.skip(i as int)) == Err::<Seq<char>, ParseError>(e)
                    ==> spec_unescape(v@) == Err::<Seq<char>, ParseError>(e),
        decreases v@.len() - i,
    {
        let ghost i0 = i as int;
        let ghost pre = v@.skip(i0);
        let ghost buf0 = buffer@;
        proof {
            assert(pre.skip(1) =~= v@.skip(i0 + 1));
        }
        let c = v[i];
        if c != '\\' {
            push_char(&mut buffer, c);
            i += 1;
            proof {
                assert forall|t: Seq<char>|
                    spec_unescape(v@.skip(i as int)) == Ok::<Seq<char>, ParseError>(t)
                        implies spec_unescape(v@) == Ok::<Seq<char>, ParseError>(
                        buffer@ + t,
                    ) by {
                    assert(spec_unescape(pre) == Ok::<Seq<char>, ParseError>(seq![c] + t));
                    assert(buf0 + (seq![c] + t) =~= buffer@ + t);
                }
                assert forall|e: ParseError|
                    spec_unescape(v@.skip(i as int)) == Err::<Seq<char>, ParseError>(e)
                        implies spec_unescape(v@) == Err::<Seq<char>, ParseError>(e) by {
                    assert(spec_unescape(pre) == Err::<Seq<char>, ParseError>(e));
                }
            }
        } else {
            match unescape_unit(&v, i + 1) {
                Ok((c2, k)) => {
                    proof {
                        assert(pre.skip(1 + (k as int)) =~= v@.skip(i0 + 1 + (k as int)));
                    }
                    push_char(&mut buffer, c2);
                    i = i + 1 + k;
                    proof {
                        assert forall|t: Seq<char>|
                            spec_unescape(v@.skip(i as int)) == Ok::<Seq<char>, ParseError>(t)
                                implies spec_unescape(v@) == Ok::<Seq<char>, ParseError>(
                                buffer@ + t,
                            ) by {
                            assert(spec_unescape(pre) == Ok::<Seq<char>, ParseError>(
                                seq![c2] + t,
                            ));
                            assert(buf0 + (seq![c2] + t) =~= buffer@ + t);
                        }
                        assert forall|e: ParseError|
                            spec_unescape(v@.skip(i as int)) == Err::<Seq<char>, ParseError>(e)
                                implies spec_unescape(v@) == Err::<Seq<char>, ParseError>(
                                e,
                            ) by {
                            assert(spec_unescape(pre) == Err::<Seq<char>, ParseError>(e));
                        }
                    }
                },
                Err(e) => {
                    proof {
                        assert(spec_unescape(pre) == Err::<Seq<char>, ParseError>(e));
                    }
                    return Err(e);
                },
            }
        }
    }
    proof {
        assert(v@.skip(v@.len() as int) =~= Seq::<char>::empty());
        assert(spec_unescape(Seq::<char>::empty()) == Ok::<Seq<char>, ParseError>(
            Seq::<char>::empty(),
        ));
        assert(buffer@ + Seq::<char>::empty() =~= buffer@);
    }
    Ok(buffer)
}

/// What `rustc_apfloat::ieee::Double::from_str` makes of a piece of text:
/// the bit pattern of the correctly rounded IEEE-754 binary64 value, or
/// `None` where the text is not number-shaped. A pure function of the text.
pub uninterp spec fn spec_double_from_text(s: Seq<char>) -> Option<u64>;

/// Relies on `rustc_apfloat::ieee::Double`'s `FromStr` (which rounds to
/// nearest, ties to even) and `Float::to_bits`: the correctly rounded
/// IEEE-754 binary64 bits of decimal text such as `-3.5e2`, or `None` for
/// text the reader rejects; the result depends on the text alone.
#[verifier::external_body]
fn parse_double_bits(s: &str) -> (r: Option<u64>)
    ensures
        r == spec_double_from_text(s@),
{
    match <rustc_apfloat::ieee::Double as core::str::FromStr>::from_str(s) {
        Ok(value) => Some(rustc_apfloat::Float::to_bits(value) as u64),
        Err(_) => None,
    }
}

/// The byte offset of character position `pos` of `s`: the UTF-8 length of
/// everything before it. Every error offset is stated in these units, the
/// byte offsets of the source text.
pub open spec fn spec_byte_offset(s: Seq<char>, pos: int) -> int {
    encode_utf8(s.take(pos)).len() as int
}

/// Compute the byte offset of character position `pos`; called on the error
/// paths, which are terminal, so the walk happens at most once per parse.
fn byte_offset_of(v: &Vec<char>, pos: usize) -> (r: usize)
    requires
        pos <= v@.len(),
        encode_utf8(v@).len() <= usize::MAX,
    ensures
        r == spec_byte_offset(v@, pos as int),
{
    let mut sum: usize = 0;
    let mut j: usize = 0;
    proof {
        assert(v@.take(0) =~= Seq::<char>::empty());
        assert(encode_utf8(Seq::<char>::empty()) =~= Seq::<u8>::empty());
    }
    while j < pos
        invariant
            0 <= j <= pos <= v@.len(),
            encode_utf8(v@).len() <= usize::MAX,
            sum == spec_byte_offset(v@, j as int),
        decreases pos - j,
    {
        let c = v[j];
        let cu = c as u32;
        let width: usize = if cu < 0x80 {
            1
        } else if cu < 0x800 {
            2
        } else if cu < 0x10000 {
            3
        } else {
            4
        };
        proof {
            let cseq = seq![v@[j as int]];
            assert(encode_utf8(cseq) == encode_scalar(v@[j as int] as u32) + encode_utf8(
                cseq.drop_first(),
            ));
            assert(cseq.drop_first() =~= Seq::<char>::empty());
            assert(encode_utf8(Seq::<char>::empty()) =~= Seq::<u8>::empty());
            assert(encode_scalar(cu) + Seq::<u8>::empty() =~= encode_scalar(cu));
            vstd::utf8::char_is_scalar(c);
            assert(cu < 0xD800 || (0xE000 <= cu && cu <= 0x10FFFF));
            assert(encode_scalar(cu).len() == width);
            assert(v@.take(j + 1) =~= v@.take(j as int) + cseq);
            crate::laws::lemma_encode_utf8_concat(v@.take(j as int), cseq);
            assert(v@ =~= v@.take(j + 1) + v@.skip(j + 1));
            crate::laws::lemma_encode_utf8_concat(v@.take(j + 1), v@.skip(j + 1));
        }
        sum = sum + width;
        j += 1;
    }
    sum
}

/// Is `c` inter-token whitespace: space, tab, line feed or carriage return?
pub open spec fn spec_is_ws(c: char) -> bool {
    c == ' ' || c == '\t' || c == '\n' || c == '\r'
}

/// Is `c` an ASCII decimal digit?
pub open spec fn spec_is_digit(c: char) -> bool {
    '0' <= c && c <= '9'
}

/// The first position at or after `pos` that does not hold whitespace; the
/// length of `s` if only whitespace is left.
pub open spec fn spec_ws_end(s: Seq<char>, pos: int) -> int
    decreases s.len() - pos,
{
    if 0 <= pos < s.len() && spec_is_ws(s[pos]) {
        spec_ws_end(s, pos + 1)
    } else {
        pos
    }
}

/// Does the text `t` stand at position `pos` of `s`?
pub open spec fn spec_matches(s: Seq<char>, pos: int, t: Seq<char>) -> bool {
    0 <= pos && pos + t.len() <= s.len() && s.subrange(pos, pos + t.len() as int) == t
}

/// Parse the `null` keyword at `pos`: exact literal match, nothing else.
pub open spec fn spec_parse_null(s: Seq<char>, pos: int) -> Result<int, ParseError> {
    if spec_matches(s, pos, seq!['n', 'u', 'l', 'l']) {
        Ok(pos + 4)
    } else {
        Err(ParseError::InvalidCharacter(spec_byte_offset(s, pos) as usize))
    }
}

/// Parse the `true` or `false` keyword at `pos`: exact literal match.
pub open spec fn spec_parse_boolean(s: Seq<char>, pos: int) -> Result<(bool, int), ParseError> {
    if spec_matches(s, pos, seq!['t', 'r', 'u', 'e']) {
        Ok((true, pos + 4))
    } else if spec_matches(s, pos, seq!['f', 'a', 'l', 's', 'e']) {
        Ok((false, pos + 5))
    } else {
        Err(ParseError::InvalidCharacter(spec_byte_offset(s, pos) as usize))
    }
}

/// The body of a string literal from position `i` (after the opening quote
/// at `start - 1`): characters up to an unescaped closing quote, escapes
/// decoded as `spec_escape_unit` says, raw line breaks rejected.
pub open spec fn spec_parse_string_body(s: Seq<char>, i: int, start: int) -> Result<
    (Seq<char>, int),
    ParseError,
>
    decreases s.len() - i,
{
    if i < 0 || i >= s.len() {
        Err(ParseError::UnexpectedEOFWhileParsingString(spec_byte_offset(s, start) as usize))
    } else if s[i] == '\n' || s[i] == '\r' {
        Err(ParseError::LineBreakWhileParsingString(spec_byte_offset(s, i) as usize))
    } else if s[i] == '"' {
        Ok((Seq::empty(), i + 1))
    } else if s[i] == '\\' {
        match spec_escape_unit(s.skip(i + 1)) {
            Err(e) => Err(e),
            Ok((c, k)) => if 1 <= k && i + 1 + k <= s.len() {
                match spec_parse_string_body(s, i + 1 + k, start) {
                    Ok((t, end)) => Ok((seq![c] + t, end)),
                    Err(e) => Err(e),
                }
            } else {
                // An escape unit is never longer than what is there.
                Err(ParseError::UnexpectedEOF)
            },
        }
    } else {
        match spec_parse_string_body(s, i + 1, start) {
            Ok((t, end)) => Ok((seq![s[i]] + t, end)),
            Err(e) => Err(e),
        }
    }
}

/// Parse a string literal at `pos`: an opening quote, the body, a closing
/// quote. The error for a never-closed string carries the byte offset of
/// the first content character.
pub open spec fn spec_parse_string(s: Seq<char>, pos: int) -> Result<(Seq<char>, int), ParseError> {
    if pos < 0 || pos >= s.len() {
        Err(ParseError::UnexpectedEOF)
    } else if s[pos] != '"' {
        Err(ParseError::InvalidCharacter(spec_byte_offset(s, pos) as usize))
    } else {
        spec_parse_string_body(s, pos + 1, pos + 1)
    }
}

/// Scan a number token from `i` with the flags seen so far: digits anywhere;
/// one dot, only after a digit and before any exponent; one exponent marker
/// after a digit, optionally followed by a sign; a closing bracket, brace,
/// comma or whitespace ends the token unconsumed, as does the end of the
/// input; anything else is an error. Gives back whether a digit and a dot or
/// exponent were seen, and where the token ends.
pub open spec fn spec_scan_number(
    s: Seq<char>,
    i: int,
    found_num: bool,
    found_dot: bool,
    found_e: bool,
) -> Result<(bool, bool, int), ParseError>
    decreases s.len() - i, s.len() + 1 - i,
{
    if i < 0 || i >= s.len() {
        Ok((found_num, found_dot || found_e, i))
    } else {
        let c = s[i];
        if spec_is_digit(c) {
            spec_scan_number(s, i + 1, true, found_dot, found_e)
        } else if c == '.' && found_num && !found_dot && !found_e {
            spec_scan_number(s, i + 1, found_num, true, found_e)
        } else if (c == 'e' || c == 'E') && found_num && !found_e {
            if i + 1 < s.len() && (s[i + 1] == '+' || s[i + 1] == '-') {
                spec_scan_number(s, i + 2, found_num, found_dot, true)
            } else {
                spec_scan_number(s, i + 1, found_num, found_dot, true)
            }
        } else if c == '}' || c == ']' || c == ',' || spec_is_ws(c) {
            Ok((found_num, found_dot || found_e, i))
        } else {
            Err(ParseError::InvalidCharacter(spec_byte_offset(s, i) as usize))
        }
    }
}

/// The numeric value of a run of decimal digits, most significant first.
pub open spec fn spec_digits_value(t: Seq<char>) -> nat
    decreases t.len(),
{
    if t.len() == 0 {
        0
    } else {
        (spec_digits_value(t.take(t.len() - 1)) * 10 + (t.last() as u32 - 48)) as nat
    }
}

/// The `i64` a signed digit run names, or `None` where it does not fit.
pub open spec fn spec_parse_i64(t: Seq<char>) -> Option<i64> {
    let (neg, digits): (bool, Seq<char>) = if t.len() > 0 && t[0] == '-' {
        (true, t.skip(1))
    } else if t.len() > 0 && t[0] == '+' {
        (false, t.skip(1))
    } else {
        (false, t)
    };
    let value = spec_digits_value(digits);
    if neg {
        if value <= 0x8000_0000_0000_0000 {
            Some((-(value as int)) as i64)
        } else {
            None
        }
    } else {
        if value <= 0x7fff_ffff_ffff_ffff {
            Some(value as i64)
        } else {
            None
        }
    }
}

/// Parse a number token at `pos`: an optional sign, then the scan above.
/// A token without a single digit is `InvalidCharacter`. A token with a dot
/// or an exponent goes to the double reader (`ParseFloatError` where that
/// fails); any other token is an `i64` (`ParseIntError` where it does not
/// fit).
pub open spec fn spec_parse_number(s: Seq<char>, pos: int) -> Result<(Number, int), ParseError> {
    let first = if 0 <= pos < s.len() && (s[pos] == '+' || s[pos] == '-') {
        pos + 1
    } else {
        pos
    };
    match spec_scan_number(s, first, false, false, false) {
        Err(e) => Err(e),
        Ok((found_num, is_float, end)) => {
            if !found_num {
                Err(ParseError::InvalidCharacter(spec_byte_offset(s, end) as usize))
            } else {
                let text = s.subrange(pos, end);
                if is_float {
                    match spec_double_from_text(text) {
                        Some(bits) => Ok((Number::Float(bits), end)),
                        None => Err(ParseError::ParseFloatError),
                    }
                } else {
                    match spec_parse_i64(text) {
                        Some(i) => Ok((Number::Int(i), end)),
                        None => Err(ParseError::ParseIntError),
                    }
                }
            }
        },
    }
}

/// Entries inserted one after the other, the later write winning.
pub open spec fn spec_fold_entries(
    acc: Seq<(Seq<char>, ValueView)>,
    pairs: Seq<(Seq<char>, ValueView)>,
) -> Seq<(Seq<char>, ValueView)>
    decreases pairs.len(),
{
    if pairs.len() == 0 {
        acc
    } else {
        spec_fold_entries(
            ValueView::obj_insert(acc, pairs[0].0, pairs[0].1),
            pairs.skip(1),
        )
    }
}

/// Parse one JSON value at `pos`: the next character decides which parser
/// runs.
pub open spec fn spec_parse_value(s: Seq<char>, pos: int) -> Result<(ValueView, int), ParseError>
    decreases s.len() - pos, 3int, 0int,
{
    if pos < 0 || pos >= s.len() {
        Err(ParseError::UnexpectedEOF)
    } else {
        let c = s[pos];
        if c == 't' || c == 'f' {
            match spec_parse_boolean(s, pos) {
                Ok((b, end)) => Ok((ValueView::Boolean(b), end)),
                Err(e) => Err(e),
            }
        } else if c == 'n' {
            match spec_parse_null(s, pos) {
                Ok(end) => Ok((ValueView::Null, end)),
                Err(e) => Err(e),
            }
        } else if c == '"' {
            match spec_parse_string(s, pos) {
                Ok((t, end)) => Ok((ValueView::String(t), end)),
                Err(e) => Err(e),
            }
        } else if c == '{' {
            spec_parse_object(s, pos)
        } else if c == '[' {
            spec_parse_array(s, pos)
        } else if c == '+' || c == '-' || spec_is_digit(c) {
            match spec_parse_number(s, pos) {
                Ok((n, end)) => Ok((ValueView::Number(n), end)),
                Err(e) => Err(e),
            }
        } else {
            Err(ParseError::InvalidCharacter(spec_byte_offset(s, pos) as usize))
        }
    }
}

/// Parse an array at `pos`: a `[`, then the element list.
pub open spec fn spec_parse_array(s: Seq<char>, pos: int) -> Result<(ValueView, int), ParseError>
    decreases s.len() - pos, 2int, 0int,
{
    if pos < 0 || pos >= s.len() {
        Err(ParseError::UnexpectedEOF)
    } else if s[pos] != '[' {
        Err(ParseError::InvalidCharacter(spec_byte_offset(s, pos) as usize))
    } else {
        match spec_parse_items(s, pos + 1) {
            Ok((elems, end)) => Ok((ValueView::Array(elems), end)),
            Err(e) => Err(e),
        }
    }
}

/// The element list of an array from `i` on: whitespace, then either the
/// closing bracket, or one value followed by a comma (more elements may
/// follow, so a comma right before the bracket is allowed) or the closing
/// bracket.
pub open spec fn spec_parse_items(s: Seq<char>, i: int) -> Result<(Seq<ValueView>, int), ParseError>
    decreases s.len() - i, 4int, 0int,
{
    let i2 = spec_ws_end(s, i);
    if !(i <= i2 && i2 <= s.len()) {
        // spec_ws_end never leaves this range.
        Err(ParseError::UnexpectedEOF)
    } else if i2 >= s.len() {
        Err(ParseError::UnexpectedEOF)
    } else if s[i2] == ']' {
        Ok((Seq::empty(), i2 + 1))
    } else {
        match spec_parse_value(s, i2) {
            Err(e) => Err(e),
            Ok((v, p)) => if i2 < p && p <= s.len() {
                let p2 = spec_ws_end(s, p);
                if !(p <= p2 && p2 <= s.len()) {
                    Err(ParseError::UnexpectedEOF)
                } else if p2 >= s.len() {
                    Err(ParseError::UnexpectedEOF)
                } else if s[p2] == ']' {
                    Ok((seq![v], p2 + 1))
                } else if s[p2] == ',' {
                    match spec_parse_items(s, p2 + 1) {
                        Ok((vs, end)) => Ok((seq![v] + vs, end)),
                        Err(e) => Err(e),
                    }
                } else {
                    Err(ParseError::InvalidCharacter(spec_byte_offset(s, p2) as usize))
                }
            } else {
                // A parsed value always stands on at least one character.
                Err(ParseError::UnexpectedEOF)
            },
        }
    }
}

/// Parse an object at `pos`: a `{`, then the entry list, folded into a
/// mapping with the last write winning on duplicate keys.
pub open spec fn spec_parse_object(s: Seq<char>, pos: int) -> Result<(ValueView, int), ParseError>
    decreases s.len() - pos, 2int, 0int,
{
    if pos < 0 || pos >= s.len() {
        Err(ParseError::UnexpectedEOF)
    } else if s[pos] != '{' {
        Err(ParseError::InvalidCharacter(spec_byte_offset(s, pos) as usize))
    } else {
        match spec_parse_entries(s, pos + 1) {
            Ok((pairs, end)) => Ok(
                (ValueView::Object(spec_fold_entries(Seq::empty(), pairs)), end),
            ),
            Err(e) => Err(e),
        }
    }
}

/// The entry list of an object from `i` on: whitespace, then either the
/// closing brace, or a string key, a colon, a value, and a comma (more
/// entries may follow, so a comma right before the brace is allowed) or the
/// closing brace. The entries come back in parse order, duplicates included.
pub open spec fn spec_parse_entries(s: Seq<char>, i: int) -> Result<
    (Seq<(Seq<char>, ValueView)>, int),
    ParseError,
>
    decreases s.len() - i, 4int, 0int,
{
    let i2 = spec_ws_end(s, i);
    if !(i <= i2 && i2 <= s.len()) {
        Err(ParseError::UnexpectedEOF)
    } else if i2 >= s.len() {
        Err(ParseError::UnexpectedEOF)
    } else if s[i2] == '}' {
        Ok((Seq::empty(), i2 + 1))
    } else if s[i2] != '"' {
        Err(ParseError::InvalidCharacter(spec_byte_offset(s, i2) as usize))
    } else {
        match spec_parse_string(s, i2) {
            Err(e) => Err(e),
            Ok((key, pk)) => if i2 < pk && pk <= s.len() {
                let pc = spec_ws_end(s, pk);
                if !(pk <= pc && pc <= s.len()) {
                    Err(ParseError::UnexpectedEOF)
                } else if pc >= s.len() {
                    Err(ParseError::UnexpectedEOF)
                } else if s[pc] != ':' {
                    Err(ParseError::InvalidCharacter(spec_byte_offset(s, pc) as usize))
                } else {
                    let pv = spec_ws_end(s, pc + 1);
                    if !(pc + 1 <= pv && pv <= s.len()) {
                        Err(ParseError::UnexpectedEOF)
                    } else {
                        match spec_parse_value(s, pv) {
                            Err(e) => Err(e),
                            Ok((v, p)) => if pv < p && p <= s.len() {
                                let p2 = spec_ws_end(s, p);
                                if !(p <= p2 && p2 <= s.len()) {
                                    Err(ParseError::UnexpectedEOF)
                                } else if p2 >= s.len() {
                                    Err(ParseError::UnexpectedEOF)
                                } else if s[p2] == ',' {
                                    match spec_parse_entries(s, p2 + 1) {
                                        Ok((pairs, end)) => Ok(
                                            (seq![(key, v)] + pairs, end),
                                        ),
                                        Err(e) => Err(e),
                                    }
                                } else if s[p2] == '}' {
                                    Ok((seq![(key, v)], p2 + 1))
                                } else {
                                    Err(ParseError::InvalidCharacter(spec_byte_offset(s, p2) as usize))
                                }
                            } else {
                                Err(ParseError::UnexpectedEOF)
                            },
                        }
                    }
                }
            } else {
                Err(ParseError::UnexpectedEOF)
            },
        }
    }
}

/// Skip whitespace: the first position at or after `pos` holding something
/// else, or the end of the input.
fn eat_whitespace(v: &Vec<char>, pos: usize) -> (r: usize)
    requires
        pos <= v@.len(),
    ensures
        r == spec_ws_end(v@, pos as int),
        pos <= r <= v@.len(),
{
    let mut i = pos;
    while i < v.len() && (v[i] == ' ' || v[i] == '\t' || v[i] == '\n' || v[i] == '\r')
        invariant
            pos <= i <= v@.len(),
            spec_ws_end(v@, pos as int) == spec_ws_end(v@, i as int),
        decreases v@.len() - i,
    {
        i += 1;
    }
    i
}

/// Parse the `null` keyword at `pos`; gives back the position after it.
fn parse_null(v: &Vec<char>, pos: usize) -> (r: ParseResult<usize>)
    requires
        pos <= v@.len(),
        encode_utf8(v@).len() <= usize::MAX,
    ensures
        match spec_parse_null(v@, pos as int) {
            Ok(end) => r matches Ok(e2) && e2 == end && pos < end <= v@.len(),
            Err(e) => r matches Err(e2) && e2 == e,
        },
{
    if v.len() >= 4 && pos <= v.len() - 4 && v[pos] == 'n' && v[pos + 1] == 'u' && v[pos + 2]
        == 'l' && v[pos + 3] == 'l' {
        proof {
            assert(v@.subrange(pos as int, pos + 4) =~= seq!['n', 'u', 'l', 'l']);
        }
        Ok(pos + 4)
    } else {
        proof {
            if spec_matches(v@, pos as int, seq!['n', 'u', 'l', 'l']) {
                assert(v@.subrange(pos as int, pos + 4)[0] == v@[pos as int]);
                assert(v@.subrange(pos as int, pos + 4)[1] == v@[pos + 1]);
                assert(v@.subrange(pos as int, pos + 4)[2] == v@[pos + 2]);
                assert(v@.subrange(pos as int, pos + 4)[3] == v@[pos + 3]);
            }
        }
        Err(ParseError::InvalidCharacter(byte_offset_of(v, pos)))
    }
}

/// Parse the `true` or `false` keyword at `pos`.
fn parse_boolean(v: &Vec<char>, pos: usize) -> (r: ParseResult<(bool, usize)>)
    requires
        pos <= v@.len(),
        encode_utf8(v@).len() <= usize::MAX,
    ensures
        match spec_parse_boolean(v@, pos as int) {
            Ok((b, end)) => r matches Ok(p) && p.0 == b && p.1 == end && pos < end <= v@.len(),
            Err(e) => r matches Err(e2) && e2 == e,
        },
{
    if v.len() >= 4 && pos <= v.len() - 4 && v[pos] == 't' && v[pos + 1] == 'r' && v[pos + 2]
        == 'u' && v[pos + 3] == 'e' {
        proof {
            assert(v@.subrange(pos as int, pos + 4) =~= seq!['t', 'r', 'u', 'e']);
        }
        Ok((true, pos + 4))
    } else if v.len() >= 5 && pos <= v.len() - 5 && v[pos] == 'f' && v[pos + 1] == 'a' && v[pos + 2]
        == 'l' && v[pos + 4] == 'e' && v[pos + 3] == 's' {
        proof {
            assert(v@.subrange(pos as int, pos + 5) =~= seq!['f', 'a', 'l', 's', 'e']);
            if spec_matches(v@, pos as int, seq!['t', 'r', 'u', 'e']) {
                assert(v@.subrange(pos as int, pos + 4)[0] == v@[pos as int]);
            }
        }
        Ok((false, pos + 5))
    } else {
        proof {
            if spec_matches(v@, pos as int, seq!['t', 'r', 'u', 'e']) {
                assert(v@.subrange(pos as int, pos + 4)[0] == v@[pos as int]);
                assert(v@.subrange(pos as int, pos + 4)[1] == v@[pos + 1]);
                assert(v@.subrange(pos as int, pos + 4)[2] == v@[pos + 2]);
                assert(v@.subrange(pos as int, pos + 4)[3] == v@[pos + 3]);
            }
            if spec_matches(v@, pos as int, seq!['f', 'a', 'l', 's', 'e']) {
                assert(v@.subrange(pos as int, pos + 5)[0] == v@[pos as int]);
                assert(v@.subrange(pos as int, pos + 5)[1] == v@[pos + 1]);
                assert(v@.subrange(pos as int, pos + 5)[2] == v@[pos + 2]);
                assert(v@.subrange(pos as int, pos + 5)[3] == v@[pos + 3]);
                assert(v@.subrange(pos as int, pos + 5)[4] == v@[pos + 4]);
            }
        }
        Err(ParseError::InvalidCharacter(byte_offset_of(v, pos)))
    }
}

/// Parse a string literal at `pos`, unescaping as it goes; gives back the
/// decoded text and the position after the closing quote.
#[verifier::rlimit(60)]
fn parse_string(v: &Vec<char>, pos: usize) -> (r: ParseResult<(String, usize)>)
    requires
        pos <= v@.len(),
        encode_utf8(v@).len() <= usize::MAX,
    ensures
        match spec_parse_string(v@, pos as int) {
            Ok((t, end)) => r matches Ok(p) && p.0@ == t && p.1 == end && pos < end <= v@.len(),
            Err(e) => r matches Err(e2) && e2 == e,
        },
{
    if pos >= v.len() {
        return Err(ParseError::UnexpectedEOF);
    }
    if v[pos] != '"' {
        return Err(ParseError::InvalidCharacter(byte_offset_of(v, pos)));
    }
    let start = pos + 1;
    let mut buffer = String::new();
    let mut i = start;
    loop
        invariant
            pos < start <= i <= v@.len(),
            encode_utf8(v@).len() <= usize::MAX,
            v@[pos as int] == '"',
            spec_parse_string(v@, pos as int) == spec_parse_string_body(
                v@,
                start as int,
                start as int,
            ),
            forall|t: Seq<char>, end: int|
                spec_parse_string_body(v@, i as int, start as int) == Ok::<
                    (Seq<char>, int),
                    ParseError,
                >((t, end)) ==> spec_parse_string_body(v@, start as int, start as int) == Ok::<
                    (Seq<char>, int),
                    ParseError,
                >((buffer@ + t, end)),
            forall|e: ParseError|
                spec_parse_string_body(v@, i as int, start as int) == Err::<
                    (Seq<char>, int),
                    ParseError,
                >(e) ==> spec_parse_string_body(v@, start as int, start as int) == Err::<
                    (Seq<char>, int),
                    ParseError,
                >(e),
        decreases v@.len() - i,
    {
        let ghost i0 = i as int;
        let ghost buf0 = buffer@;
        if i >= v.len() {
            proof {
                assert(spec_parse_string_body(v@, i0, start as int) == Err::<
                    (Seq<char>, int),
                    ParseError,
                >(ParseError::UnexpectedEOFWhileParsingString(spec_byte_offset(v@, start as int) as usize)));
            }
            return Err(ParseError::UnexpectedEOFWhileParsingString(byte_offset_of(v, start)));
        }
        let c = v[i];
        if c == '\n' || c == '\r' {
            proof {
                assert(spec_parse_string_body(v@, i0, start as int) == Err::<
                    (Seq<char>, int),
                    ParseError,
                >(ParseError::LineBreakWhileParsingString(spec_byte_offset(v@, i as int) as usize)));
            }
            return Err(ParseError::LineBreakWhileParsingString(byte_offset_of(v, i)));
        }
        if c == '"' {
            proof {
                assert(spec_parse_string_body(v@, i0, start as int) == Ok::<
                    (Seq<char>, int),
                    ParseError,
                >((Seq::<char>::empty(), i0 + 1)));
                assert(buffer@ + Seq::<char>::empty() =~= buffer@);
                assert(spec_parse_string_body(v@, start as int, start as int) == Ok::<
                    (Seq<char>, int),
                    ParseError,
                >((buffer@ + Seq::<char>::empty(), i0 + 1)));
                assert(spec_parse_string(v@, pos as int) == Ok::<(Seq<char>, int), ParseError>(
                    (buffer@, i0 + 1),
                ));
            }
            return Ok((buffer, i + 1));
        }
        if c == '\\' {
            match unescape_unit(v, i + 1) {
                Ok((c2, k)) => {
                    push_char(&mut buffer, c2);
                    i = i + 1 + k;
                    proof {
                        assert(v@.skip(i0 + 1) =~= v@.skip(i0 + 1));
                        assert forall|t: Seq<char>, end: int|
                            spec_parse_string_body(v@, i as int, start as int) == Ok::<
                                (Seq<char>, int),
                                ParseError,
                            >((t, end)) implies spec_parse_string_body(
                            v@,
                            start as int,
                            start as int,
                        ) == Ok::<(Seq<char>, int), ParseError>((buffer@ + t, end)) by {
                            assert(spec_parse_string_body(v@, i0, start as int) == Ok::<
                                (Seq<char>, int),
                                ParseError,
                            >((seq![c2] + t, end)));
                            assert(buf0 + (seq![c2] + t) =~= buffer@ + t);
                        }
                    }
                },
                Err(e) => {
                    proof {
                        assert(spec_parse_string_body(v@, i0, start as int) == Err::<
                            (Seq<char>, int),
                            ParseError,
                        >(e));
                    }
                    return Err(e);
                },
            }
        } else {
            push_char(&mut buffer, c);
            i = i + 1;
            proof {
                assert forall|t: Seq<char>, end: int|
                    spec_parse_string_body(v@, i as int, start as int) == Ok::<
                        (Seq<char>, int),
                        ParseError,
                    >((t, end)) implies spec_parse_string_body(v@, start as int, start as int)
                    == Ok::<(Seq<char>, int), ParseError>((buffer@ + t, end)) by {
                    assert(spec_parse_string_body(v@, i0, start as int) == Ok::<
                        (Seq<char>, int),
                        ParseError,
                    >((seq![c] + t, end)));
                    assert(buf0 + (seq![c] + t) =~= buffer@ + t);
                }
            }
        }
    }
}

/// A digit run is worth at least as much as any of its prefixes.
proof fn lemma_digits_value_take_le(t: Seq<char>, k: int)
    requires
        0 <= k <= t.len(),
        forall|j: int| 0 <= j < t.len() ==> spec_is_digit(t[j]),
    ensures
        spec_digits_value(t.take(k)) <= spec_digits_value(t),
    decreases t.len(),
{
    if k < t.len() {
        let t1 = t.take(t.len() - 1);
        lemma_digits_value_take_le(t1, k);
        assert(t1.take(k) =~= t.take(k));
        assert(spec_digits_value(t) == (spec_digits_value(t1) * 10 + (t.last() as u32 - 48)) as nat);
        assert(spec_is_digit(t.last()));
    } else {
        assert(t.take(k) =~= t);
    }
}

/// Parse a number token at `pos`: scan its extent, then read it as an `i64`
/// or hand it to the double reader.
#[verifier::rlimit(60)]
fn parse_number(v: &Vec<char>, pos: usize) -> (r: ParseResult<(Number, usize)>)
    requires
        pos < v@.len(),
        encode_utf8(v@).len() <= usize::MAX,
    ensures
        match spec_parse_number(v@, pos as int) {
            Ok((n, end)) => r matches Ok(p) && p.0 == n && p.1 == end && pos < end <= v@.len(),
            Err(e) => r matches Err(e2) && e2 == e,
        },
{
    let n = v.len();
    let mut first = pos;
    if v[pos] == '+' || v[pos] == '-' {
        first = pos + 1;
    }
    let mut i = first;
    let mut found_num = false;
    let mut found_dot = false;
    let mut found_e = false;
    let mut scanning = true;
    while scanning
        invariant
            pos < v@.len(),
            encode_utf8(v@).len() <= usize::MAX,
            pos <= first <= i <= v@.len(),
            first == (if v@[pos as int] == '+' || v@[pos as int] == '-' {
                pos + 1
            } else {
                pos as int
            }),
            spec_scan_number(v@, first as int, false, false, false) == spec_scan_number(
                v@,
                i as int,
                found_num,
                found_dot,
                found_e,
            ),
            found_num ==> first < i,
            (!found_dot && !found_e) ==> forall|j: int|
                first <= j < i ==> spec_is_digit(v@[j]),
            !scanning ==> spec_scan_number(v@, i as int, found_num, found_dot, found_e) == Ok::<
                (bool, bool, int),
                ParseError,
            >((found_num, found_dot || found_e, i as int)),
        decreases v@.len() - i, (if scanning { 1int } else { 0int }),
    {
        if i >= v.len() {
            scanning = false;
        } else {
            let c = v[i];
            if c >= '0' && c <= '9' {
                found_num = true;
                i += 1;
            } else if c == '.' && found_num && !found_dot && !found_e {
                found_dot = true;
                i += 1;
            } else if (c == 'e' || c == 'E') && found_num && !found_e {
                found_e = true;
                if i + 1 < v.len() && (v[i + 1] == '+' || v[i + 1] == '-') {
                    i += 2;
                } else {
                    i += 1;
                }
            } else if c == '}' || c == ']' || c == ',' || c == ' ' || c == '\t' || c == '\n' || c
                == '\r' {
                scanning = false;
            } else {
                proof {
                    assert(spec_scan_number(v@, i as int, found_num, found_dot, found_e) == Err::<
                        (bool, bool, int),
                        ParseError,
                    >(ParseError::InvalidCharacter(spec_byte_offset(v@, i as int) as usize)));
                }
                return Err(ParseError::InvalidCharacter(byte_offset_of(v, i)));
            }
        }
    }
    if !found_num {
        proof {
            assert(spec_parse_number(v@, pos as int) == Err::<(Number, int), ParseError>(
                ParseError::InvalidCharacter(spec_byte_offset(v@, i as int) as usize),
            ));
        }
        return Err(ParseError::InvalidCharacter(byte_offset_of(v, i)));
    }
    let ghost text = v@.subrange(pos as int, i as int);
    if found_dot || found_e {
        let mut token = String::new();
        let mut j = pos;
        while j < i
            invariant
                pos <= j <= i <= v@.len(),
                token@ == v@.subrange(pos as int, j as int),
            decreases i - j,
        {
            push_char(&mut token, v[j]);
            j += 1;
            proof {
                assert(v@.subrange(pos as int, j as int) =~= v@.subrange(pos as int, j - 1).push(
                    v@[j - 1],
                ));
            }
        }
        match parse_double_bits(token.as_str()) {
            Some(bits) => Ok((Number::Float(bits), i)),
            None => Err(ParseError::ParseFloatError),
        }
    } else {
        let neg = v[pos] == '-';
        let limit: u64 = if neg {
            0x8000_0000_0000_0000
        } else {
            0x7fff_ffff_ffff_ffff
        };
        let ghost digits = v@.subrange(first as int, i as int);
        proof {
            if v@[pos as int] == '-' {
                assert(text[0] == '-');
                assert(text.skip(1) =~= digits);
            } else if v@[pos as int] == '+' {
                assert(text[0] == '+');
                assert(text.skip(1) =~= digits);
            } else {
                assert(text =~= digits);
            }
            assert(digits.len() > 0);
        }
        let mut acc: u64 = 0;
        let mut j = first;
        proof {
            assert(v@.subrange(first as int, first as int) =~= Seq::<char>::empty());
        }
        while j < i
            invariant
                pos < v@.len(),
                pos <= first <= j <= i <= v@.len(),
                first == (if v@[pos as int] == '+' || v@[pos as int] == '-' {
                    pos + 1
                } else {
                    pos as int
                }),
                neg == (v@[pos as int] == '-'),
                forall|m: int| first <= m < i ==> spec_is_digit(v@[m]),
                digits == v@.subrange(first as int, i as int),
                text == v@.subrange(pos as int, i as int),
                digits.len() > 0,
                spec_scan_number(v@, first as int, false, false, false) == Ok::<
                    (bool, bool, int),
                    ParseError,
                >((true, false, i as int)),
                acc == spec_digits_value(v@.subrange(first as int, j as int)),
                acc <= limit,
                limit == (if neg {
                    0x8000_0000_0000_0000u64
                } else {
                    0x7fff_ffff_ffff_ffffu64
                }),
            decreases i - j,
        {
            let d: u64 = ((v[j] as u32) - 48) as u64;
            let ghost prefix = v@.subrange(first as int, j as int);
            let ghost prefix1 = v@.subrange(first as int, j + 1);
            proof {
                assert(prefix1 =~= prefix.push(v@[j as int]));
                assert(prefix1.take(prefix1.len() - 1) =~= prefix);
                assert(spec_digits_value(prefix1) == (spec_digits_value(prefix) * 10 + (v@[
                    j as int] as u32 - 48)) as nat);
            }
            if acc > (limit - d) / 10 {
                proof {
                    assert(acc * 10 + d > limit) by (nonlinear_arith)
                        requires
                            acc > (limit - d) / 10,
                            d <= limit,
                            d <= 9,
                    ;
                    assert(spec_digits_value(prefix1) > limit);
                    assert(digits.take(j + 1 - first) =~= prefix1);
                    lemma_digits_value_take_le(digits, j + 1 - first);
                    assert(spec_digits_value(digits) > limit);
                    if v@[pos as int] == '-' {
                        assert(text[0] == '-');
                        assert(text.skip(1) =~= digits);
                    } else if v@[pos as int] == '+' {
                        assert(text[0] == '+');
                        assert(text.skip(1) =~= digits);
                    } else {
                        assert(text =~= digits);
                    }
                    assert(spec_parse_i64(text) is None);
                }
                return Err(ParseError::ParseIntError);
            }
            proof {
                assert(acc * 10 + d <= limit) by (nonlinear_arith)
                    requires
                        acc <= (limit - d) / 10,
                        d <= limit,
                        d <= 9,
                ;
            }
            acc = acc * 10 + d;
            j += 1;
        }
        proof {
            assert(v@.subrange(first as int, j as int) =~= digits);
            if v@[pos as int] == '-' {
                assert(text[0] == '-');
                assert(text.skip(1) =~= digits);
            } else if v@[pos as int] == '+' {
                assert(text[0] == '+');
                assert(text.skip(1) =~= digits);
            } else {
                assert(text =~= digits);
            }
        }
        let number: i64 = if neg {
            if acc == 0x8000_0000_0000_0000 {
                i64::MIN
            } else {
                -(acc as i64)
            }
        } else {
            acc as i64
        };
        Ok((Number::Int(number), i))
    }
}

/// Parse one JSON value at `pos`, dispatching on the next character.
fn parse_value(v: &Vec<char>, pos: usize) -> (r: ParseResult<(Value, usize)>)
    requires
        pos <= v@.len(),
        encode_utf8(v@).len() <= usize::MAX,
    ensures
        match spec_parse_value(v@, pos as int) {
            Ok((vw, end)) => r matches Ok(p) && p.0@ == vw && p.1 == end && pos < end <= v@.len(),
            Err(e) => r matches Err(e2) && e2 == e,
        },
    decreases v@.len() - pos, 3int, 0int,
{
    if pos >= v.len() {
        return Err(ParseError::UnexpectedEOF);
    }
    let c = v[pos];
    if c == 't' || c == 'f' {
        match parse_boolean(v, pos) {
            Ok((b, end)) => Ok((Value::Boolean(b), end)),
            Err(e) => Err(e),
        }
    } else if c == 'n' {
        match parse_null(v, pos) {
            Ok(end) => Ok((Value::Null, end)),
            Err(e) => Err(e),
        }
    } else if c == '"' {
        match parse_string(v, pos) {
            Ok((s, end)) => Ok((Value::String(s), end)),
            Err(e) => Err(e),
        }
    } else if c == '{' {
        parse_object(v, pos)
    } else if c == '[' {
        parse_array(v, pos)
    } else if c == '+' || c == '-' || (c >= '0' && c <= '9') {
        match parse_number(v, pos) {
            Ok((n, end)) => Ok((Value::Number(n), end)),
            Err(e) => Err(e),
        }
    } else {
        Err(ParseError::InvalidCharacter(byte_offset_of(v, pos)))
    }
}

/// Parse an array at `pos`: a `[`, then the element list.
fn parse_array(v: &Vec<char>, pos: usize) -> (r: ParseResult<(Value, usize)>)
    requires
        pos <= v@.len(),
        encode_utf8(v@).len() <= usize::MAX,
    ensures
        match spec_parse_array(v@, pos as int) {
            Ok((vw, end)) => r matches Ok(p) && p.0@ == vw && p.1 == end && pos < end <= v@.len(),
            Err(e) => r matches Err(e2) && e2 == e,
        },
    decreases v@.len() - pos, 2int, 0int,
{
    if pos >= v.len() {
        return Err(ParseError::UnexpectedEOF);
    }
    if v[pos] != '[' {
        return Err(ParseError::InvalidCharacter(byte_offset_of(v, pos)));
    }
    match parse_items(v, pos + 1) {
        Ok((elems, end)) => {
            let r = Value::Array(elems);
            proof {
                assert(r@ == ValueView::Array(Value::views_of_seq(r->Array_0@)));
            }
            Ok((r, end))
        },
        Err(e) => Err(e),
    }
}

/// Parse the element list of an array from `i` on; trailing commas before
/// the closing bracket are allowed.
fn parse_items(v: &Vec<char>, i: usize) -> (r: ParseResult<(Vec<Value>, usize)>)
    requires
        i <= v@.len(),
        encode_utf8(v@).len() <= usize::MAX,
    ensures
        match spec_parse_items(v@, i as int) {
            Ok((elems, end)) => r matches Ok(p) && Value::views_of_seq(p.0@) == elems && p.1 == end
                && i < end <= v@.len(),
            Err(e) => r matches Err(e2) && e2 == e,
        },
    decreases v@.len() - i, 4int, 0int,
{
    let i2 = eat_whitespace(v, i);
    if i2 >= v.len() {
        return Err(ParseError::UnexpectedEOF);
    }
    if v[i2] == ']' {
        let elems: Vec<Value> = Vec::new();
        proof {
            crate::lemma_views_of_seq(elems@);
            assert(Value::views_of_seq(elems@) =~= Seq::<ValueView>::empty());
        }
        return Ok((elems, i2 + 1));
    }
    match parse_value(v, i2) {
        Err(e) => Err(e),
        Ok((val, p)) => {
            let p2 = eat_whitespace(v, p);
            if p2 >= v.len() {
                return Err(ParseError::UnexpectedEOF);
            }
            if v[p2] == ']' {
                let mut elems: Vec<Value> = Vec::new();
                elems.push(val);
                proof {
                    crate::lemma_views_of_seq(elems@);
                    assert(Value::views_of_seq(elems@) =~= seq![
                        spec_parse_value(v@, i2 as int)->Ok_0.0,
                    ]);
                }
                Ok((elems, p2 + 1))
            } else if v[p2] == ',' {
                match parse_items(v, p2 + 1) {
                    Ok((mut elems, end)) => {
                        let ghost rest = elems@;
                        elems.insert(0, val);
                        proof {
                            assert(elems@ =~= seq![val].add(rest));
                            crate::lemma_views_of_seq(elems@);
                            crate::lemma_views_of_seq(rest);
                            assert(Value::views_of_seq(elems@) =~= seq![val@] + Value::views_of_seq(
                                rest,
                            ));
                        }
                        Ok((elems, end))
                    },
                    Err(e) => Err(e),
                }
            } else {
                Err(ParseError::InvalidCharacter(byte_offset_of(v, p2)))
            }
        },
    }
}

/// Parse an object at `pos`: a `{`, then the entry list, inserted into a
/// fresh mapping with the last write winning.
fn parse_object(v: &Vec<char>, pos: usize) -> (r: ParseResult<(Value, usize)>)
    requires
        pos <= v@.len(),
        encode_utf8(v@).len() <= usize::MAX,
    ensures
        match spec_parse_object(v@, pos as int) {
            Ok((vw, end)) => r matches Ok(p) && p.0@ == vw && p.1 == end && pos < end <= v@.len(),
            Err(e) => r matches Err(e2) && e2 == e,
        },
    decreases v@.len() - pos, 2int, 0int,
{
    if pos >= v.len() {
        return Err(ParseError::UnexpectedEOF);
    }
    if v[pos] != '{' {
        return Err(ParseError::InvalidCharacter(byte_offset_of(v, pos)));
    }
    let mut map = crate::ValueMap::new();
    match parse_entries(v, pos + 1, &mut map) {
        Ok(end) => Ok((Value::Object(map), end)),
        Err(e) => Err(e),
    }
}

/// Parse the entry list of an object from `i` on, inserting each key/value
/// pair into `map` as it is read (so a later duplicate key overwrites an
/// earlier one in place); trailing commas before the closing brace are
/// allowed.
fn parse_entries(v: &Vec<char>, i: usize, map: &mut crate::ValueMap) -> (r: ParseResult<usize>)
    requires
        i <= v@.len(),
        encode_utf8(v@).len() <= usize::MAX,
        old(map).wf(),
    ensures
        match spec_parse_entries(v@, i as int) {
            Ok((pairs, end)) => r matches Ok(e2) && e2 == end && i < end <= v@.len()
                && final(map)@ == spec_fold_entries(old(map)@, pairs) && final(map).wf(),
            Err(e) => r matches Err(e2) && e2 == e,
        },
    decreases v@.len() - i, 4int, 0int,
{
    let i2 = eat_whitespace(v, i);
    if i2 >= v.len() {
        return Err(ParseError::UnexpectedEOF);
    }
    if v[i2] == '}' {
        return Ok(i2 + 1);
    }
    if v[i2] != '"' {
        return Err(ParseError::InvalidCharacter(byte_offset_of(v, i2)));
    }
    match parse_string(v, i2) {
        Err(e) => Err(e),
        Ok((key, pk)) => {
            let pc = eat_whitespace(v, pk);
            if pc >= v.len() {
                return Err(ParseError::UnexpectedEOF);
            }
            if v[pc] != ':' {
                return Err(ParseError::InvalidCharacter(byte_offset_of(v, pc)));
            }
            let pv = eat_whitespace(v, pc + 1);
            match parse_value(v, pv) {
                Err(e) => Err(e),
                Ok((val, p)) => {
                    let ghost pair = (key@, val@);
                    map.insert(key, val);
                    proof {
                        assert(map@ == ValueView::obj_insert(old(map)@, pair.0, pair.1));
                    }
                    let p2 = eat_whitespace(v, p);
                    if p2 >= v.len() {
                        return Err(ParseError::UnexpectedEOF);
                    }
                    if v[p2] == ',' {
                        let ghost mid = map@;
                        match parse_entries(v, p2 + 1, map) {
                            Ok(end) => {
                                proof {
                                    let pairs = spec_parse_entries(v@, p2 + 1)->Ok_0.0;
                                    assert((seq![pair] + pairs).skip(1) =~= pairs);
                                    assert((seq![pair] + pairs)[0] == pair);
                                    assert(spec_fold_entries(old(map)@, seq![pair] + pairs)
                                        == spec_fold_entries(
                                        ValueView::obj_insert(old(map)@, pair.0, pair.1),
                                        pairs,
                                    ));
                                }
                                Ok(end)
                            },
                            Err(e) => Err(e),
                        }
                    } else if v[p2] == '}' {
                        proof {
                            assert(seq![pair].skip(1) =~= Seq::<(Seq<char>, ValueView)>::empty());
                            assert(seq![pair][0] == pair);
                            assert(spec_fold_entries(old(map)@, seq![pair]) == spec_fold_entries(
                                ValueView::obj_insert(old(map)@, pair.0, pair.1),
                                seq![pair].skip(1),
                            ));
                            assert(spec_fold_entries(
                                ValueView::obj_insert(old(map)@, pair.0, pair.1),
                                Seq::<(Seq<char>, ValueView)>::empty(),
                            ) == ValueView::obj_insert(old(map)@, pair.0, pair.1));
                        }
                        Ok(p2 + 1)
                    } else {
                        Err(ParseError::InvalidCharacter(byte_offset_of(v, p2)))
                    }
                },
            }
        },
    }
}

impl Value {
    /// Parse JSON text into a value: leading and trailing whitespace is
    /// skipped, exactly one value must be there, and anything after it is
    /// `InvalidCharacter` at the offending byte offset.
    pub fn from_str(s: &str) -> (r: ParseResult<Value>)
        ensures
            match spec_parse_document(s@) {
                Ok(vw) => r matches Ok(val) && val@ == vw,
                Err(e) => r matches Err(e2) && e2 == e,
            },
    {
        let v = str_chars(s);
        let b = s.as_bytes();
        let ghost byte_bound = b.len();
        proof {
            assert(b@ == s.spec_bytes());
            assert(s.spec_bytes() == encode_utf8(s@));
            assert(encode_utf8(v@).len() <= usize::MAX);
        }
        let start = eat_whitespace(&v, 0);
        match parse_value(&v, start) {
            Err(e) => Err(e),
            Ok((val, end)) => {
                let end2 = eat_whitespace(&v, end);
                if end2 < v.len() {
                    Err(ParseError::InvalidCharacter(byte_offset_of(&v, end2)))
                } else {
                    Ok(val)
                }
            },
        }
    }
}

impl core::str::FromStr for Value {
    type Err = ParseError;

    /// `"…".parse::<Value>()` is `Value::from_str`.
    fn from_str(s: &str) -> Result<Self, ParseError> {
        Value::from_str(s)
    }
}

/// Parse a whole document: leading whitespace, exactly one value, trailing
/// whitespace; any non-whitespace character after the value is an error.
pub open spec fn spec_parse_document(s: Seq<char>) -> Result<ValueView, ParseError> {
    let start = spec_ws_end(s, 0);
    match spec_parse_value(s, start) {
        Err(e) => Err(e),
        Ok((v, end)) => {
            let end2 = spec_ws_end(s, end);
            if end2 < s.len() {
                Err(ParseError::InvalidCharacter(spec_byte_offset(s, end2) as usize))
            } else {
                Ok(v)
            }
        },
    }
}

} // verus!
