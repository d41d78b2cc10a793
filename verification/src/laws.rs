use vstd::prelude::*;

use crate::error::ParseError;
use crate::format::{
    spec_compact_format, spec_escape, spec_escape_char, spec_escaped_len, spec_escaped_width,
    spec_hex_char, spec_int_chars, spec_nat_digits, spec_render_entries, spec_render_items,
    spec_render_value, spec_string_chars, JsonFormatter,
};
use crate::model::ValueView;
use crate::Number;
use vstd::utf8::{encode_scalar, encode_utf8, is_ascii_chars};
use crate::parse::{
    spec_digits_value, spec_escape_unit, spec_fold_entries, spec_hex4_value, spec_hex_value,
    spec_is_digit, spec_is_ws, spec_parse_document, spec_parse_entries, spec_parse_i64,
    spec_parse_items, spec_parse_number, spec_parse_string, spec_parse_string_body,
    spec_parse_value, spec_scan_number, spec_unescape, spec_ws_end,
};

verus! {

/// A hex digit written by `spec_hex_char` reads back as its own nibble.
proof fn lemma_hex_char_reads_back(value: u32, slot: usize)
    requires
        slot < 4,
    ensures
        spec_hex_value(spec_hex_char(value, slot)) matches Some(d) && d < 16 && ({
            let divisor: u32 = if slot == 0 {
                1
            } else if slot == 1 {
                16
            } else if slot == 2 {
                256
            } else {
                4096
            };
            d == (value / divisor) % 16
        }),
{
    let divisor: u32 = if slot == 0 {
        1
    } else if slot == 1 {
        16
    } else if slot == 2 {
        256
    } else {
        4096
    };
    let d = (value / divisor) % 16;
    if d < 10 {
        assert(spec_hex_char(value, slot) == ((d + 48) as u8) as char);
        assert((((d + 48) as u8) as char) as u32 == d + 48);
    } else {
        assert(spec_hex_char(value, slot) == ((d + 55) as u8) as char);
        assert((((d + 55) as u8) as char) as u32 == d + 55);
    }
}

/// The `\u00XX` escape of a control character reads back as that character,
/// whatever follows it.
#[verifier::rlimit(60)]
proof fn lemma_control_escape_reads_back(c: char, tail: Seq<char>)
    requires
        (c as u32) <= 0x1f,
        c != '\u{c}' && c != '\u{8}' && c != '\n' && c != '\r' && c != '\t',
    ensures
        spec_escape_unit(spec_escape_char(c).skip(1) + tail) == Ok::<(char, int), ParseError>(
            (c, 5),
        ),
{
    let cu = c as u32;
    let h1 = spec_hex_char(cu, 1);
    let h0 = spec_hex_char(cu, 0);
    assert(spec_escape_char(c) =~= seq!['\\', 'u', '0', '0', h1, h0]);
    let w = spec_escape_char(c).skip(1) + tail;
    assert(w =~= seq!['u', '0', '0', h1, h0] + tail);
    assert(w[0] == 'u');
    let x = w.skip(1);
    assert(x =~= seq!['0', '0', h1, h0] + tail);
    assert(x.len() >= 4);
    assert(x[0] == '0' && x[1] == '0' && x[2] == h1 && x[3] == h0);
    assert(spec_hex_value('0') == Some(0u16));
    lemma_hex_char_reads_back(cu, 1);
    lemma_hex_char_reads_back(cu, 0);
    let d1 = (cu / 16) % 16;
    let d0 = cu % 16;
    assert(cu == 16 * (cu / 16) + cu % 16) by (nonlinear_arith);
    assert(cu / 16 < 2);
    assert(d1 == cu / 16);
    assert(spec_hex4_value(x) == Ok::<u16, ParseError>(
        (0 * 4096 + 0 * 256 + d1 as u16 * 16 + d0 as u16) as u16,
    ));
    let h = (0 * 4096 + 0 * 256 + d1 as u16 * 16 + d0 as u16) as u16;
    assert(h == cu);
    assert(!crate::parse::is_surrogate(h));
    assert((h as u32) == cu);
    assert(((cu as char)) == c);
    assert(spec_escape_unit(w) == Ok::<(char, int), ParseError>((c, 5)));
}

/// What `spec_escape_char` writes, `spec_escape_unit` reads back: either the
/// character passed through unescaped, or a backslash unit naming it.
proof fn lemma_escape_char_reads_back(c: char, tail: Seq<char>)
    ensures
        spec_escape_char(c).len() == 1 ==> spec_escape_char(c)[0] == c && c != '\\',
        spec_escape_char(c).len() > 1 ==> spec_escape_char(c)[0] == '\\' && spec_escape_unit(
            spec_escape_char(c).skip(1) + tail,
        ) == Ok::<(char, int), ParseError>((c, spec_escape_char(c).len() - 1)),
{
    let ec = spec_escape_char(c);
    if c == '\\' || c == '"' || c == '\u{c}' || c == '\u{8}' || c == '\n' || c == '\r' || c
        == '\t' {
        let m = ec[1];
        assert(ec.skip(1) + tail =~= seq![m] + tail);
        assert((seq![m] + tail)[0] == m);
        assert(spec_escape_unit(seq![m] + tail) == Ok::<(char, int), ParseError>((c, 1)));
    } else if (c as u32) <= 0x1f {
        lemma_control_escape_reads_back(c, tail);
    } else {
    }
}

/// Unescaping undoes escaping: for every string `s`, including the empty one
/// and ones holding every control character, quote or backslash,
/// `spec_unescape(spec_escape(s))` succeeds and gives `s` back. Through the
/// contracts of `escape_string` and `unescape_string` the same holds of the
/// executable pair.
#[verifier::rlimit(100)]
pub proof fn lemma_unescape_escape(s: Seq<char>)
    ensures
        spec_unescape(spec_escape(s)) == Ok::<Seq<char>, ParseError>(s),
    decreases s.len(),
{
    if s.len() == 0 {
        assert(spec_escape(s) == Seq::<char>::empty());
        assert(spec_unescape(Seq::<char>::empty()) == Ok::<Seq<char>, ParseError>(
            Seq::<char>::empty(),
        ));
        assert(s =~= Seq::<char>::empty());
    } else {
        let c = s[0];
        let rest = s.skip(1);
        lemma_unescape_escape(rest);
        let ec = spec_escape_char(c);
        let tail = spec_escape(rest);
        let u = ec + tail;
        assert(spec_escape(s) == u);
        lemma_escape_char_reads_back(c, tail);
        if ec.len() == 1 {
            assert(u[0] == c);
            assert(u.skip(1) =~= tail);
            assert(spec_unescape(u) == Ok::<Seq<char>, ParseError>(seq![c] + rest));
        } else {
            let k = ec.len() - 1;
            assert(u[0] == '\\');
            assert(u.skip(1) =~= ec.skip(1) + tail);
            assert(spec_escape_unit(u.skip(1)) == Ok::<(char, int), ParseError>((c, k as int)));
            assert(1 + k <= u.len());
            assert(u.skip(1 + k as int) =~= tail);
            assert(spec_unescape(u) == Ok::<Seq<char>, ParseError>(seq![c] + rest));
        }
        assert(seq![c] + rest =~= s);
    }
}

/// UTF-8 encoding distributes over concatenation.
pub proof fn lemma_encode_utf8_concat(a: Seq<char>, b: Seq<char>)
    ensures
        encode_utf8(a + b) == encode_utf8(a) + encode_utf8(b),
    decreases a.len(),
{
    if a.len() == 0 {
        assert(a + b =~= b);
        assert(encode_utf8(a) =~= Seq::<u8>::empty());
        assert(Seq::<u8>::empty() + encode_utf8(b) =~= encode_utf8(b));
    } else {
        lemma_encode_utf8_concat(a.drop_first(), b);
        assert((a + b).drop_first() =~= a.drop_first() + b);
        assert((a + b)[0] == a[0]);
        assert(encode_utf8(a + b) == encode_scalar(a[0] as u32) + encode_utf8(
            a.drop_first() + b,
        ));
        assert(encode_utf8(a) == encode_scalar(a[0] as u32) + encode_utf8(a.drop_first()));
        assert(encode_scalar(a[0] as u32) + (encode_utf8(a.drop_first()) + encode_utf8(b)) =~= (
        encode_scalar(a[0] as u32) + encode_utf8(a.drop_first())) + encode_utf8(b));
    }
}

/// The escaped form of one character takes exactly its measured width in
/// bytes.
proof fn lemma_escape_char_byte_len(c: char)
    ensures
        encode_utf8(spec_escape_char(c)).len() == spec_escaped_width(c),
{
    broadcast use vstd::utf8::is_ascii_chars_encode_utf8;

    let ec = spec_escape_char(c);
    if c == '\\' || c == '"' || c == '\u{c}' || c == '\u{8}' || c == '\n' || c == '\r' || c
        == '\t' {
        assert(is_ascii_chars(ec));
    } else if (c as u32) <= 0x1f {
        let cu = c as u32;
        assert forall|slot: usize| slot < 4 implies (spec_hex_char(cu, slot) as u32) <= 0x7f by {
            lemma_hex_char_reads_back(cu, slot);
            let divisor: u32 = if slot == 0 {
                1
            } else if slot == 1 {
                16
            } else if slot == 2 {
                256
            } else {
                4096
            };
            let d = (cu / divisor) % 16;
            if d < 10 {
                assert(spec_hex_char(cu, slot) == ((d + 48) as u8) as char);
                assert((((d + 48) as u8) as char) as u32 == d + 48);
            } else {
                assert(spec_hex_char(cu, slot) == ((d + 55) as u8) as char);
                assert((((d + 55) as u8) as char) as u32 == d + 55);
            }
        }
        assert(is_ascii_chars(ec));
    } else {
        assert(ec =~= seq![c]);
        assert(ec.drop_first() =~= Seq::<char>::empty());
        assert(encode_utf8(ec) == encode_scalar(c as u32) + encode_utf8(Seq::<char>::empty()));
        assert(encode_utf8(Seq::<char>::empty()) =~= Seq::<u8>::empty());
        assert(encode_scalar(c as u32) + Seq::<u8>::empty() =~= encode_scalar(c as u32));
    }
}

/// The measured escape length is exactly the byte length of the escaped
/// text: through the contracts of `measure_escaped_string` (which returns
/// `spec_escaped_len`) and `escape_string` (whose result's bytes are
/// `encode_utf8` of `spec_escape`), a buffer of the measured size holds the
/// escaped string exactly.
pub proof fn lemma_measure_is_escaped_byte_len(s: Seq<char>)
    ensures
        encode_utf8(spec_escape(s)).len() == spec_escaped_len(s),
    decreases s.len(),
{
    if s.len() == 0 {
        assert(spec_escape(s) == Seq::<char>::empty());
        assert(encode_utf8(Seq::<char>::empty()) =~= Seq::<u8>::empty());
    } else {
        lemma_measure_is_escaped_byte_len(s.skip(1));
        lemma_escape_char_byte_len(s[0]);
        assert(spec_escape(s) == spec_escape_char(s[0]) + spec_escape(s.skip(1)));
        lemma_encode_utf8_concat(spec_escape_char(s[0]), spec_escape(s.skip(1)));
    }
}

/// Values that stay clear of the float path: every number in the tree is an
/// integer. (Float text comes from the outside double formatter, about whose
/// characters nothing is known, so the round-trip law is stated for trees of
/// this shape; floats are exercised by tests instead.)
pub open spec fn int_numbers_only(v: ValueView) -> bool
    decreases v,
{
    match v {
        ValueView::Number(n) => n is Int,
        ValueView::Array(elems) => forall|i: int|
            0 <= i < elems.len() ==> int_numbers_only(#[trigger] elems[i]),
        ValueView::Object(entries) => forall|i: int|
            0 <= i < entries.len() ==> int_numbers_only((#[trigger] entries[i]).1),
        _ => true,
    }
}

/// The digits of `n` are digit characters, at least one of them.
proof fn lemma_nat_digits_shape(n: nat)
    ensures
        spec_nat_digits(n).len() > 0,
        forall|j: int|
            0 <= j < spec_nat_digits(n).len() ==> spec_is_digit(#[trigger] spec_nat_digits(n)[j]),
    decreases n,
{
    if n >= 10 {
        lemma_nat_digits_shape(n / 10);
    }
}

/// Reading the digits of `n` back gives `n`.
proof fn lemma_digits_value_of_nat_digits(n: nat)
    ensures
        spec_digits_value(spec_nat_digits(n)) == n,
    decreases n,
{
    if n < 10 {
        let t = spec_nat_digits(n);
        assert(t =~= seq![((48 + n) as u8) as char]);
        assert(t.take(t.len() - 1) =~= Seq::<char>::empty());
        assert(spec_digits_value(t) == (spec_digits_value(Seq::<char>::empty()) * 10 + (t.last()
            as u32 - 48)) as nat);
    } else {
        lemma_digits_value_of_nat_digits(n / 10);
        let t = spec_nat_digits(n);
        let t1 = spec_nat_digits(n / 10);
        assert(t == t1.push(((48 + n % 10) as u8) as char));
        assert(t.take(t.len() - 1) =~= t1);
        assert(t.last() == ((48 + n % 10) as u8) as char);
        assert(spec_digits_value(t) == (spec_digits_value(t1) * 10 + (t.last() as u32 - 48)) as nat);
        assert(n == (n / 10) * 10 + n % 10) by (nonlinear_arith);
    }
}

/// The decimal text of an integer reads back as that integer.
proof fn lemma_parse_int_chars(i: i64)
    ensures
        spec_int_chars(i as int).len() > 0,
        spec_parse_i64(spec_int_chars(i as int)) == Some(i),
        i < 0 ==> spec_int_chars(i as int)[0] == '-',
        i >= 0 ==> spec_is_digit(spec_int_chars(i as int)[0]),
        forall|j: int|
            1 <= j < spec_int_chars(i as int).len() ==> spec_is_digit(
                #[trigger] spec_int_chars(i as int)[j],
            ),
{
    let t = spec_int_chars(i as int);
    if i < 0 {
        let m = (-(i as int)) as nat;
        lemma_nat_digits_shape(m);
        lemma_digits_value_of_nat_digits(m);
        assert(t == seq!['-'] + spec_nat_digits(m));
        assert(t.skip(1) =~= spec_nat_digits(m));
        assert(t[0] == '-');
        assert(!spec_is_digit('-') && '-' != '+');
        assert(spec_parse_i64(t) == Some((-(m as int)) as i64));
    } else {
        let m = i as nat;
        lemma_nat_digits_shape(m);
        lemma_digits_value_of_nat_digits(m);
        assert(t == spec_nat_digits(m));
        assert(spec_is_digit(t[0]));
        assert(t[0] != '-' && t[0] != '+');
        assert(spec_parse_i64(t) == Some(i));
    }
}

/// Folding entries whose keys are distinct and all new just appends them.
proof fn lemma_fold_entries_distinct(
    acc: Seq<(Seq<char>, ValueView)>,
    pairs: Seq<(Seq<char>, ValueView)>,
)
    requires
        ValueView::obj_keys_distinct(acc + pairs),
    ensures
        spec_fold_entries(acc, pairs) == acc + pairs,
    decreases pairs.len(),
{
    if pairs.len() == 0 {
        assert(acc + pairs =~= acc);
    } else {
        let p = pairs[0];
        assert((acc + pairs)[acc.len() as int] == p);
        assert forall|j: int| 0 <= j < acc.len() implies acc[j].0 != p.0 by {
            assert((acc + pairs)[j] == acc[j]);
        }
        assert(!ValueView::obj_has_key(acc, p.0));
        assert(ValueView::obj_insert(acc, p.0, p.1) == acc.push(p));
        assert(acc.push(p) + pairs.skip(1) =~= acc + pairs);
        lemma_fold_entries_distinct(acc.push(p), pairs.skip(1));
        assert(spec_fold_entries(acc, pairs) == spec_fold_entries(acc.push(p), pairs.skip(1)));
    }
}

/// Scanning a pure digit run that ends at a closing bracket, brace, comma
/// or the end of the input stops right there.
proof fn lemma_scan_digit_run(s: Seq<char>, a: int, b: int, fn0: bool)
    requires
        0 <= a <= b <= s.len(),
        forall|j: int| a <= j < b ==> spec_is_digit(#[trigger] s[j]),
        b == s.len() || s[b] == ',' || s[b] == ']' || s[b] == '}',
    ensures
        spec_scan_number(s, a, fn0, false, false) == Ok::<(bool, bool, int), ParseError>(
            ((fn0 || a < b), false, b),
        ),
    decreases b - a,
{
    if a < b {
        assert(spec_is_digit(s[a]));
        lemma_scan_digit_run(s, a + 1, b, true);
    } else {
        if b < s.len() {
            assert(!spec_is_digit(s[b]) && s[b] != '.' && s[b] != 'e' && s[b] != 'E');
        }
    }
}

/// A rendered string body (the escaped text, then the closing quote) parses
/// back as the original text, ending right after the quote.
#[verifier::rlimit(100)]
proof fn lemma_parse_string_body_render(t: Seq<char>, s: Seq<char>, i: int, start: int)
    requires
        0 <= i,
        i + spec_escape(t).len() + 1 <= s.len(),
        s.subrange(i, i + spec_escape(t).len()) == spec_escape(t),
        s[i + spec_escape(t).len()] == '"',
    ensures
        spec_parse_string_body(s, i, start) == Ok::<(Seq<char>, int), ParseError>(
            (t, i + spec_escape(t).len() + 1),
        ),
    decreases t.len(),
{
    if t.len() == 0 {
        assert(spec_escape(t) == Seq::<char>::empty());
        assert(s[i] == '"');
        assert(t =~= Seq::<char>::empty());
        assert(spec_parse_string_body(s, i, start) == Ok::<(Seq<char>, int), ParseError>(
            (Seq::<char>::empty(), i + 1),
        ));
    } else {
        let c = t[0];
        let rest = t.skip(1);
        let ec = spec_escape_char(c);
        let erest = spec_escape(rest);
        assert(spec_escape(t) == ec + erest);
        let el = spec_escape(t).len();
        assert(ec.len() >= 1);
        assert forall|j: int| 0 <= j < el implies s[i + j] == spec_escape(t)[j] by {
            assert(s.subrange(i, i + el)[j] == s[i + j]);
        }
        let i2 = i + ec.len();
        assert forall|j: int|
            0 <= j < erest.len() implies s.subrange(i2, i2 + erest.len())[j] == erest[j] by {
            assert(s[i + (ec.len() + j)] == spec_escape(t)[ec.len() + j]);
            assert((ec + erest)[ec.len() + j] == erest[j]);
            assert(s.subrange(i2, i2 + erest.len())[j] == s[i2 + j]);
            assert(i2 + j == i + (ec.len() + j));
        }
        assert(s.subrange(i2, i2 + erest.len()) =~= erest);
        assert(s[i + (el as int)] == '"');
        assert(i2 + erest.len() == i + el);
        lemma_parse_string_body_render(rest, s, i2, start);
        let tail = s.skip(i2);
        lemma_escape_char_reads_back(c, tail);
        assert(s[i + 0] == spec_escape(t)[0]);
        assert(spec_escape(t)[0] == ec[0]);
        if ec.len() == 1 {
            assert(s[i] == c && c != '\\');
            assert(c != '"' && c != '\n' && c != '\r');
            assert(spec_parse_string_body(s, i, start) == (match spec_parse_string_body(
                s,
                i + 1,
                start,
            ) {
                Ok((u, end)) => Ok::<(Seq<char>, int), ParseError>((seq![s[i]] + u, end)),
                Err(e) => Err(e),
            }));
            assert(spec_parse_string_body(s, i, start) == Ok::<(Seq<char>, int), ParseError>(
                (seq![c] + rest, i2 + erest.len() + 1),
            ));
            assert(seq![c] + rest =~= t);
        } else {
            assert(s[i] == '\\');
            let k = ec.len() - 1;
            assert forall|j: int|
                0 <= j < s.len() - i - 1 implies s.skip(i + 1)[j] == (ec.skip(1) + tail)[j] by {
                if j < k {
                    assert(s[i + (1 + j)] == spec_escape(t)[1 + j]);
                    assert((ec + erest)[1 + j] == ec[1 + j]);
                    assert(s.skip(i + 1)[j] == s[i + 1 + j]);
                } else {
                    assert(s.skip(i + 1)[j] == s[i + 1 + j]);
                    assert((ec.skip(1) + tail)[j] == tail[j - k]);
                    assert(tail[j - k] == s[i2 + (j - k)]);
                }
            }
            assert(s.skip(i + 1) =~= ec.skip(1) + tail);
            assert(spec_escape_unit(s.skip(i + 1)) == Ok::<(char, int), ParseError>(
                (c, k as int),
            ));
            assert(1 <= k && i + 1 + k <= s.len());
            assert(i + 1 + k == i2);
            assert(spec_parse_string_body(s, i, start) == Ok::<(Seq<char>, int), ParseError>(
                (seq![c] + rest, i2 + erest.len() + 1),
            ));
            assert(seq![c] + rest =~= t);
        }
        assert(seq![c] + rest == t);
        assert(i2 + erest.len() + 1 == i + spec_escape(t).len() + 1);
        assert(spec_parse_string_body(s, i, start) == Ok::<(Seq<char>, int), ParseError>(
            (t, i + spec_escape(t).len() + 1),
        ));
    }
}

/// Skipping whitespace where none stands goes nowhere.
proof fn lemma_ws_end_noop(s: Seq<char>, pos: int)
    requires
        0 <= pos,
        pos < s.len() ==> !spec_is_ws(s[pos]),
    ensures
        spec_ws_end(s, pos) == pos,
{
}

/// A piece of `r` standing at `pos` of `s` transfers index by index.
proof fn lemma_subrange_transfer(s: Seq<char>, pos: int, r: Seq<char>, a: int, b: int)
    requires
        0 <= pos,
        pos + r.len() <= s.len(),
        s.subrange(pos, pos + r.len()) == r,
        0 <= a <= b <= r.len(),
    ensures
        s.subrange(pos + a, pos + b) == r.subrange(a, b),
        forall|j: int| a <= j < b ==> s[pos + j] == #[trigger] r[j],
{
    assert forall|j: int| 0 <= j < r.len() implies s[pos + j] == #[trigger] r[j] by {
        assert(s.subrange(pos, pos + r.len())[j] == s[pos + j]);
    }
    assert forall|j: int|
        0 <= j < b - a implies s.subrange(pos + a, pos + b)[j] == r.subrange(a, b)[j] by {
        assert(s.subrange(pos + a, pos + b)[j] == s[pos + a + j]);
        assert(s[pos + (a + j)] == r[a + j]);
        assert(pos + a + j == pos + (a + j));
    }
    assert(s.subrange(pos + a, pos + b) =~= r.subrange(a, b));
}

/// Does a value text lawfully end at `end`: nothing after it, or a
/// separator or closing bracket or brace?
pub open spec fn boundary_after(s: Seq<char>, end: int) -> bool {
    end == s.len() || s[end] == ',' || s[end] == ']' || s[end] == '}'
}

/// Rendered one-line text is never empty and never starts with whitespace
/// or a closing character.
proof fn lemma_render_first_char(v: ValueView, fmt: JsonFormatter)
    requires
        fmt.sameline,
        int_numbers_only(v),
    ensures
        spec_render_value(v, fmt).len() > 0,
        !spec_is_ws(spec_render_value(v, fmt)[0]),
        spec_render_value(v, fmt)[0] != ']',
        spec_render_value(v, fmt)[0] != '}',
        spec_render_value(v, fmt)[0] != ',',
        spec_render_value(v, fmt)[0] != ':',
{
    let t = spec_render_value(v, fmt);
    match v {
        ValueView::Null => {
            assert(t[0] == 'n');
        },
        ValueView::Boolean(b) => {
            assert(t[0] == 't' || t[0] == 'f');
        },
        ValueView::Number(n) => {
            let i = n->Int_0;
            lemma_parse_int_chars(i);
            assert(t == spec_int_chars(i as int));
            assert(t[0] == '-' || spec_is_digit(t[0]));
            if spec_is_digit(t[0]) {
                assert(48 <= t[0] as u32 <= 57);
            }
        },
        ValueView::String(str) => {
            assert(t[0] == '"');
        },
        ValueView::Array(elems) => {
            assert(t[0] == '[');
        },
        ValueView::Object(entries) => {
            assert(t[0] == '{');
        },
    }
}

/// A rendered integer number, followed by a boundary, parses back.
#[verifier::rlimit(100)]
proof fn lemma_parse_render_number(n: Number, s: Seq<char>, pos: int, fmt: JsonFormatter)
    requires
        fmt.sameline && fmt.no_spacing,
        n is Int,
        0 <= pos,
        pos + spec_render_value(ValueView::Number(n), fmt).len() <= s.len(),
        s.subrange(pos, pos + spec_render_value(ValueView::Number(n), fmt).len())
            == spec_render_value(ValueView::Number(n), fmt),
        boundary_after(s, pos + spec_render_value(ValueView::Number(n), fmt).len()),
    ensures
        spec_parse_value(s, pos) == Ok::<(ValueView, int), ParseError>(
            (ValueView::Number(n), pos + spec_render_value(ValueView::Number(n), fmt).len()),
        ),
{
    let t = spec_render_value(ValueView::Number(n), fmt);
    let end = pos + t.len();
    lemma_subrange_transfer(s, pos, t, 0, t.len() as int);
    assert(s[pos + 0] == t[0]);
    let i = n->Int_0;
    lemma_parse_int_chars(i);
    assert(t == spec_int_chars(i as int));
    let first = if s[pos] == '+' || s[pos] == '-' {
        pos + 1
    } else {
        pos
    };
    assert forall|j: int| first <= j < end implies spec_is_digit(#[trigger] s[j]) by {
        assert(s[pos + (j - pos)] == t[j - pos]);
    }
    assert(s[pos] == t[0]);
    assert(s[pos] != '+');
    lemma_scan_digit_run(s, first, end, false);
    assert(first < end);
    assert(s.subrange(pos, end) == t);
    assert(spec_parse_number(s, pos) == Ok::<(Number, int), ParseError>((Number::Int(i), end)));
    assert(s[pos] == '-' || spec_is_digit(s[pos]));
    if spec_is_digit(s[pos]) {
        assert(48 <= s[pos] as u32 <= 57);
    }
    assert(s[pos] != 't' && s[pos] != 'f' && s[pos] != 'n' && s[pos] != '"' && s[pos] != '{' && s[
        pos] != '[');
}

/// A rendered string value parses back.
#[verifier::rlimit(100)]
proof fn lemma_parse_render_string(str: Seq<char>, s: Seq<char>, pos: int, fmt: JsonFormatter)
    requires
        fmt.sameline && fmt.no_spacing,
        0 <= pos,
        pos + spec_render_value(ValueView::String(str), fmt).len() <= s.len(),
        s.subrange(pos, pos + spec_render_value(ValueView::String(str), fmt).len())
            == spec_render_value(ValueView::String(str), fmt),
    ensures
        spec_parse_value(s, pos) == Ok::<(ValueView, int), ParseError>(
            (ValueView::String(str), pos + spec_render_value(ValueView::String(str), fmt).len()),
        ),
{
    let t = spec_render_value(ValueView::String(str), fmt);
    let end = pos + t.len();
    let e = spec_escape(str);
    assert(t == spec_string_chars(str));
    assert(t =~= seq!['"'] + e + seq!['"']);
    lemma_wrapped_transfer(s, pos, t, e, '"', '"');
    lemma_parse_string_body_render(str, s, pos + 1, pos + 1);
    assert(spec_parse_string(s, pos) == Ok::<(Seq<char>, int), ParseError>(
        (str, pos + 1 + e.len() + 1),
    ));
    assert(pos + 1 + e.len() + 1 == end);
}

/// Text of the shape `open inner close`, standing at `pos` of `s`,
/// transfers piecewise: the brackets and the inner span.
proof fn lemma_wrapped_transfer(
    s: Seq<char>,
    pos: int,
    t: Seq<char>,
    inner: Seq<char>,
    open_c: char,
    close_c: char,
)
    requires
        0 <= pos,
        pos + t.len() <= s.len(),
        s.subrange(pos, pos + t.len()) == t,
        t == seq![open_c] + inner + seq![close_c],
    ensures
        s[pos] == open_c,
        s.subrange(pos + 1, pos + 1 + inner.len()) == inner,
        s[pos + 1 + inner.len()] == close_c,
{
    lemma_subrange_transfer(s, pos, t, 0, t.len() as int);
    assert(s[pos + 0] == t[0]);
    assert(t[0] == open_c);
    assert forall|j: int|
        0 <= j < inner.len() implies s.subrange(pos + 1, pos + 1 + inner.len())[j] == inner[j] by {
        assert(s[pos + (1 + j)] == t[1 + j]);
        assert(t[1 + j] == inner[j]);
        assert(s.subrange(pos + 1, pos + 1 + inner.len())[j] == s[pos + 1 + j]);
        assert(pos + 1 + j == pos + (1 + j));
    }
    assert(s.subrange(pos + 1, pos + 1 + inner.len()) =~= inner);
    assert(s[pos + (1 + inner.len())] == t[1 + inner.len() as int]);
    assert(t[1 + inner.len() as int] == close_c);
    assert(pos + 1 + inner.len() == pos + (1 + inner.len()));
}

/// One-line rendered text of a well-formed value parses back as that value,
/// wherever it stands, as long as a boundary follows it.
#[verifier::rlimit(100)]
proof fn lemma_parse_render_value(v: ValueView, s: Seq<char>, pos: int, fmt: JsonFormatter)
    requires
        fmt.sameline && fmt.no_spacing,
        v.wf(),
        int_numbers_only(v),
        0 <= pos,
        pos + spec_render_value(v, fmt).len() <= s.len(),
        s.subrange(pos, pos + spec_render_value(v, fmt).len()) == spec_render_value(v, fmt),
        boundary_after(s, pos + spec_render_value(v, fmt).len()),
    ensures
        spec_parse_value(s, pos) == Ok::<(ValueView, int), ParseError>(
            (v, pos + spec_render_value(v, fmt).len()),
        ),
    decreases v, 0int, 0int,
{
    let t = spec_render_value(v, fmt);
    let end = pos + t.len();
    lemma_render_first_char(v, fmt);
    lemma_subrange_transfer(s, pos, t, 0, t.len() as int);
    assert(s[pos + 0] == t[0]);
    match v {
        ValueView::Null => {
            assert(t =~= seq!['n', 'u', 'l', 'l']);
            assert(s.subrange(pos, pos + 4) == t);
            assert(crate::parse::spec_matches(s, pos, seq!['n', 'u', 'l', 'l']));
            assert(crate::parse::spec_parse_null(s, pos) == Ok::<int, ParseError>(pos + 4));
        },
        ValueView::Boolean(b) => {
            if b {
                assert(t =~= seq!['t', 'r', 'u', 'e']);
                assert(crate::parse::spec_matches(s, pos, seq!['t', 'r', 'u', 'e']));
            } else {
                assert(t =~= seq!['f', 'a', 'l', 's', 'e']);
                assert(crate::parse::spec_matches(s, pos, seq!['f', 'a', 'l', 's', 'e']));
                assert(s[pos + 0] == 'f');
                assert(!crate::parse::spec_matches(s, pos, seq!['t', 'r', 'u', 'e'])) by {
                    if crate::parse::spec_matches(s, pos, seq!['t', 'r', 'u', 'e']) {
                        assert(s.subrange(pos, pos + 4)[0] == s[pos]);
                    }
                }
            }
        },
        ValueView::Number(n) => {
            lemma_parse_render_number(n, s, pos, fmt);
        },
        ValueView::String(str) => {
            lemma_parse_render_string(str, s, pos, fmt);
        },
        ValueView::Array(elems) => {
            let fmt2 = fmt.spec_indented();
            let it = spec_render_items(elems, fmt2);
            assert(t =~= seq!['['] + it + seq![']']);
            lemma_wrapped_transfer(s, pos, t, it, '[', ']');
            assert forall|j: int| 0 <= j < elems.len() implies (#[trigger] elems[j]).wf()
                && int_numbers_only(elems[j]) by {
                reveal_with_fuel(ValueView::wf, 2);
                reveal_with_fuel(int_numbers_only, 2);
                assert(ValueView::Array(elems).wf());
                assert(int_numbers_only(ValueView::Array(elems)));
            }
            lemma_parse_render_items(elems, s, pos + 1, fmt2);
            assert(spec_parse_items(s, pos + 1) == Ok::<(Seq<ValueView>, int), ParseError>(
                (elems, pos + 1 + it.len() + 1),
            ));
            assert(pos + 1 + it.len() + 1 == end);
        },
        ValueView::Object(entries) => {
            let fmt2 = fmt.spec_indented();
            let et = spec_render_entries(entries, fmt2);
            assert(t =~= seq!['{'] + et + seq!['}']);
            lemma_wrapped_transfer(s, pos, t, et, '{', '}');
            assert forall|j: int| 0 <= j < entries.len() implies (#[trigger] entries[j]).1.wf()
                && int_numbers_only(entries[j].1) by {
                reveal_with_fuel(ValueView::wf, 2);
                reveal_with_fuel(int_numbers_only, 2);
                assert(ValueView::Object(entries).wf());
                assert(int_numbers_only(ValueView::Object(entries)));
            }
            lemma_parse_render_entries(entries, s, pos + 1, fmt2);
            assert(spec_parse_entries(s, pos + 1) == Ok::<
                (Seq<(Seq<char>, ValueView)>, int),
                ParseError,
            >((entries, pos + 1 + et.len() + 1)));
            assert(Seq::<(Seq<char>, ValueView)>::empty() + entries =~= entries);
            assert(ValueView::obj_keys_distinct(entries)) by {
                reveal_with_fuel(ValueView::wf, 2);
            }
            lemma_fold_entries_distinct(Seq::empty(), entries);
            assert(pos + 1 + et.len() + 1 == end);
        },
    }
}

/// The rendered element list of an array, followed by its closing bracket,
/// parses back as those elements.
#[verifier::rlimit(100)]
proof fn lemma_parse_render_items(elems: Seq<ValueView>, s: Seq<char>, i: int, fmt: JsonFormatter)
    requires
        fmt.sameline && fmt.no_spacing,
        forall|j: int| 0 <= j < elems.len() ==> (#[trigger] elems[j]).wf(),
        forall|j: int| 0 <= j < elems.len() ==> int_numbers_only(#[trigger] elems[j]),
        0 <= i,
        i + spec_render_items(elems, fmt).len() + 1 <= s.len(),
        s.subrange(i, i + spec_render_items(elems, fmt).len()) == spec_render_items(elems, fmt),
        s[i + spec_render_items(elems, fmt).len()] == ']',
    ensures
        spec_parse_items(s, i) == Ok::<(Seq<ValueView>, int), ParseError>(
            (elems, i + spec_render_items(elems, fmt).len() + 1),
        ),
    decreases elems, 1int, 0int,
{
    let it = spec_render_items(elems, fmt);
    let close = i + it.len();
    if elems.len() == 0 {
        assert(it == Seq::<char>::empty());
        assert(s[i] == ']');
        lemma_ws_end_noop(s, i);
        assert(elems =~= Seq::<ValueView>::empty());
    } else {
        let v0 = elems[0];
        let t0 = spec_render_value(v0, fmt);
        lemma_render_first_char(v0, fmt);
        lemma_subrange_transfer(s, i, it, 0, it.len() as int);
        if elems.len() == 1 {
            assert(it =~= t0);
            assert(s.subrange(i, i + t0.len()) == t0);
            assert(s[i + t0.len()] == ']');
            lemma_parse_render_value(v0, s, i, fmt);
            assert(s[i + 0] == t0[0]);
            lemma_ws_end_noop(s, i);
            assert(s[i] != ']');
            let p = i + t0.len();
            lemma_ws_end_noop(s, p);
            assert(seq![v0] =~= elems);
        } else {
            let rest = elems.skip(1);
            let itr = spec_render_items(rest, fmt);
            assert(it =~= t0 + (seq![','] + itr)) by {
                assert(fmt.spec_item_prefix() == Seq::<char>::empty());
                assert(fmt.spec_separator() =~= seq![',']);
            }
            assert forall|j: int| 0 <= j < t0.len() implies s.subrange(i, i + t0.len())[j] == t0[j]
                by {
                assert(s[i + j] == it[j]);
                assert(it[j] == (t0 + (seq![','] + itr))[j]);
                assert(s.subrange(i, i + t0.len())[j] == s[i + j]);
            }
            assert(s.subrange(i, i + t0.len()) =~= t0);
            let p = i + t0.len();
            assert(s[i + (t0.len() as int)] == it[t0.len() as int]);
            assert(it[t0.len() as int] == ',');
            assert(s[p] == ',');
            lemma_parse_render_value(v0, s, i, fmt);
            assert(s[i + 0] == t0[0]);
            lemma_ws_end_noop(s, i);
            assert(s[i] != ']');
            lemma_ws_end_noop(s, p);
            assert forall|j: int| 0 <= j < itr.len() implies s.subrange(p + 1, p + 1 + itr.len())[j]
                == itr[j] by {
                assert(s[i + (t0.len() + 1 + j)] == it[t0.len() + 1 + j]);
                assert(it[t0.len() + 1 + j] == itr[j]);
                assert(s.subrange(p + 1, p + 1 + itr.len())[j] == s[p + 1 + j]);
                assert(p + 1 + j == i + (t0.len() + 1 + j));
            }
            assert(s.subrange(p + 1, p + 1 + itr.len()) =~= itr);
            assert(p + 1 + itr.len() == close);
            assert(s[p + 1 + itr.len()] == ']');
            lemma_parse_render_items(rest, s, p + 1, fmt);
            assert(seq![v0] + rest =~= elems);
        }
    }
}

/// The rendered entry list of an object, followed by its closing brace,
/// parses back as those entries, in order.
#[verifier::rlimit(100)]
#[verifier::spinoff_prover]
proof fn lemma_parse_render_entries(
    entries: Seq<(Seq<char>, ValueView)>,
    s: Seq<char>,
    i: int,
    fmt: JsonFormatter,
)
    requires
        fmt.sameline && fmt.no_spacing,
        forall|j: int| 0 <= j < entries.len() ==> (#[trigger] entries[j]).1.wf(),
        forall|j: int| 0 <= j < entries.len() ==> int_numbers_only(#[trigger] entries[j].1),
        0 <= i,
        i + spec_render_entries(entries, fmt).len() + 1 <= s.len(),
        s.subrange(i, i + spec_render_entries(entries, fmt).len()) == spec_render_entries(
            entries,
            fmt,
        ),
        s[i + spec_render_entries(entries, fmt).len()] == '}',
    ensures
        spec_parse_entries(s, i) == Ok::<(Seq<(Seq<char>, ValueView)>, int), ParseError>(
            (entries, i + spec_render_entries(entries, fmt).len() + 1),
        ),
    decreases entries, 1int, 0int,
{
    let et = spec_render_entries(entries, fmt);
    let close = i + et.len();
    if entries.len() == 0 {
        assert(et == Seq::<char>::empty());
        assert(s[i] == '}');
        lemma_ws_end_noop(s, i);
        assert(entries =~= Seq::<(Seq<char>, ValueView)>::empty());
    } else {
        let key = entries[0].0;
        let v0 = entries[0].1;
        let kt = spec_string_chars(key);
        let t0 = spec_render_value(v0, fmt);
        let e = spec_escape(key);
        let head = kt + seq![':'] + t0;
        lemma_render_first_char(v0, fmt);
        lemma_subrange_transfer(s, i, et, 0, et.len() as int);
        let tail_part: Seq<char> = if entries.len() > 1 {
            seq![','] + spec_render_entries(entries.skip(1), fmt)
        } else {
            Seq::empty()
        };
        assert(et =~= head + tail_part) by {
            assert(fmt.spec_item_prefix() == Seq::<char>::empty());
            assert(fmt.spec_colon() =~= seq![':']);
            assert(fmt.spec_separator() =~= seq![',']);
        }
        // The key string.
        assert(kt =~= seq!['"'] + e + seq!['"']);
        assert(s[i + 0] == et[0]);
        assert(et[0] == '"');
        lemma_ws_end_noop(s, i);
        assert forall|j: int| 0 <= j < e.len() implies s.subrange(i + 1, i + 1 + e.len())[j] == e[j]
            by {
            assert(s[i + (1 + j)] == et[1 + j]);
            assert(et[1 + j] == e[j]);
            assert(s.subrange(i + 1, i + 1 + e.len())[j] == s[i + 1 + j]);
            assert(i + 1 + j == i + (1 + j));
        }
        assert(s.subrange(i + 1, i + 1 + e.len()) =~= e);
        assert(s[i + (1 + e.len())] == et[1 + e.len() as int]);
        assert(et[1 + e.len() as int] == '"');
        lemma_parse_string_body_render(key, s, i + 1, i + 1);
        let pk = i + kt.len();
        assert(spec_parse_string(s, i) == Ok::<(Seq<char>, int), ParseError>((key, pk)));
        // The colon.
        assert(s[i + (kt.len() as int)] == et[kt.len() as int]);
        assert(et[kt.len() as int] == ':');
        assert(s[pk] == ':');
        lemma_ws_end_noop(s, pk);
        // The value.
        let pv = pk + 1;
        assert forall|j: int| 0 <= j < t0.len() implies s.subrange(pv, pv + t0.len())[j] == t0[j]
            by {
            assert(s[i + (kt.len() + 1 + j)] == et[kt.len() + 1 + j]);
            assert(et[kt.len() + 1 + j] == t0[j]);
            assert(s.subrange(pv, pv + t0.len())[j] == s[pv + j]);
            assert(pv + j == i + (kt.len() + 1 + j));
        }
        assert(s.subrange(pv, pv + t0.len()) =~= t0);
        let p = pv + t0.len();
        assert(s[pv + 0] == t0[0]);
        lemma_ws_end_noop(s, pv);
        if entries.len() == 1 {
            assert(p == close);
            assert(s[p] == '}');
            lemma_parse_render_value(v0, s, pv, fmt);
            lemma_ws_end_noop(s, p);
            assert(seq![(key, v0)] =~= entries);
        } else {
            assert(s[i + (head.len() as int)] == et[head.len() as int]);
            assert(et[head.len() as int] == ',');
            assert(s[p] == ',');
            lemma_parse_render_value(v0, s, pv, fmt);
            lemma_ws_end_noop(s, p);
            let rest = entries.skip(1);
            let etr = spec_render_entries(rest, fmt);
            assert forall|j: int| 0 <= j < etr.len() implies s.subrange(p + 1, p + 1 + etr.len())[j]
                == etr[j] by {
                assert(s[i + (head.len() + 1 + j)] == et[head.len() + 1 + j]);
                assert(et[head.len() + 1 + j] == etr[j]);
                assert(s.subrange(p + 1, p + 1 + etr.len())[j] == s[p + 1 + j]);
                assert(p + 1 + j == i + (head.len() + 1 + j));
            }
            assert(s.subrange(p + 1, p + 1 + etr.len()) =~= etr);
            assert(p + 1 + etr.len() == close);
            assert(s[p + 1 + etr.len()] == '}');
            lemma_parse_render_entries(rest, s, p + 1, fmt);
            assert(seq![(key, v0)] + rest =~= entries);
        }
    }
}

/// Whitespace skipping stays inside the input.
proof fn lemma_ws_end_bounds(s: Seq<char>, pos: int)
    requires
        0 <= pos <= s.len(),
    ensures
        pos <= spec_ws_end(s, pos) <= s.len(),
    decreases s.len() - pos,
{
    if pos < s.len() && spec_is_ws(s[pos]) {
        lemma_ws_end_bounds(s, pos + 1);
    }
}

/// Folding entries into a mapping with distinct keys and well-formed values
/// keeps both: inserting replaces in place or appends a fresh key.
proof fn lemma_fold_entries_wf(
    acc: Seq<(Seq<char>, ValueView)>,
    pairs: Seq<(Seq<char>, ValueView)>,
)
    requires
        ValueView::obj_keys_distinct(acc),
        forall|j: int| 0 <= j < acc.len() ==> (#[trigger] acc[j]).1.wf(),
        forall|j: int| 0 <= j < pairs.len() ==> (#[trigger] pairs[j]).1.wf(),
    ensures
        ValueView::obj_keys_distinct(spec_fold_entries(acc, pairs)),
        forall|j: int|
            0 <= j < spec_fold_entries(acc, pairs).len() ==> (#[trigger] spec_fold_entries(
                acc,
                pairs,
            )[j]).1.wf(),
    decreases pairs.len(),
{
    if pairs.len() > 0 {
        let p = pairs[0];
        let acc2 = ValueView::obj_insert(acc, p.0, p.1);
        if ValueView::obj_has_key(acc, p.0) {
            let idx = ValueView::obj_index_of(acc, p.0);
            assert(acc2 == acc.update(idx, (p.0, p.1)));
            assert(acc[idx].0 == p.0);
            assert forall|a: int, b: int| 0 <= a < b < acc2.len() implies acc2[a].0 != acc2[b].0
                by {
                assert(acc2[a].0 == acc[a].0 && acc2[b].0 == acc[b].0);
            }
        } else {
            assert(acc2 == acc.push(p));
            assert forall|a: int, b: int| 0 <= a < b < acc2.len() implies acc2[a].0 != acc2[b].0
                by {
                if b < acc.len() {
                } else {
                    assert(acc2[b] == p);
                    assert(acc[a].0 != p.0);
                }
            }
        }
        assert(p.1.wf());
        assert forall|j: int| 0 <= j < acc2.len() implies (#[trigger] acc2[j]).1.wf() by {
            if ValueView::obj_has_key(acc, p.0) && j == ValueView::obj_index_of(acc, p.0) {
            } else if j < acc.len() {
                assert(acc2[j] == acc[j]);
            } else {
                assert(acc2[j] == p);
            }
        }
        assert forall|j: int| 0 <= j < pairs.skip(1).len() implies (#[trigger] pairs.skip(1)[j]).1
            .wf() by {
            assert(pairs.skip(1)[j] == pairs[1 + j]);
        }
        lemma_fold_entries_wf(acc2, pairs.skip(1));
        assert(spec_fold_entries(acc, pairs) == spec_fold_entries(acc2, pairs.skip(1)));
    }
}

/// Whatever the parser accepts is well formed: every object in the tree
/// carries each key once (last write won while it was built).
proof fn lemma_parse_value_wf(s: Seq<char>, pos: int)
    requires
        0 <= pos <= s.len(),
    ensures
        spec_parse_value(s, pos) matches Ok((v, p)) ==> v.wf(),
    decreases s.len() - pos, 3int, 0int,
{
    reveal_with_fuel(ValueView::wf, 2);
    if pos < s.len() {
        let c = s[pos];
        if c == '{' {
            match spec_parse_entries(s, pos + 1) {
                Ok((pairs, end)) => {
                    lemma_parse_entries_wf(s, pos + 1);
                    lemma_fold_entries_wf(Seq::empty(), pairs);
                },
                Err(e) => {},
            }
        } else if c == '[' {
            lemma_parse_items_wf(s, pos + 1);
        }
    }
}

/// Every element list the parser accepts holds well-formed values.
proof fn lemma_parse_items_wf(s: Seq<char>, i: int)
    requires
        0 <= i <= s.len(),
    ensures
        spec_parse_items(s, i) matches Ok((elems, end)) ==> forall|j: int|
            0 <= j < elems.len() ==> (#[trigger] elems[j]).wf(),
    decreases s.len() - i, 4int, 0int,
{
    let i2 = spec_ws_end(s, i);
    lemma_ws_end_bounds(s, i);
    if i2 < s.len() && s[i2] != ']' {
        match spec_parse_value(s, i2) {
            Ok((v, p)) => {
                lemma_parse_value_wf(s, i2);
                if i2 < p && p <= s.len() {
                    let p2 = spec_ws_end(s, p);
                    lemma_ws_end_bounds(s, p);
                    if p2 < s.len() && s[p2] == ',' {
                        lemma_parse_items_wf(s, p2 + 1);
                        match spec_parse_items(s, p2 + 1) {
                            Ok((vs, end)) => {
                                assert forall|j: int|
                                    0 <= j < (seq![v] + vs).len() implies (#[trigger] (seq![v]
                                    + vs)[j]).wf() by {
                                    if j == 0 {
                                        assert((seq![v] + vs)[0] == v);
                                    } else {
                                        assert((seq![v] + vs)[j] == vs[j - 1]);
                                    }
                                }
                            },
                            Err(e) => {},
                        }
                    }
                }
            },
            Err(e) => {},
        }
    }
}

/// Every entry list the parser accepts holds well-formed values.
proof fn lemma_parse_entries_wf(s: Seq<char>, i: int)
    requires
        0 <= i <= s.len(),
    ensures
        spec_parse_entries(s, i) matches Ok((pairs, end)) ==> forall|j: int|
            0 <= j < pairs.len() ==> (#[trigger] pairs[j]).1.wf(),
    decreases s.len() - i, 4int, 0int,
{
    let i2 = spec_ws_end(s, i);
    lemma_ws_end_bounds(s, i);
    if i2 < s.len() && s[i2] == '"' {
        match spec_parse_string(s, i2) {
            Ok((key, pk)) => {
                if i2 < pk && pk <= s.len() {
                    let pc = spec_ws_end(s, pk);
                    lemma_ws_end_bounds(s, pk);
                    if pc < s.len() && s[pc] == ':' {
                        let pv = spec_ws_end(s, pc + 1);
                        lemma_ws_end_bounds(s, pc + 1);
                        if pv <= s.len() {
                            lemma_parse_value_wf(s, pv);
                            match spec_parse_value(s, pv) {
                                Ok((v, p)) => {
                                    if pv < p && p <= s.len() {
                                        let p2 = spec_ws_end(s, p);
                                        lemma_ws_end_bounds(s, p);
                                        if p2 < s.len() && s[p2] == ',' {
                                            lemma_parse_entries_wf(s, p2 + 1);
                                            match spec_parse_entries(s, p2 + 1) {
                                                Ok((pairs, end)) => {
                                                    assert forall|j: int|
                                                        0 <= j < (seq![(key, v)] + pairs).len()
                                                            implies (#[trigger] (seq![(key, v)]
                                                        + pairs)[j]).1.wf() by {
                                                        if j == 0 {
                                                            assert((seq![(key, v)] + pairs)[0] == (
                                                            key,
                                                            v,
                                                            ));
                                                        } else {
                                                            assert((seq![(key, v)] + pairs)[j]
                                                                == pairs[j - 1]);
                                                        }
                                                    }
                                                },
                                                Err(e) => {},
                                            }
                                        } else if p2 < s.len() && s[p2] == '}' {
                                            assert forall|j: int|
                                                0 <= j < seq![(key, v)].len() implies (
                                            #[trigger] seq![(key, v)][j]).1.wf() by {
                                                assert(seq![(key, v)][j] == (key, v));
                                            }
                                        }
                                    }
                                },
                                Err(e) => {},
                            }
                        }
                    }
                }
            },
            Err(e) => {},
        }
    }
}

/// Whatever the document parser accepts is well formed: every object in the
/// tree, at any depth, carries each key once.
pub proof fn lemma_parse_document_wf(s: Seq<char>)
    ensures
        spec_parse_document(s) matches Ok(v) ==> v.wf(),
{
    lemma_ws_end_bounds(s, 0);
    lemma_parse_value_wf(s, spec_ws_end(s, 0));
}

/// Round-trip: a well-formed value tree whose numbers are integers, rendered
/// compactly, parses back as the same tree. (Trees holding floats also round
/// trip in practice, through the outside double reader and writer, but that
/// sits beyond what the formatter's contract states; tests exercise it.)
pub proof fn lemma_parse_render_compact(v: ValueView)
    requires
        v.wf(),
        int_numbers_only(v),
    ensures
        spec_parse_document(spec_render_value(v, spec_compact_format())) == Ok::<
            ValueView,
            ParseError,
        >(v),
{
    let fmt = spec_compact_format();
    let s = spec_render_value(v, fmt);
    lemma_render_first_char(v, fmt);
    lemma_ws_end_noop(s, 0);
    assert(s.subrange(0, s.len() as int) =~= s);
    lemma_parse_render_value(v, s, 0, fmt);
    lemma_ws_end_noop(s, s.len() as int);
}

} // verus!
