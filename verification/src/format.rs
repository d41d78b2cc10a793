use vstd::prelude::*;

use crate::push_char;
use crate::Number;
use crate::model::ValueView;
use crate::Value;
use vstd::string::StringExecFns;
use crate::str_chars;

verus! {

/// What one level of indentation is made of: so many spaces or so many tabs.
#[derive(Debug, Clone, Copy, PartialEq, Eq, Hash, Structural)]
pub enum Indent {
    Spaces(u8),
    Tabs(u8),
}

impl Default for Indent {
    /// Four spaces.
    fn default() -> (r: Self)
        ensures
            r == Indent::Spaces(4u8),
    {
        Indent::Spaces(4)
    }
}

/// The hexadecimal digit (uppercase) standing at nibble `slot` of `value`,
/// counting from the least significant nibble.
pub open spec fn spec_hex_char(value: u32, slot: usize) -> char {
    let divisor: u32 = if slot == 0 {
        1
    } else if slot == 1 {
        16
    } else if slot == 2 {
        256
    } else {
        4096
    };
    let d = (value / divisor) % 16;
    if d < 10 {
        ((d + 48) as u8) as char
    } else {
        ((d + 55) as u8) as char
    }
}

/// The hexadecimal digit character (uppercase) at nibble `slot` of `value`.
pub(crate) fn hex_char(value: u32, slot: usize) -> (r: char)
    requires
        slot < 4,
    ensures
        r == spec_hex_char(value, slot),
{
    let divisor: u32 = if slot == 0 {
        1
    } else if slot == 1 {
        16
    } else if slot == 2 {
        256
    } else {
        4096
    };
    let d: u32 = (value / divisor) % 16;
    if d < 10 {
        ((d + 48) as u8) as char
    } else {
        ((d + 55) as u8) as char
    }
}

/// How many bytes the escaped form of `c` takes: 2 for the characters with a
/// two-character escape, 6 for the other control characters (a `\u00XX`
/// escape), and the character's own UTF-8 width for everything else.
pub open spec fn spec_escaped_width(c: char) -> nat {
    if c == '\\' || c == '"' || c == '\u{c}' || c == '\u{8}' || c == '\n' || c == '\r' || c
        == '\t' {
        2
    } else if (c as u32) <= 0x1f {
        6
    } else if (c as u32) < 0x80 {
        1
    } else if (c as u32) < 0x800 {
        2
    } else if (c as u32) < 0x10000 {
        3
    } else {
        4
    }
}

/// The escaped form of one character: itself, a two-character mnemonic
/// escape, or a six-character `\u00XX` escape with uppercase hex digits.
pub open spec fn spec_escape_char(c: char) -> Seq<char> {
    if c == '\\' {
        seq!['\\', '\\']
    } else if c == '"' {
        seq!['\\', '"']
    } else if c == '\u{c}' {
        seq!['\\', 'f']
    } else if c == '\u{8}' {
        seq!['\\', 'b']
    } else if c == '\n' {
        seq!['\\', 'n']
    } else if c == '\r' {
        seq!['\\', 'r']
    } else if c == '\t' {
        seq!['\\', 't']
    } else if (c as u32) <= 0x1f {
        seq!['\\', 'u', '0', '0', spec_hex_char(c as u32, 1), spec_hex_char(c as u32, 0)]
    } else {
        seq![c]
    }
}

/// The JSON-escaped body of a string (without the surrounding quotes).
pub open spec fn spec_escape(s: Seq<char>) -> Seq<char>
    decreases s.len(),
{
    if s.len() == 0 {
        Seq::empty()
    } else {
        spec_escape_char(s[0]) + spec_escape(s.skip(1))
    }
}

/// The length, in bytes, of the escaped form of `s`.
pub open spec fn spec_escaped_len(s: Seq<char>) -> nat
    decreases s.len(),
{
    if s.len() == 0 {
        0
    } else {
        spec_escaped_width(s[0]) + spec_escaped_len(s.skip(1))
    }
}

/// Splitting a string splits its escaped length.
proof fn lemma_escaped_len_split(s: Seq<char>, i: int)
    requires
        0 <= i <= s.len(),
    ensures
        spec_escaped_len(s) == spec_escaped_len(s.take(i)) + spec_escaped_len(s.skip(i)),
    decreases i,
{
    if i == 0 {
        assert(s.take(0) =~= Seq::<char>::empty());
        assert(s.skip(0) =~= s);
        assert(spec_escaped_len(Seq::<char>::empty()) == 0);
    } else {
        lemma_escaped_len_split(s.skip(1), i - 1);
        assert(s.skip(1).take(i - 1) =~= s.take(i).skip(1));
        assert(s.skip(1).skip(i - 1) =~= s.skip(i));
        assert(spec_escaped_len(s) == spec_escaped_width(s[0]) + spec_escaped_len(s.skip(1)));
        assert(s.take(i)[0] == s[0]);
        assert(spec_escaped_len(s.take(i)) == spec_escaped_width(s[0]) + spec_escaped_len(
            s.take(i).skip(1),
        ));
    }
}

/// Splitting a string splits its escaped form.
proof fn lemma_escape_split(s: Seq<char>, i: int)
    requires
        0 <= i <= s.len(),
    ensures
        spec_escape(s) == spec_escape(s.take(i)) + spec_escape(s.skip(i)),
    decreases i,
{
    if i == 0 {
        assert(s.take(0) =~= Seq::<char>::empty());
        assert(s.skip(0) =~= s);
        assert(spec_escape(Seq::<char>::empty()) == Seq::<char>::empty());
        assert(Seq::<char>::empty() + spec_escape(s) =~= spec_escape(s));
    } else {
        lemma_escape_split(s.skip(1), i - 1);
        assert(s.skip(1).take(i - 1) =~= s.take(i).skip(1));
        assert(s.skip(1).skip(i - 1) =~= s.skip(i));
        assert(spec_escape(s) == spec_escape_char(s[0]) + spec_escape(s.skip(1)));
        assert(s.take(i)[0] == s[0]);
        assert(spec_escape(s.take(i)) == spec_escape_char(s[0]) + spec_escape(s.take(i).skip(1)));
        assert(spec_escape_char(s[0]) + (spec_escape(s.take(i).skip(1)) + spec_escape(s.skip(i)))
            =~= (spec_escape_char(s[0]) + spec_escape(s.take(i).skip(1))) + spec_escape(s.skip(i)));
    }
}

/// How many bytes `s` takes once escaped, character by character, so a
/// buffer of exactly that size can be allocated up front.
pub fn measure_escaped_string(s: &str) -> (r: usize)
    requires
        spec_escaped_len(s@) <= usize::MAX,
    ensures
        r == spec_escaped_len(s@),
{
    let v = str_chars(s);
    let mut sum: usize = 0;
    let mut i: usize = 0;
    proof {
        assert(v@.take(0) =~= Seq::<char>::empty());
    }
    while i < v.len()
        invariant
            v@ == s@,
            spec_escaped_len(s@) <= usize::MAX,
            0 <= i <= v@.len(),
            sum == spec_escaped_len(v@.take(i as int)),
        decreases v@.len() - i,
    {
        let c = v[i];
        let cu = c as u32;
        let width: usize = if c == '\\' || c == '"' || c == '\u{c}' || c == '\u{8}' || c == '\n'
            || c == '\r' || c == '\t' {
            2
        } else if cu <= 0x1f {
            6
        } else if cu < 0x80 {
            1
        } else if cu < 0x800 {
            2
        } else if cu < 0x10000 {
            3
        } else {
            4
        };
        proof {
            assert(width == spec_escaped_width(v@[i as int]));
            lemma_escaped_len_split(v@, i as int);
            lemma_escaped_len_split(v@, i + 1);
            assert(v@.take(i + 1) =~= v@.take(i as int).push(v@[i as int]));
            assert(v@.take(i + 1).take(i as int) =~= v@.take(i as int));
            lemma_escaped_len_split(v@.take(i + 1), i as int);
            assert(v@.take(i + 1).skip(i as int) =~= seq![v@[i as int]]);
            assert(spec_escaped_len(seq![v@[i as int]]) == spec_escaped_width(v@[i as int]))
                by {
                assert(seq![v@[i as int]].skip(1) =~= Seq::<char>::empty());
                assert(spec_escaped_len(Seq::<char>::empty()) == 0);
                assert(seq![v@[i as int]][0] == v@[i as int]);
            }
        }
        sum = sum + width;
        i += 1;
    }
    proof {
        assert(v@.take(v@.len() as int) =~= v@);
    }
    sum
}

/// Append the escaped form of `s` to `writer`.
pub(crate) fn write_escaped_string(writer: &mut String, s: &str)
    ensures
        final(writer)@ == old(writer)@ + spec_escape(s@),
{
    let v = str_chars(s);
    let mut i: usize = 0;
    proof {
        assert(v@.take(0) =~= Seq::<char>::empty());
        assert(old(writer)@ + spec_escape(Seq::<char>::empty()) =~= old(writer)@);
    }
    while i < v.len()
        invariant
            v@ == s@,
            0 <= i <= v@.len(),
            writer@ == old(writer)@ + spec_escape(v@.take(i as int)),
        decreases v@.len() - i,
    {
        let ghost pre = writer@;
        let c = v[i];
        let cu = c as u32;
        if c == '\\' {
            push_char(writer, '\\');
            push_char(writer, '\\');
        } else if c == '"' {
            push_char(writer, '\\');
            push_char(writer, '"');
        } else if c == '\u{c}' {
            push_char(writer, '\\');
            push_char(writer, 'f');
        } else if c == '\u{8}' {
            push_char(writer, '\\');
            push_char(writer, 'b');
        } else if c == '\n' {
            push_char(writer, '\\');
            push_char(writer, 'n');
        } else if c == '\r' {
            push_char(writer, '\\');
            push_char(writer, 'r');
        } else if c == '\t' {
            push_char(writer, '\\');
            push_char(writer, 't');
        } else if cu <= 0x1f {
            push_char(writer, '\\');
            push_char(writer, 'u');
            push_char(writer, '0');
            push_char(writer, '0');
            push_char(writer, hex_char(cu, 1));
            push_char(writer, hex_char(cu, 0));
        } else {
            push_char(writer, c);
        }
        proof {
            assert(writer@ =~= pre + spec_escape_char(v@[i as int]));
            lemma_escape_split(v@.take(i + 1), i as int);
            assert(v@.take(i + 1).take(i as int) =~= v@.take(i as int));
            assert(v@.take(i + 1).skip(i as int) =~= seq![v@[i as int]]);
            assert(spec_escape(seq![v@[i as int]]) =~= spec_escape_char(v@[i as int])) by {
                assert(seq![v@[i as int]].skip(1) =~= Seq::<char>::empty());
                assert(spec_escape(Seq::<char>::empty()) == Seq::<char>::empty());
                assert(seq![v@[i as int]][0] == v@[i as int]);
                assert(spec_escape_char(v@[i as int]) + Seq::<char>::empty() =~= spec_escape_char(
                    v@[i as int],
                ));
            }
            assert(writer@ =~= old(writer)@ + spec_escape(v@.take(i + 1)));
        }
        i += 1;
    }
    proof {
        assert(v@.take(v@.len() as int) =~= v@);
    }
}

/// The JSON-escaped body of `s`, without surrounding quotes.
pub fn escape_string(s: &str) -> (r: String)
    ensures
        r@ == spec_escape(s@),
{
    let mut buffer = String::new();
    write_escaped_string(&mut buffer, s);
    buffer
}

/// The formatting policy a rendering runs under: everything on one line or
/// one entry per line, spacing around separators, the indentation unit, and
/// the current indentation depth.
#[derive(Debug, Clone, Copy, PartialEq, Eq, Structural)]
pub struct JsonFormatter {
    /// Everything on the same line.
    pub sameline: bool,
    /// No spaces after commas or around colons.
    pub no_spacing: bool,
    /// The indentation unit; ignored when `sameline` is set.
    pub indent: Indent,
    /// The current indentation depth.
    pub indent_level: u32,
}

/// `c` repeated `n` times.
pub open spec fn spec_repeat_char(c: char, n: nat) -> Seq<char>
    decreases n,
{
    if n == 0 {
        Seq::empty()
    } else {
        spec_repeat_char(c, (n - 1) as nat).push(c)
    }
}

/// One level of indentation.
pub open spec fn spec_indent_unit(ind: Indent) -> Seq<char> {
    match ind {
        Indent::Spaces(n) => spec_repeat_char(' ', n as nat),
        Indent::Tabs(n) => spec_repeat_char('\t', n as nat),
    }
}

/// `s` repeated `n` times.
pub open spec fn spec_repeat(s: Seq<char>, n: nat) -> Seq<char>
    decreases n,
{
    if n == 0 {
        Seq::empty()
    } else {
        spec_repeat(s, (n - 1) as nat) + s
    }
}

impl JsonFormatter {
    /// The whole indentation at this formatter's depth.
    pub open spec fn spec_indentation(self) -> Seq<char> {
        spec_repeat(spec_indent_unit(self.indent), self.indent_level as nat)
    }

    /// What separates two entries: a comma, then a line break (multi-line),
    /// a space (same line with spacing), or nothing.
    pub open spec fn spec_separator(self) -> Seq<char> {
        seq![','] + (if !self.sameline {
            seq!['\n']
        } else if !self.no_spacing {
            seq![' ']
        } else {
            Seq::empty()
        })
    }

    /// What stands between a key and its value.
    pub open spec fn spec_colon(self) -> Seq<char> {
        if self.no_spacing {
            seq![':']
        } else {
            seq![' ', ':', ' ']
        }
    }

    /// What stands before each entry: the indentation in multi-line mode.
    pub open spec fn spec_item_prefix(self) -> Seq<char> {
        if !self.sameline {
            self.spec_indentation()
        } else {
            Seq::empty()
        }
    }

    /// This formatter one level deeper. The depth saturates instead of
    /// wrapping; no tree that fits in memory comes near the limit.
    pub open spec fn spec_indented(self) -> JsonFormatter {
        JsonFormatter {
            indent_level: if self.indent_level < 0xffff_ffff {
                (self.indent_level + 1) as u32
            } else {
                self.indent_level
            },
            ..self
        }
    }

    pub fn new(sameline: bool, no_spacing: bool, indent: Indent) -> (r: Self)
        ensures
            r == (JsonFormatter { sameline, no_spacing, indent, indent_level: 0u32 }),
    {
        Self::new_indented(0, sameline, no_spacing, indent)
    }

    pub fn new_indented(indent_level: u32, sameline: bool, no_spacing: bool, indent: Indent) -> (r:
        Self)
        ensures
            r == (JsonFormatter { sameline, no_spacing, indent, indent_level }),
    {
        JsonFormatter { sameline, no_spacing, indent, indent_level }
    }

    /// A copy of this formatter, one level deeper.
    pub fn indent(&self) -> (r: Self)
        ensures
            r == self.spec_indented(),
    {
        let mut indented = *self;
        if indented.indent_level < 0xffff_ffff {
            indented.indent_level = indented.indent_level + 1;
        }
        indented
    }

    /// Append this formatter's indentation to `writer`.
    pub fn write_indent(&self, writer: &mut String)
        ensures
            final(writer)@ == old(writer)@ + self.spec_indentation(),
    {
        let unit_len: u8 = match self.indent {
            Indent::Spaces(n) => n,
            Indent::Tabs(n) => n,
        };
        let c: char = match self.indent {
            Indent::Spaces(_) => ' ',
            Indent::Tabs(_) => '\t',
        };
        let mut level: u32 = 0;
        proof {
            assert(old(writer)@ + spec_repeat(spec_indent_unit(self.indent), 0) =~= old(
                writer,
            )@);
        }
        while level < self.indent_level
            invariant
                writer@ == old(writer)@ + spec_repeat(
                    spec_indent_unit(self.indent),
                    level as nat,
                ),
                unit_len == (match self.indent {
                    Indent::Spaces(n) => n,
                    Indent::Tabs(n) => n,
                }),
                c == (match self.indent {
                    Indent::Spaces(_) => ' ',
                    Indent::Tabs(_) => '\t',
                }),
                level <= self.indent_level,
            decreases self.indent_level - level,
        {
            let ghost pre = writer@;
            let mut k: u8 = 0;
            while k < unit_len
                invariant
                    writer@ == pre + spec_repeat_char(c, k as nat),
                    k <= unit_len,
                decreases unit_len - k,
            {
                push_char(writer, c);
                k = k + 1;
            }
            proof {
                assert(spec_repeat_char(c, unit_len as nat) =~= spec_indent_unit(self.indent));
                assert(writer@ =~= old(writer)@ + spec_repeat(
                    spec_indent_unit(self.indent),
                    (level + 1) as nat,
                ));
            }
            level = level + 1;
        }
    }

    /// Append an entry separator to `writer`.
    pub fn write_separator(&self, writer: &mut String)
        ensures
            final(writer)@ == old(writer)@ + self.spec_separator(),
    {
        push_char(writer, ',');
        if !self.sameline {
            push_char(writer, '\n');
        } else if !self.no_spacing {
            push_char(writer, ' ');
        }
        proof {
            assert(writer@ =~= old(writer)@ + self.spec_separator());
        }
    }
}

/// The decimal digits of `n`, most significant first, no sign.
pub open spec fn spec_nat_digits(n: nat) -> Seq<char>
    decreases n,
{
    if n < 10 {
        seq![((48 + n) as u8) as char]
    } else {
        spec_nat_digits(n / 10).push(((48 + n % 10) as u8) as char)
    }
}

/// The decimal form of `i`: a minus sign for negative numbers, then digits
/// without leading zeros.
pub open spec fn spec_int_chars(i: int) -> Seq<char> {
    if i < 0 {
        seq!['-'] + spec_nat_digits((-i) as nat)
    } else {
        spec_nat_digits(i as nat)
    }
}

/// What `rustc_apfloat`'s `Display` formatting produces for the double with
/// this bit pattern; a pure function of the bits.
pub uninterp spec fn float_text(bits: u64) -> Seq<char>;

/// Relies on `rustc_apfloat::ieee::Double`: `from_bits` reads the IEEE-754
/// binary64 bit pattern, and the `Display` impl writes decimal text naming
/// the same double, with only as many digits as that takes. The text
/// depends on the bits alone. NaN and the infinities come out as `NaN`,
/// `+Inf` and `-Inf`, which is not strict JSON (documented: such values do
/// not round-trip through the parser).
#[verifier::external_body]
fn float_to_string(bits: u64) -> (r: String)
    ensures
        r@ == float_text(bits),
{
    let value = <rustc_apfloat::ieee::Double as rustc_apfloat::Float>::from_bits(bits as u128);
    format!("{value}")
}

/// The text of a number: decimal digits for the integer fast path, the
/// host's double formatting for floats.
pub open spec fn spec_number_chars(n: Number) -> Seq<char> {
    match n {
        Number::Int(i) => spec_int_chars(i as int),
        Number::Float(bits) => float_text(bits),
    }
}

/// Append the decimal digits of `m` to `writer`.
fn write_u64_digits(writer: &mut String, m: u64)
    ensures
        final(writer)@ == old(writer)@ + spec_nat_digits(m as nat),
    decreases m,
{
    if m < 10 {
        push_char(writer, ((48 + m as u8)) as char);
    } else {
        write_u64_digits(writer, m / 10);
        push_char(writer, ((48 + (m % 10) as u8)) as char);
    }
}

/// Append `null` to `writer`.
fn write_null(writer: &mut String)
    ensures
        final(writer)@ == old(writer)@ + seq!['n', 'u', 'l', 'l'],
{
    push_char(writer, 'n');
    push_char(writer, 'u');
    push_char(writer, 'l');
    push_char(writer, 'l');
    proof {
        assert(writer@ =~= old(writer)@ + seq!['n', 'u', 'l', 'l']);
    }
}

/// The text of a boolean.
pub open spec fn spec_bool_chars(value: bool) -> Seq<char> {
    if value {
        seq!['t', 'r', 'u', 'e']
    } else {
        seq!['f', 'a', 'l', 's', 'e']
    }
}

/// Append `true` or `false` to `writer`.
fn write_boolean(writer: &mut String, value: bool)
    ensures
        final(writer)@ == old(writer)@ + spec_bool_chars(value),
{
    if value {
        push_char(writer, 't');
        push_char(writer, 'r');
        push_char(writer, 'u');
        push_char(writer, 'e');
    } else {
        push_char(writer, 'f');
        push_char(writer, 'a');
        push_char(writer, 'l');
        push_char(writer, 's');
        push_char(writer, 'e');
    }
    proof {
        assert(writer@ =~= old(writer)@ + spec_bool_chars(value));
    }
}

/// Append the text of `value` to `writer`.
fn write_number(writer: &mut String, value: Number)
    ensures
        final(writer)@ == old(writer)@ + spec_number_chars(value),
{
    match value {
        Number::Int(i) => {
            if i < 0 {
                push_char(writer, '-');
                let m: u64 = ((-(i + 1)) as u64) + 1;
                write_u64_digits(writer, m);
                proof {
                    assert(m as nat == (-(i as int)) as nat);
                    assert(writer@ =~= old(writer)@ + spec_int_chars(i as int));
                }
            } else {
                write_u64_digits(writer, i as u64);
            }
        },
        Number::Float(bits) => {
            let s = float_to_string(bits);
            writer.append(s.as_str());
        },
    }
}

/// The text of a string value: the escaped body between two quotes.
pub open spec fn spec_string_chars(s: Seq<char>) -> Seq<char> {
    seq!['"'] + spec_escape(s) + seq!['"']
}

/// Append the quoted, escaped form of `value` to `writer`.
fn write_string(writer: &mut String, value: &str)
    ensures
        final(writer)@ == old(writer)@ + spec_string_chars(value@),
{
    push_char(writer, '"');
    write_escaped_string(writer, value);
    push_char(writer, '"');
    proof {
        assert(writer@ =~= old(writer)@ + spec_string_chars(value@));
    }
}

/// The full text of a value under formatter `fmt`.
pub open spec fn spec_render_value(v: ValueView, fmt: JsonFormatter) -> Seq<char>
    decreases v, 0int, 0int,
{
    match v {
        ValueView::Null => seq!['n', 'u', 'l', 'l'],
        ValueView::Boolean(b) => spec_bool_chars(b),
        ValueView::Number(n) => spec_number_chars(n),
        ValueView::String(s) => spec_string_chars(s),
        ValueView::Array(elems) => seq!['['] + (if !fmt.sameline {
            seq!['\n']
        } else {
            Seq::empty()
        }) + spec_render_items(elems, fmt.spec_indented()) + (if !fmt.sameline {
            seq!['\n'] + fmt.spec_indentation()
        } else {
            Seq::empty()
        }) + seq![']'],
        ValueView::Object(entries) => seq!['{'] + (if !fmt.sameline {
            seq!['\n']
        } else {
            Seq::empty()
        }) + spec_render_entries(entries, fmt.spec_indented()) + (if !fmt.sameline {
            seq!['\n'] + fmt.spec_indentation()
        } else {
            Seq::empty()
        }) + seq!['}'],
    }
}

/// The texts of array elements, joined by separators, each on its own
/// (indented) line in multi-line mode.
pub open spec fn spec_render_items(elems: Seq<ValueView>, fmt: JsonFormatter) -> Seq<char>
    decreases elems, 1int, elems.len(),
{
    if elems.len() == 0 {
        Seq::empty()
    } else {
        fmt.spec_item_prefix() + spec_render_value(elems[0], fmt) + (if elems.len() > 1 {
            fmt.spec_separator() + spec_render_items(elems.skip(1), fmt)
        } else {
            Seq::empty()
        })
    }
}

/// The texts of object entries (quoted escaped key, colon, value), joined by
/// separators.
pub open spec fn spec_render_entries(
    entries: Seq<(Seq<char>, ValueView)>,
    fmt: JsonFormatter,
) -> Seq<char>
    decreases entries, 1int, entries.len(),
{
    if entries.len() == 0 {
        Seq::empty()
    } else {
        fmt.spec_item_prefix() + spec_string_chars(entries[0].0) + fmt.spec_colon()
            + spec_render_value(entries[0].1, fmt) + (if entries.len() > 1 {
            fmt.spec_separator() + spec_render_entries(entries.skip(1), fmt)
        } else {
            Seq::empty()
        })
    }
}

/// Append the text of `value` under `fmt` to `writer`.
pub(crate) fn write_value(writer: &mut String, value: &Value, fmt: JsonFormatter)
    ensures
        final(writer)@ == old(writer)@ + spec_render_value(value@, fmt),
    decreases value, 0int, 0int,
{
    match value {
        Value::Null => {
            write_null(writer);
        },
        Value::Boolean(b) => {
            write_boolean(writer, *b);
        },
        Value::Number(n) => {
            write_number(writer, *n);
        },
        Value::String(s) => {
            write_string(writer, s.as_str());
        },
        Value::Array(array) => {
            write_array(writer, array, fmt);
        },
        Value::Object(object) => {
            write_object(writer, object, fmt);
        },
    }
}

/// Append the elements of `array` from index `i` on, as `fmt` asks.
#[verifier::rlimit(100)]
fn write_items(writer: &mut String, array: &Vec<Value>, i: usize, fmt: JsonFormatter)
    requires
        i <= array@.len(),
    ensures
        final(writer)@ == old(writer)@ + spec_render_items(
            crate::Value::views_of_seq(array@).skip(i as int),
            fmt,
        ),
    decreases array, 1int, array@.len() - i,
{
    proof {
        crate::lemma_views_of_seq(array@);
    }
    let ghost elems = crate::Value::views_of_seq(array@).skip(i as int);
    if i >= array.len() {
        proof {
            assert(elems =~= Seq::<ValueView>::empty());
            assert(old(writer)@ + spec_render_items(elems, fmt) =~= old(writer)@);
        }
        return ;
    }
    if !fmt.sameline {
        fmt.write_indent(writer);
    }
    write_value(writer, &array[i], fmt);
    proof {
        assert(elems[0] == array@[i as int]@);
    }
    if i + 1 < array.len() {
        fmt.write_separator(writer);
        write_items(writer, array, i + 1, fmt);
        proof {
            assert(crate::Value::views_of_seq(array@).skip(i + 1) =~= elems.skip(1));
        }
    } else {
        proof {
            assert(elems.len() == 1);
        }
    }
    proof {
        assert(writer@ =~= old(writer)@ + spec_render_items(elems, fmt));
    }
}

/// Append a whole array, brackets included, to `writer`.
fn write_array(writer: &mut String, array: &Vec<Value>, fmt: JsonFormatter)
    ensures
        final(writer)@ == old(writer)@ + spec_render_value(
            ValueView::Array(crate::Value::views_of_seq(array@)),
            fmt,
        ),
    decreases array, 2int, 0int,
{
    push_char(writer, '[');
    if !fmt.sameline {
        push_char(writer, '\n');
    }
    let indent = fmt.indent();
    write_items(writer, array, 0, indent);
    proof {
        assert(crate::Value::views_of_seq(array@).skip(0) =~= crate::Value::views_of_seq(array@));
    }
    if !fmt.sameline {
        push_char(writer, '\n');
        fmt.write_indent(writer);
    }
    push_char(writer, ']');
    proof {
        assert(writer@ =~= old(writer)@ + spec_render_value(
            ValueView::Array(crate::Value::views_of_seq(array@)),
            fmt,
        ));
    }
}

/// Append the entries of `object` from position `i` on, as `fmt` asks.
#[verifier::rlimit(100)]
fn write_entries(writer: &mut String, object: &crate::ValueMap, i: usize, fmt: JsonFormatter)
    requires
        i <= object@.len(),
    ensures
        final(writer)@ == old(writer)@ + spec_render_entries(object@.skip(i as int), fmt),
    decreases object, 1int, object@.len() - i,
{
    let ghost entries = object@.skip(i as int);
    let n = object.len();
    if i >= n {
        proof {
            assert(entries =~= Seq::<(Seq<char>, ValueView)>::empty());
            assert(old(writer)@ + spec_render_entries(entries, fmt) =~= old(writer)@);
        }
        return ;
    }
    if !fmt.sameline {
        fmt.write_indent(writer);
    }
    write_string(writer, object.key_at(i).as_str());
    if fmt.no_spacing {
        push_char(writer, ':');
    } else {
        push_char(writer, ' ');
        push_char(writer, ':');
        push_char(writer, ' ');
    }
    let element = object.value_at(i);
    proof {
        crate::lemma_map_entry_decreases(object, i as int);
        assert(*element == object.spec_entry(i as int).1);
    }
    write_value(writer, element, fmt);
    proof {
        assert(entries[0] == object@[i as int]);
    }
    if i + 1 < n {
        fmt.write_separator(writer);
        write_entries(writer, object, i + 1, fmt);
        proof {
            assert(object@.skip(i + 1) =~= entries.skip(1));
        }
    } else {
        proof {
            assert(entries.len() == 1);
        }
    }
    proof {
        assert(writer@ =~= old(writer)@ + spec_render_entries(entries, fmt));
    }
}

/// Append a whole object, braces included, to `writer`.
fn write_object(writer: &mut String, object: &crate::ValueMap, fmt: JsonFormatter)
    ensures
        final(writer)@ == old(writer)@ + spec_render_value(ValueView::Object(object@), fmt),
    decreases object, 2int, 0int,
{
    push_char(writer, '{');
    if !fmt.sameline {
        push_char(writer, '\n');
    }
    let indent = fmt.indent();
    write_entries(writer, object, 0, indent);
    proof {
        assert(object@.skip(0) =~= object@);
    }
    if !fmt.sameline {
        push_char(writer, '\n');
        fmt.write_indent(writer);
    }
    push_char(writer, '}');
    proof {
        assert(writer@ =~= old(writer)@ + spec_render_value(ValueView::Object(object@), fmt));
    }
}

/// The compact formatter: one line, no spacing; what `Value::to_string`
/// renders with.
pub open spec fn spec_compact_format() -> JsonFormatter {
    JsonFormatter { sameline: true, no_spacing: true, indent: Indent::Spaces(0u8), indent_level: 0u32 }
}

/// A value wired to a pretty-printing policy: a multi-line rendering with
/// the held indentation unit, and spaces around colons unless the flag for
/// no spacing (the last field) is set.
pub struct PrettyPrint<'a>(pub &'a Value, pub Indent, pub bool);

impl<'a> PrettyPrint<'a> {
    /// The formatter this pretty-printing runs under.
    pub open spec fn spec_format(&self) -> JsonFormatter {
        JsonFormatter { sameline: false, no_spacing: self.2, indent: self.1, indent_level: 0u32 }
    }

    /// Render the held value as multi-line text.
    pub fn to_string(&self) -> (r: String)
        ensures
            r@ == spec_render_value(self.0@, self.spec_format()),
    {
        let mut buffer = String::new();
        write_value(&mut buffer, self.0, JsonFormatter::new(false, self.2, self.1));
        buffer
    }
}

impl Value {
    /// The compact text of this value: one line, no spaces, object entries
    /// in insertion order.
    pub fn to_string(&self) -> (r: String)
        ensures
            r@ == spec_render_value(self@, spec_compact_format()),
    {
        let mut buffer = String::new();
        write_value(&mut buffer, self, JsonFormatter::new(true, true, Indent::Spaces(0)));
        buffer
    }

    /// A pretty-printer for this value.
    /// - `indent` controls the indentation unit.
    /// - `spacing` says whether spaces surround each colon.
    pub fn pretty_print_format(&self, indent: Indent, spacing: bool) -> (r: PrettyPrint<'_>)
        ensures
            r.0 == self,
            r.1 == indent,
            r.2 == !spacing,
    {
        PrettyPrint(self, indent, !spacing)
    }

    /// A pretty-printer with the default policy: two spaces of indentation,
    /// spaces around colons.
    pub fn pretty_print(&self) -> (r: PrettyPrint<'_>)
        ensures
            r.0 == self,
            r.1 == Indent::Spaces(2u8),
            r.2 == false,
    {
        PrettyPrint(self, Indent::Spaces(2), false)
    }
}

} // verus!
