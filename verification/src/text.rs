//! Small helpers on strings and character sequences.
use vstd::prelude::*;
use vstd::std_specs::iter::IteratorSpec;
use vstd::string::StrSliceExecFns;
use vstd::string::StringExecFns;

verus! {

/// `unit` written `n` times; nothing when `n` is zero or negative.
pub open spec fn repeated(unit: Seq<char>, n: int) -> Seq<char>
    decreases n,
{
    if n <= 0 {
        Seq::empty()
    } else {
        repeated(unit, n - 1) + unit
    }
}

/// The views of a sequence of strings, element by element.
pub open spec fn texts(v: Seq<String>) -> Seq<Seq<char>> {
    Seq::new(v.len(), |i: int| v[i]@)
}

/// Appends one character to a string.
///
/// Trusted: `String::push` adds exactly the given character at the end.
#[verifier::external_body]
pub(crate) fn push_char(s: &mut String, c: char)
    ensures
        final(s)@ == old(s)@.push(c),
{
    s.push(c)
}

/// The characters of `s`, in order.
pub fn chars_of(s: &str) -> (r: Vec<char>)
    ensures
        r@ == s@,
{
    broadcast use vstd::string::group_string_axioms;

    let mut out: Vec<char> = Vec::new();
    let mut it = s.chars();
    loop
        invariant
            it.obeys_prophetic_iter_laws(),
            out@ + it.remaining() == s@,
            it.decrease() is Some,
        decreases it.decrease()->0,
    {
        match it.next() {
            Some(c) => {
                out.push(c);
                assert(out@ + it.remaining() =~= s@);
            },
            None => {
                assert(out@ =~= s@);
                return out;
            },
        }
    }
}

/// A string holding the characters `chars[from..to)`, in order.
pub fn string_of_range(chars: &Vec<char>, from: usize, to: usize) -> (r: String)
    requires
        from <= to <= chars.len(),
    ensures
        r@ == chars@.subrange(from as int, to as int),
{
    let mut out = String::new();
    let mut i: usize = from;
    while i < to
        invariant
            from <= i <= to <= chars.len(),
            out@ == chars@.subrange(from as int, i as int),
        decreases to - i,
    {
        push_char(&mut out, chars[i]);
        i = i + 1;
        assert(out@ =~= chars@.subrange(from as int, i as int));
    }
    out
}

/// A string holding the characters of `chars`, in order.
pub fn string_of(chars: &Vec<char>) -> (r: String)
    ensures
        r@ == chars@,
{
    let r = string_of_range(chars, 0, chars.len());
    assert(chars@.subrange(0, chars.len() as int) =~= chars@);
    r
}

/// Appends `unit` to `out` `n` times; a count of zero or less appends nothing.
pub fn push_repeated(out: &mut String, unit: &str, n: i32)
    ensures
        final(out)@ == old(out)@ + repeated(unit@, n as int),
{
    let mut i: i32 = 0;
    assert(old(out)@ + repeated(unit@, 0) =~= old(out)@);
    while i < n
        invariant
            0 <= i,
            i <= n || i == 0,
            out@ == old(out)@ + repeated(unit@, i as int),
        decreases n - i,
    {
        out.append(unit);
        i = i + 1;
        assert(out@ =~= old(out)@ + repeated(unit@, i as int));
    }
}

/// The index of the first escape character `%` behind position `p`, or -1
/// where there is none.
pub fn index_of(chars: &Vec<char>, p: usize) -> (r: i32)
    requires
        chars.len() <= i32::MAX,
    ensures
        r == -1 || p < r < chars.len(),
        r != -1 ==> chars@[r as int] == '%',
        forall|i: int| p < i < chars.len() && (r == -1 || i < r) ==> chars@[i] != '%',
{
    if p >= chars.len() {
        return -1;
    }
    let mut i: usize = p + 1;
    while i < chars.len()
        invariant
            p < i <= chars.len(),
            chars.len() <= i32::MAX,
            forall|j: int| p < j < i ==> chars@[j] != '%',
        decreases chars.len() - i,
    {
        if chars[i] == '%' {
            return i as i32;
        }
        i = i + 1;
    }
    -1
}

/// Whether `c` is one of the three `special` characters.
pub open spec fn is_one_of(special: [char; 3], c: char) -> bool {
    special@[0] == c || special@[1] == c || special@[2] == c
}

/// The index of the first character from `start_index` on that is one of
/// `special_chars`, or -1 where there is none.
pub fn index_of_any(chars: &[char], special_chars: [char; 3], start_index: usize) -> (r: i32)
    requires
        chars@.len() <= i32::MAX,
    ensures
        r == -1 || start_index <= r < chars@.len(),
        r != -1 ==> is_one_of(special_chars, chars@[r as int]),
        forall|i: int|
            start_index <= i < chars@.len() && (r == -1 || i < r) ==> !is_one_of(
                special_chars,
                chars@[i],
            ),
{
    let mut index: usize = start_index;
    while index < chars.len()
        invariant
            start_index <= index,
            chars@.len() <= i32::MAX,
            forall|i: int| start_index <= i < index ==> !is_one_of(special_chars, chars@[i]),
        decreases chars.len() - index,
    {
        let ch: char = chars[index];
        if special_chars[0] == ch || special_chars[1] == ch || special_chars[2] == ch {
            return index as i32;
        }
        index = index + 1;
    }
    -1
}

/// The character that writes a value below sixteen in base sixteen.
pub open spec fn hex_digit(v: nat) -> char {
    if v == 0 {
        '0'
    } else if v == 1 {
        '1'
    } else if v == 2 {
        '2'
    } else if v == 3 {
        '3'
    } else if v == 4 {
        '4'
    } else if v == 5 {
        '5'
    } else if v == 6 {
        '6'
    } else if v == 7 {
        '7'
    } else if v == 8 {
        '8'
    } else if v == 9 {
        '9'
    } else if v == 10 {
        'a'
    } else if v == 11 {
        'b'
    } else if v == 12 {
        'c'
    } else if v == 13 {
        'd'
    } else if v == 14 {
        'e'
    } else {
        'f'
    }
}

/// `n` in base sixteen, in lower case and without leading zeros.
pub open spec fn hex(n: nat) -> Seq<char>
    decreases n,
{
    if n < 16 {
        seq![hex_digit(n)]
    } else {
        hex(n / 16).push(hex_digit(n % 16))
    }
}

/// The escape of a character by its code point: `\u{..}` around the code
/// point in base sixteen.
pub open spec fn unicode_escape(c: char) -> Seq<char> {
    seq!['\\', 'u', '{'] + hex(c as u32 as nat) + seq!['}']
}

/// How a character is written inside a character literal, without the
/// single quotes around it.
pub open spec fn char_escape(c: char) -> Seq<char> {
    if c == '\x08' {
        seq!['\\', 'b']
    } else if c == '\t' {
        seq!['\\', 't']
    } else if c == '\n' {
        seq!['\\', 'n']
    } else if c == '\x0c' {
        seq!['\\', 'f']
    } else if c == '\r' {
        seq!['\\', 'r']
    } else if c == '"' {
        seq!['"']
    } else if c == '\'' {
        seq!['\\', '\'']
    } else if c == '\\' {
        seq!['\\', '\\']
    } else if (c as u32) < 128 {
        seq![c]
    } else {
        unicode_escape(c)
    }
}

/// What stands between two pieces of a string literal that is broken
/// behind a newline: the closing quote, a line break, two indent units and
/// a `+` before the opening quote of the next piece.
pub open spec fn literal_break(indent: Seq<char>) -> Seq<char> {
    seq!['"', '\n'] + indent + indent + seq!['+', ' ', '"']
}

/// How the character at position `i` of `value` is written inside a
/// string literal.
pub open spec fn literal_piece(value: Seq<char>, indent: Seq<char>, escape_dollar: bool, i: int) -> Seq<
    char,
> {
    let c = value[i];
    if c == '\'' {
        seq!['\'']
    } else if c == '"' {
        seq!['\\', '"']
    } else if c == '$' && escape_dollar {
        seq!['$', '{', '\'', '$', '\'', '}']
    } else if c == '\n' && i + 1 < value.len() {
        char_escape(c) + literal_break(indent)
    } else {
        char_escape(c)
    }
}

/// The first `k` characters of `value` as they are written inside a
/// string literal.
pub open spec fn literal_body(value: Seq<char>, indent: Seq<char>, escape_dollar: bool, k: int) -> Seq<
    char,
>
    decreases k,
{
    if k <= 0 {
        Seq::empty()
    } else {
        literal_body(value, indent, escape_dollar, k - 1) + literal_piece(
            value,
            indent,
            escape_dollar,
            k - 1,
        )
    }
}

/// `value` as a string literal in double quotes: quotes and control
/// characters escaped, characters beyond ASCII written by code point, and
/// the literal broken into a concatenation behind every newline that is
/// not its last character. With `escape_dollar` a dollar sign is written
/// so that it opens no string template.
pub open spec fn string_literal(value: Seq<char>, indent: Seq<char>, escape_dollar: bool) -> Seq<
    char,
> {
    seq!['"'] + literal_body(value, indent, escape_dollar, value.len() as int) + seq!['"']
}

/// The digit of `v` in base sixteen.
fn hex_digit_of(v: u32) -> (r: char)
    requires
        v < 16,
    ensures
        r == hex_digit(v as nat),
{
    if v == 0 {
        '0'
    } else if v == 1 {
        '1'
    } else if v == 2 {
        '2'
    } else if v == 3 {
        '3'
    } else if v == 4 {
        '4'
    } else if v == 5 {
        '5'
    } else if v == 6 {
        '6'
    } else if v == 7 {
        '7'
    } else if v == 8 {
        '8'
    } else if v == 9 {
        '9'
    } else if v == 10 {
        'a'
    } else if v == 11 {
        'b'
    } else if v == 12 {
        'c'
    } else if v == 13 {
        'd'
    } else if v == 14 {
        'e'
    } else {
        'f'
    }
}

/// Appends `n` in base sixteen.
fn push_hex(out: &mut String, n: u32)
    ensures
        final(out)@ == old(out)@ + hex(n as nat),
    decreases n,
{
    if n >= 16 {
        push_hex(out, n / 16);
    }
    push_char(out, hex_digit_of(n % 16));
    assert(out@ =~= old(out)@ + hex(n as nat));
}

/// Appends the escape of `c` inside a character literal.
pub fn push_char_escape(out: &mut String, c: char)
    ensures
        final(out)@ == old(out)@ + char_escape(c),
{
    if c == '\x08' {
        push_char(out, '\\');
        push_char(out, 'b');
    } else if c == '\t' {
        push_char(out, '\\');
        push_char(out, 't');
    } else if c == '\n' {
        push_char(out, '\\');
        push_char(out, 'n');
    } else if c == '\x0c' {
        push_char(out, '\\');
        push_char(out, 'f');
    } else if c == '\r' {
        push_char(out, '\\');
        push_char(out, 'r');
    } else if c == '"' {
        push_char(out, '"');
    } else if c == '\'' {
        push_char(out, '\\');
        push_char(out, '\'');
    } else if c == '\\' {
        push_char(out, '\\');
        push_char(out, '\\');
    } else if (c as u32) < 128 {
        push_char(out, c);
    } else {
        push_char(out, '\\');
        push_char(out, 'u');
        push_char(out, '{');
        push_hex(out, c as u32);
        push_char(out, '}');
        assert(out@ =~= old(out)@ + unicode_escape(c));
    }
    assert(out@ =~= old(out)@ + char_escape(c));
}

/// How `c` is written inside a character literal, without the single
/// quotes around it.
pub fn character_literal_without_single_quotes(c: char) -> (r: String)
    ensures
        r@ == char_escape(c),
{
    let mut out = String::new();
    push_char_escape(&mut out, c);
    assert(out@ =~= char_escape(c));
    out
}

/// `value` as a string literal in double quotes, with or without the
/// escape of dollar signs.
pub fn quoted(value: &str, indent: &str, escape_dollar: bool) -> (r: String)
    ensures
        r@ == string_literal(value@, indent@, escape_dollar),
{
    let chars = chars_of(value);
    let mut out = String::new();
    push_char(&mut out, '"');
    let mut i: usize = 0;
    while i < chars.len()
        invariant
            i <= chars.len(),
            chars@ == value@,
            out@ == seq!['"'] + literal_body(value@, indent@, escape_dollar, i as int),
        decreases chars.len() - i,
    {
        let c = chars[i];
        let ghost before = out@;
        if c == '\'' {
            push_char(&mut out, '\'');
        } else if c == '"' {
            push_char(&mut out, '\\');
            push_char(&mut out, '"');
        } else if c == '$' && escape_dollar {
            push_char(&mut out, '$');
            push_char(&mut out, '{');
            push_char(&mut out, '\'');
            push_char(&mut out, '$');
            push_char(&mut out, '\'');
            push_char(&mut out, '}');
        } else {
            push_char_escape(&mut out, c);
            if c == '\n' && i + 1 < chars.len() {
                push_char(&mut out, '"');
                push_char(&mut out, '\n');
                out.append(indent);
                out.append(indent);
                push_char(&mut out, '+');
                push_char(&mut out, ' ');
                push_char(&mut out, '"');
            }
        }
        assert(out@ =~= before + literal_piece(value@, indent@, escape_dollar, i as int));
        i = i + 1;
        assert(out@ =~= seq!['"'] + literal_body(value@, indent@, escape_dollar, i as int));
    }
    push_char(&mut out, '"');
    assert(out@ =~= string_literal(value@, indent@, escape_dollar));
    out
}

/// `value` as a string literal in double quotes. Dollar signs stay as
/// they are.
pub fn string_literal_with_quotes(value: &str, indent: &str) -> (r: String)
    ensures
        r@ == string_literal(value@, indent@, false),
{
    quoted(value, indent, false)
}

} // verus!
