//! The grammar of format strings: text runs, markers and placeholders.
use crate::code_block::{Directive, FormatError};
use crate::text::string_of_range;
use vstd::prelude::*;

verus! {

/// The character that introduces a placeholder.
pub const ESCAPE: char = '%';

/// Raises the indent level.
pub const INDENT_MARKER: char = '⇥';

/// Lowers the indent level.
pub const UNINDENT_MARKER: char = '⇤';

/// Opens a statement.
pub const STATEMENT_BEGIN_MARKER: char = '«';

/// Closes a statement.
pub const STATEMENT_END_MARKER: char = '»';

/// One lexical unit of a format string.
pub enum Token {
    /// A run of ordinary characters.
    Text(Seq<char>),
    /// A directive that takes no argument.
    Marker(Directive),
    /// A placeholder for the next argument not yet taken.
    Relative(Directive),
    /// A placeholder for the argument at the given zero-based position,
    /// which is the written index less one.
    Indexed(Directive, int),
    /// An escape character that opens no directive of the table.
    Bad(FormatError),
}

/// The directive of a marker character, if `c` is one.
pub open spec fn marker_directive(c: char) -> Option<Directive> {
    if c == '⇥' {
        Some(Directive::IndentIncrease)
    } else if c == '⇤' {
        Some(Directive::IndentDecrease)
    } else if c == '«' {
        Some(Directive::StatementBegin)
    } else if c == '»' {
        Some(Directive::StatementEnd)
    } else {
        None
    }
}

/// The directive of a placeholder letter, if `c` is one.
pub open spec fn letter_directive(c: char) -> Option<Directive> {
    if c == 'L' {
        Some(Directive::Literal)
    } else if c == 'N' {
        Some(Directive::Name)
    } else if c == 'S' {
        Some(Directive::QuotedString)
    } else if c == 'P' {
        Some(Directive::RawString)
    } else if c == 'T' {
        Some(Directive::TypeRef)
    } else if c == 'M' {
        Some(Directive::MemberRef)
    } else {
        None
    }
}

/// Whether `c` ends a run of text.
pub open spec fn is_special(c: char) -> bool {
    c == '%' || marker_directive(c) is Some
}

/// Whether `c` is a decimal digit.
pub open spec fn is_digit(c: char) -> bool {
    '0' <= c && c <= '9'
}

/// The first position from `pos` on that holds a special character, or the
/// length of `format` where none does.
pub open spec fn text_end(format: Seq<char>, pos: int) -> int
    decreases format.len() - pos,
{
    if pos < 0 || pos >= format.len() {
        format.len() as int
    } else if is_special(format[pos]) {
        pos
    } else {
        text_end(format, pos + 1)
    }
}

/// The first position from `pos` on that holds no digit, or the length of
/// `format` where all are digits.
pub open spec fn digits_end(format: Seq<char>, pos: int) -> int
    decreases format.len() - pos,
{
    if pos < 0 || pos >= format.len() {
        format.len() as int
    } else if !is_digit(format[pos]) {
        pos
    } else {
        digits_end(format, pos + 1)
    }
}

/// The number that the digits in `format[start..end)` spell in base ten.
pub open spec fn digits_value(format: Seq<char>, start: int, end: int) -> nat
    decreases end - start,
{
    if end <= start {
        0
    } else {
        digits_value(format, start, end - 1) * 10 + ((format[end - 1] as int - '0' as int) as nat)
    }
}

/// The token that starts at position `pos`.
///
/// A marker character is a token of its own. Text runs up to the next
/// special character. The escape character takes the digits behind it as
/// a one-based index and the character behind those as its letter: a
/// letter of the table gives a placeholder, the escape character itself a
/// percent sign, which may carry no index, and anything else, or the end
/// of the format, is no directive.
pub open spec fn token_at(format: Seq<char>, pos: int) -> Token {
    if let Some(d) = marker_directive(format[pos]) {
        Token::Marker(d)
    } else if format[pos] != '%' {
        Token::Text(format.subrange(pos, text_end(format, pos + 1)))
    } else {
        let at = digits_end(format, pos + 1);
        if at >= format.len() {
            Token::Bad(FormatError::UnknownDirective)
        } else if format[at] == '%' {
            if at > pos + 1 {
                Token::Bad(FormatError::PercentEscapeHasIndex)
            } else {
                Token::Marker(Directive::PercentEscape)
            }
        } else {
            match letter_directive(format[at]) {
                None => Token::Bad(FormatError::UnknownDirective),
                Some(d) => if at > pos + 1 {
                    Token::Indexed(d, digits_value(format, pos + 1, at) - 1)
                } else {
                    Token::Relative(d)
                },
            }
        }
    }
}

/// Where the token that starts at position `pos` ends.
pub open spec fn token_end(format: Seq<char>, pos: int) -> int {
    if marker_directive(format[pos]) is Some {
        pos + 1
    } else if format[pos] != '%' {
        text_end(format, pos + 1)
    } else {
        let at = digits_end(format, pos + 1);
        if at >= format.len() {
            format.len() as int
        } else {
            at + 1
        }
    }
}

/// The tokens of `format` from `pos` on.
pub open spec fn lexed_from(format: Seq<char>, pos: int) -> Seq<Token>
    decreases format.len() - pos,
{
    if pos < 0 || pos >= format.len() {
        Seq::empty()
    } else {
        proof {
            lemma_token_end_bounds(format, pos);
        }
        seq![token_at(format, pos)] + lexed_from(format, token_end(format, pos))
    }
}

/// The tokens of `format`.
pub open spec fn lexed(format: Seq<char>) -> Seq<Token> {
    lexed_from(format, 0)
}

/// A token is not empty and ends within the format.
pub proof fn lemma_token_end_bounds(format: Seq<char>, pos: int)
    requires
        0 <= pos < format.len(),
    ensures
        pos < token_end(format, pos) <= format.len(),
{
    lemma_text_end_bounds(format, pos + 1);
    lemma_digits_end_bounds(format, pos + 1);
}

/// A run of text ends at or behind the position where it starts, and
/// within the format.
pub proof fn lemma_text_end_bounds(format: Seq<char>, pos: int)
    requires
        0 <= pos <= format.len(),
    ensures
        pos <= text_end(format, pos) <= format.len(),
    decreases format.len() - pos,
{
    if pos < format.len() && !is_special(format[pos]) {
        lemma_text_end_bounds(format, pos + 1);
    }
}

/// A run of digits ends at or behind the position where it starts, and
/// within the format.
pub proof fn lemma_digits_end_bounds(format: Seq<char>, pos: int)
    requires
        0 <= pos <= format.len(),
    ensures
        pos <= digits_end(format, pos) <= format.len(),
    decreases format.len() - pos,
{
    if pos < format.len() && is_digit(format[pos]) {
        lemma_digits_end_bounds(format, pos + 1);
    }
}

/// A token as the scanner holds it. An index too large for any argument
/// list is kept as `None`.
#[derive(Debug)]
pub enum Piece {
    Text(String),
    Marker(Directive),
    Relative(Directive),
    Indexed(Directive, Option<usize>),
    Bad(FormatError),
}

/// Whether `piece` stands for `token`.
pub open spec fn piece_is(piece: Piece, token: Token) -> bool {
    match (piece, token) {
        (Piece::Text(s), Token::Text(t)) => s@ == t,
        (Piece::Marker(d), Token::Marker(e)) => d == e,
        (Piece::Relative(d), Token::Relative(e)) => d == e,
        (Piece::Indexed(d, i), Token::Indexed(e, position)) => d == e && match i {
            Some(v) => position == v,
            None => position < 0 || position >= usize::MAX,
        },
        (Piece::Bad(e), Token::Bad(f)) => e == f,
        _ => false,
    }
}

/// Whether `pieces` stand for `tokens`, one for one.
pub open spec fn pieces_are(pieces: Seq<Piece>, tokens: Seq<Token>) -> bool {
    pieces.len() == tokens.len() && forall|i: int|
        0 <= i < pieces.len() ==> piece_is(#[trigger] pieces[i], tokens[i])
}

/// The directive of a marker character.
pub fn marker_of(c: char) -> (r: Option<Directive>)
    ensures
        r == marker_directive(c),
{
    if c == INDENT_MARKER {
        Some(Directive::IndentIncrease)
    } else if c == UNINDENT_MARKER {
        Some(Directive::IndentDecrease)
    } else if c == STATEMENT_BEGIN_MARKER {
        Some(Directive::StatementBegin)
    } else if c == STATEMENT_END_MARKER {
        Some(Directive::StatementEnd)
    } else {
        None
    }
}

/// The directive of a placeholder letter.
pub fn letter_of(c: char) -> (r: Option<Directive>)
    ensures
        r == letter_directive(c),
{
    if c == 'L' {
        Some(Directive::Literal)
    } else if c == 'N' {
        Some(Directive::Name)
    } else if c == 'S' {
        Some(Directive::QuotedString)
    } else if c == 'P' {
        Some(Directive::RawString)
    } else if c == 'T' {
        Some(Directive::TypeRef)
    } else if c == 'M' {
        Some(Directive::MemberRef)
    } else {
        None
    }
}

/// Where the run of text that holds `pos` ends.
pub fn find_text_end(format: &Vec<char>, pos: usize) -> (r: usize)
    requires
        pos <= format.len(),
    ensures
        r == text_end(format@, pos as int),
        pos <= r <= format.len(),
{
    let mut i: usize = pos;
    while i < format.len() && format[i] != ESCAPE && marker_of(format[i]).is_none()
        invariant
            pos <= i <= format.len(),
            text_end(format@, i as int) == text_end(format@, pos as int),
        decreases format.len() - i,
    {
        i = i + 1;
    }
    i
}

/// Whether an index as the scanner holds it stands for `value`.
pub open spec fn holds_value(held: Option<usize>, value: nat) -> bool {
    match held {
        Some(v) => value == v,
        None => value > usize::MAX,
    }
}

/// Reads the digits from `pos` on: where they end, and the number they
/// spell, or `None` where that number is too large to hold.
pub fn read_digits(format: &Vec<char>, pos: usize) -> (r: (usize, Option<usize>))
    requires
        pos <= format.len(),
    ensures
        r.0 == digits_end(format@, pos as int),
        pos <= r.0 <= format.len(),
        holds_value(r.1, digits_value(format@, pos as int, r.0 as int)),
{
    let mut i: usize = pos;
    let mut held: Option<usize> = Some(0);
    while i < format.len() && '0' <= format[i] && format[i] <= '9'
        invariant
            pos <= i <= format.len(),
            digits_end(format@, i as int) == digits_end(format@, pos as int),
            holds_value(held, digits_value(format@, pos as int, i as int)),
        decreases format.len() - i,
    {
        let digit: usize = (format[i] as u32 - '0' as u32) as usize;
        assert(digit == format@[i as int] as int - '0' as int);
        assert(digit <= 9);
        held = match held {
            Some(v) => if v > (usize::MAX - digit) / 10 {
                None
            } else {
                Some(v * 10 + digit)
            },
            None => None,
        };
        i = i + 1;
    }
    (i, held)
}

/// Splits a format string into its tokens.
pub fn lex(format: &Vec<char>) -> (r: Vec<Piece>)
    ensures
        pieces_are(r@, lexed(format@)),
{
    let mut pieces: Vec<Piece> = Vec::new();
    let ghost mut done: Seq<Token> = Seq::empty();
    let mut pos: usize = 0;
    assert(done + lexed_from(format@, 0) =~= lexed(format@));
    while pos < format.len()
        invariant
            pos <= format.len(),
            pieces_are(pieces@, done),
            done + lexed_from(format@, pos as int) == lexed(format@),
        decreases format.len() - pos,
    {
        let c = format[pos];
        let piece: Piece;
        let next: usize;
        if let Some(d) = marker_of(c) {
            piece = Piece::Marker(d);
            next = pos + 1;
        } else if c != ESCAPE {
            let end = find_text_end(format, pos + 1);
            piece = Piece::Text(string_of_range(format, pos, end));
            next = end;
        } else {
            let (at, held) = read_digits(format, pos + 1);
            if at >= format.len() {
                piece = Piece::Bad(FormatError::UnknownDirective);
                next = format.len();
            } else {
                let letter = format[at];
                if letter == ESCAPE {
                    if at > pos + 1 {
                        piece = Piece::Bad(FormatError::PercentEscapeHasIndex);
                    } else {
                        piece = Piece::Marker(Directive::PercentEscape);
                    }
                } else {
                    match letter_of(letter) {
                        None => {
                            piece = Piece::Bad(FormatError::UnknownDirective);
                        },
                        Some(d) => {
                            if at > pos + 1 {
                                let position: Option<usize> = match held {
                                    Some(v) => if v == 0 {
                                        None
                                    } else {
                                        Some(v - 1)
                                    },
                                    None => None,
                                };
                                piece = Piece::Indexed(d, position);
                            } else {
                                piece = Piece::Relative(d);
                            }
                        },
                    }
                }
                next = at + 1;
            }
        }
        proof {
            let token = token_at(format@, pos as int);
            assert(piece_is(piece, token));
            assert(next == token_end(format@, pos as int));
            assert(done + (seq![token] + lexed_from(format@, next as int)) =~= done.push(token)
                + lexed_from(format@, next as int));
            done = done.push(token);
        }
        pieces.push(piece);
        pos = next;
    }
    proof {
        assert(done + Seq::<Token>::empty() =~= done);
    }
    pieces
}

} // verus!
