//! The lexical rules, as statements about bytes.

use crate::lexer::{TokenKind, TokenKindView, TokenView};
use vstd::prelude::*;

verus! {

pub const PLUS: u8 = 0x2b;

pub const MINUS: u8 = 0x2d;

pub const ASTERISK: u8 = 0x2a;

pub const SLASH: u8 = 0x2f;

pub const LPAREN: u8 = 0x28;

pub const RPAREN: u8 = 0x29;

pub const SEMICOLON: u8 = 0x3b;

pub const ASSIGNMENT: u8 = 0x3d;

pub const UNDERSCORE: u8 = 0x5f;

pub const SPACE: u8 = 0x20;

pub const NEWLINE: u8 = 0x0a;

pub const TAB: u8 = 0x09;

/// `0` to `9`.
pub open spec fn is_digit(b: u8) -> bool {
    0x30 <= b <= 0x39
}

/// `a` to `z` and `A` to `Z`.
pub open spec fn is_letter(b: u8) -> bool {
    0x61 <= b <= 0x7a || 0x41 <= b <= 0x5a
}

/// A byte that may begin an identifier or keyword.
pub open spec fn is_word_start(b: u8) -> bool {
    is_letter(b) || b == UNDERSCORE
}

/// A byte that may continue an identifier or keyword.
pub open spec fn is_word_byte(b: u8) -> bool {
    is_letter(b) || is_digit(b) || b == UNDERSCORE
}

/// Space, tab or newline.
pub open spec fn is_space(b: u8) -> bool {
    b == SPACE || b == NEWLINE || b == TAB
}

/// The token that a single operator or punctuation byte stands for.
pub open spec fn symbol(b: u8) -> Option<TokenKindView> {
    if b == PLUS {
        Some(TokenKindView::Plus)
    } else if b == MINUS {
        Some(TokenKindView::Minus)
    } else if b == ASTERISK {
        Some(TokenKindView::Asterisk)
    } else if b == SLASH {
        Some(TokenKindView::Slash)
    } else if b == LPAREN {
        Some(TokenKindView::LParen)
    } else if b == RPAREN {
        Some(TokenKindView::RParen)
    } else if b == SEMICOLON {
        Some(TokenKindView::Semicolon)
    } else if b == ASSIGNMENT {
        Some(TokenKindView::Assignment)
    } else {
        None
    }
}

/// Some rule accepts a text that begins with this byte.
pub open spec fn is_recognized(b: u8) -> bool {
    symbol(b) is Some || is_digit(b) || is_word_start(b) || is_space(b)
}

/// The classes of bytes of which the rules take whole runs.
pub enum ByteClass {
    Digit,
    Word,
    Space,
}

impl ByteClass {
    pub open spec fn has(self, b: u8) -> bool {
        match self {
            ByteClass::Digit => is_digit(b),
            ByteClass::Word => is_word_byte(b),
            ByteClass::Space => is_space(b),
        }
    }
}

/// Bytes `start..end` of `input` all belong to `class`, and the byte after
/// them, if there is one, does not: the run cannot be made longer.
pub open spec fn is_run(input: Seq<u8>, class: ByteClass, start: int, end: int) -> bool {
    &&& 0 <= start <= end <= input.len()
    &&& forall|i: int| start <= i < end ==> class.has(#[trigger] input[i])
    &&& end < input.len() ==> !class.has(input[end])
}

/// The number that a sequence of decimal digits denotes.
pub open spec fn decimal_value(digits: Seq<u8>) -> nat
    decreases digits.len(),
{
    if digits.len() == 0 {
        0
    } else {
        10 * decimal_value(digits.drop_last()) + (digits.last() - 0x30) as nat
    }
}

/// The value of a number token: what its digits denote, or `usize::MAX`
/// where that is too large for a `usize`.
pub open spec fn number_value(digits: Seq<u8>) -> usize {
    if decimal_value(digits) > usize::MAX {
        usize::MAX
    } else {
        decimal_value(digits) as usize
    }
}

/// The characters that a sequence of ASCII bytes spells.
pub open spec fn ascii_text(bytes: Seq<u8>) -> Seq<char> {
    Seq::new(bytes.len(), |i: int| bytes[i] as char)
}

/// The spelling `int`.
pub open spec fn spelling_int() -> Seq<char> {
    seq!['i', 'n', 't']
}

/// The spelling `return`.
pub open spec fn spelling_return() -> Seq<char> {
    seq!['r', 'e', 't', 'u', 'r', 'n']
}

/// The reserved words, each with the token kind that it produces.
pub open spec fn keyword_table() -> Map<Seq<char>, TokenKind> {
    Map::empty().insert(spelling_int(), TokenKind::Int).insert(spelling_return(), TokenKind::Return)
}

/// The token kind of a word under a table of reserved words: the kind that
/// the table gives it, or an identifier with the word as its name.
pub open spec fn word_kind(keywords: Map<Seq<char>, TokenKind>, word: Seq<char>) -> TokenKindView {
    if keywords.contains_key(word) {
        keywords[word]@
    } else {
        TokenKindView::Identifier(word)
    }
}

/// Bytes `start..end` of `input` are exactly what one rule takes for a token
/// that begins at `start`: one operator or punctuation byte, a longest run of
/// digits, or a longest run of word bytes that begins with a letter or `_`.
pub open spec fn is_lexeme(input: Seq<u8>, start: int, end: int) -> bool {
    &&& 0 <= start < end <= input.len()
    &&& if symbol(input[start]) is Some {
        end == start + 1
    } else if is_digit(input[start]) {
        is_run(input, ByteClass::Digit, start, end)
    } else {
        is_word_start(input[start]) && is_run(input, ByteClass::Word, start, end)
    }
}

/// The kind of the token whose text is bytes `start..end` of `input`.
pub open spec fn lexeme_kind(input: Seq<u8>, start: int, end: int) -> TokenKindView {
    if symbol(input[start]) is Some {
        symbol(input[start])->Some_0
    } else if is_digit(input[start]) {
        TokenKindView::Number(number_value(input.subrange(start, end)))
    } else {
        word_kind(keyword_table(), ascii_text(input.subrange(start, end)))
    }
}

/// `t` is a token of `input`: its span is the text of one token, and its kind
/// is the kind of that text.
pub open spec fn is_token(input: Seq<u8>, t: TokenView) -> bool {
    &&& is_lexeme(input, t.loc.0 as int, t.loc.1 as int)
    &&& t.value == lexeme_kind(input, t.loc.0 as int, t.loc.1 as int)
}

/// `tokens` is a scan of bytes `from..to` of `input`: each is a token of
/// `input` inside that range, they follow one another without overlap, and
/// every byte of the range that lies in none of them is whitespace.
pub open spec fn tokenizes(input: Seq<u8>, from: int, to: int, tokens: Seq<TokenView>) -> bool {
    &&& 0 <= from <= to <= input.len()
    &&& forall|k: int|
        0 <= k < tokens.len() ==> is_token(input, #[trigger] tokens[k]) && from <= tokens[k].loc.0
            && tokens[k].loc.1 <= to
    &&& forall|j: int, k: int|
        0 <= j < k < tokens.len() ==> (#[trigger] tokens[j]).loc.1 <= (#[trigger] tokens[k]).loc.0
    &&& forall|i: int|
        from <= i < to ==> is_space(#[trigger] input[i]) || exists|k: int|
            0 <= k < tokens.len() && (#[trigger] tokens[k]).loc.contains(i)
}

/// The bytes of `from..to` as a scan lays them out: for each token in turn
/// the gap in front of it and then its text, and at the end the gap behind
/// the last token.
pub open spec fn laid_out(input: Seq<u8>, from: int, to: int, tokens: Seq<TokenView>) -> Seq<u8>
    decreases tokens.len(),
{
    if tokens.len() == 0 {
        input.subrange(from, to)
    } else {
        let last = tokens.last();
        laid_out(input, from, last.loc.0 as int, tokens.drop_last()) + input.subrange(
            last.loc.0 as int,
            last.loc.1 as int,
        ) + input.subrange(last.loc.1 as int, to)
    }
}

/// The kind of a reserved word or of an identifier.
pub open spec fn is_word(kind: TokenKindView) -> bool {
    kind is Identifier || kind is Int || kind is Return
}

/// Scanning stops at `at`: the end of `input`, or a byte that no rule accepts.
pub open spec fn halts(input: Seq<u8>, at: int) -> bool {
    at == input.len() || (0 <= at < input.len() && !is_recognized(input[at]))
}

} // verus!
