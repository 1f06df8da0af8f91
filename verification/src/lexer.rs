//! Tokens, lexical errors and the scanner that produces them.

use crate::grammar::{
    ascii_text, halts, is_digit, is_recognized, is_run, is_space, is_word_byte,
    keyword_table, number_value, spelling_int, spelling_return, tokenizes, word_kind, ByteClass,
    ASSIGNMENT, ASTERISK, LPAREN, MINUS, NEWLINE, PLUS, RPAREN, SEMICOLON, SLASH, SPACE, TAB,
    UNDERSCORE,
};
use crate::laws::{
    lemma_tokenizes_nothing, lemma_tokenizes_push, lemma_tokenizes_recognized,
    lemma_tokenizes_skip,
};
use crate::text::{is_ascii_bytes, lemma_ascii_bytes_spell};
use crate::util::{Annotation, Loc};
use vstd::hash_map::StringHashMap;
use vstd::prelude::*;
use vstd::string::StringSliceAdditionalSpecFns;

verus! {

/// Data type that represents Token.
#[derive(Debug, PartialEq, Eq, Hash)]
pub enum TokenKind {
    Number(usize),
    Identifier(String),
    Int,
    Plus,
    Minus,
    Asterisk,
    Slash,
    LParen,
    RParen,
    Assignment,
    Semicolon,
    Return,
}

/// A token kind as a mathematical value: an identifier carries its
/// characters as a sequence.
pub enum TokenKindView {
    Number(usize),
    Identifier(Seq<char>),
    Int,
    Plus,
    Minus,
    Asterisk,
    Slash,
    LParen,
    RParen,
    Assignment,
    Semicolon,
    Return,
}

impl View for TokenKind {
    type V = TokenKindView;

    open spec fn view(&self) -> TokenKindView {
        match *self {
            TokenKind::Number(n) => TokenKindView::Number(n),
            TokenKind::Identifier(name) => TokenKindView::Identifier(name@),
            TokenKind::Int => TokenKindView::Int,
            TokenKind::Plus => TokenKindView::Plus,
            TokenKind::Minus => TokenKindView::Minus,
            TokenKind::Asterisk => TokenKindView::Asterisk,
            TokenKind::Slash => TokenKindView::Slash,
            TokenKind::LParen => TokenKindView::LParen,
            TokenKind::RParen => TokenKindView::RParen,
            TokenKind::Assignment => TokenKindView::Assignment,
            TokenKind::Semicolon => TokenKindView::Semicolon,
            TokenKind::Return => TokenKindView::Return,
        }
    }
}

impl Clone for TokenKind {
    fn clone(&self) -> (r: Self)
        ensures
            r == *self,
    {
        match self {
            TokenKind::Number(n) => TokenKind::Number(*n),
            TokenKind::Identifier(name) => TokenKind::Identifier(name.clone()),
            TokenKind::Int => TokenKind::Int,
            TokenKind::Plus => TokenKind::Plus,
            TokenKind::Minus => TokenKind::Minus,
            TokenKind::Asterisk => TokenKind::Asterisk,
            TokenKind::Slash => TokenKind::Slash,
            TokenKind::LParen => TokenKind::LParen,
            TokenKind::RParen => TokenKind::RParen,
            TokenKind::Assignment => TokenKind::Assignment,
            TokenKind::Semicolon => TokenKind::Semicolon,
            TokenKind::Return => TokenKind::Return,
        }
    }
}

pub type Token = Annotation<TokenKind>;

pub type TokenView = Annotation<TokenKindView>;

/// The views of a sequence of tokens, in the same order.
pub open spec fn token_views(tokens: Seq<Token>) -> Seq<TokenView> {
    tokens.map_values(|t: Token| t@)
}

impl Token {
    pub fn plus(loc: Loc) -> (r: Self)
        ensures
            r.value == TokenKind::Plus,
            r.loc == loc,
    {
        Self::new(TokenKind::Plus, loc)
    }

    pub fn minus(loc: Loc) -> (r: Self)
        ensures
            r.value == TokenKind::Minus,
            r.loc == loc,
    {
        Self::new(TokenKind::Minus, loc)
    }

    pub fn asterisk(loc: Loc) -> (r: Self)
        ensures
            r.value == TokenKind::Asterisk,
            r.loc == loc,
    {
        Self::new(TokenKind::Asterisk, loc)
    }

    pub fn slash(loc: Loc) -> (r: Self)
        ensures
            r.value == TokenKind::Slash,
            r.loc == loc,
    {
        Self::new(TokenKind::Slash, loc)
    }

    pub fn lparen(loc: Loc) -> (r: Self)
        ensures
            r.value == TokenKind::LParen,
            r.loc == loc,
    {
        Self::new(TokenKind::LParen, loc)
    }

    pub fn rparen(loc: Loc) -> (r: Self)
        ensures
            r.value == TokenKind::RParen,
            r.loc == loc,
    {
        Self::new(TokenKind::RParen, loc)
    }

    pub fn identifier(ident: String, loc: Loc) -> (r: Self)
        ensures
            r.value == TokenKind::Identifier(ident),
            r.loc == loc,
    {
        Self::new(TokenKind::Identifier(ident), loc)
    }

    pub fn number(n: usize, loc: Loc) -> (r: Self)
        ensures
            r.value == TokenKind::Number(n),
            r.loc == loc,
    {
        Self::new(TokenKind::Number(n), loc)
    }
}

/// Data type that represents lexical error.
#[derive(Debug, Clone, PartialEq, Eq, Hash)]
pub enum LexErrorKind {
    InvalidChar(char),
    Eof,
}

pub type LexError = Annotation<LexErrorKind>;

impl LexError {
    /// Unacceptable character.
    pub fn invalid_char(c: char, loc: Loc) -> (r: Self)
        ensures
            r.value == LexErrorKind::InvalidChar(c),
            r.loc == loc,
    {
        LexError::new(LexErrorKind::InvalidChar(c), loc)
    }

    /// The text ended where more of it was needed. No rule of the scanner
    /// needs more than the byte that it starts on, so the scanner never
    /// returns this error.
    pub fn eof(loc: Loc) -> (r: Self)
        ensures
            r.value == LexErrorKind::Eof,
            r.loc == loc,
    {
        LexError::new(LexErrorKind::Eof, loc)
    }
}

fn new_token(token_kind: TokenKind, start: usize, end: usize) -> (r: Token)
    ensures
        r.value == token_kind,
        r.loc == Loc(start, end),
{
    Token::new(token_kind, Loc(start, end))
}

/// The table of reserved words.
fn reserve_keywords() -> (keywords: StringHashMap<TokenKind>)
    ensures
        keywords@ == keyword_table(),
{
    let mut keywords = StringHashMap::new();
    keywords.insert("int".to_string(), TokenKind::Int);
    keywords.insert("return".to_string(), TokenKind::Return);
    proof {
        reveal_strlit("int");
        reveal_strlit("return");
        assert("int"@ =~= spelling_int());
        assert("return"@ =~= spelling_return());
    }
    keywords
}

/// The value of a run of decimal digits, held at `usize::MAX` where the
/// digits denote more than a `usize` can hold.
fn parse_number(digits: &[u8]) -> (n: usize)
    requires
        forall|i: int| 0 <= i < digits@.len() ==> is_digit(#[trigger] digits@[i]),
    ensures
        n == number_value(digits@),
{
    let mut n: usize = 0;
    let mut i: usize = 0;
    while i < digits.len()
        invariant
            i <= digits@.len(),
            forall|i: int| 0 <= i < digits@.len() ==> is_digit(#[trigger] digits@[i]),
            n == number_value(digits@.take(i as int)),
        decreases digits@.len() - i,
    {
        let d: usize = (digits[i] - 0x30) as usize;
        proof {
            assert(digits@.take(i + 1).drop_last() =~= digits@.take(i as int));
            assert(digits@.take(i + 1).last() == digits@[i as int]);
            assert(is_digit(digits@[i as int]));
        }
        n = match n.checked_mul(10) {
            Some(tens) => match tens.checked_add(d) {
                Some(sum) => sum,
                None => usize::MAX,
            },
            None => usize::MAX,
        };
        i += 1;
    }
    proof {
        assert(digits@.take(i as int) =~= digits@);
    }
    n
}

/// Struct to hold a input code, reading position, processed tokens.
pub struct Lexer<'a> {
    /// Input code.
    input: &'a [u8],
    /// Position where an instance of `Lexer` is reading.
    pos: usize,
    /// `Vec` of processed tokens.
    pub tokens: Vec<Token>,
}

/// The error for the byte at `at` of `input`, which no rule accepts: the byte
/// as a character, at its one-byte span.
pub open spec fn invalid_char_at(input: Seq<u8>, at: int) -> LexError {
    Annotation {
        value: LexErrorKind::InvalidChar(input[at] as char),
        loc: Loc(at as usize, (at + 1) as usize),
    }
}

/// `outcome` is what a scan of `input` that goes from byte `from` to byte
/// `stop` gives. Every byte on the way is one that some rule accepts, and
/// `stop` is the end of `input` or a byte that none accepts. At the end the
/// outcome is the scan of the bytes passed; before it, the error for the
/// byte at `stop`, and no token.
pub open spec fn is_outcome(
    input: Seq<u8>,
    from: int,
    stop: int,
    outcome: Result<Seq<TokenView>, LexError>,
) -> bool {
    &&& 0 <= from <= stop
    &&& halts(input, stop)
    &&& forall|i: int| from <= i < stop ==> is_recognized(#[trigger] input[i])
    &&& match outcome {
        Ok(tokens) => stop == input.len() && tokenizes(input, from, stop, tokens),
        Err(e) => stop < input.len() && e == invalid_char_at(input, stop),
    }
}

impl<'a> Lexer<'a> {
    /// The bytes of the input code.
    pub closed spec fn source(&self) -> Seq<u8> {
        self.input@
    }

    /// The byte offset of the reading position.
    pub closed spec fn cursor(&self) -> int {
        self.pos as int
    }

    /// The tokens processed so far.
    pub closed spec fn emitted(&self) -> Seq<Token> {
        self.tokens@
    }

    /// The reading position lies in the input code or at its end, and a
    /// `usize` can hold every byte offset.
    pub open spec fn wf(&self) -> bool {
        0 <= self.cursor() <= self.source().len() <= usize::MAX
    }

    /// `self` is `pre` one byte further on, with one more token: `kind`, at
    /// the byte that was passed.
    spec fn took_symbol(&self, pre: &Self, kind: TokenKind) -> bool {
        &&& self.source() == pre.source()
        &&& self.cursor() == pre.cursor() + 1
        &&& self.emitted() == pre.emitted().push(
            Annotation {
                value: kind,
                loc: Loc(pre.cursor() as usize, (pre.cursor() + 1) as usize),
            },
        )
    }

    /// The input code is no longer than a `usize` can count.
    proof fn lemma_source_fits(&self)
        ensures
            self.source().len() <= usize::MAX,
    {
        assert(self.input.len() == self.input@.len());
    }

    /// Generate new `Lexer`.
    pub fn new(input: &'a str) -> (r: Self)
        ensures
            r.wf(),
            r.source() == input.spec_bytes(),
            r.cursor() == 0,
            r.emitted() == Seq::<Token>::empty(),
    {
        let r = Lexer { input: input.as_bytes(), pos: 0, tokens: Vec::new() };
        proof {
            r.lemma_source_fits();
        }
        r
    }

    /// Read all characters in a input code and push token into `tokens`.
    ///
    /// Scanning goes on from the reading position. It is all or nothing.
    /// Where every byte from there on is one that some rule accepts, it
    /// stops at the end of the input code, the tokens added behind what
    /// `tokens` held are the scan of the bytes that were passed, and all of
    /// `tokens` is returned; a range of bytes has one scan only
    /// (`laws::lemma_tokenizes_unique`). Otherwise it stops at the first
    /// byte that no rule accepts and returns the error for that byte; the
    /// tokens recognized on the way are discarded, and `tokens` holds what
    /// it held before.
    ///
    /// A number whose digits denote more than a `usize` can hold gets the
    /// value `usize::MAX`.
    pub fn lex(&mut self) -> (r: Result<&Vec<Token>, LexError>)
        requires
            old(self).wf(),
        ensures
            final(self).wf(),
            final(self).source() == old(self).source(),
            old(self).cursor() <= final(self).cursor(),
            old(self).emitted().is_prefix_of(final(self).emitted()),
            halts(old(self).source(), final(self).cursor()),
            forall|i: int|
                old(self).cursor() <= i < final(self).cursor() ==> is_recognized(
                    #[trigger] old(self).source()[i],
                ),
            match r {
                Ok(tokens) => {
                    &&& final(self).cursor() == old(self).source().len()
                    &&& tokens@ == final(self).emitted()
                    &&& tokenizes(
                        old(self).source(),
                        old(self).cursor(),
                        final(self).cursor(),
                        token_views(final(self).emitted().skip(old(self).emitted().len() as int)),
                    )
                },
                Err(e) => {
                    &&& final(self).cursor() < old(self).source().len()
                    &&& e == invalid_char_at(old(self).source(), final(self).cursor())
                    &&& final(self).emitted() == old(self).emitted()
                },
            },
            r is Ok <==> forall|i: int|
                old(self).cursor() <= i < old(self).source().len() ==> is_recognized(
                    #[trigger] old(self).source()[i],
                ),
    {
        let keywords = reserve_keywords();
        let kept = self.tokens.len();
        let ghost from = self.pos as int;
        let ghost before = self.tokens@;
        proof {
            lemma_tokenizes_nothing(self.input@, from);
            assert(self.tokens@.skip(before.len() as int) =~= Seq::<Token>::empty());
            assert(token_views(Seq::<Token>::empty()) =~= Seq::<TokenView>::empty());
        }
        while self.pos < self.input.len()
            invariant
                self.input == old(self).input,
                from == old(self).pos,
                before == old(self).tokens@,
                kept == before.len(),
                from <= self.pos <= self.input@.len(),
                before.is_prefix_of(self.tokens@),
                keywords@ == keyword_table(),
                tokenizes(
                    self.input@,
                    from,
                    self.pos as int,
                    token_views(self.tokens@.skip(before.len() as int)),
                ),
            decreases self.input@.len() - self.pos,
        {
            let ghost start = self.pos as int;
            let ghost scanned = self.tokens@.skip(before.len() as int);
            let b = self.input[self.pos];
            match b {
                PLUS => self.lex_plus(),
                MINUS => self.lex_minus(),
                ASTERISK => self.lex_asterisk(),
                SLASH => self.lex_slash(),
                LPAREN => self.lex_lparen(),
                RPAREN => self.lex_rparen(),
                0x30..=0x39 => self.lex_number(),
                0x61..=0x7a | 0x41..=0x5a | UNDERSCORE => self.lex_identifier(&keywords),
                SEMICOLON => self.lex_semicolon(),
                ASSIGNMENT => self.lex_assignment(),
                SPACE | NEWLINE | TAB => {
                    self.skip_spaces();
                    proof {
                        lemma_tokenizes_skip(
                            self.input@,
                            from,
                            start,
                            token_views(scanned),
                            self.pos as int,
                        );
                    }
                },
                b => {
                    proof {
                        lemma_tokenizes_recognized(self.input@, from, start, token_views(scanned));
                        assert(!is_recognized(old(self).source()[start]));
                    }
                    self.tokens.truncate(kept);
                    proof {
                        assert(self.tokens@ =~= before);
                    }
                    return Err(LexError::invalid_char(b as char, Loc(self.pos, self.pos + 1)));
                },
            }
            proof {
                if !is_space(b) {
                    let t = self.tokens@.last();
                    assert(self.tokens@.skip(before.len() as int) =~= scanned.push(t));
                    assert(token_views(scanned.push(t)) =~= token_views(scanned).push(t@));
                    lemma_tokenizes_push(self.input@, from, start, token_views(scanned), t@);
                }
            }
        }
        proof {
            lemma_tokenizes_recognized(
                self.input@,
                from,
                self.pos as int,
                token_views(self.tokens@.skip(before.len() as int)),
            );
        }
        Ok(&self.tokens)
    }

    fn lex_plus(&mut self)
        requires
            old(self).wf(),
            old(self).cursor() < old(self).source().len(),
        ensures
            final(self).took_symbol(old(self), TokenKind::Plus),
    {
        self.tokens.push(new_token(TokenKind::Plus, self.pos, self.pos + 1));
        self.pos += 1;
    }

    fn lex_minus(&mut self)
        requires
            old(self).wf(),
            old(self).cursor() < old(self).source().len(),
        ensures
            final(self).took_symbol(old(self), TokenKind::Minus),
    {
        self.tokens.push(new_token(TokenKind::Minus, self.pos, self.pos + 1));
        self.pos += 1;
    }

    fn lex_asterisk(&mut self)
        requires
            old(self).wf(),
            old(self).cursor() < old(self).source().len(),
        ensures
            final(self).took_symbol(old(self), TokenKind::Asterisk),
    {
        self.tokens.push(new_token(TokenKind::Asterisk, self.pos, self.pos + 1));
        self.pos += 1;
    }

    fn lex_slash(&mut self)
        requires
            old(self).wf(),
            old(self).cursor() < old(self).source().len(),
        ensures
            final(self).took_symbol(old(self), TokenKind::Slash),
    {
        self.tokens.push(new_token(TokenKind::Slash, self.pos, self.pos + 1));
        self.pos += 1;
    }

    fn lex_lparen(&mut self)
        requires
            old(self).wf(),
            old(self).cursor() < old(self).source().len(),
        ensures
            final(self).took_symbol(old(self), TokenKind::LParen),
    {
        self.tokens.push(new_token(TokenKind::LParen, self.pos, self.pos + 1));
        self.pos += 1;
    }

    fn lex_rparen(&mut self)
        requires
            old(self).wf(),
            old(self).cursor() < old(self).source().len(),
        ensures
            final(self).took_symbol(old(self), TokenKind::RParen),
    {
        self.tokens.push(new_token(TokenKind::RParen, self.pos, self.pos + 1));
        self.pos += 1;
    }

    /// Takes the longest run of digits at the reading position as a number.
    fn lex_number(&mut self)
        requires
            old(self).wf(),
            old(self).cursor() < old(self).source().len(),
            is_digit(old(self).source()[old(self).cursor()]),
        ensures
            final(self).source() == old(self).source(),
            is_run(old(self).source(), ByteClass::Digit, old(self).cursor(), final(self).cursor()),
            final(self).emitted() == old(self).emitted().push(
                Annotation {
                    value: TokenKind::Number(
                        number_value(
                            old(self).source().subrange(old(self).cursor(), final(self).cursor()),
                        ),
                    ),
                    loc: Loc(old(self).cursor() as usize, final(self).cursor() as usize),
                },
            ),
    {
        let start = self.pos;
        let digit = |b: u8| -> (r: bool)
            ensures
                r == is_digit(b),
            { 0x30 <= b && b <= 0x39 };
        let end = self.recognize_multiple_char(digit);
        let num = parse_number(&self.input[start..end]);

        self.tokens.push(new_token(TokenKind::Number(num), start, end));
        self.pos = end;
    }

    /// Takes the longest run of word bytes at the reading position as a
    /// reserved word, where `keywords` holds it, and as an identifier where
    /// not.
    fn lex_identifier(&mut self, keywords: &StringHashMap<TokenKind>)
        requires
            old(self).wf(),
        ensures
            final(self).source() == old(self).source(),
            is_run(old(self).source(), ByteClass::Word, old(self).cursor(), final(self).cursor()),
            final(self).emitted().len() == old(self).emitted().len() + 1,
            final(self).emitted().drop_last() == old(self).emitted(),
            final(self).emitted().last()@ == (Annotation {
                value: word_kind(
                    keywords@,
                    ascii_text(
                        old(self).source().subrange(old(self).cursor(), final(self).cursor()),
                    ),
                ),
                loc: Loc(old(self).cursor() as usize, final(self).cursor() as usize),
            }),
    {
        let start = self.pos;
        let word_byte = |b: u8| -> (r: bool)
            ensures
                r == is_word_byte(b),
            {
                (0x61 <= b && b <= 0x7a) || (0x41 <= b && b <= 0x5a) || (0x30 <= b && b <= 0x39)
                    || b == UNDERSCORE
            };
        let end = self.recognize_multiple_char(word_byte);
        let word = &self.input[start..end];
        proof {
            assert(is_ascii_bytes(word@)) by {
                assert forall|i: int| 0 <= i < word@.len() implies #[trigger] word@[i] < 0x80 by {
                    assert(is_word_byte(self.input@[start + i]));
                }
            }
            lemma_ascii_bytes_spell(word@);
        }
        let identifier = core::str::from_utf8(word).unwrap();
        let identifier = identifier.to_string();
        match keywords.get(identifier.as_str()) {
            Some(token_kind) => self.tokens.push(new_token(token_kind.clone(), start, end)),
            None => self.tokens.push(new_token(TokenKind::Identifier(identifier), start, end)),
        }
        self.pos = end;
        proof {
            assert(self.tokens@.drop_last() =~= old(self).tokens@);
        }
    }

    /// Read a code while `f` returns `true` and return position of the end of fragment; each character in the fragment satisfies `f`.
    fn recognize_multiple_char(&mut self, mut f: impl FnMut(u8) -> bool) -> (end: usize)
        requires
            old(self).wf(),
            forall|b: u8| f.requires((b,)),
        ensures
            *final(self) == *old(self),
            old(self).cursor() <= end <= old(self).source().len(),
            forall|i: int|
                old(self).cursor() <= i < end ==> f.ensures((#[trigger] old(self).source()[i],), true),
            end < old(self).source().len() ==> f.ensures((old(self).source()[end as int],), false),
    {
        let mut pos = self.pos;
        let ghost given = f;
        while pos < self.input.len() && f(self.input[pos])
            invariant
                *self == *old(self),
                f == given,
                forall|b: u8| f.requires((b,)),
                self.pos <= pos <= self.input@.len(),
                forall|i: int| self.pos <= i < pos ==> f.ensures((#[trigger] self.input@[i],), true),
            ensures
                pos < self.input@.len() ==> f.ensures((self.input@[pos as int],), false),
            decreases self.input@.len() - pos,
        {
            pos += 1;
        }
        pos
    }

    fn lex_semicolon(&mut self)
        requires
            old(self).wf(),
            old(self).cursor() < old(self).source().len(),
        ensures
            final(self).took_symbol(old(self), TokenKind::Semicolon),
    {
        self.tokens.push(new_token(TokenKind::Semicolon, self.pos, self.pos + 1));
        self.pos += 1;
    }

    fn lex_assignment(&mut self)
        requires
            old(self).wf(),
            old(self).cursor() < old(self).source().len(),
        ensures
            final(self).took_symbol(old(self), TokenKind::Assignment),
    {
        self.tokens.push(new_token(TokenKind::Assignment, self.pos, self.pos + 1));
        self.pos += 1;
    }

    /// Moves the reading position over the longest run of whitespace.
    fn skip_spaces(&mut self)
        requires
            old(self).wf(),
        ensures
            final(self).source() == old(self).source(),
            final(self).emitted() == old(self).emitted(),
            is_run(old(self).source(), ByteClass::Space, old(self).cursor(), final(self).cursor()),
    {
        let space = |b: u8| -> (r: bool)
            ensures
                r == is_space(b),
            { b == SPACE || b == NEWLINE || b == TAB };
        let pos = self.recognize_multiple_char(space);
        self.pos = pos;
    }
}

} // verus!
