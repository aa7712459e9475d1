use vstd::prelude::*;
use vstd::string::*;

use crate::error::Error;
use crate::text::{char_to_string, concat3};

verus! {

/// White space between lexemes.
pub open spec fn is_space(c: char) -> bool {
    c == ' ' || c == '\t' || c == '\n' || c == '\r'
}

/// Characters that words (names and types) are made of.
pub open spec fn is_word_char(c: char) -> bool {
    ('a' <= c && c <= 'z') || ('A' <= c && c <= 'Z') || ('0' <= c && c <= '9') || c == '_'
}

/// The first position at or after `i` that holds no white space.
pub open spec fn skip_spaces(s: Seq<char>, i: int) -> int
    decreases s.len() - i,
{
    if i < s.len() && is_space(s[i]) {
        skip_spaces(s, i + 1)
    } else {
        i
    }
}

/// The first position at or after `i` that holds no word character.
pub open spec fn word_end(s: Seq<char>, i: int) -> int
    decreases s.len() - i,
{
    if i < s.len() && is_word_char(s[i]) {
        word_end(s, i + 1)
    } else {
        i
    }
}

/// A lexeme as a mathematical value.
pub enum SpecLexeme {
    Eof,
    Word(Seq<char>),
    Ampersand,
    Bracket(char),
    Colon,
    Comma,
}

/// The message for a character that starts no lexeme.
pub open spec fn unexpected_char_message(c: char) -> Seq<char> {
    "Unexpected character '"@ + seq![c] + "' in semantics"@
}

/// The lexeme that starts at the first non-space position at or after `i`,
/// with the position just after it; or the message for a character that
/// starts no lexeme. At the end of the text the lexeme is `Eof`.
pub open spec fn lex_at(s: Seq<char>, i: int) -> Result<(SpecLexeme, int), Seq<char>> {
    let k = skip_spaces(s, i);
    if k >= s.len() {
        Ok((SpecLexeme::Eof, k))
    } else {
        let c = s[k];
        if c == '&' {
            Ok((SpecLexeme::Ampersand, k + 1))
        } else if c == '(' || c == ')' {
            Ok((SpecLexeme::Bracket(c), k + 1))
        } else if c == ':' {
            Ok((SpecLexeme::Colon, k + 1))
        } else if c == ',' {
            Ok((SpecLexeme::Comma, k + 1))
        } else if is_word_char(c) {
            let e = word_end(s, k);
            Ok((SpecLexeme::Word(s.subrange(k, e)), e))
        } else {
            Err(unexpected_char_message(c))
        }
    }
}

/// How a lexeme is named in messages.
pub open spec fn lexeme_text(l: SpecLexeme) -> Seq<char> {
    match l {
        SpecLexeme::Eof => "end of semantics"@,
        SpecLexeme::Word(w) => "\""@ + w + "\""@,
        SpecLexeme::Ampersand => "'&'"@,
        SpecLexeme::Bracket(c) => "'"@ + seq![c] + "'"@,
        SpecLexeme::Colon => "':'"@,
        SpecLexeme::Comma => "','"@,
    }
}

pub proof fn lemma_skip_spaces(s: Seq<char>, i: int)
    ensures
        skip_spaces(s, i) >= i,
        i <= s.len() ==> skip_spaces(s, i) <= s.len(),
        skip_spaces(s, i) < s.len() ==> !is_space(s[skip_spaces(s, i)]),
    decreases s.len() - i,
{
    if i < s.len() && is_space(s[i]) {
        lemma_skip_spaces(s, i + 1);
    }
}

pub proof fn lemma_word_end(s: Seq<char>, i: int)
    ensures
        word_end(s, i) >= i,
        i <= s.len() ==> word_end(s, i) <= s.len(),
    decreases s.len() - i,
{
    if i < s.len() && is_word_char(s[i]) {
        lemma_word_end(s, i + 1);
    }
}

/// A lexeme other than `Eof` ends after the position the lexer starts from,
/// and no lexeme ends past the end of the text.
pub proof fn lemma_lex_advances(s: Seq<char>, i: int)
    ensures
        lex_at(s, i) matches Ok((l, j)) ==> {
            &&& (l !is Eof ==> i < j)
            &&& (0 <= i <= s.len() ==> 0 <= j <= s.len())
            &&& (l is Eof && i <= s.len() ==> j == s.len())
        },
{
    lemma_skip_spaces(s, i);
    let k = skip_spaces(s, i);
    if k < s.len() {
        lemma_word_end(s, k);
        lemma_word_end(s, k + 1);
    }
}

/// A lexeme of the semantics text.
#[derive(Clone, Copy)]
pub enum Lexeme<'a> {
    EOF,
    String(&'a str),
    Ampersand,
    Bracket(char),
    Colon,
    Comma,
}

impl<'a> View for Lexeme<'a> {
    type V = SpecLexeme;

    open spec fn view(&self) -> SpecLexeme {
        match *self {
            Lexeme::EOF => SpecLexeme::Eof,
            Lexeme::String(w) => SpecLexeme::Word(w@),
            Lexeme::Ampersand => SpecLexeme::Ampersand,
            Lexeme::Bracket(c) => SpecLexeme::Bracket(c),
            Lexeme::Colon => SpecLexeme::Colon,
            Lexeme::Comma => SpecLexeme::Comma,
        }
    }
}

impl<'a> Lexeme<'a> {
    /// How the lexeme is named in messages.
    pub fn print(&self) -> (r: String)
        ensures
            r@ == lexeme_text(self@),
    {
        match *self {
            Lexeme::EOF => String::from_str("end of semantics"),
            Lexeme::String(w) => concat3("\"", w, "\""),
            Lexeme::Ampersand => String::from_str("'&'"),
            Lexeme::Bracket(c) => {
                let cs = char_to_string(c);
                concat3("'", cs.as_str(), "'")
            },
            Lexeme::Colon => String::from_str("':'"),
            Lexeme::Comma => String::from_str("','"),
        }
    }
}

fn is_space_char(c: char) -> (r: bool)
    ensures
        r == is_space(c),
{
    c == ' ' || c == '\t' || c == '\n' || c == '\r'
}

fn is_word_character(c: char) -> (r: bool)
    ensures
        r == is_word_char(c),
{
    ('a' <= c && c <= 'z') || ('A' <= c && c <= 'Z') || ('0' <= c && c <= '9') || c == '_'
}

/// Reads the lexemes of a text one after another.
pub struct Cursor<'a> {
    pub text: &'a str,
    pub len: usize,
    pub pos: usize,
    /// The lexeme read last.
    pub lex: Lexeme<'a>,
}

impl<'a> Cursor<'a> {
    pub open spec fn wf(&self) -> bool {
        &&& self.len == self.text@.len()
        &&& self.pos <= self.len
    }

    pub fn new(text: &'a str) -> (c: Cursor<'a>)
        ensures
            c.wf(),
            c.text@ == text@,
            c.pos == 0,
            c.lex == Lexeme::<'a>::EOF,
    {
        let len = text.unicode_len();
        Cursor { text, len, pos: 0, lex: Lexeme::EOF }
    }

    /// Reads the next lexeme, which is also kept in `lex`.
    pub fn next(&mut self) -> (r: Result<Lexeme<'a>, Error>)
        requires
            old(self).wf(),
        ensures
            final(self).wf(),
            final(self).text == old(self).text,
            match lex_at(old(self).text@, old(self).pos as int) {
                Ok((l, j)) => {
                    &&& r == Ok::<Lexeme<'a>, Error>(final(self).lex)
                    &&& final(self).lex@ == l
                    &&& final(self).pos == j
                },
                Err(m) => r matches Err(Error::SemanticsParse(e)) && e@ == m,
            },
    {
        let ghost s = self.text@;
        let mut k = self.pos;
        while k < self.len && is_space_char(self.text.get_char(k))
            invariant
                self.wf(),
                s == self.text@,
                old(self).pos <= k <= self.len,
                self.pos == old(self).pos,
                skip_spaces(s, old(self).pos as int) == skip_spaces(s, k as int),
            decreases self.len - k,
        {
            k = k + 1;
        }
        if k >= self.len {
            self.pos = k;
            self.lex = Lexeme::EOF;
            return Ok(Lexeme::EOF);
        }
        let c = self.text.get_char(k);
        let lex = if c == '&' {
            Lexeme::Ampersand
        } else if c == '(' || c == ')' {
            Lexeme::Bracket(c)
        } else if c == ':' {
            Lexeme::Colon
        } else if c == ',' {
            Lexeme::Comma
        } else if is_word_character(c) {
            let mut e = k + 1;
            while e < self.len && is_word_character(self.text.get_char(e))
                invariant
                    self.wf(),
                    s == self.text@,
                    k < e <= self.len,
                    word_end(s, k as int) == word_end(s, e as int),
                decreases self.len - e,
            {
                e = e + 1;
            }
            let w = self.text.substring_char(k, e);
            self.pos = e;
            self.lex = Lexeme::String(w);
            return Ok(Lexeme::String(w));
        } else {
            let cs = char_to_string(c);
            let m = concat3("Unexpected character '", cs.as_str(), "' in semantics");
            return Err(Error::SemanticsParse(m));
        };
        self.pos = k + 1;
        self.lex = lex;
        Ok(lex)
    }
}

} // verus!
