//! Token categories and the classifier.
//!
//! A lexeme is classified by trying, in order: the three keywords, the
//! identifier shape, the constant shape, and the five punctuation characters.
//! The first match wins, so a keyword is never reported as an identifier.
//! `Unknown` is the total catch-all for lexemes that match nothing; it is
//! unreachable for lexemes produced by the paired scanner, but the classifier
//! stays total so that it can be reused on arbitrary strings.

use vstd::prelude::*;
use vstd::string::StrSliceExecFns;

verus! {

/// Which of the three keywords a `Keyword` token is.
#[derive(Clone, Copy, Debug, PartialEq, Eq, Structural)]
pub enum KeywordKind {
    Int,
    Void,
    Return,
}

/// The category a single lexeme falls into. Every lexeme gets exactly one.
#[derive(Clone, Copy, Debug, PartialEq, Eq, Structural)]
pub enum TokenCategory {
    Keyword(KeywordKind),
    Identifier,
    Constant,
    OpenParenthesis,
    CloseParenthesis,
    OpenBrace,
    CloseBrace,
    Semicolon,
    Unknown,
}

/// A lexeme paired with the category assigned to it, in source order.
#[derive(Debug)]
pub struct ClassifiedToken {
    pub lexeme: String,
    pub category: TokenCategory,
}

/// An ASCII letter.
pub open spec fn is_letter(c: char) -> bool {
    (('a' as u32) <= (c as u32) && (c as u32) <= ('z' as u32))
    || (('A' as u32) <= (c as u32) && (c as u32) <= ('Z' as u32))
}

/// An ASCII decimal digit.
pub open spec fn is_digit(c: char) -> bool {
    ('0' as u32) <= (c as u32) && (c as u32) <= ('9' as u32)
}

/// A character that may start an identifier or keyword.
pub open spec fn is_word_start(c: char) -> bool {
    is_letter(c) || c == '_'
}

/// A character that may continue an identifier or keyword.
pub open spec fn is_word_char(c: char) -> bool {
    is_letter(c) || is_digit(c) || c == '_'
}

/// One of the five recognized punctuation characters.
pub open spec fn is_punct(c: char) -> bool {
    c == '(' || c == ')' || c == '{' || c == '}' || c == ';'
}

/// The identifier shape: a word-start character followed by word characters.
pub open spec fn is_identifier(s: Seq<char>) -> bool {
    s.len() > 0 && is_word_start(s[0]) && (forall|k: int| 1 <= k < s.len() ==> is_word_char(s[k]))
}

/// The constant shape: one or more decimal digits.
pub open spec fn is_constant(s: Seq<char>) -> bool {
    s.len() > 0 && (forall|k: int| 0 <= k < s.len() ==> is_digit(s[k]))
}

/// The category of a lexeme: keywords first, then the identifier and constant
/// shapes, then the punctuation characters, and `Unknown` for everything else.
pub open spec fn classify_spec(s: Seq<char>) -> TokenCategory {
    if s == "int"@ {
        TokenCategory::Keyword(KeywordKind::Int)
    } else if s == "void"@ {
        TokenCategory::Keyword(KeywordKind::Void)
    } else if s == "return"@ {
        TokenCategory::Keyword(KeywordKind::Return)
    } else if is_identifier(s) {
        TokenCategory::Identifier
    } else if is_constant(s) {
        TokenCategory::Constant
    } else if s == "("@ {
        TokenCategory::OpenParenthesis
    } else if s == ")"@ {
        TokenCategory::CloseParenthesis
    } else if s == "{"@ {
        TokenCategory::OpenBrace
    } else if s == "}"@ {
        TokenCategory::CloseBrace
    } else if s == ";"@ {
        TokenCategory::Semicolon
    } else {
        TokenCategory::Unknown
    }
}

pub(crate) fn check_word_start(c: char) -> (r: bool)
    ensures
        r == is_word_start(c),
{
    let u: u32 = c as u32;
    (('a' as u32) <= u && u <= ('z' as u32)) || (('A' as u32) <= u && u <= ('Z' as u32)) || c == '_'
}

pub(crate) fn check_word_char(c: char) -> (r: bool)
    ensures
        r == is_word_char(c),
{
    let u: u32 = c as u32;
    (('a' as u32) <= u && u <= ('z' as u32)) || (('A' as u32) <= u && u <= ('Z' as u32))
        || (('0' as u32) <= u && u <= ('9' as u32)) || c == '_'
}

pub(crate) fn check_digit(c: char) -> (r: bool)
    ensures
        r == is_digit(c),
{
    let u: u32 = c as u32;
    ('0' as u32) <= u && u <= ('9' as u32)
}

pub(crate) fn check_punct(c: char) -> (r: bool)
    ensures
        r == is_punct(c),
{
    c == '(' || c == ')' || c == '{' || c == '}' || c == ';'
}

/// Character-by-character string equality, settled at the level of views.
pub(crate) fn str_eq(a: &str, b: &str) -> (r: bool)
    ensures
        r == (a@ == b@),
{
    let na: usize = a.unicode_len();
    let nb: usize = b.unicode_len();
    if na != nb {
        return false;
    }
    let mut i: usize = 0;
    while i < na
        invariant
            na == a@.len(),
            na == b@.len(),
            0 <= i <= na,
            forall|k: int| 0 <= k < i ==> a@[k] == b@[k],
        decreases na - i,
    {
        if a.get_char(i) != b.get_char(i) {
            return false;
        }
        i = i + 1;
    }
    proof {
        assert(a@ =~= b@);
    }
    true
}

fn check_identifier(s: &str) -> (r: bool)
    ensures
        r == is_identifier(s@),
{
    let n: usize = s.unicode_len();
    if n == 0 {
        return false;
    }
    if !check_word_start(s.get_char(0)) {
        return false;
    }
    let mut i: usize = 1;
    while i < n
        invariant
            n == s@.len(),
            1 <= i <= n,
            is_word_start(s@[0]),
            forall|k: int| 1 <= k < i ==> is_word_char(s@[k]),
        decreases n - i,
    {
        if !check_word_char(s.get_char(i)) {
            return false;
        }
        i = i + 1;
    }
    true
}

fn check_constant(s: &str) -> (r: bool)
    ensures
        r == is_constant(s@),
{
    let n: usize = s.unicode_len();
    if n == 0 {
        return false;
    }
    let mut i: usize = 0;
    while i < n
        invariant
            n == s@.len(),
            0 <= i <= n,
            forall|k: int| 0 <= k < i ==> is_digit(s@[k]),
        decreases n - i,
    {
        if !check_digit(s.get_char(i)) {
            return false;
        }
        i = i + 1;
    }
    true
}

/// Assign a lexeme its category. Total: any string gets exactly one category,
/// with `Unknown` as the catch-all.
pub fn classify(lexeme: &str) -> (category: TokenCategory)
    ensures
        category == classify_spec(lexeme@),
{
    if str_eq(lexeme, "int") {
        return TokenCategory::Keyword(KeywordKind::Int);
    }
    if str_eq(lexeme, "void") {
        return TokenCategory::Keyword(KeywordKind::Void);
    }
    if str_eq(lexeme, "return") {
        return TokenCategory::Keyword(KeywordKind::Return);
    }
    if check_identifier(lexeme) {
        return TokenCategory::Identifier;
    }
    if check_constant(lexeme) {
        return TokenCategory::Constant;
    }
    if str_eq(lexeme, "(") {
        return TokenCategory::OpenParenthesis;
    }
    if str_eq(lexeme, ")") {
        return TokenCategory::CloseParenthesis;
    }
    if str_eq(lexeme, "{") {
        return TokenCategory::OpenBrace;
    }
    if str_eq(lexeme, "}") {
        return TokenCategory::CloseBrace;
    }
    if str_eq(lexeme, ";") {
        return TokenCategory::Semicolon;
    }
    TokenCategory::Unknown
}

/// Law: each keyword lexeme classifies as `Keyword` and never as
/// `Identifier`, although its spelling also has the identifier shape.
pub proof fn lemma_keyword_precedence(s: Seq<char>)
    requires
        s == "int"@ || s == "void"@ || s == "return"@,
    ensures
        classify_spec(s) is Keyword,
        !(classify_spec(s) is Identifier),
        is_identifier(s),
{
    reveal_strlit("int");
    reveal_strlit("void");
    reveal_strlit("return");
    assert forall|k: int| 1 <= k < s.len() implies is_word_char(s[k]) by {
        if s == "int"@ {
            assert(s[1] == 'n' && s[2] == 't');
        } else if s == "void"@ {
            assert(s[1] == 'o' && s[2] == 'i' && s[3] == 'd');
        } else {
            assert(s[1] == 'e' && s[2] == 't' && s[3] == 'u' && s[4] == 'r' && s[5] == 'n');
        }
    }
    assert(is_word_start(s[0]));
}

} // verus!
