//! The classification report: one line per token, in source order.
//!
//! Each line shows the category label and the lexeme in single quotes; a
//! keyword line reads `Keyword 'int'`, every other line reads like
//! `Identifier: 'main'`. The lines are newline-terminated and concatenated
//! with nothing after the last line.

use vstd::prelude::*;
use vstd::string::StrSliceExecFns;
use vstd::string::StringExecFns;

use crate::scanner::scan;
use crate::scanner::scan_tokens;
use crate::token::classify;
use crate::token::classify_spec;
use crate::token::ClassifiedToken;
use crate::token::TokenCategory;

verus! {

/// The report line for one lexeme and the category assigned to it.
pub open spec fn line_for(category: TokenCategory, lexeme: Seq<char>) -> Seq<char> {
    match category {
        TokenCategory::Keyword(_) => "Keyword '"@ + lexeme + "'\n"@,
        TokenCategory::Identifier => "Identifier: '"@ + lexeme + "'\n"@,
        TokenCategory::Constant => "Constant: '"@ + lexeme + "'\n"@,
        TokenCategory::OpenParenthesis => "Open Parenthesis: '"@ + lexeme + "'\n"@,
        TokenCategory::CloseParenthesis => "Close Parenthesis: '"@ + lexeme + "'\n"@,
        TokenCategory::OpenBrace => "Open Brace: '"@ + lexeme + "'\n"@,
        TokenCategory::CloseBrace => "Close Brace: '"@ + lexeme + "'\n"@,
        TokenCategory::Semicolon => "Semicolon: '"@ + lexeme + "'\n"@,
        TokenCategory::Unknown => "Unknown token: '"@ + lexeme + "'\n"@,
    }
}

/// The report line for one raw lexeme, classified by the classifier.
pub open spec fn line_of(lexeme: Seq<char>) -> Seq<char> {
    line_for(classify_spec(lexeme), lexeme)
}

/// The concatenated report lines of a sequence of raw lexemes.
pub open spec fn report_of(tokens: Seq<Seq<char>>) -> Seq<char>
    decreases tokens.len(),
{
    if tokens.len() == 0 {
        Seq::empty()
    } else {
        line_of(tokens.first()) + report_of(tokens.drop_first())
    }
}

/// The full classification report of a source text: scan it into raw
/// lexemes, classify each, and render one line per token.
pub open spec fn report_spec(src: Seq<char>) -> Seq<char> {
    report_of(scan(src))
}

/// Render the report line of one classified token.
pub fn format_line(token: &ClassifiedToken) -> (line: String)
    ensures
        line@ == line_for(token.category, token.lexeme@),
{
    let mut line = match token.category {
        TokenCategory::Keyword(_) => String::from_str("Keyword '"),
        TokenCategory::Identifier => String::from_str("Identifier: '"),
        TokenCategory::Constant => String::from_str("Constant: '"),
        TokenCategory::OpenParenthesis => String::from_str("Open Parenthesis: '"),
        TokenCategory::CloseParenthesis => String::from_str("Close Parenthesis: '"),
        TokenCategory::OpenBrace => String::from_str("Open Brace: '"),
        TokenCategory::CloseBrace => String::from_str("Close Brace: '"),
        TokenCategory::Semicolon => String::from_str("Semicolon: '"),
        TokenCategory::Unknown => String::from_str("Unknown token: '"),
    };
    line.append(token.lexeme.as_str());
    line.append("'\n");
    proof {
        assert(line@ =~= line_for(token.category, token.lexeme@));
    }
    line
}

/// Tokenize and classify a source text. The result has one entry per raw
/// lexeme the scanner finds, in source order, each carrying the category the
/// classifier assigns to that lexeme.
pub fn lex(src: &str) -> (tokens: Vec<ClassifiedToken>)
    ensures
        tokens@.len() == scan(src@).len(),
        forall|k: int| #![auto] 0 <= k < tokens@.len() ==> tokens@[k].lexeme@ == scan(src@)[k]
            && tokens@[k].category == classify_spec(scan(src@)[k]),
{
    let raw = scan_tokens(src);
    let mut tokens: Vec<ClassifiedToken> = Vec::new();
    let mut idx: usize = 0;
    while idx < raw.len()
        invariant
            raw@.map_values(|t: String| t@) == scan(src@),
            0 <= idx <= raw@.len(),
            tokens@.len() == idx,
            forall|k: int| #![auto] 0 <= k < idx ==> tokens@[k].lexeme@ == scan(src@)[k]
                && tokens@[k].category == classify_spec(scan(src@)[k]),
        decreases raw@.len() - idx,
    {
        let category = classify(raw[idx].as_str());
        let lexeme = raw[idx].clone();
        proof {
            assert(raw@.map_values(|t: String| t@)[idx as int] == raw@[idx as int]@);
        }
        tokens.push(ClassifiedToken { lexeme, category });
        idx = idx + 1;
    }
    tokens
}

/// Produce the full classification report of a source text as one string,
/// one newline-terminated line per token.
pub fn lex_report(src: &str) -> (report: String)
    ensures
        report@ == report_spec(src@),
{
    let tokens = lex(src);
    let mut report = String::new();
    let mut idx: usize = 0;
    proof {
        assert(scan(src@).skip(0) =~= scan(src@));
        assert(report@ + report_of(scan(src@)) =~= report_of(scan(src@)));
    }
    while idx < tokens.len()
        invariant
            tokens@.len() == scan(src@).len(),
            forall|k: int| #![auto] 0 <= k < tokens@.len() ==> tokens@[k].lexeme@ == scan(src@)[k]
                && tokens@[k].category == classify_spec(scan(src@)[k]),
            0 <= idx <= tokens@.len(),
            report_of(scan(src@)) == report@ + report_of(scan(src@).skip(idx as int)),
        decreases tokens@.len() - idx,
    {
        let line = format_line(&tokens[idx]);
        let ghost rest = scan(src@).skip(idx as int);
        proof {
            assert(rest.first() == scan(src@)[idx as int]);
            assert(rest.drop_first() =~= scan(src@).skip(idx + 1));
            assert(report_of(rest) == line_of(rest.first()) + report_of(rest.drop_first()));
        }
        let ghost before = report@;
        report.append(line.as_str());
        proof {
            assert(report@ =~= before + line_of(scan(src@)[idx as int]));
            assert(report_of(scan(src@)) == report@ + report_of(scan(src@).skip(idx + 1))) by {
                assert(before + (line_of(rest.first()) + report_of(rest.drop_first())) =~= (before
                    + line_of(rest.first())) + report_of(rest.drop_first()));
            }
        }
        idx = idx + 1;
    }
    proof {
        assert(scan(src@).skip(tokens@.len() as int) =~= Seq::<Seq<char>>::empty());
        assert(report@ + report_of(Seq::<Seq<char>>::empty()) =~= report@);
    }
    report
}

/// Law: the report is a function of the source text alone — lexing the same
/// text a second time yields the very same report.
pub proof fn lemma_lexer_deterministic(first: Seq<char>, second: Seq<char>)
    requires
        first == second,
    ensures
        report_spec(first) == report_spec(second),
{
}

/// Law: an empty source text scans to no tokens and reports zero lines.
pub proof fn lemma_empty_source()
    ensures
        scan(Seq::<char>::empty()).len() == 0,
        report_spec(Seq::<char>::empty()).len() == 0,
{
}

/// Law: a source text in which no character can start a token — only
/// whitespace and unsupported punctuation — reports zero lines.
pub proof fn lemma_unmatched_text_reports_nothing(s: Seq<char>)
    requires
        forall|k: int| 0 <= k < s.len() ==> !crate::scanner::is_token_start(s[k]),
    ensures
        report_spec(s).len() == 0,
{
    crate::scanner::lemma_no_token_chars(s);
    assert(scan(s) =~= Seq::<Seq<char>>::empty());
}

} // verus!
