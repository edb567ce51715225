use tinylex::classify;
use tinylex::lex;
use tinylex::lex_report;
use tinylex::report::format_line;
use tinylex::ClassifiedToken;
use tinylex::KeywordKind;
use tinylex::TokenCategory;

#[test]
fn example_program_report() {
    let report = lex_report("int main ( ) { return 0 ; }");
    let expected = "Keyword 'int'\n\
                    Identifier: 'main'\n\
                    Open Parenthesis: '('\n\
                    Close Parenthesis: ')'\n\
                    Open Brace: '{'\n\
                    Keyword 'return'\n\
                    Constant: '0'\n\
                    Semicolon: ';'\n\
                    Close Brace: '}'\n";
    assert_eq!(report, expected);
}

#[test]
fn identifiers_and_constant_report() {
    let report = lex_report("foo123 _bar 42");
    let expected = "Identifier: 'foo123'\n\
                    Identifier: '_bar'\n\
                    Constant: '42'\n";
    assert_eq!(report, expected);
}

#[test]
fn joined_keywords_are_one_identifier() {
    let report = lex_report("voidreturn");
    assert_eq!(report, "Identifier: 'voidreturn'\n");
}

#[test]
fn empty_source_reports_nothing() {
    assert_eq!(lex_report(""), "");
}

#[test]
fn unmatched_characters_report_nothing() {
    assert_eq!(lex_report(" \t\r\n@#$"), "");
    assert_eq!(lex_report("@#$"), "");
}

#[test]
fn keywords_classify_as_keywords() {
    assert_eq!(classify("int"), TokenCategory::Keyword(KeywordKind::Int));
    assert_eq!(classify("void"), TokenCategory::Keyword(KeywordKind::Void));
    assert_eq!(classify("return"), TokenCategory::Keyword(KeywordKind::Return));
}

#[test]
fn near_keywords_classify_as_identifiers() {
    assert_eq!(classify("int1"), TokenCategory::Identifier);
    assert_eq!(classify("_int"), TokenCategory::Identifier);
    assert_eq!(classify("returns"), TokenCategory::Identifier);
}

#[test]
fn punctuation_classifies_each_way() {
    assert_eq!(classify("("), TokenCategory::OpenParenthesis);
    assert_eq!(classify(")"), TokenCategory::CloseParenthesis);
    assert_eq!(classify("{"), TokenCategory::OpenBrace);
    assert_eq!(classify("}"), TokenCategory::CloseBrace);
    assert_eq!(classify(";"), TokenCategory::Semicolon);
}

#[test]
fn classifier_is_total_on_stray_lexemes() {
    assert_eq!(classify(""), TokenCategory::Unknown);
    assert_eq!(classify("@"), TokenCategory::Unknown);
    assert_eq!(classify("12ab"), TokenCategory::Unknown);
    assert_eq!(classify("a-b"), TokenCategory::Unknown);
}

#[test]
fn token_count_and_order_match_the_source() {
    let tokens = lex("int main ( ) { return 0 ; }");
    assert_eq!(tokens.len(), 9);
    let lexemes: Vec<&str> = tokens.iter().map(|t| t.lexeme.as_str()).collect();
    assert_eq!(lexemes, vec!["int", "main", "(", ")", "{", "return", "0", ";", "}"]);
    assert_eq!(tokens[0].category, TokenCategory::Keyword(KeywordKind::Int));
    assert_eq!(tokens[1].category, TokenCategory::Identifier);
    assert_eq!(tokens[6].category, TokenCategory::Constant);
}

#[test]
fn surrounding_noise_changes_no_count() {
    assert_eq!(lex("int main").len(), 2);
    assert_eq!(lex("  int \t main  ").len(), 2);
    assert_eq!(lex("@int@main@").len(), 2);
}

#[test]
fn lexing_twice_gives_identical_output() {
    let source = "int main ( ) { return 0 ; }";
    assert_eq!(lex_report(source), lex_report(source));
    let first = lex(source);
    let second = lex(source);
    assert_eq!(first.len(), second.len());
    for (a, b) in first.iter().zip(second.iter()) {
        assert_eq!(a.lexeme, b.lexeme);
        assert_eq!(a.category, b.category);
    }
}

#[test]
fn digits_end_where_a_word_begins() {
    let report = lex_report("42abc");
    assert_eq!(report, "Constant: '42'\nIdentifier: 'abc'\n");
    assert_eq!(lex_report("abc42"), "Identifier: 'abc42'\n");
}

#[test]
fn packed_program_splits_on_punctuation() {
    let report = lex_report("int x;{}");
    let expected = "Keyword 'int'\n\
                    Identifier: 'x'\n\
                    Semicolon: ';'\n\
                    Open Brace: '{'\n\
                    Close Brace: '}'\n";
    assert_eq!(report, expected);
}

#[test]
fn unknown_lexeme_line_is_rendered() {
    let token = ClassifiedToken { lexeme: "@".to_string(), category: TokenCategory::Unknown };
    assert_eq!(format_line(&token), "Unknown token: '@'\n");
}

#[test]
fn keyword_line_has_no_colon() {
    let token = ClassifiedToken {
        lexeme: "void".to_string(),
        category: TokenCategory::Keyword(KeywordKind::Void),
    };
    assert_eq!(format_line(&token), "Keyword 'void'\n");
}
