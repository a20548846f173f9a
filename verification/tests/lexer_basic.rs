use qbasic_rs::lexer::{get_line_col, integers_fit, tokenize};
use qbasic_rs::token::{Keyword, Math, Relational, Side, Token};

#[test]
fn test_basic_tokenization() {
    let input = "LET x = 10\nPRINT x";
    let result = tokenize(input).unwrap();

    assert_eq!(result.len(), 7);
    assert!(matches!(result[0], Token::Keyword(Keyword::Let)));
    assert!(matches!(result[1], Token::Identifier(_)));
    assert!(matches!(result[2], Token::Equal));
    assert!(matches!(result[3], Token::Integer(10)));
    assert!(matches!(result[4], Token::Newline));
    assert!(matches!(result[5], Token::Keyword(Keyword::Print)));
    assert!(matches!(result[6], Token::Identifier(_)));
}

#[test]
fn test_operators() {
    let input = "1 + 2 * 3 / 4 - 5";
    let result = tokenize(input).unwrap();

    assert_eq!(result.len(), 9);
    assert!(matches!(result[1], Token::Operator(Math::Plus)));
    assert!(matches!(result[3], Token::Operator(Math::Times)));
    assert!(matches!(result[5], Token::Operator(Math::Division)));
    assert!(matches!(result[7], Token::Operator(Math::Minus)));
}

#[test]
fn test_relational_operators() {
    let input = "x < y <= z > w >= v <>";
    let result = tokenize(input).unwrap();

    assert_eq!(result.len(), 10);
    assert!(matches!(result[1], Token::Relational(Relational::Lt)));
    assert!(matches!(result[3], Token::Relational(Relational::LtEq)));
    assert!(matches!(result[5], Token::Relational(Relational::Gt)));
    assert!(matches!(result[7], Token::Relational(Relational::GtEq)));
    assert!(matches!(result[9], Token::Relational(Relational::NotEq)));
}

#[test]
fn test_parentheses() {
    let input = "(x + y) * (a - b)";
    let result = tokenize(input).unwrap();

    assert_eq!(result.len(), 11);
    assert!(matches!(result[0], Token::Paran(Side::Left)));
    assert!(matches!(result[4], Token::Paran(Side::Right)));
    assert!(matches!(result[6], Token::Paran(Side::Left)));
    assert!(matches!(result[10], Token::Paran(Side::Right)));
}

#[test]
fn test_comments() {
    let input = "REM This is a comment\n' This is also a comment\nPRINT x";
    let result = tokenize(input).unwrap();

    assert_eq!(result.len(), 6);
    assert!(matches!(result[0], Token::Keyword(Keyword::Rem(_))));
    assert!(matches!(result[1], Token::Newline));
    assert!(matches!(result[2], Token::Comment(_)));
    assert!(matches!(result[3], Token::Newline));
    assert!(matches!(result[4], Token::Keyword(Keyword::Print)));
    assert!(matches!(result[5], Token::Identifier(_)));
}

#[test]
fn test_string_literals() {
    let input = r#"PRINT "Hello, World!""#;
    let result = tokenize(input).unwrap();

    assert_eq!(result.len(), 2);
    assert!(matches!(result[0], Token::Keyword(Keyword::Print)));
    if let Token::String(s) = &result[1] {
        assert_eq!(s, "\"Hello, World!\"");
    } else {
        panic!("Expected String token");
    }
}

#[test]
fn test_case_insensitive_keywords() {
    let input = "let print if then input goto end";
    let result = tokenize(input).unwrap();

    assert_eq!(result.len(), 7);
    assert!(matches!(result[0], Token::Keyword(Keyword::Let)));
    assert!(matches!(result[1], Token::Keyword(Keyword::Print)));
    assert!(matches!(result[2], Token::Keyword(Keyword::If)));
    assert!(matches!(result[3], Token::Keyword(Keyword::Then)));
    assert!(matches!(result[4], Token::Keyword(Keyword::Input)));
    assert!(matches!(result[5], Token::Keyword(Keyword::Goto)));
    assert!(matches!(result[6], Token::Keyword(Keyword::End)));
}

#[test]
fn test_invalid_characters() {
    let input = "LET x = @invalid";
    let result = tokenize(input);

    assert!(result.is_err());
    let error = result.unwrap_err();
    assert!(error.iter().any(|err| err.message.contains("Unexpected character")));
    assert!(error.iter().any(|err| err.message.to_string().contains("@")));
}

#[test]
fn test_unterminated_string() {
    let input = r#"PRINT "hello"#;
    let result = tokenize(input);

    assert!(result.is_err());
    let error = result.unwrap_err();
    assert!(error.iter().any(|err| err.message.contains("String literal was not closed")));
}

#[test]
fn test_empty_input() {
    let input = "";
    let result = tokenize(input).unwrap();

    assert_eq!(result.len(), 0);
}

#[test]
fn test_whitespace_only() {
    let input = "   \t\n  ";
    let result = tokenize(input).unwrap();

    // Should contain only one Newline
    assert_eq!(result.len(), 1);
    assert!(matches!(result[0], Token::Newline));
}

/// Multiple new lines should be counted as one token.
#[test]
fn test_multiple_new_lines() {
    let input = "REM   \n\n\n REM ";
    let result = tokenize(input).unwrap();

    assert_eq!(result.len(), 3);
    assert!(matches!(result[1], Token::Newline));
}

#[test]
fn test_error_positions() {
    let input = "10 PRINT 1\n20 LET y = @";
    let errors = tokenize(input).unwrap_err();
    assert_eq!(errors.len(), 1);
    assert_eq!(errors[0].message, "Unexpected character or sequence: '@'");
    assert_eq!(errors[0].line, 2);
    assert_eq!(errors[0].column, 12);
    assert_eq!(errors[0].span, 22..23);
}

#[test]
fn test_unterminated_string_message_and_position() {
    let input = "PRINT \"abc\nPRINT 1";
    let errors = tokenize(input).unwrap_err();
    assert_eq!(errors.len(), 1);
    assert_eq!(errors[0].message, "String literal was not closed (missing \")");
    assert_eq!(errors[0].line, 1);
    assert_eq!(errors[0].column, 7);
}

#[test]
fn test_several_errors_in_order() {
    let errors = tokenize("@ # PRINT").unwrap_err();
    assert_eq!(errors.len(), 2);
    assert!(errors[0].message.contains("'@'"));
    assert!(errors[1].message.contains("'#'"));
    assert_eq!(errors[0].column, 1);
    assert_eq!(errors[1].column, 3);
}

#[test]
fn test_multibyte_error_span() {
    // The span is in bytes: the letter before takes two.
    let errors = tokenize("é").unwrap_err();
    assert_eq!(errors[0].span, 0..2);
    let errors = tokenize("x é").unwrap_err();
    assert_eq!(errors[0].span, 2..4);
    assert_eq!(errors[0].column, 3);
}

#[test]
fn test_get_line_col() {
    let starts = vec![0usize, 11, 20];
    assert_eq!(get_line_col(0, &starts), (1, 1));
    assert_eq!(get_line_col(5, &starts), (1, 6));
    assert_eq!(get_line_col(11, &starts), (2, 1));
    assert_eq!(get_line_col(19, &starts), (2, 9));
    assert_eq!(get_line_col(25, &starts), (3, 6));
}

#[test]
fn test_keywords_any_case() {
    let a = tokenize("GoTo gOTO goto GOTO").unwrap();
    assert_eq!(a.len(), 4);
    for t in &a {
        assert!(matches!(t, Token::Keyword(Keyword::Goto)));
    }
    // MOD is an operator only in upper case.
    let b = tokenize("MOD mod").unwrap();
    assert!(matches!(b[0], Token::Operator(Math::Modulo)));
    assert!(matches!(&b[1], Token::Identifier(s) if s == "mod"));
}

#[test]
fn test_longest_match() {
    let t = tokenize("a**b<>c<=d>=e LETX").unwrap();
    assert_eq!(t.len(), 10);
    assert!(matches!(t[1], Token::Operator(Math::Power)));
    assert!(matches!(t[3], Token::Relational(Relational::NotEq)));
    assert!(matches!(t[5], Token::Relational(Relational::LtEq)));
    assert!(matches!(t[7], Token::Relational(Relational::GtEq)));
    assert!(matches!(&t[9], Token::Identifier(s) if s == "LETX"));
}

#[test]
fn test_rem_and_comment_text() {
    let t = tokenize("REM REM twice\n'' quoted").unwrap();
    assert!(matches!(&t[0], Token::Keyword(Keyword::Rem(s)) if s == "twice"));
    assert!(matches!(&t[2], Token::Comment(s) if s == " quoted"));
    let t = tokenize("rem lower").unwrap();
    assert!(matches!(&t[0], Token::Keyword(Keyword::Rem(s)) if s == "rem lower"));
}

#[test]
fn test_integer_limits() {
    assert!(integers_fit("PRINT 4294967295"));
    assert!(!integers_fit("PRINT 4294967296"));
    let t = tokenize("4294967295").unwrap();
    assert!(matches!(t[0], Token::Integer(4294967295)));
}

#[test]
fn test_string_escapes() {
    let t = tokenize(r#"PRINT "a\"b\u00e9""#).unwrap();
    assert!(matches!(&t[1], Token::String(s) if s == r#""a\"b\u00e9""#));
    // A bad escape leaves the quote unterminated.
    let errors = tokenize(r#"PRINT "a\q""#).unwrap_err();
    assert!(errors[0].message.contains("not closed"));
}
