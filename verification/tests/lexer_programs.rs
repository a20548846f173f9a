use qbasic_rs::lexer::tokenize;
use qbasic_rs::token::{Keyword, Math, Relational, Token};

#[test]
fn test_countdown_program() {
    let input = "10 REM Program to simulate a countdown\n\
                 20 LET T = 10\n\
                 30 IF T < 0 THEN 70\n\
                 40 PRINT T\n\
                 50 LET T = T - 1\n\
                 60 GOTO 30\n\
                 65 PRINT \"hi\"\n\
                 70 END";
    let result = tokenize(input).unwrap();

    // Line 1: 10 REM Program to simulate a countdown
    assert!(matches!(result[0], Token::Integer(10)));
    assert!(matches!(&result[1], Token::Keyword(Keyword::Rem(s)) if s == "Program to simulate a countdown"));
    assert!(matches!(result[2], Token::Newline));

    // Line 2: 20 LET T = 10
    assert!(matches!(result[3], Token::Integer(20)));
    assert!(matches!(result[4], Token::Keyword(Keyword::Let)));
    assert!(matches!(result[5], Token::Identifier(_)));
    assert!(matches!(result[6], Token::Equal));
    assert!(matches!(result[7], Token::Integer(10)));
    assert!(matches!(result[8], Token::Newline));

    // Line 3: 30 IF T < 0 THEN 70
    assert!(matches!(result[9], Token::Integer(30)));
    assert!(matches!(result[10], Token::Keyword(Keyword::If)));
    assert!(matches!(result[11], Token::Identifier(_)));
    assert!(matches!(result[12], Token::Relational(Relational::Lt)));
    assert!(matches!(result[13], Token::Integer(0)));
    assert!(matches!(result[14], Token::Keyword(Keyword::Then)));
    assert!(matches!(result[15], Token::Integer(70)));
    assert!(matches!(result[16], Token::Newline));

    // Line 4: 40 PRINT T
    assert!(matches!(result[17], Token::Integer(40)));
    assert!(matches!(result[18], Token::Keyword(Keyword::Print)));
    assert!(matches!(result[19], Token::Identifier(_)));
    assert!(matches!(result[20], Token::Newline));

    // Line 5: 50 LET T = T - 1
    assert!(matches!(result[21], Token::Integer(50)));
    assert!(matches!(result[22], Token::Keyword(Keyword::Let)));
    assert!(matches!(result[23], Token::Identifier(_)));
    assert!(matches!(result[24], Token::Equal));
    assert!(matches!(result[25], Token::Identifier(_)));
    assert!(matches!(result[26], Token::Operator(Math::Minus)));
    assert!(matches!(result[27], Token::Integer(1)));
    assert!(matches!(result[28], Token::Newline));

    // Line 6: 60 GOTO 30
    assert!(matches!(result[29], Token::Integer(60)));
    assert!(matches!(result[30], Token::Keyword(Keyword::Goto)));
    assert!(matches!(result[31], Token::Integer(30)));
    assert!(matches!(result[32], Token::Newline));

    // Line 7: 65 PRINT "hi"
    assert!(matches!(result[33], Token::Integer(65)));
    assert!(matches!(result[34], Token::Keyword(Keyword::Print)));
    assert!(matches!(result[35], Token::String(_)));
    assert!(matches!(result[36], Token::Newline));

    // Line 8: 70 END
    assert!(matches!(result[37], Token::Integer(70)));
    assert!(matches!(result[38], Token::Keyword(Keyword::End)));
    assert_eq!(result.len(), 39);
}

#[test]
fn test_simple_program_exact_tokens() {
    let input = "10 LET X = 5\n20 PRINT X\n30 END\n";
    let result = tokenize(input).unwrap();

    // Exact token sequence verification
    assert_eq!(result.len(), 13);

    // Line 1: 10 LET X = 5
    assert!(matches!(result[0], Token::Integer(10)));
    assert!(matches!(result[1], Token::Keyword(Keyword::Let)));
    if let Token::Identifier(id) = &result[2] {
        assert_eq!(id, "X");
    } else {
        panic!("Expected Identifier token");
    }
    assert!(matches!(result[3], Token::Equal));
    assert!(matches!(result[4], Token::Integer(5)));
    assert!(matches!(result[5], Token::Newline));

    // Line 2: 20 PRINT X
    assert!(matches!(result[6], Token::Integer(20)));
    assert!(matches!(result[7], Token::Keyword(Keyword::Print)));
    if let Token::Identifier(id) = &result[8] {
        assert_eq!(id, "X");
    } else {
        panic!("Expected Identifier token");
    }
    assert!(matches!(result[9], Token::Newline));

    // Line 3: 30 END
    assert!(matches!(result[10], Token::Integer(30)));
    assert!(matches!(result[11], Token::Keyword(Keyword::End)));
    assert!(matches!(result[12], Token::Newline));
}

#[test]
fn test_error_cases_program() {
    let input = "10 PRINT \"ok\"\n20 LET A = @\n30 PRINT \"unterminated";
    let result = tokenize(input);

    // This should fail due to invalid characters
    assert!(result.is_err());

    let errors = result.unwrap_err();
    assert!(!errors.is_empty());

    let has_invalid_char = errors.iter().any(|err| err.message.contains("@"));
    let has_unterminated_string = errors.iter().any(|err| err.message.contains("not closed"));

    assert!(has_invalid_char, "Should have error for invalid character @");
    assert!(has_unterminated_string, "Should have error for unterminated string");
    assert_eq!(errors.len(), 2);
    assert_eq!((errors[0].line, errors[0].column), (2, 12));
    assert_eq!((errors[1].line, errors[1].column), (3, 10));
}
