use sqlite::lexer::{Lexer, TokenType};

#[test]
fn test_tokenize() {
    let mut l = Lexer::new(
        r#"SELECT;
    INSERT foo bar;
    DELETE foo;"#
            .to_string(),
    );
    let expects = vec![
        (TokenType::Select, "SELECT"),
        (TokenType::SemiColon, ";"),
        (TokenType::Insert, "INSERT"),
        (TokenType::Yet, "foo"),
        (TokenType::Yet, "bar"),
        (TokenType::SemiColon, ";"),
        (TokenType::Delete, "DELETE"),
        (TokenType::Yet, "foo"),
        (TokenType::SemiColon, ";"),
        (TokenType::Eof, ""),
    ];

    for (token_type, literal) in expects {
        let t = l.next_token();
        assert_eq!(t.token_type, token_type);
        assert_eq!(t.literal, literal);
    }
}

#[test]
fn tokens_carry_line_and_column() {
    let mut l = Lexer::new("select;\n  insert a".to_string());
    let t = l.next_token();
    assert_eq!((t.literal.as_str(), t.line, t.column), ("select", 1, 7));
    let t = l.next_token();
    assert_eq!((t.literal.as_str(), t.line, t.column), (";", 1, 8));
    let t = l.next_token();
    assert_eq!((t.literal.as_str(), t.line, t.column), ("insert", 2, 9));
    let t = l.next_token();
    assert_eq!((t.literal.as_str(), t.line, t.column), ("a", 2, 11));
}

#[test]
fn lower_case_keywords_and_words_with_punctuation() {
    let mut l = Lexer::new("insert 42 bar@buzz.com;delete".to_string());
    let expects = vec![
        (TokenType::Insert, "insert"),
        (TokenType::Yet, "42"),
        (TokenType::Yet, "bar@buzz.com"),
        (TokenType::SemiColon, ";"),
        (TokenType::Delete, "delete"),
        (TokenType::Eof, ""),
        (TokenType::Eof, ""),
    ];
    for (token_type, literal) in expects {
        let t = l.next_token();
        assert_eq!(t.token_type, token_type);
        assert_eq!(t.literal, literal);
    }
}

#[test]
fn mixed_case_keyword_is_a_word() {
    let mut l = Lexer::new("Select".to_string());
    let t = l.next_token();
    assert_eq!(t.token_type, TokenType::Yet);
    assert_eq!(t.literal, "Select");
}

#[test]
fn empty_and_blank_input_give_eof() {
    let mut l = Lexer::new(String::new());
    assert_eq!(l.next_token().token_type, TokenType::Eof);
    let mut l = Lexer::new(" \t\u{3000}\r\n".to_string());
    let t = l.next_token();
    assert_eq!(t.token_type, TokenType::Eof);
    assert_eq!(t.literal, "");
}

#[test]
fn multibyte_characters_stay_in_words() {
    let mut l = Lexer::new("insert 名前 é;".to_string());
    l.next_token();
    assert_eq!(l.next_token().literal, "名前");
    assert_eq!(l.next_token().literal, "é");
    assert_eq!(l.next_token().token_type, TokenType::SemiColon);
}
