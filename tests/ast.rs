use sqlite::ast::{Ast, Parser};
use sqlite::lexer::Lexer;

#[test]
fn test_ast() {
    assert_eq!(
        Parser::new(Lexer::new(
            r#"SELECT;
INSERT foo bar;
DELETE;"#
                .to_string(),
        ))
        .parse(),
        Some(vec![
            Ast::SelectExpression,
            Ast::InsertExpression(vec!["foo".to_owned(), "bar".to_owned()]),
            Ast::DeleteExpression,
        ])
    );
}

#[test]
fn test_parse_insert() {
    assert_eq!(
        Parser::new(Lexer::new(r#"INSERT 1 foo bar@buzz.com;"#.to_string(),)).parse(),
        Some(vec![Ast::InsertExpression(vec![
            "1".to_owned(),
            "foo".to_owned(),
            "bar@buzz.com".to_owned(),
        ])])
    );
}

#[test]
fn parse_empty_input() {
    assert_eq!(Parser::new(Lexer::new(String::new())).parse(), Some(vec![]));
}

#[test]
fn select_without_semicolon_at_the_end() {
    assert_eq!(
        Parser::new(Lexer::new("select".to_string())).parse(),
        Some(vec![Ast::SelectExpression])
    );
}

#[test]
fn insert_keeps_keywords_as_arguments() {
    assert_eq!(
        Parser::new(Lexer::new("insert select 2;".to_string())).parse(),
        Some(vec![Ast::InsertExpression(vec![
            "select".to_owned(),
            "2".to_owned()
        ])])
    );
}

#[test]
fn statement_must_start_with_a_keyword() {
    assert_eq!(Parser::new(Lexer::new("foo;".to_string())).parse(), None);
    assert_eq!(Parser::new(Lexer::new("select; ;".to_string())).parse(), None);
}

#[test]
fn insert_without_semicolon_does_not_parse() {
    assert_eq!(Parser::new(Lexer::new("insert 1 foo bar".to_string())).parse(), None);
}
