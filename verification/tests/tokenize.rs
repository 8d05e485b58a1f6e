use ski_syntax::parser::Parser;
use ski_syntax::types::ConcreteSyntaxToken;
use ski_syntax::types::ConcreteSyntaxTree;
use ski_syntax::types::Symbol;

#[test]
fn tokenize_with_more_spaces() {
    let code: &str = "( i ( i value ) )";
    let token: ConcreteSyntaxTree = Parser::tokenize(code).unwrap();
    assert_eq!(
        token,
        ConcreteSyntaxTree {
            expr: vec![
                ConcreteSyntaxToken::Symbol(Symbol::LeftParenthesis),
                ConcreteSyntaxToken::Symbol(Symbol::Space),
                ConcreteSyntaxToken::Name(String::from('i')),
                ConcreteSyntaxToken::Symbol(Symbol::Space),
                ConcreteSyntaxToken::Symbol(Symbol::LeftParenthesis),
                ConcreteSyntaxToken::Symbol(Symbol::Space),
                ConcreteSyntaxToken::Name(String::from('i')),
                ConcreteSyntaxToken::Symbol(Symbol::Space),
                ConcreteSyntaxToken::Name(String::from("value")),
                ConcreteSyntaxToken::Symbol(Symbol::Space),
                ConcreteSyntaxToken::Symbol(Symbol::RightParenthesis),
                ConcreteSyntaxToken::Symbol(Symbol::Space),
                ConcreteSyntaxToken::Symbol(Symbol::RightParenthesis),
            ],
        }
    );
}

#[test]
fn tokenize_number() {
    let code: &str = "( i ( i 2 ) )";
    let token: ConcreteSyntaxTree = Parser::tokenize(code).unwrap();
    assert_eq!(
        token,
        ConcreteSyntaxTree {
            expr: vec![
                ConcreteSyntaxToken::Symbol(Symbol::LeftParenthesis),
                ConcreteSyntaxToken::Symbol(Symbol::Space),
                ConcreteSyntaxToken::Name(String::from('i')),
                ConcreteSyntaxToken::Symbol(Symbol::Space),
                ConcreteSyntaxToken::Symbol(Symbol::LeftParenthesis),
                ConcreteSyntaxToken::Symbol(Symbol::Space),
                ConcreteSyntaxToken::Name(String::from('i')),
                ConcreteSyntaxToken::Symbol(Symbol::Space),
                ConcreteSyntaxToken::Name(String::from("2")),
                ConcreteSyntaxToken::Symbol(Symbol::Space),
                ConcreteSyntaxToken::Symbol(Symbol::RightParenthesis),
                ConcreteSyntaxToken::Symbol(Symbol::Space),
                ConcreteSyntaxToken::Symbol(Symbol::RightParenthesis),
            ],
        }
    );

    let code: &str = "( function2 23 34 )";
    let token: ConcreteSyntaxTree = Parser::tokenize(code).unwrap();
    assert_eq!(
        token,
        ConcreteSyntaxTree {
            expr: vec![
                ConcreteSyntaxToken::Symbol(Symbol::LeftParenthesis),
                ConcreteSyntaxToken::Symbol(Symbol::Space),
                ConcreteSyntaxToken::Name(String::from("function2")),
                ConcreteSyntaxToken::Symbol(Symbol::Space),
                ConcreteSyntaxToken::Name(String::from("23")),
                ConcreteSyntaxToken::Symbol(Symbol::Space),
                ConcreteSyntaxToken::Name(String::from("34")),
                ConcreteSyntaxToken::Symbol(Symbol::Space),
                ConcreteSyntaxToken::Symbol(Symbol::RightParenthesis),
            ],
        }
    );
}

#[test]
fn tokenize_recurse() {
    let code: &str = "(i (i value))";
    let token: ConcreteSyntaxTree = Parser::tokenize(code).unwrap();
    assert_eq!(
        token,
        ConcreteSyntaxTree {
            expr: vec![
                ConcreteSyntaxToken::Symbol(Symbol::LeftParenthesis),
                ConcreteSyntaxToken::Name(String::from('i')),
                ConcreteSyntaxToken::Symbol(Symbol::Space),
                ConcreteSyntaxToken::Symbol(Symbol::LeftParenthesis),
                ConcreteSyntaxToken::Name(String::from('i')),
                ConcreteSyntaxToken::Symbol(Symbol::Space),
                ConcreteSyntaxToken::Name(String::from("value")),
                ConcreteSyntaxToken::Symbol(Symbol::RightParenthesis),
                ConcreteSyntaxToken::Symbol(Symbol::RightParenthesis),
            ],
        }
    );

    let code: &str = "(k value (k value value_second))";
    let token: ConcreteSyntaxTree = Parser::tokenize(code).unwrap();
    assert_eq!(
        token,
        ConcreteSyntaxTree {
            expr: vec![
                ConcreteSyntaxToken::Symbol(Symbol::LeftParenthesis),
                ConcreteSyntaxToken::Name(String::from('k')),
                ConcreteSyntaxToken::Symbol(Symbol::Space),
                ConcreteSyntaxToken::Name(String::from("value")),
                ConcreteSyntaxToken::Symbol(Symbol::Space),
                ConcreteSyntaxToken::Symbol(Symbol::LeftParenthesis),
                ConcreteSyntaxToken::Name(String::from('k')),
                ConcreteSyntaxToken::Symbol(Symbol::Space),
                ConcreteSyntaxToken::Name(String::from("value")),
                ConcreteSyntaxToken::Symbol(Symbol::Space),
                ConcreteSyntaxToken::Name(String::from("value_second")),
                ConcreteSyntaxToken::Symbol(Symbol::RightParenthesis),
                ConcreteSyntaxToken::Symbol(Symbol::RightParenthesis),
            ],
        }
    );

    let code: &str = "(s value value_second (s value value_second value_third))";
    let token: ConcreteSyntaxTree = Parser::tokenize(code).unwrap();
    assert_eq!(
        token,
        ConcreteSyntaxTree {
            expr: vec![
                ConcreteSyntaxToken::Symbol(Symbol::LeftParenthesis),
                ConcreteSyntaxToken::Name(String::from('s')),
                ConcreteSyntaxToken::Symbol(Symbol::Space),
                ConcreteSyntaxToken::Name(String::from("value")),
                ConcreteSyntaxToken::Symbol(Symbol::Space),
                ConcreteSyntaxToken::Name(String::from("value_second")),
                ConcreteSyntaxToken::Symbol(Symbol::Space),
                ConcreteSyntaxToken::Symbol(Symbol::LeftParenthesis),
                ConcreteSyntaxToken::Name(String::from('s')),
                ConcreteSyntaxToken::Symbol(Symbol::Space),
                ConcreteSyntaxToken::Name(String::from("value")),
                ConcreteSyntaxToken::Symbol(Symbol::Space),
                ConcreteSyntaxToken::Name(String::from("value_second")),
                ConcreteSyntaxToken::Symbol(Symbol::Space),
                ConcreteSyntaxToken::Name(String::from("value_third")),
                ConcreteSyntaxToken::Symbol(Symbol::RightParenthesis),
                ConcreteSyntaxToken::Symbol(Symbol::RightParenthesis),
            ],
        }
    );
}

#[test]
fn tokenize() {
    let code: &str = "(i value)";
    let token: ConcreteSyntaxTree = Parser::tokenize(code).unwrap();
    assert_eq!(
        token,
        ConcreteSyntaxTree {
            expr: vec![
                ConcreteSyntaxToken::Symbol(Symbol::LeftParenthesis),
                ConcreteSyntaxToken::Name(String::from('i')),
                ConcreteSyntaxToken::Symbol(Symbol::Space),
                ConcreteSyntaxToken::Name(String::from("value")),
                ConcreteSyntaxToken::Symbol(Symbol::RightParenthesis),
            ],
        }
    );

    let code: &str = "(k value value_second)";
    let token: ConcreteSyntaxTree = Parser::tokenize(code).unwrap();
    assert_eq!(
        token,
        ConcreteSyntaxTree {
            expr: vec![
                ConcreteSyntaxToken::Symbol(Symbol::LeftParenthesis),
                ConcreteSyntaxToken::Name(String::from('k')),
                ConcreteSyntaxToken::Symbol(Symbol::Space),
                ConcreteSyntaxToken::Name(String::from("value")),
                ConcreteSyntaxToken::Symbol(Symbol::Space),
                ConcreteSyntaxToken::Name(String::from("value_second")),
                ConcreteSyntaxToken::Symbol(Symbol::RightParenthesis),
            ],
        }
    );

    let code: &str = "(s value value_second value_third)";
    let token: ConcreteSyntaxTree = Parser::tokenize(code).unwrap();
    assert_eq!(
        token,
        ConcreteSyntaxTree {
            expr: vec![
                ConcreteSyntaxToken::Symbol(Symbol::LeftParenthesis),
                ConcreteSyntaxToken::Name(String::from('s')),
                ConcreteSyntaxToken::Symbol(Symbol::Space),
                ConcreteSyntaxToken::Name(String::from("value")),
                ConcreteSyntaxToken::Symbol(Symbol::Space),
                ConcreteSyntaxToken::Name(String::from("value_second")),
                ConcreteSyntaxToken::Symbol(Symbol::Space),
                ConcreteSyntaxToken::Name(String::from("value_third")),
                ConcreteSyntaxToken::Symbol(Symbol::RightParenthesis),
            ],
        }
    );
}
