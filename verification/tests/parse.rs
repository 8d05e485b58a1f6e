use ski_syntax::parser::Parser;
use ski_syntax::types::AbstractSyntaxTree;
use ski_syntax::types::ConcreteSyntaxToken;
use ski_syntax::types::ConcreteSyntaxTree;
use ski_syntax::types::LexError;
use ski_syntax::types::ParseError;
use ski_syntax::types::Symbol;
use ski_syntax::types::SyntaxError;

fn atom(text: &str) -> AbstractSyntaxTree {
    AbstractSyntaxTree::Atom(String::from(text))
}

fn list(children: Vec<AbstractSyntaxTree>) -> AbstractSyntaxTree {
    AbstractSyntaxTree::List(children)
}

fn leaf_count(tree: &AbstractSyntaxTree) -> usize {
    match tree {
        AbstractSyntaxTree::Atom(_) => 1,
        AbstractSyntaxTree::List(children) => children.iter().map(leaf_count).sum(),
    }
}

fn depth(tree: &AbstractSyntaxTree) -> usize {
    match tree {
        AbstractSyntaxTree::Atom(_) => 0,
        AbstractSyntaxTree::List(children) => 1 + children.iter().map(depth).max().unwrap_or(0),
    }
}

fn tokens(expr: Vec<ConcreteSyntaxToken>) -> ConcreteSyntaxTree {
    ConcreteSyntaxTree { expr }
}

fn left() -> ConcreteSyntaxToken {
    ConcreteSyntaxToken::Symbol(Symbol::LeftParenthesis)
}

fn right() -> ConcreteSyntaxToken {
    ConcreteSyntaxToken::Symbol(Symbol::RightParenthesis)
}

fn space() -> ConcreteSyntaxToken {
    ConcreteSyntaxToken::Symbol(Symbol::Space)
}

fn name(text: &str) -> ConcreteSyntaxToken {
    ConcreteSyntaxToken::Name(String::from(text))
}

#[test]
fn constant_combinator_is_a_list_of_three() {
    assert_eq!(
        Parser::parse("(k value value_second)"),
        Ok(list(vec![atom("k"), atom("value"), atom("value_second")]))
    );
}

#[test]
fn nested_lists_keep_their_order() {
    assert_eq!(
        Parser::parse("(s value value_second (s value value_second value_third))"),
        Ok(list(vec![
            atom("s"),
            atom("value"),
            atom("value_second"),
            list(vec![atom("s"), atom("value"), atom("value_second"), atom("value_third")]),
        ]))
    );
    assert_eq!(
        Parser::parse("((a) ((b c)) d)"),
        Ok(list(vec![
            list(vec![atom("a")]),
            list(vec![list(vec![atom("b"), atom("c")])]),
            atom("d"),
        ]))
    );
}

#[test]
fn lists_may_touch_without_spaces() {
    assert_eq!(
        Parser::parse("((a)(b))"),
        Ok(list(vec![list(vec![atom("a")]), list(vec![atom("b")])]))
    );
}

#[test]
fn spacing_leaves_the_tree_unchanged() {
    let plain = Parser::parse("(i value)");
    let spaced = Parser::parse("( i  value )");
    assert_eq!(plain, Ok(list(vec![atom("i"), atom("value")])));
    assert_eq!(plain, spaced);
    assert_ne!(Parser::tokenize("(i value)"), Parser::tokenize("( i  value )"));
    assert_eq!(Parser::parse("  (  i   value  )   "), plain);
}

#[test]
fn atoms_are_kept_verbatim() {
    assert_eq!(Parser::parse("(23 0x1f i)"), Ok(list(vec![atom("23"), atom("0x1f"), atom("i")])));
}

#[test]
fn an_atom_alone_is_an_expression() {
    assert_eq!(Parser::parse("value "), Ok(atom("value")));
    assert_eq!(Parser::parse("  value "), Ok(atom("value")));
}

#[test]
fn an_atom_that_ends_the_input_is_not_read() {
    assert_eq!(
        Parser::parse("value"),
        Err(SyntaxError::Parse(ParseError::UnbalancedParentheses))
    );
    assert_eq!(Parser::parse("(a) b"), Ok(list(vec![atom("a")])));
}

#[test]
fn unclosed_list_is_unbalanced() {
    assert_eq!(
        Parser::parse("(i value"),
        Err(SyntaxError::Parse(ParseError::UnbalancedParentheses))
    );
    assert_eq!(
        Parser::parse("(i (k value) "),
        Err(SyntaxError::Parse(ParseError::UnbalancedParentheses))
    );
    assert_eq!(
        Parser::parse("(a) (b "),
        Err(SyntaxError::Parse(ParseError::UnbalancedParentheses))
    );
}

#[test]
fn input_without_an_expression_is_unbalanced() {
    assert_eq!(Parser::parse(""), Err(SyntaxError::Parse(ParseError::UnbalancedParentheses)));
    assert_eq!(Parser::parse("   "), Err(SyntaxError::Parse(ParseError::UnbalancedParentheses)));
}

#[test]
fn close_paren_with_nothing_to_close_is_unexpected() {
    assert_eq!(
        Parser::parse("i value)"),
        Err(SyntaxError::Parse(ParseError::UnexpectedCloseParen))
    );
    assert_eq!(Parser::parse(")"), Err(SyntaxError::Parse(ParseError::UnexpectedCloseParen)));
    assert_eq!(
        Parser::parse("(a))"),
        Err(SyntaxError::Parse(ParseError::UnexpectedCloseParen))
    );
}

#[test]
fn empty_list_is_rejected() {
    assert_eq!(Parser::parse("()"), Err(SyntaxError::Parse(ParseError::UnexpectedCloseParen)));
    assert_eq!(
        Parser::parse("(  )"),
        Err(SyntaxError::Parse(ParseError::UnexpectedCloseParen))
    );
    assert_eq!(
        Parser::parse("(a ())"),
        Err(SyntaxError::Parse(ParseError::UnexpectedCloseParen))
    );
}

#[test]
fn second_expression_is_trailing() {
    assert_eq!(
        Parser::parse("(i x) (k y)"),
        Err(SyntaxError::Parse(ParseError::TrailingTokens))
    );
    assert_eq!(Parser::parse("a b "), Err(SyntaxError::Parse(ParseError::TrailingTokens)));
    assert_eq!(
        Parser::parse("(a)(b)(c)"),
        Err(SyntaxError::Parse(ParseError::TrailingTokens))
    );
}

#[test]
fn close_paren_out_of_place_comes_before_other_errors() {
    assert_eq!(
        Parser::parse("(a) (b))"),
        Err(SyntaxError::Parse(ParseError::UnexpectedCloseParen))
    );
    assert_eq!(
        Parser::parse("(a () (b"),
        Err(SyntaxError::Parse(ParseError::UnexpectedCloseParen))
    );
}

#[test]
fn lexical_error_comes_first() {
    assert_eq!(
        Parser::parse("(i(i value))"),
        Err(SyntaxError::Lex(LexError::UnexpectedOpenParenInAtom))
    );
    assert_eq!(
        Parser::parse(") a("),
        Err(SyntaxError::Lex(LexError::UnexpectedOpenParenInAtom))
    );
}

#[test]
fn leaves_and_depth_match_the_source() {
    let source = "(s (k (i a) b) (i (i (i c))) d)";
    let tree = Parser::parse(source).unwrap();
    assert_eq!(leaf_count(&tree), 10);
    assert_eq!(depth(&tree), 4);
    let flat = Parser::parse("(a b c)").unwrap();
    assert_eq!(leaf_count(&flat), 3);
    assert_eq!(depth(&flat), 1);
    let bare = Parser::parse("a ").unwrap();
    assert_eq!(leaf_count(&bare), 1);
    assert_eq!(depth(&bare), 0);
}

#[test]
fn deep_nesting_is_read() {
    let levels = 200;
    let mut source = String::new();
    for _ in 0..levels {
        source.push('(');
    }
    source.push_str("x");
    for _ in 0..levels {
        source.push(')');
    }
    let tree = Parser::parse(&source).unwrap();
    assert_eq!(depth(&tree), levels);
    assert_eq!(leaf_count(&tree), 1);
}

#[test]
fn build_ast_reads_tokens_made_by_hand() {
    let cst = tokens(vec![space(), left(), name("k"), space(), space(), name("x"), right()]);
    assert_eq!(Parser::build_ast(&cst), Ok(list(vec![atom("k"), atom("x")])));
    let adjacent = tokens(vec![left(), name("a"), name("b"), right()]);
    assert_eq!(Parser::build_ast(&adjacent), Ok(list(vec![atom("a"), atom("b")])));
    let odd = tokens(vec![name("a b(")]);
    assert_eq!(Parser::build_ast(&odd), Ok(atom("a b(")));
}

#[test]
fn build_ast_reports_each_error() {
    assert_eq!(Parser::build_ast(&tokens(vec![])), Err(ParseError::UnbalancedParentheses));
    assert_eq!(
        Parser::build_ast(&tokens(vec![left(), name("a")])),
        Err(ParseError::UnbalancedParentheses)
    );
    assert_eq!(
        Parser::build_ast(&tokens(vec![left(), space(), right()])),
        Err(ParseError::UnexpectedCloseParen)
    );
    assert_eq!(
        Parser::build_ast(&tokens(vec![name("a"), right()])),
        Err(ParseError::UnexpectedCloseParen)
    );
    assert_eq!(
        Parser::build_ast(&tokens(vec![name("a"), name("b")])),
        Err(ParseError::TrailingTokens)
    );
}

#[test]
fn parse_is_build_ast_after_tokenize() {
    for source in ["(i value)", "(i value", "i value)", "(a) (b)", "", "((a b) c) "] {
        let direct = Parser::parse(source);
        let staged = match Parser::tokenize(source) {
            Ok(cst) => Parser::build_ast(&cst).map_err(SyntaxError::Parse),
            Err(e) => Err(SyntaxError::Lex(e)),
        };
        assert_eq!(direct, staged);
    }
}
