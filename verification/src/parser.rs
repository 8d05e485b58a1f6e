//! The lexer and the parser.

use crate::grammar::{
    has_unexpected_close, lemma_flatten_all_push, lemma_flatten_nesting, lemma_nesting_concat,
    lemma_significant_concat, lemma_unexpected_close_extends, lemma_unexpected_close_push,
    nesting, paren_delta, parse_error, significant, spells,
};
use crate::lexing::{
    all_atom_chars, ends_outside_atom, is_delimiter, lemma_tokens_of_atom,
    lemma_tokens_of_atom_closed, lemma_tokens_of_concat, lemma_tokens_well_lexed, lex,
    symbol_token, tokens_of, well_lexed,
};
use crate::source::syntax_error;
use crate::types::{
    flatten_all, token_views, tree_views, AbstractSyntaxTree, ConcreteSyntaxToken,
    ConcreteSyntaxTree, LexError, ParseError, Symbol, SyntaxError, Token, Tree,
};
use vstd::prelude::*;

verus! {

/// Taken on trust from the standard library: `String::push` appends the
/// character `ch` at the end of the string and leaves what stood before it
/// as it was.
pub assume_specification[ String::push ](s: &mut String, ch: char)
    ensures
        final(s)@ == old(s)@.push(ch),
;

/// The symbol that `c` stands for, if `c` is a delimiter.
fn delimiter_symbol(c: char) -> (r: Option<Symbol>)
    ensures
        r is Some <==> is_delimiter(c),
        r matches Some(symbol) ==> symbol@ == symbol_token(c),
{
    if c == '(' {
        Some(Symbol::LeftParenthesis)
    } else if c == ')' {
        Some(Symbol::RightParenthesis)
    } else if c == ' ' {
        Some(Symbol::Space)
    } else {
        None
    }
}

/// The significant tokens of `ts` from index `from` up to, not including,
/// index `to`.
spec fn between(ts: Seq<Token>, from: int, to: int) -> Seq<Token> {
    significant(ts.subrange(from, to))
}

/// One token further, `between` has one token more, unless that token is a
/// space.
proof fn lemma_between_step(ts: Seq<Token>, from: int, to: int)
    requires
        0 <= from <= to < ts.len(),
    ensures
        between(ts, from, to + 1) == if ts[to] is Space {
            between(ts, from, to)
        } else {
            between(ts, from, to).push(ts[to])
        },
        !(ts[to] is Space) ==> nesting(between(ts, from, to + 1)) == nesting(
            between(ts, from, to),
        ) + paren_delta(ts[to]),
{
    assert(ts.subrange(from, to + 1).drop_last() =~= ts.subrange(from, to));
    if !(ts[to] is Space) {
        assert(between(ts, from, to).push(ts[to]).drop_last() =~= between(ts, from, to));
    }
}

/// `between` over a range is `between` over its two parts.
proof fn lemma_between_split(ts: Seq<Token>, from: int, mid: int, to: int)
    requires
        0 <= from <= mid <= to <= ts.len(),
    ensures
        between(ts, from, to) == between(ts, from, mid) + between(ts, mid, to),
        from == 0 && to == ts.len() ==> between(ts, from, to) == significant(ts),
{
    assert(ts.subrange(from, to) =~= ts.subrange(from, mid) + ts.subrange(mid, to));
    lemma_significant_concat(ts.subrange(from, mid), ts.subrange(mid, to));
    if from == 0 && to == ts.len() {
        assert(ts.subrange(from, to) =~= ts);
    }
}

/// Reads the items of a list up to the `)` that closes it. `pos` is the
/// index just behind the `(` of the list. Returns the list and the index
/// just behind its `)`.
fn parse_list(tokens: &Vec<ConcreteSyntaxToken>, pos: usize) -> (r: Result<
    (AbstractSyntaxTree, usize),
    ParseError,
>)
    requires
        0 < pos <= tokens.len(),
        token_views(tokens@)[pos - 1] == Token::LeftParen,
        !has_unexpected_close(between(token_views(tokens@), 0, pos as int)),
        nesting(between(token_views(tokens@), 0, pos as int)) >= 1,
    ensures
        match r {
            Ok((tree, next)) => {
                let all = token_views(tokens@);
                &&& pos < next <= tokens.len()
                &&& tree@ is List
                &&& tree@.well_formed()
                &&& tree@.flatten() == between(all, pos - 1, next as int)
                &&& !has_unexpected_close(between(all, 0, next as int))
                &&& nesting(between(all, 0, next as int)) == nesting(between(all, 0, pos as int))
                    - 1
                &&& between(all, 0, next as int).len() > 0
                &&& between(all, 0, next as int).last() == Token::RightParen
            },
            Err(e) => e != ParseError::TrailingTokens && parse_error(
                significant(token_views(tokens@)),
            ) == Some(e),
        },
    decreases tokens.len() - pos,
{
    let ghost all = token_views(tokens@);
    let ghost depth = nesting(between(all, 0, pos as int));
    let mut children: Vec<AbstractSyntaxTree> = Vec::new();
    let mut cur = pos;
    proof {
        lemma_between_step(all, 0, pos - 1);
        lemma_between_step(all, pos - 1, pos - 1);
    }
    while cur < tokens.len()
        invariant
            all == token_views(tokens@),
            0 < pos <= cur <= tokens.len(),
            between(all, pos - 1, cur as int) == seq![Token::LeftParen] + flatten_all(
                tree_views(children@),
            ),
            forall|i: int| 0 <= i < children.len() ==> (#[trigger] children@[i])@.well_formed(),
            !has_unexpected_close(between(all, 0, cur as int)),
            depth == nesting(between(all, 0, pos as int)) >= 1,
            nesting(between(all, 0, cur as int)) == depth,
            between(all, 0, cur as int).len() > 0,
            children.len() == 0 <==> between(all, 0, cur as int).last() == Token::LeftParen,
        decreases tokens.len() - cur,
    {
        let ghost before = between(all, 0, cur as int);
        let ghost views = tree_views(children@);
        proof {
            lemma_between_step(all, 0, cur as int);
            lemma_between_step(all, pos - 1, cur as int);
            lemma_unexpected_close_push(before, all[cur as int]);
        }
        match &tokens[cur] {
            ConcreteSyntaxToken::Symbol(Symbol::Space) => {
                cur = cur + 1;
            },
            ConcreteSyntaxToken::Symbol(Symbol::LeftParenthesis) => {
                match parse_list(tokens, cur + 1) {
                    Ok((child, next)) => {
                        proof {
                            lemma_between_split(all, pos - 1, cur as int, next as int);
                            lemma_flatten_all_push(views, child@);
                            assert(tree_views(children@.push(child)) =~= views.push(child@));
                        }
                        children.push(child);
                        cur = next;
                    },
                    Err(e) => {
                        return Err(e);
                    },
                }
            },
            ConcreteSyntaxToken::Symbol(Symbol::RightParenthesis) => {
                proof {
                    lemma_between_split(all, 0, cur + 1, tokens.len() as int);
                }
                if children.len() == 0 {
                    proof {
                        lemma_unexpected_close_extends(
                            between(all, 0, cur + 1),
                            between(all, cur + 1, tokens.len() as int),
                        );
                    }
                    return Err(ParseError::UnexpectedCloseParen);
                }
                let tree = AbstractSyntaxTree::List(children);
                proof {
                    assert(tree@->List_0 =~= views);
                    assert forall|i: int| 0 <= i < views.len() implies (
                    #[trigger] views[i]).well_formed() by {}
                }
                return Ok((tree, cur + 1));
            },
            ConcreteSyntaxToken::Name(name) => {
                let child = AbstractSyntaxTree::Atom(name.clone());
                proof {
                    lemma_flatten_all_push(views, child@);
                    assert(tree_views(children@.push(child)) =~= views.push(child@));
                }
                children.push(child);
                cur = cur + 1;
            },
        }
    }
    proof {
        lemma_between_split(all, 0, cur as int, cur as int);
    }
    Err(ParseError::UnbalancedParentheses)
}

/// The front end: source text to tokens, tokens to a syntax tree.
pub struct Parser;

impl Parser {
    /// Splits `source` into its tokens, in source order: one symbol for each
    /// delimiter, one name for each atom.
    ///
    /// Fails when an atom is directly followed by `(`, and then hands out no
    /// tokens at all. An atom at the very end of the text, with no delimiter
    /// behind it, yields no token.
    pub fn tokenize(source: &str) -> (r: Result<ConcreteSyntaxTree, LexError>)
        ensures
            match r {
                Ok(tokens) => lex(source@) == Ok::<Seq<Token>, LexError>(tokens@) && well_lexed(
                    tokens@,
                ),
                Err(e) => lex(source@) == Err::<Seq<Token>, LexError>(e),
            },
    {
        let mut expr: Vec<ConcreteSyntaxToken> = Vec::new();
        let mut accumulating = false;
        let mut atom = String::new();
        let ghost mut start: int = 0;
        for c in it: source.chars()
            invariant
                it.seq() == source@,
                0 <= start <= it.index(),
                accumulating <==> start < it.index(),
                atom@ == source@.subrange(start, it.index() as int),
                all_atom_chars(atom@),
                ends_outside_atom(source@.take(start)),
                token_views(expr@) == tokens_of(source@.take(start)),
                forall|j: int|
                    0 < j < it.index() ==> !(#[trigger] source@[j] == '(' && !is_delimiter(
                        source@[j - 1],
                    )),
        {
            let ghost at = it.index() as int;
            let ghost done = source@.take(start);
            if accumulating {
                assert(source@[at - 1] == atom@[at - 1 - start]);
            }
            match delimiter_symbol(c) {
                Some(symbol) => {
                    if accumulating {
                        if c == '(' {
                            return Err(LexError::UnexpectedOpenParenInAtom);
                        }
                        expr.push(ConcreteSyntaxToken::Name(atom));
                        atom = String::new();
                        accumulating = false;
                    }
                    expr.push(ConcreteSyntaxToken::Symbol(symbol));
                    proof {
                        let run = source@.subrange(start, at);
                        assert(source@.take(at + 1) =~= done + run.push(c));
                        lemma_tokens_of_concat(done, run.push(c));
                        lemma_tokens_of_atom_closed(run, c);
                        start = at + 1;
                    }
                },
                None => {
                    accumulating = true;
                    atom.push(c);
                },
            }
        }
        proof {
            let done = source@.take(start);
            assert(source@ =~= done + atom@);
            lemma_tokens_of_concat(done, atom@);
            lemma_tokens_of_atom(atom@);
            lemma_tokens_well_lexed(source@);
        }
        Ok(ConcreteSyntaxTree { expr })
    }

    /// Builds the one expression that `tokens` spell out. Spaces only
    /// separate: they leave no trace in the tree.
    ///
    /// The tokens are read as a run of expressions. A `)` that closes
    /// nothing, or a list with nothing in it, fails where it stands. At the
    /// end of the input an open list, or no expression at all, is
    /// unbalanced, and more than one expression is trailing tokens.
    ///
    /// Lists are read by recursive descent: the recursion goes as deep as
    /// the lists are nested.
    pub fn build_ast(tokens: &ConcreteSyntaxTree) -> (r: Result<AbstractSyntaxTree, ParseError>)
        ensures
            match r {
                Ok(tree) => parse_error(significant(tokens@)) is None && spells(tokens@, tree@),
                Err(e) => parse_error(significant(tokens@)) == Some(e),
            },
    {
        let ghost all = tokens@;
        let mut first: Option<AbstractSyntaxTree> = None;
        let mut surplus = false;
        let mut pos: usize = 0;
        let ghost mut first_end: int = 0;
        while pos < tokens.expr.len()
            invariant
                all == token_views(tokens.expr@),
                pos <= tokens.expr.len(),
                !has_unexpected_close(between(all, 0, pos as int)),
                nesting(between(all, 0, pos as int)) == 0,
                first is None ==> !surplus && between(all, 0, pos as int).len() == 0,
                first matches Some(tree) ==> tree@.well_formed() && (!surplus ==> between(
                    all,
                    0,
                    pos as int,
                ) == tree@.flatten()),
                surplus ==> first is Some && 0 < first_end < between(all, 0, pos as int).len()
                    && nesting(between(all, 0, pos as int).take(first_end)) == 0,
            decreases tokens.expr.len() - pos,
        {
            let ghost before = between(all, 0, pos as int);
            proof {
                lemma_between_step(all, 0, pos as int);
                lemma_unexpected_close_push(before, all[pos as int]);
                lemma_between_split(all, 0, pos + 1, tokens.expr.len() as int);
                if first is Some {
                    lemma_flatten_nesting(first->Some_0@, 1);
                }
            }
            let found: Option<(AbstractSyntaxTree, usize)> = match &tokens.expr[pos] {
                ConcreteSyntaxToken::Symbol(Symbol::Space) => None,
                ConcreteSyntaxToken::Symbol(Symbol::LeftParenthesis) => {
                    match parse_list(&tokens.expr, pos + 1) {
                        Ok(found) => Some(found),
                        Err(e) => {
                            return Err(e);
                        },
                    }
                },
                ConcreteSyntaxToken::Symbol(Symbol::RightParenthesis) => {
                    proof {
                        lemma_unexpected_close_extends(
                            between(all, 0, pos + 1),
                            between(all, pos + 1, tokens.expr.len() as int),
                        );
                    }
                    return Err(ParseError::UnexpectedCloseParen);
                },
                ConcreteSyntaxToken::Name(name) => Some(
                    (AbstractSyntaxTree::Atom(name.clone()), pos + 1),
                ),
            };
            match found {
                None => {
                    pos = pos + 1;
                },
                Some((tree, next)) => {
                    proof {
                        lemma_between_split(all, 0, pos as int, next as int);
                        lemma_between_step(all, pos as int, pos as int);
                        lemma_flatten_nesting(tree@, 1);
                        lemma_nesting_concat(before, tree@.flatten());
                        if first is Some {
                            if !surplus {
                                first_end = before.len() as int;
                            }
                            assert(between(all, 0, next as int).take(first_end) =~= before.take(
                                first_end,
                            ));
                            assert(before.take(before.len() as int) =~= before);
                        }
                    }
                    if first.is_none() {
                        first = Some(tree);
                    } else {
                        surplus = true;
                    }
                    pos = next;
                },
            }
        }
        proof {
            lemma_between_split(all, 0, pos as int, pos as int);
        }
        match first {
            None => Err(ParseError::UnbalancedParentheses),
            Some(tree) => {
                if surplus {
                    Err(ParseError::TrailingTokens)
                } else {
                    proof {
                        let flat = tree@.flatten();
                        assert forall|k: int| 0 < k < flat.len() implies nesting(
                            #[trigger] flat.take(k),
                        ) != 0 by {
                            lemma_flatten_nesting(tree@, k);
                        }
                    }
                    Ok(tree)
                }
            },
        }
    }

    /// Reads `source` as one expression: its tokens, then the tree that
    /// they spell out. A lexical error is reported before any error of the
    /// tokens.
    pub fn parse(source: &str) -> (r: Result<AbstractSyntaxTree, SyntaxError>)
        ensures
            match r {
                Ok(tree) => syntax_error(source@) is None && spells(tokens_of(source@), tree@),
                Err(e) => syntax_error(source@) == Some(e),
            },
    {
        match Parser::tokenize(source) {
            Ok(tokens) => match Parser::build_ast(&tokens) {
                Ok(tree) => Ok(tree),
                Err(e) => Err(SyntaxError::Parse(e)),
            },
            Err(e) => Err(SyntaxError::Lex(e)),
        }
    }
}

} // verus!
