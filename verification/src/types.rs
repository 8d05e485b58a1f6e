//! The concrete tokens, the syntax tree, and the mathematical models that the
//! contracts of this library speak about.

use vstd::prelude::*;

verus! {

/// A lexical unit as the contracts see it: the model of a
/// [`ConcreteSyntaxToken`].
pub enum Token {
    /// `(`
    LeftParen,
    /// `)`
    RightParen,
    /// One space character.
    Space,
    /// An atom, with its text.
    Name(Seq<char>),
}

/// A nested expression as the contracts see it: the model of an
/// [`AbstractSyntaxTree`].
pub enum Tree {
    /// An atom, with its text.
    Atom(Seq<char>),
    /// What stands between a matching pair of parentheses, in order.
    List(Seq<Tree>),
}

/// A structural delimiter or a separator.
#[derive(Debug, PartialEq, Eq, Clone, Copy)]
pub enum Symbol {
    Space,
    LeftParenthesis,
    RightParenthesis,
}

/// One lexical unit of the source text: a symbol, or the text of an atom.
#[derive(Debug, PartialEq, Eq, Clone)]
pub enum ConcreteSyntaxToken {
    Symbol(Symbol),
    Name(String),
}

/// The tokens of a source text, in source order.
#[derive(Debug, PartialEq, Eq, Clone)]
pub struct ConcreteSyntaxTree {
    pub expr: Vec<ConcreteSyntaxToken>,
}

/// A parsed expression: an atom with its text as it stood in the source, or
/// the ordered sub-expressions found between a matching pair of parentheses.
/// The tree owns its texts and its children.
#[derive(Debug, PartialEq, Eq)]
pub enum AbstractSyntaxTree {
    Atom(String),
    List(Vec<AbstractSyntaxTree>),
}

/// Why a source text has no tokens.
#[derive(Debug, PartialEq, Eq, Clone, Copy)]
pub enum LexError {
    /// An atom was directly followed by `(`, with no separator between them.
    UnexpectedOpenParenInAtom,
}

/// Why a token sequence is not one expression.
#[derive(Debug, PartialEq, Eq, Clone, Copy)]
pub enum ParseError {
    /// The input ended while an expression was still owed: a list was left
    /// open, or there was no expression at all.
    UnbalancedParentheses,
    /// A `)` stood where an expression was expected: outside every list, or
    /// directly behind the `(` of its own list.
    UnexpectedCloseParen,
    /// The input holds well-formed expressions, but more than one.
    TrailingTokens,
}

/// Why a source text is not one expression.
#[derive(Debug, PartialEq, Eq, Clone, Copy)]
pub enum SyntaxError {
    Lex(LexError),
    Parse(ParseError),
}

impl View for Symbol {
    type V = Token;

    open spec fn view(&self) -> Token {
        match self {
            Symbol::Space => Token::Space,
            Symbol::LeftParenthesis => Token::LeftParen,
            Symbol::RightParenthesis => Token::RightParen,
        }
    }
}

impl View for ConcreteSyntaxToken {
    type V = Token;

    open spec fn view(&self) -> Token {
        match self {
            ConcreteSyntaxToken::Symbol(s) => s@,
            ConcreteSyntaxToken::Name(n) => Token::Name(n@),
        }
    }
}

/// The models of a run of concrete tokens.
pub open spec fn token_views(ts: Seq<ConcreteSyntaxToken>) -> Seq<Token> {
    Seq::new(ts.len(), |i: int| ts[i]@)
}

impl View for ConcreteSyntaxTree {
    type V = Seq<Token>;

    open spec fn view(&self) -> Seq<Token> {
        token_views(self.expr@)
    }
}

impl Default for ConcreteSyntaxTree {
    /// The tokens of the empty text: none.
    fn default() -> (r: Self)
        ensures
            r@ == Seq::<Token>::empty(),
    {
        let r = ConcreteSyntaxTree { expr: Vec::new() };
        assert(r@ =~= Seq::<Token>::empty());
        r
    }
}

impl View for AbstractSyntaxTree {
    type V = Tree;

    /// The tree with the text of each atom and the model of each child, in
    /// order: for a list of children `cs`, `Tree::List(tree_views(cs@))`.
    open spec fn view(&self) -> Tree
        decreases self,
    {
        match self {
            AbstractSyntaxTree::Atom(n) => Tree::Atom(n@),
            AbstractSyntaxTree::List(cs) => Tree::List(
                Seq::new(
                    cs@.len(),
                    |i: int|
                        if 0 <= i < cs@.len() {
                            cs@[i]@
                        } else {
                            // No index of the sequence: the value is never looked at.
                            Tree::Atom(Seq::empty())
                        },
                ),
            ),
        }
    }
}

/// The models of a run of syntax trees.
pub open spec fn tree_views(ts: Seq<AbstractSyntaxTree>) -> Seq<Tree> {
    Seq::new(ts.len(), |i: int| ts[i]@)
}

impl Tree {
    /// The tokens of this tree written out in order, without any spacing.
    pub open spec fn flatten(self) -> Seq<Token>
        decreases self,
    {
        match self {
            Tree::Atom(n) => seq![Token::Name(n)],
            Tree::List(cs) => seq![Token::LeftParen] + flatten_all(cs) + seq![Token::RightParen],
        }
    }

    /// No list of this tree is empty.
    pub open spec fn well_formed(self) -> bool
        decreases self,
    {
        match self {
            Tree::Atom(_) => true,
            Tree::List(cs) => cs.len() > 0 && forall|i: int|
                0 <= i < cs.len() ==> (#[trigger] cs[i]).well_formed(),
        }
    }

    /// The number of atoms in this tree.
    pub open spec fn leaf_count(self) -> nat
        decreases self,
    {
        match self {
            Tree::Atom(_) => 1,
            Tree::List(cs) => leaf_count_all(cs),
        }
    }

    /// The number of lists around the most deeply nested place of this tree:
    /// 0 for an atom.
    pub open spec fn depth(self) -> nat
        decreases self,
    {
        match self {
            Tree::Atom(_) => 0,
            Tree::List(cs) => 1 + max_depth(cs),
        }
    }
}

/// The tokens of a run of trees, one tree after the other.
pub open spec fn flatten_all(ts: Seq<Tree>) -> Seq<Token>
    decreases ts,
{
    if ts.len() == 0 {
        Seq::empty()
    } else {
        ts[0].flatten() + flatten_all(ts.skip(1))
    }
}

/// The number of atoms in a run of trees.
pub open spec fn leaf_count_all(ts: Seq<Tree>) -> nat
    decreases ts,
{
    if ts.len() == 0 {
        0
    } else {
        ts[0].leaf_count() + leaf_count_all(ts.skip(1))
    }
}

/// The depth of the deepest tree of a run; 0 for an empty run.
pub open spec fn max_depth(ts: Seq<Tree>) -> nat
    decreases ts,
{
    if ts.len() == 0 {
        0
    } else if ts[0].depth() >= max_depth(ts.skip(1)) {
        ts[0].depth()
    } else {
        max_depth(ts.skip(1))
    }
}

} // verus!
