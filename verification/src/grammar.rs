//! Which token sequences are one expression, and which tree each of them is,
//! stated over sequences of tokens.

use crate::types::{flatten_all, leaf_count_all, max_depth, ParseError, Token, Tree};
use vstd::prelude::*;

verus! {

/// The tokens of `ts` that are not spaces, in order.
pub open spec fn significant(ts: Seq<Token>) -> Seq<Token>
    decreases ts.len(),
{
    if ts.len() == 0 {
        Seq::empty()
    } else if ts.last() is Space {
        significant(ts.drop_last())
    } else {
        significant(ts.drop_last()).push(ts.last())
    }
}

/// What one token adds to the number of open lists.
pub open spec fn paren_delta(t: Token) -> int {
    match t {
        Token::LeftParen => 1,
        Token::RightParen => -1,
        _ => 0,
    }
}

/// The opening parentheses of `ts` less its closing ones: the number of
/// lists that are open behind `ts`.
pub open spec fn nesting(ts: Seq<Token>) -> int
    decreases ts.len(),
{
    if ts.len() == 0 {
        0
    } else {
        nesting(ts.drop_last()) + paren_delta(ts.last())
    }
}

/// The number of names among `ts`.
pub open spec fn name_count(ts: Seq<Token>) -> nat
    decreases ts.len(),
{
    if ts.len() == 0 {
        0
    } else if ts.last() is Name {
        name_count(ts.drop_last()) + 1
    } else {
        name_count(ts.drop_last())
    }
}

/// The largest number of lists that are open at any point of `ts`.
pub open spec fn max_nesting(ts: Seq<Token>) -> int
    decreases ts.len(),
{
    if ts.len() == 0 {
        0
    } else if nesting(ts) >= max_nesting(ts.drop_last()) {
        nesting(ts)
    } else {
        max_nesting(ts.drop_last())
    }
}

/// The token at index `i` is a `)` that closes nothing, or that closes a
/// list with nothing in it.
pub open spec fn unexpected_close_at(ts: Seq<Token>, i: int) -> bool {
    &&& 0 <= i < ts.len()
    &&& ts[i] == Token::RightParen
    &&& (nesting(ts.take(i)) <= 0 || (i > 0 && ts[i - 1] == Token::LeftParen))
}

/// Some `)` of `ts` stands where an expression was expected.
pub open spec fn has_unexpected_close(ts: Seq<Token>) -> bool {
    exists|i: int| unexpected_close_at(ts, i)
}

/// At some point before its end, `ts` has closed every list that it has
/// opened: where `ts` starts with an expression, more follows it.
pub open spec fn closes_early(ts: Seq<Token>) -> bool {
    exists|k: int| 0 < k < ts.len() && nesting(#[trigger] ts.take(k)) == 0
}

/// Why the significant tokens `ts` are not one expression, if they are not.
///
/// A `)` out of place is reported before anything else. Input that is used
/// up while an expression is still owed is unbalanced. Input that is
/// complete, but holds more than one expression, has trailing tokens.
pub open spec fn parse_error(ts: Seq<Token>) -> Option<ParseError> {
    if has_unexpected_close(ts) {
        Some(ParseError::UnexpectedCloseParen)
    } else if ts.len() == 0 || nesting(ts) > 0 {
        Some(ParseError::UnbalancedParentheses)
    } else if closes_early(ts) {
        Some(ParseError::TrailingTokens)
    } else {
        None
    }
}

/// `tree` is the expression that the tokens `ts` spell out, whatever their
/// spacing.
pub open spec fn spells(ts: Seq<Token>, tree: Tree) -> bool {
    tree.well_formed() && tree.flatten() == significant(ts)
}

/// Spaces are dropped from each part of a sequence separately.
pub proof fn lemma_significant_concat(a: Seq<Token>, b: Seq<Token>)
    ensures
        significant(a + b) == significant(a) + significant(b),
    decreases b.len(),
{
    if b.len() == 0 {
        assert(a + b =~= a);
        assert(significant(a) + significant(b) =~= significant(a));
    } else {
        assert((a + b).drop_last() =~= a + b.drop_last());
        lemma_significant_concat(a, b.drop_last());
        assert(significant(a + b) =~= significant(a) + significant(b));
    }
}

/// The nesting of a sequence is the sum over its parts.
pub proof fn lemma_nesting_concat(a: Seq<Token>, b: Seq<Token>)
    ensures
        nesting(a + b) == nesting(a) + nesting(b),
    decreases b.len(),
{
    if b.len() == 0 {
        assert(a + b =~= a);
    } else {
        assert((a + b).drop_last() =~= a + b.drop_last());
        lemma_nesting_concat(a, b.drop_last());
    }
}

/// A `)` out of place stays out of place whatever follows.
pub proof fn lemma_unexpected_close_extends(a: Seq<Token>, b: Seq<Token>)
    requires
        has_unexpected_close(a),
    ensures
        has_unexpected_close(a + b),
{
    let i = choose|i: int| unexpected_close_at(a, i);
    assert((a + b).take(i) =~= a.take(i));
    assert(unexpected_close_at(a + b, i));
}

/// One more token behind a sequence with no `)` out of place: the new
/// sequence has one exactly when that token is a `)` with no list to close
/// or with `(` directly before it.
pub proof fn lemma_unexpected_close_push(a: Seq<Token>, t: Token)
    requires
        !has_unexpected_close(a),
    ensures
        has_unexpected_close(a.push(t)) <==> t == Token::RightParen && (nesting(a) <= 0 || (a.len()
            > 0 && a.last() == Token::LeftParen)),
{
    let s = a.push(t);
    assert(s.take(a.len() as int) =~= a);
    if has_unexpected_close(s) {
        let i = choose|i: int| unexpected_close_at(s, i);
        if i < a.len() {
            assert(s.take(i) =~= a.take(i));
            assert(unexpected_close_at(a, i));
        }
    }
    if t == Token::RightParen && (nesting(a) <= 0 || (a.len() > 0 && a.last()
        == Token::LeftParen)) {
        assert(unexpected_close_at(s, a.len() as int));
    }
}

/// The trees of a run written out: one more tree at the end adds its tokens
/// at the end.
pub proof fn lemma_flatten_all_push(ts: Seq<Tree>, t: Tree)
    ensures
        flatten_all(ts.push(t)) == flatten_all(ts) + t.flatten(),
    decreases ts.len(),
{
    if ts.len() == 0 {
        assert(ts.push(t).skip(1) =~= Seq::<Tree>::empty());
        assert(flatten_all(Seq::<Tree>::empty()) =~= Seq::<Token>::empty());
        assert(ts =~= Seq::<Tree>::empty());
        assert(flatten_all(ts.push(t)) =~= t.flatten());
        assert(flatten_all(ts) + t.flatten() =~= t.flatten());
    } else {
        assert(ts.push(t).skip(1) =~= ts.skip(1).push(t));
        lemma_flatten_all_push(ts.skip(1), t);
        assert(flatten_all(ts.push(t)) =~= flatten_all(ts) + t.flatten());
    }
}

/// The tokens of a run of trees open no list that they do not close, and at
/// no point close more lists than they have opened.
pub proof fn lemma_flatten_all_nesting(ts: Seq<Tree>, k: int)
    requires
        0 <= k <= flatten_all(ts).len(),
    ensures
        nesting(flatten_all(ts)) == 0,
        nesting(flatten_all(ts).take(k)) >= 0,
    decreases ts, 0int,
{
    let all = flatten_all(ts);
    if ts.len() == 0 {
        assert(all.take(k) =~= all);
    } else {
        let head = ts[0].flatten();
        let tail = flatten_all(ts.skip(1));
        lemma_flatten_nesting(ts[0], 1);
        lemma_flatten_all_nesting(ts.skip(1), 0);
        lemma_nesting_concat(head, tail);
        if k <= head.len() {
            assert(all.take(k) =~= head.take(k));
            if 0 < k < head.len() {
                lemma_flatten_nesting(ts[0], k);
            } else {
                assert(head.take(0).len() == 0);
                assert(head.take(head.len() as int) =~= head);
            }
        } else {
            assert(all.take(k) =~= head + tail.take(k - head.len()));
            lemma_flatten_all_nesting(ts.skip(1), k - head.len());
            lemma_nesting_concat(head, tail.take(k - head.len()));
        }
    }
}

/// The tokens of a tree close every list that they open, and only with the
/// last token: until then, a list is open.
pub proof fn lemma_flatten_nesting(t: Tree, k: int)
    requires
        0 < k,
    ensures
        t.flatten().len() > 0,
        nesting(t.flatten()) == 0,
        k < t.flatten().len() ==> nesting(t.flatten().take(k)) > 0,
    decreases t, 1int,
{
    let all = t.flatten();
    match t {
        Tree::Atom(n) => {
            lemma_single_token(Token::Name(n));
        },
        Tree::List(cs) => {
            let open = seq![Token::LeftParen];
            let inner = flatten_all(cs);
            let close = seq![Token::RightParen];
            lemma_single_token(Token::LeftParen);
            lemma_single_token(Token::RightParen);
            lemma_flatten_all_nesting(cs, 0);
            lemma_nesting_concat(open, inner);
            lemma_nesting_concat(open + inner, close);
            if k < all.len() {
                assert(all.take(k) =~= open + inner.take(k - 1));
                lemma_flatten_all_nesting(cs, k - 1);
                lemma_nesting_concat(open, inner.take(k - 1));
            }
        },
    }
}

/// Two runs of trees whose tokens, each followed by a `)`, start the same
/// sequence are the same run, and what follows them is the same.
proof fn lemma_flatten_all_prefix_free(
    xs: Seq<Tree>,
    ys: Seq<Tree>,
    after_xs: Seq<Token>,
    after_ys: Seq<Token>,
)
    requires
        flatten_all(xs) + seq![Token::RightParen] + after_xs == flatten_all(ys)
            + seq![Token::RightParen] + after_ys,
    ensures
        xs == ys,
        after_xs == after_ys,
    decreases xs, 0int,
{
    let close = seq![Token::RightParen];
    let left = flatten_all(xs) + close + after_xs;
    let right = flatten_all(ys) + close + after_ys;
    if xs.len() == 0 {
        assert(left[0] == Token::RightParen);
        if ys.len() > 0 {
            assert(right[0] == ys[0].flatten()[0]);
            assert(false);
        }
        assert(after_xs =~= left.skip(1));
        assert(after_ys =~= right.skip(1));
        assert(xs =~= ys);
    } else {
        assert(left[0] == xs[0].flatten()[0]);
        if ys.len() == 0 {
            assert(right[0] == Token::RightParen);
            assert(false);
        }
        let rest_xs = flatten_all(xs.skip(1)) + close + after_xs;
        let rest_ys = flatten_all(ys.skip(1)) + close + after_ys;
        assert(left =~= xs[0].flatten() + rest_xs);
        assert(right =~= ys[0].flatten() + rest_ys);
        lemma_flatten_prefix_free(xs[0], ys[0], rest_xs, rest_ys);
        lemma_flatten_all_prefix_free(xs.skip(1), ys.skip(1), after_xs, after_ys);
        assert(xs =~= seq![xs[0]] + xs.skip(1));
        assert(ys =~= seq![ys[0]] + ys.skip(1));
    }
}

/// Two trees whose tokens start the same sequence are the same tree, and
/// what follows them is the same.
proof fn lemma_flatten_prefix_free(a: Tree, b: Tree, after_a: Seq<Token>, after_b: Seq<Token>)
    requires
        a.flatten() + after_a == b.flatten() + after_b,
    ensures
        a == b,
        after_a == after_b,
    decreases a, 1int,
{
    let left = a.flatten() + after_a;
    let right = b.flatten() + after_b;
    assert(left[0] == a.flatten()[0]);
    assert(right[0] == b.flatten()[0]);
    match a {
        Tree::Atom(n) => {
            assert(b is Atom);
            assert(after_a =~= left.skip(1));
            assert(after_b =~= right.skip(1));
        },
        Tree::List(xs) => {
            assert(b is List);
            let ys = b->List_0;
            let close = seq![Token::RightParen];
            assert(left.skip(1) =~= flatten_all(xs) + close + after_a);
            assert(right.skip(1) =~= flatten_all(ys) + close + after_b);
            lemma_flatten_all_prefix_free(xs, ys, after_a, after_b);
        },
    }
}

/// One reading: two trees with the same tokens are the same tree. So the
/// tokens, whatever their spacing, spell out at most one tree.
pub proof fn lemma_flatten_injective(a: Tree, b: Tree)
    requires
        a.flatten() == b.flatten(),
    ensures
        a == b,
{
    lemma_flatten_prefix_free(a, b, Seq::empty(), Seq::empty());
}

/// Spacing is irrelevant: token sequences with the same significant tokens
/// spell out the same tree.
pub proof fn lemma_spacing_is_irrelevant(a: Seq<Token>, b: Seq<Token>, tree_a: Tree, tree_b: Tree)
    requires
        significant(a) == significant(b),
        spells(a, tree_a),
        spells(b, tree_b),
    ensures
        tree_a == tree_b,
        parse_error(significant(a)) == parse_error(significant(b)),
{
    lemma_flatten_injective(tree_a, tree_b);
}

/// The tokens of a tree begin with `(` or a name and end with `)` or a name.
proof fn lemma_flatten_ends(t: Tree)
    ensures
        t.flatten().len() > 0,
        t.flatten()[0] == Token::LeftParen || t.flatten()[0] is Name,
        t.flatten().last() == Token::RightParen || t.flatten().last() is Name,
{
}

/// The tokens of a run of trees that is not empty begin with `(` or a name
/// and end with `)` or a name.
proof fn lemma_flatten_all_ends(ts: Seq<Tree>)
    requires
        ts.len() > 0,
    ensures
        flatten_all(ts).len() > 0,
        flatten_all(ts)[0] == Token::LeftParen || flatten_all(ts)[0] is Name,
        flatten_all(ts).last() == Token::RightParen || flatten_all(ts).last() is Name,
{
    lemma_flatten_ends(ts[0]);
    lemma_flatten_ends(ts.last());
    assert(ts.drop_last().push(ts.last()) =~= ts);
    lemma_flatten_all_push(ts.drop_last(), ts.last());
}

/// Among the tokens of well-formed trees no `)` stands directly behind a `(`.
proof fn lemma_flatten_all_no_empty_list(ts: Seq<Tree>, i: int)
    requires
        forall|j: int| 0 <= j < ts.len() ==> (#[trigger] ts[j]).well_formed(),
        0 < i < flatten_all(ts).len(),
    ensures
        !(flatten_all(ts)[i - 1] == Token::LeftParen && flatten_all(ts)[i] == Token::RightParen),
    decreases ts, 0int,
{
    if ts.len() > 0 {
        let head = ts[0].flatten();
        let rest = ts.skip(1);
        lemma_flatten_ends(ts[0]);
        if i < head.len() {
            lemma_flatten_no_empty_list(ts[0], i);
        } else if i == head.len() {
        } else {
            assert forall|j: int| 0 <= j < rest.len() implies (
            #[trigger] rest[j]).well_formed() by {
                assert(rest[j] == ts[j + 1]);
            }
            lemma_flatten_all_no_empty_list(rest, i - head.len());
        }
    }
}

/// Among the tokens of a well-formed tree no `)` stands directly behind a
/// `(`.
proof fn lemma_flatten_no_empty_list(t: Tree, i: int)
    requires
        t.well_formed(),
        0 < i < t.flatten().len(),
    ensures
        !(t.flatten()[i - 1] == Token::LeftParen && t.flatten()[i] == Token::RightParen),
    decreases t, 1int,
{
    match t {
        Tree::Atom(_) => {},
        Tree::List(cs) => {
            let inner = flatten_all(cs);
            lemma_flatten_all_ends(cs);
            if i == 1 {
                assert(t.flatten()[1] == inner[0]);
            } else if i == t.flatten().len() - 1 {
                assert(t.flatten()[i - 1] == inner.last());
            } else {
                assert(t.flatten()[i - 1] == inner[i - 2]);
                assert(t.flatten()[i] == inner[i - 1]);
                lemma_flatten_all_no_empty_list(cs, i - 1);
            }
        },
    }
}

/// The tokens of a tree hold no spaces.
pub proof fn lemma_flatten_significant(t: Tree)
    ensures
        significant(t.flatten()) == t.flatten(),
    decreases t, 1int,
{
    match t {
        Tree::Atom(n) => {
            lemma_single_token(Token::Name(n));
        },
        Tree::List(cs) => {
            let open = seq![Token::LeftParen];
            let inner = flatten_all(cs);
            let close = seq![Token::RightParen];
            lemma_single_token(Token::LeftParen);
            lemma_single_token(Token::RightParen);
            lemma_flatten_all_significant(cs);
            lemma_significant_concat(open, inner);
            lemma_significant_concat(open + inner, close);
        },
    }
}

/// The tokens of a run of trees hold no spaces.
pub proof fn lemma_flatten_all_significant(ts: Seq<Tree>)
    ensures
        significant(flatten_all(ts)) == flatten_all(ts),
    decreases ts, 0int,
{
    if ts.len() > 0 {
        lemma_flatten_significant(ts[0]);
        lemma_flatten_all_significant(ts.skip(1));
        lemma_significant_concat(ts[0].flatten(), flatten_all(ts.skip(1)));
    } else {
        assert(significant(Seq::<Token>::empty()) =~= Seq::<Token>::empty());
    }
}

/// Acceptance: tokens that spell out a well-formed tree, whatever their
/// spacing, are one expression.
pub proof fn lemma_well_formed_accepted(ts: Seq<Token>, tree: Tree)
    requires
        spells(ts, tree),
    ensures
        parse_error(significant(ts)) is None,
{
    let flat = tree.flatten();
    lemma_flatten_ends(tree);
    lemma_flatten_nesting(tree, 1);
    assert forall|i: int| !unexpected_close_at(flat, i) by {
        if 0 < i < flat.len() {
            lemma_flatten_nesting(tree, i);
            lemma_flatten_no_empty_list(tree, i);
        }
    }
    assert forall|k: int| 0 < k < flat.len() implies nesting(#[trigger] flat.take(k)) != 0 by {
        lemma_flatten_nesting(tree, k);
    }
}

/// The names of a sequence are those of its parts.
pub proof fn lemma_name_count_concat(a: Seq<Token>, b: Seq<Token>)
    ensures
        name_count(a + b) == name_count(a) + name_count(b),
    decreases b.len(),
{
    if b.len() == 0 {
        assert(a + b =~= a);
    } else {
        assert((a + b).drop_last() =~= a + b.drop_last());
        lemma_name_count_concat(a, b.drop_last());
    }
}

/// The deepest point of a sequence lies in its first part, or in its second
/// part on top of what the first part has left open.
pub proof fn lemma_max_nesting_concat(a: Seq<Token>, b: Seq<Token>)
    ensures
        max_nesting(a) >= nesting(a),
        max_nesting(a) >= 0,
        max_nesting(a + b) == if max_nesting(a) >= nesting(a) + max_nesting(b) {
            max_nesting(a)
        } else {
            nesting(a) + max_nesting(b)
        },
    decreases a.len() + b.len(), b.len(),
{
    if a.len() > 0 {
        lemma_max_nesting_concat(a.drop_last(), Seq::<Token>::empty());
    }
    if b.len() == 0 {
        assert(a + b =~= a);
    } else {
        assert((a + b).drop_last() =~= a + b.drop_last());
        lemma_max_nesting_concat(a, b.drop_last());
        lemma_nesting_concat(a, b);
    }
}

/// One token alone: it is a name or not, and it opens a list or not.
pub proof fn lemma_single_token(t: Token)
    ensures
        name_count(seq![t]) == if t is Name { 1nat } else { 0nat },
        max_nesting(seq![t]) == if t == Token::LeftParen { 1int } else { 0int },
        nesting(seq![t]) == paren_delta(t),
        significant(seq![t]) == if t is Space { Seq::<Token>::empty() } else { seq![t] },
{
    assert(seq![t].drop_last() =~= Seq::<Token>::empty());
    assert(nesting(Seq::<Token>::empty()) == 0);
    assert(max_nesting(Seq::<Token>::empty()) == 0);
    assert(name_count(Seq::<Token>::empty()) == 0);
    assert(significant(Seq::<Token>::empty()) =~= Seq::<Token>::empty());
    assert(Seq::<Token>::empty().push(t) =~= seq![t]);
}

/// Spaces are no names and open no lists: a sequence and its significant
/// tokens have the same names, the same nesting and the same deepest point.
pub proof fn lemma_spaces_count_for_nothing(ts: Seq<Token>)
    ensures
        name_count(significant(ts)) == name_count(ts),
        nesting(significant(ts)) == nesting(ts),
        max_nesting(significant(ts)) == max_nesting(ts),
    decreases ts.len(),
{
    if ts.len() > 0 {
        let front = ts.drop_last();
        lemma_spaces_count_for_nothing(front);
        if !(ts.last() is Space) {
            assert(significant(front).push(ts.last()).drop_last() =~= significant(front));
        } else {
            lemma_max_nesting_concat(front, Seq::<Token>::empty());
        }
    }
}

/// The names among the tokens of a run of trees are its atoms, and the
/// deepest point of the tokens is as deep as its deepest tree.
pub proof fn lemma_flatten_all_counts(ts: Seq<Tree>)
    ensures
        name_count(flatten_all(ts)) == leaf_count_all(ts),
        max_nesting(flatten_all(ts)) == max_depth(ts),
    decreases ts, 0int,
{
    if ts.len() > 0 {
        let head = ts[0].flatten();
        let tail = flatten_all(ts.skip(1));
        lemma_flatten_counts(ts[0]);
        lemma_flatten_all_counts(ts.skip(1));
        lemma_flatten_nesting(ts[0], 1);
        lemma_name_count_concat(head, tail);
        lemma_max_nesting_concat(head, tail);
    }
}

/// The names among the tokens of a tree are its atoms, and the deepest
/// point of the tokens is as deep as the tree.
pub proof fn lemma_flatten_counts(t: Tree)
    ensures
        name_count(t.flatten()) == t.leaf_count(),
        max_nesting(t.flatten()) == t.depth(),
    decreases t, 1int,
{
    match t {
        Tree::Atom(n) => {
            lemma_single_token(Token::Name(n));
        },
        Tree::List(cs) => {
            let open = seq![Token::LeftParen];
            let inner = flatten_all(cs);
            let close = seq![Token::RightParen];
            lemma_single_token(Token::LeftParen);
            lemma_single_token(Token::RightParen);
            lemma_flatten_all_counts(cs);
            lemma_flatten_all_nesting(cs, 0);
            lemma_name_count_concat(open, inner);
            lemma_name_count_concat(open + inner, close);
            lemma_nesting_concat(open, inner);
            lemma_max_nesting_concat(open, inner);
            lemma_max_nesting_concat(open + inner, close);
        },
    }
}

/// Leaves and depth: the tree that tokens spell out has as many atoms as
/// there are names among the tokens, and is as deep as the largest number of
/// lists that the tokens have open at any point.
pub proof fn lemma_spelled_tree_counts(ts: Seq<Token>, tree: Tree)
    requires
        tree.flatten() == significant(ts),
    ensures
        tree.leaf_count() == name_count(ts),
        tree.depth() == max_nesting(ts),
{
    lemma_flatten_counts(tree);
    lemma_spaces_count_for_nothing(ts);
}

} // verus!
