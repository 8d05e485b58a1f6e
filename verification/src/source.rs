//! What can be counted in a source text, its atoms and the depth of its
//! parentheses, and how both show in the tree that the text is read as.

use crate::grammar::{
    lemma_max_nesting_concat, lemma_name_count_concat, lemma_nesting_concat, lemma_single_token,
    lemma_spelled_tree_counts, lemma_well_formed_accepted, max_nesting, name_count, nesting,
    parse_error, significant, spells,
};
use crate::lexing::{
    all_atom_chars, atom_run, ends_outside_atom, is_delimiter, lemma_atom_run, lemma_lex_render,
    lex, render, symbol_token, tokens_of, well_lexed,
};
use crate::types::{LexError, SyntaxError, Token, Tree};
use vstd::prelude::*;

verus! {

/// Why the text `s` is not one expression, if it is not: its lexical error,
/// or else the error of its tokens.
pub open spec fn syntax_error(s: Seq<char>) -> Option<SyntaxError> {
    match lex(s) {
        Err(e) => Some(SyntaxError::Lex(e)),
        Ok(ts) => match parse_error(significant(ts)) {
            Some(e) => Some(SyntaxError::Parse(e)),
            None => None,
        },
    }
}

/// An atom starts at index `i` of `s`: an atom character at the start of the
/// text or behind a delimiter.
pub open spec fn atom_starts_at(s: Seq<char>, i: int) -> bool {
    0 <= i < s.len() && !is_delimiter(s[i]) && (i == 0 || is_delimiter(s[i - 1]))
}

/// The number of atoms in `s`: of its maximal runs of atom characters.
pub open spec fn atom_count(s: Seq<char>) -> nat
    decreases s.len(),
{
    if s.len() == 0 {
        0
    } else if atom_starts_at(s, s.len() - 1) {
        atom_count(s.drop_last()) + 1
    } else {
        atom_count(s.drop_last())
    }
}

/// What one character adds to the number of open parentheses.
pub open spec fn char_delta(c: char) -> int {
    if c == '(' {
        1
    } else if c == ')' {
        -1
    } else {
        0
    }
}

/// The `(` of `s` less its `)`.
pub open spec fn paren_depth(s: Seq<char>) -> int
    decreases s.len(),
{
    if s.len() == 0 {
        0
    } else {
        paren_depth(s.drop_last()) + char_delta(s.last())
    }
}

/// The largest number of parentheses that are open at any point of `s`.
pub open spec fn max_paren_depth(s: Seq<char>) -> int
    decreases s.len(),
{
    if s.len() == 0 {
        0
    } else if paren_depth(s) >= max_paren_depth(s.drop_last()) {
        paren_depth(s)
    } else {
        max_paren_depth(s.drop_last())
    }
}

/// The measures of a text in two parts, where no atom runs across the cut.
proof fn lemma_measures_concat(a: Seq<char>, b: Seq<char>)
    ensures
        paren_depth(a + b) == paren_depth(a) + paren_depth(b),
        max_paren_depth(a) >= paren_depth(a),
        max_paren_depth(a) >= 0,
        max_paren_depth(a + b) == if max_paren_depth(a) >= paren_depth(a) + max_paren_depth(b) {
            max_paren_depth(a)
        } else {
            paren_depth(a) + max_paren_depth(b)
        },
        ends_outside_atom(a) || b.len() == 0 || is_delimiter(b[0]) ==> atom_count(a + b)
            == atom_count(a) + atom_count(b),
    decreases a.len() + b.len(), b.len(),
{
    if a.len() > 0 {
        lemma_measures_concat(a.drop_last(), Seq::<char>::empty());
    }
    if b.len() == 0 {
        assert(a + b =~= a);
    } else {
        assert((a + b).drop_last() =~= a + b.drop_last());
        lemma_measures_concat(a, b.drop_last());
        if b.len() == 1 {
            assert(b.drop_last() =~= Seq::<char>::empty());
            assert(atom_count(b.drop_last()) == 0);
        } else {
            assert(b.drop_last()[0] == b[0]);
        }
    }
}

/// The measures of a text of one character.
proof fn lemma_measures_single(c: char)
    ensures
        paren_depth(seq![c]) == char_delta(c),
        max_paren_depth(seq![c]) == if c == '(' { 1int } else { 0int },
        atom_count(seq![c]) == if is_delimiter(c) { 0nat } else { 1nat },
{
    assert(seq![c].drop_last() =~= Seq::<char>::empty());
    assert(paren_depth(Seq::<char>::empty()) == 0);
    assert(max_paren_depth(Seq::<char>::empty()) == 0);
    assert(atom_count(Seq::<char>::empty()) == 0);
}

/// The measures of one atom: no parentheses, one atom.
proof fn lemma_measures_atom(t: Seq<char>)
    requires
        all_atom_chars(t),
    ensures
        paren_depth(t) == 0,
        max_paren_depth(t) == 0,
        atom_count(t) == if t.len() > 0 { 1nat } else { 0nat },
    decreases t.len(),
{
    if t.len() > 0 {
        let front = t.drop_last();
        assert forall|i: int| 0 <= i < front.len() implies !is_delimiter(#[trigger] front[i]) by {
            assert(front[i] == t[i]);
        }
        lemma_measures_atom(front);
        assert(!is_delimiter(t.last()));
        if t.len() > 1 {
            assert(!is_delimiter(t[t.len() - 2]));
        }
    }
}

/// What lexing keeps: the tokens of a text nest as its parentheses do, and
/// every atom of the text is a name among them, but for an atom that the
/// text ends in.
pub proof fn lemma_tokens_measures(s: Seq<char>)
    ensures
        nesting(tokens_of(s)) == paren_depth(s),
        max_nesting(tokens_of(s)) == max_paren_depth(s),
        name_count(tokens_of(s)) + (if ends_outside_atom(s) { 0nat } else { 1nat })
            == atom_count(s),
    decreases s.len(),
{
    let ts = tokens_of(s);
    if s.len() == 0 {
    } else if is_delimiter(s[0]) {
        let head = seq![s[0]];
        let rest = s.skip(1);
        let first = seq![symbol_token(s[0])];
        lemma_tokens_measures(rest);
        assert(s =~= head + rest);
        if rest.len() > 0 {
            assert(rest.last() == s.last());
        }
        lemma_measures_single(s[0]);
        lemma_measures_concat(head, rest);
        lemma_single_token(symbol_token(s[0]));
        lemma_nesting_concat(first, tokens_of(rest));
        lemma_max_nesting_concat(first, tokens_of(rest));
        lemma_name_count_concat(first, tokens_of(rest));
    } else {
        let n = atom_run(s) as int;
        lemma_atom_run(s);
        let head = s.take(n);
        lemma_measures_atom(head);
        if n < s.len() {
            let rest = s.skip(n);
            let first = seq![Token::Name(head)];
            lemma_tokens_measures(rest);
            assert(s =~= head + rest);
            assert(rest.last() == s.last());
            lemma_measures_concat(head, rest);
            lemma_single_token(Token::Name(head));
            lemma_nesting_concat(first, tokens_of(rest));
            lemma_max_nesting_concat(first, tokens_of(rest));
            lemma_name_count_concat(first, tokens_of(rest));
        } else {
            assert(head =~= s);
            assert(!is_delimiter(head[n - 1]));
        }
    }
}

/// Leaves and depth of what was parsed: where a text ends outside an atom
/// and its tokens spell out a tree, the tree has as many atoms as the text
/// and is as deep as the parentheses of the text.
pub proof fn lemma_parsed_tree_measures(s: Seq<char>, tree: Tree)
    requires
        ends_outside_atom(s),
        tree.flatten() == significant(tokens_of(s)),
    ensures
        tree.leaf_count() == atom_count(s),
        tree.depth() == max_paren_depth(s),
{
    lemma_tokens_measures(s);
    lemma_spelled_tree_counts(tokens_of(s), tree);
}

/// Acceptance: a well-formed tree written out as well-lexed tokens, with
/// whatever spacing, is a text that lexes to those tokens and is one
/// expression; the tree has as many atoms as the text and is as deep as the
/// parentheses of the text.
pub proof fn lemma_written_tree_is_read(tree: Tree, ts: Seq<Token>)
    requires
        well_lexed(ts),
        spells(ts, tree),
    ensures
        lex(render(ts)) == Ok::<Seq<Token>, LexError>(ts),
        syntax_error(render(ts)) is None,
        tree.leaf_count() == atom_count(render(ts)),
        tree.depth() == max_paren_depth(render(ts)),
{
    lemma_lex_render(ts);
    lemma_well_formed_accepted(ts, tree);
    lemma_parsed_tree_measures(render(ts), tree);
}

} // verus!
