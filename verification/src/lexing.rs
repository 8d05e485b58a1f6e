//! What the tokens of a source text are, stated over sequences of characters.

use crate::types::{LexError, Token};
use vstd::prelude::*;

verus! {

/// The three characters that end an atom; every other character belongs to one.
pub open spec fn is_delimiter(c: char) -> bool {
    c == '(' || c == ')' || c == ' '
}

/// The token that a delimiter character stands for.
pub open spec fn symbol_token(c: char) -> Token {
    if c == '(' {
        Token::LeftParen
    } else if c == ')' {
        Token::RightParen
    } else {
        Token::Space
    }
}

/// Every character of `s` belongs to an atom.
pub open spec fn all_atom_chars(s: Seq<char>) -> bool {
    forall|i: int| 0 <= i < s.len() ==> !is_delimiter(#[trigger] s[i])
}

/// The text ends outside an atom: it is empty or its last character is a
/// delimiter.
pub open spec fn ends_outside_atom(s: Seq<char>) -> bool {
    s.len() == 0 || is_delimiter(s.last())
}

/// The number of atom characters that `s` starts with.
pub open spec fn atom_run(s: Seq<char>) -> nat
    decreases s.len(),
{
    if s.len() == 0 || is_delimiter(s[0]) {
        0
    } else {
        1 + atom_run(s.skip(1))
    }
}

/// The tokens of `s`. A delimiter is a token by itself; a maximal run of atom
/// characters is one `Name`, provided a delimiter follows it. A run that
/// reaches the end of the text has no delimiter behind it and yields no token.
pub open spec fn tokens_of(s: Seq<char>) -> Seq<Token>
    decreases s.len(),
{
    if s.len() == 0 {
        Seq::empty()
    } else if is_delimiter(s[0]) {
        seq![symbol_token(s[0])] + tokens_of(s.skip(1))
    } else {
        let n = atom_run(s) as int;
        if n < s.len() {
            seq![Token::Name(s.take(n))] + tokens_of(s.skip(n))
        } else {
            Seq::empty()
        }
    }
}

/// An opening parenthesis stands directly behind an atom character.
pub open spec fn has_open_paren_in_atom(s: Seq<char>) -> bool {
    exists|i: int| 0 < i < s.len() && #[trigger] s[i] == '(' && !is_delimiter(s[i - 1])
}

/// The outcome of lexing `s`: its tokens, unless an atom runs into an
/// opening parenthesis.
pub open spec fn lex(s: Seq<char>) -> Result<Seq<Token>, LexError> {
    if has_open_paren_in_atom(s) {
        Err(LexError::UnexpectedOpenParenInAtom)
    } else {
        Ok(tokens_of(s))
    }
}

/// The literal text of one token.
pub open spec fn token_text(t: Token) -> Seq<char> {
    match t {
        Token::LeftParen => seq!['('],
        Token::RightParen => seq![')'],
        Token::Space => seq![' '],
        Token::Name(n) => n,
    }
}

/// The literal texts of `ts`, one after the other.
pub open spec fn render(ts: Seq<Token>) -> Seq<char>
    decreases ts.len(),
{
    if ts.len() == 0 {
        Seq::empty()
    } else {
        token_text(ts[0]) + render(ts.skip(1))
    }
}

/// Tokens as a lexer hands them out: every name is a whole atom, not empty
/// and free of delimiters, and a space or a `)` follows it.
pub open spec fn well_lexed(ts: Seq<Token>) -> bool {
    forall|i: int|
        0 <= i < ts.len() ==> (#[trigger] ts[i] matches Token::Name(n) ==> {
            &&& n.len() > 0
            &&& all_atom_chars(n)
            &&& i + 1 < ts.len()
            &&& (ts[i + 1] is Space || ts[i + 1] is RightParen)
        })
}

/// `atom_run` stops at the first delimiter of `s`, or at its end.
pub proof fn lemma_atom_run(s: Seq<char>)
    ensures
        atom_run(s) <= s.len(),
        all_atom_chars(s.take(atom_run(s) as int)),
        atom_run(s) < s.len() ==> is_delimiter(s[atom_run(s) as int]),
    decreases s.len(),
{
    if s.len() == 0 || is_delimiter(s[0]) {
    } else {
        let rest = s.skip(1);
        lemma_atom_run(rest);
        let n = atom_run(s) as int;
        assert forall|i: int| 0 <= i < n implies !is_delimiter(#[trigger] s.take(n)[i]) by {
            if i > 0 {
                assert(s.take(n)[i] == rest.take(n - 1)[i - 1]);
            }
        }
    }
}

/// Only one length is that of the atom characters at the start of `s`.
pub proof fn lemma_atom_run_is(s: Seq<char>, n: int)
    requires
        0 <= n <= s.len(),
        all_atom_chars(s.take(n)),
        n < s.len() ==> is_delimiter(s[n]),
    ensures
        atom_run(s) == n,
    decreases s.len(),
{
    if n == 0 {
    } else {
        assert(s[0] == s.take(n)[0]);
        let rest = s.skip(1);
        assert forall|i: int| 0 <= i < n - 1 implies !is_delimiter(
            #[trigger] rest.take(n - 1)[i],
        ) by {
            assert(rest.take(n - 1)[i] == s.take(n)[i + 1]);
        }
        lemma_atom_run_is(rest, n - 1);
    }
}

/// A text made of atom characters alone has no tokens.
pub proof fn lemma_tokens_of_atom(t: Seq<char>)
    requires
        all_atom_chars(t),
    ensures
        tokens_of(t) == Seq::<Token>::empty(),
{
    if t.len() > 0 {
        assert(t.take(t.len() as int) =~= t);
        lemma_atom_run_is(t, t.len() as int);
    }
}

/// An atom followed by a delimiter gives the atom's name, if there is one,
/// and the delimiter's symbol.
pub proof fn lemma_tokens_of_atom_closed(t: Seq<char>, d: char)
    requires
        all_atom_chars(t),
        is_delimiter(d),
    ensures
        tokens_of(t.push(d)) == if t.len() > 0 {
            seq![Token::Name(t), symbol_token(d)]
        } else {
            seq![symbol_token(d)]
        },
{
    let s = t.push(d);
    assert(tokens_of(Seq::<char>::empty()) == Seq::<Token>::empty());
    if t.len() == 0 {
        assert(s.skip(1) =~= Seq::<char>::empty());
        assert(tokens_of(s) =~= seq![symbol_token(d)]);
    } else {
        let n = t.len() as int;
        assert(s.take(n) =~= t);
        lemma_atom_run_is(s, n);
        assert(s[0] == t[0]);
        assert(s.skip(n) =~= seq![d]);
        assert(seq![d].skip(1) =~= Seq::<char>::empty());
        assert(tokens_of(seq![d]) =~= seq![symbol_token(d)]);
        assert(tokens_of(s) =~= seq![Token::Name(t), symbol_token(d)]);
    }
}

/// Behind a text that ends outside an atom, lexing starts afresh.
pub proof fn lemma_tokens_of_concat(a: Seq<char>, b: Seq<char>)
    requires
        ends_outside_atom(a),
    ensures
        tokens_of(a + b) == tokens_of(a) + tokens_of(b),
    decreases a.len(),
{
    let s = a + b;
    if a.len() == 0 {
        assert(s =~= b);
        assert(tokens_of(a) + tokens_of(b) =~= tokens_of(b));
    } else if is_delimiter(a[0]) {
        assert(s[0] == a[0]);
        assert(s.skip(1) =~= a.skip(1) + b);
        if a.skip(1).len() > 0 {
            assert(a.skip(1).last() == a.last());
        }
        lemma_tokens_of_concat(a.skip(1), b);
        assert(tokens_of(s) =~= tokens_of(a) + tokens_of(b));
    } else {
        let n = atom_run(a) as int;
        lemma_atom_run(a);
        if n == a.len() {
            assert(a.take(n)[n - 1] == a.last());
        }
        assert(s[0] == a[0]);
        assert(s.take(n) =~= a.take(n));
        assert(s[n] == a[n]);
        lemma_atom_run_is(s, n);
        assert(s.skip(n) =~= a.skip(n) + b);
        assert(a.skip(n).last() == a.last());
        lemma_tokens_of_concat(a.skip(n), b);
        assert(tokens_of(s) =~= tokens_of(a) + tokens_of(b));
    }
}

/// The literal text of a delimiter's token is that delimiter.
proof fn lemma_symbol_text(c: char)
    requires
        is_delimiter(c),
    ensures
        token_text(symbol_token(c)) == seq![c],
{
}

/// What is out of place in the tail of a text is out of place in the text.
proof fn lemma_open_paren_in_tail(s: Seq<char>, n: int)
    requires
        0 <= n <= s.len(),
        has_open_paren_in_atom(s.skip(n)),
    ensures
        has_open_paren_in_atom(s),
{
    let tail = s.skip(n);
    let i = choose|i: int|
        0 < i < tail.len() && #[trigger] tail[i] == '(' && !is_delimiter(tail[i - 1]);
    assert(s[i + n] == tail[i] && s[i + n - 1] == tail[i - 1]);
}

/// An opening parenthesis behind an atom character in `a + b` stands in `a`,
/// in `b`, or at the start of `b` behind an atom character that ends `a`.
proof fn lemma_open_paren_split(a: Seq<char>, b: Seq<char>)
    requires
        has_open_paren_in_atom(a + b),
    ensures
        has_open_paren_in_atom(a) || has_open_paren_in_atom(b) || (a.len() > 0 && b.len() > 0
            && !is_delimiter(a.last()) && b[0] == '('),
{
    let s = a + b;
    let i = choose|i: int| 0 < i < s.len() && #[trigger] s[i] == '(' && !is_delimiter(s[i - 1]);
    if i < a.len() {
        assert(a[i] == s[i] && a[i - 1] == s[i - 1]);
    } else if i > a.len() {
        assert(b[i - a.len()] == s[i] && b[i - a.len() - 1] == s[i - 1]);
    } else {
        assert(a.last() == s[i - 1] && b[0] == s[i]);
    }
}

/// A delimiter in front of a text adds its symbol in front of the tokens.
proof fn lemma_tokens_behind_delimiter(c: char, tail: Seq<char>)
    requires
        is_delimiter(c),
        ends_outside_atom(tail),
    ensures
        tokens_of(seq![c] + tail) == seq![symbol_token(c)] + tokens_of(tail),
        has_open_paren_in_atom(seq![c] + tail) ==> has_open_paren_in_atom(tail),
        ends_outside_atom(seq![c] + tail),
{
    let head = seq![c];
    let s = head + tail;
    assert(s[0] == c);
    assert(s.skip(1) =~= tail);
    if tail.len() > 0 {
        assert(s.last() == tail.last());
    }
    if has_open_paren_in_atom(s) {
        lemma_open_paren_split(head, tail);
        if has_open_paren_in_atom(head) {
            let i = choose|i: int|
                0 < i < head.len() && #[trigger] head[i] == '(' && !is_delimiter(head[i - 1]);
            assert(false);
        }
    }
}

/// An atom in front of a text that starts with a space or a `)` adds its
/// name in front of the tokens.
proof fn lemma_tokens_behind_atom(n: Seq<char>, tail: Seq<char>)
    requires
        n.len() > 0,
        all_atom_chars(n),
        tail.len() > 0,
        tail[0] == ' ' || tail[0] == ')',
        ends_outside_atom(tail),
    ensures
        tokens_of(n + tail) == seq![Token::Name(n)] + tokens_of(tail),
        has_open_paren_in_atom(n + tail) ==> has_open_paren_in_atom(tail),
        ends_outside_atom(n + tail),
{
    let s = n + tail;
    let len = n.len() as int;
    assert(s.take(len) =~= n);
    assert(s[len] == tail[0]);
    lemma_atom_run_is(s, len);
    assert(s[0] == n[0]);
    assert(s.skip(len) =~= tail);
    assert(s.last() == tail.last());
    if has_open_paren_in_atom(s) {
        lemma_open_paren_split(n, tail);
        if has_open_paren_in_atom(n) {
            let i = choose|i: int|
                0 < i < n.len() && #[trigger] n[i] == '(' && !is_delimiter(n[i - 1]);
            assert(false);
        }
    }
}

/// What is well lexed stays so without its first token.
proof fn lemma_well_lexed_tail(ts: Seq<Token>)
    requires
        well_lexed(ts),
        ts.len() > 0,
    ensures
        well_lexed(ts.skip(1)),
{
    let rest = ts.skip(1);
    assert forall|i: int| 0 <= i < rest.len() implies (#[trigger] rest[i] matches Token::Name(
        n,
    ) ==> {
        &&& n.len() > 0
        &&& all_atom_chars(n)
        &&& i + 1 < rest.len()
        &&& (rest[i + 1] is Space || rest[i + 1] is RightParen)
    }) by {
        assert(rest[i] == ts[i + 1]);
    }
}

/// Lexing undoes rendering: well-lexed tokens are the tokens of their own
/// literal text, which lexes without error and ends outside an atom.
pub proof fn lemma_lex_render(ts: Seq<Token>)
    requires
        well_lexed(ts),
    ensures
        lex(render(ts)) == Ok::<Seq<Token>, LexError>(ts),
        ends_outside_atom(render(ts)),
    decreases ts.len(),
{
    if ts.len() > 0 {
        let rest = ts.skip(1);
        let tail = render(rest);
        lemma_well_lexed_tail(ts);
        lemma_lex_render(rest);
        match ts[0] {
            Token::Name(n) => {
                assert(rest[0] == ts[1]);
                assert(tail[0] == token_text(rest[0])[0]);
                lemma_tokens_behind_atom(n, tail);
            },
            _ => {
                let c = token_text(ts[0])[0];
                assert(token_text(ts[0]) =~= seq![c]);
                assert(symbol_token(c) == ts[0]);
                lemma_tokens_behind_delimiter(c, tail);
            },
        }
        assert(render(ts) == token_text(ts[0]) + tail);
        assert(tokens_of(tail) == rest);
        assert(seq![ts[0]] + rest =~= ts);
        assert(tokens_of(render(ts)) == ts);
    } else {
        assert(ts =~= Seq::<Token>::empty());
        assert(tokens_of(render(ts)) =~= ts);
    }
}

/// Round trip: where a text ends outside an atom, the literal texts of its
/// tokens, one after the other, are the text again.
pub proof fn lemma_render_tokens(s: Seq<char>)
    requires
        ends_outside_atom(s),
    ensures
        render(tokens_of(s)) == s,
        lex(s) matches Ok(ts) ==> render(ts) == s,
    decreases s.len(),
{
    let ts = tokens_of(s);
    if s.len() == 0 {
    } else if is_delimiter(s[0]) {
        let rest = s.skip(1);
        if rest.len() > 0 {
            assert(rest.last() == s.last());
        }
        lemma_render_tokens(rest);
        lemma_symbol_text(s[0]);
        assert(ts.skip(1) =~= tokens_of(rest));
        assert(render(ts) =~= s);
    } else {
        let n = atom_run(s) as int;
        lemma_atom_run(s);
        if n == s.len() {
            assert(s.take(n)[n - 1] == s.last());
        }
        let rest = s.skip(n);
        assert(rest.last() == s.last());
        lemma_render_tokens(rest);
        assert(ts.skip(1) =~= tokens_of(rest));
        assert(render(ts) =~= s);
    }
}

/// An atom at the very end of a text, with no delimiter behind it, leaves no
/// token: the text has the tokens of what stands before that atom.
pub proof fn lemma_trailing_atom_dropped(s: Seq<char>, t: Seq<char>)
    requires
        ends_outside_atom(s),
        all_atom_chars(t),
    ensures
        tokens_of(s + t) == tokens_of(s),
{
    lemma_tokens_of_concat(s, t);
    lemma_tokens_of_atom(t);
    assert(tokens_of(s) + Seq::<Token>::empty() =~= tokens_of(s));
}

/// Where a text lexes without error, its tokens are well lexed.
proof fn lemma_tokens_shape(s: Seq<char>)
    requires
        !has_open_paren_in_atom(s),
    ensures
        well_lexed(tokens_of(s)),
        s.len() > 0 && is_delimiter(s[0]) ==> tokens_of(s).len() > 0 && tokens_of(s)[0]
            == symbol_token(s[0]),
    decreases s.len(),
{
    let ts = tokens_of(s);
    if s.len() > 0 {
        let n: int = if is_delimiter(s[0]) {
            1
        } else {
            atom_run(s) as int
        };
        lemma_atom_run(s);
        if n < s.len() || is_delimiter(s[0]) {
            let rest = s.skip(n);
            if has_open_paren_in_atom(rest) {
                lemma_open_paren_in_tail(s, n);
            }
            lemma_tokens_shape(rest);
            if !is_delimiter(s[0]) {
                assert(ts[1] == tokens_of(rest)[0]);
                assert(s[n - 1] == s.take(n)[n - 1]);
                assert(s[n] != '(');
            }
            assert forall|i: int| 0 <= i < ts.len() implies (#[trigger] ts[i] matches Token::Name(
                name,
            ) ==> {
                &&& name.len() > 0
                &&& all_atom_chars(name)
                &&& i + 1 < ts.len()
                &&& (ts[i + 1] is Space || ts[i + 1] is RightParen)
            }) by {
                if i > 0 {
                    assert(ts[i] == tokens_of(rest)[i - 1]);
                }
            }
        }
    }
}

/// Atom boundaries: the tokens that a text lexes to are well lexed. Every
/// name among them is a whole atom of the text, neither empty nor split nor
/// merged with its neighbour, and a space or a `)` follows it.
pub proof fn lemma_tokens_well_lexed(s: Seq<char>)
    ensures
        lex(s) matches Ok(ts) ==> well_lexed(ts),
{
    if !has_open_paren_in_atom(s) {
        lemma_tokens_shape(s);
    }
}

} // verus!
