//! Rust paths, types and expressions, kept as the token trees that `syn`
//! accepted as one.
use vstd::prelude::*;
use crate::error::Cursor;
use crate::grammar::{failed, Grammar, Outcome, Step};
use crate::separated::{grammar_fn, never_panics};
use crate::rust_syntax::{
    expr_prefix, path_prefix, syn_expr_prefix, syn_path_prefix, syn_type_prefix, type_prefix,
};
use crate::token::{copy_range, model, same_trees, text_from, tokens_text, unspaced, unspaced_all, Token, TokenTree};
use vstd::std_specs::cmp::PartialEqSpec;

verus! {

/// The tokens from `pos` on, read as one piece of syntax that ends where
/// `syn` says that `rest` token trees remain; nothing where `syn` refused
/// it or would read no token.
pub open spec fn prefix_outcome(rest: Option<usize>, toks: Seq<Token>, pos: int) -> Outcome<Seq<Token>> {
    match rest {
        Some(n) => if 0 <= pos && (n as int) < toks.len() - pos {
            Outcome::Parsed(toks.subrange(pos, toks.len() - n), toks.len() - n)
        } else {
            Outcome::Failed(None)
        },
        None => Outcome::Failed(None),
    }
}

/// The source text of the tokens from `pos` on.
pub open spec fn text_after(toks: Seq<Token>, pos: int) -> Seq<char> {
    tokens_text(toks.subrange(pos, toks.len() as int))
}

/// The piece of syntax that begins at `pos` and ends where `rest` token
/// trees remain, copied; a failure where `rest` leaves no token to it.
pub fn cut_prefix(toks: &Vec<TokenTree>, pos: Cursor, rest: Option<usize>) -> (r: Step<Vec<TokenTree>>)
    requires
        pos <= toks.len(),
    ensures
        match (r, prefix_outcome(rest, model(toks), pos as int)) {
            (Step::Parsed(v, e), Outcome::Parsed(w, f)) => model(&v) == w && e == f,
            (Step::Failed(err), Outcome::Failed(d)) => err@ == d,
            _ => false,
        },
{
    assert(model(toks).len() == toks.len());
    match rest {
        Some(n) => {
            if n < toks.len() - pos {
                let end = toks.len() - n;
                Step::Parsed(copy_range(toks, pos, end), end)
            } else {
                failed()
            }
        },
        None => failed(),
    }
}

/// A path, such as `main::init`.
#[derive(Debug)]
pub struct Path {
    pub tokens: Vec<TokenTree>,
}

/// Two paths are equal where they hold the same tokens, the spacing of
/// punctuation aside, as `syn` compares them: `Vec<Vec<u8>>` and
/// `Vec<Vec<u8> >` are one path.
impl PartialEq for Path {
    fn eq(&self, other: &Path) -> (r: bool) {
        same_trees(&self.tokens, &other.tokens)
    }
}

impl vstd::std_specs::cmp::PartialEqSpecImpl for Path {
    open spec fn obeys_eq_spec() -> bool {
        true
    }

    open spec fn eq_spec(&self, other: &Path) -> bool {
        unspaced_all(self@) == unspaced_all(other@)
    }
}

/// A type, such as `u32` or `[u8; 4]`.
#[derive(Debug)]
pub struct Type {
    pub tokens: Vec<TokenTree>,
}

/// An expression, such as `3 + 3`.
#[derive(Debug)]
pub struct Expr {
    pub tokens: Vec<TokenTree>,
}

impl View for Path {
    type V = Seq<Token>;

    open spec fn view(&self) -> Seq<Token> {
        model(&self.tokens)
    }
}

impl View for Type {
    type V = Seq<Token>;

    open spec fn view(&self) -> Seq<Token> {
        model(&self.tokens)
    }
}

impl View for Expr {
    type V = Seq<Token>;

    open spec fn view(&self) -> Seq<Token> {
        model(&self.tokens)
    }
}

impl Path {
    /// A copy of this path.
    pub fn duplicate(&self) -> (r: Path)
        ensures
            r@ == self@,
    {
        let tokens = copy_range(&self.tokens, 0, self.tokens.len());
        assert(model(&self.tokens).subrange(0, self.tokens.len() as int) =~= model(&self.tokens));
        Path { tokens }
    }
}

impl Grammar for Path {
    open spec fn outcome(toks: Seq<Token>, pos: int) -> Outcome<Seq<Token>> {
        prefix_outcome(syn_path_prefix(text_after(toks, pos)), toks, pos)
    }

    proof fn lemma_progress(toks: Seq<Token>, pos: int) {
    }

    fn parse_step(toks: &Vec<TokenTree>, pos: Cursor) -> (r: Step<Path>) {
        let text = text_from(toks, pos);
        match cut_prefix(toks, pos, path_prefix(&text)) {
            Step::Parsed(tokens, e) => Step::Parsed(Path { tokens }, e),
            Step::Failed(err) => Step::Failed(err),
            Step::Panicked => Step::Panicked,
        }
    }
}

impl Grammar for Type {
    open spec fn outcome(toks: Seq<Token>, pos: int) -> Outcome<Seq<Token>> {
        prefix_outcome(syn_type_prefix(text_after(toks, pos)), toks, pos)
    }

    proof fn lemma_progress(toks: Seq<Token>, pos: int) {
    }

    fn parse_step(toks: &Vec<TokenTree>, pos: Cursor) -> (r: Step<Type>) {
        let text = text_from(toks, pos);
        match cut_prefix(toks, pos, type_prefix(&text)) {
            Step::Parsed(tokens, e) => Step::Parsed(Type { tokens }, e),
            Step::Failed(err) => Step::Failed(err),
            Step::Panicked => Step::Panicked,
        }
    }
}

impl Grammar for Expr {
    open spec fn outcome(toks: Seq<Token>, pos: int) -> Outcome<Seq<Token>> {
        prefix_outcome(syn_expr_prefix(text_after(toks, pos)), toks, pos)
    }

    proof fn lemma_progress(toks: Seq<Token>, pos: int) {
    }

    fn parse_step(toks: &Vec<TokenTree>, pos: Cursor) -> (r: Step<Expr>) {
        let text = text_from(toks, pos);
        match cut_prefix(toks, pos, expr_prefix(&text)) {
            Step::Parsed(tokens, e) => Step::Parsed(Expr { tokens }, e),
            Step::Failed(err) => Step::Failed(err),
            Step::Panicked => Step::Panicked,
        }
    }
}

/// Paths, types and expressions never make their parsers panic.
pub proof fn lemma_syntax_never_panics(toks: Seq<Token>)
    ensures
        never_panics(grammar_fn::<Path>(toks)),
        never_panics(grammar_fn::<Type>(toks)),
        never_panics(grammar_fn::<Expr>(toks)),
{
}

/// A path, a type or an expression read from `pos` holds exactly the
/// tokens that were read, at least one; it ends where `syn` says that the
/// rest of the token trees begins, and nothing is read where `syn` reads
/// no such piece of syntax.
pub proof fn law_syntax_holds_what_it_read(toks: Seq<Token>, pos: int)
    requires
        0 <= pos <= toks.len(),
    ensures
        Path::outcome(toks, pos) matches Outcome::Parsed(v, e) ==> pos < e <= toks.len() && v == toks.subrange(
            pos,
            e,
        ),
        Type::outcome(toks, pos) matches Outcome::Parsed(v, e) ==> pos < e <= toks.len() && v == toks.subrange(
            pos,
            e,
        ),
        Expr::outcome(toks, pos) matches Outcome::Parsed(v, e) ==> pos < e <= toks.len() && v == toks.subrange(
            pos,
            e,
        ),
        syn_path_prefix(text_after(toks, pos)) matches Some(n) ==> ((n as int) < toks.len() - pos
            ==> (Path::outcome(toks, pos) matches Outcome::Parsed(_, e) && e == toks.len() - n)),
        syn_type_prefix(text_after(toks, pos)) matches Some(n) ==> ((n as int) < toks.len() - pos
            ==> (Type::outcome(toks, pos) matches Outcome::Parsed(_, e) && e == toks.len() - n)),
        syn_expr_prefix(text_after(toks, pos)) matches Some(n) ==> ((n as int) < toks.len() - pos
            ==> (Expr::outcome(toks, pos) matches Outcome::Parsed(_, e) && e == toks.len() - n)),
        syn_path_prefix(text_after(toks, pos)) is None ==> Path::outcome(toks, pos) is Failed,
        syn_type_prefix(text_after(toks, pos)) is None ==> Type::outcome(toks, pos) is Failed,
        syn_expr_prefix(text_after(toks, pos)) is None ==> Expr::outcome(toks, pos) is Failed,
{
}

/// Two paths compare equal exactly when they have the same tokens, the
/// spacing of punctuation aside; so a path equals itself, and `==` on paths
/// is symmetric.
pub proof fn law_paths_equal_when_same_tokens(a: Path, b: Path)
    ensures
        Path::obeys_eq_spec(),
        a.eq_spec(&b) <==> (a@.len() == b@.len() && forall|i: int|
            0 <= i < a@.len() ==> unspaced(#[trigger] a@[i]) == unspaced(b@[i])),
        a.eq_spec(&a),
        a.eq_spec(&b) == b.eq_spec(&a),
{
    if a@.len() == b@.len() && forall|i: int| 0 <= i < a@.len() ==> unspaced(#[trigger] a@[i]) == unspaced(b@[i]) {
        assert(unspaced_all(a@) =~= unspaced_all(b@));
    }
    assert(unspaced_all(a@).len() == a@.len());
    assert(unspaced_all(b@).len() == b@.len());
    if a.eq_spec(&b) {
        assert forall|i: int| 0 <= i < a@.len() implies unspaced(#[trigger] a@[i]) == unspaced(b@[i]) by {
            assert(unspaced_all(a@)[i] == unspaced(a@[i]));
            assert(unspaced_all(b@)[i] == unspaced(b@[i]));
        }
    }
}

} // verus!
