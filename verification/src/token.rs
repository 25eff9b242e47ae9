//! The token trees that the `app!` macro receives, as plain values, and the
//! source text that they stand for.
use vstd::prelude::*;

verus! {

/// Whether a punctuation character is immediately followed by another one
/// (as the first `:` of `::` is).
#[derive(Clone, Copy, Debug, PartialEq, Eq, Structural)]
pub enum Spacing {
    Alone,
    Joint,
}

/// The delimiters of a group.
#[derive(Clone, Copy, Debug, PartialEq, Eq, Structural)]
pub enum Delimiter {
    Parenthesis,
    Brace,
    Bracket,
}

/// One token tree of a macro's input.
#[derive(Debug)]
pub enum TokenTree {
    /// An identifier or keyword (a lifetime too).
    Ident(String),
    /// A single punctuation character.
    Punct(char, Spacing),
    /// A literal, by its source text.
    Literal(String),
    /// A delimited group of token trees.
    Group(Delimiter, Vec<TokenTree>),
}

/// The mathematical value of a token tree.
pub enum Token {
    Ident(Seq<char>),
    Punct(char, Spacing),
    Literal(Seq<char>),
    Group(Delimiter, Seq<Token>),
}

impl View for TokenTree {
    type V = Token;

    open spec fn view(&self) -> Token
        decreases self,
    {
        match self {
            TokenTree::Ident(s) => Token::Ident(s@),
            TokenTree::Punct(c, sp) => Token::Punct(*c, *sp),
            TokenTree::Literal(s) => Token::Literal(s@),
            TokenTree::Group(d, v) => Token::Group(*d, views_of(v@)),
        }
    }
}

/// The values of a sequence of token trees.
pub open spec fn views_of(s: Seq<TokenTree>) -> Seq<Token>
    decreases s,
{
    Seq::new(
        s.len(),
        |i: int|
            if 0 <= i < s.len() {
                s[i].view()
            } else {
                Token::Punct(' ', Spacing::Alone)
            },
    )
}

/// The value of a vector of token trees.
pub open spec fn model(v: &Vec<TokenTree>) -> Seq<Token> {
    views_of(v@)
}

pub open spec fn open_char(d: Delimiter) -> char {
    match d {
        Delimiter::Parenthesis => '(',
        Delimiter::Brace => '{',
        Delimiter::Bracket => '[',
    }
}

pub open spec fn close_char(d: Delimiter) -> char {
    match d {
        Delimiter::Parenthesis => ')',
        Delimiter::Brace => '}',
        Delimiter::Bracket => ']',
    }
}

/// The source text of a token: its characters, then a space unless it is a
/// punctuation character joined to the next one. A literal is followed by a
/// line break, which also ends a literal that is a `//` comment.
pub open spec fn token_text(t: Token) -> Seq<char>
    decreases t,
{
    match t {
        Token::Ident(s) => s + seq![' '],
        Token::Literal(s) => s + seq!['\n'],
        Token::Punct(c, Spacing::Alone) => seq![c, ' '],
        Token::Punct(c, Spacing::Joint) => seq![c],
        Token::Group(d, inner) => seq![open_char(d), ' '] + tokens_text(inner) + seq![close_char(d), ' '],
    }
}

/// The source text of a sequence of tokens.
pub open spec fn tokens_text(s: Seq<Token>) -> Seq<char>
    decreases s,
{
    if s.len() == 0 {
        Seq::empty()
    } else {
        tokens_text(s.drop_last()) + token_text(s.last())
    }
}

/// A token with the spacing of its punctuation left out: what is left is
/// what `syn` keeps of it in a syntax tree.
pub open spec fn unspaced(t: Token) -> Token
    decreases t,
{
    match t {
        Token::Punct(c, _) => Token::Punct(c, Spacing::Alone),
        Token::Group(d, inner) => Token::Group(d, unspaced_all(inner)),
        _ => t,
    }
}

/// The tokens `s`, each with the spacing of its punctuation left out.
pub open spec fn unspaced_all(s: Seq<Token>) -> Seq<Token>
    decreases s,
{
    Seq::new(
        s.len(),
        |i: int|
            if 0 <= i < s.len() {
                unspaced(s[i])
            } else {
                Token::Punct(' ', Spacing::Alone)
            },
    )
}

/// The characters of a string.
#[verifier::external_body]
pub(crate) fn string_chars(s: &String) -> (r: Vec<char>)
    ensures
        r@ == s@,
{
    s.chars().collect()
}

fn push_all(out: &mut Vec<char>, s: &Vec<char>)
    ensures
        final(out)@ == old(out)@ + s@,
{
    let mut i: usize = 0;
    while i < s.len()
        invariant
            i <= s.len(),
            out@ == old(out)@ + s@.subrange(0, i as int),
        decreases s.len() - i,
    {
        out.push(s[i]);
        i = i + 1;
        assert(s@.subrange(0, i as int) == s@.subrange(0, i - 1 as int).push(s@[i - 1]));
    }
    assert(s@.subrange(0, s@.len() as int) == s@);
}

impl TokenTree {
    /// Appends the source text of this token tree to `out`.
    pub fn render_into(&self, out: &mut Vec<char>)
        ensures
            final(out)@ == old(out)@ + token_text(self@),
        decreases self,
    {
        match self {
            TokenTree::Ident(s) => {
                let cs = string_chars(s);
                push_all(out, &cs);
                out.push(' ');
                assert(out@ =~= old(out)@ + token_text(self@));
            },
            TokenTree::Literal(s) => {
                let cs = string_chars(s);
                push_all(out, &cs);
                out.push('\n');
                assert(out@ =~= old(out)@ + token_text(self@));
            },
            TokenTree::Punct(c, sp) => {
                out.push(*c);
                match sp {
                    Spacing::Alone => out.push(' '),
                    Spacing::Joint => {},
                }
                assert(out@ =~= old(out)@ + token_text(self@));
            },
            TokenTree::Group(d, inner) => {
                let (o, c) = match d {
                    Delimiter::Parenthesis => ('(', ')'),
                    Delimiter::Brace => ('{', '}'),
                    Delimiter::Bracket => ('[', ']'),
                };
                out.push(o);
                out.push(' ');
                render_from(inner, 0, out);
                assert(model(inner).subrange(0, inner.len() as int) =~= model(inner));
                out.push(c);
                out.push(' ');
                assert(out@ =~= old(out)@ + token_text(self@));
            },
        }
    }
}

impl TokenTree {
    /// Whether this token tree is `other`, the spacing of punctuation
    /// aside.
    pub fn same_as(&self, other: &TokenTree) -> (r: bool)
        ensures
            r == (unspaced(self@) == unspaced(other@)),
        decreases self,
    {
        match (self, other) {
            (TokenTree::Ident(a), TokenTree::Ident(b)) => *a == *b,
            (TokenTree::Literal(a), TokenTree::Literal(b)) => *a == *b,
            (TokenTree::Punct(a, _), TokenTree::Punct(b, _)) => *a == *b,
            (TokenTree::Group(d, a), TokenTree::Group(e, b)) => *d == *e && same_trees(a, b),
            _ => false,
        }
    }
}

/// Whether the token trees `a` are the token trees `b`, the spacing of
/// punctuation aside.
pub fn same_trees(a: &Vec<TokenTree>, b: &Vec<TokenTree>) -> (r: bool)
    ensures
        r == (unspaced_all(model(a)) == unspaced_all(model(b))),
    decreases a,
{
    if a.len() != b.len() {
        assert(unspaced_all(model(a)).len() != unspaced_all(model(b)).len());
        return false;
    }
    let mut i: usize = 0;
    while i < a.len()
        invariant
            i <= a.len() == b.len(),
            forall|j: int| 0 <= j < i ==> unspaced(#[trigger] model(a)[j]) == unspaced(model(b)[j]),
        decreases a.len() - i,
    {
        assert(decreases_to!(a => a[i as int]));
        if !a[i].same_as(&b[i]) {
            assert(unspaced_all(model(a))[i as int] != unspaced_all(model(b))[i as int]);
            return false;
        }
        i = i + 1;
    }
    assert(unspaced_all(model(a)) =~= unspaced_all(model(b)));
    true
}

/// Appends the source text of `toks[from..]` to `out`.
pub fn render_from(toks: &Vec<TokenTree>, from: usize, out: &mut Vec<char>)
    requires
        from <= toks.len(),
    ensures
        final(out)@ == old(out)@ + tokens_text(model(toks).subrange(from as int, toks.len() as int)),
    decreases toks,
{
    let mut i: usize = from;
    while i < toks.len()
        invariant
            from <= i <= toks.len(),
            out@ == old(out)@ + tokens_text(model(toks).subrange(from as int, i as int)),
        decreases toks.len() - i,
    {
        assert(decreases_to!(toks => toks[i as int]));
        toks[i].render_into(out);
        i = i + 1;
        assert(model(toks).subrange(from as int, i as int).drop_last()
            == model(toks).subrange(from as int, i - 1 as int));
    }
}


impl TokenTree {
    /// A copy of this token tree.
    pub fn duplicate(&self) -> (r: TokenTree)
        ensures
            r@ == self@,
        decreases self,
    {
        match self {
            TokenTree::Ident(s) => TokenTree::Ident(s.clone()),
            TokenTree::Punct(c, sp) => TokenTree::Punct(*c, *sp),
            TokenTree::Literal(s) => TokenTree::Literal(s.clone()),
            TokenTree::Group(d, inner) => {
                let v = copy_range(inner, 0, inner.len());
                assert(model(inner).subrange(0, inner.len() as int) =~= model(inner));
                assert(views_of(v@) =~= views_of(inner@));
                TokenTree::Group(*d, v)
            },
        }
    }
}

/// A copy of the token trees `toks[from..to]`.
pub fn copy_range(toks: &Vec<TokenTree>, from: usize, to: usize) -> (r: Vec<TokenTree>)
    requires
        from <= to <= toks.len(),
    ensures
        model(&r) == model(toks).subrange(from as int, to as int),
    decreases toks,
{
    let mut r: Vec<TokenTree> = Vec::new();
    let mut i: usize = from;
    while i < to
        invariant
            from <= i <= to <= toks.len(),
            model(&r) == model(toks).subrange(from as int, i as int),
        decreases to - i,
    {
        assert(decreases_to!(toks => toks[i as int]));
        let t = toks[i].duplicate();
        proof {
            lemma_views_push(r@, t);
        }
        r.push(t);
        i = i + 1;
        assert(model(&r) =~= model(toks).subrange(from as int, i as int));
    }
    r
}

/// The source text of `toks[from..]`.
pub fn text_from(toks: &Vec<TokenTree>, from: usize) -> (r: Vec<char>)
    requires
        from <= toks.len(),
    ensures
        r@ == tokens_text(model(toks).subrange(from as int, toks.len() as int)),
{
    let mut out: Vec<char> = Vec::new();
    render_from(toks, from, &mut out);
    assert(out@ =~= tokens_text(model(toks).subrange(from as int, toks.len() as int)));
    out
}


pub proof fn lemma_views_push(s: Seq<TokenTree>, t: TokenTree)
    ensures
        views_of(s.push(t)) == views_of(s).push(t@),
{
    assert(views_of(s.push(t)) =~= views_of(s).push(t@));
}

} // verus!
