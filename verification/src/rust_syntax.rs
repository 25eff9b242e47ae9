//! What `syn` decides about pieces of Rust syntax: identifiers, integer
//! literals, paths, types and expressions.
//!
//! Which words `syn` takes for identifiers is stated and checked here.
//! For the rest, each function hands source text to `syn` (through
//! `proc-macro2`'s lexer, which rejects the malformed number literals that
//! `syn`'s literal code would panic on) and reports what it made of it;
//! nothing of that is proved: the contracts name `syn`'s answers.
use vstd::prelude::*;
use crate::token::string_chars;

verus! {

/// The keywords that `syn::Ident`'s parser refuses.
pub open spec fn reserved_words() -> Seq<Seq<char>> {
    seq![
        "abstract"@, "alignof"@, "as"@, "become"@, "box"@, "break"@, "const"@, "continue"@,
        "crate"@, "do"@, "else"@, "enum"@, "extern"@, "false"@, "final"@, "fn"@, "for"@, "if"@,
        "impl"@, "in"@, "let"@, "loop"@, "macro"@, "match"@, "mod"@, "move"@, "mut"@, "offsetof"@,
        "override"@, "priv"@, "proc"@, "pub"@, "pure"@, "ref"@, "return"@, "Self"@, "self"@,
        "sizeof"@, "static"@, "struct"@, "super"@, "trait"@, "true"@, "type"@, "typeof"@, "unsafe"@,
        "unsized"@, "use"@, "virtual"@, "where"@, "while"@, "yield"@,
    ]
}

/// Whether `syn::Ident`'s parser accepts the word `name`: it refuses a
/// lifetime and a keyword.
pub open spec fn syn_accepts_ident(name: Seq<char>) -> bool {
    !(name.len() > 0 && name[0] == '\'') && !reserved_words().contains(name)
}

/// Whether `syn::Ident`'s parser accepts the word `name`.
pub fn accepts_ident(name: &String) -> (r: bool)
    ensures
        r == syn_accepts_ident(name@),
{
    let cs = string_chars(name);
    if cs.len() > 0 && cs[0] == '\'' {
        return false;
    }
    let words: Vec<&str> = vec![
        "abstract", "alignof", "as", "become", "box", "break", "const", "continue", "crate", "do",
        "else", "enum", "extern", "false", "final", "fn", "for", "if", "impl", "in", "let", "loop",
        "macro", "match", "mod", "move", "mut", "offsetof", "override", "priv", "proc", "pub",
        "pure", "ref", "return", "Self", "self", "sizeof", "static", "struct", "super", "trait",
        "true", "type", "typeof", "unsafe", "unsized", "use", "virtual", "where", "while", "yield",
    ];
    assert(words@.map_values(|w: &str| w@) =~= reserved_words());
    let mut i: usize = 0;
    while i < words.len()
        invariant
            i <= words.len(),
            words@.map_values(|w: &str| w@) == reserved_words(),
            forall|j: int| 0 <= j < i ==> reserved_words()[j] != name@,
        decreases words.len() - i,
    {
        assert(words@[i as int]@ == reserved_words()[i as int]);
        if *name == String::from_str(words[i]) {
            return false;
        }
        i = i + 1;
    }
    true
}

/// The value that `syn::LitInt::value` gives for the integer literal
/// `text`, or `None` where `syn` does not read `text` as an integer literal.
pub uninterp spec fn syn_lit_int_value(text: Seq<char>) -> Option<u64>;

/// Where `syn::Path`'s parser accepts a prefix of the token trees of
/// `text`: the number of top-level token trees that follow that prefix.
/// `None` where the text does not lex or no prefix is a path.
pub uninterp spec fn syn_path_prefix(text: Seq<char>) -> Option<usize>;

/// As `syn_path_prefix`, for `syn::Type`'s parser.
pub uninterp spec fn syn_type_prefix(text: Seq<char>) -> Option<usize>;

/// As `syn_path_prefix`, for `syn::Expr`'s parser.
pub uninterp spec fn syn_expr_prefix(text: Seq<char>) -> Option<usize>;

/// Calls `syn::parse_str::<syn::LitInt>` on `text` and, where it succeeds,
/// `syn::LitInt::value` (which cannot panic on a literal that `syn`
/// classified as an integer).
#[verifier::external_body]
pub(crate) fn lit_int_value(text: &String) -> (r: Option<u64>)
    ensures
        r == syn_lit_int_value(text@),
{
    match syn::parse_str::<syn::LitInt>(text) {
        Ok(lit) => Some(lit.value()),
        Err(_) => None,
    }
}

/// Lexes `text` with `proc-macro2` and runs `<syn::Path as Synom>::parse`
/// at its start; on success, counts the token trees left after the path.
#[verifier::external_body]
pub(crate) fn path_prefix(text: &Vec<char>) -> (r: Option<usize>)
    ensures
        r == syn_path_prefix(text@),
{
    let s: String = text.iter().collect();
    let ts: proc_macro2::TokenStream = match s.parse() {
        Ok(ts) => ts,
        Err(_) => return None,
    };
    let buf = syn::buffer::TokenBuffer::new2(ts);
    match <syn::Path as syn::synom::Synom>::parse(buf.begin()) {
        Ok((_, rest)) => Some(rest.token_stream().into_iter().count()),
        Err(_) => None,
    }
}

/// Lexes `text` with `proc-macro2` and runs `<syn::Type as Synom>::parse`
/// at its start; on success, counts the token trees left after the type.
#[verifier::external_body]
pub(crate) fn type_prefix(text: &Vec<char>) -> (r: Option<usize>)
    ensures
        r == syn_type_prefix(text@),
{
    let s: String = text.iter().collect();
    let ts: proc_macro2::TokenStream = match s.parse() {
        Ok(ts) => ts,
        Err(_) => return None,
    };
    let buf = syn::buffer::TokenBuffer::new2(ts);
    match <syn::Type as syn::synom::Synom>::parse(buf.begin()) {
        Ok((_, rest)) => Some(rest.token_stream().into_iter().count()),
        Err(_) => None,
    }
}

/// Lexes `text` with `proc-macro2` and runs `<syn::Expr as Synom>::parse`
/// at its start; on success, counts the token trees left after the
/// expression.
#[verifier::external_body]
pub(crate) fn expr_prefix(text: &Vec<char>) -> (r: Option<usize>)
    ensures
        r == syn_expr_prefix(text@),
{
    let s: String = text.iter().collect();
    let ts: proc_macro2::TokenStream = match s.parse() {
        Ok(ts) => ts,
        Err(_) => return None,
    };
    let buf = syn::buffer::TokenBuffer::new2(ts);
    match <syn::Expr as syn::synom::Synom>::parse(buf.begin()) {
        Ok((_, rest)) => Some(rest.token_stream().into_iter().count()),
        Err(_) => None,
    }
}

} // verus!
