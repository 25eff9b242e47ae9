use rtfm_syntax::error::exit_err;
use rtfm_syntax::rust_syntax::accepts_ident;
use rtfm_syntax::token::{same_trees, text_from, Delimiter, Spacing, TokenTree};
use rtfm_syntax::util::{is_ident, mk_path, try_mk_path};

#[test]
fn rendering() {
    let toks = vec![
        TokenTree::Ident("main".to_string()),
        TokenTree::Punct(':', Spacing::Joint),
        TokenTree::Punct(':', Spacing::Alone),
        TokenTree::Ident("init".to_string()),
        TokenTree::Group(Delimiter::Bracket, vec![TokenTree::Literal("4".to_string())]),
    ];
    let text: String = text_from(&toks, 0).into_iter().collect();
    assert_eq!(text, "main :: init [ 4\n] ");
    let text: String = text_from(&toks, 3).into_iter().collect();
    assert_eq!(text, "init [ 4\n] ");
}

#[test]
fn duplicate_copies_a_tree() {
    let t = TokenTree::Group(
        Delimiter::Brace,
        vec![TokenTree::Ident("a".to_string()), TokenTree::Punct(',', Spacing::Alone)],
    );
    match t.duplicate() {
        TokenTree::Group(Delimiter::Brace, v) => {
            assert_eq!(v.len(), 2);
            assert!(matches!(&v[0], TokenTree::Ident(s) if s == "a"));
        }
        _ => panic!("not a group"),
    }
}

#[test]
fn mk_path_makes_one_segment() {
    let p = mk_path("idle");
    assert_eq!(p.tokens.len(), 1);
    assert!(matches!(&p.tokens[0], TokenTree::Ident(s) if s == "idle"));
}

#[test]
fn exit_err_raises_a_diagnostic() {
    let r = exit_err::<u8>(7, "parse error".to_string());
    let d = r.unwrap_err().diagnostic.unwrap();
    assert_eq!(d.at, 7);
    assert_eq!(d.message, "parse error");
}

#[test]
fn identifiers_that_mk_path_takes() {
    assert!(is_ident("idle"));
    assert!(is_ident("_x"));
    assert!(is_ident("fn"));
    assert!(is_ident("x1"));
    assert!(is_ident("été"));
    assert!(!is_ident(""));
    assert!(!is_ident("_"));
    assert!(!is_ident("42"));
    assert!(!is_ident("4x"));
    assert!(!is_ident("'a"));
    assert!(!is_ident("a::b"));
    assert!(!is_ident("a b"));
    assert!(try_mk_path("42").is_none());
    let p = try_mk_path("init").unwrap();
    assert!(matches!(&p.tokens[0], TokenTree::Ident(s) if s == "init"));
}

#[test]
fn words_that_syn_takes_for_identifiers() {
    assert!(accepts_ident(&"init".to_string()));
    assert!(accepts_ident(&"_".to_string()));
    assert!(accepts_ident(&"Static".to_string()));
    assert!(!accepts_ident(&"static".to_string()));
    assert!(!accepts_ident(&"Self".to_string()));
    assert!(!accepts_ident(&"yield".to_string()));
    assert!(!accepts_ident(&"'a".to_string()));
}

#[test]
fn spacing_does_not_tell_trees_apart() {
    let joint = vec![TokenTree::Punct('>', Spacing::Joint), TokenTree::Punct('>', Spacing::Alone)];
    let apart = vec![TokenTree::Punct('>', Spacing::Alone), TokenTree::Punct('>', Spacing::Alone)];
    assert!(same_trees(&joint, &apart));
    let group = |v: Vec<TokenTree>| vec![TokenTree::Group(Delimiter::Bracket, v)];
    assert!(same_trees(&group(joint), &group(apart)));
    let other = vec![TokenTree::Punct('<', Spacing::Alone), TokenTree::Punct('>', Spacing::Alone)];
    let apart = vec![TokenTree::Punct('>', Spacing::Alone), TokenTree::Punct('>', Spacing::Alone)];
    assert!(!same_trees(&other, &apart));
    assert!(!same_trees(&apart, &apart[..1].iter().map(|t| t.duplicate()).collect()));
    assert!(!same_trees(
        &vec![TokenTree::Ident("a".to_string())],
        &vec![TokenTree::Literal("a".to_string())]
    ));
}
