use rtfm_syntax::grammar::{Comma, Element, Grammar, Semicolon, Step};
use rtfm_syntax::separated::{Pu, SeparatedNonEmpty, Separated, Terminated};
use rtfm_syntax::token::{Spacing, TokenTree};

fn ident(s: &str) -> TokenTree {
    TokenTree::Ident(s.to_string())
}

fn comma() -> TokenTree {
    TokenTree::Punct(',', Spacing::Alone)
}

fn words(pu: Pu<String, Comma>) -> Vec<String> {
    pu.into_vec()
}

#[test]
fn separated_reads_every_element() {
    let toks = vec![ident("a"), comma(), ident("b"), comma(), ident("c")];
    let (pu, end) = Pu::<String, Comma>::parse_separated(&toks, 0).unwrap();
    assert_eq!(end, 5);
    assert_eq!(words(pu), vec!["a", "b", "c"]);
}

#[test]
fn separated_refuses_a_trailing_separator() {
    let toks = vec![ident("a"), comma(), ident("b"), comma()];
    let err = Pu::<String, Comma>::parse_separated(&toks, 0).unwrap_err();
    let d = err.diagnostic.unwrap();
    assert_eq!(d.at, 3);
    assert_eq!(d.message, "excessive separator");
}

#[test]
fn terminated_accepts_a_trailing_separator() {
    let toks = vec![ident("a"), comma(), ident("b"), comma()];
    let (pu, end) = Pu::<String, Comma>::parse_terminated(&toks, 0).unwrap();
    assert_eq!(end, 4);
    assert_eq!(words(pu), vec!["a", "b"]);
}

#[test]
fn empty_input() {
    let toks: Vec<TokenTree> = vec![];
    let (pu, end) = Pu::<String, Comma>::parse_separated(&toks, 0).unwrap();
    assert_eq!(end, 0);
    assert!(pu.is_empty());
    let (pu, _) = Pu::<String, Comma>::parse_terminated(&toks, 0).unwrap();
    assert_eq!(pu.len(), 0);
    let err = Pu::<String, Comma>::parse_separated_nonempty(&toks, 0).unwrap_err();
    let d = err.diagnostic.unwrap();
    assert_eq!(d.at, 0);
    assert_eq!(d.message, "expected sequence of separated elements");
    let err = Pu::<String, Comma>::parse_terminated_nonempty(&toks, 0).unwrap_err();
    assert!(err.diagnostic.is_none());
}

#[test]
fn an_element_that_does_not_parse() {
    // `static` is a keyword, no identifier
    let toks = vec![ident("a"), comma(), ident("static")];
    let err = Pu::<String, Comma>::parse_separated(&toks, 0).unwrap_err();
    let d = err.diagnostic.unwrap();
    assert_eq!(d.at, 2);
    assert_eq!(d.message, "parse error");

    let toks = vec![TokenTree::Literal("1".to_string())];
    let err = Pu::<String, Comma>::parse_terminated(&toks, 0).unwrap_err();
    assert_eq!(err.diagnostic.unwrap().at, 0);
}

#[test]
fn a_missing_separator() {
    let toks = vec![ident("a"), ident("b")];
    let err = Pu::<String, Comma>::parse_separated(&toks, 0).unwrap_err();
    let d = err.diagnostic.unwrap();
    assert_eq!(d.at, 1);
    assert_eq!(d.message, "parse error");
}

#[test]
fn a_list_from_a_position() {
    let toks = vec![ident("x"), ident("a"), comma(), ident("b")];
    let (pu, end) = Pu::<String, Comma>::parse_separated_nonempty(&toks, 1).unwrap();
    assert_eq!(end, 4);
    assert_eq!(words(pu), vec!["a", "b"]);
}

#[test]
fn with_an_element_parser() {
    let toks = vec![ident("a"), TokenTree::Punct(';', Spacing::Alone), ident("b")];
    let (pu, end) = Pu::<String, Semicolon>::parse_separated_with(&toks, 0, &Element::new()).unwrap();
    assert_eq!(end, 3);
    assert_eq!(pu.into_vec(), vec!["a", "b"]);
    let (pu, _) = Pu::<String, Semicolon>::parse_terminated_nonempty_with(&toks, 0, &Element::new()).unwrap();
    assert_eq!(pu.len(), 2);
    assert!(Pu::<String, Comma>::parse_separated_nonempty_with(&toks, 0, &Element::new()).is_err());
    assert!(Pu::<String, Comma>::parse_terminated_with(&toks, 0, &Element::new()).is_err());
}

#[test]
fn push_and_pop() {
    let mut pu: Pu<String, Comma> = Pu::new();
    assert!(pu.is_empty());
    assert_eq!(pu.pop(), None);
    pu.push("a".to_string());
    assert_eq!(pu.len(), 1);
    assert!(!pu.is_empty());
    assert_eq!(pu.pop(), Some("a".to_string()));
    assert!(pu.is_empty());
    pu.push("b".to_string());
    assert_eq!(pu.into_vec(), vec!["b"]);
}

#[test]
fn list_nodes() {
    let toks = vec![ident("a"), comma(), ident("b"), comma()];
    assert!(Separated::<String, Comma>::parse(&toks, 0).is_err());
    assert!(Terminated::<String, Comma>::parse(&toks, 0).is_ok());
    let toks = vec![ident("a"), comma(), ident("b")];
    let (s, end) = Separated::<String, Comma>::parse(&toks, 0).unwrap();
    assert_eq!(end, 3);
    let _ = s;
    let empty: Vec<TokenTree> = vec![];
    assert!(Separated::<String, Comma>::parse(&empty, 0).is_ok());
    match SeparatedNonEmpty::<String, Comma>::parse_step(&toks, 0) {
        Step::Parsed(s, end) => {
            assert_eq!(end, 3);
            assert_eq!(s.into_pu().into_vec(), vec!["a", "b"]);
        }
        _ => panic!("not parsed"),
    }
    assert!(matches!(SeparatedNonEmpty::<String, Comma>::parse_step(&empty, 0), Step::Failed(_)));
}
