use proc_macro2::{TokenNode, TokenStream};
use rtfm_syntax::error::Error;
use rtfm_syntax::token::{Delimiter, Spacing, TokenTree};
use rtfm_syntax::App;

fn convert(ts: TokenStream, out: &mut Vec<TokenTree>) {
    for tt in ts {
        match tt.kind {
            TokenNode::Term(t) => out.push(TokenTree::Ident(t.as_str().to_string())),
            TokenNode::Op(c, proc_macro2::Spacing::Alone) => out.push(TokenTree::Punct(c, Spacing::Alone)),
            TokenNode::Op(c, proc_macro2::Spacing::Joint) => out.push(TokenTree::Punct(c, Spacing::Joint)),
            TokenNode::Literal(l) => out.push(TokenTree::Literal(l.to_string())),
            TokenNode::Group(d, inner) => {
                let mut v = Vec::new();
                convert(inner, &mut v);
                match d {
                    proc_macro2::Delimiter::Parenthesis => out.push(TokenTree::Group(Delimiter::Parenthesis, v)),
                    proc_macro2::Delimiter::Brace => out.push(TokenTree::Group(Delimiter::Brace, v)),
                    proc_macro2::Delimiter::Bracket => out.push(TokenTree::Group(Delimiter::Bracket, v)),
                    proc_macro2::Delimiter::None => out.extend(v),
                }
            }
        }
    }
}

fn lex(s: &str) -> Vec<TokenTree> {
    let mut out = Vec::new();
    convert(s.parse().unwrap(), &mut out);
    out
}

fn words(path: &rtfm_syntax::syntax::Path) -> Vec<String> {
    path.tokens
        .iter()
        .map(|t| match t {
            TokenTree::Ident(s) => s.clone(),
            TokenTree::Punct(c, _) => c.to_string(),
            TokenTree::Literal(s) => s.clone(),
            TokenTree::Group(..) => "()".to_string(),
        })
        .collect()
}

fn parse(s: &str) -> Result<App, Error> {
    App::try_parse(&lex(s)).expect("the parser would panic")
}

#[test]
fn full_app() {
    let app = parse(
        "device: stm32f103xx,
         resources: { static X: u32 = 3 + 3; static Y: [u8; 4]; },
         init: { path: main::init, resources: [X, Y] },
         idle: { path: main::idle, resources: [X] },
         tasks: {
             EXTI0: { path: exti0, priority: 1, resources: [X], enabled: true },
             EXTI1: { priority: 255, enabled: false, interarrival: 10 },
         },",
    )
    .unwrap();
    assert_eq!(words(&app.device), vec!["stm32f103xx"]);

    let init = app.init.as_ref().unwrap();
    assert_eq!(words(init.path.as_ref().unwrap()), vec!["main", ":", ":", "init"]);
    let res = init.resources.as_ref().unwrap();
    assert!(res.contains("X") && res.contains("Y") && !res.contains("Z"));

    let idle = app.idle.as_ref().unwrap();
    assert_eq!(words(idle.path.as_ref().unwrap()), vec!["main", ":", ":", "idle"]);
    assert!(idle.resources.as_ref().unwrap().contains("X"));
    assert!(!idle.resources.as_ref().unwrap().contains("Y"));

    let statics = app.resources.as_ref().unwrap();
    let x = statics.get("X").unwrap();
    assert_eq!(x.ty.tokens.len(), 1);
    assert_eq!(x.expr.as_ref().unwrap().tokens.len(), 3);
    let y = statics.get("Y").unwrap();
    assert_eq!(y.ty.tokens.len(), 1);
    assert!(y.expr.is_none());
    assert!(statics.get("Z").is_none());

    let tasks = app.tasks.as_ref().unwrap();
    let t0 = tasks.get("EXTI0").unwrap();
    assert_eq!(words(t0.path.as_ref().unwrap()), vec!["exti0"]);
    assert_eq!(t0.priority, Some(1));
    assert_eq!(t0.enabled, Some(true));
    assert!(t0.resources.as_ref().unwrap().contains("X"));
    assert_eq!(t0.interarrival, None);
    let t1 = tasks.get("EXTI1").unwrap();
    assert_eq!(t1.priority, Some(255));
    assert_eq!(t1.interarrival, Some(10));
    assert_eq!(t1.enabled, Some(false));
    assert!(t1.path.is_none());
    assert!(tasks.get("EXTI2").is_none());
}

#[test]
fn device_alone() {
    let app = parse("device: ::stm32::f103").unwrap();
    assert_eq!(words(&app.device), vec![":", ":", "stm32", ":", ":", "f103"]);
    assert!(app.init.is_none() && app.idle.is_none());
    assert!(app.resources.is_none() && app.tasks.is_none());
}

#[test]
fn trailing_comma_at_top_level() {
    assert!(parse("device: stm32f103xx,").is_ok());
}

#[test]
fn device_missing() {
    assert!(matches!(parse("init: { path: main::init }"), Err(Error::DeviceMissing)));
}

#[test]
fn device_must_be_a_path() {
    assert!(matches!(parse("device: { stm32 }"), Err(Error::DeviceNotPath)));
}

fn duplicates(s: &str) -> Vec<(String, usize, usize)> {
    match parse(s) {
        Err(Error::Duplicates(v)) => v.into_iter().map(|d| (d.name, d.at, d.first)).collect(),
        other => panic!("unexpected: {:?}", other),
    }
}

#[test]
fn duplicate_fields() {
    assert_eq!(duplicates("device: a, idle: { path: b }, device: c"), vec![("device".to_string(), 8, 0)]);
    assert_eq!(duplicates("init: { path: b }, init: { path: c }"), vec![("init".to_string(), 4, 0)]);
}

#[test]
fn every_repeat_is_reported() {
    assert_eq!(
        duplicates("a: x, a: y, a: z"),
        vec![("a".to_string(), 4, 0), ("a".to_string(), 8, 0)]
    );
    assert_eq!(
        duplicates("device: d, b: x, device: e, b: y"),
        vec![("device".to_string(), 8, 0), ("b".to_string(), 12, 4)]
    );
}

#[test]
fn illegal_field() {
    match parse("device: a, interrupts: { }") {
        Err(Error::IllegalField(name)) => assert_eq!(name, "interrupts"),
        other => panic!("unexpected: {:?}", other),
    }
}

#[test]
fn path_given_twice_in_init() {
    assert!(matches!(parse("device: a, init: { path: x, path: y }"), Err(Error::PathTwice)));
}

#[test]
fn resources_given_twice_in_idle() {
    assert!(matches!(
        parse("device: a, idle: { resources: [A], resources: [B] }"),
        Err(Error::ResourcesTwice)
    ));
}

#[test]
fn syntax_errors() {
    assert!(matches!(parse(""), Err(Error::Syntax)));
    assert!(matches!(parse("device stm32"), Err(Error::Syntax)));
    assert!(matches!(parse("device: a,, idle: { path: b }"), Err(Error::Syntax)));
    // a keyword is no field name
    assert!(matches!(parse("static: a"), Err(Error::Syntax)));
}

#[test]
fn first_error_wins() {
    // the fields are read in order
    assert!(matches!(parse("foo: a, device: { b }"), Err(Error::IllegalField(_))));
    assert!(matches!(parse("device: { b }, foo: a"), Err(Error::DeviceNotPath)));
}

#[test]
fn later_resource_replaces_earlier() {
    let app = parse("device: a, resources: { static X: u32 = 1; static X: u8 }").unwrap();
    let x = app.resources.as_ref().unwrap().get("X").unwrap();
    assert!(x.expr.is_none());
}

#[test]
fn panicking_inputs() {
    // a path where a block belongs
    assert!(App::try_parse(&lex("device: a, resources: b")).is_none());
    assert!(App::try_parse(&lex("device: a, init: b")).is_none());
    // contents that cannot be read
    assert!(App::try_parse(&lex("device: a, resources: { X: u32 }")).is_none());
    assert!(App::try_parse(&lex("device: a, tasks: { T: { priority: x } }")).is_none());
    // an unknown field name followed by a type
    assert!(App::try_parse(&lex("device: a, idle: { foo bar }")).is_none());
    // an unknown field name followed by a colon is not read either
    assert!(App::try_parse(&lex("device: a, idle: { foo: bar }")).is_none());
}

#[test]
fn idle_given_twice_is_kept_once() {
    // the duplicate check comes first
    assert!(matches!(parse("device: a, idle: { path: x }, idle: { path: y }"), Err(Error::Duplicates(_))));
}

#[test]
fn interarrival_is_read() {
    let app = parse("device: d, tasks: { T: { interarrival: 10 } }").unwrap();
    let t = app.tasks.as_ref().unwrap().get("T").unwrap();
    assert_eq!(t.interarrival, Some(10));
    assert_eq!(t.priority, None);
    assert_eq!(t.enabled, None);
    assert!(t.path.is_none() && t.resources.is_none());
    let app = parse("device: d, tasks: { T: { interarrival: 4294967295 } }").unwrap();
    assert_eq!(app.tasks.as_ref().unwrap().get("T").unwrap().interarrival, Some(u32::MAX));
}

#[test]
fn priority_out_of_range() {
    assert!(matches!(
        parse("device: d, tasks: { T: { priority: 256 } }"),
        Err(Error::PriorityOutOfRange(256))
    ));
    let app = parse("device: d, tasks: { T: { priority: 0 } }").unwrap();
    assert_eq!(app.tasks.as_ref().unwrap().get("T").unwrap().priority, Some(0));
}

#[test]
fn interarrival_out_of_range() {
    assert!(matches!(
        parse("device: d, tasks: { T: { interarrival: 4294967296 } }"),
        Err(Error::InterarrivalOutOfRange(4294967296))
    ));
}

#[test]
fn first_refused_task_field_wins() {
    assert!(matches!(
        parse("device: d, tasks: { T: { priority: 300, interarrival: 5000000000 } }"),
        Err(Error::PriorityOutOfRange(300))
    ));
    // the first task is refused before the second is read
    assert!(matches!(
        parse("device: d, tasks: { A: { priority: 300 }, B: { priority: x } }"),
        Err(Error::PriorityOutOfRange(300))
    ));
    assert!(App::try_parse(&lex("device: d, tasks: { A: { priority: x }, B: { priority: 300 } }")).is_none());
}

#[test]
fn later_task_field_replaces_earlier() {
    let app = parse("device: d, tasks: { T: { priority: 1, priority: 2 } }").unwrap();
    assert_eq!(app.tasks.as_ref().unwrap().get("T").unwrap().priority, Some(2));
}

#[test]
fn sections_compare_by_value() {
    let a = parse("device: d, init: { path: main::init, resources: [X, Y] }").unwrap();
    let b = parse("device: d, init: { resources: [Y, X], path: main::init }").unwrap();
    let c = parse("device: d, init: { path: main::init, resources: [X] }").unwrap();
    assert!(a.init == b.init);
    assert!(a.init != c.init);
    assert!(a.idle == b.idle);
}

#[test]
fn paths_compare_without_spacing() {
    let a = parse("device: d, idle: { path: Option<Vec<u8>> }").unwrap();
    let b = parse("device: d, idle: { path: Option<Vec<u8> > }").unwrap();
    let c = parse("device: d, idle: { path: Option<Vec<u16>> }").unwrap();
    // the two `>` are joined in the first and apart in the second
    assert_ne!(a.idle.as_ref().unwrap().path.as_ref().unwrap().tokens.len(), 0);
    assert!(a.idle == b.idle);
    assert!(a.idle != c.idle);
}
