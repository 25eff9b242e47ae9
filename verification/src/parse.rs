//! The grammar of the contents of `app! { .. }` and how they become an
//! [`App`](crate::App).
use vstd::prelude::*;
use crate::error::Cursor;
use crate::grammar::{
    failed, ident_outcome, keyword_is, lit_bool_outcome, lit_int_outcome, parse_lit_bool,
    parse_lit_int, punct_at, punct_is, keyword_at, agrees, progress, Comma, Element, Grammar, Outcome, Semicolon, Step,
};
use crate::separated::{
    grammar_fn, law_list_holds_the_elements_read, never_panics, parser_fn, read_in_turn, terminated_nonempty_outcome, Pu,
    SeparatedNonEmpty,
};
use crate::rust_syntax::{syn_accepts_ident, syn_lit_int_value};
use crate::collections::{IdentMap, IdentSet};
use crate::error::{Duplicate, DuplicateModel, Error, ErrorModel};
use crate::{opt_view, App, AppModel, Idle, Init, Resources, SectionModel, Static, StaticModel, Statics, Task, TaskModel, Tasks};
use crate::syntax::{law_syntax_holds_what_it_read, Expr, Path, Type};
use crate::token::{copy_range, model, Delimiter, Token, TokenTree};

verus! {

// ---------------------------------------------------------------------------
// `key: value` at the top level

/// The value of a top-level field: a path, or a block in braces.
#[derive(Debug)]
pub enum AppValue {
    Path(Path),
    Block(Vec<TokenTree>),
}

pub enum AppValueModel {
    Path(Seq<Token>),
    Block(Seq<Token>),
}

impl View for AppValue {
    type V = AppValueModel;

    open spec fn view(&self) -> AppValueModel {
        match self {
            AppValue::Path(p) => AppValueModel::Path(p@),
            AppValue::Block(ts) => AppValueModel::Block(model(ts)),
        }
    }
}

/// The group with delimiter `d` at `pos`: its contents.
pub open spec fn group_at(toks: Seq<Token>, pos: int, d: Delimiter) -> Option<Seq<Token>> {
    if 0 <= pos < toks.len() {
        match toks[pos] {
            Token::Group(d2, inner) => if d2 == d {
                Some(inner)
            } else {
                None
            },
            _ => None,
        }
    } else {
        None
    }
}

/// The contents of the group with delimiter `d` at `pos`, copied.
fn group_contents(toks: &Vec<TokenTree>, pos: Cursor, d: Delimiter) -> (r: Option<Vec<TokenTree>>)
    ensures
        match r {
            Some(v) => pos < toks.len() && group_at(model(toks), pos as int, d) == Some(model(&v)),
            None => group_at(model(toks), pos as int, d) is None,
        },
{
    if pos < toks.len() {
        match &toks[pos] {
            TokenTree::Group(d2, inner) => {
                if *d2 == d {
                    let v = copy_range(inner, 0, inner.len());
                    assert(model(inner).subrange(0, inner.len() as int) =~= model(inner));
                    return Some(v);
                }
            },
            _ => {},
        }
    }
    None
}

impl Grammar for AppValue {
    /// A path, or else a block in braces.
    open spec fn outcome(toks: Seq<Token>, pos: int) -> Outcome<AppValueModel> {
        match Path::outcome(toks, pos) {
            Outcome::Parsed(p, e) => Outcome::Parsed(AppValueModel::Path(p), e),
            Outcome::Panics => Outcome::Panics,
            Outcome::Failed(_) => match group_at(toks, pos, Delimiter::Brace) {
                Some(inner) => Outcome::Parsed(AppValueModel::Block(inner), pos + 1),
                None => Outcome::Failed(None),
            },
        }
    }

    proof fn lemma_progress(toks: Seq<Token>, pos: int) {
        Path::lemma_progress(toks, pos);
    }

    fn parse_step(toks: &Vec<TokenTree>, pos: Cursor) -> (r: Step<AppValue>) {
        match Path::parse_step(toks, pos) {
            Step::Parsed(p, e) => Step::Parsed(AppValue::Path(p), e),
            Step::Panicked => Step::Panicked,
            Step::Failed(_) => match group_contents(toks, pos, Delimiter::Brace) {
                Some(v) => Step::Parsed(AppValue::Block(v), pos + 1),
                None => failed(),
            },
        }
    }
}

/// `$key: $value`, with the position of the key.
#[derive(Debug)]
pub struct KeyValue<T> {
    pub key: String,
    pub value: T,
    pub at: Cursor,
}

impl<T: View> View for KeyValue<T> {
    type V = (Seq<char>, T::V, int);

    open spec fn view(&self) -> (Seq<char>, T::V, int) {
        (self.key@, self.value@, self.at as int)
    }
}

impl<T: Grammar> Grammar for KeyValue<T> {
    open spec fn outcome(toks: Seq<Token>, pos: int) -> Outcome<(Seq<char>, T::V, int)> {
        match ident_outcome(toks, pos) {
            Outcome::Parsed(k, p1) => if punct_at(toks, p1, ':') {
                match T::outcome(toks, p1 + 1) {
                    Outcome::Parsed(v, e) => Outcome::Parsed((k, v, pos), e),
                    Outcome::Failed(d) => Outcome::Failed(d),
                    Outcome::Panics => Outcome::Panics,
                }
            } else {
                Outcome::Failed(None)
            },
            Outcome::Failed(d) => Outcome::Failed(d),
            Outcome::Panics => Outcome::Panics,
        }
    }

    proof fn lemma_progress(toks: Seq<Token>, pos: int) {
        if let Outcome::Parsed(k, p1) = ident_outcome(toks, pos) {
            if punct_at(toks, p1, ':') {
                T::lemma_progress(toks, p1 + 1);
            }
        }
    }

    fn parse_step(toks: &Vec<TokenTree>, pos: Cursor) -> (r: Step<KeyValue<T>>) {
        assert(model(toks).len() == toks.len());
        match String::parse_step(toks, pos) {
            Step::Parsed(key, p1) => {
                if punct_is(toks, p1, ':') {
                    match T::parse_step(toks, p1 + 1) {
                        Step::Parsed(value, e) => Step::Parsed(KeyValue { key, value, at: pos }, e),
                        Step::Failed(d) => Step::Failed(d),
                        Step::Panicked => Step::Panicked,
                    }
                } else {
                    failed()
                }
            },
            Step::Failed(d) => Step::Failed(d),
            Step::Panicked => Step::Panicked,
        }
    }
}

// ---------------------------------------------------------------------------
// Resources: `static $Ident: $Ty [= $Expr]`

/// A resource, e.g. `static X: u32 = 3 + 3` or, late, `static Y: u32`.
#[derive(Debug)]
pub struct ResFields {
    pub ident: String,
    pub ty: Type,
    pub expr: Option<Expr>,
}

pub struct ResFieldsModel {
    pub ident: Seq<char>,
    pub ty: Seq<Token>,
    pub expr: Option<Seq<Token>>,
}

impl View for ResFields {
    type V = ResFieldsModel;

    open spec fn view(&self) -> ResFieldsModel {
        ResFieldsModel {
            ident: self.ident@,
            ty: self.ty@,
            expr: match self.expr {
                Some(e) => Some(e@),
                None => None,
            },
        }
    }
}

impl Grammar for ResFields {
    open spec fn outcome(toks: Seq<Token>, pos: int) -> Outcome<ResFieldsModel> {
        if !keyword_at(toks, pos, "static"@) {
            Outcome::Failed(None)
        } else {
            match ident_outcome(toks, pos + 1) {
                Outcome::Parsed(ident, p2) => if !punct_at(toks, p2, ':') {
                    Outcome::Failed(None)
                } else {
                    match Type::outcome(toks, p2 + 1) {
                        Outcome::Parsed(ty, p3) => {
                            if punct_at(toks, p3, '=') && Expr::outcome(toks, p3 + 1) is Parsed {
                                Outcome::Parsed(
                                    ResFieldsModel {
                                        ident,
                                        ty,
                                        expr: Some(Expr::outcome(toks, p3 + 1)->Parsed_0),
                                    },
                                    Expr::outcome(toks, p3 + 1)->Parsed_1,
                                )
                            } else {
                                Outcome::Parsed(ResFieldsModel { ident, ty, expr: None }, p3)
                            }
                        },
                        Outcome::Failed(d) => Outcome::Failed(d),
                        Outcome::Panics => Outcome::Panics,
                    }
                },
                Outcome::Failed(d) => Outcome::Failed(d),
                Outcome::Panics => Outcome::Panics,
            }
        }
    }

    proof fn lemma_progress(toks: Seq<Token>, pos: int) {
        if keyword_at(toks, pos, "static"@) {
            if let Outcome::Parsed(ident, p2) = ident_outcome(toks, pos + 1) {
                if punct_at(toks, p2, ':') {
                    Type::lemma_progress(toks, p2 + 1);
                    if let Outcome::Parsed(ty, p3) = Type::outcome(toks, p2 + 1) {
                        if punct_at(toks, p3, '=') {
                            Expr::lemma_progress(toks, p3 + 1);
                        }
                    }
                }
            }
        }
    }

    fn parse_step(toks: &Vec<TokenTree>, pos: Cursor) -> (r: Step<ResFields>) {
        assert(model(toks).len() == toks.len());
        if !(pos < toks.len() && keyword_is(toks, pos, "static")) {
            return failed();
        }
        match String::parse_step(toks, pos + 1) {
            Step::Parsed(ident, p2) => {
                if !punct_is(toks, p2, ':') {
                    return failed();
                }
                match Type::parse_step(toks, p2 + 1) {
                    Step::Parsed(ty, p3) => {
                        if punct_is(toks, p3, '=') {
                            match Expr::parse_step(toks, p3 + 1) {
                                Step::Parsed(expr, p4) => {
                                    return Step::Parsed(ResFields { ident, ty, expr: Some(expr) }, p4);
                                },
                                _ => {},
                            }
                        }
                        Step::Parsed(ResFields { ident, ty, expr: None }, p3)
                    },
                    Step::Failed(d) => Step::Failed(d),
                    Step::Panicked => Step::Panicked,
                }
            },
            Step::Failed(d) => Step::Failed(d),
            Step::Panicked => Step::Panicked,
        }
    }
}

// ---------------------------------------------------------------------------
// Field names inside `init`, `idle` and tasks

/// The field name `kw`. A different identifier there is refused, except
/// where a type follows it: then the parser panics ("internal error").
pub open spec fn key_outcome(toks: Seq<Token>, pos: int, kw: Seq<char>) -> Outcome<()> {
    match ident_outcome(toks, pos) {
        Outcome::Parsed(s, p1) => if s == kw {
            Outcome::Parsed((), p1)
        } else {
            match Type::outcome(toks, p1) {
                Outcome::Parsed(_, _) => Outcome::Panics,
                Outcome::Failed(d) => Outcome::Failed(d),
                Outcome::Panics => Outcome::Panics,
            }
        },
        Outcome::Failed(d) => Outcome::Failed(d),
        Outcome::Panics => Outcome::Panics,
    }
}

fn parse_key(toks: &Vec<TokenTree>, pos: Cursor, kw: &str) -> (r: Step<()>)
    requires
        pos <= toks.len(),
    ensures
        match r {
            Step::Parsed(_, e) => key_outcome(model(toks), pos as int, kw@) == Outcome::Parsed((), e as int),
            Step::Failed(err) => key_outcome(model(toks), pos as int, kw@) == Outcome::<()>::Failed(err@),
            Step::Panicked => key_outcome(model(toks), pos as int, kw@) is Panics,
        },
{
    assert(model(toks).len() == toks.len());
    match String::parse_step(toks, pos) {
        Step::Parsed(s, p1) => {
            if s == String::from_str(kw) {
                Step::Parsed((), p1)
            } else {
                match Type::parse_step(toks, p1) {
                    Step::Parsed(_, _) => Step::Panicked,
                    Step::Failed(d) => Step::Failed(d),
                    Step::Panicked => Step::Panicked,
                }
            }
        },
        Step::Failed(d) => Step::Failed(d),
        Step::Panicked => Step::Panicked,
    }
}

/// `[$ident, ...]`: one or more identifiers in brackets, separated by
/// commas.
pub open spec fn ident_list_outcome(toks: Seq<Token>, pos: int) -> Outcome<Seq<Seq<char>>> {
    match group_at(toks, pos, Delimiter::Bracket) {
        Some(inner) => match SeparatedNonEmpty::<String, Comma>::outcome(inner, 0) {
            Outcome::Parsed(ids, e) => if e == inner.len() {
                Outcome::Parsed(ids, pos + 1)
            } else {
                Outcome::Failed(None)
            },
            Outcome::Failed(d) => Outcome::Failed(d),
            Outcome::Panics => Outcome::Panics,
        },
        None => Outcome::Failed(None),
    }
}

fn parse_ident_list(toks: &Vec<TokenTree>, pos: Cursor) -> (r: Step<Vec<String>>)
    ensures
        match (r, ident_list_outcome(model(toks), pos as int)) {
            (Step::Parsed(v, e), Outcome::Parsed(w, f)) => v@.map_values(|s: String| s@) == w && e == f,
            (Step::Failed(err), Outcome::Failed(d)) => err@ == d,
            (Step::Panicked, Outcome::Panics) => true,
            _ => false,
        },
{
    match group_contents(toks, pos, Delimiter::Bracket) {
        Some(inner) => {
            match SeparatedNonEmpty::<String, Comma>::parse_step(&inner, 0) {
                Step::Parsed(ids, e) => {
                    if e == inner.len() {
                        let v = ids.into_pu().into_vec();
                        Step::Parsed(v, pos + 1)
                    } else {
                        failed()
                    }
                },
                Step::Failed(d) => Step::Failed(d),
                Step::Panicked => Step::Panicked,
            }
        },
        None => failed(),
    }
}

// ---------------------------------------------------------------------------
// The fields of `init` and `idle`: `path: main::idle`, `resources: [A, B]`

#[derive(Debug)]
pub enum EnumIdle {
    IdlePath(Path),
    IdleResources(Vec<String>),
}

pub enum IdleFieldModel {
    Path(Seq<Token>),
    Resources(Seq<Seq<char>>),
}

impl View for EnumIdle {
    type V = IdleFieldModel;

    open spec fn view(&self) -> IdleFieldModel {
        match self {
            EnumIdle::IdlePath(p) => IdleFieldModel::Path(p@),
            EnumIdle::IdleResources(ids) => IdleFieldModel::Resources(ids@.map_values(|s: String| s@)),
        }
    }
}

/// `$kw: $Path`
pub open spec fn path_field_outcome(toks: Seq<Token>, pos: int) -> Outcome<Seq<Token>> {
    match key_outcome(toks, pos, "path"@) {
        Outcome::Parsed(_, p1) => if punct_at(toks, p1, ':') {
            Path::outcome(toks, p1 + 1)
        } else {
            Outcome::Failed(None)
        },
        Outcome::Failed(d) => Outcome::Failed(d),
        Outcome::Panics => Outcome::Panics,
    }
}

/// `resources: [$ident, ...]`
pub open spec fn resources_field_outcome(toks: Seq<Token>, pos: int) -> Outcome<Seq<Seq<char>>> {
    match key_outcome(toks, pos, "resources"@) {
        Outcome::Parsed(_, p1) => if punct_at(toks, p1, ':') {
            ident_list_outcome(toks, p1 + 1)
        } else {
            Outcome::Failed(None)
        },
        Outcome::Failed(d) => Outcome::Failed(d),
        Outcome::Panics => Outcome::Panics,
    }
}

proof fn lemma_key_bounds(toks: Seq<Token>, pos: int, kw: Seq<char>)
    requires
        0 <= pos <= toks.len(),
    ensures
        progress(key_outcome(toks, pos, kw), pos, toks.len() as int),
{
}

fn parse_path_field(toks: &Vec<TokenTree>, pos: Cursor) -> (r: Step<Path>)
    requires
        pos <= toks.len(),
    ensures
        agrees(r, path_field_outcome(model(toks), pos as int)),
{
    assert(model(toks).len() == toks.len());
    match parse_key(toks, pos, "path") {
        Step::Parsed(_, p1) => {
            if punct_is(toks, p1, ':') {
                Path::parse_step(toks, p1 + 1)
            } else {
                failed()
            }
        },
        Step::Failed(d) => Step::Failed(d),
        Step::Panicked => Step::Panicked,
    }
}

fn parse_resources_field(toks: &Vec<TokenTree>, pos: Cursor) -> (r: Step<Vec<String>>)
    requires
        pos <= toks.len(),
    ensures
        match (r, resources_field_outcome(model(toks), pos as int)) {
            (Step::Parsed(v, e), Outcome::Parsed(w, f)) => v@.map_values(|s: String| s@) == w && e == f,
            (Step::Failed(err), Outcome::Failed(d)) => err@ == d,
            (Step::Panicked, Outcome::Panics) => true,
            _ => false,
        },
{
    assert(model(toks).len() == toks.len());
    match parse_key(toks, pos, "resources") {
        Step::Parsed(_, p1) => {
            if punct_is(toks, p1, ':') {
                parse_ident_list(toks, p1 + 1)
            } else {
                failed()
            }
        },
        Step::Failed(d) => Step::Failed(d),
        Step::Panicked => Step::Panicked,
    }
}

impl Grammar for EnumIdle {
    /// `path: $Path`, or else `resources: [..]`.
    open spec fn outcome(toks: Seq<Token>, pos: int) -> Outcome<IdleFieldModel> {
        match path_field_outcome(toks, pos) {
            Outcome::Parsed(p, e) => Outcome::Parsed(IdleFieldModel::Path(p), e),
            Outcome::Panics => Outcome::Panics,
            Outcome::Failed(_) => match resources_field_outcome(toks, pos) {
                Outcome::Parsed(ids, e) => Outcome::Parsed(IdleFieldModel::Resources(ids), e),
                Outcome::Failed(d) => Outcome::Failed(d),
                Outcome::Panics => Outcome::Panics,
            },
        }
    }

    proof fn lemma_progress(toks: Seq<Token>, pos: int) {
        lemma_key_bounds(toks, pos, "path"@);
        lemma_key_bounds(toks, pos, "resources"@);
        if let Outcome::Parsed(_, p1) = key_outcome(toks, pos, "path"@) {
            if punct_at(toks, p1, ':') {
                Path::lemma_progress(toks, p1 + 1);
            }
        }
    }

    fn parse_step(toks: &Vec<TokenTree>, pos: Cursor) -> (r: Step<EnumIdle>) {
        match parse_path_field(toks, pos) {
            Step::Parsed(p, e) => Step::Parsed(EnumIdle::IdlePath(p), e),
            Step::Panicked => Step::Panicked,
            Step::Failed(_) => match parse_resources_field(toks, pos) {
                Step::Parsed(ids, e) => Step::Parsed(EnumIdle::IdleResources(ids), e),
                Step::Failed(d) => Step::Failed(d),
                Step::Panicked => Step::Panicked,
            },
        }
    }
}

// ---------------------------------------------------------------------------
// The fields of a task

#[derive(Debug)]
pub enum EnumTask {
    TaskPath(Path),
    TaskResources(Vec<String>),
    TaskPrio(u64),
    TaskEnabled(bool),
    TaskInterarrival(u64),
}

pub enum TaskFieldModel {
    Path(Seq<Token>),
    Resources(Seq<Seq<char>>),
    Prio(u64),
    Enabled(bool),
    Interarrival(u64),
}

impl View for EnumTask {
    type V = TaskFieldModel;

    open spec fn view(&self) -> TaskFieldModel {
        match self {
            EnumTask::TaskPath(p) => TaskFieldModel::Path(p@),
            EnumTask::TaskResources(ids) => TaskFieldModel::Resources(ids@.map_values(|s: String| s@)),
            EnumTask::TaskPrio(v) => TaskFieldModel::Prio(*v),
            EnumTask::TaskEnabled(b) => TaskFieldModel::Enabled(*b),
            EnumTask::TaskInterarrival(v) => TaskFieldModel::Interarrival(*v),
        }
    }
}

/// `priority: $LitInt`
pub open spec fn prio_field_outcome(toks: Seq<Token>, pos: int) -> Outcome<u64> {
    match key_outcome(toks, pos, "priority"@) {
        Outcome::Parsed(_, p1) => if punct_at(toks, p1, ':') {
            lit_int_outcome(toks, p1 + 1)
        } else {
            Outcome::Failed(None)
        },
        Outcome::Failed(d) => Outcome::Failed(d),
        Outcome::Panics => Outcome::Panics,
    }
}

/// `interarrival: $LitInt`
pub open spec fn interarrival_field_outcome(toks: Seq<Token>, pos: int) -> Outcome<u64> {
    match key_outcome(toks, pos, "interarrival"@) {
        Outcome::Parsed(_, p1) => if punct_at(toks, p1, ':') {
            lit_int_outcome(toks, p1 + 1)
        } else {
            Outcome::Failed(None)
        },
        Outcome::Failed(d) => Outcome::Failed(d),
        Outcome::Panics => Outcome::Panics,
    }
}

/// `enabled: $LitBool`
pub open spec fn enabled_field_outcome(toks: Seq<Token>, pos: int) -> Outcome<bool> {
    match key_outcome(toks, pos, "enabled"@) {
        Outcome::Parsed(_, p1) => if punct_at(toks, p1, ':') {
            lit_bool_outcome(toks, p1 + 1)
        } else {
            Outcome::Failed(None)
        },
        Outcome::Failed(d) => Outcome::Failed(d),
        Outcome::Panics => Outcome::Panics,
    }
}

fn parse_prio_field(toks: &Vec<TokenTree>, pos: Cursor) -> (r: Step<u64>)
    requires
        pos <= toks.len(),
    ensures
        agrees(r, prio_field_outcome(model(toks), pos as int)),
{
    assert(model(toks).len() == toks.len());
    match parse_key(toks, pos, "priority") {
        Step::Parsed(_, p1) => {
            if punct_is(toks, p1, ':') {
                parse_lit_int(toks, p1 + 1)
            } else {
                failed()
            }
        },
        Step::Failed(d) => Step::Failed(d),
        Step::Panicked => Step::Panicked,
    }
}

fn parse_interarrival_field(toks: &Vec<TokenTree>, pos: Cursor) -> (r: Step<u64>)
    requires
        pos <= toks.len(),
    ensures
        agrees(r, interarrival_field_outcome(model(toks), pos as int)),
{
    assert(model(toks).len() == toks.len());
    match parse_key(toks, pos, "interarrival") {
        Step::Parsed(_, p1) => {
            if punct_is(toks, p1, ':') {
                parse_lit_int(toks, p1 + 1)
            } else {
                failed()
            }
        },
        Step::Failed(d) => Step::Failed(d),
        Step::Panicked => Step::Panicked,
    }
}

fn parse_enabled_field(toks: &Vec<TokenTree>, pos: Cursor) -> (r: Step<bool>)
    requires
        pos <= toks.len(),
    ensures
        agrees(r, enabled_field_outcome(model(toks), pos as int)),
{
    assert(model(toks).len() == toks.len());
    match parse_key(toks, pos, "enabled") {
        Step::Parsed(_, p1) => {
            if punct_is(toks, p1, ':') {
                parse_lit_bool(toks, p1 + 1)
            } else {
                failed()
            }
        },
        Step::Failed(d) => Step::Failed(d),
        Step::Panicked => Step::Panicked,
    }
}

impl Grammar for EnumTask {
    /// `path: ..`, or else `resources: [..]`, or else `priority: ..`, or
    /// else `enabled: ..`, or else `interarrival: ..`.
    open spec fn outcome(toks: Seq<Token>, pos: int) -> Outcome<TaskFieldModel> {
        match path_field_outcome(toks, pos) {
            Outcome::Parsed(p, e) => Outcome::Parsed(TaskFieldModel::Path(p), e),
            Outcome::Panics => Outcome::Panics,
            Outcome::Failed(_) => match resources_field_outcome(toks, pos) {
                Outcome::Parsed(ids, e) => Outcome::Parsed(TaskFieldModel::Resources(ids), e),
                Outcome::Panics => Outcome::Panics,
                Outcome::Failed(_) => match prio_field_outcome(toks, pos) {
                    Outcome::Parsed(v, e) => Outcome::Parsed(TaskFieldModel::Prio(v), e),
                    Outcome::Panics => Outcome::Panics,
                    Outcome::Failed(_) => match enabled_field_outcome(toks, pos) {
                        Outcome::Parsed(b, e) => Outcome::Parsed(TaskFieldModel::Enabled(b), e),
                        Outcome::Panics => Outcome::Panics,
                        Outcome::Failed(_) => match interarrival_field_outcome(toks, pos) {
                            Outcome::Parsed(v, e) => Outcome::Parsed(TaskFieldModel::Interarrival(v), e),
                            Outcome::Failed(d) => Outcome::Failed(d),
                            Outcome::Panics => Outcome::Panics,
                        },
                    },
                },
            },
        }
    }

    proof fn lemma_progress(toks: Seq<Token>, pos: int) {
        lemma_key_bounds(toks, pos, "path"@);
        lemma_key_bounds(toks, pos, "resources"@);
        lemma_key_bounds(toks, pos, "priority"@);
        lemma_key_bounds(toks, pos, "enabled"@);
        lemma_key_bounds(toks, pos, "interarrival"@);
        if let Outcome::Parsed(_, p1) = key_outcome(toks, pos, "path"@) {
            if punct_at(toks, p1, ':') {
                Path::lemma_progress(toks, p1 + 1);
            }
        }
    }

    fn parse_step(toks: &Vec<TokenTree>, pos: Cursor) -> (r: Step<EnumTask>) {
        match parse_path_field(toks, pos) {
            Step::Parsed(p, e) => Step::Parsed(EnumTask::TaskPath(p), e),
            Step::Panicked => Step::Panicked,
            Step::Failed(_) => match parse_resources_field(toks, pos) {
                Step::Parsed(ids, e) => Step::Parsed(EnumTask::TaskResources(ids), e),
                Step::Panicked => Step::Panicked,
                Step::Failed(_) => match parse_prio_field(toks, pos) {
                    Step::Parsed(v, e) => Step::Parsed(EnumTask::TaskPrio(v), e),
                    Step::Panicked => Step::Panicked,
                    Step::Failed(_) => match parse_enabled_field(toks, pos) {
                        Step::Parsed(b, e) => Step::Parsed(EnumTask::TaskEnabled(b), e),
                        Step::Panicked => Step::Panicked,
                        Step::Failed(_) => match parse_interarrival_field(toks, pos) {
                            Step::Parsed(v, e) => Step::Parsed(EnumTask::TaskInterarrival(v), e),
                            Step::Failed(d) => Step::Failed(d),
                            Step::Panicked => Step::Panicked,
                        },
                    },
                },
            },
        }
    }
}

// ---------------------------------------------------------------------------
// `$Ident: { .. }` in `tasks`

#[derive(Debug)]
pub struct TasksParse {
    pub id: String,
    pub task: Vec<TokenTree>,
}

impl View for TasksParse {
    type V = (Seq<char>, Seq<Token>);

    open spec fn view(&self) -> (Seq<char>, Seq<Token>) {
        (self.id@, model(&self.task))
    }
}

impl Grammar for TasksParse {
    open spec fn outcome(toks: Seq<Token>, pos: int) -> Outcome<(Seq<char>, Seq<Token>)> {
        match ident_outcome(toks, pos) {
            Outcome::Parsed(id, p1) => if punct_at(toks, p1, ':') {
                match group_at(toks, p1 + 1, Delimiter::Brace) {
                    Some(inner) => Outcome::Parsed((id, inner), p1 + 2),
                    None => Outcome::Failed(None),
                }
            } else {
                Outcome::Failed(None)
            },
            Outcome::Failed(d) => Outcome::Failed(d),
            Outcome::Panics => Outcome::Panics,
        }
    }

    proof fn lemma_progress(toks: Seq<Token>, pos: int) {
    }

    fn parse_step(toks: &Vec<TokenTree>, pos: Cursor) -> (r: Step<TasksParse>) {
        assert(model(toks).len() == toks.len());
        match String::parse_step(toks, pos) {
            Step::Parsed(id, p1) => {
                if punct_is(toks, p1, ':') {
                    match group_contents(toks, p1 + 1, Delimiter::Brace) {
                        Some(task) => Step::Parsed(TasksParse { id, task }, p1 + 2),
                        None => failed(),
                    }
                } else {
                    failed()
                }
            },
            Step::Failed(d) => Step::Failed(d),
            Step::Panicked => Step::Panicked,
        }
    }
}

// ---------------------------------------------------------------------------
// What the fields come to

/// What processing the contents of a field comes to: a value, an error
/// that the caller is given, or a panic.
pub enum Ruling<V> {
    Accepted(V),
    Refused(ErrorModel),
    Panics,
}

/// What processing the contents of a field did.
pub enum Fate<T> {
    Accepted(T),
    Refused(Error),
    Panicked,
}

pub open spec fn fate_agrees<T: View>(f: Fate<T>, r: Ruling<T::V>) -> bool {
    match f {
        Fate::Accepted(v) => r == Ruling::Accepted(v@),
        Fate::Refused(e) => r == Ruling::<T::V>::Refused(e@),
        Fate::Panicked => r is Panics,
    }
}

/// The set of the identifiers `ids`.
pub open spec fn set_of(ids: Seq<Seq<char>>) -> Set<Seq<char>>
    decreases ids.len(),
{
    if ids.len() == 0 {
        Set::empty()
    } else {
        set_of(ids.drop_last()).insert(ids.last())
    }
}

/// An identifier is in `set_of(ids)` exactly when it is one of `ids`.
pub proof fn lemma_set_of(ids: Seq<Seq<char>>, x: Seq<char>)
    ensures
        set_of(ids).contains(x) <==> ids.contains(x),
    decreases ids.len(),
{
    if ids.len() > 0 {
        lemma_set_of(ids.drop_last(), x);
        if ids.drop_last().contains(x) {
            let k = choose|k: int| 0 <= k < ids.drop_last().len() && ids.drop_last()[k] == x;
            assert(ids[k] == x);
        }
        if ids.contains(x) && x != ids.last() {
            let k = choose|k: int| 0 <= k < ids.len() && ids[k] == x;
            assert(ids.drop_last()[k] == x);
        }
    }
}

fn resources_from(ids: &Vec<String>) -> (r: Resources)
    ensures
        r@ == set_of(ids@.map_values(|s: String| s@)),
{
    let ghost all = ids@.map_values(|s: String| s@);
    let mut r = IdentSet::new();
    let mut i: usize = 0;
    while i < ids.len()
        invariant
            i <= ids.len(),
            all == ids@.map_values(|s: String| s@),
            r@ == set_of(all.subrange(0, i as int)),
        decreases ids.len() - i,
    {
        r.insert(ids[i].clone());
        i = i + 1;
        assert(all.subrange(0, i as int).drop_last() =~= all.subrange(0, i - 1 as int));
    }
    assert(all.subrange(0, ids.len() as int) =~= all);
    r
}

// `init` and `idle`

/// The fields of `init` or `idle`, from the `i`-th on, given the path and
/// the resources of the earlier ones: each may come once.
pub open spec fn section_fold(
    items: Seq<IdleFieldModel>,
    i: int,
    path: Option<Seq<Token>>,
    res: Option<Set<Seq<char>>>,
) -> Ruling<SectionModel>
    decreases items.len() - i,
{
    if i >= items.len() {
        Ruling::Accepted(SectionModel { path, resources: res })
    } else {
        match items[i] {
            IdleFieldModel::Path(p) => if path is None {
                section_fold(items, i + 1, Some(p), res)
            } else {
                Ruling::Refused(ErrorModel::PathTwice)
            },
            IdleFieldModel::Resources(ids) => if res is Some {
                Ruling::Refused(ErrorModel::ResourcesTwice)
            } else {
                section_fold(items, i + 1, path, Some(set_of(ids)))
            },
        }
    }
}

/// The contents of `init: { .. }` or `idle: { .. }`: fields separated by
/// commas; where they cannot be read, the parser panics.
pub open spec fn section_outcome(ts: Seq<Token>) -> Ruling<SectionModel> {
    match terminated_nonempty_outcome(grammar_fn::<EnumIdle>(ts), grammar_fn::<Comma>(ts), ts.len() as int, 0) {
        Outcome::Parsed(items, _) => section_fold(items, 0, None, None),
        _ => Ruling::Panics,
    }
}

/// Reads the contents of `init: { .. }` or `idle: { .. }`.
fn parse_path_resources(ts: &Vec<TokenTree>) -> (r: Fate<Idle>)
    ensures
        fate_agrees(r, section_outcome(model(ts))),
{
    let e: Element<EnumIdle> = Element::new();
    assert(parser_fn(&e, model(ts)) =~= grammar_fn::<EnumIdle>(model(ts)));
    assert(model(ts).len() == ts.len());
    let items = match Pu::<EnumIdle, Comma>::terminated_nonempty_step(ts, 0, &e) {
        Step::Parsed(pu, _) => pu.into_vec(),
        _ => {
            return Fate::Panicked;
        },
    };
    section_from_fields(&items)
}

/// Builds `init` or `idle` from its fields, read in order.
pub fn section_from_fields(items: &Vec<EnumIdle>) -> (r: Fate<Idle>)
    ensures
        fate_agrees(r, section_fold(items@.map_values(|t: EnumIdle| t@), 0, None, None)),
{
    let ghost all = items@.map_values(|t: EnumIdle| t@);
    let mut path: Option<Path> = None;
    let mut resources: Option<Resources> = None;
    let mut i: usize = 0;
    while i < items.len()
        invariant
            i <= items.len(),
            all == items@.map_values(|t: EnumIdle| t@),
            section_fold(all, 0, None, None) == section_fold(all, i as int, opt_view(path), opt_view(resources)),
        decreases items.len() - i,
    {
        assert(all[i as int] == items@[i as int]@);
        match &items[i] {
            EnumIdle::IdlePath(p) => {
                if path.is_none() {
                    path = Some(p.duplicate());
                } else {
                    return Fate::Refused(Error::PathTwice);
                }
            },
            EnumIdle::IdleResources(ids) => {
                if resources.is_some() {
                    return Fate::Refused(Error::ResourcesTwice);
                } else {
                    resources = Some(resources_from(ids));
                }
            },
        }
        i = i + 1;
    }
    Fate::Accepted(Idle { path, resources })
}

// Tasks

/// A task with no fields given.
pub open spec fn empty_task() -> TaskModel {
    TaskModel { enabled: None, path: None, priority: None, interarrival: None, resources: None }
}

/// A field of a task, given to `t`: a later field of the same name
/// replaces an earlier one; a priority must fit in a `u8` and an
/// interarrival time in a `u32`.
pub open spec fn apply_task_field(t: TaskModel, f: TaskFieldModel) -> Ruling<TaskModel> {
    match f {
        TaskFieldModel::Path(p) => Ruling::Accepted(TaskModel { path: Some(p), ..t }),
        TaskFieldModel::Resources(ids) => Ruling::Accepted(TaskModel { resources: Some(set_of(ids)), ..t }),
        TaskFieldModel::Prio(v) => if v <= u8::MAX {
            Ruling::Accepted(TaskModel { priority: Some(v as u8), ..t })
        } else {
            Ruling::Refused(ErrorModel::PriorityOutOfRange(v))
        },
        TaskFieldModel::Enabled(b) => Ruling::Accepted(TaskModel { enabled: Some(b), ..t }),
        TaskFieldModel::Interarrival(v) => if v <= u32::MAX {
            Ruling::Accepted(TaskModel { interarrival: Some(v as u32), ..t })
        } else {
            Ruling::Refused(ErrorModel::InterarrivalOutOfRange(v))
        },
    }
}

/// The fields of a task, in order; the first field that is refused
/// refuses the task.
pub open spec fn task_fold(items: Seq<TaskFieldModel>) -> Ruling<TaskModel>
    decreases items.len(),
{
    if items.len() == 0 {
        Ruling::Accepted(empty_task())
    } else {
        match task_fold(items.drop_last()) {
            Ruling::Accepted(t) => apply_task_field(t, items.last()),
            other => other,
        }
    }
}

/// The body of a task: fields separated by commas; where they cannot be
/// read, the parser panics.
pub open spec fn task_outcome(body: Seq<Token>) -> Ruling<TaskModel> {
    match terminated_nonempty_outcome(grammar_fn::<EnumTask>(body), grammar_fn::<Comma>(body), body.len() as int, 0) {
        Outcome::Parsed(items, _) => task_fold(items),
        _ => Ruling::Panics,
    }
}

/// The tasks `entries`, by name, in order: a later task of the same name
/// replaces an earlier one; the first task that is refused, or whose body
/// cannot be read, decides.
pub open spec fn tasks_fold(entries: Seq<(Seq<char>, Seq<Token>)>) -> Ruling<Map<Seq<char>, TaskModel>>
    decreases entries.len(),
{
    if entries.len() == 0 {
        Ruling::Accepted(Map::empty())
    } else {
        match tasks_fold(entries.drop_last()) {
            Ruling::Accepted(m) => match task_outcome(entries.last().1) {
                Ruling::Accepted(t) => Ruling::Accepted(m.insert(entries.last().0, t)),
                Ruling::Refused(e) => Ruling::Refused(e),
                Ruling::Panics => Ruling::Panics,
            },
            other => other,
        }
    }
}

/// The contents of `tasks: { .. }`: `$Ident: { .. }` separated by commas;
/// where they cannot be read, the parser panics.
pub open spec fn tasks_outcome(ts: Seq<Token>) -> Ruling<Map<Seq<char>, TaskModel>> {
    match terminated_nonempty_outcome(grammar_fn::<TasksParse>(ts), grammar_fn::<Comma>(ts), ts.len() as int, 0) {
        Outcome::Parsed(entries, _) => tasks_fold(entries),
        _ => Ruling::Panics,
    }
}

fn parse_task(body: &Vec<TokenTree>) -> (r: Fate<Task>)
    ensures
        fate_agrees(r, task_outcome(model(body))),
{
    let e: Element<EnumTask> = Element::new();
    assert(parser_fn(&e, model(body)) =~= grammar_fn::<EnumTask>(model(body)));
    assert(model(body).len() == body.len());
    let items = match Pu::<EnumTask, Comma>::terminated_nonempty_step(body, 0, &e) {
        Step::Parsed(pu, _) => pu.into_vec(),
        _ => {
            return Fate::Panicked;
        },
    };
    match task_from_fields(&items) {
        Ok(t) => Fate::Accepted(t),
        Err(e) => Fate::Refused(e),
    }
}

/// Builds a task from its fields, read in order.
pub fn task_from_fields(items: &Vec<EnumTask>) -> (r: Result<Task, Error>)
    ensures
        match r {
            Ok(t) => task_fold(items@.map_values(|t: EnumTask| t@)) == Ruling::Accepted(t@),
            Err(e) => task_fold(items@.map_values(|t: EnumTask| t@)) == Ruling::<TaskModel>::Refused(e@),
        },
{
    let ghost all = items@.map_values(|t: EnumTask| t@);
    let mut t = Task {
        enabled: None,
        path: None,
        priority: None,
        interarrival: None,
        resources: None,
    };
    let mut i: usize = 0;
    while i < items.len()
        invariant
            i <= items.len(),
            all == items@.map_values(|t: EnumTask| t@),
            task_fold(all.subrange(0, i as int)) == Ruling::Accepted(t@),
        decreases items.len() - i,
    {
        assert(all[i as int] == items@[i as int]@);
        assert(all.subrange(0, i + 1 as int).drop_last() =~= all.subrange(0, i as int));
        match &items[i] {
            EnumTask::TaskPrio(prio) => {
                if *prio <= 255 {
                    t.priority = Some(*prio as u8);
                } else {
                    proof {
                        lemma_task_fold_stops(all, i + 1);
                    }
                    return Err(Error::PriorityOutOfRange(*prio));
                }
            },
            EnumTask::TaskPath(path) => {
                t.path = Some(path.duplicate());
            },
            EnumTask::TaskResources(res) => {
                t.resources = Some(resources_from(res));
            },
            EnumTask::TaskEnabled(b) => {
                t.enabled = Some(*b);
            },
            EnumTask::TaskInterarrival(v) => {
                if *v <= 0xffff_ffff {
                    t.interarrival = Some(*v as u32);
                } else {
                    proof {
                        lemma_task_fold_stops(all, i + 1);
                    }
                    return Err(Error::InterarrivalOutOfRange(*v));
                }
            },
        }
        i = i + 1;
    }
    assert(all.subrange(0, items.len() as int) =~= all);
    Ok(t)
}

fn parse_tasks(ts: &Vec<TokenTree>) -> (r: Fate<Tasks>)
    ensures
        fate_agrees(r, tasks_outcome(model(ts))),
{
    let e: Element<TasksParse> = Element::new();
    assert(parser_fn(&e, model(ts)) =~= grammar_fn::<TasksParse>(model(ts)));
    assert(model(ts).len() == ts.len());
    let entries = match Pu::<TasksParse, Comma>::terminated_nonempty_step(ts, 0, &e) {
        Step::Parsed(pu, _) => pu.into_vec(),
        _ => {
            return Fate::Panicked;
        },
    };
    let ghost all = entries@.map_values(|t: TasksParse| t@);
    let mut tasks: Tasks = IdentMap::new();
    let mut i: usize = 0;
    while i < entries.len()
        invariant
            i <= entries.len(),
            all == entries@.map_values(|t: TasksParse| t@),
            tasks_outcome(model(ts)) == tasks_fold(all),
            tasks_fold(all.subrange(0, i as int)) == Ruling::Accepted(tasks@),
        decreases entries.len() - i,
    {
        assert(all[i as int] == entries@[i as int]@);
        assert(all.subrange(0, i + 1 as int).drop_last() =~= all.subrange(0, i as int));
        match parse_task(&entries[i].task) {
            Fate::Accepted(t) => {
                tasks.insert(entries[i].id.clone(), t);
            },
            Fate::Refused(e) => {
                proof {
                    lemma_tasks_fold_stops(all, i as int + 1);
                }
                return Fate::Refused(e);
            },
            Fate::Panicked => {
                proof {
                    lemma_tasks_fold_stops(all, i as int + 1);
                }
                return Fate::Panicked;
            },
        }
        i = i + 1;
    }
    assert(all.subrange(0, entries.len() as int) =~= all);
    Fate::Accepted(tasks)
}

/// Once a prefix of the fields of a task is refused, so is the task, in
/// the same way.
proof fn lemma_task_fold_stops(items: Seq<TaskFieldModel>, k: int)
    requires
        0 <= k <= items.len(),
        !(task_fold(items.subrange(0, k)) is Accepted),
    ensures
        task_fold(items) == task_fold(items.subrange(0, k)),
    decreases items.len() - k,
{
    if k < items.len() {
        assert(items.subrange(0, k + 1).drop_last() =~= items.subrange(0, k));
        lemma_task_fold_stops(items, k + 1);
    } else {
        assert(items.subrange(0, k) =~= items);
    }
}

/// Once a prefix of the tasks is refused or cannot be read, the same holds
/// of all of them.
proof fn lemma_tasks_fold_stops(entries: Seq<(Seq<char>, Seq<Token>)>, k: int)
    requires
        0 <= k <= entries.len(),
        !(tasks_fold(entries.subrange(0, k)) is Accepted),
    ensures
        tasks_fold(entries) == tasks_fold(entries.subrange(0, k)),
    decreases entries.len() - k,
{
    if k < entries.len() {
        assert(entries.subrange(0, k + 1).drop_last() =~= entries.subrange(0, k));
        lemma_tasks_fold_stops(entries, k + 1);
    } else {
        assert(entries.subrange(0, k) =~= entries);
    }
}

// Resources

/// The resources `items`, by name: a later resource of the same name
/// replaces an earlier one.
pub open spec fn statics_fold(items: Seq<ResFieldsModel>) -> Map<Seq<char>, StaticModel>
    decreases items.len(),
{
    if items.len() == 0 {
        Map::empty()
    } else {
        statics_fold(items.drop_last()).insert(
            items.last().ident,
            StaticModel { expr: items.last().expr, ty: items.last().ty },
        )
    }
}

/// The contents of `resources: { .. }`: resources separated by semicolons;
/// where they cannot be read, the parser panics.
pub open spec fn statics_outcome(ts: Seq<Token>) -> Ruling<Map<Seq<char>, StaticModel>> {
    match terminated_nonempty_outcome(grammar_fn::<ResFields>(ts), grammar_fn::<Semicolon>(ts), ts.len() as int, 0) {
        Outcome::Parsed(items, _) => Ruling::Accepted(statics_fold(items)),
        _ => Ruling::Panics,
    }
}

fn parse_statics(ts: &Vec<TokenTree>) -> (r: Fate<Statics>)
    ensures
        fate_agrees(r, statics_outcome(model(ts))),
{
    let e: Element<ResFields> = Element::new();
    assert(parser_fn(&e, model(ts)) =~= grammar_fn::<ResFields>(model(ts)));
    assert(model(ts).len() == ts.len());
    let items = match Pu::<ResFields, Semicolon>::terminated_nonempty_step(ts, 0, &e) {
        Step::Parsed(pu, _) => pu.into_vec(),
        _ => {
            return Fate::Panicked;
        },
    };
    Fate::Accepted(statics_from_fields(items))
}

/// Builds the resources from their declarations, read in order.
pub fn statics_from_fields(items: Vec<ResFields>) -> (r: Statics)
    ensures
        r@ == statics_fold(items@.map_values(|t: ResFields| t@)),
{
    let mut items = items;
    let ghost all = items@.map_values(|t: ResFields| t@);
    assert(all.len() == items.len());
    assert(all.subrange(0, all.len() as int) =~= all);
    let mut hm: Statics = IdentMap::new();
    let mut i: usize = 0;
    while items.len() > 0
        invariant
            i <= all.len(),
            all.len() <= usize::MAX,
            items@.map_values(|t: ResFields| t@) == all.subrange(i as int, all.len() as int),
            hm@ == statics_fold(all.subrange(0, i as int)),
        decreases items.len(),
    {
        let ghost before = items@;
        assert(before.map_values(|t: ResFields| t@).len() == before.len());
        assert(i < all.len());
        assert(before.map_values(|t: ResFields| t@)[0] == all.subrange(i as int, all.len() as int)[0]);
        let r = items.remove(0);
        assert(r@ == all[i as int]);
        hm.insert(r.ident, Static { expr: r.expr, ty: r.ty });
        i = i + 1;
        assert(all.subrange(0, i as int).drop_last() =~= all.subrange(0, i - 1 as int));
        assert forall|k: int| 0 <= k < items@.len() implies items@.map_values(|t: ResFields| t@)[k]
            == all.subrange(i as int, all.len() as int)[k] by {
            assert(items@[k] == before[k + 1]);
            assert(before.map_values(|t: ResFields| t@)[k + 1] == all.subrange(i - 1 as int, all.len() as int)[k + 1]);
        }
        assert(items@.map_values(|t: ResFields| t@) =~= all.subrange(i as int, all.len() as int));
    }
    assert(all.subrange(0, i as int) =~= all);
    hm
}

// ---------------------------------------------------------------------------
// `app! { .. }`

/// The fields of `app!` read so far.
pub struct AppState {
    pub device: Option<Seq<Token>>,
    pub idle: Option<SectionModel>,
    pub init: Option<SectionModel>,
    pub resources: Option<Map<Seq<char>, StaticModel>>,
    pub tasks: Option<Map<Seq<char>, TaskModel>>,
}

pub open spec fn empty_state() -> AppState {
    AppState { device: None, idle: None, init: None, resources: None, tasks: None }
}

/// One top-level field `key: value`, given the fields before it.
pub open spec fn field_step(key: Seq<char>, value: AppValueModel, st: AppState) -> Ruling<AppState> {
    if key == "device"@ {
        match value {
            AppValueModel::Path(p) => Ruling::Accepted(AppState { device: Some(p), ..st }),
            AppValueModel::Block(_) => Ruling::Refused(ErrorModel::DeviceNotPath),
        }
    } else if key == "resources"@ {
        match value {
            AppValueModel::Block(ts) => match statics_outcome(ts) {
                Ruling::Accepted(m) => Ruling::Accepted(AppState { resources: Some(m), ..st }),
                Ruling::Refused(e) => Ruling::Refused(e),
                Ruling::Panics => Ruling::Panics,
            },
            AppValueModel::Path(_) => Ruling::Panics,
        }
    } else if key == "init"@ {
        if st.init is None {
            match value {
                AppValueModel::Block(ts) => match section_outcome(ts) {
                    Ruling::Accepted(sec) => Ruling::Accepted(AppState { init: Some(sec), ..st }),
                    Ruling::Refused(e) => Ruling::Refused(e),
                    Ruling::Panics => Ruling::Panics,
                },
                AppValueModel::Path(_) => Ruling::Panics,
            }
        } else {
            Ruling::Refused(ErrorModel::InitTwice)
        }
    } else if key == "idle"@ {
        if st.idle is None {
            match value {
                AppValueModel::Block(ts) => match section_outcome(ts) {
                    Ruling::Accepted(sec) => Ruling::Accepted(AppState { idle: Some(sec), ..st }),
                    Ruling::Refused(e) => Ruling::Refused(e),
                    Ruling::Panics => Ruling::Panics,
                },
                AppValueModel::Path(_) => Ruling::Panics,
            }
        } else {
            Ruling::Accepted(st)
        }
    } else if key == "tasks"@ {
        match value {
            AppValueModel::Block(ts) => match tasks_outcome(ts) {
                Ruling::Accepted(m) => Ruling::Accepted(AppState { tasks: Some(m), ..st }),
                Ruling::Refused(e) => Ruling::Refused(e),
                Ruling::Panics => Ruling::Panics,
            },
            AppValueModel::Path(_) => Ruling::Panics,
        }
    } else {
        Ruling::Refused(ErrorModel::IllegalField(key))
    }
}

/// The top-level fields from the `i`-th on, given the state that the
/// earlier ones left; at the end, `device` must have been given.
pub open spec fn fields_fold(fields: Seq<(Seq<char>, AppValueModel, int)>, i: int, st: AppState) -> Ruling<AppModel>
    decreases fields.len() - i,
{
    if i >= fields.len() {
        match st.device {
            Some(d) => Ruling::Accepted(
                AppModel {
                    device: d,
                    idle: st.idle,
                    init: st.init,
                    resources: st.resources,
                    tasks: st.tasks,
                },
            ),
            None => Ruling::Refused(ErrorModel::DeviceMissing),
        }
    } else {
        match field_step(fields[i].0, fields[i].1, st) {
            Ruling::Accepted(st2) => fields_fold(fields, i + 1, st2),
            Ruling::Refused(e) => Ruling::Refused(e),
            Ruling::Panics => Ruling::Panics,
        }
    }
}

/// No two fields have the same name.
pub open spec fn keys_distinct<V>(fields: Seq<(Seq<char>, V, int)>) -> bool {
    forall|i: int, j: int| 0 <= i < j < fields.len() ==> #[trigger] fields[i].0 != #[trigger] fields[j].0
}

/// The index of the first field named `k`, or -1 where none is.
pub open spec fn first_named<V>(fields: Seq<(Seq<char>, V, int)>, k: Seq<char>) -> int
    decreases fields.len(),
{
    if fields.len() == 0 {
        -1
    } else {
        let f = first_named(fields.drop_last(), k);
        if f >= 0 {
            f
        } else if fields.last().0 == k {
            fields.len() - 1
        } else {
            -1
        }
    }
}

/// The fields whose name an earlier field already has, in order: the
/// name, the position of the field and that of the first field so named.
pub open spec fn duplicates_of<V>(fields: Seq<(Seq<char>, V, int)>) -> Seq<DuplicateModel>
    decreases fields.len(),
{
    if fields.len() == 0 {
        Seq::empty()
    } else {
        let earlier = fields.drop_last();
        let f = first_named(earlier, fields.last().0);
        if f >= 0 {
            duplicates_of(earlier).push(
                DuplicateModel { name: fields.last().0, at: fields.last().2, first: earlier[f].2 },
            )
        } else {
            duplicates_of(earlier)
        }
    }
}

/// `first_named` is the first index with that name.
pub proof fn lemma_first_named<V>(fields: Seq<(Seq<char>, V, int)>, k: Seq<char>)
    ensures
        first_named(fields, k) < 0 <==> forall|h: int| 0 <= h < fields.len() ==> (#[trigger] fields[h]).0 != k,
        first_named(fields, k) >= 0 ==> {
            let f = first_named(fields, k);
            &&& f < fields.len()
            &&& fields[f].0 == k
            &&& forall|h: int| 0 <= h < f ==> (#[trigger] fields[h]).0 != k
        },
        first_named(fields, k) >= -1,
    decreases fields.len(),
{
    if fields.len() > 0 {
        let earlier = fields.drop_last();
        lemma_first_named(earlier, k);
        assert forall|h: int| 0 <= h < earlier.len() implies (#[trigger] fields[h]) == earlier[h] by {}
        if first_named(earlier, k) >= 0 {
            let f = first_named(earlier, k);
            assert(fields[f].0 == k);
        }
    }
}

/// The top-level fields, once read: each name at most once, then each
/// field in order.
pub open spec fn fields_outcome(fields: Seq<(Seq<char>, AppValueModel, int)>) -> Ruling<AppModel> {
    if keys_distinct(fields) {
        fields_fold(fields, 0, empty_state())
    } else {
        Ruling::Refused(ErrorModel::Duplicates(duplicates_of(fields)))
    }
}

/// The contents of `app! { .. }`: one or more `key: value` fields separated
/// by commas (a trailing comma allowed), each name at most once, read in
/// order.
pub open spec fn app_outcome(toks: Seq<Token>) -> Ruling<AppModel> {
    match terminated_nonempty_outcome(
        grammar_fn::<KeyValue<AppValue>>(toks),
        grammar_fn::<Comma>(toks),
        toks.len() as int,
        0,
    ) {
        Outcome::Parsed(fields, _) => fields_outcome(fields),
        Outcome::Failed(_) => Ruling::Refused(ErrorModel::Syntax),
        Outcome::Panics => Ruling::Panics,
    }
}

/// Refuses a list of fields in which a name comes twice, with each field
/// whose name an earlier one has.
fn check_dup<T: View>(key_val: &Vec<KeyValue<T>>) -> (r: Result<(), Error>)
    ensures
        match r {
            Ok(()) => keys_distinct(key_val@.map_values(|kv: KeyValue<T>| kv@)),
            Err(e) => !keys_distinct(key_val@.map_values(|kv: KeyValue<T>| kv@)) && e@ == ErrorModel::Duplicates(
                duplicates_of(key_val@.map_values(|kv: KeyValue<T>| kv@)),
            ),
        },
{
    let ghost all = key_val@.map_values(|kv: KeyValue<T>| kv@);
    let mut dups: Vec<Duplicate> = Vec::new();
    let mut j: usize = 0;
    while j < key_val.len()
        invariant
            j <= key_val.len(),
            all == key_val@.map_values(|kv: KeyValue<T>| kv@),
            dups@.map_values(|d: Duplicate| d@) == duplicates_of(all.subrange(0, j as int)),
        decreases key_val.len() - j,
    {
        let ghost earlier = all.subrange(0, j as int);
        let ghost k = all[j as int].0;
        assert(all.subrange(0, j + 1 as int).drop_last() =~= earlier);
        assert(all[j as int] == key_val@[j as int]@);
        let mut first: Option<usize> = None;
        let mut i: usize = 0;
        while i < j
            invariant
                i <= j < key_val.len(),
                all == key_val@.map_values(|kv: KeyValue<T>| kv@),
                earlier == all.subrange(0, j as int),
                k == all[j as int].0,
                k == key_val@[j as int].key@,
                match first {
                    None => forall|h: int| 0 <= h < i ==> (#[trigger] earlier[h]).0 != k,
                    Some(f) => f < i && earlier[f as int].0 == k && forall|h: int|
                        0 <= h < f ==> (#[trigger] earlier[h]).0 != k,
                },
            decreases j - i,
        {
            assert(earlier[i as int] == key_val@[i as int]@);
            if first.is_none() && key_val[i].key == key_val[j].key {
                first = Some(i);
            }
            i = i + 1;
        }
        proof {
            lemma_first_named(earlier, k);
        }
        match first {
            Some(f) => {
                assert(earlier[f as int] == key_val@[f as int]@);
                let ghost before = dups@.map_values(|d: Duplicate| d@);
                let d = Duplicate { name: key_val[j].key.clone(), at: key_val[j].at, first: key_val[f].at };
                dups.push(d);
                assert(dups@.map_values(|d: Duplicate| d@) =~= before.push(d@));
            },
            None => {},
        }
        j = j + 1;
    }
    assert(all.subrange(0, key_val.len() as int) =~= all);
    proof {
        law_no_duplicates_exactly_when_names_distinct(all);
    }
    if dups.len() == 0 {
        Ok(())
    } else {
        Err(Error::Duplicates(dups))
    }
}

/// No field is reported as a duplicate exactly when no two fields have the
/// same name.
pub proof fn law_no_duplicates_exactly_when_names_distinct<V>(fields: Seq<(Seq<char>, V, int)>)
    ensures
        duplicates_of(fields).len() == 0 <==> keys_distinct(fields),
    decreases fields.len(),
{
    if fields.len() > 0 {
        let earlier = fields.drop_last();
        let n = fields.len() - 1;
        law_no_duplicates_exactly_when_names_distinct(earlier);
        lemma_first_named(earlier, fields.last().0);
        assert forall|h: int| 0 <= h < earlier.len() implies (#[trigger] fields[h]) == earlier[h] by {}
        if keys_distinct(fields) {
            assert forall|a: int, b: int| 0 <= a < b < earlier.len() implies #[trigger] earlier[a].0
                != #[trigger] earlier[b].0 by {
                assert(fields[a].0 != fields[b].0);
            }
            assert forall|h: int| 0 <= h < earlier.len() implies (#[trigger] earlier[h]).0 != fields.last().0 by {
                assert(fields[h].0 != fields[n].0);
            }
        } else {
            let (a, b) = choose|a: int, b: int| 0 <= a < b < fields.len() && #[trigger] fields[a].0
                == #[trigger] fields[b].0;
            if b == n {
                assert(earlier[a].0 == fields.last().0);
            } else {
                assert(earlier[a].0 == earlier[b].0);
            }
        }
    }
}

fn is_key(k: &String, name: &str) -> (r: bool)
    ensures
        r == (k@ == name@),
{
    *k == String::from_str(name)
}

/// The fields of `app!` read so far.
struct AppParts {
    device: Option<Path>,
    idle: Option<Idle>,
    init: Option<Init>,
    resources: Option<Statics>,
    tasks: Option<Tasks>,
}

impl View for AppParts {
    type V = AppState;

    closed spec fn view(&self) -> AppState {
        AppState {
            device: opt_view(self.device),
            idle: opt_view(self.idle),
            init: opt_view(self.init),
            resources: opt_view(self.resources),
            tasks: opt_view(self.tasks),
        }
    }
}

fn apply_field(kv: &KeyValue<AppValue>, st: &mut AppParts) -> (r: Result<bool, Error>)
    ensures
        match field_step(kv@.0, kv@.1, old(st)@) {
            Ruling::Accepted(s2) => r == Ok::<bool, Error>(true) && final(st)@ == s2,
            Ruling::Refused(e) => r matches Err(e2) && e2@ == e,
            Ruling::Panics => r == Ok::<bool, Error>(false),
        },
{
    if is_key(&kv.key, "device") {
        match &kv.value {
            AppValue::Path(p) => {
                st.device = Some(p.duplicate());
                Ok(true)
            },
            AppValue::Block(_) => Err(Error::DeviceNotPath),
        }
    } else if is_key(&kv.key, "resources") {
        match &kv.value {
            AppValue::Block(ts) => match parse_statics(ts) {
                Fate::Accepted(m) => {
                    st.resources = Some(m);
                    Ok(true)
                },
                Fate::Refused(e) => Err(e),
                Fate::Panicked => Ok(false),
            },
            AppValue::Path(_) => Ok(false),
        }
    } else if is_key(&kv.key, "init") {
        if st.init.is_none() {
            match &kv.value {
                AppValue::Block(ts) => match parse_path_resources(ts) {
                    Fate::Accepted(sec) => {
                        st.init = Some(Init { path: sec.path, resources: sec.resources });
                        Ok(true)
                    },
                    Fate::Refused(e) => Err(e),
                    Fate::Panicked => Ok(false),
                },
                AppValue::Path(_) => Ok(false),
            }
        } else {
            Err(Error::InitTwice)
        }
    } else if is_key(&kv.key, "idle") {
        if st.idle.is_none() {
            match &kv.value {
                AppValue::Block(ts) => match parse_path_resources(ts) {
                    Fate::Accepted(sec) => {
                        st.idle = Some(sec);
                        Ok(true)
                    },
                    Fate::Refused(e) => Err(e),
                    Fate::Panicked => Ok(false),
                },
                AppValue::Path(_) => Ok(false),
            }
        } else {
            Ok(true)
        }
    } else if is_key(&kv.key, "tasks") {
        match &kv.value {
            AppValue::Block(ts) => match parse_tasks(ts) {
                Fate::Accepted(m) => {
                    st.tasks = Some(m);
                    Ok(true)
                },
                Fate::Refused(e) => Err(e),
                Fate::Panicked => Ok(false),
            },
            AppValue::Path(_) => Ok(false),
        }
    } else {
        Err(Error::IllegalField(kv.key.clone()))
    }
}

/// Reads the contents of `app! { .. }`, panics included.
fn parse_app_fate(input: &Vec<TokenTree>) -> (r: Fate<App>)
    ensures
        fate_agrees(r, app_outcome(model(input))),
{
    let e: Element<KeyValue<AppValue>> = Element::new();
    assert(parser_fn(&e, model(input)) =~= grammar_fn::<KeyValue<AppValue>>(model(input)));
    assert(model(input).len() == input.len());
    let app = match Pu::<KeyValue<AppValue>, Comma>::terminated_nonempty_step(input, 0, &e) {
        Step::Parsed(pu, _) => pu.into_vec(),
        Step::Failed(_) => {
            return Fate::Refused(Error::Syntax);
        },
        Step::Panicked => {
            return Fate::Panicked;
        },
    };
    app_from_fields(&app)
}

/// Builds the application from its top-level fields, read in order.
pub fn app_from_fields(app: &Vec<KeyValue<AppValue>>) -> (r: Fate<App>)
    ensures
        fate_agrees(r, fields_outcome(app@.map_values(|kv: KeyValue<AppValue>| kv@))),
{
    let ghost all = app@.map_values(|kv: KeyValue<AppValue>| kv@);
    match check_dup(app) {
        Ok(()) => {},
        Err(e) => {
            return Fate::Refused(e);
        },
    }
    let mut st = AppParts { device: None, idle: None, init: None, resources: None, tasks: None };
    let mut i: usize = 0;
    while i < app.len()
        invariant
            i <= app.len(),
            all == app@.map_values(|kv: KeyValue<AppValue>| kv@),
            fields_outcome(all) == fields_fold(all, i as int, st@),
        decreases app.len() - i,
    {
        assert(all[i as int] == app@[i as int]@);
        match apply_field(&app[i], &mut st) {
            Ok(true) => {},
            Ok(false) => {
                return Fate::Panicked;
            },
            Err(e) => {
                return Fate::Refused(e);
            },
        }
        i = i + 1;
    }
    match st.device {
        Some(device) => Fate::Accepted(
            App {
                device,
                init: st.init,
                idle: st.idle,
                resources: st.resources,
                tasks: st.tasks,
            },
        ),
        None => Fate::Refused(Error::DeviceMissing),
    }
}

/// The contents of `app! { .. }` do not make the parser panic.
pub open spec fn parses_without_panic(input: Seq<Token>) -> bool {
    !(app_outcome(input) is Panics)
}

/// Whether parsing `input` as the contents of `app! { .. }` panics.
pub fn would_panic(input: &Vec<TokenTree>) -> (r: bool)
    ensures
        r == !parses_without_panic(model(input)),
{
    match parse_app_fate(input) {
        Fate::Panicked => true,
        _ => false,
    }
}

/// Parses the contents of the `app! { .. }` macro.
pub fn parse_app(input: &Vec<TokenTree>) -> (r: Result<App, Error>)
    requires
        parses_without_panic(model(input)),
    ensures
        match r {
            Ok(app) => app_outcome(model(input)) == Ruling::Accepted(app@),
            Err(e) => app_outcome(model(input)) == Ruling::<AppModel>::Refused(e@),
        },
{
    match parse_app_fate(input) {
        Fate::Accepted(app) => Ok(app),
        Fate::Refused(e) => Err(e),
        Fate::Panicked => Err(Error::Syntax),
    }
}

// ---------------------------------------------------------------------------
// Laws of `app!`

/// The top-level fields, the resources and the task entries never make
/// their parsers panic (the fields inside `init`, `idle` and a task can).
pub proof fn lemma_entries_never_panic(toks: Seq<Token>)
    ensures
        never_panics(grammar_fn::<AppValue>(toks)),
        never_panics(grammar_fn::<KeyValue<AppValue>>(toks)),
        never_panics(grammar_fn::<ResFields>(toks)),
        never_panics(grammar_fn::<TasksParse>(toks)),
{
}

/// The top-level fields of `app! { .. }`, as the list parser reads them.
pub open spec fn top_fields(toks: Seq<Token>) -> Outcome<Seq<(Seq<char>, AppValueModel, int)>> {
    terminated_nonempty_outcome(
        grammar_fn::<KeyValue<AppValue>>(toks),
        grammar_fn::<Comma>(toks),
        toks.len() as int,
        0,
    )
}

/// The names of the fields that `app!` knows.
pub open spec fn known_field(k: Seq<char>) -> bool {
    k == "device"@ || k == "resources"@ || k == "init"@ || k == "idle"@ || k == "tasks"@
}

proof fn lemma_fold_device(fields: Seq<(Seq<char>, AppValueModel, int)>, i: int, st: AppState)
    requires
        0 <= i,
    ensures
        fields_fold(fields, i, st) matches Ruling::Accepted(m) ==> st.device == Some(m.device) || exists|j: int|
            i <= j < fields.len() && (#[trigger] fields[j]).0 == "device"@ && fields[j].1
                == AppValueModel::Path(m.device),
    decreases fields.len() - i,
{
    if i < fields.len() {
        if let Ruling::Accepted(st2) = field_step(fields[i].0, fields[i].1, st) {
            lemma_fold_device(fields, i + 1, st2);
            if let Ruling::Accepted(m) = fields_fold(fields, i, st) {
                if st2.device == Some(m.device) && st.device != Some(m.device) {
                    assert(fields[i].0 == "device"@);
                }
            }
        }
    }
}

proof fn lemma_fold_known(fields: Seq<(Seq<char>, AppValueModel, int)>, i: int, st: AppState)
    requires
        0 <= i,
    ensures
        fields_fold(fields, i, st) is Accepted ==> forall|j: int|
            i <= j < fields.len() ==> known_field(#[trigger] fields[j].0),
    decreases fields.len() - i,
{
    if i < fields.len() {
        if let Ruling::Accepted(st2) = field_step(fields[i].0, fields[i].1, st) {
            lemma_fold_known(fields, i + 1, st2);
        }
    }
}

/// What `App::parse` accepts has a `device` field, and the path in it is
/// the application's device; no field comes twice.
pub proof fn law_app_keeps_its_device(toks: Seq<Token>)
    ensures
        app_outcome(toks) matches Ruling::Accepted(m) ==> top_fields(toks) matches Outcome::Parsed(fields, _)
            && keys_distinct(fields) && exists|j: int|
            0 <= j < fields.len() && (#[trigger] fields[j]).0 == "device"@ && fields[j].1
                == AppValueModel::Path(m.device),
{
    if let Outcome::Parsed(fields, _) = top_fields(toks) {
        lemma_fold_device(fields, 0, empty_state());
    }
}

/// What `App::parse` accepts names only the fields `device`, `resources`,
/// `init`, `idle` and `tasks`.
pub proof fn law_app_fields_are_known(toks: Seq<Token>)
    ensures
        app_outcome(toks) is Accepted ==> (top_fields(toks) matches Outcome::Parsed(fields, _) && forall|j: int|
            0 <= j < fields.len() ==> known_field(#[trigger] fields[j].0)),
{
    if let Outcome::Parsed(fields, _) = top_fields(toks) {
        lemma_fold_known(fields, 0, empty_state());
    }
}

/// Where the fields can be read, a name that comes twice is refused with
/// `Duplicates`, listing every field whose name an earlier one has; where
/// they cannot, the input is refused with `Syntax`.
pub proof fn law_app_refusals(toks: Seq<Token>)
    ensures
        top_fields(toks) matches Outcome::Parsed(fields, _) ==> (!keys_distinct(fields) ==> app_outcome(toks)
            == Ruling::<AppModel>::Refused(ErrorModel::Duplicates(duplicates_of(fields)))),
        top_fields(toks) is Failed ==> app_outcome(toks) == Ruling::<AppModel>::Refused(ErrorModel::Syntax),
{
}

proof fn lemma_section_fold_once(
    items: Seq<IdleFieldModel>,
    i: int,
    path: Option<Seq<Token>>,
    res: Option<Set<Seq<char>>>,
)
    requires
        0 <= i,
    ensures
        section_fold(items, i, path, res) is Accepted ==> {
            &&& path is Some ==> forall|j: int| i <= j < items.len() ==> !((#[trigger] items[j]) is Path)
            &&& res is Some ==> forall|j: int| i <= j < items.len() ==> !((#[trigger] items[j]) is Resources)
            &&& forall|j: int, k: int|
                i <= j < k < items.len() && (#[trigger] items[j]) is Path ==> !((#[trigger] items[k]) is Path)
            &&& forall|j: int, k: int|
                i <= j < k < items.len() && (#[trigger] items[j]) is Resources ==> !((
                #[trigger] items[k]) is Resources)
        },
    decreases items.len() - i,
{
    if i < items.len() {
        match items[i] {
            IdleFieldModel::Path(p) => {
                if path is None {
                    lemma_section_fold_once(items, i + 1, Some(p), res);
                }
            },
            IdleFieldModel::Resources(ids) => {
                if res is None {
                    lemma_section_fold_once(items, i + 1, path, Some(set_of(ids)));
                }
            },
        }
    }
}

/// `init` and `idle` accept `path` at most once and `resources` at most
/// once; the resources are the identifiers listed.
pub proof fn law_section_fields_once(ts: Seq<Token>)
    ensures
        section_outcome(ts) is Accepted ==> (terminated_nonempty_outcome(
            grammar_fn::<EnumIdle>(ts),
            grammar_fn::<Comma>(ts),
            ts.len() as int,
            0,
        ) matches Outcome::Parsed(items, _) && (forall|j: int, k: int|
            0 <= j < k < items.len() && (#[trigger] items[j]) is Path ==> !((#[trigger] items[k]) is Path))
            && (forall|j: int, k: int|
            0 <= j < k < items.len() && (#[trigger] items[j]) is Resources ==> !((
            #[trigger] items[k]) is Resources))),
{
    if let Outcome::Parsed(items, _) = terminated_nonempty_outcome(
        grammar_fn::<EnumIdle>(ts),
        grammar_fn::<Comma>(ts),
        ts.len() as int,
        0,
    ) {
        lemma_section_fold_once(items, 0, None, None);
    }
}

/// The resources of `resources: { .. }` are named exactly as the
/// resources declared there.
pub proof fn law_statics_are_the_declared_ones(items: Seq<ResFieldsModel>, k: Seq<char>)
    ensures
        statics_fold(items).contains_key(k) <==> exists|i: int| 0 <= i < items.len() && (#[trigger] items[i]).ident == k,
    decreases items.len(),
{
    if items.len() > 0 {
        law_statics_are_the_declared_ones(items.drop_last(), k);
        if exists|i: int| 0 <= i < items.len() && (#[trigger] items[i]).ident == k {
            let i = choose|i: int| 0 <= i < items.len() && (#[trigger] items[i]).ident == k;
            if i < items.len() - 1 {
                assert(items.drop_last()[i].ident == k);
            }
        }
        if exists|i: int| 0 <= i < items.drop_last().len() && (#[trigger] items.drop_last()[i]).ident == k {
            let i = choose|i: int| 0 <= i < items.drop_last().len() && (#[trigger] items.drop_last()[i]).ident == k;
            assert(items[i].ident == k);
        }
    }
}

/// The tasks of `tasks: { .. }` are named exactly as the tasks given there.
pub proof fn law_tasks_are_the_given_ones(entries: Seq<(Seq<char>, Seq<Token>)>, k: Seq<char>)
    ensures
        tasks_fold(entries) matches Ruling::Accepted(m) ==> (m.contains_key(k) <==> exists|i: int|
            0 <= i < entries.len() && (#[trigger] entries[i]).0 == k),
    decreases entries.len(),
{
    if entries.len() > 0 {
        law_tasks_are_the_given_ones(entries.drop_last(), k);
        if exists|i: int| 0 <= i < entries.len() && (#[trigger] entries[i]).0 == k {
            let i = choose|i: int| 0 <= i < entries.len() && (#[trigger] entries[i]).0 == k;
            if i < entries.len() - 1 {
                assert(entries.drop_last()[i].0 == k);
            }
        }
        if exists|i: int| 0 <= i < entries.drop_last().len() && (#[trigger] entries.drop_last()[i]).0 == k {
            let i = choose|i: int| 0 <= i < entries.drop_last().len() && (#[trigger] entries.drop_last()[i]).0 == k;
            assert(entries[i].0 == k);
        }
    }
}

/// Some field among the `i`-th and later ones is named `k`.
pub open spec fn field_named_from(fields: Seq<(Seq<char>, AppValueModel, int)>, i: int, k: Seq<char>) -> bool {
    exists|j: int| i <= j < fields.len() && (#[trigger] fields[j]).0 == k
}

proof fn lemma_field_step_sections(key: Seq<char>, value: AppValueModel, st: AppState)
    ensures
        field_step(key, value, st) matches Ruling::Accepted(st2) ==> {
            &&& (st2.init is Some <==> st.init is Some || key == "init"@)
            &&& (st2.idle is Some <==> st.idle is Some || key == "idle"@)
            &&& (st2.resources is Some <==> st.resources is Some || key == "resources"@)
            &&& (st2.tasks is Some <==> st.tasks is Some || key == "tasks"@)
        },
{
    reveal_strlit("device");
    reveal_strlit("resources");
    reveal_strlit("init");
    reveal_strlit("idle");
    reveal_strlit("tasks");
    let names: Seq<Seq<char>> = seq!["device"@, "resources"@, "init"@, "idle"@, "tasks"@];
    assert(names[0][0] == 'd' && names[1][0] == 'r' && names[2][0] == 'i' && names[3][0] == 'i'
        && names[4][0] == 't');
    assert(names[2][1] == 'n' && names[3][1] == 'd');
    assert forall|a: int, b: int| 0 <= a < b < 5 implies #[trigger] names[a] != #[trigger] names[b] by {
        if a == 2 && b == 3 {
            assert(names[a][1] != names[b][1]);
        } else {
            assert(names[a][0] != names[b][0]);
        }
    }
    assert(names[0] != names[2] && names[1] != names[2] && names[3] != names[2] && names[4] != names[2]);
    assert(names[0] != names[3] && names[1] != names[3] && names[4] != names[3]);
    assert(names[0] != names[1] && names[4] != names[1]);
    assert(names[0] != names[4]);
}

proof fn lemma_fold_sections(fields: Seq<(Seq<char>, AppValueModel, int)>, i: int, st: AppState)
    requires
        0 <= i,
    ensures
        fields_fold(fields, i, st) matches Ruling::Accepted(m) ==> {
            &&& (m.init is Some <==> st.init is Some || field_named_from(fields, i, "init"@))
            &&& (m.idle is Some <==> st.idle is Some || field_named_from(fields, i, "idle"@))
            &&& (m.resources is Some <==> st.resources is Some || field_named_from(fields, i, "resources"@))
            &&& (m.tasks is Some <==> st.tasks is Some || field_named_from(fields, i, "tasks"@))
        },
    decreases fields.len() - i,
{
    if i < fields.len() {
        if let Ruling::Accepted(st2) = field_step(fields[i].0, fields[i].1, st) {
            lemma_fold_sections(fields, i + 1, st2);
            lemma_field_step_sections(fields[i].0, fields[i].1, st);
            if let Ruling::Accepted(m) = fields_fold(fields, i, st) {
                let names: Seq<Seq<char>> = seq!["init"@, "idle"@, "resources"@, "tasks"@];
                assert forall|n: int| 0 <= n < 4 implies (field_named_from(fields, i, #[trigger] names[n])
                    <==> fields[i].0 == names[n] || field_named_from(fields, i + 1, names[n])) by {
                    if field_named_from(fields, i, names[n]) {
                        let j = choose|j: int| i <= j < fields.len() && (#[trigger] fields[j]).0 == names[n];
                        if j != i {
                            assert(i + 1 <= j);
                        }
                    }
                    if field_named_from(fields, i + 1, names[n]) {
                        let j = choose|j: int| i + 1 <= j < fields.len() && (#[trigger] fields[j]).0 == names[n];
                        assert(i <= j);
                    }
                    if fields[i].0 == names[n] {
                        assert(fields[i].0 == names[n]);
                    }
                }
                assert(names[0] == "init"@);
                assert(names[1] == "idle"@);
                assert(names[2] == "resources"@);
                assert(names[3] == "tasks"@);
            }
        }
    }
}

/// What `App::parse` accepts has `init`, `idle`, `resources` and `tasks`
/// exactly where the input gave those fields.
pub proof fn law_app_sections_are_the_given_ones(toks: Seq<Token>)
    ensures
        app_outcome(toks) matches Ruling::Accepted(m) ==> (top_fields(toks) matches Outcome::Parsed(fields, _) && {
            &&& (m.init is Some <==> field_named_from(fields, 0, "init"@))
            &&& (m.idle is Some <==> field_named_from(fields, 0, "idle"@))
            &&& (m.resources is Some <==> field_named_from(fields, 0, "resources"@))
            &&& (m.tasks is Some <==> field_named_from(fields, 0, "tasks"@))
        }),
{
    if let Outcome::Parsed(fields, _) = top_fields(toks) {
        lemma_fold_sections(fields, 0, empty_state());
    }
}

/// The names of `fields`, in order.
pub open spec fn names_of<V>(fields: Seq<(Seq<char>, V, int)>) -> Seq<Seq<char>> {
    fields.map_values(|f: (Seq<char>, V, int)| f.0)
}

/// Each repetition of a name is reported once: as many fields are reported
/// as there are fields, less the number of distinct names.
pub proof fn law_one_report_per_repeat<V>(fields: Seq<(Seq<char>, V, int)>)
    ensures
        set_of(names_of(fields)).finite(),
        duplicates_of(fields).len() + set_of(names_of(fields)).len() == fields.len(),
    decreases fields.len(),
{
    if fields.len() > 0 {
        let earlier = fields.drop_last();
        let k = fields.last().0;
        law_one_report_per_repeat(earlier);
        assert(names_of(fields).drop_last() =~= names_of(earlier));
        assert(names_of(fields).last() == k);
        lemma_first_named(earlier, k);
        lemma_set_of(names_of(earlier), k);
        if first_named(earlier, k) >= 0 {
            let f = first_named(earlier, k);
            assert(names_of(earlier)[f] == k);
        } else if names_of(earlier).contains(k) {
            let h = choose|h: int| 0 <= h < names_of(earlier).len() && names_of(earlier)[h] == k;
            assert(earlier[h].0 == k);
        }
    } else {
        assert(set_of(names_of(fields)) == Set::<Seq<char>>::empty());
    }
}

/// A task in which a `priority` does not fit in a `u8`, or an
/// `interarrival` in a `u32`, is never accepted.
pub proof fn law_task_out_of_range_is_refused(items: Seq<TaskFieldModel>, j: int)
    requires
        0 <= j < items.len(),
        (items[j] matches TaskFieldModel::Prio(v) && v > u8::MAX) || (items[j] matches TaskFieldModel::Interarrival(v)
            && v > u32::MAX),
    ensures
        task_fold(items) is Refused,
    decreases items.len(),
{
    if j < items.len() - 1 {
        assert(items.drop_last()[j] == items[j]);
        law_task_out_of_range_is_refused(items.drop_last(), j);
    } else {
        lemma_task_fold_never_panics(items.drop_last());
    }
}

proof fn lemma_task_fold_never_panics(items: Seq<TaskFieldModel>)
    ensures
        !(task_fold(items) is Panics),
    decreases items.len(),
{
    if items.len() > 0 {
        lemma_task_fold_never_panics(items.drop_last());
    }
}

/// A resource declaration `static N: T [= E]` read from `pos`: its name is
/// the identifier after `static`, its type is exactly the tokens that `syn`
/// reads as a type after the colon, and it has an initializer exactly where
/// `=` and an expression follow the type. The initializer is then exactly
/// the tokens of that expression and the declaration ends with it; a late
/// resource ends with its type. Such a declaration is always read.
pub proof fn law_resource_declaration(toks: Seq<Token>, pos: int)
    requires
        0 <= pos <= toks.len(),
    ensures
        ResFields::outcome(toks, pos) matches Outcome::Parsed(r, end) ==> {
            &&& keyword_at(toks, pos, "static"@)
            &&& ident_outcome(toks, pos + 1) == Outcome::Parsed(r.ident, pos + 2)
            &&& punct_at(toks, pos + 2, ':')
            &&& Type::outcome(toks, pos + 3) is Parsed
            &&& r.ty == toks.subrange(pos + 3, Type::outcome(toks, pos + 3)->Parsed_1)
            &&& (r.expr is None <==> end == Type::outcome(toks, pos + 3)->Parsed_1)
            &&& (r.expr is Some <==> (punct_at(toks, Type::outcome(toks, pos + 3)->Parsed_1, '=')
                && Expr::outcome(toks, Type::outcome(toks, pos + 3)->Parsed_1 + 1) is Parsed))
            &&& (r.expr matches Some(e) ==> e == toks.subrange(Type::outcome(toks, pos + 3)->Parsed_1 + 1, end))
        },
        (keyword_at(toks, pos, "static"@) && ident_outcome(toks, pos + 1) is Parsed && punct_at(toks, pos + 2, ':')
            && Type::outcome(toks, pos + 3) is Parsed) ==> ResFields::outcome(toks, pos) is Parsed,
{
    if pos + 3 <= toks.len() {
        law_syntax_holds_what_it_read(toks, pos + 3);
        if let Outcome::Parsed(_, p3) = Type::outcome(toks, pos + 3) {
            if p3 + 1 <= toks.len() {
                law_syntax_holds_what_it_read(toks, p3 + 1);
            }
        }
    }
}

/// Whether two task fields are of the same kind.
pub open spec fn same_kind(a: TaskFieldModel, b: TaskFieldModel) -> bool {
    match (a, b) {
        (TaskFieldModel::Path(_), TaskFieldModel::Path(_)) => true,
        (TaskFieldModel::Resources(_), TaskFieldModel::Resources(_)) => true,
        (TaskFieldModel::Prio(_), TaskFieldModel::Prio(_)) => true,
        (TaskFieldModel::Enabled(_), TaskFieldModel::Enabled(_)) => true,
        (TaskFieldModel::Interarrival(_), TaskFieldModel::Interarrival(_)) => true,
        _ => false,
    }
}

/// The task `t` has what the field `f` gives: its path, the set of the
/// names that it lists, its priority, its flag or its interarrival time.
pub open spec fn has_field(t: TaskModel, f: TaskFieldModel) -> bool {
    match f {
        TaskFieldModel::Path(p) => t.path == Some(p),
        TaskFieldModel::Resources(ids) => t.resources is Some && forall|x: Seq<char>|
            t.resources->Some_0.contains(x) <==> ids.contains(x),
        TaskFieldModel::Prio(v) => v <= u8::MAX && t.priority == Some(v as u8),
        TaskFieldModel::Enabled(b) => t.enabled == Some(b),
        TaskFieldModel::Interarrival(v) => v <= u32::MAX && t.interarrival == Some(v as u32),
    }
}

/// `items[j]` is the last field of its kind.
pub open spec fn last_of_kind(items: Seq<TaskFieldModel>, j: int) -> bool {
    0 <= j < items.len() && forall|k: int| j < k < items.len() ==> !same_kind(#[trigger] items[k], items[j])
}

proof fn lemma_apply_task_field(t0: TaskModel, g: TaskFieldModel, f: TaskFieldModel)
    ensures
        apply_task_field(t0, g) matches Ruling::Accepted(t) ==> {
            &&& has_field(t, g)
            &&& !same_kind(f, g) && has_field(t0, f) ==> has_field(t, f)
            &&& !(g is Path) ==> t.path == t0.path
            &&& !(g is Resources) ==> t.resources == t0.resources
            &&& !(g is Prio) ==> t.priority == t0.priority
            &&& !(g is Enabled) ==> t.enabled == t0.enabled
            &&& !(g is Interarrival) ==> t.interarrival == t0.interarrival
        },
{
    if let TaskFieldModel::Resources(ids) = g {
        if let Ruling::Accepted(t) = apply_task_field(t0, g) {
            assert forall|x: Seq<char>| t.resources->Some_0.contains(x) <==> ids.contains(x) by {
                lemma_set_of(ids, x);
            }
        }
    }
}

/// An accepted task has what the last field of each kind gives: its path,
/// its priority, its flag, its interarrival time, and for `resources: [..]`
/// exactly the names listed.
pub proof fn law_task_has_its_last_fields(items: Seq<TaskFieldModel>)
    ensures
        task_fold(items) matches Ruling::Accepted(t) ==> forall|j: int|
            last_of_kind(items, j) ==> has_field(t, #[trigger] items[j]),
    decreases items.len(),
{
    if items.len() > 0 {
        let n = items.len() - 1;
        let earlier = items.drop_last();
        law_task_has_its_last_fields(earlier);
        if let Ruling::Accepted(t) = task_fold(items) {
            let t0 = task_fold(earlier)->Accepted_0;
            assert forall|j: int| last_of_kind(items, j) implies has_field(t, #[trigger] items[j]) by {
                lemma_apply_task_field(t0, items[n], items[j]);
                if j < n {
                    assert(earlier[j] == items[j]);
                    assert forall|k: int| j < k < earlier.len() implies !same_kind(#[trigger] earlier[k], earlier[j]) by {
                        assert(earlier[k] == items[k]);
                    }
                    assert(last_of_kind(earlier, j));
                }
            }
        }
    }
}

/// An accepted task has no path, no resources, no priority, no flag or no
/// interarrival time where no field of that kind is given.
pub proof fn law_task_lacks_absent_fields(items: Seq<TaskFieldModel>)
    ensures
        task_fold(items) matches Ruling::Accepted(t) ==> {
            &&& (forall|j: int| 0 <= j < items.len() ==> !(#[trigger] items[j] is Path)) ==> t.path is None
            &&& (forall|j: int| 0 <= j < items.len() ==> !(#[trigger] items[j] is Resources)) ==> t.resources is None
            &&& (forall|j: int| 0 <= j < items.len() ==> !(#[trigger] items[j] is Prio)) ==> t.priority is None
            &&& (forall|j: int| 0 <= j < items.len() ==> !(#[trigger] items[j] is Enabled)) ==> t.enabled is None
            &&& (forall|j: int| 0 <= j < items.len() ==> !(#[trigger] items[j] is Interarrival)) ==> t.interarrival
                is None
        },
    decreases items.len(),
{
    if items.len() > 0 {
        let n = items.len() - 1;
        let earlier = items.drop_last();
        law_task_lacks_absent_fields(earlier);
        if let Ruling::Accepted(t) = task_fold(items) {
            let t0 = task_fold(earlier)->Accepted_0;
            lemma_apply_task_field(t0, items[n], items[n]);
            assert forall|j: int| 0 <= j < earlier.len() implies #[trigger] earlier[j] == items[j] by {}
        }
    }
}

proof fn lemma_section_fold_values(
    items: Seq<IdleFieldModel>,
    i: int,
    path: Option<Seq<Token>>,
    res: Option<Set<Seq<char>>>,
)
    requires
        0 <= i,
    ensures
        section_fold(items, i, path, res) matches Ruling::Accepted(sec) ==> {
            &&& forall|j: int| i <= j < items.len() && (#[trigger] items[j]) is Path ==> sec.path == Some(
                items[j]->Path_0,
            )
            &&& (forall|j: int| i <= j < items.len() ==> !((#[trigger] items[j]) is Path)) ==> sec.path == path
            &&& forall|j: int| i <= j < items.len() && (#[trigger] items[j]) is Resources ==> sec.resources == Some(
                set_of(items[j]->Resources_0),
            )
            &&& (forall|j: int| i <= j < items.len() ==> !((#[trigger] items[j]) is Resources)) ==> sec.resources
                == res
        },
    decreases items.len() - i,
{
    if i < items.len() {
        match items[i] {
            IdleFieldModel::Path(p) => {
                if path is None {
                    lemma_section_fold_values(items, i + 1, Some(p), res);
                    lemma_section_fold_once(items, i + 1, Some(p), res);
                }
            },
            IdleFieldModel::Resources(ids) => {
                if res is None {
                    lemma_section_fold_values(items, i + 1, path, Some(set_of(ids)));
                    lemma_section_fold_once(items, i + 1, path, Some(set_of(ids)));
                }
            },
        }
    }
}

/// An accepted `init` or `idle` has the path of its `path` field and no
/// path without one, and has as resources exactly the names listed by its
/// `resources` field and no resources without one, each whether or not
/// the other field is given.
pub proof fn law_section_has_its_fields(items: Seq<IdleFieldModel>)
    ensures
        section_fold(items, 0, None, None) matches Ruling::Accepted(sec) ==> {
            &&& forall|j: int| 0 <= j < items.len() && (#[trigger] items[j]) is Path ==> sec.path == Some(
                items[j]->Path_0,
            )
            &&& (sec.path is None <==> forall|j: int| 0 <= j < items.len() ==> !((#[trigger] items[j]) is Path))
            &&& forall|j: int|
                0 <= j < items.len() && (#[trigger] items[j]) is Resources ==> sec.resources is Some && forall|
                    x: Seq<char>,
                | sec.resources->Some_0.contains(x) <==> items[j]->Resources_0.contains(x)
            &&& (sec.resources is None <==> forall|j: int|
                0 <= j < items.len() ==> !((#[trigger] items[j]) is Resources))
        },
{
    lemma_section_fold_values(items, 0, None, None);
    if let Ruling::Accepted(sec) = section_fold(items, 0, None, None) {
        assert forall|j: int|
            0 <= j < items.len() && (#[trigger] items[j]) is Resources implies sec.resources is Some && forall|
                x: Seq<char>,
            | sec.resources->Some_0.contains(x) <==> items[j]->Resources_0.contains(x) by {
            assert forall|x: Seq<char>| sec.resources->Some_0.contains(x) <==> items[j]->Resources_0.contains(x) by {
                lemma_set_of(items[j]->Resources_0, x);
            }
        }
    }
}

/// Each resource of `resources: { .. }` has the type and the initializer
/// of the last declaration of its name.
pub proof fn law_statics_have_their_declarations(items: Seq<ResFieldsModel>, k: Seq<char>)
    ensures
        statics_fold(items).contains_key(k) ==> exists|i: int|
            0 <= i < items.len() && (#[trigger] items[i]).ident == k && (forall|h: int|
                i < h < items.len() ==> (#[trigger] items[h]).ident != k) && statics_fold(items)[k]
                == (StaticModel { expr: items[i].expr, ty: items[i].ty }),
    decreases items.len(),
{
    if items.len() > 0 {
        let n = items.len() - 1;
        law_statics_have_their_declarations(items.drop_last(), k);
        if statics_fold(items).contains_key(k) && items[n].ident != k {
            let i = choose|i: int|
                0 <= i < items.drop_last().len() && (#[trigger] items.drop_last()[i]).ident == k && (forall|h: int|
                    i < h < items.drop_last().len() ==> (#[trigger] items.drop_last()[h]).ident != k)
                    && statics_fold(items.drop_last())[k] == StaticModel {
                    expr: items.drop_last()[i].expr,
                    ty: items.drop_last()[i].ty,
                };
            assert(items[i] == items.drop_last()[i]);
            assert forall|h: int| i < h < items.len() implies (#[trigger] items[h]).ident != k by {
                if h < n {
                    assert(items[h] == items.drop_last()[h]);
                }
            }
        }
        if items[n].ident == k {
            assert(items[n].ident == k);
        }
    }
}

/// Each task of `tasks: { .. }` is what the body of the last task of its
/// name gives.
pub proof fn law_tasks_have_their_bodies(entries: Seq<(Seq<char>, Seq<Token>)>, k: Seq<char>)
    ensures
        tasks_fold(entries) matches Ruling::Accepted(m) ==> (m.contains_key(k) ==> exists|i: int|
            0 <= i < entries.len() && (#[trigger] entries[i]).0 == k && (forall|h: int|
                i < h < entries.len() ==> (#[trigger] entries[h]).0 != k) && task_outcome(entries[i].1)
                == Ruling::Accepted(m[k])),
    decreases entries.len(),
{
    if entries.len() > 0 {
        let n = entries.len() - 1;
        let earlier = entries.drop_last();
        law_tasks_have_their_bodies(earlier, k);
        if let Ruling::Accepted(m) = tasks_fold(entries) {
            if m.contains_key(k) && entries[n].0 != k {
                let m0 = tasks_fold(earlier)->Accepted_0;
                let i = choose|i: int|
                    0 <= i < earlier.len() && (#[trigger] earlier[i]).0 == k && (forall|h: int|
                        i < h < earlier.len() ==> (#[trigger] earlier[h]).0 != k) && task_outcome(earlier[i].1)
                        == Ruling::Accepted(m0[k]);
                assert(entries[i] == earlier[i]);
                assert forall|h: int| i < h < entries.len() implies (#[trigger] entries[h]).0 != k by {
                    if h < n {
                        assert(entries[h] == earlier[h]);
                    }
                }
            }
        }
    }
}

proof fn lemma_fold_section_values(fields: Seq<(Seq<char>, AppValueModel, int)>, i: int, st: AppState)
    requires
        0 <= i,
    ensures
        fields_fold(fields, i, st) matches Ruling::Accepted(m) ==> {
            &&& m.init matches Some(sec) ==> st.init == Some(sec) || exists|j: int|
                i <= j < fields.len() && (#[trigger] fields[j]).0 == "init"@ && fields[j].1 is Block
                    && section_outcome(fields[j].1->Block_0) == Ruling::Accepted(sec)
            &&& m.idle matches Some(sec) ==> st.idle == Some(sec) || exists|j: int|
                i <= j < fields.len() && (#[trigger] fields[j]).0 == "idle"@ && fields[j].1 is Block
                    && section_outcome(fields[j].1->Block_0) == Ruling::Accepted(sec)
            &&& m.resources matches Some(r) ==> st.resources == Some(r) || exists|j: int|
                i <= j < fields.len() && (#[trigger] fields[j]).0 == "resources"@ && fields[j].1 is Block
                    && statics_outcome(fields[j].1->Block_0) == Ruling::Accepted(r)
            &&& m.tasks matches Some(t) ==> st.tasks == Some(t) || exists|j: int|
                i <= j < fields.len() && (#[trigger] fields[j]).0 == "tasks"@ && fields[j].1 is Block
                    && tasks_outcome(fields[j].1->Block_0) == Ruling::Accepted(t)
        },
    decreases fields.len() - i,
{
    if i < fields.len() {
        if let Ruling::Accepted(st2) = field_step(fields[i].0, fields[i].1, st) {
            lemma_fold_section_values(fields, i + 1, st2);
            lemma_field_step_sections(fields[i].0, fields[i].1, st);
        }
    }
}

/// In what `App::parse` accepts, `init`, `idle`, `resources` and `tasks`
/// are each what the block of a field of that name gives.
pub proof fn law_app_sections_come_from_their_fields(toks: Seq<Token>)
    ensures
        app_outcome(toks) matches Ruling::Accepted(m) ==> (top_fields(toks) matches Outcome::Parsed(fields, _) && {
            &&& m.init matches Some(sec) ==> exists|j: int|
                0 <= j < fields.len() && (#[trigger] fields[j]).0 == "init"@ && fields[j].1 is Block
                    && section_outcome(fields[j].1->Block_0) == Ruling::Accepted(sec)
            &&& m.idle matches Some(sec) ==> exists|j: int|
                0 <= j < fields.len() && (#[trigger] fields[j]).0 == "idle"@ && fields[j].1 is Block
                    && section_outcome(fields[j].1->Block_0) == Ruling::Accepted(sec)
            &&& m.resources matches Some(r) ==> exists|j: int|
                0 <= j < fields.len() && (#[trigger] fields[j]).0 == "resources"@ && fields[j].1 is Block
                    && statics_outcome(fields[j].1->Block_0) == Ruling::Accepted(r)
            &&& m.tasks matches Some(t) ==> exists|j: int|
                0 <= j < fields.len() && (#[trigger] fields[j]).0 == "tasks"@ && fields[j].1 is Block
                    && tasks_outcome(fields[j].1->Block_0) == Ruling::Accepted(t)
        }),
{
    if let Outcome::Parsed(fields, _) = top_fields(toks) {
        lemma_fold_section_values(fields, 0, empty_state());
    }
}

/// Every report of a repeated name is about a field whose name an earlier
/// field has: it gives that name, the position of that field and the
/// position of the first field so named.
pub proof fn law_duplicates_are_repeats<V>(fields: Seq<(Seq<char>, V, int)>)
    ensures
        forall|k: int|
            0 <= k < duplicates_of(fields).len() ==> exists|i: int, j: int|
                #![trigger fields[i], fields[j]]
                0 <= i < j < fields.len() && fields[i].0 == (#[trigger] duplicates_of(fields)[k]).name
                    && fields[j].0 == duplicates_of(fields)[k].name && duplicates_of(fields)[k].at == fields[j].2
                    && duplicates_of(fields)[k].first == fields[i].2 && forall|h: int|
                    0 <= h < i ==> (#[trigger] fields[h]).0 != fields[i].0,
    decreases fields.len(),
{
    if fields.len() > 0 {
        let n = fields.len() - 1;
        let earlier = fields.drop_last();
        let k0 = fields.last().0;
        law_duplicates_are_repeats(earlier);
        lemma_first_named(earlier, k0);
        let d0 = duplicates_of(earlier);
        let d = duplicates_of(fields);
        assert forall|k: int| 0 <= k < d.len() implies exists|i: int, j: int|
            #![trigger fields[i], fields[j]]
            0 <= i < j < fields.len() && fields[i].0 == (#[trigger] d[k]).name && fields[j].0 == d[k].name
                && d[k].at == fields[j].2 && d[k].first == fields[i].2 && forall|h: int|
                0 <= h < i ==> (#[trigger] fields[h]).0 != fields[i].0 by {
            if k < d0.len() {
                assert(d[k] == d0[k]);
                let (i, j) = choose|i: int, j: int|
                    #![trigger earlier[i], earlier[j]]
                    0 <= i < j < earlier.len() && earlier[i].0 == d0[k].name && earlier[j].0 == d0[k].name
                        && d0[k].at == earlier[j].2 && d0[k].first == earlier[i].2 && forall|h: int|
                        0 <= h < i ==> (#[trigger] earlier[h]).0 != earlier[i].0;
                assert(fields[i] == earlier[i] && fields[j] == earlier[j]);
                assert forall|h: int| 0 <= h < i implies (#[trigger] fields[h]).0 != fields[i].0 by {
                    assert(fields[h] == earlier[h]);
                }
            } else {
                let f = first_named(earlier, k0);
                assert(fields[f] == earlier[f]);
                assert forall|h: int| 0 <= h < f implies (#[trigger] fields[h]).0 != fields[f].0 by {
                    assert(fields[h] == earlier[h]);
                }
                assert(fields[n].0 == d[k].name && d[k].at == fields[n].2 && d[k].first == fields[f].2);
            }
        }
    }
}

/// Every field whose name an earlier field has is reported, with its name
/// and its position.
pub proof fn law_repeats_are_reported<V>(fields: Seq<(Seq<char>, V, int)>)
    ensures
        forall|i: int, j: int|
            0 <= i < j < fields.len() && #[trigger] fields[i].0 == #[trigger] fields[j].0 ==> exists|k: int|
                0 <= k < duplicates_of(fields).len() && (#[trigger] duplicates_of(fields)[k]).at == fields[j].2
                    && duplicates_of(fields)[k].name == fields[j].0,
    decreases fields.len(),
{
    if fields.len() > 0 {
        let n = fields.len() - 1;
        let earlier = fields.drop_last();
        let k0 = fields.last().0;
        law_repeats_are_reported(earlier);
        lemma_first_named(earlier, k0);
        let d0 = duplicates_of(earlier);
        let d = duplicates_of(fields);
        assert forall|i: int, j: int|
            0 <= i < j < fields.len() && #[trigger] fields[i].0 == #[trigger] fields[j].0 implies exists|k: int|
                0 <= k < d.len() && (#[trigger] d[k]).at == fields[j].2 && d[k].name == fields[j].0 by {
            if j < n {
                assert(earlier[i] == fields[i] && earlier[j] == fields[j]);
                assert(earlier[i].0 == earlier[j].0);
                let k = choose|k: int|
                    0 <= k < d0.len() && (#[trigger] d0[k]).at == earlier[j].2 && d0[k].name == earlier[j].0;
                assert(d[k] == d0[k]);
            } else {
                assert(earlier[i] == fields[i]);
                assert(earlier[i].0 == k0);
                assert(d[d0.len() as int].at == fields[j].2);
            }
        }
    }
}

/// The token at `pos` is `[..]` holding the identifiers `ids`, at least
/// one, with a comma between each two.
pub open spec fn bracket_of_idents(toks: Seq<Token>, pos: int, ids: Seq<Seq<char>>) -> bool {
    &&& group_at(toks, pos, Delimiter::Bracket) is Some
    &&& ids.len() > 0
    &&& group_at(toks, pos, Delimiter::Bracket)->Some_0.len() == 2 * ids.len() - 1
    &&& forall|k: int|
        0 <= k < ids.len() ==> group_at(toks, pos, Delimiter::Bracket)->Some_0[2 * k] == Token::Ident(
            #[trigger] ids[k],
        ) && syn_accepts_ident(ids[k])
    &&& forall|k: int|
        0 <= k < ids.len() - 1 ==> punct_at(group_at(toks, pos, Delimiter::Bracket)->Some_0, #[trigger] (2 * k + 1), ',')
}

proof fn lemma_idents_read_in_turn(inner: Seq<Token>, p: int, ids: Seq<Seq<char>>, end: int)
    requires
        0 <= p,
        read_in_turn(grammar_fn::<String>(inner), grammar_fn::<Comma>(inner), p, ids, end, false),
    ensures
        end == p + 2 * ids.len() - 1,
        forall|k: int| 0 <= k < ids.len() ==> inner[p + 2 * k] == Token::Ident(#[trigger] ids[k]) && syn_accepts_ident(ids[k]),
        forall|k: int| 0 <= k < ids.len() - 1 ==> punct_at(inner, #[trigger] (p + 2 * k + 1), ','),
    decreases ids.len(),
{
    if ids.len() > 1 {
        let rest = ids.drop_first();
        lemma_idents_read_in_turn(inner, p + 2, rest, end);
        assert forall|k: int| 0 <= k < ids.len() implies inner[p + 2 * k] == Token::Ident(#[trigger] ids[k])
            && syn_accepts_ident(ids[k]) by {
            if k > 0 {
                assert(ids[k] == rest[k - 1]);
                assert(p + 2 + 2 * (k - 1) == p + 2 * k);
            }
        }
        assert forall|k: int| 0 <= k < ids.len() - 1 implies punct_at(inner, #[trigger] (p + 2 * k + 1), ',') by {
            if k > 0 {
                assert(p + 2 + 2 * (k - 1) + 1 == p + 2 * k + 1);
                assert(punct_at(inner, p + 2 + 2 * (k - 1) + 1, ','));
            }
        }
    }
}

/// The list `[..]` of a `resources` field holds exactly the identifiers
/// written in it, in order, at least one, with a comma between each two.
pub proof fn law_ident_list_is_what_is_written(toks: Seq<Token>, pos: int)
    ensures
        ident_list_outcome(toks, pos) matches Outcome::Parsed(ids, e) ==> e == pos + 1 && bracket_of_idents(
            toks,
            pos,
            ids,
        ),
{
    if let Some(inner) = group_at(toks, pos, Delimiter::Bracket) {
        law_list_holds_the_elements_read(
            grammar_fn::<String>(inner),
            grammar_fn::<Comma>(inner),
            inner.len() as int,
            0,
            false,
        );
        if let Outcome::Parsed(ids, e) = ident_list_outcome(toks, pos) {
            assert(ids.len() > 0);
            assert(read_in_turn(grammar_fn::<String>(inner), grammar_fn::<Comma>(inner), 0, ids, inner.len() as int, false));
            lemma_idents_read_in_turn(inner, 0, ids, inner.len() as int);
            assert forall|k: int| 0 <= k < ids.len() implies inner[2 * k] == Token::Ident(#[trigger] ids[k])
                && syn_accepts_ident(ids[k]) by {
                assert(inner[0 + 2 * k] == Token::Ident(ids[k]));
            }
            assert forall|k: int| 0 <= k < ids.len() - 1 implies punct_at(inner, #[trigger] (2 * k + 1), ',') by {
                assert(punct_at(inner, 0 + 2 * k + 1, ','));
            }
        }
    }
}

/// What a field of a task says, from `pos` to `e`: its name, a colon and
/// its value as written.
pub open spec fn task_field_written(toks: Seq<Token>, pos: int, f: TaskFieldModel, e: int) -> bool {
    &&& punct_at(toks, pos + 1, ':')
    &&& match f {
        TaskFieldModel::Path(p) => keyword_at(toks, pos, "path"@) && Path::outcome(toks, pos + 2) == Outcome::Parsed(
            p,
            e,
        ),
        TaskFieldModel::Resources(ids) => keyword_at(toks, pos, "resources"@) && e == pos + 3 && bracket_of_idents(
            toks,
            pos + 2,
            ids,
        ),
        TaskFieldModel::Prio(v) => keyword_at(toks, pos, "priority"@) && e == pos + 3 && toks[pos + 2]
            == Token::Literal(toks[pos + 2]->Literal_0) && syn_lit_int_value(toks[pos + 2]->Literal_0) == Some(v),
        TaskFieldModel::Enabled(b) => keyword_at(toks, pos, "enabled"@) && e == pos + 3 && keyword_at(
            toks,
            pos + 2,
            if b {
                "true"@
            } else {
                "false"@
            },
        ),
        TaskFieldModel::Interarrival(v) => keyword_at(toks, pos, "interarrival"@) && e == pos + 3 && toks[pos + 2]
            == Token::Literal(toks[pos + 2]->Literal_0) && syn_lit_int_value(toks[pos + 2]->Literal_0) == Some(v),
    }
}

/// A field of a task read from `pos` is of the kind that its name says,
/// and holds the value written after the colon.
pub proof fn law_task_field_is_what_is_written(toks: Seq<Token>, pos: int)
    ensures
        EnumTask::outcome(toks, pos) matches Outcome::Parsed(f, e) ==> task_field_written(toks, pos, f, e),
{
    law_ident_list_is_what_is_written(toks, pos + 2);
}

/// A field of `init` or `idle` read from `pos` is of the kind that its name
/// says, and holds the value written after the colon.
pub proof fn law_section_field_is_what_is_written(toks: Seq<Token>, pos: int)
    ensures
        EnumIdle::outcome(toks, pos) matches Outcome::Parsed(f, e) ==> punct_at(toks, pos + 1, ':') && match f {
            IdleFieldModel::Path(p) => keyword_at(toks, pos, "path"@) && Path::outcome(toks, pos + 2)
                == Outcome::Parsed(p, e),
            IdleFieldModel::Resources(ids) => keyword_at(toks, pos, "resources"@) && e == pos + 3
                && bracket_of_idents(toks, pos + 2, ids),
        },
{
    law_ident_list_is_what_is_written(toks, pos + 2);
}

/// A top-level field read from `pos` is an identifier at `pos`, which is
/// its name and its position, a colon, and either a path, exactly as `syn`
/// reads it, or, where no path can be read there, a block in braces, whose
/// contents are the value.
pub proof fn law_top_field_is_what_is_written(toks: Seq<Token>, pos: int)
    ensures
        KeyValue::<AppValue>::outcome(toks, pos) matches Outcome::Parsed(kv, e) ==> {
            &&& kv.2 == pos
            &&& 0 <= pos < toks.len() && toks[pos] == Token::Ident(kv.0) && syn_accepts_ident(kv.0)
            &&& punct_at(toks, pos + 1, ':')
            &&& match kv.1 {
                AppValueModel::Path(p) => Path::outcome(toks, pos + 2) == Outcome::Parsed(p, e),
                AppValueModel::Block(ts) => Path::outcome(toks, pos + 2) is Failed && e == pos + 3 && toks[pos + 2]
                    == Token::Group(Delimiter::Brace, ts),
            }
        },
{
}

/// A task entry read from `pos` is an identifier, which is the task's
/// name, a colon and a block in braces, whose contents are its body.
pub proof fn law_task_entry_is_what_is_written(toks: Seq<Token>, pos: int)
    ensures
        TasksParse::outcome(toks, pos) matches Outcome::Parsed(entry, e) ==> {
            &&& 0 <= pos < toks.len() && toks[pos] == Token::Ident(entry.0) && syn_accepts_ident(entry.0)
            &&& punct_at(toks, pos + 1, ':')
            &&& e == pos + 3
            &&& toks[pos + 2] == Token::Group(Delimiter::Brace, entry.1)
        },
{
}

/// The errors that the contents of a field can give: a field of `init` or
/// `idle` given twice, or a task value out of range.
pub open spec fn nested_error(e: ErrorModel) -> bool {
    e is PathTwice || e is ResourcesTwice || e is PriorityOutOfRange || e is InterarrivalOutOfRange
}

proof fn lemma_section_fold_errors(
    items: Seq<IdleFieldModel>,
    i: int,
    path: Option<Seq<Token>>,
    res: Option<Set<Seq<char>>>,
)
    ensures
        section_fold(items, i, path, res) matches Ruling::Refused(e) ==> nested_error(e),
        !(section_fold(items, i, path, res) is Panics),
    decreases items.len() - i,
{
    if i < items.len() {
        match items[i] {
            IdleFieldModel::Path(p) => {
                lemma_section_fold_errors(items, i + 1, Some(p), res);
            },
            IdleFieldModel::Resources(ids) => {
                lemma_section_fold_errors(items, i + 1, path, Some(set_of(ids)));
            },
        }
    }
}

proof fn lemma_task_fold_errors(items: Seq<TaskFieldModel>)
    ensures
        task_fold(items) matches Ruling::Refused(e) ==> nested_error(e),
    decreases items.len(),
{
    if items.len() > 0 {
        lemma_task_fold_errors(items.drop_last());
    }
}

proof fn lemma_tasks_fold_errors(entries: Seq<(Seq<char>, Seq<Token>)>)
    ensures
        tasks_fold(entries) matches Ruling::Refused(e) ==> nested_error(e),
    decreases entries.len(),
{
    if entries.len() > 0 {
        lemma_tasks_fold_errors(entries.drop_last());
        if let Outcome::Parsed(items, _) = terminated_nonempty_outcome(
            grammar_fn::<EnumTask>(entries.last().1),
            grammar_fn::<Comma>(entries.last().1),
            entries.last().1.len() as int,
            0,
        ) {
            lemma_task_fold_errors(items);
        }
    }
}

proof fn lemma_field_step_errors(key: Seq<char>, value: AppValueModel, st: AppState)
    ensures
        field_step(key, value, st) matches Ruling::Refused(e) ==> {
            ||| e == ErrorModel::IllegalField(key) && !known_field(key)
            ||| e is DeviceNotPath && key == "device"@ && value is Block
            ||| e is InitTwice && key == "init"@
            ||| nested_error(e)
        },
        field_step(key, value, st) matches Ruling::Accepted(st2) ==> (st.device is Some ==> st2.device is Some) && (
        key == "device"@ ==> st2.device is Some),
{
    if let AppValueModel::Block(ts) = value {
        if let Outcome::Parsed(items, _) = terminated_nonempty_outcome(
            grammar_fn::<EnumIdle>(ts),
            grammar_fn::<Comma>(ts),
            ts.len() as int,
            0,
        ) {
            lemma_section_fold_errors(items, 0, None, None);
        }
        if let Outcome::Parsed(entries, _) = terminated_nonempty_outcome(
            grammar_fn::<TasksParse>(ts),
            grammar_fn::<Comma>(ts),
            ts.len() as int,
            0,
        ) {
            lemma_tasks_fold_errors(entries);
        }
    }
}

proof fn lemma_fold_errors(fields: Seq<(Seq<char>, AppValueModel, int)>, i: int, st: AppState)
    requires
        0 <= i,
    ensures
        fields_fold(fields, i, st) matches Ruling::Refused(e) ==> {
            &&& e matches ErrorModel::IllegalField(k) ==> exists|j: int|
                i <= j < fields.len() && (#[trigger] fields[j]).0 == k && !known_field(k)
            &&& e is DeviceNotPath ==> exists|j: int|
                i <= j < fields.len() && (#[trigger] fields[j]).0 == "device"@ && fields[j].1 is Block
            &&& e is DeviceMissing ==> st.device is None && forall|j: int|
                i <= j < fields.len() ==> (#[trigger] fields[j]).0 != "device"@
        },
    decreases fields.len() - i,
{
    if i < fields.len() {
        lemma_field_step_errors(fields[i].0, fields[i].1, st);
        if let Ruling::Accepted(st2) = field_step(fields[i].0, fields[i].1, st) {
            lemma_fold_errors(fields, i + 1, st2);
        }
    }
}

/// Where `App::parse` refuses the input for an illegal field, the input
/// gives a field of that name and `app!` knows no field so named; where it
/// refuses it because `device` is not a path, a `device` field holds a
/// block; and it refuses it for a missing `device` only where no field is
/// named `device`.
pub proof fn law_app_refusals_name_their_cause(toks: Seq<Token>)
    ensures
        top_fields(toks) matches Outcome::Parsed(fields, _) ==> {
            &&& app_outcome(toks) matches Ruling::Refused(ErrorModel::IllegalField(k)) ==> exists|j: int|
                0 <= j < fields.len() && (#[trigger] fields[j]).0 == k && !known_field(k)
            &&& app_outcome(toks) == Ruling::<AppModel>::Refused(ErrorModel::DeviceNotPath) ==> exists|j: int|
                0 <= j < fields.len() && (#[trigger] fields[j]).0 == "device"@ && fields[j].1 is Block
            &&& app_outcome(toks) == Ruling::<AppModel>::Refused(ErrorModel::DeviceMissing) ==> forall|j: int|
                0 <= j < fields.len() ==> (#[trigger] fields[j]).0 != "device"@
        },
{
    if let Outcome::Parsed(fields, _) = top_fields(toks) {
        lemma_fold_errors(fields, 0, empty_state());
    }
}

} // verus!
