//! Parser of the `app!` macro used by the Real Time For the Masses (RTFM)
//! framework.
//!
//! The macro's input is taken as a sequence of token trees (see [`token`]);
//! the pieces of Rust syntax in it (paths, types, expressions, literals) are
//! read by `syn`.
use vstd::prelude::*;

pub mod token;
pub mod rust_syntax;
pub mod error;
pub mod grammar;
pub mod separated;
pub mod syntax;
pub mod collections;
pub mod util;
pub mod parse;

use crate::collections::{IdentMap, IdentSet};
use crate::syntax::{Expr, Path, Type};
use crate::error::Error;
use crate::parse::{app_outcome, parse_app, parses_without_panic, Ruling};
use crate::token::{model, Token, TokenTree};

verus! {

/// `[$($ident),*]`
pub type Resources = IdentSet;

/// `$(static $Ident: $Ty = $expr;)*`
pub type Statics = IdentMap<Static>;

/// `$($Ident: { .. },)*`
pub type Tasks = IdentMap<Task>;

/// `app! { .. }`
#[derive(Debug)]
#[non_exhaustive]
pub struct App {
    /// `device: $path`
    pub device: Path,
    /// `idle: { $Idle }`
    pub idle: Option<Idle>,
    /// `init: { $Init }`
    pub init: Option<Init>,
    /// `resources: $Statics`
    pub resources: Option<Statics>,
    /// `tasks: { $Tasks }`
    pub tasks: Option<Tasks>,
}

/// `idle: { .. }`
#[derive(Debug, PartialEq)]
#[non_exhaustive]
pub struct Idle {
    /// `path: $Path`
    pub path: Option<Path>,
    /// `resources: $Resources`
    pub resources: Option<Resources>,
}

/// `init: { .. }`
#[derive(Debug, PartialEq)]
#[non_exhaustive]
pub struct Init {
    /// `path: $Path`
    pub path: Option<Path>,
    /// `resources: $Resources`
    pub resources: Option<Resources>,
}

/// `$Ident: { .. }`
#[derive(Debug)]
#[non_exhaustive]
pub struct Task {
    /// `enabled: $bool`
    pub enabled: Option<bool>,
    /// `path: $Path`
    pub path: Option<Path>,
    /// `priority: $u8`
    pub priority: Option<u8>,
    /// `interarrival: $u32`
    pub interarrival: Option<u32>,
    /// `resources: $Resources`
    pub resources: Option<Resources>,
}

/// `static $Ident: $Ty = $Expr;`
#[derive(Debug)]
#[non_exhaustive]
pub struct Static {
    /// `$Expr`
    pub expr: Option<Expr>,
    /// `$Ty`
    pub ty: Type,
}

/// The value of `idle: { .. }` or of `init: { .. }`.
pub struct SectionModel {
    pub path: Option<Seq<Token>>,
    pub resources: Option<Set<Seq<char>>>,
}

/// The value of a task.
pub struct TaskModel {
    pub enabled: Option<bool>,
    pub path: Option<Seq<Token>>,
    pub priority: Option<u8>,
    pub interarrival: Option<u32>,
    pub resources: Option<Set<Seq<char>>>,
}

/// The value of a resource.
pub struct StaticModel {
    pub expr: Option<Seq<Token>>,
    pub ty: Seq<Token>,
}

/// The value of the contents of `app! { .. }`.
pub struct AppModel {
    pub device: Seq<Token>,
    pub idle: Option<SectionModel>,
    pub init: Option<SectionModel>,
    pub resources: Option<Map<Seq<char>, StaticModel>>,
    pub tasks: Option<Map<Seq<char>, TaskModel>>,
}

pub open spec fn opt_view<T: View>(o: Option<T>) -> Option<T::V> {
    match o {
        Some(t) => Some(t@),
        None => None,
    }
}

impl View for Idle {
    type V = SectionModel;

    open spec fn view(&self) -> SectionModel {
        SectionModel { path: opt_view(self.path), resources: opt_view(self.resources) }
    }
}

impl View for Init {
    type V = SectionModel;

    open spec fn view(&self) -> SectionModel {
        SectionModel { path: opt_view(self.path), resources: opt_view(self.resources) }
    }
}

impl View for Task {
    type V = TaskModel;

    open spec fn view(&self) -> TaskModel {
        TaskModel {
            enabled: self.enabled,
            path: opt_view(self.path),
            priority: self.priority,
            interarrival: self.interarrival,
            resources: opt_view(self.resources),
        }
    }
}

impl View for Static {
    type V = StaticModel;

    open spec fn view(&self) -> StaticModel {
        StaticModel { expr: opt_view(self.expr), ty: self.ty@ }
    }
}

impl View for App {
    type V = AppModel;

    open spec fn view(&self) -> AppModel {
        AppModel {
            device: self.device@,
            idle: opt_view(self.idle),
            init: opt_view(self.init),
            resources: opt_view(self.resources),
            tasks: opt_view(self.tasks),
        }
    }
}

impl App {
    /// Parses the contents of the `app! { .. }` macro
    pub fn parse(input: &Vec<TokenTree>) -> (r: Result<App, Error>)
        requires
            parses_without_panic(model(input)),
        ensures
            match r {
                Ok(app) => app_outcome(model(input)) == Ruling::Accepted(app@),
                Err(e) => app_outcome(model(input)) == Ruling::<AppModel>::Refused(e@),
            },
    {
        parse_app(input)
    }

    /// Parses the contents of the `app! { .. }` macro, or gives `None` where
    /// `parse` would panic.
    pub fn try_parse(input: &Vec<TokenTree>) -> (r: Option<Result<App, Error>>)
        ensures
            r is None <==> !parses_without_panic(model(input)),
            r matches Some(res) ==> match res {
                Ok(app) => app_outcome(model(input)) == Ruling::Accepted(app@),
                Err(e) => app_outcome(model(input)) == Ruling::<AppModel>::Refused(e@),
            },
    {
        if parse::would_panic(input) {
            None
        } else {
            Some(App::parse(input))
        }
    }
}

} // verus!
