//! Parsers over token trees: what a parse can come to, the grammar trait
//! that the syntax nodes of `app!` implement, and the primitive parsers.
use vstd::prelude::*;
use core::marker::PhantomData;
use crate::error::{Cursor, ParseError, PResult};
use crate::rust_syntax::{accepts_ident, lit_int_value, syn_accepts_ident, syn_lit_int_value};
use crate::token::{model, Token, TokenTree};

verus! {

/// What a parser does with a sequence of tokens from a position on: it
/// reads a value and stops at a position, gives up (raising a diagnostic or
/// not), or panics.
pub enum Outcome<V> {
    Parsed(V, int),
    Failed(Option<(int, Seq<char>)>),
    Panics,
}

/// What an executed parser did.
pub enum Step<T> {
    Parsed(T, Cursor),
    Failed(ParseError),
    Panicked,
}

/// The step `s` is the outcome `o`.
pub open spec fn agrees<T: View>(s: Step<T>, o: Outcome<T::V>) -> bool {
    match s {
        Step::Parsed(v, e) => o == Outcome::Parsed(v@, e as int),
        Step::Failed(err) => o == Outcome::<T::V>::Failed(err@),
        Step::Panicked => o is Panics,
    }
}

/// A successful parse from `pos` reads at least one token and stays within
/// the `len` tokens.
pub open spec fn progress<V>(o: Outcome<V>, pos: int, len: int) -> bool {
    o matches Outcome::Parsed(_, e) ==> pos < e <= len
}

/// The parse result that the step `s` stands for, where it did not panic.
pub open spec fn presult_agrees<T: View>(r: PResult<T>, o: Outcome<T::V>) -> bool {
    match r {
        Ok((v, e)) => o == Outcome::Parsed(v@, e as int),
        Err(err) => o == Outcome::<T::V>::Failed(err@),
    }
}

impl<T> Step<T> {
    /// The parse result of a step that did not panic.
    pub fn into_presult(self) -> (r: PResult<T>)
        requires
            !(self is Panicked),
        ensures
            match self {
                Step::Parsed(v, e) => r == Ok::<(T, Cursor), ParseError>((v, e)),
                Step::Failed(err) => r == Err::<(T, Cursor), ParseError>(err),
                Step::Panicked => false,
            },
    {
        match self {
            Step::Parsed(v, e) => Ok((v, e)),
            Step::Failed(err) => Err(err),
            Step::Panicked => Err(ParseError { diagnostic: None }),
        }
    }
}

/// A syntax node that can be parsed from token trees.
pub trait Grammar: Sized + View {
    /// What parsing this node from `pos` on comes to.
    spec fn outcome(toks: Seq<Token>, pos: int) -> Outcome<Self::V>;

    proof fn lemma_progress(toks: Seq<Token>, pos: int)
        requires
            0 <= pos <= toks.len(),
        ensures
            progress(Self::outcome(toks, pos), pos, toks.len() as int),
    ;

    fn parse_step(toks: &Vec<TokenTree>, pos: Cursor) -> (r: Step<Self>)
        requires
            pos <= toks.len(),
        ensures
            agrees(r, Self::outcome(model(toks), pos as int)),
    ;
}

/// A parser of values of type `T`, given as a value.
pub trait Parser<T: View> {
    spec fn outcome(&self, toks: Seq<Token>, pos: int) -> Outcome<T::V>;

    proof fn lemma_progress(&self, toks: Seq<Token>, pos: int)
        requires
            0 <= pos <= toks.len(),
        ensures
            progress(self.outcome(toks, pos), pos, toks.len() as int),
    ;

    fn parse_step(&self, toks: &Vec<TokenTree>, pos: Cursor) -> (r: Step<T>)
        requires
            pos <= toks.len(),
        ensures
            agrees(r, self.outcome(model(toks), pos as int)),
    ;
}

/// The parser of `T` by its own grammar.
pub struct Element<T> {
    _marker: PhantomData<T>,
}

impl<T> Element<T> {
    pub fn new() -> Self {
        Element { _marker: PhantomData }
    }
}

impl<T: Grammar> Parser<T> for Element<T> {
    open spec fn outcome(&self, toks: Seq<Token>, pos: int) -> Outcome<T::V> {
        T::outcome(toks, pos)
    }

    proof fn lemma_progress(&self, toks: Seq<Token>, pos: int) {
        T::lemma_progress(toks, pos);
    }

    fn parse_step(&self, toks: &Vec<TokenTree>, pos: Cursor) -> (r: Step<T>) {
        T::parse_step(toks, pos)
    }
}

/// A failure that raises no diagnostic.
pub fn failed<T>() -> (r: Step<T>)
    ensures
        r matches Step::Failed(e) && e@ == None::<(int, Seq<char>)>,
{
    Step::Failed(ParseError { diagnostic: None })
}

// ---------------------------------------------------------------------------
// Single tokens

/// The token at `pos` is the punctuation character `c` (whatever its
/// spacing, as `syn` reads one-character punctuation).
pub open spec fn punct_at(toks: Seq<Token>, pos: int, c: char) -> bool {
    0 <= pos < toks.len() && (toks[pos] matches Token::Punct(ch, _) && ch == c)
}

/// The token at `pos` is the word `kw`.
pub open spec fn keyword_at(toks: Seq<Token>, pos: int, kw: Seq<char>) -> bool {
    0 <= pos < toks.len() && (toks[pos] matches Token::Ident(s) && s == kw)
}

pub fn punct_is(toks: &Vec<TokenTree>, pos: Cursor, c: char) -> (r: bool)
    ensures
        r == punct_at(model(toks), pos as int, c),
{
    if pos < toks.len() {
        match &toks[pos] {
            TokenTree::Punct(ch, _) => *ch == c,
            _ => false,
        }
    } else {
        false
    }
}

pub fn keyword_is(toks: &Vec<TokenTree>, pos: Cursor, kw: &str) -> (r: bool)
    ensures
        r == keyword_at(model(toks), pos as int, kw@),
{
    if pos < toks.len() {
        match &toks[pos] {
            TokenTree::Ident(s) => {
                let k = String::from_str(kw);
                *s == k
            },
            _ => false,
        }
    } else {
        false
    }
}

/// An identifier: a word that `syn` takes for one.
pub open spec fn ident_outcome(toks: Seq<Token>, pos: int) -> Outcome<Seq<char>> {
    if 0 <= pos < toks.len() && (toks[pos] matches Token::Ident(s) && syn_accepts_ident(s)) {
        Outcome::Parsed(toks[pos]->Ident_0, pos + 1)
    } else {
        Outcome::Failed(None)
    }
}

impl Grammar for String {
    open spec fn outcome(toks: Seq<Token>, pos: int) -> Outcome<Seq<char>> {
        ident_outcome(toks, pos)
    }

    proof fn lemma_progress(toks: Seq<Token>, pos: int) {
    }

    fn parse_step(toks: &Vec<TokenTree>, pos: Cursor) -> (r: Step<String>) {
        if pos < toks.len() {
            match &toks[pos] {
                TokenTree::Ident(s) => {
                    if accepts_ident(s) {
                        return Step::Parsed(s.clone(), pos + 1);
                    }
                },
                _ => {},
            }
        }
        failed()
    }
}

/// An integer literal, by its value.
pub open spec fn lit_int_outcome(toks: Seq<Token>, pos: int) -> Outcome<u64> {
    if 0 <= pos < toks.len() && (toks[pos] matches Token::Literal(s) && syn_lit_int_value(s) is Some) {
        Outcome::Parsed(syn_lit_int_value(toks[pos]->Literal_0)->Some_0, pos + 1)
    } else {
        Outcome::Failed(None)
    }
}

pub fn parse_lit_int(toks: &Vec<TokenTree>, pos: Cursor) -> (r: Step<u64>)
    ensures
        agrees(r, lit_int_outcome(model(toks), pos as int)),
{
    if pos < toks.len() {
        match &toks[pos] {
            TokenTree::Literal(s) => {
                match lit_int_value(s) {
                    Some(v) => {
                        return Step::Parsed(v, pos + 1);
                    },
                    None => {},
                }
            },
            _ => {},
        }
    }
    failed()
}

/// A boolean literal: the word `true` or `false` (the lexer reads those as
/// words, never as literal tokens).
pub open spec fn lit_bool_outcome(toks: Seq<Token>, pos: int) -> Outcome<bool> {
    if keyword_at(toks, pos, "true"@) {
        Outcome::Parsed(true, pos + 1)
    } else if keyword_at(toks, pos, "false"@) {
        Outcome::Parsed(false, pos + 1)
    } else {
        Outcome::Failed(None)
    }
}

pub fn parse_lit_bool(toks: &Vec<TokenTree>, pos: Cursor) -> (r: Step<bool>)
    ensures
        agrees(r, lit_bool_outcome(model(toks), pos as int)),
{
    if pos < toks.len() && keyword_is(toks, pos, "true") {
        Step::Parsed(true, pos + 1)
    } else if pos < toks.len() && keyword_is(toks, pos, "false") {
        Step::Parsed(false, pos + 1)
    } else {
        failed()
    }
}

// ---------------------------------------------------------------------------
// Separators

/// The punctuation `,`.
#[derive(Debug)]
pub struct Comma;

/// The punctuation `;`.
#[derive(Debug)]
pub struct Semicolon;

impl View for Comma {
    type V = ();

    open spec fn view(&self) -> () {
        ()
    }
}

impl View for Semicolon {
    type V = ();

    open spec fn view(&self) -> () {
        ()
    }
}

pub open spec fn punct_outcome(toks: Seq<Token>, pos: int, c: char) -> Outcome<()> {
    if punct_at(toks, pos, c) {
        Outcome::Parsed((), pos + 1)
    } else {
        Outcome::Failed(None)
    }
}

impl Grammar for Comma {
    open spec fn outcome(toks: Seq<Token>, pos: int) -> Outcome<()> {
        punct_outcome(toks, pos, ',')
    }

    proof fn lemma_progress(toks: Seq<Token>, pos: int) {
    }

    fn parse_step(toks: &Vec<TokenTree>, pos: Cursor) -> (r: Step<Comma>) {
        if punct_is(toks, pos, ',') {
            Step::Parsed(Comma, pos + 1)
        } else {
            failed()
        }
    }
}

impl Grammar for Semicolon {
    open spec fn outcome(toks: Seq<Token>, pos: int) -> Outcome<()> {
        punct_outcome(toks, pos, ';')
    }

    proof fn lemma_progress(toks: Seq<Token>, pos: int) {
    }

    fn parse_step(toks: &Vec<TokenTree>, pos: Cursor) -> (r: Step<Semicolon>) {
        if punct_is(toks, pos, ';') {
            Step::Parsed(Semicolon, pos + 1)
        } else {
            failed()
        }
    }
}

} // verus!
