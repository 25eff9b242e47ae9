//! Sequences of syntax nodes with punctuation between them.
use vstd::prelude::*;
use core::marker::PhantomData;
use crate::error::{exit_err, Cursor, ParseError, PResult};
use crate::grammar::{agrees, presult_agrees, Comma, Element, Grammar, Outcome, Parser, Semicolon, Step};
use crate::token::{model, Token, TokenTree};

verus! {

/// `xs` in front of the values that `o` read.
pub open spec fn prepend_all<V>(xs: Seq<V>, o: Outcome<Seq<V>>) -> Outcome<Seq<V>> {
    match o {
        Outcome::Parsed(vs, e) => Outcome::Parsed(xs + vs, e),
        Outcome::Failed(d) => Outcome::Failed(d),
        Outcome::Panics => Outcome::Panics,
    }
}

/// The diagnostic `msg` at `at`.
pub open spec fn complaint<V>(at: int, msg: Seq<char>) -> Outcome<V> {
    Outcome::Failed(Some((at, msg)))
}

/// The rest of a list after an element that ended at `pos`: the end, or a
/// separator and a further element, and so on; with `terminated`, one
/// separator may end the input.
pub open spec fn list_rest<V, S>(
    elem: spec_fn(int) -> Outcome<V>,
    sep: spec_fn(int) -> Outcome<S>,
    len: int,
    pos: int,
    terminated: bool,
) -> Outcome<Seq<V>>
    decreases len - pos,
{
    if pos >= len {
        Outcome::Parsed(Seq::empty(), pos)
    } else {
        match sep(pos) {
            Outcome::Panics => Outcome::Panics,
            Outcome::Failed(_) => complaint(pos, "parse error"@),
            Outcome::Parsed(_, i1) => {
                if !(pos < i1 <= len) {
                    Outcome::Failed(None)
                } else if i1 == len {
                    if terminated {
                        Outcome::Parsed(Seq::empty(), i1)
                    } else {
                        complaint(pos, "excessive separator"@)
                    }
                } else {
                    match elem(i1) {
                        Outcome::Panics => Outcome::Panics,
                        Outcome::Failed(_) => complaint(i1, "parse error"@),
                        Outcome::Parsed(o, after) => {
                            if !(i1 < after <= len) {
                                Outcome::Failed(None)
                            } else {
                                prepend_all(seq![o], list_rest(elem, sep, len, after, terminated))
                            }
                        },
                    }
                }
            },
        }
    }
}

/// A whole list from `pos`: nothing at the end of the input, or elements
/// with separators between them up to the end of the input.
pub open spec fn list_outcome<V, S>(
    elem: spec_fn(int) -> Outcome<V>,
    sep: spec_fn(int) -> Outcome<S>,
    len: int,
    pos: int,
    terminated: bool,
) -> Outcome<Seq<V>> {
    match elem(pos) {
        Outcome::Panics => Outcome::Panics,
        Outcome::Failed(_) => {
            if pos == len {
                Outcome::Parsed(Seq::empty(), pos)
            } else {
                complaint(pos, "parse error"@)
            }
        },
        Outcome::Parsed(o, i) => {
            if !(pos < i <= len) {
                Outcome::Failed(None)
            } else {
                prepend_all(seq![o], list_rest(elem, sep, len, i, terminated))
            }
        },
    }
}

/// A list that must not be empty: an empty one is refused with `empty`.
pub open spec fn nonempty<V>(o: Outcome<Seq<V>>, empty: Option<(int, Seq<char>)>) -> Outcome<Seq<V>> {
    match o {
        Outcome::Parsed(vs, e) => if vs.len() == 0 {
            Outcome::Failed(empty)
        } else {
            o
        },
        _ => o,
    }
}

/// The outcomes of parsing `T`s by `T`'s grammar.
pub open spec fn grammar_fn<T: Grammar>(toks: Seq<Token>) -> spec_fn(int) -> Outcome<T::V> {
    |p: int| T::outcome(toks, p)
}

/// The outcomes of parsing by the parser `f`.
pub open spec fn parser_fn<T: View, F: Parser<T>>(f: &F, toks: Seq<Token>) -> spec_fn(int) -> Outcome<T::V> {
    |p: int| f.outcome(toks, p)
}

proof fn lemma_prepend_all<V>(xs: Seq<V>, o: V, r: Outcome<Seq<V>>)
    ensures
        prepend_all(xs, prepend_all(seq![o], r)) == prepend_all(xs.push(o), r),
{
    if let Outcome::Parsed(vs, e) = r {
        assert(xs + (seq![o] + vs) =~= xs.push(o) + vs);
    }
}


/// A punctuated sequence of `T` with `P` between the elements.
#[derive(Debug)]
pub struct Pu<T, P> {
    inner: Vec<T>,
    _marker: PhantomData<P>,
}

impl<T: View, P> View for Pu<T, P> {
    type V = Seq<T::V>;

    closed spec fn view(&self) -> Seq<T::V> {
        self.inner@.map_values(|t: T| t@)
    }
}

fn give_up<T>(at: Cursor, msg: &str) -> (r: Step<T>)
    ensures
        r matches Step::Failed(e) && e@ == Some((at as int, msg@)),
{
    match exit_err::<T>(at, String::from_str(msg)) {
        Ok(_) => Step::Failed(ParseError { diagnostic: None }),
        Err(e) => Step::Failed(e),
    }
}

impl<T: View, P> Pu<T, P> {
    /// Creates an empty punctuated sequence.
    pub fn new() -> (r: Pu<T, P>)
        ensures
            r@ == Seq::<T::V>::empty(),
    {
        let r = Pu { inner: Vec::new(), _marker: PhantomData };
        assert(r@ =~= Seq::<T::V>::empty());
        r
    }

    /// Determines whether this punctuated sequence is empty, meaning it
    /// contains no syntax tree nodes or punctuation.
    pub fn is_empty(&self) -> (r: bool)
        ensures
            r == (self@.len() == 0),
    {
        self.inner.len() == 0
    }

    /// Returns the number of syntax tree nodes in this punctuated sequence.
    ///
    /// This is the number of nodes of type `T`, not counting the punctuation
    /// of type `P`.
    pub fn len(&self) -> (r: usize)
        ensures
            r == self@.len(),
    {
        self.inner.len()
    }

    /// Appends a syntax tree node onto the end of this punctuated sequence.
    /// The sequence must previously have a trailing punctuation: it holds no
    /// punctuation of its own, so it must be empty.
    pub fn push(&mut self, value: T)
        requires
            old(self)@.len() == 0,
        ensures
            final(self)@ == old(self)@.push(value@),
    {
        self.inner.push(value);
        assert(self@ =~= old(self)@.push(value@));
    }

    /// The syntax tree nodes of this sequence, in order.
    pub fn into_vec(self) -> (r: Vec<T>)
        ensures
            r@.map_values(|t: T| t@) == self@,
    {
        self.inner
    }

    /// Removes the last node from this sequence, or `None` if the sequence is
    /// empty.
    pub fn pop(&mut self) -> (r: Option<T>)
        ensures
            old(self)@.len() == 0 ==> r is None && final(self)@ == old(self)@,
            old(self)@.len() > 0 ==> (r matches Some(v) && v@ == old(self)@.last())
                && final(self)@ == old(self)@.drop_last(),
    {
        let r = self.inner.pop();
        proof {
            if old(self)@.len() > 0 {
                assert(self@ =~= old(self)@.drop_last());
            } else {
                assert(self@ =~= old(self)@);
            }
        }
        r
    }
}


impl<T: View, P: Grammar> Pu<T, P> {
    /// Parses a list from `input` to the end of `toks` with the element
    /// parser `parse`: elements with `P` between them, and with
    /// `terminated` one more `P` allowed at the end.
    fn parse<F: Parser<T>>(toks: &Vec<TokenTree>, pos: Cursor, parse: &F, terminated: bool) -> (r: Step<Self>)
        requires
            pos <= toks.len(),
        ensures
            agrees(
                r,
                list_outcome(
                    parser_fn(parse, model(toks)),
                    grammar_fn::<P>(model(toks)),
                    toks.len() as int,
                    pos as int,
                    terminated,
                ),
            ),
    {
        let mut input = pos;
        let ghost elem = parser_fn(parse, model(toks));
        let ghost sep = grammar_fn::<P>(model(toks));
        let ghost len = toks.len() as int;
        let ghost pos0 = input as int;
        let ghost whole = list_outcome(elem, sep, len, pos0, terminated);
        assert(model(toks).len() == toks.len());
        let mut res: Pu<T, P> = Pu::new();

        // get the first element
        match parse.parse_step(toks, input) {
            Step::Panicked => {
                return Step::Panicked;
            },
            Step::Failed(_) => {
                if input == toks.len() {
                    return Step::Parsed(res, input);
                } else {
                    return give_up(input, "parse error");
                }
            },
            Step::Parsed(o, i) => {
                proof {
                    parse.lemma_progress(model(toks), input as int);
                }
                let ghost o_v = o@;
                input = i;
                res.push(o);
                assert(whole == prepend_all(res@, list_rest(elem, sep, len, input as int, terminated))) by {
                    assert(res@ =~= seq![o_v]);
                }
                loop
                    invariant
                        input <= toks.len(),
                        len == toks.len(),
                        model(toks).len() == toks.len(),
                        elem == parser_fn(parse, model(toks)),
                        sep == grammar_fn::<P>(model(toks)),
                        pos0 == pos as int,
                        whole == list_outcome(elem, sep, len, pos0, terminated),
                        whole == prepend_all(res@, list_rest(elem, sep, len, input as int, terminated)),
                    decreases toks.len() - input,
                {
                    if input == toks.len() {
                        proof {
                            lemma_prepend_empty_tail(res@, input as int);
                        }
                        return Step::Parsed(res, input);
                    }
                    // get the separator first
                    match P::parse_step(toks, input) {
                        Step::Panicked => {
                            return Step::Panicked;
                        },
                        Step::Failed(_) => {
                            return give_up(input, "parse error");
                        },
                        Step::Parsed(_, i1) => {
                            proof {
                                P::lemma_progress(model(toks), input as int);
                            }
                            if i1 == toks.len() {
                                if terminated {
                                    proof {
                                        lemma_prepend_empty_tail(res@, i1 as int);
                                    }
                                    return Step::Parsed(res, i1);
                                } else {
                                    return give_up(input, "excessive separator");
                                }
                            }
                            // get next element
                            match parse.parse_step(toks, i1) {
                                Step::Panicked => {
                                    return Step::Panicked;
                                },
                                Step::Failed(_) => {
                                    return give_up(i1, "parse error");
                                },
                                Step::Parsed(o, after) => {
                                    proof {
                                        parse.lemma_progress(model(toks), i1 as int);
                                        lemma_prepend_all(res@, o@, list_rest(elem, sep, len, after as int, terminated));
                                    }
                                    input = after;
                                    let ghost before = res@;
                                    let ghost o_v = o@;
                                    res.inner.push(o);
                                    assert(res@ =~= before.push(o_v));
                                },
                            }
                        },
                    }
                }
            },
        }
    }
}

proof fn lemma_prepend_empty_tail<V>(xs: Seq<V>, e: int)
    ensures
        prepend_all(xs, Outcome::Parsed(Seq::<V>::empty(), e)) == Outcome::Parsed(xs, e),
{
    assert(xs + Seq::<V>::empty() =~= xs);
}


/// Parsing **zero or more** elements with separators between them and
/// **no trailing** separator.
pub open spec fn separated_outcome<V, S>(
    elem: spec_fn(int) -> Outcome<V>,
    sep: spec_fn(int) -> Outcome<S>,
    len: int,
    pos: int,
) -> Outcome<Seq<V>> {
    list_outcome(elem, sep, len, pos, false)
}

/// Parsing **zero or more** elements with separators between them and an
/// **optional trailing** separator.
pub open spec fn terminated_outcome<V, S>(
    elem: spec_fn(int) -> Outcome<V>,
    sep: spec_fn(int) -> Outcome<S>,
    len: int,
    pos: int,
) -> Outcome<Seq<V>> {
    list_outcome(elem, sep, len, pos, true)
}

/// Parsing **one or more** elements with separators between them and **no
/// trailing** separator; an empty list raises a diagnostic where it starts.
pub open spec fn separated_nonempty_outcome<V, S>(
    elem: spec_fn(int) -> Outcome<V>,
    sep: spec_fn(int) -> Outcome<S>,
    len: int,
    pos: int,
) -> Outcome<Seq<V>> {
    nonempty(
        list_outcome(elem, sep, len, pos, false),
        Some((pos, "expected sequence of separated elements"@)),
    )
}

/// Parsing **one or more** elements with separators between them and an
/// **optional trailing** separator; an empty list fails quietly.
pub open spec fn terminated_nonempty_outcome<V, S>(
    elem: spec_fn(int) -> Outcome<V>,
    sep: spec_fn(int) -> Outcome<S>,
    len: int,
    pos: int,
) -> Outcome<Seq<V>> {
    nonempty(list_outcome(elem, sep, len, pos, true), None)
}

/// `f` panics at no position.
pub open spec fn never_panics<V>(f: spec_fn(int) -> Outcome<V>) -> bool {
    forall|p: int| !(#[trigger] f(p) is Panics)
}

proof fn lemma_list_rest_never_panics<V, S>(
    elem: spec_fn(int) -> Outcome<V>,
    sep: spec_fn(int) -> Outcome<S>,
    len: int,
    pos: int,
    terminated: bool,
)
    requires
        never_panics(elem),
        never_panics(sep),
    ensures
        !(list_rest(elem, sep, len, pos, terminated) is Panics),
    decreases len - pos,
{
    assert(!(sep(pos) is Panics));
    if pos < len {
        if let Outcome::Parsed(_, i1) = sep(pos) {
            assert(!(elem(i1) is Panics));
            if pos < i1 < len {
                if let Outcome::Parsed(_, after) = elem(i1) {
                    if i1 < after <= len {
                        lemma_list_rest_never_panics(elem, sep, len, after, terminated);
                    }
                }
            }
        }
    }
}

/// A list whose elements and separators never make their parsers panic
/// does not make the list parsers panic either, whichever of the four
/// forms it has.
pub proof fn law_lists_of_safe_parts_never_panic<V, S>(
    elem: spec_fn(int) -> Outcome<V>,
    sep: spec_fn(int) -> Outcome<S>,
    len: int,
    pos: int,
)
    requires
        never_panics(elem),
        never_panics(sep),
    ensures
        !(separated_outcome(elem, sep, len, pos) is Panics),
        !(terminated_outcome(elem, sep, len, pos) is Panics),
        !(separated_nonempty_outcome(elem, sep, len, pos) is Panics),
        !(terminated_nonempty_outcome(elem, sep, len, pos) is Panics),
{
    assert(!(elem(pos) is Panics));
    if let Outcome::Parsed(o, i) = elem(pos) {
        lemma_list_rest_never_panics(elem, sep, len, i, false);
        lemma_list_rest_never_panics(elem, sep, len, i, true);
    }
}

/// Identifiers, commas and semicolons never make their parsers panic.
pub proof fn lemma_tokens_never_panic(toks: Seq<Token>)
    ensures
        never_panics(grammar_fn::<String>(toks)),
        never_panics(grammar_fn::<Comma>(toks)),
        never_panics(grammar_fn::<Semicolon>(toks)),
{
}

/// A list read from `pos` ends between `pos` and `len`.
pub proof fn lemma_list_rest_bounds<V, S>(
    elem: spec_fn(int) -> Outcome<V>,
    sep: spec_fn(int) -> Outcome<S>,
    len: int,
    pos: int,
    terminated: bool,
)
    requires
        pos <= len,
    ensures
        list_rest(elem, sep, len, pos, terminated) matches Outcome::Parsed(_, e) ==> pos <= e <= len,
    decreases len - pos,
{
    if pos < len {
        if let Outcome::Parsed(_, i1) = sep(pos) {
            if pos < i1 < len {
                if let Outcome::Parsed(_, after) = elem(i1) {
                    if i1 < after <= len {
                        lemma_list_rest_bounds(elem, sep, len, after, terminated);
                    }
                }
            }
        }
    }
}

/// A list from `pos` that is not empty reads at least one token and ends
/// within the input.
pub proof fn lemma_list_bounds<V, S>(
    elem: spec_fn(int) -> Outcome<V>,
    sep: spec_fn(int) -> Outcome<S>,
    len: int,
    pos: int,
    terminated: bool,
)
    requires
        0 <= pos <= len,
    ensures
        list_outcome(elem, sep, len, pos, terminated) matches Outcome::Parsed(vs, e) ==> {
            &&& pos <= e <= len
            &&& vs.len() > 0 ==> pos < e
        },
{
    if let Outcome::Parsed(o, i) = elem(pos) {
        if pos < i <= len {
            lemma_list_rest_bounds(elem, sep, len, i, terminated);
        }
    }
}

impl<T: View, P: Grammar> Pu<T, P> {
    fn nonempty_step<F: Parser<T>>(
        toks: &Vec<TokenTree>,
        input: Cursor,
        parse: &F,
        terminated: bool,
    ) -> (r: Step<Self>)
        requires
            input <= toks.len(),
        ensures
            agrees(
                r,
                nonempty(
                    list_outcome(
                        parser_fn(parse, model(toks)),
                        grammar_fn::<P>(model(toks)),
                        toks.len() as int,
                        input as int,
                        terminated,
                    ),
                    if terminated {
                        None
                    } else {
                        Some((input as int, "expected sequence of separated elements"@))
                    },
                ),
            ),
    {
        match Self::parse(toks, input, parse, terminated) {
            Step::Parsed(b, e) => {
                if b.is_empty() {
                    if terminated {
                        Step::Failed(ParseError { diagnostic: None })
                    } else {
                        give_up(input, "expected sequence of separated elements")
                    }
                } else {
                    Step::Parsed(b, e)
                }
            },
            other => other,
        }
    }

    /// Parse **zero or more** syntax tree nodes, using `parse`, with
    /// punctuation in between and **no trailing** punctuation.
    pub fn separated_step<F: Parser<T>>(toks: &Vec<TokenTree>, input: Cursor, parse: &F) -> (r: Step<Self>)
        requires
            input <= toks.len(),
        ensures
            agrees(
                r,
                separated_outcome(
                    parser_fn(parse, model(toks)),
                    grammar_fn::<P>(model(toks)),
                    toks.len() as int,
                    input as int,
                ),
            ),
    {
        Self::parse(toks, input, parse, false)
    }

    /// Parse **zero or more** syntax tree nodes, using `parse`, with
    /// punctuation in between and **optional trailing** punctuation.
    pub fn terminated_step<F: Parser<T>>(toks: &Vec<TokenTree>, input: Cursor, parse: &F) -> (r: Step<Self>)
        requires
            input <= toks.len(),
        ensures
            agrees(
                r,
                terminated_outcome(
                    parser_fn(parse, model(toks)),
                    grammar_fn::<P>(model(toks)),
                    toks.len() as int,
                    input as int,
                ),
            ),
    {
        Self::parse(toks, input, parse, true)
    }

    /// Parse **one or more** syntax tree nodes, using `parse`, with
    /// punctuation in between and **no trailing** punctuation.
    pub fn separated_nonempty_step<F: Parser<T>>(toks: &Vec<TokenTree>, input: Cursor, parse: &F) -> (r: Step<Self>)
        requires
            input <= toks.len(),
        ensures
            agrees(
                r,
                separated_nonempty_outcome(
                    parser_fn(parse, model(toks)),
                    grammar_fn::<P>(model(toks)),
                    toks.len() as int,
                    input as int,
                ),
            ),
    {
        Self::nonempty_step(toks, input, parse, false)
    }

    /// Parse **one or more** syntax tree nodes, using `parse`, with
    /// punctuation in between and **optional trailing** punctuation.
    pub fn terminated_nonempty_step<F: Parser<T>>(toks: &Vec<TokenTree>, input: Cursor, parse: &F) -> (r: Step<Self>)
        requires
            input <= toks.len(),
        ensures
            agrees(
                r,
                terminated_nonempty_outcome(
                    parser_fn(parse, model(toks)),
                    grammar_fn::<P>(model(toks)),
                    toks.len() as int,
                    input as int,
                ),
            ),
    {
        Self::nonempty_step(toks, input, parse, true)
    }

    /// Parse **zero or more** syntax tree nodes using the given parser with
    /// punctuation in between and **no trailing** punctuation.
    pub fn parse_separated_with<F: Parser<T>>(toks: &Vec<TokenTree>, input: Cursor, parse: &F) -> (r: PResult<Self>)
        requires
            input <= toks.len(),
            !(separated_outcome(
                parser_fn(parse, model(toks)),
                grammar_fn::<P>(model(toks)),
                toks.len() as int,
                input as int,
            ) is Panics),
        ensures
            presult_agrees(
                r,
                separated_outcome(
                    parser_fn(parse, model(toks)),
                    grammar_fn::<P>(model(toks)),
                    toks.len() as int,
                    input as int,
                ),
            ),
    {
        Self::separated_step(toks, input, parse).into_presult()
    }

    /// Parse **one or more** syntax tree nodes using the given parser with
    /// punctuation in between and **no trailing** punctuation.
    pub fn parse_separated_nonempty_with<F: Parser<T>>(
        toks: &Vec<TokenTree>,
        input: Cursor,
        parse: &F,
    ) -> (r: PResult<Self>)
        requires
            input <= toks.len(),
            !(separated_nonempty_outcome(
                parser_fn(parse, model(toks)),
                grammar_fn::<P>(model(toks)),
                toks.len() as int,
                input as int,
            ) is Panics),
        ensures
            presult_agrees(
                r,
                separated_nonempty_outcome(
                    parser_fn(parse, model(toks)),
                    grammar_fn::<P>(model(toks)),
                    toks.len() as int,
                    input as int,
                ),
            ),
    {
        Self::separated_nonempty_step(toks, input, parse).into_presult()
    }

    /// Parse **zero or more** syntax tree nodes using the given parser with
    /// punctuation in between and **optional trailing** punctuation.
    pub fn parse_terminated_with<F: Parser<T>>(toks: &Vec<TokenTree>, input: Cursor, parse: &F) -> (r: PResult<Self>)
        requires
            input <= toks.len(),
            !(terminated_outcome(
                parser_fn(parse, model(toks)),
                grammar_fn::<P>(model(toks)),
                toks.len() as int,
                input as int,
            ) is Panics),
        ensures
            presult_agrees(
                r,
                terminated_outcome(
                    parser_fn(parse, model(toks)),
                    grammar_fn::<P>(model(toks)),
                    toks.len() as int,
                    input as int,
                ),
            ),
    {
        Self::terminated_step(toks, input, parse).into_presult()
    }

    /// Parse **one or more** syntax tree nodes using the given parser with
    /// punctuation in between and **optional trailing** punctuation.
    pub fn parse_terminated_nonempty_with<F: Parser<T>>(
        toks: &Vec<TokenTree>,
        input: Cursor,
        parse: &F,
    ) -> (r: PResult<Self>)
        requires
            input <= toks.len(),
            !(terminated_nonempty_outcome(
                parser_fn(parse, model(toks)),
                grammar_fn::<P>(model(toks)),
                toks.len() as int,
                input as int,
            ) is Panics),
        ensures
            presult_agrees(
                r,
                terminated_nonempty_outcome(
                    parser_fn(parse, model(toks)),
                    grammar_fn::<P>(model(toks)),
                    toks.len() as int,
                    input as int,
                ),
            ),
    {
        Self::terminated_nonempty_step(toks, input, parse).into_presult()
    }

    /// Gives `res` back where `i` is at the end of `toks`, and otherwise
    /// gives up at `i` with the diagnostic `err`.
    fn exit_eof(toks: &Vec<TokenTree>, i: Cursor, res: T, err: String) -> (r: PResult<T>)
        ensures
            i == toks.len() ==> r == Ok::<(T, Cursor), ParseError>((res, i)),
            i != toks.len() ==> (r matches Err(e) && e@ == Some((i as int, err@))),
    {
        if i == toks.len() {
            Ok((res, i))
        } else {
            exit_err(i, err)
        }
    }
}


impl<T: Grammar, P: Grammar> Pu<T, P> {
    /// Parse **zero or more** syntax tree nodes with punctuation in between
    /// and **no trailing** punctuation.
    pub fn parse_separated(toks: &Vec<TokenTree>, input: Cursor) -> (r: PResult<Self>)
        requires
            input <= toks.len(),
            !(separated_outcome(
                grammar_fn::<T>(model(toks)),
                grammar_fn::<P>(model(toks)),
                toks.len() as int,
                input as int,
            ) is Panics),
        ensures
            presult_agrees(
                r,
                separated_outcome(
                    grammar_fn::<T>(model(toks)),
                    grammar_fn::<P>(model(toks)),
                    toks.len() as int,
                    input as int,
                ),
            ),
    {
        let e: Element<T> = Element::new();
        assert(parser_fn(&e, model(toks)) =~= grammar_fn::<T>(model(toks)));
        Self::parse_separated_with(toks, input, &e)
    }

    /// Parse **one or more** syntax tree nodes with punctuation in between
    /// and **no trailing** punctuation.
    pub fn parse_separated_nonempty(toks: &Vec<TokenTree>, input: Cursor) -> (r: PResult<Self>)
        requires
            input <= toks.len(),
            !(separated_nonempty_outcome(
                grammar_fn::<T>(model(toks)),
                grammar_fn::<P>(model(toks)),
                toks.len() as int,
                input as int,
            ) is Panics),
        ensures
            presult_agrees(
                r,
                separated_nonempty_outcome(
                    grammar_fn::<T>(model(toks)),
                    grammar_fn::<P>(model(toks)),
                    toks.len() as int,
                    input as int,
                ),
            ),
    {
        let e: Element<T> = Element::new();
        assert(parser_fn(&e, model(toks)) =~= grammar_fn::<T>(model(toks)));
        Self::parse_separated_nonempty_with(toks, input, &e)
    }

    /// Parse **zero or more** syntax tree nodes with punctuation in between
    /// and **optional trailing** punctuation.
    pub fn parse_terminated(toks: &Vec<TokenTree>, input: Cursor) -> (r: PResult<Self>)
        requires
            input <= toks.len(),
            !(terminated_outcome(
                grammar_fn::<T>(model(toks)),
                grammar_fn::<P>(model(toks)),
                toks.len() as int,
                input as int,
            ) is Panics),
        ensures
            presult_agrees(
                r,
                terminated_outcome(
                    grammar_fn::<T>(model(toks)),
                    grammar_fn::<P>(model(toks)),
                    toks.len() as int,
                    input as int,
                ),
            ),
    {
        let e: Element<T> = Element::new();
        assert(parser_fn(&e, model(toks)) =~= grammar_fn::<T>(model(toks)));
        Self::parse_terminated_with(toks, input, &e)
    }

    /// Parse **one or more** syntax tree nodes with punctuation in between
    /// and **optional trailing** punctuation.
    pub fn parse_terminated_nonempty(toks: &Vec<TokenTree>, input: Cursor) -> (r: PResult<Self>)
        requires
            input <= toks.len(),
            !(terminated_nonempty_outcome(
                grammar_fn::<T>(model(toks)),
                grammar_fn::<P>(model(toks)),
                toks.len() as int,
                input as int,
            ) is Panics),
        ensures
            presult_agrees(
                r,
                terminated_nonempty_outcome(
                    grammar_fn::<T>(model(toks)),
                    grammar_fn::<P>(model(toks)),
                    toks.len() as int,
                    input as int,
                ),
            ),
    {
        let e: Element<T> = Element::new();
        assert(parser_fn(&e, model(toks)) =~= grammar_fn::<T>(model(toks)));
        Self::parse_terminated_nonempty_with(toks, input, &e)
    }
}

/// A list of `T` separated by `P`, with no trailing `P`.
#[derive(Debug)]
pub struct Separated<T, P> {
    data: Pu<T, P>,
}

/// A list of `T` separated by `P`, with an optional trailing `P`.
#[derive(Debug)]
pub struct Terminated<T, P> {
    data: Pu<T, P>,
}

/// A list of one or more `T` separated by `P`, with no trailing `P`.
#[derive(Debug)]
pub struct SeparatedNonEmpty<T, P> {
    data: Pu<T, P>,
}

impl<T: View, P> View for Separated<T, P> {
    type V = Seq<T::V>;

    closed spec fn view(&self) -> Seq<T::V> {
        self.data@
    }
}

impl<T: View, P> View for Terminated<T, P> {
    type V = Seq<T::V>;

    closed spec fn view(&self) -> Seq<T::V> {
        self.data@
    }
}

impl<T: View, P> View for SeparatedNonEmpty<T, P> {
    type V = Seq<T::V>;

    closed spec fn view(&self) -> Seq<T::V> {
        self.data@
    }
}

impl<T: Grammar, P: Grammar> Separated<T, P> {
    /// Parse non-terminated.
    pub fn parse(toks: &Vec<TokenTree>, input: Cursor) -> (r: PResult<Self>)
        requires
            input <= toks.len(),
            !(separated_outcome(
                grammar_fn::<T>(model(toks)),
                grammar_fn::<P>(model(toks)),
                toks.len() as int,
                input as int,
            ) is Panics),
        ensures
            presult_agrees(
                r,
                separated_outcome(
                    grammar_fn::<T>(model(toks)),
                    grammar_fn::<P>(model(toks)),
                    toks.len() as int,
                    input as int,
                ),
            ),
    {
        match Pu::parse_separated(toks, input) {
            Ok((data, e)) => Ok((Separated { data }, e)),
            Err(err) => Err(err),
        }
    }
}

impl<T: Grammar, P: Grammar> Terminated<T, P> {
    /// Parse with optional termination.
    pub fn parse(toks: &Vec<TokenTree>, input: Cursor) -> (r: PResult<Self>)
        requires
            input <= toks.len(),
            !(terminated_outcome(
                grammar_fn::<T>(model(toks)),
                grammar_fn::<P>(model(toks)),
                toks.len() as int,
                input as int,
            ) is Panics),
        ensures
            presult_agrees(
                r,
                terminated_outcome(
                    grammar_fn::<T>(model(toks)),
                    grammar_fn::<P>(model(toks)),
                    toks.len() as int,
                    input as int,
                ),
            ),
    {
        match Pu::parse_terminated(toks, input) {
            Ok((data, e)) => Ok((Terminated { data }, e)),
            Err(err) => Err(err),
        }
    }
}

impl<T: View, P> SeparatedNonEmpty<T, P> {
    /// The sequence that was read.
    pub fn into_pu(self) -> (r: Pu<T, P>)
        ensures
            r@ == self@,
    {
        self.data
    }
}

impl<T: Grammar, P: Grammar> Grammar for SeparatedNonEmpty<T, P> {
    open spec fn outcome(toks: Seq<Token>, pos: int) -> Outcome<Seq<T::V>> {
        separated_nonempty_outcome(grammar_fn::<T>(toks), grammar_fn::<P>(toks), toks.len() as int, pos)
    }

    proof fn lemma_progress(toks: Seq<Token>, pos: int) {
        lemma_list_bounds(grammar_fn::<T>(toks), grammar_fn::<P>(toks), toks.len() as int, pos, false);
    }

    fn parse_step(toks: &Vec<TokenTree>, pos: Cursor) -> (r: Step<Self>) {
        let e: Element<T> = Element::new();
        assert(parser_fn(&e, model(toks)) =~= grammar_fn::<T>(model(toks)));
        assert(model(toks).len() == toks.len());
        match Pu::separated_nonempty_step(toks, pos, &e) {
            Step::Parsed(data, end) => Step::Parsed(SeparatedNonEmpty { data }, end),
            Step::Failed(err) => Step::Failed(err),
            Step::Panicked => Step::Panicked,
        }
    }
}

// ---------------------------------------------------------------------------
// Laws of the list parsers

proof fn lemma_rest_ends_at_end<V, S>(
    elem: spec_fn(int) -> Outcome<V>,
    sep: spec_fn(int) -> Outcome<S>,
    len: int,
    pos: int,
    terminated: bool,
)
    requires
        pos <= len,
    ensures
        list_rest(elem, sep, len, pos, terminated) matches Outcome::Parsed(_, e) ==> e == len,
    decreases len - pos,
{
    if pos < len {
        if let Outcome::Parsed(_, i1) = sep(pos) {
            if pos < i1 < len {
                if let Outcome::Parsed(_, after) = elem(i1) {
                    if i1 < after <= len {
                        lemma_rest_ends_at_end(elem, sep, len, after, terminated);
                    }
                }
            }
        }
    }
}

/// A list that any of the list parsers reads runs to the end of the input:
/// none stops before it.
pub proof fn law_list_reads_to_the_end<V, S>(
    elem: spec_fn(int) -> Outcome<V>,
    sep: spec_fn(int) -> Outcome<S>,
    len: int,
    pos: int,
    terminated: bool,
)
    requires
        0 <= pos <= len,
    ensures
        list_outcome(elem, sep, len, pos, terminated) matches Outcome::Parsed(_, e) ==> e == len,
{
    if let Outcome::Parsed(_, i) = elem(pos) {
        if pos < i <= len {
            lemma_rest_ends_at_end(elem, sep, len, i, terminated);
        }
    }
}

proof fn lemma_rest_terminated_accepts_separated<V, S>(
    elem: spec_fn(int) -> Outcome<V>,
    sep: spec_fn(int) -> Outcome<S>,
    len: int,
    pos: int,
)
    ensures
        list_rest(elem, sep, len, pos, false) matches Outcome::Parsed(vs, e) ==> list_rest(
            elem,
            sep,
            len,
            pos,
            true,
        ) == Outcome::Parsed(vs, e),
    decreases len - pos,
{
    if pos < len {
        if let Outcome::Parsed(_, i1) = sep(pos) {
            if pos < i1 < len {
                if let Outcome::Parsed(_, after) = elem(i1) {
                    if i1 < after <= len {
                        lemma_rest_terminated_accepts_separated(elem, sep, len, after);
                    }
                }
            }
        }
    }
}

/// Whatever the parsers with no trailing punctuation read, the parsers
/// that allow it read too, to the same values.
pub proof fn law_terminated_accepts_separated<V, S>(
    elem: spec_fn(int) -> Outcome<V>,
    sep: spec_fn(int) -> Outcome<S>,
    len: int,
    pos: int,
)
    ensures
        separated_outcome(elem, sep, len, pos) matches Outcome::Parsed(vs, e)
            ==> terminated_outcome(elem, sep, len, pos) == Outcome::Parsed(vs, e),
        separated_nonempty_outcome(elem, sep, len, pos) matches Outcome::Parsed(vs, e)
            ==> terminated_nonempty_outcome(elem, sep, len, pos) == Outcome::Parsed(vs, e),
{
    if let Outcome::Parsed(o, i) = elem(pos) {
        if pos < i <= len {
            lemma_rest_terminated_accepts_separated(elem, sep, len, i);
        }
    }
}

/// The parsers of **one or more** nodes read what the parsers of **zero or
/// more** read, except an empty list, which they refuse.
pub proof fn law_nonempty_refuses_only_the_empty_list<V, S>(
    elem: spec_fn(int) -> Outcome<V>,
    sep: spec_fn(int) -> Outcome<S>,
    len: int,
    pos: int,
)
    ensures
        separated_outcome(elem, sep, len, pos) matches Outcome::Parsed(vs, e) ==> if vs.len() == 0 {
            separated_nonempty_outcome(elem, sep, len, pos) == Outcome::<Seq<V>>::Failed(
                Some((pos, "expected sequence of separated elements"@)),
            )
        } else {
            separated_nonempty_outcome(elem, sep, len, pos) == Outcome::Parsed(vs, e)
        },
        terminated_outcome(elem, sep, len, pos) matches Outcome::Parsed(vs, e) ==> if vs.len() == 0 {
            terminated_nonempty_outcome(elem, sep, len, pos) == Outcome::<Seq<V>>::Failed(None)
        } else {
            terminated_nonempty_outcome(elem, sep, len, pos) == Outcome::Parsed(vs, e)
        },
        !(separated_outcome(elem, sep, len, pos) is Parsed) ==> separated_nonempty_outcome(elem, sep, len, pos)
            == separated_outcome(elem, sep, len, pos),
        !(terminated_outcome(elem, sep, len, pos) is Parsed) ==> terminated_nonempty_outcome(elem, sep, len, pos)
            == terminated_outcome(elem, sep, len, pos),
{
}

/// At the end of the input, the parsers of **zero or more** nodes read an
/// empty list (unless the element parser panics there).
pub proof fn law_empty_input_is_an_empty_list<T: Grammar, P: Grammar>(toks: Seq<Token>)
    requires
        !(T::outcome(toks, toks.len() as int) is Panics),
    ensures
        separated_outcome(grammar_fn::<T>(toks), grammar_fn::<P>(toks), toks.len() as int, toks.len() as int)
            == Outcome::Parsed(Seq::<T::V>::empty(), toks.len() as int),
        terminated_outcome(grammar_fn::<T>(toks), grammar_fn::<P>(toks), toks.len() as int, toks.len() as int)
            == Outcome::Parsed(Seq::<T::V>::empty(), toks.len() as int),
{
    T::lemma_progress(toks, toks.len() as int);
}

/// `vs` (not empty) are read one after another from `pos`: each element
/// by `elem`, with a separator read by `sep` between each two, and the
/// last ends at `end` or, with `terminated`, is followed by one separator
/// that ends there.
pub open spec fn read_in_turn<V, S>(
    elem: spec_fn(int) -> Outcome<V>,
    sep: spec_fn(int) -> Outcome<S>,
    pos: int,
    vs: Seq<V>,
    end: int,
    terminated: bool,
) -> bool
    decreases vs.len(),
{
    if vs.len() == 0 {
        false
    } else {
        &&& elem(pos) is Parsed
        &&& elem(pos)->Parsed_0 == vs[0]
        &&& if vs.len() == 1 {
            elem(pos)->Parsed_1 == end || (terminated && sep(elem(pos)->Parsed_1) is Parsed && sep(
                elem(pos)->Parsed_1,
            )->Parsed_1 == end)
        } else {
            &&& sep(elem(pos)->Parsed_1) is Parsed
            &&& read_in_turn(elem, sep, sep(elem(pos)->Parsed_1)->Parsed_1, vs.drop_first(), end, terminated)
        }
    }
}

proof fn lemma_rest_read_in_turn<V, S>(
    elem: spec_fn(int) -> Outcome<V>,
    sep: spec_fn(int) -> Outcome<S>,
    len: int,
    q: int,
    terminated: bool,
)
    ensures
        list_rest(elem, sep, len, q, terminated) matches Outcome::Parsed(ws, e) ==> {
            &&& ws.len() == 0 ==> (e == q || (terminated && sep(q) is Parsed && sep(q)->Parsed_1 == e))
            &&& ws.len() > 0 ==> (sep(q) is Parsed && read_in_turn(elem, sep, sep(q)->Parsed_1, ws, e, terminated))
        },
    decreases len - q,
{
    if q < len {
        if let Outcome::Parsed(_, i1) = sep(q) {
            if q < i1 < len {
                if let Outcome::Parsed(o, after) = elem(i1) {
                    if i1 < after <= len {
                        lemma_rest_read_in_turn(elem, sep, len, after, terminated);
                        if let Outcome::Parsed(ws, e) = list_rest(elem, sep, len, after, terminated) {
                            assert((seq![o] + ws).drop_first() =~= ws);
                            assert((seq![o] + ws)[0] == o);
                        }
                    }
                }
            }
        }
    }
}

/// The elements of a list are the values read in turn from where it
/// starts, each separated from the next by a separator, the last ending
/// where the list ends (or followed there by one separator, where one may
/// end the list): none is left out, added or moved. An empty list reads
/// nothing.
pub proof fn law_list_holds_the_elements_read<V, S>(
    elem: spec_fn(int) -> Outcome<V>,
    sep: spec_fn(int) -> Outcome<S>,
    len: int,
    pos: int,
    terminated: bool,
)
    ensures
        list_outcome(elem, sep, len, pos, terminated) matches Outcome::Parsed(vs, e) ==> {
            &&& vs.len() == 0 ==> e == pos
            &&& vs.len() > 0 ==> read_in_turn(elem, sep, pos, vs, e, terminated)
        },
{
    if let Outcome::Parsed(o, i) = elem(pos) {
        if pos < i <= len {
            lemma_rest_read_in_turn(elem, sep, len, i, terminated);
            if let Outcome::Parsed(ws, e) = list_rest(elem, sep, len, i, terminated) {
                assert((seq![o] + ws).drop_first() =~= ws);
                assert((seq![o] + ws)[0] == o);
            }
        }
    }
}

/// `pop` undoes `push`: it gives back the node pushed last and leaves the
/// sequence as it was before.
pub proof fn law_pop_undoes_push<T: View, P>(before: Pu<T, P>, pushed: Pu<T, P>, v: T)
    requires
        pushed@ == before@.push(v@),
    ensures
        pushed@.len() > 0,
        pushed@.last() == v@,
        pushed@.drop_last() == before@,
{
    assert(before@.push(v@).drop_last() =~= before@);
}

} // verus!
