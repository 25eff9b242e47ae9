# rtfm_syntax

A parser of the contents of the `app! { .. }` macro of the Real Time For the
Masses framework, verified with Verus.

- `src/token.rs`: the macro's input as token trees, and their source text.
- `src/rust_syntax.rs`: which words `syn` takes for identifiers, and the
  calls into `syn` (integer literals, paths, types, expressions).
- `src/grammar.rs`: what a parse comes to, the `Grammar` trait and the
  primitive parsers.
- `src/separated.rs`: punctuated lists (`Pu`) and their laws.
- `src/syntax.rs`: paths, types and expressions as token trees; two paths
  are equal where their tokens are, the spacing of punctuation aside.
- `src/collections.rs`: sets and maps keyed by identifiers.
- `src/util.rs`: building a one-segment path from an identifier, and the
  test of what `syn::Ident::new` takes as one (through `unicode-xid`).
- `src/parse.rs`: the grammar of `app!` and how its fields become an `App`.
- `src/lib.rs`: `App`, `Idle`, `Init`, `Task`, `Static` and `App::parse`.
- `app/lib.rs`: turns a `proc_macro::TokenStream` into token trees and
  reports the result.

## Why `IdentSet` and `IdentMap`

`Resources`, `Statics` and `Tasks` are keyed by identifier names, that is
by strings. vstd specifies `std::collections::HashSet` and `HashMap` only
for key types of which it knows `obeys_key_model`: integers, `bool` and a
few more, not `String`. For other keys its documentation leaves that fact
to be assumed, which this crate does not do. So these collections are
vectors with the invariant that no name occurs twice, and their contracts
are stated over a `Set` and a `Map` of names: inserting a name that is
already there replaces its entry, as in a hash map.

## Errors

Where the input cannot be accepted, `App::parse` says why (`error::Error`).
A repeated top-level field is reported with every repetition: its name,
the position of the repeated name and that of the first one, so that the
caller can place the diagnostics. A task's `priority` must fit in a `u8`
and its `interarrival` in a `u32`; a larger number is refused.
