//! Helpers
use vstd::prelude::*;
use crate::syntax::Path;
use crate::token::{string_chars, Token, TokenTree};

verus! {

/// Whether `unicode-xid` gives the character `c` the property XID_Start.
pub uninterp spec fn xid_start(c: char) -> bool;

/// Whether `unicode-xid` gives the character `c` the property XID_Continue.
pub uninterp spec fn xid_continue(c: char) -> bool;

/// Calls `unicode_xid::UnicodeXID::is_xid_start` on `c`.
#[verifier::external_body]
fn is_xid_start(c: char) -> (r: bool)
    ensures
        r == xid_start(c),
{
    unicode_xid::UnicodeXID::is_xid_start(c)
}

/// Calls `unicode_xid::UnicodeXID::is_xid_continue` on `c`.
#[verifier::external_body]
fn is_xid_continue(c: char) -> (r: bool)
    ensures
        r == xid_continue(c),
{
    unicode_xid::UnicodeXID::is_xid_continue(c)
}

/// A name that `syn::Ident::new` takes as an identifier (a keyword
/// included): it is not empty, not a lifetime, not `_` and not a number,
/// it starts with an XID_Start character or `_`, and every later character
/// is an XID_Continue character.
pub open spec fn is_ident_name(s: Seq<char>) -> bool {
    &&& s.len() > 0
    &&& s[0] != '\''
    &&& s != "_"@
    &&& !(forall|i: int| 0 <= i < s.len() ==> '0' <= #[trigger] s[i] <= '9')
    &&& (xid_start(s[0]) || s[0] == '_')
    &&& forall|i: int| 1 <= i < s.len() ==> xid_continue(#[trigger] s[i])
}

/// Whether `ident` is a name that `syn::Ident::new` takes as an identifier.
pub fn is_ident(ident: &str) -> (r: bool)
    ensures
        r == is_ident_name(ident@),
{
    let cs = string_chars(&String::from_str(ident));
    let n = cs.len();
    if n == 0 || cs[0] == '\'' {
        return false;
    }
    proof {
        reveal_strlit("_");
    }
    if n == 1 && cs[0] == '_' {
        assert(ident@ =~= "_"@);
        return false;
    }
    let mut digits = true;
    let mut i: usize = 0;
    while i < n
        invariant
            i <= n == cs.len() == ident@.len(),
            cs@ == ident@,
            digits == forall|k: int| 0 <= k < i ==> '0' <= #[trigger] cs@[k] <= '9',
        decreases n - i,
    {
        let c = cs[i];
        if !('0' <= c && c <= '9') {
            digits = false;
        }
        i = i + 1;
    }
    if digits {
        return false;
    }
    if !(is_xid_start(cs[0]) || cs[0] == '_') {
        return false;
    }
    let mut j: usize = 1;
    while j < n
        invariant
            1 <= j <= n == cs.len() == ident@.len(),
            cs@ == ident@,
            forall|k: int| 1 <= k < j ==> xid_continue(#[trigger] cs@[k]),
        decreases n - j,
    {
        if !is_xid_continue(cs[j]) {
            return false;
        }
        j = j + 1;
    }
    true
}

/// Creates a path with contents `#ident`
pub fn mk_path(ident: &str) -> (r: Path)
    requires
        is_ident_name(ident@),
    ensures
        r@ == seq![Token::Ident(ident@)],
{
    let mut tokens: Vec<TokenTree> = Vec::new();
    tokens.push(TokenTree::Ident(String::from_str(ident)));
    let r = Path { tokens };
    assert(r@ =~= seq![Token::Ident(ident@)]);
    r
}

/// The path `#ident`, or `None` where `ident` is not an identifier (where
/// `mk_path` would panic).
pub fn try_mk_path(ident: &str) -> (r: Option<Path>)
    ensures
        r is Some <==> is_ident_name(ident@),
        r matches Some(p) ==> p@ == seq![Token::Ident(ident@)],
{
    if is_ident(ident) {
        Some(mk_path(ident))
    } else {
        None
    }
}

} // verus!
