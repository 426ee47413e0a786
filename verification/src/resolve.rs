//! The reference resolver: how a raw user token picks out a save.
//!
//! Precedence, first match wins: a digit string is a zero-based position in
//! the category's save sequence; the literal `"auto"` selects the autosave
//! slot; anything else is an exact display-name match.  Display names are
//! constrained at creation to be neither digit strings nor `"auto"`, so the
//! three cases can never be ambiguous.

use vstd::prelude::*;

use crate::Error;
use crate::nums::{parse_dec, is_dec_seq, dec_val, Parsed};
use crate::types::Category;

verus! {

/// What a token resolved to.
#[derive(Debug)]
pub enum SaveRef {
    /// The save at this zero-based position in the category's sequence.
    ByPosition(usize),
    /// The autosave slot.
    ByAuto,
    /// The save carrying this display name.
    ByName(String),
}

/// `i` is the position in `c`'s save sequence that `token` denotes: a
/// digit string is read as a position outright, anything else must be the
/// first save carrying that display name.
pub open spec fn resolves_to(c: Category, token: Seq<char>, i: int) -> bool {
    &&& 0 <= i < c.saves@.len()
    &&& if is_dec_seq(token) {
        i == dec_val(token)
    } else {
        ((c.saves@[i].name matches Some(n) && n@ == token) && (forall|j: int|
            0 <= j < i ==> !((#[trigger] c.saves@[j]).name matches Some(m) && m@ == token)))
    }
}

/// Resolves `token` to a position in `c`'s save sequence, or reports that
/// it denotes none.
pub fn resolve_position(c: &Category, token: &str) -> (r: Result<usize, Error>)
    ensures
        r matches Ok(i) ==> resolves_to(*c, token@, i as int),
        r matches Err(e) ==> (e == Error::SaveNotFound && (forall|i: int|
            !resolves_to(*c, token@, i))),
        (exists|i: int| resolves_to(*c, token@, i)) <==> r is Ok,
{
    match parse_dec(token) {
        Parsed::Value(v) => {
            if v < c.saves.len() {
                proof {
                    assert(resolves_to(*c, token@, v as int));
                }
                Ok(v)
            } else {
                proof {
                    assert(!(exists|i: int| resolves_to(*c, token@, i)));
                }
                Err(Error::SaveNotFound)
            }
        },
        Parsed::Overflow => {
            let n = c.saves.len();
            proof {
                assert(c.saves@.len() <= usize::MAX);
                assert(!(exists|i: int| resolves_to(*c, token@, i)));
            }
            Err(Error::SaveNotFound)
        },
        Parsed::NotNumeric => {
            match c.get_save_index(token) {
                Ok(i) => {
                    proof {
                        assert(resolves_to(*c, token@, i as int));
                    }
                    Ok(i)
                },
                Err(_) => {
                    proof {
                        assert(!(exists|i: int| resolves_to(*c, token@, i)));
                    }
                    Err(Error::SaveNotFound)
                },
            }
        },
    }
}

/// Whether `token` is the literal `"auto"`.
pub fn token_is_auto(token: &str) -> (r: bool)
    ensures
        r == (token@ == "auto"@),
{
    let owned = token.to_owned();
    let lit = ("auto").to_owned();
    owned == lit
}

/// Resolves `token` against the save sequence of `c`.
///
/// A digit string must denote a position inside the sequence; a huge digit
/// string is simply out of range.  A display name must be carried by some
/// save.  `"auto"` always resolves syntactically; whether an autosave is
/// actually available is for the caller to decide, since only `load` may
/// consume it.
pub fn resolve(c: &Category, token: &str) -> (r: Result<SaveRef, Error>)
    ensures
        is_dec_seq(token@) ==> (if dec_val(token@) < c.saves@.len() {
            r matches Ok(sr) && sr matches SaveRef::ByPosition(v) && v == dec_val(token@)
        } else {
            r == Err::<SaveRef, Error>(Error::SaveNotFound)
        }),
        !is_dec_seq(token@) && token@ == "auto"@ ==> (r matches Ok(sr) && sr is ByAuto),
        !is_dec_seq(token@) && token@ != "auto"@ ==> (if (exists|i: int|
            0 <= i < c.saves@.len() && ((#[trigger] c.saves@[i]).name matches Some(n)
                && n@ == token@)) {
            r matches Ok(sr) && (sr matches SaveRef::ByName(n) && n@ == token@)
        } else {
            r == Err::<SaveRef, Error>(Error::SaveNotFound)
        }),
{
    match parse_dec(token) {
        Parsed::Value(v) => {
            if v < c.saves.len() {
                Ok(SaveRef::ByPosition(v))
            } else {
                Err(Error::SaveNotFound)
            }
        },
        Parsed::Overflow => {
            let n = c.saves.len();
            proof {
                assert(n == c.saves@.len());
            }
            Err(Error::SaveNotFound)
        },
        Parsed::NotNumeric => {
            if token_is_auto(token) {
                Ok(SaveRef::ByAuto)
            } else {
                match c.get_save_index(token) {
                    Ok(_) => Ok(SaveRef::ByName(token.to_owned())),
                    Err(e) => Err(e),
                }
            }
        },
    }
}

} // verus!
