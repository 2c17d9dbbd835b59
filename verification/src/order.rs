//! The order in which the backtracking search enumerates paths: it always
//! returns the least valid path in this order, which is what makes its
//! results reproducible.

use vstd::prelude::*;

verus! {

/// Lexicographic order on vertex sequences, with a shorter sequence below
/// any proper continuation of it.
pub open spec fn lex_le(a: Seq<usize>, b: Seq<usize>) -> bool
    decreases a.len(),
{
    if a.len() == 0 {
        true
    } else if b.len() == 0 {
        false
    } else if a[0] < b[0] {
        true
    } else if a[0] == b[0] {
        lex_le(a.drop_first(), b.drop_first())
    } else {
        false
    }
}

} // verus!
