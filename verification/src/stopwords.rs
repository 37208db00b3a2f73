//! The stopword filter: membership in a fixed, preloaded set of
//! non-informative terms, which are excluded from indexing.

use vstd::prelude::*;

verus! {

/// Whether `t` belongs to the fixed stopword set.
pub open spec fn spec_is_stopword(t: Seq<char>) -> bool {
    ||| t == "的"@
    ||| t == "了"@
    ||| t == "是"@
    ||| t == "在"@
    ||| t == "和"@
    ||| t == "也"@
    ||| t == "就"@
    ||| t == "都"@
    ||| t == "我"@
    ||| t == "你"@
}

/// Compares a term against one stopword.
fn eq_word(t: &String, w: &str) -> (r: bool)
    ensures
        r == (t@ == w@),
{
    *t == w.to_owned()
}

/// Tests membership in the fixed stopword set.
pub fn is_stopword(t: &String) -> (r: bool)
    ensures
        r == spec_is_stopword(t@),
{
    eq_word(t, "的") || eq_word(t, "了") || eq_word(t, "是") || eq_word(t, "在")
        || eq_word(t, "和") || eq_word(t, "也") || eq_word(t, "就") || eq_word(t, "都")
        || eq_word(t, "我") || eq_word(t, "你")
}

} // verus!
