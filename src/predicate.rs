use vstd::prelude::*;

verus! {

/// `f` accepts a string with view `w`: some call of `f` on such a string returned
/// `true`.
pub open spec fn accepts<F: Fn(&str) -> bool>(f: &F, w: Seq<char>) -> bool {
    exists|s: &str| #![trigger f.ensures((s,), true)] s@ == w && f.ensures((s,), true)
}

/// Every answer of `f` on a string is `valid` of its view.
pub open spec fn computes<F: Fn(&str) -> bool>(f: &F, valid: spec_fn(Seq<char>) -> bool) -> bool {
    forall|s: &str, r: bool| #[trigger] f.ensures((s,), r) ==> r == valid(s@)
}

/// `f` may be called on every string.
pub open spec fn callable<F: Fn(&str) -> bool>(f: &F) -> bool {
    forall|s: &str| #[trigger] f.requires((s,))
}

/// Asks `f` about `s`.
pub fn ask<F: Fn(&str) -> bool>(f: &F, s: &str) -> (r: bool)
    requires
        callable(f),
    ensures
        r ==> accepts(f, s@),
        forall|valid: spec_fn(Seq<char>) -> bool| #[trigger] computes(f, valid) ==> r == valid(s@),
{
    f(s)
}

} // verus!
