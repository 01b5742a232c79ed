//! Small facts about sequences and vectors that the proofs call on.

use vstd::prelude::*;

verus! {

/// Pushing one element makes a sequence one longer, with the element at the
/// end and the others in place.
pub proof fn lemma_push<A>(s: Seq<A>, a: A)
    ensures
        s.push(a).len() == s.len() + 1,
        s.push(a)[s.len() as int] == a,
        forall|i: int| 0 <= i < s.len() ==> s.push(a)[i] == s[i],
{
}

/// The deep view of a vector has its length and the deep views of its
/// elements.
pub proof fn lemma_deep_view<T: DeepView>(v: Vec<T>)
    ensures
        v.deep_view().len() == v@.len(),
        forall|i: int| 0 <= i < v@.len() ==> v.deep_view()[i] == v@[i].deep_view(),
{
}

/// Pushing onto a vector pushes the element's deep view onto its deep view.
pub proof fn lemma_deep_view_push<T: DeepView>(before: Vec<T>, after: Vec<T>, a: T)
    requires
        after@ == before@.push(a),
    ensures
        after.deep_view() == before.deep_view().push(a.deep_view()),
{
    lemma_deep_view(before);
    lemma_deep_view(after);
    lemma_push(before@, a);
    lemma_push(before.deep_view(), a.deep_view());
    assert(after.deep_view() =~= before.deep_view().push(a.deep_view()));
}

} // verus!
