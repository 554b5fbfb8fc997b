use vstd::prelude::*;

verus! {

/// Inserting into the left part of a concatenation.
pub proof fn lemma_insert_append_left<A>(a: Seq<A>, c: Seq<A>, i: int, x: A)
    requires
        0 <= i <= a.len(),
    ensures
        (a + c).insert(i, x) == a.insert(i, x) + c,
{
    assert((a + c).insert(i, x) =~= a.insert(i, x) + c);
}

/// Inserting into the right part of a concatenation.
pub proof fn lemma_insert_append_right<A>(a: Seq<A>, c: Seq<A>, k: int, x: A)
    requires
        0 <= k <= c.len(),
    ensures
        (a + c).insert(a.len() + k, x) == a + c.insert(k, x),
{
    assert((a + c).insert(a.len() + k, x) =~= a + c.insert(k, x));
}

} // verus!
