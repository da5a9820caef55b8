//! The first of several optional findings.

use vstd::prelude::*;

verus! {

/// The first finding of a list.
pub open spec fn first<T>(findings: Seq<Option<T>>) -> Option<T>
    decreases findings.len(),
{
    if findings.len() == 0 {
        None
    } else if findings[0] is Some {
        findings[0]
    } else {
        first(findings.drop_first())
    }
}

/// The first of two findings.
pub open spec fn either<T>(a: Option<T>, b: Option<T>) -> Option<T> {
    if a is Some {
        a
    } else {
        b
    }
}

/// The finding at `n` is the first, where there is none before it.
pub proof fn lemma_first<T>(findings: Seq<Option<T>>, n: int)
    requires
        0 <= n <= findings.len(),
        forall|i: int| 0 <= i < n ==> findings[i] is None,
    ensures
        n < findings.len() && findings[n] is Some ==> first(findings) == findings[n],
        n == findings.len() ==> first(findings) is None,
    decreases n,
{
    if n > 0 {
        assert(findings.drop_first()[n - 1] == findings[n] || n == findings.len());
        assert forall|i: int| 0 <= i < n - 1 implies findings.drop_first()[i] is None by {
            assert(findings.drop_first()[i] == findings[i + 1]);
        }
        lemma_first(findings.drop_first(), n - 1);
    }
}

/// Nothing was found exactly where no entry is a finding.
pub proof fn lemma_first_none<T>(findings: Seq<Option<T>>)
    ensures
        first(findings) is None <==> forall|i: int| 0 <= i < findings.len() ==> findings[i] is None,
    decreases findings.len(),
{
    if findings.len() > 0 {
        lemma_first_none(findings.drop_first());
        if findings[0] is None && first(findings.drop_first()) is None {
            assert forall|i: int| 0 <= i < findings.len() implies findings[i] is None by {
                if i > 0 {
                    assert(findings.drop_first()[i - 1] == findings[i]);
                }
            }
        }
        if forall|i: int| 0 <= i < findings.len() ==> findings[i] is None {
            assert forall|i: int|
                0 <= i < findings.drop_first().len() implies findings.drop_first()[i] is None by {
                assert(findings.drop_first()[i] == findings[i + 1]);
            }
        }
    }
}

} // verus!
