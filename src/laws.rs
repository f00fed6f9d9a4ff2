//! What holds of the rule's findings over all inputs.
use vstd::prelude::*;
use crate::duplicates::{
    duplicate_keys, duplicate_report, in_key_order, is_duplicated, lemma_listing_unique, lists_in_order,
};
use crate::rule::{findings_of, lit_findings};
use crate::syntax::{lit_keys, ObjectLit};

verus! {

/// A literal whose canonical keys are pairwise distinct yields no finding.
pub proof fn lemma_distinct_keys_no_findings(lit: ObjectLit)
    requires
        forall|i: int, j: int|
            0 <= i < j < lit_keys(lit).len() ==> lit_keys(lit)[i] != lit_keys(lit)[j],
    ensures
        lit_findings(lit) == Seq::<(crate::syntax::Span, Seq<char>, Seq<char>)>::empty(),
{
    let keys = lit_keys(lit);
    assert(duplicate_keys(keys) =~= Set::empty());
    assert(lists_in_order(Seq::empty(), Set::empty())) by {
        assert(Seq::<Seq<char>>::empty().to_set() =~= Set::empty());
    }
    let r = in_key_order(Set::empty());
    if r.len() > 0 {
        assert(r.to_set().contains(r[0]));
    }
    assert(lit_findings(lit) =~= Seq::empty());
}

/// Literals are checked one by one: the findings for two runs of literals in a
/// row are those of the first run followed by those of the second.
pub proof fn lemma_findings_append(a: Seq<ObjectLit>, b: Seq<ObjectLit>)
    ensures
        findings_of(a + b) == findings_of(a) + findings_of(b),
    decreases b.len(),
{
    if b.len() == 0 {
        assert(a + b =~= a);
        assert(findings_of(a) + findings_of(b) =~= findings_of(a));
    } else {
        lemma_findings_append(a, b.drop_last());
        assert((a + b).drop_last() =~= a + b.drop_last());
        assert((a + b).last() == b.last());
        assert(findings_of(a + b) =~= findings_of(a) + findings_of(b));
    }
}

/// A literal nested in another is checked on its own: visiting the enclosing
/// literal and then the nested one reports the enclosing literal's own
/// findings, then the nested literal's own, and neither depends on the other.
pub proof fn lemma_nested_literal_checked_alone(outer: ObjectLit, inner: ObjectLit)
    ensures
        findings_of(seq![outer, inner]) == lit_findings(outer) + lit_findings(inner),
{
    let one = seq![outer];
    let two = seq![outer, inner];
    assert(two.drop_last() =~= one);
    assert(one.drop_last() =~= Seq::<ObjectLit>::empty());
    assert(findings_of(Seq::<ObjectLit>::empty()) == Seq::<
        (crate::syntax::Span, Seq<char>, Seq<char>),
    >::empty());
    assert(findings_of(one) == findings_of(one.drop_last()) + lit_findings(outer));
    assert(findings_of(two) == findings_of(one) + lit_findings(inner));
    assert(Seq::<(crate::syntax::Span, Seq<char>, Seq<char>)>::empty() + lit_findings(outer)
        =~= lit_findings(outer));
}

/// The sorted duplicate report is determined by the keys alone: any two
/// listings of the duplicated keys in strict key order are the same.
pub proof fn lemma_report_deterministic(keys: Seq<Seq<char>>, r1: Seq<Seq<char>>, r2: Seq<Seq<char>>)
    requires
        lists_in_order(r1, duplicate_keys(keys)),
        lists_in_order(r2, duplicate_keys(keys)),
    ensures
        r1 == r2,
{
    lemma_listing_unique(r1, r2, duplicate_keys(keys));
}

/// Running the check a second time over the same literals reports exactly
/// what the first run reported: nothing carries over from one run to the next.
pub proof fn lemma_second_run_same_findings(lits: Seq<ObjectLit>)
    ensures
        findings_of(lits + lits) == findings_of(lits) + findings_of(lits),
{
    lemma_findings_append(lits, lits);
}

/// One more occurrence of a key that is already duplicated, anywhere among
/// the keys, adds no duplicated key.
pub proof fn lemma_extra_occurrence_keys(keys: Seq<Seq<char>>, k: Seq<char>, at: int)
    requires
        is_duplicated(keys, k),
        0 <= at <= keys.len(),
    ensures
        duplicate_keys(keys.insert(at, k)) == duplicate_keys(keys),
        duplicate_report(keys.insert(at, k)) == duplicate_report(keys),
{
    let ins = keys.insert(at, k);
    assert forall|x: Seq<char>| is_duplicated(ins, x) <==> is_duplicated(keys, x) by {
        if is_duplicated(ins, x) {
            let (i, j) = choose|i: int, j: int|
                0 <= i < j < ins.len() && #[trigger] ins[i] == x && #[trigger] ins[j] == x;
            if i != at && j != at {
                let i0 = if i < at { i } else { i - 1 };
                let j0 = if j < at { j } else { j - 1 };
                assert(keys[i0] == x && keys[j0] == x);
            }
        }
        if is_duplicated(keys, x) {
            let (i, j) = choose|i: int, j: int|
                0 <= i < j < keys.len() && #[trigger] keys[i] == x && #[trigger] keys[j] == x;
            let i1 = if i < at { i } else { i + 1 };
            let j1 = if j < at { j } else { j + 1 };
            assert(ins[i1] == x && ins[j1] == x);
        }
    }
    assert(duplicate_keys(ins) =~= duplicate_keys(keys));
}

/// Adding to a literal one more property whose key is already duplicated in it
/// adds no finding: each duplicated key is reported once, however often it occurs.
pub proof fn lemma_extra_occurrence_no_new_finding(
    lit: ObjectLit,
    more: ObjectLit,
    k: Seq<char>,
    at: int,
)
    requires
        is_duplicated(lit_keys(lit), k),
        0 <= at <= lit_keys(lit).len(),
        more.span == lit.span,
        lit_keys(more) == lit_keys(lit).insert(at, k),
    ensures
        lit_findings(more) == lit_findings(lit),
{
    lemma_extra_occurrence_keys(lit_keys(lit), k, at);
}

} // verus!
