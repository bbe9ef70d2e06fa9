use crate::document::{leaf_views, Leaf, Primitive};
use fuzzy_matcher::FuzzyMatcher;
use vstd::prelude::*;

verus! {

/// The score that a default skim matcher gives `pattern` against `choice`,
/// or `None` where the pattern does not match.
pub uninterp spec fn skim_score(choice: Seq<char>, pattern: Seq<char>) -> Option<i64>;

/// Relies on fuzzy_matcher's `SkimMatcherV2::fuzzy_match` with the default
/// settings: its result depends on the two texts alone, and an empty pattern
/// matches with score 0.
#[verifier::external_body]
fn skim_fuzzy_match(choice: &str, pattern: &str) -> (r: Option<i64>)
    ensures
        r == skim_score(choice@, pattern@),
        pattern@.len() == 0 ==> r == Some(0i64),
{
    fuzzy_matcher::skim::SkimMatcherV2::default().fuzzy_match(choice, pattern)
}

/// The leaves whose score is `Some`, in their order.
pub open spec fn select(leaves: Seq<(Seq<char>, Primitive)>, scores: Seq<Option<i64>>) -> Seq<
    (Seq<char>, Primitive),
>
    decreases leaves.len(),
{
    if leaves.len() == 0 {
        seq![]
    } else {
        let rest = select(leaves.drop_last(), scores.take(leaves.len() - 1));
        if scores[leaves.len() - 1] is Some {
            rest.push(leaves.last())
        } else {
            rest
        }
    }
}

/// The skim score of each leaf's path against `query`.
pub open spec fn path_scores(leaves: Seq<Leaf>, query: Seq<char>) -> Seq<Option<i64>> {
    Seq::new(leaves.len(), |i: int| skim_score(leaves[i].path@, query))
}

/// Keeps, in order, the leaves whose score is `Some`.
pub fn select_by_scores(leaves: &Vec<Leaf>, scores: &Vec<Option<i64>>) -> (r: Vec<Leaf>)
    requires
        scores@.len() == leaves@.len(),
    ensures
        leaf_views(r@) == select(leaf_views(leaves@), scores@),
{
    let mut r: Vec<Leaf> = Vec::new();
    let mut i: usize = 0;
    while i < leaves.len()
        invariant
            i <= leaves.len(),
            scores@.len() == leaves@.len(),
            leaf_views(r@) == select(leaf_views(leaves@.take(i as int)), scores@.take(i as int)),
        decreases leaves.len() - i,
    {
        proof {
            let next = leaf_views(leaves@.take(i + 1));
            assert(next.drop_last() =~= leaf_views(leaves@.take(i as int)));
            assert(scores@.take(i + 1).take(i as int) =~= scores@.take(i as int));
        }
        if scores[i].is_some() {
            r.push(leaves[i].duplicate());
        }
        proof {
            assert(leaf_views(r@) =~= select(
                leaf_views(leaves@.take(i + 1)),
                scores@.take(i + 1),
            ));
        }
        i = i + 1;
    }
    proof {
        assert(leaves@.take(i as int) =~= leaves@);
        assert(scores@.take(i as int) =~= scores@);
    }
    r
}

/// Keeps, in order, the leaves whose path the fuzzy `query` matches.
pub fn select_matching(leaves: &Vec<Leaf>, query: &str) -> (r: Vec<Leaf>)
    ensures
        leaf_views(r@) == select(leaf_views(leaves@), path_scores(leaves@, query@)),
{
    let mut scores: Vec<Option<i64>> = Vec::new();
    let mut i: usize = 0;
    while i < leaves.len()
        invariant
            i <= leaves.len(),
            scores@ == path_scores(leaves@.take(i as int), query@),
        decreases leaves.len() - i,
    {
        let s = skim_fuzzy_match(leaves[i].path.as_str(), query);
        scores.push(s);
        proof {
            assert(scores@ =~= path_scores(leaves@.take(i + 1), query@));
        }
        i = i + 1;
    }
    proof {
        assert(leaves@.take(i as int) =~= leaves@);
    }
    select_by_scores(leaves, &scores)
}

} // verus!
