//! The two-phase matcher — exact name match first, substring match only as a
//! fallback — and the dispatcher that turns the number of matches into the
//! action to take.

use vstd::prelude::*;

use crate::branches::Branch;
use crate::branches::BranchSpec;
use crate::branches::branch_views;
use crate::branches::lemma_views_push;
use crate::text::bytes_eq;
use crate::text::contains_sub;
use crate::text::find_sub;

verus! {

/// The records whose name equals the pattern verbatim, in list order.
pub open spec fn exact_matches(l: Seq<BranchSpec>, p: Seq<u8>) -> Seq<BranchSpec> {
    l.filter(|b: BranchSpec| b.name == p)
}

/// The records whose name contains the pattern as a contiguous substring,
/// in list order.
pub open spec fn substring_matches(l: Seq<BranchSpec>, p: Seq<u8>) -> Seq<BranchSpec> {
    l.filter(|b: BranchSpec| contains_sub(b.name, p))
}

/// What the two-phase matcher returns: every exact match when there is one,
/// and otherwise every substring match.
pub open spec fn selected_matches(l: Seq<BranchSpec>, p: Seq<u8>) -> Seq<BranchSpec> {
    if exact_matches(l, p).len() > 0 {
        exact_matches(l, p)
    } else {
        substring_matches(l, p)
    }
}

pub proof fn lemma_exact_matches_empty(l: Seq<BranchSpec>, p: Seq<u8>)
    requires
        l.len() == 0,
    ensures
        exact_matches(l, p) == Seq::<BranchSpec>::empty(),
{
    reveal(Seq::filter);
    assert(l =~= Seq::<BranchSpec>::empty());
}

pub proof fn lemma_exact_matches_step(l: Seq<BranchSpec>, p: Seq<u8>)
    requires
        l.len() > 0,
    ensures
        exact_matches(l, p) == if l.last().name == p {
            exact_matches(l.drop_last(), p).push(l.last())
        } else {
            exact_matches(l.drop_last(), p)
        },
{
    reveal(Seq::filter);
}

pub proof fn lemma_substring_matches_empty(l: Seq<BranchSpec>, p: Seq<u8>)
    requires
        l.len() == 0,
    ensures
        substring_matches(l, p) == Seq::<BranchSpec>::empty(),
{
    reveal(Seq::filter);
    assert(l =~= Seq::<BranchSpec>::empty());
}

pub proof fn lemma_substring_matches_step(l: Seq<BranchSpec>, p: Seq<u8>)
    requires
        l.len() > 0,
    ensures
        substring_matches(l, p) == if contains_sub(l.last().name, p) {
            substring_matches(l.drop_last(), p).push(l.last())
        } else {
            substring_matches(l.drop_last(), p)
        },
{
    reveal(Seq::filter);
}

proof fn lemma_exact_matches_none(l: Seq<BranchSpec>, p: Seq<u8>)
    requires
        forall|j: int| 0 <= j < l.len() ==> l[j].name != p,
    ensures
        exact_matches(l, p) == Seq::<BranchSpec>::empty(),
    decreases l.len(),
{
    if l.len() == 0 {
        lemma_exact_matches_empty(l, p);
    } else {
        lemma_exact_matches_step(l, p);
        assert(forall|j: int| 0 <= j < l.drop_last().len() ==> l.drop_last()[j].name != p);
        lemma_exact_matches_none(l.drop_last(), p);
    }
}

proof fn lemma_exact_matches_unique(l: Seq<BranchSpec>, p: Seq<u8>, i: int)
    requires
        0 <= i < l.len(),
        l[i].name == p,
        forall|j: int| 0 <= j < l.len() && j != i ==> l[j].name != p,
    ensures
        exact_matches(l, p) == seq![l[i]],
    decreases l.len(),
{
    lemma_exact_matches_step(l, p);
    if i == l.len() - 1 {
        assert(forall|j: int| 0 <= j < l.drop_last().len() ==> l.drop_last()[j].name != p);
        lemma_exact_matches_none(l.drop_last(), p);
        assert(exact_matches(l, p) =~= seq![l[i]]);
    } else {
        assert(l.last().name != p);
        assert(l.drop_last()[i].name == p);
        assert(forall|j: int|
            0 <= j < l.drop_last().len() && j != i ==> l.drop_last()[j].name != p);
        lemma_exact_matches_unique(l.drop_last(), p, i);
    }
}

/// When exactly one record in the list carries the pattern as its name, the
/// matcher returns exactly that record: the exact phase alone decides, and
/// the substring phase contributes nothing.
pub proof fn lemma_unique_exact_match(l: Seq<BranchSpec>, p: Seq<u8>, i: int)
    requires
        0 <= i < l.len(),
        l[i].name == p,
        forall|j: int| 0 <= j < l.len() && j != i ==> l[j].name != p,
    ensures
        selected_matches(l, p) == exact_matches(l, p),
        selected_matches(l, p) == seq![l[i]],
{
    lemma_exact_matches_unique(l, p, i);
}

/// When no record's name equals the pattern, the matcher falls back to the
/// substring phase and returns precisely the records that contain the
/// pattern, in original list order.
pub proof fn lemma_substring_fallback(l: Seq<BranchSpec>, p: Seq<u8>)
    requires
        forall|j: int| 0 <= j < l.len() ==> l[j].name != p,
    ensures
        selected_matches(l, p) == substring_matches(l, p),
{
    lemma_exact_matches_none(l, p);
}

/// Every record the substring phase returns contains the pattern.
pub proof fn lemma_substring_matches_sound(l: Seq<BranchSpec>, p: Seq<u8>)
    ensures
        forall|k: int|
            0 <= k < substring_matches(l, p).len() ==> contains_sub(
                #[trigger] substring_matches(l, p)[k].name,
                p,
            ),
    decreases l.len(),
{
    if l.len() == 0 {
        lemma_substring_matches_empty(l, p);
    } else {
        lemma_substring_matches_step(l, p);
        lemma_substring_matches_sound(l.drop_last(), p);
        let shorter = substring_matches(l.drop_last(), p);
        assert forall|k: int| 0 <= k < substring_matches(l, p).len() implies contains_sub(
            #[trigger] substring_matches(l, p)[k].name,
            p,
        ) by {
            if k < shorter.len() {
                assert(substring_matches(l, p)[k] == shorter[k]);
            } else {
                assert(substring_matches(l, p)[k] == l.last());
            }
        }
    }
}

/// Every record of the list that contains the pattern appears in the
/// substring phase's output; in particular that output is not empty.
pub proof fn lemma_substring_matches_complete(l: Seq<BranchSpec>, p: Seq<u8>, j: int)
    requires
        0 <= j < l.len(),
        contains_sub(l[j].name, p),
    ensures
        substring_matches(l, p).contains(l[j]),
        substring_matches(l, p).len() > 0,
    decreases l.len(),
{
    lemma_substring_matches_step(l, p);
    let res = substring_matches(l, p);
    if j == l.len() - 1 {
        assert(res[res.len() - 1] == l.last());
        assert(res.contains(l[j]));
    } else {
        assert(l.drop_last()[j] == l[j]);
        lemma_substring_matches_complete(l.drop_last(), p, j);
        let shorter = substring_matches(l.drop_last(), p);
        let m = choose|m: int| 0 <= m < shorter.len() && shorter[m] == l[j];
        assert(0 <= m < res.len() && res[m] == l[j]);
        assert(res.contains(l[j]));
    }
}

/// The exact phase: the records of `branches` whose name equals `needle`
/// byte for byte, in list order.
pub fn match_branch_exactly(branches: &Vec<Branch>, needle: &Vec<u8>) -> (r: Vec<Branch>)
    ensures
        branch_views(r@) == exact_matches(branch_views(branches@), needle@),
{
    let ghost l = branch_views(branches@);
    let mut r: Vec<Branch> = Vec::new();
    let mut i: usize = 0;
    proof {
        lemma_exact_matches_empty(l.take(0), needle@);
        assert(branch_views(r@) =~= Seq::<BranchSpec>::empty());
    }
    while i < branches.len()
        invariant
            0 <= i <= branches.len(),
            l == branch_views(branches@),
            branch_views(r@) == exact_matches(l.take(i as int), needle@),
        decreases branches.len() - i,
    {
        proof {
            assert(l[i as int] == branches@[i as int]@);
            assert(l.take(i + 1).drop_last() =~= l.take(i as int));
            assert(l.take(i + 1).last() == l[i as int]);
            lemma_exact_matches_step(l.take(i + 1), needle@);
        }
        if bytes_eq(&branches[i].name, needle) {
            let kept = branches[i].duplicate();
            proof {
                lemma_views_push(r@, kept, exact_matches(l.take(i as int), needle@));
            }
            r.push(kept);
        }
        i = i + 1;
    }
    proof {
        assert(l.take(l.len() as int) =~= l);
    }
    r
}

/// The substring phase: the records of `branches` whose name contains
/// `needle` as a contiguous substring, in list order.
pub fn match_branch_substring(branches: &Vec<Branch>, needle: &Vec<u8>) -> (r: Vec<Branch>)
    ensures
        branch_views(r@) == substring_matches(branch_views(branches@), needle@),
{
    let ghost l = branch_views(branches@);
    let mut r: Vec<Branch> = Vec::new();
    let mut i: usize = 0;
    proof {
        lemma_substring_matches_empty(l.take(0), needle@);
        assert(branch_views(r@) =~= Seq::<BranchSpec>::empty());
    }
    while i < branches.len()
        invariant
            0 <= i <= branches.len(),
            l == branch_views(branches@),
            branch_views(r@) == substring_matches(l.take(i as int), needle@),
        decreases branches.len() - i,
    {
        proof {
            assert(l[i as int] == branches@[i as int]@);
            assert(l.take(i + 1).drop_last() =~= l.take(i as int));
            assert(l.take(i + 1).last() == l[i as int]);
            lemma_substring_matches_step(l.take(i + 1), needle@);
        }
        if find_sub(&branches[i].name, needle).is_some() {
            let kept = branches[i].duplicate();
            proof {
                lemma_views_push(r@, kept, substring_matches(l.take(i as int), needle@));
            }
            r.push(kept);
        }
        i = i + 1;
    }
    proof {
        assert(l.take(l.len() as int) =~= l);
    }
    r
}

/// The whole matcher: try the exact phase, and run the substring phase only
/// when the exact phase found nothing.
pub fn match_branches(branches: &Vec<Branch>, needle: &Vec<u8>) -> (r: Vec<Branch>)
    ensures
        branch_views(r@) == selected_matches(branch_views(branches@), needle@),
{
    let exact = match_branch_exactly(branches, needle);
    if exact.len() > 0 {
        exact
    } else {
        proof {
            assert(branch_views(exact@).len() == 0);
        }
        match_branch_substring(branches, needle)
    }
}

/// What the dispatcher decides to do, keyed purely by the number of matches.
pub enum Action {
    /// No branch matched: try the pattern itself as a commit or ref.
    CheckoutCommit,
    /// Exactly one branch matched: check it out by name.
    CheckoutBranch(Branch),
    /// More than one branch matched: refuse and report the candidates.
    ReportAmbiguity,
}

/// Decide the action from the match count: zero matches fall back to a
/// commit checkout, a single match is checked out as a branch, and several
/// matches are reported as ambiguous.
pub fn dispatch(candidates: &Vec<Branch>) -> (r: Action)
    ensures
        (r is CheckoutCommit) <==> candidates@.len() == 0,
        (r is CheckoutBranch) <==> candidates@.len() == 1,
        (r is ReportAmbiguity) <==> candidates@.len() > 1,
        candidates@.len() == 1 ==> (r matches Action::CheckoutBranch(b) && b@ == candidates@[0]@),
{
    if candidates.len() == 0 {
        Action::CheckoutCommit
    } else if candidates.len() == 1 {
        Action::CheckoutBranch(candidates[0].duplicate())
    } else {
        Action::ReportAmbiguity
    }
}

} // verus!
