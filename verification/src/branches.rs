//! The branch record, the assembly of the branch list from the tool's
//! reported names, and the tracking filter that drops a remote-tracking
//! branch shadowed by a local branch of the same short name.

use vstd::prelude::*;

use crate::text::SLASH;
use crate::text::bytes_eq;
use crate::text::copy_bytes;
use crate::text::copy_range;
use crate::text::find_byte;
use crate::text::first_pos;
use crate::text::spec_lines;
use crate::text::split_lines;

verus! {

/// One branch as the enumerator reports it: its short name (for a remote
/// branch, in `<remote>/<branch>` form) and whether it is remote-tracking.
pub struct Branch {
    pub name: Vec<u8>,
    pub is_remote: bool,
}

/// The mathematical value of a `Branch`.
pub struct BranchSpec {
    pub name: Seq<u8>,
    pub is_remote: bool,
}

impl View for Branch {
    type V = BranchSpec;

    open spec fn view(&self) -> BranchSpec {
        BranchSpec { name: self.name@, is_remote: self.is_remote }
    }
}

impl Branch {
    pub fn new(name: Vec<u8>, is_remote: bool) -> (r: Self)
        ensures
            r@ == (BranchSpec { name: name@, is_remote }),
    {
        Branch { name, is_remote }
    }

    /// A fresh record holding the same name and the same remote flag.
    pub fn duplicate(&self) -> (r: Self)
        ensures
            r@ == self@,
    {
        Branch { name: copy_bytes(&self.name), is_remote: self.is_remote }
    }
}

/// The values of a sequence of branch records.
pub open spec fn branch_views(s: Seq<Branch>) -> Seq<BranchSpec> {
    s.map_values(|b: Branch| b@)
}

/// The remote names carried in the remote-listing output: its lines, or
/// nothing at all when the listing command failed.
pub open spec fn remote_list_lines(output: Result<Vec<u8>, Vec<u8>>) -> Seq<Seq<u8>> {
    match output {
        Ok(t) => spec_lines(t@),
        Err(_) => Seq::empty(),
    }
}

/// The remote names in the remote-listing command's output, one per line;
/// a failed invocation (`Err`) degrades to no remotes at all.
pub fn get_git_remotes(output: &Result<Vec<u8>, Vec<u8>>) -> (r: Vec<Vec<u8>>)
    ensures
        r.deep_view() == remote_list_lines(*output),
{
    match output {
        Ok(t) => split_lines(t),
        Err(_) => {
            let r: Vec<Vec<u8>> = Vec::new();
            proof {
                assert(r.deep_view() =~= Seq::<Seq<u8>>::empty());
            }
            r
        },
    }
}

/// The short ref names in a ref-listing command's output, one per line;
/// a failed invocation (`Err`) degrades to no refs at all.
pub fn get_git_refs(output: &Result<Vec<u8>, Vec<u8>>) -> (r: Vec<Vec<u8>>)
    ensures
        r.deep_view() == remote_list_lines(*output),
{
    get_git_remotes(output)
}

/// The given names read as local branch records, in order.
pub open spec fn local_views(names: Seq<Seq<u8>>) -> Seq<BranchSpec> {
    names.map_values(|n: Seq<u8>| BranchSpec { name: n, is_remote: false })
}

/// The given names read as remote-tracking branch records, in order.
pub open spec fn remote_views(names: Seq<Seq<u8>>) -> Seq<BranchSpec> {
    names.map_values(|n: Seq<u8>| BranchSpec { name: n, is_remote: true })
}

/// The remote-tracking records of every remote's group, grouped in remote
/// order, each group in reported order.
pub open spec fn grouped_remote_views(groups: Seq<Seq<Seq<u8>>>) -> Seq<BranchSpec>
    decreases groups.len(),
{
    if groups.len() == 0 {
        Seq::empty()
    } else {
        grouped_remote_views(groups.drop_last()) + remote_views(groups.last())
    }
}

/// The full branch list: local branches first, then each remote's
/// remote-tracking branches, in remote-listing order.
pub open spec fn all_branch_views(locals: Seq<Seq<u8>>, groups: Seq<Seq<Seq<u8>>>) -> Seq<
    BranchSpec,
> {
    local_views(locals) + grouped_remote_views(groups)
}

/// Assemble the full branch list: the local short names tagged local, then,
/// remote by remote, each remote's short names tagged remote-tracking.
pub fn get_all_branches(local_refs: &Vec<Vec<u8>>, remote_groups: &Vec<Vec<Vec<u8>>>) -> (r: Vec<
    Branch,
>)
    ensures
        branch_views(r@) == all_branch_views(local_refs.deep_view(), remote_groups.deep_view()),
{
    let ghost locals = local_refs.deep_view();
    let ghost groups = remote_groups.deep_view();
    let mut branches: Vec<Branch> = Vec::new();
    let mut i: usize = 0;
    proof {
        assert(branch_views(branches@) =~= local_views(locals.take(0)));
    }
    while i < local_refs.len()
        invariant
            0 <= i <= local_refs.len(),
            locals == local_refs.deep_view(),
            branch_views(branches@) == local_views(locals.take(i as int)),
        decreases local_refs.len() - i,
    {
        let b = Branch::new(copy_bytes(&local_refs[i]), false);
        proof {
            let nb = branches@.push(b);
            assert(local_refs@[i as int].deep_view() =~= local_refs@[i as int]@);
            assert(b@.name == locals[i as int]);
            assert(branches@.len() == i as int) by {
                assert(branch_views(branches@).len() == local_views(
                    locals.take(i as int),
                ).len());
            }
            assert forall|k: int| 0 <= k < i + 1 implies branch_views(nb)[k] == local_views(
                locals.take(i + 1),
            )[k] by {
                if k < i {
                    assert(branch_views(branches@)[k] == local_views(locals.take(i as int))[k]);
                    assert(branch_views(branches@)[k] == branches@[k]@);
                }
            }
            assert(branch_views(nb) =~= local_views(locals.take(i + 1)));
        }
        branches.push(b);
        i = i + 1;
    }
    proof {
        assert(locals.take(locals.len() as int) =~= locals);
        assert(branch_views(branches@) =~= local_views(locals) + grouped_remote_views(
            groups.take(0),
        ));
    }
    let mut g: usize = 0;
    while g < remote_groups.len()
        invariant
            0 <= g <= remote_groups.len(),
            locals == local_refs.deep_view(),
            groups == remote_groups.deep_view(),
            branch_views(branches@) == local_views(locals) + grouped_remote_views(
                groups.take(g as int),
            ),
        decreases remote_groups.len() - g,
    {
        let group: &Vec<Vec<u8>> = &remote_groups[g];
        let ghost gnames = group.deep_view();
        let mut j: usize = 0;
        proof {
            assert(gnames.take(0) =~= Seq::<Seq<u8>>::empty());
            assert(remote_views(gnames.take(0)) =~= Seq::<BranchSpec>::empty());
            assert(branch_views(branches@) + remote_views(gnames.take(0)) =~= branch_views(
                branches@,
            ));
        }
        let ghost base = branch_views(branches@);
        while j < group.len()
            invariant
                0 <= j <= group.len(),
                gnames == group.deep_view(),
                branch_views(branches@) == base + remote_views(gnames.take(j as int)),
            decreases group.len() - j,
        {
            let b = Branch::new(copy_bytes(&group[j]), true);
            proof {
                let nb = branches@.push(b);
                let rhs = base + remote_views(gnames.take(j + 1));
                assert(group@[j as int].deep_view() =~= group@[j as int]@);
                assert(b@.name == gnames[j as int]);
                assert(branches@.len() == base.len() + j as int) by {
                    assert(branch_views(branches@).len() == (base + remote_views(
                        gnames.take(j as int),
                    )).len());
                }
                assert forall|k: int| 0 <= k < nb.len() implies branch_views(nb)[k] == rhs[k] by {
                    if k < branches@.len() {
                        assert(branch_views(branches@)[k] == (base + remote_views(
                            gnames.take(j as int),
                        ))[k]);
                        assert(branch_views(branches@)[k] == branches@[k]@);
                        if k >= base.len() {
                            assert(remote_views(gnames.take(j as int))[k - base.len()]
                                == remote_views(gnames.take(j + 1))[k - base.len()]);
                        }
                    }
                }
                assert(branch_views(nb) =~= rhs);
            }
            branches.push(b);
            j = j + 1;
        }
        proof {
            assert(gnames.take(gnames.len() as int) =~= gnames);
            assert(groups.take(g + 1).drop_last() =~= groups.take(g as int));
            assert(groups.take(g + 1).last() == groups[g as int]);
            assert(groups[g as int] == gnames);
            assert(branch_views(branches@) =~= local_views(locals) + grouped_remote_views(
                groups.take(g + 1),
            ));
        }
        g = g + 1;
    }
    proof {
        assert(groups.take(groups.len() as int) =~= groups);
    }
    branches
}

/// Pushing a record onto a list pushes its value onto the list's values.
pub proof fn lemma_views_push(s: Seq<Branch>, b: Branch, t: Seq<BranchSpec>)
    requires
        branch_views(s) == t,
    ensures
        branch_views(s.push(b)) == t.push(b@),
{
    assert forall|k: int| 0 <= k < s.len() + 1 implies branch_views(s.push(b))[k] == t.push(
        b@,
    )[k] by {
        if k < s.len() {
            assert(branch_views(s)[k] == s[k]@);
        }
    }
    assert(branch_views(s.push(b)) =~= t.push(b@));
}

/// The name has a `/` separator somewhere.
pub open spec fn has_slash(name: Seq<u8>) -> bool {
    first_pos(name, SLASH) < name.len()
}

/// The name with everything up to and including its first `/` removed: for a
/// remote-tracking branch, the short name without the remote's prefix.
pub open spec fn stripped_name(name: Seq<u8>) -> Seq<u8> {
    name.subrange(first_pos(name, SLASH) + 1, name.len() as int)
}

/// Some local branch in `l` carries exactly the name `n`.
pub open spec fn has_local_named(l: Seq<BranchSpec>, n: Seq<u8>) -> bool {
    exists|k: int| 0 <= k < l.len() && !l[k].is_remote && l[k].name == n
}

/// The tracking filter keeps a record: every local branch, and a remote
/// branch only when its name has a remote prefix to strip and no local
/// branch in `l` carries the stripped name.
pub open spec fn tracking_kept(l: Seq<BranchSpec>, b: BranchSpec) -> bool {
    !b.is_remote || (has_slash(b.name) && !has_local_named(l, stripped_name(b.name)))
}

/// The records of `sub` that the tracking filter keeps, judged against the
/// local branches of `l`.
pub open spec fn tracking_filter(l: Seq<BranchSpec>, sub: Seq<BranchSpec>) -> Seq<BranchSpec> {
    sub.filter(|b: BranchSpec| tracking_kept(l, b))
}

/// The tracking branch set of a branch list: every local branch, plus only
/// those remote branches whose stripped name no local branch carries.
pub open spec fn tracking_branches(l: Seq<BranchSpec>) -> Seq<BranchSpec> {
    tracking_filter(l, l)
}

pub proof fn lemma_tracking_filter_empty(l: Seq<BranchSpec>, sub: Seq<BranchSpec>)
    requires
        sub.len() == 0,
    ensures
        tracking_filter(l, sub) == Seq::<BranchSpec>::empty(),
{
    reveal(Seq::filter);
    assert(sub =~= Seq::<BranchSpec>::empty());
}

pub proof fn lemma_tracking_filter_step(l: Seq<BranchSpec>, sub: Seq<BranchSpec>)
    requires
        sub.len() > 0,
    ensures
        tracking_filter(l, sub) == if tracking_kept(l, sub.last()) {
            tracking_filter(l, sub.drop_last()).push(sub.last())
        } else {
            tracking_filter(l, sub.drop_last())
        },
{
    reveal(Seq::filter);
}

proof fn lemma_tracking_filter_membership(l: Seq<BranchSpec>, sub: Seq<BranchSpec>)
    ensures
        forall|k: int|
            0 <= k < tracking_filter(l, sub).len() ==> sub.contains(
                #[trigger] tracking_filter(l, sub)[k],
            ) && tracking_kept(l, tracking_filter(l, sub)[k]),
    decreases sub.len(),
{
    if sub.len() == 0 {
        lemma_tracking_filter_empty(l, sub);
    } else {
        lemma_tracking_filter_step(l, sub);
        lemma_tracking_filter_membership(l, sub.drop_last());
        let shorter = tracking_filter(l, sub.drop_last());
        assert forall|k: int| 0 <= k < tracking_filter(l, sub).len() implies sub.contains(
            #[trigger] tracking_filter(l, sub)[k],
        ) && tracking_kept(l, tracking_filter(l, sub)[k]) by {
            if k < shorter.len() {
                assert(sub.drop_last().contains(shorter[k]));
                let m = choose|m: int|
                    0 <= m < sub.drop_last().len() && sub.drop_last()[m] == shorter[k];
                assert(sub[m] == shorter[k]);
            } else {
                assert(tracking_filter(l, sub)[k] == sub.last());
                assert(sub[sub.len() - 1] == sub.last());
            }
        }
    }
}

proof fn lemma_tracking_filter_all_kept(l: Seq<BranchSpec>, sub: Seq<BranchSpec>)
    requires
        forall|k: int| 0 <= k < sub.len() ==> tracking_kept(l, #[trigger] sub[k]),
    ensures
        tracking_filter(l, sub) == sub,
    decreases sub.len(),
{
    if sub.len() == 0 {
        lemma_tracking_filter_empty(l, sub);
        assert(tracking_filter(l, sub) =~= sub);
    } else {
        lemma_tracking_filter_step(l, sub);
        assert(forall|k: int|
            0 <= k < sub.drop_last().len() ==> tracking_kept(l, #[trigger] sub.drop_last()[k]));
        lemma_tracking_filter_all_kept(l, sub.drop_last());
        assert(sub[sub.len() - 1] == sub.last());
        assert(sub.drop_last().push(sub.last()) =~= sub);
    }
}

/// Running the tracking filter on its own output yields that output again:
/// no remote branch with a local counterpart survives the first pass, so a
/// second pass removes nothing further.
pub proof fn lemma_tracking_filter_idempotent(l: Seq<BranchSpec>)
    ensures
        tracking_branches(tracking_branches(l)) == tracking_branches(l),
{
    let t = tracking_branches(l);
    lemma_tracking_filter_membership(l, l);
    assert forall|k: int| 0 <= k < t.len() implies tracking_kept(t, #[trigger] t[k]) by {
        if t[k].is_remote {
            assert(tracking_kept(l, t[k]));
            if has_local_named(t, stripped_name(t[k].name)) {
                let m = choose|m: int|
                    0 <= m < t.len() && !t[m].is_remote && t[m].name == stripped_name(t[k].name);
                assert(l.contains(t[m]));
                let w = choose|w: int| 0 <= w < l.len() && l[w] == t[m];
                assert(!l[w].is_remote && l[w].name == stripped_name(t[k].name));
                assert(has_local_named(l, stripped_name(t[k].name)));
            }
        }
    }
    lemma_tracking_filter_all_kept(t, t);
}

/// Some local branch of `all_branches` carries exactly the name `n`.
pub fn has_local_with_name(all_branches: &Vec<Branch>, n: &Vec<u8>) -> (r: bool)
    ensures
        r == has_local_named(branch_views(all_branches@), n@),
{
    let ghost l = branch_views(all_branches@);
    let mut k: usize = 0;
    while k < all_branches.len()
        invariant
            0 <= k <= all_branches.len(),
            l == branch_views(all_branches@),
            forall|m: int| 0 <= m < k ==> !(!l[m].is_remote && l[m].name == n@),
        decreases all_branches.len() - k,
    {
        if !all_branches[k].is_remote && bytes_eq(&all_branches[k].name, n) {
            proof {
                assert(!l[k as int].is_remote && l[k as int].name == n@);
            }
            return true;
        }
        proof {
            assert(l[k as int] == all_branches@[k as int]@);
        }
        k = k + 1;
    }
    false
}

/// Collapse the branch list to its tracking set: keep every local branch,
/// and keep a remote branch only when no local branch carries its short name
/// with the `<remote>/` prefix stripped. A remote record without a `/` in
/// its name is dropped.
pub fn get_tracking_branches(all_branches: &Vec<Branch>) -> (r: Vec<Branch>)
    ensures
        branch_views(r@) == tracking_branches(branch_views(all_branches@)),
{
    let ghost l = branch_views(all_branches@);
    let mut result: Vec<Branch> = Vec::new();
    let mut i: usize = 0;
    proof {
        lemma_tracking_filter_empty(l, l.take(0));
        assert(branch_views(result@) =~= Seq::<BranchSpec>::empty());
    }
    while i < all_branches.len()
        invariant
            0 <= i <= all_branches.len(),
            l == branch_views(all_branches@),
            branch_views(result@) == tracking_filter(l, l.take(i as int)),
        decreases all_branches.len() - i,
    {
        let b = &all_branches[i];
        proof {
            assert(l[i as int] == all_branches@[i as int]@);
        }
        let mut keep = false;
        if !b.is_remote {
            keep = true;
        } else {
            let s: usize = find_byte(&b.name, SLASH);
            if s < b.name.len() {
                let stripped = copy_range(&b.name, s + 1, b.name.len());
                proof {
                    assert(stripped@ == stripped_name(l[i as int].name));
                }
                if !has_local_with_name(all_branches, &stripped) {
                    keep = true;
                }
            }
        }
        proof {
            assert(keep == tracking_kept(l, l[i as int]));
            assert(l.take(i + 1).drop_last() =~= l.take(i as int));
            assert(l.take(i + 1).last() == l[i as int]);
            lemma_tracking_filter_step(l, l.take(i + 1));
        }
        if keep {
            let kept = b.duplicate();
            proof {
                lemma_views_push(result@, kept, tracking_filter(l, l.take(i as int)));
            }
            result.push(kept);
        }
        i = i + 1;
    }
    proof {
        assert(l.take(l.len() as int) =~= l);
    }
    result
}

} // verus!
