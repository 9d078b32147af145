//! Short-circuit depth-first search over a forest: a matching node is
//! reported and its descendants are pruned (the match absorbs its whole
//! subtree); a non-matching node is skipped and its children searched.

use vstd::prelude::*;

use crate::text::contains_seq;
use crate::text::contains_str;
use crate::tree::children_recs;
use crate::tree::children_recs_upto;
use crate::tree::is_root;
use crate::tree::lemma_forest_exact_index;
use crate::tree::lemma_forest_exact_pointwise;
use crate::tree::node_rec;
use crate::tree::rec_view;
use crate::tree::root_views;
use crate::tree::root_views_upto;
use crate::tree::subtree_exact;
use crate::tree::Process;
use crate::tree::ProcessRecord;
use crate::tree::RootPolicy;

verus! {

/// The capability the search asks of its caller: does this node match?
/// An implementation decides by `matches` exactly what its
/// `spec_matches` says.
pub trait NodeMatcher {
    spec fn spec_matches(&self, n: Process) -> bool;

    fn matches(&self, n: &Process) -> (r: bool)
        ensures
            r == self.spec_matches(*n),
    ;
}

/// What the search reports under node `n`: the node itself when it
/// matches (descendants absorbed), else the reports of its children in
/// order.
pub open spec fn spec_search_node<M: NodeMatcher>(n: Process, m: M) -> Seq<Process>
    decreases n, 0int,
{
    if m.spec_matches(n) {
        seq![n]
    } else {
        spec_search_forest(n.children, m, 0)
    }
}

/// What the search reports for the trees of `v` from position `i` on.
pub open spec fn spec_search_forest<M: NodeMatcher>(v: Vec<Process>, m: M, i: int) -> Seq<Process>
    decreases v, v.len() - i,
{
    if 0 <= i < v.len() {
        spec_search_node(v[i], m) + spec_search_forest(v, m, i + 1)
    } else {
        Seq::empty()
    }
}

impl Process {
    /// Appends to `result` the matches under `self`, depth first, pruning
    /// each match's descendants.
    pub fn search<'a, M: NodeMatcher>(&'a self, result: &mut Vec<&'a Process>, matcher: &M)
        ensures
            final(result)@.map_values(|p: &Process| *p) == old(result)@.map_values(
                |p: &Process| *p,
            ) + spec_search_node(*self, *matcher),
        decreases *self,
    {
        let ghost d = |p: &Process| *p;
        if matcher.matches(self) {
            let ghost pre = result@;
            result.push(self);
            proof {
                assert(result@.map_values(d) =~= pre.map_values(d).push(*self));
                assert(result@.map_values(d) =~= pre.map_values(d) + spec_search_node(
                    *self,
                    *matcher,
                ));
            }
        } else {
            let ghost start = result@.map_values(|p: &Process| *p);
            let mut k: usize = 0;
            proof {
                assert(spec_search_forest(self.children, *matcher, 0) + Seq::<Process>::empty()
                    =~= spec_search_forest(self.children, *matcher, 0));
            }
            while k < self.children.len()
                invariant
                    k <= self.children@.len(),
                    result@.map_values(|p: &Process| *p) + spec_search_forest(
                        self.children,
                        *matcher,
                        k as int,
                    ) == start + spec_search_forest(self.children, *matcher, 0),
                decreases self.children@.len() - k,
            {
                proof {
                    assert(decreases_to!(*self => self.children));
                    assert(decreases_to!(self.children => self.children@[k as int]));
                }
                self.children[k].search(result, matcher);
                proof {
                    assert(result@.map_values(|p: &Process| *p) + spec_search_forest(
                        self.children,
                        *matcher,
                        k + 1,
                    ) =~= start + spec_search_forest(self.children, *matcher, 0));
                }
                k = k + 1;
            }
            proof {
                assert(spec_search_forest(self.children, *matcher, k as int) =~= Seq::<
                    Process,
                >::empty());
                assert(result@.map_values(d) =~= start + spec_search_node(*self, *matcher));
            }
        }
    }
}

/// The predicate the viewer filters with: an optional owning uid, and an
/// optional case-sensitive substring of the command line. An absent part
/// constrains nothing.
pub struct Matcher {
    pub uid_filter: Option<u32>,
    pub filter: Option<String>,
}

impl NodeMatcher for Matcher {
    open spec fn spec_matches(&self, n: Process) -> bool {
        &&& match self.uid_filter {
            Some(u) => n.uid == u,
            None => true,
        }
        &&& match self.filter {
            Some(f) => contains_seq(n.cmdline@, f@),
            None => true,
        }
    }

    fn matches(&self, n: &Process) -> (r: bool)
        ensures
            r == self.spec_matches(*n),
    {
        let uid_ok = match &self.uid_filter {
            Some(u) => n.uid == *u,
            None => true,
        };
        let filter_ok = match &self.filter {
            Some(f) => contains_str(n.cmdline.as_str(), f.as_str()),
            None => true,
        };
        uid_ok && filter_ok
    }
}

/// Match-all identity: under a predicate that matches every node, the
/// search of a forest returns exactly its root list, in order, each root
/// absorbing its whole subtree.
pub proof fn lemma_match_all_identity<M: NodeMatcher>(v: Vec<Process>, m: M)
    requires
        forall|n: Process| m.spec_matches(n),
    ensures
        spec_search_forest(v, m, 0) == v@,
{
    lemma_match_all_from(v, m, 0);
    assert(v@.skip(0) =~= v@);
}

/// `x` is `n` itself or sits somewhere below it.
pub open spec fn in_subtree(x: Process, n: Process) -> bool
    decreases n, 0int,
{
    x == n || in_forest(x, n.children, 0)
}

/// `x` sits in one of the trees of `v` from position `i` on.
pub open spec fn in_forest(x: Process, v: Vec<Process>, i: int) -> bool
    decreases v, v.len() - i,
{
    if 0 <= i < v.len() {
        in_subtree(x, v[i]) || in_forest(x, v, i + 1)
    } else {
        false
    }
}

/// `x` is a proper descendant of `a`.
pub open spec fn descendant_of(x: Process, a: Process) -> bool {
    in_forest(x, a.children, 0)
}

/// The pids occurring anywhere in the tree rooted at `n`.
pub open spec fn pid_set(n: Process) -> Set<nat>
    decreases n, 0int,
{
    forest_pid_set(n.children, 0).insert(n.pid as nat)
}

/// The pids occurring in the trees of `v` from position `i` on.
pub open spec fn forest_pid_set(v: Vec<Process>, i: int) -> Set<nat>
    decreases v, v.len() - i,
{
    if 0 <= i < v.len() {
        pid_set(v[i]).union(forest_pid_set(v, i + 1))
    } else {
        Set::empty()
    }
}

/// No pid is claimed by both sets.
pub open spec fn pids_disjoint(a: Set<nat>, b: Set<nat>) -> bool {
    forall|p: nat| #![trigger a.contains(p), b.contains(p)] !(a.contains(p) && b.contains(p))
}

/// No pid occurs twice in the tree rooted at `n`: sibling subtrees claim
/// disjoint pid sets, none claims the root's pid, and so on below.
pub open spec fn tree_distinct(n: Process) -> bool
    decreases n, 0int,
{
    &&& forall|i: int, j: int|
        0 <= i < j < n.children@.len() ==> pids_disjoint(
            pid_set(#[trigger] n.children@[i]),
            pid_set(#[trigger] n.children@[j]),
        )
    &&& forall|i: int|
        0 <= i < n.children@.len() ==> !pid_set(#[trigger] n.children@[i]).contains(n.pid as nat)
    &&& forest_distinct(n.children, 0)
}

/// Every tree of `v` from position `i` on has distinct pids within it.
pub open spec fn forest_distinct(v: Vec<Process>, i: int) -> bool
    decreases v, v.len() - i,
{
    if 0 <= i < v.len() {
        tree_distinct(v[i]) && forest_distinct(v, i + 1)
    } else {
        true
    }
}

/// A forest in which every pid occurs at most once: each tree internally
/// distinct, and the trees pairwise disjoint.
pub open spec fn forest_distinct_pids(v: Vec<Process>) -> bool {
    &&& forall|j1: int, j2: int|
        0 <= j1 < j2 < v.len() ==> pids_disjoint(pid_set(#[trigger] v@[j1]), pid_set(
            #[trigger] v@[j2],
        ))
    &&& forest_distinct(v, 0)
}

proof fn lemma_in_subtree_pid(x: Process, n: Process)
    requires
        in_subtree(x, n),
    ensures
        pid_set(n).contains(x.pid as nat),
        forall|p: nat| pid_set(x).contains(p) ==> pid_set(n).contains(p),
    decreases n, 0int,
{
    if x == n {
    } else {
        lemma_in_forest_pid(x, n.children, 0);
    }
}

proof fn lemma_in_forest_pid(x: Process, v: Vec<Process>, i: int)
    requires
        in_forest(x, v, i),
    ensures
        forest_pid_set(v, i).contains(x.pid as nat),
        forall|p: nat| pid_set(x).contains(p) ==> forest_pid_set(v, i).contains(p),
    decreases v, v.len() - i,
{
    if in_subtree(x, v[i]) {
        lemma_in_subtree_pid(x, v[i]);
    } else {
        lemma_in_forest_pid(x, v, i + 1);
    }
}

proof fn lemma_forest_pid_member(v: Vec<Process>, i: int, p: nat)
    requires
        forest_pid_set(v, i).contains(p),
    ensures
        exists|j: int| i <= j < v.len() && pid_set(#[trigger] v@[j]).contains(p),
    decreases v.len() - i,
{
    if 0 <= i < v.len() {
        if pid_set(v[i]).contains(p) {
            assert(pid_set(v@[i]).contains(p));
        } else {
            lemma_forest_pid_member(v, i + 1, p);
        }
    }
}

proof fn lemma_in_subtree_trans(y: Process, x: Process, n: Process)
    requires
        in_subtree(y, x),
        in_subtree(x, n),
    ensures
        in_subtree(y, n),
    decreases n, 0int,
{
    if x == n {
    } else {
        lemma_in_forest_trans(y, x, n.children, 0);
    }
}

proof fn lemma_in_forest_trans(y: Process, x: Process, v: Vec<Process>, i: int)
    requires
        in_subtree(y, x),
        in_forest(x, v, i),
    ensures
        in_forest(y, v, i),
    decreases v, v.len() - i,
{
    if in_subtree(x, v[i]) {
        lemma_in_subtree_trans(y, x, v[i]);
    } else {
        lemma_in_forest_trans(y, x, v, i + 1);
    }
}

proof fn lemma_search_in_subtree<M: NodeMatcher>(n: Process, m: M)
    ensures
        forall|a: int|
            0 <= a < spec_search_node(n, m).len() ==> in_subtree(
                #[trigger] spec_search_node(n, m)[a],
                n,
            ),
    decreases n, 0int,
{
    if m.spec_matches(n) {
    } else {
        lemma_search_forest_in(n.children, m, 0);
        assert forall|a: int| 0 <= a < spec_search_node(n, m).len() implies in_subtree(
            #[trigger] spec_search_node(n, m)[a],
            n,
        ) by {
            let x = spec_search_node(n, m)[a];
            assert(spec_search_node(n, m) == spec_search_forest(n.children, m, 0));
            assert(x == spec_search_forest(n.children, m, 0)[a]);
            assert(in_forest(x, n.children, 0));
        }
    }
}

proof fn lemma_search_forest_in<M: NodeMatcher>(v: Vec<Process>, m: M, i: int)
    ensures
        forall|a: int|
            0 <= a < spec_search_forest(v, m, i).len() ==> in_forest(
                #[trigger] spec_search_forest(v, m, i)[a],
                v,
                i,
            ),
    decreases v, v.len() - i,
{
    if 0 <= i < v.len() {
        lemma_search_in_subtree(v[i], m);
        lemma_search_forest_in(v, m, i + 1);
        let first = spec_search_node(v[i], m);
        let rest = spec_search_forest(v, m, i + 1);
        assert forall|a: int| 0 <= a < spec_search_forest(v, m, i).len() implies in_forest(
            #[trigger] spec_search_forest(v, m, i)[a],
            v,
            i,
        ) by {
            let x = spec_search_forest(v, m, i)[a];
            if a < first.len() {
                assert(x == first[a]);
                assert(in_subtree(x, v[i]));
            } else {
                assert(x == rest[a - first.len()]);
                assert(in_forest(x, v, i + 1));
            }
        }
    }
}

/// No element of `res` sits properly below another element of `res`.
pub open spec fn no_mutual_descendant(res: Seq<Process>) -> bool {
    forall|a: int, b: int|
        0 <= a < res.len() && 0 <= b < res.len() && a != b ==> !(#[trigger] descendant_of(
            res[a],
            res[b],
        ))
}

proof fn lemma_absorption_node<M: NodeMatcher>(n: Process, m: M)
    requires
        tree_distinct(n),
    ensures
        no_mutual_descendant(spec_search_node(n, m)),
    decreases n, 0int,
{
    if m.spec_matches(n) {
        assert(spec_search_node(n, m).len() == 1);
    } else {
        lemma_absorption_forest(n.children, m, 0);
    }
}

proof fn lemma_absorption_forest<M: NodeMatcher>(v: Vec<Process>, m: M, i: int)
    requires
        forest_distinct(v, i),
        forall|j1: int, j2: int|
            i <= j1 < j2 < v.len() ==> pids_disjoint(pid_set(#[trigger] v@[j1]), pid_set(
                #[trigger] v@[j2],
            )),
    ensures
        no_mutual_descendant(spec_search_forest(v, m, i)),
    decreases v, v.len() - i,
{
    if 0 <= i < v.len() {
        lemma_absorption_node(v[i], m);
        lemma_absorption_forest(v, m, i + 1);
        lemma_search_in_subtree(v[i], m);
        lemma_search_forest_in(v, m, i + 1);
        let first = spec_search_node(v[i], m);
        let rest = spec_search_forest(v, m, i + 1);
        let whole = spec_search_forest(v, m, i);
        assert forall|a: int, b: int|
            0 <= a < whole.len() && 0 <= b < whole.len() && a != b implies !(
        #[trigger] descendant_of(whole[a], whole[b])) by {
            let x = whole[a];
            let y = whole[b];
            if a < first.len() && b < first.len() {
                assert(x == first[a] && y == first[b]);
                assert(!descendant_of(first[a], first[b]));
            } else if a >= first.len() && b >= first.len() {
                assert(x == rest[a - first.len()] && y == rest[b - first.len()]);
                assert(!descendant_of(rest[a - first.len()], rest[b - first.len()]));
            } else {
                if descendant_of(x, y) {
                    assert(in_forest(x, y.children, 0));
                    assert(in_subtree(x, y));
                    if a < first.len() {
                        assert(x == first[a] && y == rest[b - first.len()]);
                        assert(in_subtree(x, v[i]));
                        assert(in_forest(y, v, i + 1));
                        lemma_in_subtree_pid(x, v[i]);
                        lemma_in_subtree_pid(x, y);
                        lemma_in_forest_pid(y, v, i + 1);
                        assert(forest_pid_set(v, i + 1).contains(x.pid as nat));
                        lemma_forest_pid_member(v, i + 1, x.pid as nat);
                        let j = choose|j: int|
                            i + 1 <= j < v.len() && pid_set(#[trigger] v@[j]).contains(
                                x.pid as nat,
                            );
                        assert(pids_disjoint(pid_set(v@[i]), pid_set(v@[j])));
                        assert(false);
                    } else {
                        assert(x == rest[a - first.len()] && y == first[b]);
                        assert(in_subtree(y, v[i]));
                        assert(in_forest(x, v, i + 1));
                        lemma_in_subtree_trans(x, y, v[i]);
                        lemma_in_subtree_pid(x, v[i]);
                        lemma_in_forest_pid(x, v, i + 1);
                        lemma_forest_pid_member(v, i + 1, x.pid as nat);
                        let j = choose|j: int|
                            i + 1 <= j < v.len() && pid_set(#[trigger] v@[j]).contains(
                                x.pid as nat,
                            );
                        assert(pids_disjoint(pid_set(v@[i]), pid_set(v@[j])));
                        assert(false);
                    }
                }
            }
        }
    }
}

/// Search absorption: over a forest in which every pid occurs at most
/// once, no reported node is a proper descendant — nor, read with the
/// roles swapped, an ancestor — of another reported node, for any
/// predicate: a match absorbs its whole subtree.
pub proof fn lemma_search_absorption<M: NodeMatcher>(v: Vec<Process>, m: M)
    requires
        forest_distinct_pids(v),
    ensures
        no_mutual_descendant(spec_search_forest(v, m, 0)),
{
    lemma_absorption_forest(v, m, 0);
}


/// Every record carries a distinct pid.
pub open spec fn uniq_pids(records: Seq<ProcessRecord>) -> bool {
    forall|i: int, j: int|
        0 <= i < j < records.len() ==> (#[trigger] records[i]).pid != (#[trigger] records[j]).pid
}

/// A witness that the record set is acyclic: along every child-to-parent
/// edge between records, the child's pid ranks strictly below the
/// parent's.
pub open spec fn ranked(records: Seq<ProcessRecord>, rank: spec_fn(u32) -> nat) -> bool {
    forall|i: int, j: int|
        0 <= i < records.len() && 0 <= j < records.len() && (#[trigger] records[i]).ppid == (
        #[trigger] records[j]).pid ==> rank(records[i].pid) < rank(records[j].pid)
}

/// No record claims a root record's parent pid. The parent-absent policy
/// gives this by definition; for the zero-sentinel policy it says no
/// record has pid zero.
pub open spec fn roots_external(records: Seq<ProcessRecord>, policy: RootPolicy) -> bool {
    forall|i: int, j: int|
        0 <= i < records.len() && 0 <= j < records.len() && is_root(
            records,
            #[trigger] records[i],
            policy,
        ) ==> (#[trigger] records[j]).pid != records[i].ppid
}

/// The node carries the pid, parent, owner and command line of one of the
/// records.
pub open spec fn is_record_node(records: Seq<ProcessRecord>, n: Process) -> bool {
    exists|j: int| 0 <= j < records.len() && node_rec(n) == rec_view(#[trigger] records[j])
}

proof fn lemma_children_recs_facts(records: Seq<ProcessRecord>, k: u32, i: int)
    requires
        uniq_pids(records),
        0 <= i <= records.len(),
    ensures
        forall|x: (nat, nat, nat, Seq<char>)|
            #[trigger] children_recs_upto(records, k, i).contains(x) ==> exists|j: int|
                0 <= j < i && (#[trigger] records[j]).ppid == k && x == rec_view(records[j]),
        forall|a: int, b: int|
            0 <= a < b < children_recs_upto(records, k, i).len() ==> (#[trigger] children_recs_upto(
                records,
                k,
                i,
            )[a]).0 != (#[trigger] children_recs_upto(records, k, i)[b]).0,
    decreases i,
{
    if i > 0 {
        lemma_children_recs_facts(records, k, i - 1);
        let prev = children_recs_upto(records, k, i - 1);
        let cur = children_recs_upto(records, k, i);
        assert forall|x: (nat, nat, nat, Seq<char>)| #[trigger] cur.contains(x) implies exists|
            j: int,
        | 0 <= j < i && (#[trigger] records[j]).ppid == k && x == rec_view(records[j]) by {
            let w = choose|w: int| 0 <= w < cur.len() && cur[w] == x;
            if w < prev.len() {
                assert(prev[w] == x);
                assert(prev.contains(x));
            } else {
                assert(records[i - 1].ppid == k && x == rec_view(records[i - 1]));
            }
        }
        assert forall|a: int, b: int| 0 <= a < b < cur.len() implies (#[trigger] cur[a]).0 != (
        #[trigger] cur[b]).0 by {
            if b < prev.len() {
                assert(cur[a] == prev[a] && cur[b] == prev[b]);
            } else {
                assert(cur[b] == rec_view(records[i - 1]));
                assert(cur[a] == prev[a]);
                assert(prev.contains(prev[a]));
                let j = choose|j: int|
                    0 <= j < i - 1 && (#[trigger] records[j]).ppid == k && prev[a] == rec_view(
                        records[j],
                    );
                assert(records[j].pid != records[i - 1].pid);
            }
        }
    }
}

proof fn lemma_root_views_facts(records: Seq<ProcessRecord>, policy: RootPolicy, i: int)
    requires
        uniq_pids(records),
        0 <= i <= records.len(),
    ensures
        forall|x: (nat, nat, nat, Seq<char>)|
            #[trigger] root_views_upto(records, policy, i).contains(x) ==> exists|j: int|
                0 <= j < i && is_root(records, #[trigger] records[j], policy) && x == rec_view(
                    records[j],
                ),
        forall|a: int, b: int|
            0 <= a < b < root_views_upto(records, policy, i).len() ==> (#[trigger] root_views_upto(
                records,
                policy,
                i,
            )[a]).0 != (#[trigger] root_views_upto(records, policy, i)[b]).0,
    decreases i,
{
    if i > 0 {
        lemma_root_views_facts(records, policy, i - 1);
        let prev = root_views_upto(records, policy, i - 1);
        let cur = root_views_upto(records, policy, i);
        assert forall|x: (nat, nat, nat, Seq<char>)| #[trigger] cur.contains(x) implies exists|
            j: int,
        | 0 <= j < i && is_root(records, #[trigger] records[j], policy) && x == rec_view(
            records[j],
        ) by {
            let w = choose|w: int| 0 <= w < cur.len() && cur[w] == x;
            if w < prev.len() {
                assert(prev[w] == x);
                assert(prev.contains(x));
            } else {
                assert(is_root(records, records[i - 1], policy) && x == rec_view(records[i - 1]));
            }
        }
        assert forall|a: int, b: int| 0 <= a < b < cur.len() implies (#[trigger] cur[a]).0 != (
        #[trigger] cur[b]).0 by {
            if b < prev.len() {
                assert(cur[a] == prev[a] && cur[b] == prev[b]);
            } else {
                assert(cur[b] == rec_view(records[i - 1]));
                assert(cur[a] == prev[a]);
                assert(prev.contains(prev[a]));
                let j = choose|j: int|
                    0 <= j < i - 1 && is_root(records, #[trigger] records[j], policy) && prev[a]
                        == rec_view(records[j]);
                assert(records[j].pid != records[i - 1].pid);
            }
        }
    }
}

proof fn lemma_forest_pid_superset(v: Vec<Process>, i: int, m: int)
    requires
        0 <= i <= m < v.len(),
    ensures
        forall|p: nat|
            pid_set(v@[m]).contains(p) ==> #[trigger] forest_pid_set(v, i).contains(p),
    decreases m - i,
{
    if i < m {
        lemma_forest_pid_superset(v, i + 1, m);
        assert forall|p: nat| pid_set(v@[m]).contains(p) implies #[trigger] forest_pid_set(
            v,
            i,
        ).contains(p) by {
            assert(forest_pid_set(v, i + 1).contains(p));
        }
    } else {
        assert forall|p: nat| pid_set(v@[m]).contains(p) implies #[trigger] forest_pid_set(
            v,
            i,
        ).contains(p) by {
            assert(forest_pid_set(v, i) == pid_set(v[i]).union(forest_pid_set(v, i + 1)));
        }
    }
}

/// Each child of an exactly built node is itself the node of a record,
/// one whose parent pid is the node's pid.
proof fn lemma_child_record(n: Process, records: Seq<ProcessRecord>, fuel: nat, m: int)
    requires
        subtree_exact(n, records, fuel),
        uniq_pids(records),
        fuel > 0,
        0 <= m < n.children@.len(),
    ensures
        is_record_node(records, n.children@[m]),
        exists|j: int|
            0 <= j < records.len() && (#[trigger] records[j]).ppid == n.pid && rec_view(records[j])
                == node_rec(n.children@[m]),
{
    let cm = n.children@.map_values(|c: Process| node_rec(c));
    let cr = children_recs(records, n.pid);
    let x = node_rec(n.children@[m]);
    cm.to_multiset_ensures();
    cr.to_multiset_ensures();
    assert(cm[m] == x);
    assert(cm.contains(x));
    assert(cm.to_multiset().count(x) > 0);
    assert(cr.to_multiset().count(x) > 0);
    assert(cr.contains(x));
    lemma_children_recs_facts(records, n.pid, records.len() as int);
    let j = choose|j: int|
        0 <= j < records.len() && (#[trigger] records[j]).ppid == n.pid && x == rec_view(
            records[j],
        );
    assert(node_rec(n.children@[m]) == rec_view(records[j]));
}

/// Every pid below an exactly built node belongs to a record that ranks
/// strictly below the node, and that record's parent pid also sits in the
/// node's pid set: the ascent toward the node never leaves the subtree.
proof fn lemma_subtree_pid_facts(
    n: Process,
    records: Seq<ProcessRecord>,
    fuel: nat,
    rank: spec_fn(u32) -> nat,
)
    requires
        subtree_exact(n, records, fuel),
        uniq_pids(records),
        ranked(records, rank),
        is_record_node(records, n),
    ensures
        forall|q: nat|
            #[trigger] pid_set(n).contains(q) && q != n.pid as nat ==> exists|j: int|
                0 <= j < records.len() && (#[trigger] records[j]).pid as nat == q && rank(
                    records[j].pid,
                ) < rank(n.pid) && pid_set(n).contains(records[j].ppid as nat),
    decreases n, 0int,
{
    let jn = choose|j: int| 0 <= j < records.len() && node_rec(n) == rec_view(#[trigger] records[j]);
    assert(records[jn].pid == n.pid);
    assert forall|q: nat| #[trigger] pid_set(n).contains(q) && q != n.pid as nat implies exists|
        j: int,
    |
        0 <= j < records.len() && (#[trigger] records[j]).pid as nat == q && rank(records[j].pid)
            < rank(n.pid) && pid_set(n).contains(records[j].ppid as nat) by {
        assert(forest_pid_set(n.children, 0).contains(q));
        if fuel == 0 {
            assert(n.children@.len() == 0);
            assert(!forest_pid_set(n.children, 0).contains(q));
        } else {
            lemma_forest_pid_member(n.children, 0, q);
            let m = choose|m: int|
                0 <= m < n.children.len() && pid_set(#[trigger] n.children@[m]).contains(q);
            let c = n.children@[m];
            lemma_forest_exact_index(n.children, records, (fuel - 1) as nat, 0, m);
            lemma_child_record(n, records, fuel, m);
            let jc = choose|j: int|
                0 <= j < records.len() && (#[trigger] records[j]).ppid == n.pid && rec_view(
                    records[j],
                ) == node_rec(c);
            assert(records[jc].pid == c.pid);
            assert(records[jc].ppid == c.ppid);
            assert(rank(c.pid) < rank(n.pid));
            lemma_forest_pid_superset(n.children, 0, m);
            if q == c.pid as nat {
                assert(c.ppid == n.pid);
                assert(records[jc].pid as nat == q);
                assert(pid_set(n).contains(records[jc].ppid as nat));
            } else {
                lemma_subtree_pid_facts(c, records, (fuel - 1) as nat, rank);
                let j = choose|j: int|
                    0 <= j < records.len() && (#[trigger] records[j]).pid as nat == q && rank(
                        records[j].pid,
                    ) < rank(c.pid) && pid_set(c).contains(records[j].ppid as nat);
                assert(forest_pid_set(n.children, 0).contains(records[j].ppid as nat));
                assert(pid_set(n).contains(records[j].ppid as nat));
            }
        }
    }
}

/// Two exactly built trees with distinct root pids, neither of whose pid
/// sets claims the other root's parent pid, share no pid: a shared pid
/// would start a parent chain ascending both trees at once, and the
/// unique parent of each pid would force the chain through both roots'
/// parents.
proof fn lemma_pid_sets_meet(
    c1: Process,
    c2: Process,
    records: Seq<ProcessRecord>,
    fuel1: nat,
    fuel2: nat,
    rank: spec_fn(u32) -> nat,
    q: u32,
)
    requires
        subtree_exact(c1, records, fuel1),
        subtree_exact(c2, records, fuel2),
        uniq_pids(records),
        ranked(records, rank),
        is_record_node(records, c1),
        is_record_node(records, c2),
        c1.pid != c2.pid,
        !pid_set(c2).contains(c1.ppid as nat),
        !pid_set(c1).contains(c2.ppid as nat),
    ensures
        !(pid_set(c1).contains(q as nat) && pid_set(c2).contains(q as nat)),
    decreases rank(c1.pid) - rank(q),
{
    if pid_set(c1).contains(q as nat) && pid_set(c2).contains(q as nat) {
        lemma_subtree_pid_facts(c1, records, fuel1, rank);
        lemma_subtree_pid_facts(c2, records, fuel2, rank);
        let jn1 = choose|j: int|
            0 <= j < records.len() && node_rec(c1) == rec_view(#[trigger] records[j]);
        let jn2 = choose|j: int|
            0 <= j < records.len() && node_rec(c2) == rec_view(#[trigger] records[j]);
        assert(records[jn1].pid == c1.pid && records[jn1].ppid == c1.ppid);
        assert(records[jn2].pid == c2.pid && records[jn2].ppid == c2.ppid);
        if q == c1.pid {
            assert(q as nat != c2.pid as nat);
            let j = choose|j: int|
                0 <= j < records.len() && (#[trigger] records[j]).pid as nat == q as nat && rank(
                    records[j].pid,
                ) < rank(c2.pid) && pid_set(c2).contains(records[j].ppid as nat);
            // unique pids: the witness is c1's own record
            assert(records[j].pid == records[jn1].pid);
            if j < jn1 || jn1 < j {
                assert(false);
            }
            assert(records[j].ppid == c1.ppid);
            assert(pid_set(c2).contains(c1.ppid as nat));
        } else if q == c2.pid {
            assert(q as nat != c1.pid as nat);
            let j = choose|j: int|
                0 <= j < records.len() && (#[trigger] records[j]).pid as nat == q as nat && rank(
                    records[j].pid,
                ) < rank(c1.pid) && pid_set(c1).contains(records[j].ppid as nat);
            // unique pids: the witness is c2's own record
            assert(records[j].pid == records[jn2].pid);
            if j < jn2 || jn2 < j {
                assert(false);
            }
            assert(records[j].ppid == c2.ppid);
            assert(pid_set(c1).contains(c2.ppid as nat));
        } else {
            let j1 = choose|j: int|
                0 <= j < records.len() && (#[trigger] records[j]).pid as nat == q as nat && rank(
                    records[j].pid,
                ) < rank(c1.pid) && pid_set(c1).contains(records[j].ppid as nat);
            let j2 = choose|j: int|
                0 <= j < records.len() && (#[trigger] records[j]).pid as nat == q as nat && rank(
                    records[j].pid,
                ) < rank(c2.pid) && pid_set(c2).contains(records[j].ppid as nat);
            // unique pids: both subtrees point at the same record for q,
            // so the ascent continues with that record's parent pid in
            // both pid sets at once.
            if j1 < j2 || j2 < j1 {
                assert(records[j1].pid == records[j2].pid);
                assert(false);
            }
            let q2 = records[j1].ppid;
            assert(pid_set(c1).contains(q2 as nat));
            assert(pid_set(c2).contains(q2 as nat));
            assert(records[j1].pid == q);
            // q2 is itself a record pid: the root's own pid or a deeper
            // one, so the ascent strictly raises the rank and stays
            // bounded by the root's.
            if q2 as nat == c1.pid as nat {
                assert(records[j1].ppid == records[jn1].pid);
                assert(rank(q) < rank(c1.pid));
                assert(rank(q2) == rank(c1.pid));
                lemma_pid_sets_meet(c1, c2, records, fuel1, fuel2, rank, q2);
            } else {
                let jq = choose|j: int|
                    0 <= j < records.len() && (#[trigger] records[j]).pid as nat == q2 as nat
                        && rank(records[j].pid) < rank(c1.pid) && pid_set(c1).contains(
                        records[j].ppid as nat,
                    );
                assert(records[j1].ppid == records[jq].pid);
                assert(rank(q) < rank(records[jq].pid));
                assert(records[jq].pid == q2);
                lemma_pid_sets_meet(c1, c2, records, fuel1, fuel2, rank, q2);
            }
        }
    }
}


/// The children of an exactly built node carry pairwise distinct pids:
/// they enumerate records, and records' pids are unique.
proof fn lemma_sibling_pids_distinct(n: Process, records: Seq<ProcessRecord>, fuel: nat)
    requires
        subtree_exact(n, records, fuel),
        uniq_pids(records),
        fuel > 0,
    ensures
        forall|a: int, b: int|
            0 <= a < b < n.children@.len() ==> (#[trigger] n.children@[a]).pid != (
            #[trigger] n.children@[b]).pid,
{
    let cm = n.children@.map_values(|c: Process| node_rec(c));
    let cr = children_recs(records, n.pid);
    cm.to_multiset_ensures();
    cr.to_multiset_ensures();
    lemma_children_recs_facts(records, n.pid, records.len() as int);
    assert(cr.no_duplicates()) by {
        assert forall|a: int, b: int|
            0 <= a < cr.len() && 0 <= b < cr.len() && a != b implies cr[a] != cr[b] by {
            if a < b {
                assert(cr[a].0 != cr[b].0);
            } else {
                assert(cr[b].0 != cr[a].0);
            }
        }
    }
    cr.lemma_multiset_has_no_duplicates();
    assert forall|a: int, b: int| 0 <= a < b < n.children@.len() implies (
    #[trigger] n.children@[a]).pid != (#[trigger] n.children@[b]).pid by {
        if n.children@[a].pid == n.children@[b].pid {
            let x1 = cm[a];
            let x2 = cm[b];
            lemma_child_record(n, records, fuel, a);
            lemma_child_record(n, records, fuel, b);
            let j1 = choose|j: int|
                0 <= j < records.len() && (#[trigger] records[j]).ppid == n.pid && rec_view(
                    records[j],
                ) == node_rec(n.children@[a]);
            let j2 = choose|j: int|
                0 <= j < records.len() && (#[trigger] records[j]).ppid == n.pid && rec_view(
                    records[j],
                ) == node_rec(n.children@[b]);
            assert(records[j1].pid == n.children@[a].pid);
            assert(records[j2].pid == n.children@[b].pid);
            if j1 < j2 || j2 < j1 {
                assert(records[j1].pid != records[j2].pid);
                assert(false);
            }
            assert(x1 == x2);
            let s0 = cm.subrange(0, b);
            let s1 = cm.subrange(b, cm.len() as int);
            assert(cm =~= s0 + s1);
            vstd::seq_lib::lemma_multiset_commutative(s0, s1);
            s0.to_multiset_ensures();
            s1.to_multiset_ensures();
            assert(s0[a] == x1);
            assert(s0.contains(x1));
            assert(s0.to_multiset().count(x1) > 0);
            assert(s1[0] == x1);
            assert(s1.contains(x1));
            assert(s1.to_multiset().count(x1) > 0);
            assert(cm.to_multiset().count(x1) >= 2) by {
                broadcast use vstd::multiset::group_multiset_axioms;

                assert(cm.to_multiset() == s0.to_multiset().add(s1.to_multiset()));
            }
            assert(cr.to_multiset().count(x1) >= 2);
            assert(cr.to_multiset().contains(x1));
            assert(cr.to_multiset().count(x1) == 1);
            assert(false);
        }
    }
}

/// An exactly built node over a unique-pid, acyclic record set has each
/// pid at most once in its tree.
proof fn lemma_built_tree_distinct(
    n: Process,
    records: Seq<ProcessRecord>,
    fuel: nat,
    rank: spec_fn(u32) -> nat,
)
    requires
        subtree_exact(n, records, fuel),
        uniq_pids(records),
        ranked(records, rank),
        is_record_node(records, n),
    ensures
        tree_distinct(n),
    decreases n, 0int,
{
    if fuel == 0 {
        assert(n.children@.len() == 0);
        assert(forest_distinct(n.children, 0));
    } else {
        lemma_sibling_pids_distinct(n, records, fuel);
        let jn = choose|j: int|
            0 <= j < records.len() && node_rec(n) == rec_view(#[trigger] records[j]);
        assert(records[jn].pid == n.pid);
        // every child: built exactly one level down, the node of a record
        // whose parent pid is this node's pid, ranked strictly below.
        assert forall|m: int| 0 <= m < n.children@.len() implies subtree_exact(
            #[trigger] n.children@[m],
            records,
            (fuel - 1) as nat,
        ) && is_record_node(records, n.children@[m]) && rank(n.children@[m].pid) < rank(n.pid) by {
            lemma_forest_exact_index(n.children, records, (fuel - 1) as nat, 0, m);
            lemma_child_record(n, records, fuel, m);
            let jc = choose|j: int|
                0 <= j < records.len() && (#[trigger] records[j]).ppid == n.pid && rec_view(
                    records[j],
                ) == node_rec(n.children@[m]);
            assert(records[jc].pid == n.children@[m].pid);
        }
        // the node's own pid appears in no child subtree
        assert forall|m: int| 0 <= m < n.children@.len() implies !pid_set(
            #[trigger] n.children@[m],
        ).contains(n.pid as nat) by {
            let c = n.children@[m];
            if pid_set(c).contains(n.pid as nat) {
                lemma_subtree_pid_facts(c, records, (fuel - 1) as nat, rank);
                if n.pid as nat == c.pid as nat {
                    assert(rank(c.pid) < rank(n.pid));
                    assert(false);
                } else {
                    let j = choose|j: int|
                        0 <= j < records.len() && (#[trigger] records[j]).pid as nat == n.pid as nat
                            && rank(records[j].pid) < rank(c.pid) && pid_set(c).contains(
                            records[j].ppid as nat,
                        );
                    assert(records[j].pid == n.pid);
                    assert(rank(n.pid) < rank(c.pid));
                    assert(rank(c.pid) < rank(n.pid));
                    assert(false);
                }
            }
        }
        // sibling subtrees claim disjoint pid sets
        assert forall|a: int, b: int| 0 <= a < b < n.children@.len() implies pids_disjoint(
            pid_set(#[trigger] n.children@[a]),
            pid_set(#[trigger] n.children@[b]),
        ) by {
            let ca = n.children@[a];
            let cb = n.children@[b];
            assert(ca.ppid == n.pid && cb.ppid == n.pid);
            assert forall|p: nat| #![trigger pid_set(ca).contains(p), pid_set(cb).contains(p)] !(
            pid_set(ca).contains(p) && pid_set(cb).contains(p)) by {
                if pid_set(ca).contains(p) && pid_set(cb).contains(p) {
                    lemma_subtree_pid_facts(ca, records, (fuel - 1) as nat, rank);
                    let w: u32 = if p == ca.pid as nat {
                        ca.pid
                    } else {
                        let j = choose|j: int|
                            0 <= j < records.len() && (#[trigger] records[j]).pid as nat == p
                                && rank(records[j].pid) < rank(ca.pid) && pid_set(ca).contains(
                                records[j].ppid as nat,
                            );
                        records[j].pid
                    };
                    assert(w as nat == p);
                    lemma_pid_sets_meet(ca, cb, records, (fuel - 1) as nat, (fuel - 1) as nat, rank, w);
                    assert(false);
                }
            }
        }
        lemma_built_forest_distinct_rec(n.children, records, (fuel - 1) as nat, rank, 0);
    }
}

proof fn lemma_built_forest_distinct_rec(
    v: Vec<Process>,
    records: Seq<ProcessRecord>,
    fuel: nat,
    rank: spec_fn(u32) -> nat,
    i: int,
)
    requires
        uniq_pids(records),
        ranked(records, rank),
        forall|m: int|
            i <= m < v.len() ==> subtree_exact(#[trigger] v@[m], records, fuel) && is_record_node(
                records,
                v@[m],
            ),
    ensures
        forest_distinct(v, i),
    decreases v, v.len() - i,
{
    if 0 <= i < v.len() {
        lemma_built_tree_distinct(v[i], records, fuel, rank);
        lemma_built_forest_distinct_rec(v, records, fuel, rank, i + 1);
    }
}

/// Bridge from the builder to the absorption law: a forest built exactly
/// from a record set whose pids are unique, whose parent edges admit a
/// rank witness (no record is its own ancestor), and whose roots' parent
/// pids name no record, has every pid at most once — so
/// `lemma_search_absorption` applies to whatever `build_trees` returned
/// from such a record set.
pub proof fn lemma_built_forest_distinct(
    forest: Vec<Process>,
    records: Seq<ProcessRecord>,
    policy: RootPolicy,
    rank: spec_fn(u32) -> nat,
    fuel: nat,
)
    requires
        uniq_pids(records),
        ranked(records, rank),
        roots_external(records, policy),
        forest@.map_values(|n: Process| node_rec(n)) == root_views(records, policy),
        forall|i: int| 0 <= i < forest@.len() ==> subtree_exact(#[trigger] forest@[i], records, fuel),
    ensures
        forest_distinct_pids(forest),
{
    lemma_root_views_facts(records, policy, records.len() as int);
    let fm = forest@.map_values(|n: Process| node_rec(n));
    let rv = root_views(records, policy);
    assert forall|i: int| 0 <= i < forest@.len() implies is_record_node(
        records,
        #[trigger] forest@[i],
    ) && exists|j: int|
        0 <= j < records.len() && is_root(records, #[trigger] records[j], policy) && node_rec(
            forest@[i],
        ) == rec_view(records[j]) by {
        assert(fm[i] == node_rec(forest@[i]));
        assert(rv.contains(fm[i]));
        let j = choose|j: int|
            0 <= j < records.len() && is_root(records, #[trigger] records[j], policy) && fm[i]
                == rec_view(records[j]);
        assert(node_rec(forest@[i]) == rec_view(records[j]));
    }
    assert forall|j1: int, j2: int| 0 <= j1 < j2 < forest@.len() implies pids_disjoint(
        pid_set(#[trigger] forest@[j1]),
        pid_set(#[trigger] forest@[j2]),
    ) by {
        let f1 = forest@[j1];
        let f2 = forest@[j2];
        let r1 = choose|j: int|
            0 <= j < records.len() && is_root(records, #[trigger] records[j], policy) && node_rec(
                f1,
            ) == rec_view(records[j]);
        let r2 = choose|j: int|
            0 <= j < records.len() && is_root(records, #[trigger] records[j], policy) && node_rec(
                f2,
            ) == rec_view(records[j]);
        assert(records[r1].pid == f1.pid && records[r1].ppid == f1.ppid);
        assert(records[r2].pid == f2.pid && records[r2].ppid == f2.ppid);
        assert(fm[j1].0 != fm[j2].0);
        assert(f1.pid != f2.pid);
        lemma_subtree_pid_facts(f1, records, fuel, rank);
        lemma_subtree_pid_facts(f2, records, fuel, rank);
        assert(!pid_set(f2).contains(f1.ppid as nat)) by {
            if pid_set(f2).contains(f1.ppid as nat) {
                if f1.ppid as nat == f2.pid as nat {
                    assert(records[r2].pid == records[r1].ppid);
                    assert(false);
                } else {
                    let jq = choose|j: int|
                        0 <= j < records.len() && (#[trigger] records[j]).pid as nat
                            == f1.ppid as nat && rank(records[j].pid) < rank(f2.pid) && pid_set(
                            f2,
                        ).contains(records[j].ppid as nat);
                    assert(records[jq].pid == records[r1].ppid);
                    assert(false);
                }
            }
        }
        assert(!pid_set(f1).contains(f2.ppid as nat)) by {
            if pid_set(f1).contains(f2.ppid as nat) {
                if f2.ppid as nat == f1.pid as nat {
                    assert(records[r1].pid == records[r2].ppid);
                    assert(false);
                } else {
                    let jq = choose|j: int|
                        0 <= j < records.len() && (#[trigger] records[j]).pid as nat
                            == f2.ppid as nat && rank(records[j].pid) < rank(f1.pid) && pid_set(
                            f1,
                        ).contains(records[j].ppid as nat);
                    assert(records[jq].pid == records[r2].ppid);
                    assert(false);
                }
            }
        }
        assert forall|p: nat| #![trigger pid_set(f1).contains(p), pid_set(f2).contains(p)] !(
        pid_set(f1).contains(p) && pid_set(f2).contains(p)) by {
            if pid_set(f1).contains(p) && pid_set(f2).contains(p) {
                let w: u32 = if p == f1.pid as nat {
                    f1.pid
                } else {
                    let j = choose|j: int|
                        0 <= j < records.len() && (#[trigger] records[j]).pid as nat == p && rank(
                            records[j].pid,
                        ) < rank(f1.pid) && pid_set(f1).contains(records[j].ppid as nat);
                    records[j].pid
                };
                assert(w as nat == p);
                lemma_pid_sets_meet(f1, f2, records, fuel, fuel, rank, w);
                assert(false);
            }
        }
    }
    lemma_built_forest_distinct_rec(forest, records, fuel, rank, 0);
}

/// Search absorption on a built forest: over what `build_trees` returned
/// from a record set with unique pids, an acyclicity rank witness and
/// externally-parented roots, no reported node is a descendant or an
/// ancestor of another, for any predicate.
pub proof fn lemma_built_search_absorption<M: NodeMatcher>(
    forest: Vec<Process>,
    records: Seq<ProcessRecord>,
    policy: RootPolicy,
    rank: spec_fn(u32) -> nat,
    fuel: nat,
    m: M,
)
    requires
        uniq_pids(records),
        ranked(records, rank),
        roots_external(records, policy),
        forest@.map_values(|n: Process| node_rec(n)) == root_views(records, policy),
        forall|i: int| 0 <= i < forest@.len() ==> subtree_exact(#[trigger] forest@[i], records, fuel),
    ensures
        no_mutual_descendant(spec_search_forest(forest, m, 0)),
{
    lemma_built_forest_distinct(forest, records, policy, rank, fuel);
    lemma_search_absorption(forest, m);
}

proof fn lemma_match_all_from<M: NodeMatcher>(v: Vec<Process>, m: M, i: int)
    requires
        0 <= i <= v.len(),
        forall|n: Process| m.spec_matches(n),
    ensures
        spec_search_forest(v, m, i) == v@.skip(i),
    decreases v.len() - i,
{
    if i < v.len() {
        lemma_match_all_from(v, m, i + 1);
        assert(spec_search_node(v[i as int], m) == seq![v@[i]]);
        assert(seq![v@[i]] + v@.skip(i + 1) =~= v@.skip(i));
    } else {
        assert(v@.skip(i) =~= Seq::<Process>::empty());
    }
}

} // verus!
