//! Building a forest of process nodes from a flat list of process
//! records: an index from parent pid to child records, recursive node
//! construction with a recursion-depth guard against corrupted (cyclic)
//! record sets, and children kept sorted by ascending pid.

use vstd::prelude::*;

use std::collections::HashMap;

verus! {

broadcast use vstd::std_specs::hash::group_hash_axioms;

/// One process as the snapshot reports it: identity, parent, owner and
/// command line.
#[derive(Debug)]
pub struct ProcessRecord {
    pub pid: u32,
    pub uid: u32,
    pub ppid: u32,
    pub cmdline: String,
}

/// One process in the reconstructed hierarchy, owning its children.
#[derive(Debug)]
pub struct Process {
    pub pid: u32,
    pub uid: u32,
    pub ppid: u32,
    pub cmdline: String,
    pub children: Vec<Process>,
}

/// The mathematical content of a record: pid, parent pid, owner and
/// command line characters.
pub open spec fn rec_view(r: ProcessRecord) -> (nat, nat, nat, Seq<char>) {
    (r.pid as nat, r.ppid as nat, r.uid as nat, r.cmdline@)
}

/// The record a node carries, in the same shape as `rec_view`.
pub open spec fn node_rec(n: Process) -> (nat, nat, nat, Seq<char>) {
    (n.pid as nat, n.ppid as nat, n.uid as nat, n.cmdline@)
}

/// Siblings in ascending pid order.
pub open spec fn children_sorted(cs: Seq<Process>) -> bool {
    forall|i: int, j: int| 0 <= i <= j < cs.len() ==> (#[trigger] cs[i]).pid <= (#[trigger] cs[j]).pid
}

/// The views of the records among the first `i` whose parent pid is `k`,
/// in record order.
pub open spec fn children_recs_upto(records: Seq<ProcessRecord>, k: u32, i: int) -> Seq<
    (nat, nat, nat, Seq<char>),
>
    decreases i,
{
    if i <= 0 || i > records.len() {
        Seq::empty()
    } else {
        children_recs_upto(records, k, i - 1) + (if records[i - 1].ppid == k {
            seq![rec_view(records[i - 1])]
        } else {
            Seq::empty()
        })
    }
}

/// The views of all records whose parent pid is `k`, in record order.
pub open spec fn children_recs(records: Seq<ProcessRecord>, k: u32) -> Seq<
    (nat, nat, nat, Seq<char>),
> {
    children_recs_upto(records, k, records.len() as int)
}

/// The index bucket for parent pid `k`: positions of its child records.
pub open spec fn bucket(index: Map<u32, Vec<usize>>, k: u32) -> Seq<usize> {
    if index.contains_key(k) {
        index[k]@
    } else {
        Seq::empty()
    }
}

/// The record views the bucket for `k` points at.
pub open spec fn bucket_recs(
    records: Seq<ProcessRecord>,
    index: Map<u32, Vec<usize>>,
    k: u32,
) -> Seq<(nat, nat, nat, Seq<char>)> {
    bucket(index, k).map_values(|j: usize| rec_view(records[j as int]))
}

/// A well-formed parent index: every bucket holds positions of records
/// with that parent pid, and enumerates exactly the records with that
/// parent pid, in record order.
pub open spec fn index_ok(records: Seq<ProcessRecord>, index: Map<u32, Vec<usize>>) -> bool {
    &&& forall|k: u32, j: int|
        0 <= j < bucket(index, k).len() ==> (#[trigger] bucket(index, k)[j]) < records.len()
            && records[bucket(index, k)[j] as int].ppid == k
    &&& forall|k: u32| #[trigger] bucket_recs(records, index, k) == children_recs(records, k)
}

/// A node is built exactly from the record set, down to the given depth:
/// its children are in ascending pid order, they carry its pid as their
/// parent, and — while depth remains — they are exactly the records whose
/// parent pid equals this node's pid, each built the same way one level
/// deeper. At depth zero recursion was cut (the guard against a cyclic
/// record set) and the node is a leaf.
pub open spec fn subtree_exact(n: Process, records: Seq<ProcessRecord>, fuel: nat) -> bool
    decreases n, 0int,
{
    &&& children_sorted(n.children@)
    &&& forall|i: int| 0 <= i < n.children@.len() ==> (#[trigger] n.children@[i]).ppid == n.pid
    &&& if fuel == 0 {
        n.children@.len() == 0
    } else {
        &&& n.children@.map_values(|c: Process| node_rec(c)).to_multiset() == children_recs(
            records,
            n.pid,
        ).to_multiset()
        &&& forest_exact(n.children, records, (fuel - 1) as nat, 0)
    }
}

/// Every node of the forest from position `i` on is built exactly.
pub open spec fn forest_exact(v: Vec<Process>, records: Seq<ProcessRecord>, fuel: nat, i: int) -> bool
    decreases v, v.len() - i,
{
    if 0 <= i < v.len() {
        subtree_exact(v[i], records, fuel) && forest_exact(v, records, fuel, i + 1)
    } else {
        true
    }
}

/// A forest is exact from position `i` on when each of its trees is.
pub proof fn lemma_forest_exact_pointwise(v: Vec<Process>, records: Seq<ProcessRecord>, fuel: nat, i: int)
    requires
        0 <= i <= v.len(),
        forall|j: int| i <= j < v.len() ==> subtree_exact(#[trigger] v[j], records, fuel),
    ensures
        forest_exact(v, records, fuel, i),
    decreases v.len() - i,
{
    if i < v.len() {
        lemma_forest_exact_pointwise(v, records, fuel, i + 1);
    }
}

/// Each tree of an exact forest is exact.
pub proof fn lemma_forest_exact_index(
    v: Vec<Process>,
    records: Seq<ProcessRecord>,
    fuel: nat,
    i: int,
    j: int,
)
    requires
        forest_exact(v, records, fuel, i),
        0 <= i <= j < v.len(),
    ensures
        subtree_exact(v[j], records, fuel),
    decreases j - i,
{
    if i < j {
        lemma_forest_exact_index(v, records, fuel, i + 1, j);
    }
}

/// Sorts nodes by ascending pid, returning a permutation of the input:
/// same record multiset, and every returned node is one of the given ones.
fn sort_by_pid(v: Vec<Process>) -> (r: Vec<Process>)
    ensures
        children_sorted(r@),
        r@.map_values(|c: Process| node_rec(c)).to_multiset() == v@.map_values(
            |c: Process| node_rec(c),
        ).to_multiset(),
        forall|x: Process| r@.contains(x) ==> v@.contains(x),
        r@.len() == v@.len(),
{
    broadcast use vstd::seq_lib::group_to_multiset_ensures;

    let ghost orig = v@;
    let mut src = v;
    let mut out: Vec<Process> = Vec::new();
    while src.len() > 0
        invariant
            children_sorted(out@),
            forall|a: int, b: int|
                0 <= a < out@.len() && 0 <= b < src@.len() ==> (#[trigger] out@[a]).pid <= (
                #[trigger] src@[b]).pid,
            out@.map_values(|c: Process| node_rec(c)).to_multiset().add(
                src@.map_values(|c: Process| node_rec(c)).to_multiset(),
            ) =~= orig.map_values(|c: Process| node_rec(c)).to_multiset(),
            forall|x: Process| out@.contains(x) ==> orig.contains(x),
            forall|x: Process| src@.contains(x) ==> orig.contains(x),
            out@.len() + src@.len() == orig.len(),
        decreases src.len(),
    {
        let mut mi: usize = 0;
        let mut j: usize = 1;
        while j < src.len()
            invariant
                mi < j <= src.len(),
                src.len() > 0,
                forall|a: int| 0 <= a < j ==> src@[mi as int].pid <= (#[trigger] src@[a]).pid,
            decreases src.len() - j,
        {
            if src[j].pid < src[mi].pid {
                mi = j;
            }
            j = j + 1;
        }
        let ghost pre = src@;
        let node = src.remove(mi);
        let ghost f = |c: Process| node_rec(c);
        proof {
            assert(src@.map_values(f) =~= pre.map_values(f).remove(mi as int));
            assert(pre.map_values(f)[mi as int] == node_rec(node));
            vstd::seq_lib::to_multiset_remove(pre.map_values(f), mi as int);
            assert(src@.map_values(f).to_multiset() == pre.map_values(f).to_multiset().remove(
                node_rec(node),
            ));
            pre.map_values(f).to_multiset_ensures();
            assert(pre.map_values(f).contains(node_rec(node))) by {
                assert(pre.map_values(f)[mi as int] == node_rec(node));
            }
            assert(pre.map_values(f).to_multiset().count(node_rec(node)) > 0);
            assert forall|x: Process| src@.contains(x) implies orig.contains(x) by {
                let w = choose|w: int| 0 <= w < src@.len() && src@[w] == x;
                if w < mi {
                    assert(pre[w] == x);
                } else {
                    assert(pre[w + 1] == x);
                }
            }
        }
        let ghost out_pre = out@;
        out.push(node);
        proof {
            assert(out@ =~= out_pre.push(node));
            assert(out@.map_values(f) =~= out_pre.map_values(f).push(node_rec(node)));
            vstd::seq_lib::to_multiset_build(out_pre.map_values(f), node_rec(node));
            assert(out@.map_values(f).to_multiset() == out_pre.map_values(f).to_multiset().insert(
                node_rec(node),
            ));
            assert(out@.map_values(f).to_multiset().add(src@.map_values(f).to_multiset()) =~= orig.map_values(
                f,
            ).to_multiset());
            assert(children_sorted(out@)) by {
                assert(forall|a: int| 0 <= a < out_pre.len() ==> #[trigger] out@[a] == out_pre[a]);
                assert(out@[out@.len() - 1] == node);
                assert(node == pre[mi as int]);
            }
            assert forall|a: int, b: int|
                0 <= a < out@.len() && 0 <= b < src@.len() implies (#[trigger] out@[a]).pid <= (
            #[trigger] src@[b]).pid by {
                assert(node == pre[mi as int]);
                if b < mi {
                    assert(src@[b] == pre[b]);
                } else {
                    assert(src@[b] == pre[b + 1]);
                }
                if a < out@.len() - 1 {
                    assert(out@[a] == out_pre[a]);
                } else {
                    assert(out@[a] == node);
                }
            }
            assert forall|x: Process| out@.contains(x) implies orig.contains(x) by {
                let w = choose|w: int| 0 <= w < out@.len() && out@[w] == x;
                if w < out@.len() - 1 {
                    assert(out_pre[w] == x);
                } else {
                    assert(x == node && pre.contains(node));
                }
            }
        }
    }
    proof {
        assert(src@.map_values(|c: Process| node_rec(c)) =~= Seq::<(nat, nat, nat, Seq<char>)>::empty());
        assert(out@.map_values(|c: Process| node_rec(c)).to_multiset() =~= orig.map_values(
            |c: Process| node_rec(c),
        ).to_multiset());
    }
    out
}

impl Process {
    /// Builds the node for `rec`: its children are the records the index
    /// lists under `rec.pid`, each built recursively one fuel step down
    /// and then sorted by ascending pid. Fuel caps the recursion depth, so
    /// a corrupted record set (a record that is its own ancestor) yields a
    /// truncated tree instead of unbounded recursion; fuel at least the
    /// record count never truncates an acyclic set.
    pub fn new(
        rec: &ProcessRecord,
        records: &Vec<ProcessRecord>,
        index: &HashMap<u32, Vec<usize>>,
        fuel: usize,
    ) -> (p: Process)
        requires
            index_ok(records@, index@),
        ensures
            node_rec(p) == rec_view(*rec),
            subtree_exact(p, records@, fuel as nat),
        decreases fuel,
    {
        let ghost f = |c: Process| node_rec(c);
        let mut children: Vec<Process> = Vec::new();
        if fuel > 0 {
            match index.get(&rec.pid) {
                Some(b) => {
                    proof {
                        assert(index@.contains_key(rec.pid) && index@[rec.pid] == *b);
                        assert(bucket(index@, rec.pid) == b@);
                    }
                    let mut j: usize = 0;
                    while j < b.len()
                        invariant
                            j <= b@.len(),
                            fuel >= 1,
                            index_ok(records@, index@),
                            bucket(index@, rec.pid) == b@,
                            children@.len() == j,
                            forall|m: int|
                                0 <= m < j ==> node_rec(#[trigger] children@[m]) == bucket_recs(
                                    records@,
                                    index@,
                                    rec.pid,
                                )[m],
                            forall|m: int|
                                0 <= m < j ==> subtree_exact(
                                    #[trigger] children@[m],
                                    records@,
                                    (fuel - 1) as nat,
                                ),
                            forall|m: int| 0 <= m < j ==> (#[trigger] children@[m]).ppid == rec.pid,
                        decreases b@.len() - j,
                    {
                        let idx = b[j];
                        proof {
                            assert(bucket(index@, rec.pid)[j as int] == idx);
                            assert(idx < records@.len() && records@[idx as int].ppid == rec.pid);
                        }
                        let child = Process::new(&records[idx], records, index, fuel - 1);
                        children.push(child);
                        proof {
                            assert(bucket_recs(records@, index@, rec.pid)[j as int] == rec_view(
                                records@[idx as int],
                            ));
                        }
                        j = j + 1;
                    }
                    proof {
                        assert(children@.map_values(f) =~= bucket_recs(records@, index@, rec.pid));
                        assert(bucket_recs(records@, index@, rec.pid) == children_recs(
                            records@,
                            rec.pid,
                        ));
                    }
                },
                None => {
                    proof {
                        assert(!index@.contains_key(rec.pid));
                        assert(bucket(index@, rec.pid) =~= Seq::<usize>::empty());
                        assert(bucket_recs(records@, index@, rec.pid) =~= Seq::<
                            (nat, nat, nat, Seq<char>),
                        >::empty());
                        assert(children@.map_values(f) =~= bucket_recs(records@, index@, rec.pid));
                        assert(bucket_recs(records@, index@, rec.pid) == children_recs(
                            records@,
                            rec.pid,
                        ));
                    }
                },
            }
            let ghost unsorted = children@;
            children = sort_by_pid(children);
            proof {
                assert(children@.map_values(f).to_multiset() == children_recs(
                    records@,
                    rec.pid,
                ).to_multiset());
                assert forall|m: int|
                    0 <= m < children@.len() implies subtree_exact(
                    #[trigger] children@[m],
                    records@,
                    (fuel - 1) as nat,
                ) && children@[m].ppid == rec.pid by {
                    assert(children@.contains(children@[m]));
                    assert(unsorted.contains(children@[m]));
                    let w = choose|w: int| 0 <= w < unsorted.len() && unsorted[w] == children@[m];
                    assert(subtree_exact(unsorted[w], records@, (fuel - 1) as nat));
                }
                lemma_forest_exact_pointwise(children, records@, (fuel - 1) as nat, 0);
            }
        }
        let p = Process {
            pid: rec.pid,
            uid: rec.uid,
            ppid: rec.ppid,
            cmdline: rec.cmdline.clone(),
            children,
        };
        proof {
            assert(p.children@ == children@);
            if fuel > 0 {
                assert(subtree_exact(p, records@, fuel as nat));
            }
        }
        p
    }
}

/// Builds the parent index: for each parent pid, the positions of the
/// records that name it, in record order.
fn build_index(records: &Vec<ProcessRecord>) -> (index: HashMap<u32, Vec<usize>>)
    ensures
        index_ok(records@, index@),
{
    let mut index: HashMap<u32, Vec<usize>> = HashMap::new();
    let mut i: usize = 0;
    while i < records.len()
        invariant
            i <= records@.len(),
            forall|k: u32, j: int|
                0 <= j < bucket(index@, k).len() ==> (#[trigger] bucket(index@, k)[j]) < i
                    && records@[bucket(index@, k)[j] as int].ppid == k,
            forall|k: u32| #[trigger]
                bucket_recs(records@, index@, k) == children_recs_upto(records@, k, i as int),
        decreases records@.len() - i,
    {
        let ghost pre = index@;
        let k = records[i].ppid;
        let mut b = match index.remove(&k) {
            Some(b) => b,
            None => Vec::new(),
        };
        proof {
            assert(index@ == pre.remove(k));
            assert(b@ == bucket(pre, k));
        }
        b.push(i);
        index.insert(k, b);
        proof {
            assert(index@ == pre.remove(k).insert(k, b));
            assert forall|k2: u32| #[trigger] bucket_recs(records@, index@, k2)
                == children_recs_upto(records@, k2, i + 1) by {
                if k2 == k {
                    assert(bucket(index@, k2) == b@);
                    assert(b@ == bucket(pre, k).push(i));
                    assert(bucket_recs(records@, index@, k2) =~= bucket_recs(
                        records@,
                        pre,
                        k2,
                    ).push(rec_view(records@[i as int])));
                    assert(children_recs_upto(records@, k2, i + 1) == children_recs_upto(
                        records@,
                        k2,
                        i as int,
                    ) + seq![rec_view(records@[i as int])]);
                    assert(bucket_recs(records@, index@, k2) =~= children_recs_upto(
                        records@,
                        k2,
                        i + 1,
                    ));
                } else {
                    assert(bucket(index@, k2) == bucket(pre, k2));
                    assert(bucket_recs(records@, index@, k2) =~= bucket_recs(records@, pre, k2));
                    assert(children_recs_upto(records@, k2, i + 1) == children_recs_upto(
                        records@,
                        k2,
                        i as int,
                    ));
                }
            }
            assert forall|k2: u32, j: int|
                0 <= j < bucket(index@, k2).len() implies (#[trigger] bucket(index@, k2)[j]) < i + 1
                && records@[bucket(index@, k2)[j] as int].ppid == k2 by {
                if k2 == k {
                    if j < bucket(pre, k).len() {
                        assert(bucket(index@, k2)[j] == bucket(pre, k)[j]);
                    } else {
                        assert(bucket(index@, k2)[j] == i);
                    }
                } else {
                    assert(bucket(index@, k2) == bucket(pre, k2));
                }
            }
        }
        i = i + 1;
    }
    proof {
        assert(forall|k: u32| #[trigger] bucket_recs(records@, index@, k) == children_recs(
            records@,
            k,
        ));
    }
    index
}

/// Which records count as roots of the forest. Observed conventions
/// differ, so the policy is explicit: a record whose parent pid is the
/// zero sentinel, a record whose parent pid names no record in the set,
/// or the single record with pid one.
#[derive(Clone, Copy)]
pub enum RootPolicy {
    ParentZero,
    ParentAbsent,
    PidOne,
}

/// Whether `r` is a root of the record set under the policy.
pub open spec fn is_root(records: Seq<ProcessRecord>, r: ProcessRecord, policy: RootPolicy) -> bool {
    match policy {
        RootPolicy::ParentZero => r.ppid == 0,
        RootPolicy::ParentAbsent => forall|j: int|
            0 <= j < records.len() ==> (#[trigger] records[j]).pid != r.ppid,
        RootPolicy::PidOne => r.pid == 1,
    }
}

/// The views of the root records among the first `i`, in record order.
pub open spec fn root_views_upto(
    records: Seq<ProcessRecord>,
    policy: RootPolicy,
    i: int,
) -> Seq<(nat, nat, nat, Seq<char>)>
    decreases i,
{
    if i <= 0 || i > records.len() {
        Seq::empty()
    } else {
        root_views_upto(records, policy, i - 1) + (if is_root(records, records[i - 1], policy) {
            seq![rec_view(records[i - 1])]
        } else {
            Seq::empty()
        })
    }
}

/// The views of all root records, in record order.
pub open spec fn root_views(records: Seq<ProcessRecord>, policy: RootPolicy) -> Seq<
    (nat, nat, nat, Seq<char>),
> {
    root_views_upto(records, policy, records.len() as int)
}

/// Decides the root predicate for the record at position `i`.
fn record_is_root(records: &Vec<ProcessRecord>, i: usize, policy: RootPolicy) -> (r: bool)
    requires
        i < records@.len(),
    ensures
        r == is_root(records@, records@[i as int], policy),
{
    match policy {
        RootPolicy::ParentZero => records[i].ppid == 0,
        RootPolicy::ParentAbsent => {
            let target = records[i].ppid;
            let mut j: usize = 0;
            let mut absent = true;
            while j < records.len()
                invariant
                    j <= records@.len(),
                    records@[i as int].ppid == target,
                    absent == forall|m: int|
                        0 <= m < j ==> (#[trigger] records@[m]).pid != target,
                decreases records@.len() - j,
            {
                if records[j].pid == target {
                    absent = false;
                }
                j = j + 1;
            }
            absent
        },
        RootPolicy::PidOne => records[i].pid == 1,
    }
}

/// Builds the forest: one tree per root record under the policy, roots in
/// record order, every tree built exactly from the record set with fuel
/// equal to the record count — depth an acyclic set can never reach, so
/// only a corrupted (cyclic) set is ever truncated.
pub fn build_trees(records: &Vec<ProcessRecord>, policy: RootPolicy) -> (forest: Vec<Process>)
    ensures
        forest@.map_values(|n: Process| node_rec(n)) == root_views(records@, policy),
        forall|i: int|
            0 <= i < forest@.len() ==> subtree_exact(
                #[trigger] forest@[i],
                records@,
                records@.len() as nat,
            ),
{
    let index = build_index(records);
    let fuel = records.len();
    let mut forest: Vec<Process> = Vec::new();
    let mut i: usize = 0;
    while i < records.len()
        invariant
            i <= records@.len(),
            fuel == records@.len(),
            index_ok(records@, index@),
            forest@.map_values(|n: Process| node_rec(n)) == root_views_upto(
                records@,
                policy,
                i as int,
            ),
            forall|m: int|
                0 <= m < forest@.len() ==> subtree_exact(
                    #[trigger] forest@[m],
                    records@,
                    records@.len() as nat,
                ),
        decreases records@.len() - i,
    {
        let ghost pre = forest@;
        if record_is_root(records, i, policy) {
            let node = Process::new(&records[i], records, &index, fuel);
            forest.push(node);
            proof {
                assert(forest@.map_values(|n: Process| node_rec(n)) =~= pre.map_values(
                    |n: Process| node_rec(n),
                ).push(node_rec(node)));
                assert(forest@.map_values(|n: Process| node_rec(n)) =~= root_views_upto(
                    records@,
                    policy,
                    i + 1,
                ));
            }
        } else {
            proof {
                assert(root_views_upto(records@, policy, i + 1) =~= root_views_upto(
                    records@,
                    policy,
                    i as int,
                ));
            }
        }
        i = i + 1;
    }
    proof {
        assert(forest@.map_values(|n: Process| node_rec(n)) == root_views(records@, policy));
    }
    forest
}

/// Every node's children sequence is in ascending pid order, throughout
/// the tree.
pub open spec fn tree_sorted(n: Process) -> bool
    decreases n, 0int,
{
    children_sorted(n.children@) && forest_sorted(n.children, 0)
}

/// Every tree of the forest from position `i` on is sorted throughout.
pub open spec fn forest_sorted(v: Vec<Process>, i: int) -> bool
    decreases v, v.len() - i,
{
    if 0 <= i < v.len() {
        tree_sorted(v[i]) && forest_sorted(v, i + 1)
    } else {
        true
    }
}

/// Sibling ordering: a tree built exactly from a record set has every
/// node's children in ascending pid order, at every depth.
pub proof fn lemma_sibling_ordering(n: Process, records: Seq<ProcessRecord>, fuel: nat)
    requires
        subtree_exact(n, records, fuel),
    ensures
        tree_sorted(n),
    decreases n, 0int,
{
    if fuel == 0 {
        assert(n.children@.len() == 0);
        assert(forest_sorted(n.children, 0));
    } else {
        lemma_forest_sibling_ordering(n.children, records, (fuel - 1) as nat, 0);
    }
}

proof fn lemma_forest_sibling_ordering(
    v: Vec<Process>,
    records: Seq<ProcessRecord>,
    fuel: nat,
    i: int,
)
    requires
        forest_exact(v, records, fuel, i),
    ensures
        forest_sorted(v, i),
    decreases v, v.len() - i,
{
    if 0 <= i < v.len() {
        lemma_sibling_ordering(v[i], records, fuel);
        lemma_forest_sibling_ordering(v, records, fuel, i + 1);
    }
}

} // verus!
