use vstd::prelude::*;
use crate::chain::{ChainState, wf_chains, descends_from, is_tip};
use crate::tips::{mark_ancestors, order_by_slot, tips_listed, lemma_tip_resolution};

verus! {

/// Chain state `i` lies on a fork: it is a tip or an ancestor of a tip.
pub open spec fn on_fork(cs: Seq<ChainState>, i: int) -> bool {
    is_tip(cs, i) || exists|t: int|
        0 <= t < cs.len() && is_tip(cs, t) && #[trigger] descends_from(cs, t, i)
}

/// Chain state `a` is `t` or one of its ancestors.
pub open spec fn reaches(cs: Seq<ChainState>, t: int, a: int) -> bool {
    t == a || descends_from(cs, t, a)
}

/// `r` lists the chain states on a fork, each once, by increasing slot.
pub open spec fn ordered_nodes(cs: Seq<ChainState>, r: Seq<usize>) -> bool {
    &&& forall|k: int| 0 <= k < r.len() ==> #[trigger] r[k] < cs.len() && on_fork(cs, r[k] as int)
    &&& forall|k: int, l: int|
        0 <= k < l < r.len() ==> #[trigger] cs[r[k] as int].slot < #[trigger] cs[r[l] as int].slot
    &&& forall|i: int| 0 <= i < cs.len() && #[trigger] on_fork(cs, i) ==> exists|k: int|
        0 <= k < r.len() && r[k] == i
}

/// An edge of the fork graph: from a chain state to its parent, or, where the
/// parent lies before the snapshot, to the placeholder of unknown history.
#[derive(Clone, Copy, Debug, PartialEq, Eq, Structural)]
pub struct ForkEdge {
    pub child: u64,
    pub parent: Option<u64>,
    /// The number of skipped slots, where there are any.
    pub gap: Option<u64>,
    /// The child lies in a later epoch than its parent.
    pub epoch_crossing: bool,
}

/// The gap label of an edge between two slots.
pub open spec fn gap_label(child: u64, parent: u64) -> Option<u64> {
    if child - parent > 1 {
        Some((child - parent - 1) as u64)
    } else {
        None
    }
}

/// The edge that leaves chain state `i`, if any.
pub open spec fn edge_of(cs: Seq<ChainState>, i: int) -> Option<ForkEdge> {
    match cs[i].parent {
        Some(p) => Some(
            ForkEdge {
                child: cs[i].slot,
                parent: Some(cs[p as int].slot),
                gap: gap_label(cs[i].slot, cs[p as int].slot),
                epoch_crossing: cs[i].epoch > cs[p as int].epoch,
            },
        ),
        None => if cs[i].slot > 0 {
            Some(ForkEdge { child: cs[i].slot, parent: None, gap: None, epoch_crossing: false })
        } else {
            None
        },
    }
}

/// The edge that leaves chain state `i`. An edge between adjacent slots
/// carries no gap label; one across a distance `d > 1` carries `d - 1`.
pub fn fork_edge(chains: &Vec<ChainState>, i: usize) -> (r: Option<ForkEdge>)
    requires
        wf_chains(chains@),
        i < chains.len(),
    ensures
        r == edge_of(chains@, i as int),
        r is Some && r.unwrap().parent is Some ==> ({
            let e = r.unwrap();
            let p = e.parent.unwrap();
            &&& e.child > p
            &&& e.child - p == 1 ==> e.gap is None
            &&& e.child - p > 1 ==> e.gap == Some((e.child - p - 1) as u64)
        }),
{
    let c = &chains[i];
    match c.parent {
        Some(p) => {
            let parent = &chains[p];
            let distance = c.slot - parent.slot;
            let gap = if distance > 1 {
                Some(distance - 1)
            } else {
                None
            };
            Some(
                ForkEdge {
                    child: c.slot,
                    parent: Some(parent.slot),
                    gap,
                    epoch_crossing: c.epoch > parent.epoch,
                },
            )
        },
        None => {
            if c.slot > 0 {
                Some(ForkEdge { child: c.slot, parent: None, gap: None, epoch_crossing: false })
            } else {
                None
            }
        },
    }
}

/// The chain states that the walk from every tip back to its root visits,
/// each once, by increasing slot.
pub fn fork_nodes(chains: &Vec<ChainState>, tips: &Vec<usize>) -> (r: Vec<usize>)
    requires
        wf_chains(chains@),
        tips_listed(chains@, tips@),
    ensures
        ordered_nodes(chains@, r@),
{
    let ghost cs = chains@;
    let n = chains.len();
    let mut visited: Vec<bool> = Vec::new();
    let mut i: usize = 0;
    while i < n
        invariant
            i <= n,
            visited.len() == i,
            forall|a: int| 0 <= a < i ==> !visited[a],
        decreases n - i,
    {
        visited.push(false);
        i = i + 1;
    }
    let mut q: usize = 0;
    while q < tips.len()
        invariant
            cs == chains@,
            wf_chains(cs),
            n == chains.len(),
            visited.len() == n,
            tips_listed(cs, tips@),
            q <= tips.len(),
            forall|a: int|
                0 <= a < n ==> visited[a] == exists|p: int|
                    0 <= p < q && #[trigger] reaches(cs, tips[p] as int, a),
        decreases tips.len() - q,
    {
        let t = tips[q];
        let ghost before = visited@;
        visited.set(t, true);
        mark_ancestors(chains, t, &mut visited);
        proof {
            assert forall|a: int| 0 <= a < n implies visited[a] == exists|p: int|
                0 <= p < q + 1 && #[trigger] reaches(cs, tips[p] as int, a) by {
                if before[a] {
                    let p = choose|p: int|
                        0 <= p < q && #[trigger] reaches(cs, tips[p] as int, a);
                    assert(0 <= p < q + 1);
                }
                if a == t || descends_from(cs, t as int, a) {
                    assert(tips[q as int] == t);
                    assert(reaches(cs, tips[q as int] as int, a));
                }
            }
        }
        q = q + 1;
    }
    proof {
        assert forall|a: int| 0 <= a < n implies visited[a] == on_fork(cs, a) by {
            if visited[a] {
                let p = choose|p: int|
                    0 <= p < q && #[trigger] reaches(cs, tips[p] as int, a);
                assert(is_tip(cs, tips[p] as int));
                if tips[p] as int != a {
                    assert(descends_from(cs, tips[p] as int, a));
                }
            }
            if is_tip(cs, a) {
                let k = choose|k: int| 0 <= k < tips.len() && tips[k] == a;
                assert(reaches(cs, tips[k] as int, a));
            } else if on_fork(cs, a) {
                let t = choose|t: int| 0 <= t < cs.len() && is_tip(cs, t) && #[trigger] descends_from(cs, t, a);
                let k = choose|k: int| 0 <= k < tips.len() && tips[k] == t;
                assert(reaches(cs, tips[k] as int, a));
            }
        }
    }
    order_by_slot(chains, &visited)
}

/// The walk renders every chain state of the snapshot.
pub proof fn lemma_every_state_on_fork(cs: Seq<ChainState>)
    ensures
        forall|i: int| 0 <= i < cs.len() ==> #[trigger] on_fork(cs, i),
{
    lemma_tip_resolution(cs);
    assert forall|i: int| 0 <= i < cs.len() implies #[trigger] on_fork(cs, i) by {
        if !is_tip(cs, i) {
            let t = choose|t: int| 0 <= t < cs.len() && is_tip(cs, t) && descends_from(cs, t, i);
        }
    }
}

/// Where two tips share an ancestor, the rendered nodes hold its slot exactly once.
pub proof fn lemma_shared_slot_once(cs: Seq<ChainState>, nodes: Seq<usize>, t: int, u: int, a: int)
    requires
        ordered_nodes(cs, nodes),
        0 <= t < cs.len(),
        0 <= u < cs.len(),
        is_tip(cs, t),
        is_tip(cs, u),
        descends_from(cs, t, a),
        descends_from(cs, u, a),
    ensures
        exists|k: int|
            0 <= k < nodes.len() && nodes[k] == a && forall|l: int|
                0 <= l < nodes.len() && #[trigger] cs[nodes[l] as int].slot == cs[a].slot ==> l == k,
{
    crate::chain::lemma_ancestor_in_range(cs, t, a);
    assert(on_fork(cs, a));
    let k = choose|k: int| 0 <= k < nodes.len() && nodes[k] == a;
    assert forall|l: int|
        0 <= l < nodes.len() && #[trigger] cs[nodes[l] as int].slot == cs[a].slot implies l == k by {
        if l < k {
            assert(cs[nodes[l] as int].slot < cs[nodes[k] as int].slot);
        } else if l > k {
            assert(cs[nodes[k] as int].slot < cs[nodes[l] as int].slot);
        }
    }
}

} // verus!
