use vstd::prelude::*;
use crate::chain::{ChainState, wf_chains, descends_from, is_tip, lemma_ancestor_in_range, lemma_ancestor_trans};

verus! {

/// `r` lists exactly the tips of `cs`, by increasing slot.
pub open spec fn tips_listed(cs: Seq<ChainState>, r: Seq<usize>) -> bool {
    &&& forall|k: int| 0 <= k < r.len() ==> #[trigger] r[k] < cs.len() && is_tip(cs, r[k] as int)
    &&& forall|k: int, l: int|
        0 <= k < l < r.len() ==> #[trigger] cs[r[k] as int].slot < #[trigger] cs[r[l] as int].slot
    &&& forall|i: int| 0 <= i < cs.len() && #[trigger] is_tip(cs, i) ==> exists|k: int|
        0 <= k < r.len() && r[k] == i
}

/// Sets the mark of every strict ancestor of `j`, leaving the other marks as they were.
pub(crate) fn mark_ancestors(chains: &Vec<ChainState>, j: usize, marks: &mut Vec<bool>)
    requires
        wf_chains(chains@),
        j < chains.len(),
        old(marks).len() == chains.len(),
    ensures
        final(marks).len() == chains.len(),
        forall|a: int|
            0 <= a < chains.len() ==> final(marks)[a] == (old(marks)[a] || descends_from(
                chains@,
                j as int,
                a,
            )),
{
    let ghost cs = chains@;
    let ghost m0 = marks@;
    let mut cur: usize = j;
    while chains[cur].parent.is_some()
        invariant
            wf_chains(cs),
            cs == chains@,
            cur < chains.len(),
            marks.len() == chains.len(),
            cur == j || descends_from(cs, j as int, cur as int),
            forall|a: int|
                0 <= a < chains.len() ==> marks[a] == (m0[a] || (descends_from(cs, j as int, a)
                    && !descends_from(cs, cur as int, a))),
        decreases chains[cur as int].slot,
    {
        let p = chains[cur].parent.unwrap();
        proof {
            assert(descends_from(cs, cur as int, p as int));
            if cur != j {
                lemma_ancestor_trans(cs, j as int, cur as int, p as int);
            }
            assert forall|a: int| 0 <= a < chains.len() implies descends_from(cs, cur as int, a)
                == (a == p || descends_from(cs, p as int, a)) by {}
            if descends_from(cs, p as int, p as int) {
                lemma_ancestor_in_range(cs, p as int, p as int);
            }
        }
        marks.set(p, true);
        cur = p;
    }
}

/// The marked chain states, each once, by increasing slot.
pub(crate) fn order_by_slot(chains: &Vec<ChainState>, marks: &Vec<bool>) -> (r: Vec<usize>)
    requires
        wf_chains(chains@),
        marks.len() == chains.len(),
    ensures
        forall|k: int| 0 <= k < r.len() ==> #[trigger] r[k] < chains.len() && marks[r[k] as int],
        forall|k: int, l: int|
            0 <= k < l < r.len() ==> #[trigger] chains@[r[k] as int].slot
                < #[trigger] chains@[r[l] as int].slot,
        forall|i: int| 0 <= i < chains.len() && #[trigger] marks[i] ==> exists|k: int|
            0 <= k < r.len() && r[k] == i,
{
    let ghost cs = chains@;
    let n = chains.len();
    let mut r: Vec<usize> = Vec::new();
    let mut lo: u128 = 0;
    let mut more = true;
    while more
        invariant
            cs == chains@,
            wf_chains(cs),
            n == chains.len(),
            marks.len() == n,
            lo <= u64::MAX as u128 + 1,
            forall|k: int| 0 <= k < r.len() ==> #[trigger] r[k] < n && marks[r[k] as int] && cs[r[k] as int].slot < lo,
            forall|k: int, l: int|
                0 <= k < l < r.len() ==> #[trigger] cs[r[k] as int].slot < #[trigger] cs[r[l] as int].slot,
            forall|i: int| 0 <= i < n && #[trigger] marks[i] && cs[i].slot < lo ==> exists|k: int|
                0 <= k < r.len() && r[k] == i,
            !more ==> forall|i: int| 0 <= i < n && #[trigger] marks[i] ==> cs[i].slot < lo,
        decreases u64::MAX as u128 + 1 - lo, if more { 1int } else { 0int },
    {
        let mut pick: Option<usize> = None;
        let mut i: usize = 0;
        while i < n
            invariant
                cs == chains@,
                n == chains.len(),
                marks.len() == n,
                i <= n,
                pick matches Some(b) ==> b < i && marks[b as int] && cs[b as int].slot >= lo,
                forall|j: int| 0 <= j < i && #[trigger] marks[j] && cs[j].slot >= lo ==> (pick
                    matches Some(b) && cs[b as int].slot <= cs[j].slot),
            decreases n - i,
        {
            if marks[i] && chains[i].slot as u128 >= lo {
                match pick {
                    Some(b) => {
                        if chains[i].slot < chains[b].slot {
                            pick = Some(i);
                        }
                    },
                    None => {
                        pick = Some(i);
                    },
                }
            }
            i = i + 1;
        }
        match pick {
            Some(b) => {
                let ghost r0 = r@;
                let ghost lo0 = lo;
                r.push(b);
                lo = chains[b].slot as u128 + 1;
                proof {
                    assert forall|j: int| 0 <= j < n && #[trigger] marks[j] && cs[j].slot < lo
                        implies exists|k: int| 0 <= k < r.len() && r[k] == j by {
                        if cs[j].slot < lo0 {
                            let k = choose|k: int| 0 <= k < r0.len() && r0[k] == j;
                            assert(r[k] == j);
                        } else {
                            assert(cs[j].slot == cs[b as int].slot);
                            assert(j == b);
                            assert(r[r0.len() as int] == j);
                        }
                    }
                }
            },
            None => {
                more = false;
            },
        }
    }
    r
}

/// The fork tips: the chain states that are no other chain state's ancestor,
/// by increasing slot.
pub fn fork_tips(chains: &Vec<ChainState>) -> (r: Vec<usize>)
    requires
        wf_chains(chains@),
    ensures
        tips_listed(chains@, r@),
{
    let ghost cs = chains@;
    let n = chains.len();
    let mut marks: Vec<bool> = Vec::new();
    let mut i: usize = 0;
    while i < n
        invariant
            i <= n,
            n == chains.len(),
            marks.len() == i,
            forall|a: int| 0 <= a < i ==> !marks[a],
        decreases n - i,
    {
        marks.push(false);
        i = i + 1;
    }
    let mut j: usize = 0;
    while j < n
        invariant
            wf_chains(cs),
            cs == chains@,
            j <= n,
            n == chains.len(),
            marks.len() == n,
            forall|a: int|
                0 <= a < n ==> marks[a] == exists|k: int|
                    0 <= k < j && #[trigger] descends_from(cs, k, a),
        decreases n - j,
    {
        let ghost before = marks@;
        mark_ancestors(chains, j, &mut marks);
        proof {
            assert forall|a: int| 0 <= a < n implies marks[a] == exists|k: int|
                0 <= k < j + 1 && #[trigger] descends_from(cs, k, a) by {
                if descends_from(cs, j as int, a) {
                    assert(0 <= j < j + 1);
                }
                if before[a] {
                    let k = choose|k: int| 0 <= k < j && #[trigger] descends_from(cs, k, a);
                    assert(0 <= k < j + 1);
                }
            }
        }
        j = j + 1;
    }
    let mut tip_marks: Vec<bool> = Vec::new();
    let mut i: usize = 0;
    while i < n
        invariant
            wf_chains(cs),
            cs == chains@,
            i <= n,
            n == chains.len(),
            marks.len() == n,
            forall|a: int|
                0 <= a < n ==> marks[a] == exists|k: int|
                    0 <= k < n && #[trigger] descends_from(cs, k, a),
            tip_marks.len() == i,
            forall|a: int| 0 <= a < i ==> tip_marks[a] == is_tip(cs, a),
        decreases n - i,
    {
        proof {
            if marks[i as int] {
                let k = choose|k: int| 0 <= k < n && #[trigger] descends_from(cs, k, i as int);
                assert(!is_tip(cs, i as int));
            }
        }
        tip_marks.push(!marks[i]);
        i = i + 1;
    }
    order_by_slot(chains, &tip_marks)
}

/// Tips are unrelated to one another, and every chain state that is not a tip
/// is an ancestor of at least one tip.
pub proof fn lemma_tip_resolution(cs: Seq<ChainState>)
    ensures
        forall|t: int, u: int|
            0 <= t < cs.len() && 0 <= u < cs.len() && is_tip(cs, t) && is_tip(cs, u)
                ==> !#[trigger] descends_from(cs, t, u),
        forall|i: int|
            0 <= i < cs.len() && !#[trigger] is_tip(cs, i) ==> exists|t: int|
                0 <= t < cs.len() && is_tip(cs, t) && descends_from(cs, t, i),
{
    assert forall|i: int| 0 <= i < cs.len() && !#[trigger] is_tip(cs, i) implies exists|t: int|
        0 <= t < cs.len() && is_tip(cs, t) && descends_from(cs, t, i) by {
        lemma_reaches_tip(cs, i);
    }
}

proof fn lemma_reaches_tip(cs: Seq<ChainState>, i: int)
    requires
        0 <= i < cs.len(),
        !is_tip(cs, i),
    ensures
        exists|t: int| 0 <= t < cs.len() && is_tip(cs, t) && descends_from(cs, t, i),
    decreases u64::MAX - cs[i].slot,
{
    let j = choose|j: int| 0 <= j < cs.len() && #[trigger] descends_from(cs, j, i);
    lemma_ancestor_in_range(cs, j, i);
    if !is_tip(cs, j) {
        lemma_reaches_tip(cs, j);
        let t = choose|t: int| 0 <= t < cs.len() && is_tip(cs, t) && descends_from(cs, t, j);
        lemma_ancestor_trans(cs, t, j, i);
    }
}

} // verus!
