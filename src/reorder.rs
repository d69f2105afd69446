use vstd::prelude::*;
use crate::chain::{ChainState, wf_chains, descends_from, is_tip, has_slot, slot_index, lemma_slot_index};
use crate::walk::{on_fork, ordered_nodes};
use crate::tips::tips_listed;
use crate::absent::{slot_rendered, count_off, stake_off, lowest_off};
use crate::render::{graph_text, nodes_text, edges_text, node_piece, last_votes_text, last_vote_piece, votes_text, vote_piece, vote_state_of, bucket_of, target_text, node_head, transactions_part};
use crate::walk::edge_of;
use crate::graph::{fork_graph_text, lemma_graph_deterministic};
use crate::all_votes::{refs_of, locates_ref};
use crate::votes::lemma_last_votes_locate;
use crate::mode::{GraphConfig, GraphVoteAccountMode};
use crate::all_votes::other_votes;
use crate::all_votes::{VoteRef, vote_refs, state_refs, path_refs, walk_refs};
use crate::votes::{LastVote, candidate, account_candidates, all_candidates, best, beats, last_votes_of, lemma_best_member};

verus! {

/// Chain state `j` of `cs2` is chain state `p[j]` of `cs1`, its parent re-indexed by `p`.
pub open spec fn same_state(cs1: Seq<ChainState>, cs2: Seq<ChainState>, p: Seq<int>, j: int) -> bool {
    let c1 = cs1[p[j]];
    let c2 = cs2[j];
    &&& c1.slot == c2.slot
    &&& c1.epoch == c2.epoch
    &&& c1.leader == c2.leader
    &&& c1.transaction_count == c2.transaction_count
    &&& c1.vote_accounts == c2.vote_accounts
    &&& match c2.parent {
        None => c1.parent is None,
        Some(x) => x < cs2.len() && c1.parent == Some(p[x as int] as usize),
    }
}

/// `cs2` holds the chain states of `cs1` in another order: `p` takes an index
/// of `cs2` to the index of the same chain state in `cs1`, and `q` is its inverse.
pub open spec fn reordered(cs1: Seq<ChainState>, cs2: Seq<ChainState>, p: Seq<int>, q: Seq<int>) -> bool {
    &&& cs1.len() == cs2.len()
    &&& cs1.len() <= usize::MAX
    &&& p.len() == cs2.len()
    &&& q.len() == cs1.len()
    &&& forall|j: int| 0 <= j < cs2.len() ==> 0 <= #[trigger] p[j] < cs1.len() && q[p[j]] == j
    &&& forall|i: int| 0 <= i < cs1.len() ==> 0 <= #[trigger] q[i] < cs2.len() && p[q[i]] == i
    &&& forall|j: int| 0 <= j < cs2.len() ==> #[trigger] same_state(cs1, cs2, p, j)
}

proof fn lemma_descends_map(cs1: Seq<ChainState>, cs2: Seq<ChainState>, p: Seq<int>, q: Seq<int>, j: int, a: int)
    requires
        reordered(cs1, cs2, p, q),
        0 <= j < cs2.len(),
        0 <= a < cs2.len(),
    ensures
        descends_from(cs2, j, a) == descends_from(cs1, p[j], p[a]),
    decreases cs2[j].slot,
{
    assert(same_state(cs1, cs2, p, j));
    match cs2[j].parent {
        Some(x) => {
            let xi = x as int;
            assert(same_state(cs1, cs2, p, xi));
            if cs2[xi].slot < cs2[j].slot {
                lemma_descends_map(cs1, cs2, p, q, xi, a);
                assert(p[xi] == p[a] ==> q[p[xi]] == q[p[a]]);
            }
        },
        None => {},
    }
}

pub proof fn lemma_tip_map(cs1: Seq<ChainState>, cs2: Seq<ChainState>, p: Seq<int>, q: Seq<int>, j: int)
    requires
        reordered(cs1, cs2, p, q),
        0 <= j < cs2.len(),
    ensures
        is_tip(cs2, j) == is_tip(cs1, p[j]),
        on_fork(cs2, j) == on_fork(cs1, p[j]),
{
    if is_tip(cs2, j) {
        assert forall|i: int| 0 <= i < cs1.len() implies !#[trigger] descends_from(cs1, i, p[j]) by {
            lemma_descends_map(cs1, cs2, p, q, q[i], j);
        }
    }
    if is_tip(cs1, p[j]) {
        assert forall|k: int| 0 <= k < cs2.len() implies !#[trigger] descends_from(cs2, k, j) by {
            lemma_descends_map(cs1, cs2, p, q, k, j);
        }
    }
    if on_fork(cs2, j) && !is_tip(cs2, j) {
        let t = choose|t: int| 0 <= t < cs2.len() && is_tip(cs2, t) && #[trigger] descends_from(cs2, t, j);
        lemma_descends_map(cs1, cs2, p, q, t, j);
        assert forall|i: int| 0 <= i < cs1.len() implies !#[trigger] descends_from(cs1, i, p[t]) by {
            lemma_descends_map(cs1, cs2, p, q, q[i], t);
        }
        assert(is_tip(cs1, p[t]));
    }
    if on_fork(cs1, p[j]) && !is_tip(cs1, p[j]) {
        let t = choose|t: int| 0 <= t < cs1.len() && is_tip(cs1, t) && #[trigger] descends_from(cs1, t, p[j]);
        lemma_descends_map(cs1, cs2, p, q, q[t], j);
        assert forall|k: int| 0 <= k < cs2.len() implies !#[trigger] descends_from(cs2, k, q[t]) by {
            lemma_descends_map(cs1, cs2, p, q, k, q[t]);
        }
        assert(is_tip(cs2, q[t]));
    }
}

proof fn lemma_rendered_same(cs1: Seq<ChainState>, cs2: Seq<ChainState>, p: Seq<int>, q: Seq<int>, s: u64)
    requires
        reordered(cs1, cs2, p, q),
    ensures
        slot_rendered(cs1, s) == slot_rendered(cs2, s),
        has_slot(cs1, s) == has_slot(cs2, s),
{
    if slot_rendered(cs2, s) {
        let j = choose|j: int| 0 <= j < cs2.len() && on_fork(cs2, j) && #[trigger] cs2[j].slot == s;
        lemma_tip_map(cs1, cs2, p, q, j);
        assert(same_state(cs1, cs2, p, j));
        assert(cs1[p[j]].slot == s);
    }
    if slot_rendered(cs1, s) {
        let i = choose|i: int| 0 <= i < cs1.len() && on_fork(cs1, i) && #[trigger] cs1[i].slot == s;
        lemma_tip_map(cs1, cs2, p, q, q[i]);
        assert(same_state(cs1, cs2, p, q[i]));
        assert(cs2[q[i]].slot == s);
    }
    if has_slot(cs2, s) {
        let j = choose|j: int| 0 <= j < cs2.len() && cs2[j].slot == s;
        assert(same_state(cs1, cs2, p, j));
        assert(cs1[p[j]].slot == s);
    }
    if has_slot(cs1, s) {
        let i = choose|i: int| 0 <= i < cs1.len() && cs1[i].slot == s;
        assert(same_state(cs1, cs2, p, q[i]));
        assert(cs2[q[i]].slot == s);
    }
}

/// The chain state of `cs1` at a slot is that of `cs2`, its parent re-indexed.
proof fn lemma_slot_index_map(cs1: Seq<ChainState>, cs2: Seq<ChainState>, p: Seq<int>, q: Seq<int>, s: u64)
    requires
        reordered(cs1, cs2, p, q),
        wf_chains(cs1),
        wf_chains(cs2),
        has_slot(cs2, s),
    ensures
        slot_index(cs1, s) == p[slot_index(cs2, s)],
        0 <= slot_index(cs2, s) < cs2.len(),
{
    let j = choose|j: int| 0 <= j < cs2.len() && cs2[j].slot == s;
    lemma_slot_index(cs2, j);
    assert(same_state(cs1, cs2, p, j));
    lemma_slot_index(cs1, p[j]);
}

/// The listing of tips and of rendered nodes of `cs2`, re-indexed by `p`, are
/// those of `cs1`.
proof fn lemma_listings_map(
    cs1: Seq<ChainState>,
    cs2: Seq<ChainState>,
    p: Seq<int>,
    q: Seq<int>,
    tips: Seq<usize>,
    nodes: Seq<usize>,
)
    requires
        reordered(cs1, cs2, p, q),
        tips_listed(cs2, tips),
        ordered_nodes(cs2, nodes),
    ensures
        tips_listed(cs1, tips.map_values(|j: usize| p[j as int] as usize)),
        ordered_nodes(cs1, nodes.map_values(|j: usize| p[j as int] as usize)),
{
    let t1 = tips.map_values(|j: usize| p[j as int] as usize);
    let n1 = nodes.map_values(|j: usize| p[j as int] as usize);
    assert forall|k: int| 0 <= k < t1.len() implies #[trigger] t1[k] < cs1.len() && is_tip(cs1, t1[k] as int) by {
        lemma_tip_map(cs1, cs2, p, q, tips[k] as int);
    }
    assert forall|k: int, l: int| 0 <= k < l < t1.len() implies #[trigger] cs1[t1[k] as int].slot < #[trigger] cs1[t1[l] as int].slot by {
        assert(same_state(cs1, cs2, p, tips[k] as int));
        assert(same_state(cs1, cs2, p, tips[l] as int));
        assert(cs2[tips[k] as int].slot < cs2[tips[l] as int].slot);
    }
    assert forall|i: int| 0 <= i < cs1.len() && #[trigger] is_tip(cs1, i) implies exists|k: int| 0 <= k < t1.len() && t1[k] == i by {
        lemma_tip_map(cs1, cs2, p, q, q[i]);
        let k = choose|k: int| 0 <= k < tips.len() && tips[k] == q[i];
        assert(t1[k] == i);
    }
    assert forall|k: int| 0 <= k < n1.len() implies #[trigger] n1[k] < cs1.len() && on_fork(cs1, n1[k] as int) by {
        lemma_tip_map(cs1, cs2, p, q, nodes[k] as int);
    }
    assert forall|k: int, l: int| 0 <= k < l < n1.len() implies #[trigger] cs1[n1[k] as int].slot < #[trigger] cs1[n1[l] as int].slot by {
        assert(same_state(cs1, cs2, p, nodes[k] as int));
        assert(same_state(cs1, cs2, p, nodes[l] as int));
        assert(cs2[nodes[k] as int].slot < cs2[nodes[l] as int].slot);
    }
    assert forall|i: int| 0 <= i < cs1.len() && #[trigger] on_fork(cs1, i) implies exists|k: int| 0 <= k < n1.len() && n1[k] == i by {
        lemma_tip_map(cs1, cs2, p, q, q[i]);
        let k = choose|k: int| 0 <= k < nodes.len() && nodes[k] == q[i];
        assert(n1[k] == i);
    }
}


proof fn lemma_account_candidates_members(cs: Seq<ChainState>, i: int, k: int)
    requires
        0 <= k <= cs[i].vote_accounts@.len(),
    ensures
        forall|x: LastVote| #[trigger] account_candidates(cs, i, k).contains(x) ==> exists|m: int|
            0 <= m < k && cs[i].vote_accounts@[m].vote_state.votes@.len() > 0 && x == candidate(cs, i, m),
        forall|m: int|
            0 <= m < k && cs[i].vote_accounts@[m].vote_state.votes@.len() > 0 ==> account_candidates(
                cs,
                i,
                k,
            ).contains(#[trigger] candidate(cs, i, m)),
    decreases k,
{
    if k > 0 {
        lemma_account_candidates_members(cs, i, k - 1);
        let d = account_candidates(cs, i, k - 1);
        if cs[i].vote_accounts@[k - 1].vote_state.votes@.len() > 0 {
            let c = candidate(cs, i, k - 1);
            assert forall|x: LastVote| #[trigger] d.push(c).contains(x) implies exists|m: int|
                0 <= m < k && cs[i].vote_accounts@[m].vote_state.votes@.len() > 0 && x == candidate(cs, i, m) by {
                let a = choose|a: int| 0 <= a < d.push(c).len() && d.push(c)[a] == x;
                if a < d.len() {
                    assert(d.contains(x));
                }
            }
            assert forall|m: int|
                0 <= m < k && cs[i].vote_accounts@[m].vote_state.votes@.len() > 0 implies d.push(c).contains(
                #[trigger] candidate(cs, i, m)) by {
                if m < k - 1 {
                    let a = choose|a: int| 0 <= a < d.len() && d[a] == candidate(cs, i, m);
                    assert(d.push(c)[a] == candidate(cs, i, m));
                } else {
                    assert(d.push(c)[d.len() as int] == c);
                }
            }
        }
    }
}

proof fn lemma_all_candidates_members(cs: Seq<ChainState>, n: int)
    requires
        0 <= n <= cs.len(),
    ensures
        forall|x: LastVote| #[trigger] all_candidates(cs, n).contains(x) ==> exists|i: int, m: int|
            0 <= i < n && 0 <= m < cs[i].vote_accounts@.len() && cs[i].vote_accounts@[m].vote_state.votes@.len() > 0
                && x == candidate(cs, i, m),
        forall|i: int, m: int|
            0 <= i < n && 0 <= m < cs[i].vote_accounts@.len() && cs[i].vote_accounts@[m].vote_state.votes@.len() > 0
                ==> all_candidates(cs, n).contains(#[trigger] candidate(cs, i, m)),
    decreases n,
{
    if n > 0 {
        lemma_all_candidates_members(cs, n - 1);
        let len = cs[n - 1].vote_accounts@.len() as int;
        lemma_account_candidates_members(cs, n - 1, len);
        let a = all_candidates(cs, n - 1);
        let b = account_candidates(cs, n - 1, len);
        assert(all_candidates(cs, n) == a + b);
        assert forall|x: LastVote| #[trigger] (a + b).contains(x) implies exists|i: int, m: int|
            0 <= i < n && 0 <= m < cs[i].vote_accounts@.len() && cs[i].vote_accounts@[m].vote_state.votes@.len() > 0
                && x == candidate(cs, i, m) by {
            let t = choose|t: int| 0 <= t < (a + b).len() && (a + b)[t] == x;
            if t < a.len() {
                assert(a[t] == x);
                assert(a.contains(x));
            } else {
                assert(b[t - a.len()] == x);
                assert(b.contains(x));
                let m = choose|m: int| 0 <= m < len && cs[n - 1].vote_accounts@[m].vote_state.votes@.len() > 0 && x == #[trigger] candidate(cs, n - 1, m);
                assert(0 <= n - 1 < n && 0 <= m < cs[n - 1].vote_accounts@.len());
            }
        }
        assert forall|i: int, m: int|
            0 <= i < n && 0 <= m < cs[i].vote_accounts@.len() && cs[i].vote_accounts@[m].vote_state.votes@.len() > 0
                implies (a + b).contains(#[trigger] candidate(cs, i, m)) by {
            if i < n - 1 {
                let t = choose|t: int| 0 <= t < a.len() && a[t] == candidate(cs, i, m);
                assert((a + b)[t] == candidate(cs, i, m));
            } else {
                assert(b.contains(candidate(cs, i, m)));
                let t = choose|t: int| 0 <= t < b.len() && b[t] == candidate(cs, i, m);
                assert((a + b)[a.len() + t] == candidate(cs, i, m));
            }
        }
    }
}

/// Both arenas have the same latest-vote candidates.
proof fn lemma_candidates_same(cs1: Seq<ChainState>, cs2: Seq<ChainState>, p: Seq<int>, q: Seq<int>)
    requires
        reordered(cs1, cs2, p, q),
    ensures
        forall|x: LastVote| #[trigger] all_candidates(cs1, cs1.len() as int).contains(x) == all_candidates(
            cs2,
            cs2.len() as int,
        ).contains(x),
{
    let n = cs1.len() as int;
    lemma_all_candidates_members(cs1, n);
    lemma_all_candidates_members(cs2, n);
    assert forall|j: int, m: int| 0 <= j < n && 0 <= m < cs2[j].vote_accounts@.len() implies #[trigger] candidate(cs2, j, m) == candidate(cs1, p[j], m) by {
        assert(same_state(cs1, cs2, p, j));
    }
    assert forall|x: LastVote| #[trigger] all_candidates(cs1, n).contains(x) == all_candidates(cs2, n).contains(x) by {
        if all_candidates(cs1, n).contains(x) {
            let (i, m) = choose|i: int, m: int| 0 <= i < n && 0 <= m < cs1[i].vote_accounts@.len()
                && cs1[i].vote_accounts@[m].vote_state.votes@.len() > 0 && x == candidate(cs1, i, m);
            assert(same_state(cs1, cs2, p, q[i]));
            assert(candidate(cs2, q[i], m) == candidate(cs1, p[q[i]], m));
        }
        if all_candidates(cs2, n).contains(x) {
            let (j, m) = choose|j: int, m: int| 0 <= j < n && 0 <= m < cs2[j].vote_accounts@.len()
                && cs2[j].vote_accounts@[m].vote_state.votes@.len() > 0 && x == candidate(cs2, j, m);
            assert(same_state(cs1, cs2, p, j));
            assert(candidate(cs2, j, m) == candidate(cs1, p[j], m));
        }
    }
}

/// The best candidate of a validator beats every other candidate of it.
proof fn lemma_best_beats(s: Seq<LastVote>, v: u64)
    ensures
        best(s, v) is Some ==> forall|a: int| 0 <= a < s.len() && #[trigger] s[a].node == v ==> s[a] == best(s, v).unwrap()
            || beats(best(s, v).unwrap(), s[a]),
    decreases s.len(),
{
    if s.len() > 0 {
        let d = s.drop_last();
        lemma_best_beats(d, v);
        lemma_best_member(d, v);
        assert forall|a: int| 0 <= a < s.len() && #[trigger] s[a].node == v && best(s, v) is Some implies s[a] == best(s, v).unwrap()
            || beats(best(s, v).unwrap(), s[a]) by {
            if a < d.len() {
                assert(d[a] == s[a]);
            }
        }
    }
}

/// The best candidate of a validator depends only on which candidates there are.
proof fn lemma_best_same(s1: Seq<LastVote>, s2: Seq<LastVote>, v: u64)
    requires
        forall|x: LastVote| #[trigger] s1.contains(x) == s2.contains(x),
    ensures
        best(s1, v) == best(s2, v),
{
    lemma_best_member(s1, v);
    lemma_best_member(s2, v);
    lemma_best_beats(s1, v);
    lemma_best_beats(s2, v);
    if best(s1, v) is Some {
        let x = best(s1, v).unwrap();
        let a = choose|a: int| 0 <= a < s1.len() && s1[a] == x;
        assert(s1.contains(x));
        assert(s2.contains(x));
        let b = choose|b: int| 0 <= b < s2.len() && s2[b] == x;
        assert(s2[b].node == v);
        let y = best(s2, v).unwrap();
        let c = choose|c: int| 0 <= c < s2.len() && s2[c] == y;
        assert(s2.contains(y));
        assert(s1.contains(y));
        let d = choose|d: int| 0 <= d < s1.len() && s1[d] == y;
        assert(s1[d].node == v);
    } else if best(s2, v) is Some {
        let y = best(s2, v).unwrap();
        let c = choose|c: int| 0 <= c < s2.len() && s2[c] == y;
        assert(s2.contains(y));
        assert(s1.contains(y));
        let d = choose|d: int| 0 <= d < s1.len() && s1[d] == y;
        assert(s1[d].node == v);
    }
}

/// The latest votes of `cs2` are those of `cs1`.
proof fn lemma_last_votes_map(cs1: Seq<ChainState>, cs2: Seq<ChainState>, p: Seq<int>, q: Seq<int>, lvs: Seq<LastVote>)
    requires
        reordered(cs1, cs2, p, q),
        last_votes_of(lvs, all_candidates(cs2, cs2.len() as int)),
    ensures
        last_votes_of(lvs, all_candidates(cs1, cs1.len() as int)),
{
    let s1 = all_candidates(cs1, cs1.len() as int);
    let s2 = all_candidates(cs2, cs2.len() as int);
    lemma_candidates_same(cs1, cs2, p, q);
    assert forall|v: u64| #[trigger] best(s1, v) == best(s2, v) by {
        lemma_best_same(s1, s2, v);
    }
}


proof fn lemma_state_refs_map(cs1: Seq<ChainState>, cs2: Seq<ChainState>, p: Seq<int>, q: Seq<int>, j: int, k: int)
    requires
        reordered(cs1, cs2, p, q),
        0 <= j < cs2.len(),
    ensures
        state_refs(cs2, j, k) == state_refs(cs1, p[j], k),
    decreases k,
{
    if k > 0 {
        lemma_state_refs_map(cs1, cs2, p, q, j, k - 1);
        assert(same_state(cs1, cs2, p, j));
        lemma_vote_refs_map(cs1, cs2, p, q, j, k - 1, cs2[j].vote_accounts@[k - 1].vote_state.votes@.len() as int);
    }
}

proof fn lemma_vote_refs_map(cs1: Seq<ChainState>, cs2: Seq<ChainState>, p: Seq<int>, q: Seq<int>, j: int, k: int, m: int)
    requires
        reordered(cs1, cs2, p, q),
        0 <= j < cs2.len(),
    ensures
        vote_refs(cs2, j, k, m) == vote_refs(cs1, p[j], k, m),
    decreases m,
{
    if m > 0 {
        lemma_vote_refs_map(cs1, cs2, p, q, j, k, m - 1);
        assert(same_state(cs1, cs2, p, j));
    }
}

proof fn lemma_path_refs_map(cs1: Seq<ChainState>, cs2: Seq<ChainState>, p: Seq<int>, q: Seq<int>, j: int)
    requires
        reordered(cs1, cs2, p, q),
        0 <= j < cs2.len(),
    ensures
        path_refs(cs2, j) == path_refs(cs1, p[j]),
    decreases cs2[j].slot,
{
    assert(same_state(cs1, cs2, p, j));
    lemma_state_refs_map(cs1, cs2, p, q, j, cs2[j].vote_accounts@.len() as int);
    match cs2[j].parent {
        Some(x) => {
            let xi = x as int;
            assert(same_state(cs1, cs2, p, xi));
            if cs2[xi].slot < cs2[j].slot {
                lemma_path_refs_map(cs1, cs2, p, q, xi);
            }
        },
        None => {},
    }
}

proof fn lemma_walk_refs_map(cs1: Seq<ChainState>, cs2: Seq<ChainState>, p: Seq<int>, q: Seq<int>, tips: Seq<usize>, n: int)
    requires
        reordered(cs1, cs2, p, q),
        0 <= n <= tips.len(),
        forall|k: int| 0 <= k < tips.len() ==> #[trigger] tips[k] < cs2.len(),
    ensures
        walk_refs(cs2, tips, n) == walk_refs(cs1, tips.map_values(|j: usize| p[j as int] as usize), n),
    decreases n,
{
    if n > 0 {
        lemma_walk_refs_map(cs1, cs2, p, q, tips, n - 1);
        lemma_path_refs_map(cs1, cs2, p, q, tips[n - 1] as int);
    }
}


proof fn lemma_nodes_text_map(cs1: Seq<ChainState>, cs2: Seq<ChainState>, p: Seq<int>, q: Seq<int>, lvs: Seq<LastVote>, nodes: Seq<usize>)
    requires
        reordered(cs1, cs2, p, q),
        forall|k: int| 0 <= k < nodes.len() ==> #[trigger] nodes[k] < cs2.len(),
    ensures
        nodes_text(cs2, lvs, nodes) == nodes_text(cs1, lvs, nodes.map_values(|j: usize| p[j as int] as usize)),
        edges_text(cs2, nodes) == edges_text(cs1, nodes.map_values(|j: usize| p[j as int] as usize)),
    decreases nodes.len(),
{
    if nodes.len() > 0 {
        let d = nodes.drop_last();
        let m = nodes.map_values(|j: usize| p[j as int] as usize);
        assert(m.drop_last() =~= d.map_values(|j: usize| p[j as int] as usize));
        lemma_nodes_text_map(cs1, cs2, p, q, lvs, d);
        let j = nodes.last() as int;
        assert(m.last() as int == p[j]);
        assert(same_state(cs1, cs2, p, j));
        lemma_tip_map(cs1, cs2, p, q, j);
        match cs2[j].parent {
            Some(x) => {
                assert(same_state(cs1, cs2, p, x as int));
            },
            None => {},
        }
        assert(node_head(cs2[j]) == node_head(cs1[p[j]]));
        assert(transactions_part(cs2, j) == transactions_part(cs1, p[j]));
        assert(node_piece(cs2, lvs, j) == node_piece(cs1, lvs, p[j]));
        assert(edge_of(cs2, j) == edge_of(cs1, p[j]));
    }
}

proof fn lemma_vote_state_map(cs1: Seq<ChainState>, cs2: Seq<ChainState>, p: Seq<int>, q: Seq<int>, s: u64)
    requires
        reordered(cs1, cs2, p, q),
        wf_chains(cs1),
        wf_chains(cs2),
        has_slot(cs2, s),
    ensures
        cs1[slot_index(cs1, s)].vote_accounts == cs2[slot_index(cs2, s)].vote_accounts,
        target_text(cs1, s) == target_text(cs2, s),
{
    lemma_slot_index_map(cs1, cs2, p, q, s);
    assert(same_state(cs1, cs2, p, slot_index(cs2, s)));
    lemma_rendered_same(cs1, cs2, p, q, s);
}

proof fn lemma_last_votes_text_map(cs1: Seq<ChainState>, cs2: Seq<ChainState>, p: Seq<int>, q: Seq<int>, lvs: Seq<LastVote>, mode: GraphVoteAccountMode)
    requires
        reordered(cs1, cs2, p, q),
        wf_chains(cs1),
        wf_chains(cs2),
        forall|k: int| 0 <= k < lvs.len() ==> has_slot(cs2, #[trigger] lvs[k].chain_slot),
    ensures
        last_votes_text(cs2, lvs, mode) == last_votes_text(cs1, lvs, mode),
        count_off(cs2, lvs) == count_off(cs1, lvs),
        stake_off(cs2, lvs) == stake_off(cs1, lvs),
        lowest_off(cs2, lvs) == lowest_off(cs1, lvs),
        bucket_of(cs2, lvs) == bucket_of(cs1, lvs),
    decreases lvs.len(),
{
    if lvs.len() > 0 {
        let d = lvs.drop_last();
        assert forall|k: int| 0 <= k < d.len() implies has_slot(cs2, #[trigger] d[k].chain_slot) by {
            assert(d[k] == lvs[k]);
        }
        lemma_last_votes_text_map(cs1, cs2, p, q, d, mode);
        let lv = lvs.last();
        assert(lvs[lvs.len() - 1] == lv);
        lemma_vote_state_map(cs1, cs2, p, q, lv.chain_slot);
        lemma_rendered_same(cs1, cs2, p, q, lv.slot);
        assert(vote_state_of(cs1, lv) == vote_state_of(cs2, lv));
        assert(last_vote_piece(cs1, lv, mode) == last_vote_piece(cs2, lv, mode));
        assert(count_off(cs1, lvs) == count_off(cs2, lvs));
        assert(stake_off(cs1, lvs) == stake_off(cs2, lvs));
        assert(lowest_off(cs1, lvs) == lowest_off(cs2, lvs));
    }
}

proof fn lemma_votes_text_map(cs1: Seq<ChainState>, cs2: Seq<ChainState>, p: Seq<int>, q: Seq<int>, refs: Seq<VoteRef>)
    requires
        reordered(cs1, cs2, p, q),
        wf_chains(cs1),
        wf_chains(cs2),
        forall|k: int| 0 <= k < refs.len() ==> has_slot(cs2, #[trigger] refs[k].chain_slot),
    ensures
        votes_text(cs2, refs) == votes_text(cs1, refs),
    decreases refs.len(),
{
    if refs.len() > 0 {
        let d = refs.drop_last();
        assert forall|k: int| 0 <= k < d.len() implies has_slot(cs2, #[trigger] d[k].chain_slot) by {
            assert(d[k] == refs[k]);
        }
        lemma_votes_text_map(cs1, cs2, p, q, d);
        let e = refs.last();
        assert(refs[refs.len() - 1] == e);
        lemma_vote_state_map(cs1, cs2, p, q, e.chain_slot);
        lemma_rendered_same(cs1, cs2, p, q, e.slot);
        assert(vote_piece(cs1, e) == vote_piece(cs2, e));
    }
}

proof fn lemma_other_votes_members(refs: Seq<VoteRef>, lvs: Seq<LastVote>)
    ensures
        forall|a: int| 0 <= a < other_votes(refs, lvs).len() ==> exists|k: int|
            0 <= k < refs.len() && refs[k] == #[trigger] other_votes(refs, lvs)[a],
    decreases refs.len(),
{
    if refs.len() > 0 {
        let d = refs.drop_last();
        lemma_other_votes_members(d, lvs);
        let o = other_votes(refs, lvs);
        let od = other_votes(d, lvs);
        assert forall|a: int| 0 <= a < o.len() implies exists|k: int| 0 <= k < refs.len() && refs[k] == #[trigger] o[a] by {
            if a < od.len() {
                assert(o[a] == od[a]);
                let k = choose|k: int| 0 <= k < d.len() && d[k] == od[a];
                assert(refs[k] == d[k]);
            } else {
                assert(o[a] == refs.last());
                assert(refs[refs.len() - 1] == refs.last());
            }
        }
    }
}


/// Listing the chain states of a snapshot in another order, with the parent
/// indices re-indexed to match, leaves its graph description unchanged byte for
/// byte. `tips`, `nodes`, `lvs` and `refs` are what the stages give for `cs2`:
/// its tips, rendered nodes, latest votes and all-votes index.
pub proof fn lemma_reordering_keeps_text(
    cs1: Seq<ChainState>,
    cs2: Seq<ChainState>,
    p: Seq<int>,
    q: Seq<int>,
    tips: Seq<usize>,
    nodes: Seq<usize>,
    lvs: Seq<LastVote>,
    refs: Seq<VoteRef>,
    config: GraphConfig,
)
    requires
        wf_chains(cs1),
        wf_chains(cs2),
        reordered(cs1, cs2, p, q),
        tips_listed(cs2, tips),
        ordered_nodes(cs2, nodes),
        last_votes_of(lvs, all_candidates(cs2, cs2.len() as int)),
        refs_of(refs, walk_refs(cs2, tips, tips.len() as int)),
        forall|k: int| 0 <= k < refs.len() ==> locates_ref(cs2, #[trigger] refs[k]),
    ensures
        fork_graph_text(cs1, config) == fork_graph_text(cs2, config),
{
    let t1 = tips.map_values(|j: usize| p[j as int] as usize);
    let n1 = nodes.map_values(|j: usize| p[j as int] as usize);
    lemma_graph_deterministic(cs2, tips, nodes, lvs, refs, config);
    lemma_listings_map(cs1, cs2, p, q, tips, nodes);
    lemma_last_votes_map(cs1, cs2, p, q, lvs);
    lemma_walk_refs_map(cs1, cs2, p, q, tips, tips.len() as int);
    assert(t1.len() == tips.len());
    lemma_graph_deterministic(cs1, t1, n1, lvs, refs, config);
    lemma_nodes_text_map(cs1, cs2, p, q, lvs, nodes);
    lemma_last_votes_locate(cs2, lvs);
    lemma_last_votes_text_map(cs1, cs2, p, q, lvs, config.vote_account_mode);
    let other = other_votes(refs, lvs);
    lemma_other_votes_members(refs, lvs);
    assert forall|k: int| 0 <= k < other.len() implies has_slot(cs2, #[trigger] other[k].chain_slot) by {
        let a = choose|a: int| 0 <= a < refs.len() && refs[a] == other[k];
        assert(locates_ref(cs2, refs[a]));
    }
    lemma_votes_text_map(cs1, cs2, p, q, other);
    assert(graph_text(cs2, nodes, lvs, refs, config) == graph_text(cs1, n1, lvs, refs, config));
}

} // verus!
