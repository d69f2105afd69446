use vstd::prelude::*;
use crate::chain::{ChainState, Lockout, wf_chains, is_tip, slot_index, find_slot};
use crate::votes::{LastVote, locates_vote};
use crate::mode::{GraphVoteAccountMode, GraphConfig};
use crate::all_votes::{VoteRef, locates_ref, other_votes};
use crate::walk::ordered_nodes;
use crate::absent::{count_off, stake_off, lowest_off};
use crate::tips::tips_listed;
use crate::chain::VoteState;
use crate::walk::{ForkEdge, edge_of, fork_edge};
use crate::absent::{count_at, stake_at, first_at, lv_stake, slot_votes, slot_rendered, AbsentBucket};
use crate::text::{dec, sol_text, percent_text, push_dec, push_sol, push_percent};

verus! {

/// The start of node `i`'s statement: its slot, epoch and leader.
pub open spec fn node_head(c: ChainState) -> Seq<char> {
    "\n    \""@ + dec(c.slot as nat) + "\"[label=\""@ + dec(c.slot as nat) + " (epoch "@ + dec(
        c.epoch as nat,
    ) + ")\\nleader: "@ + dec(c.leader as nat)
}

/// The transactions of node `i` since its parent, where it has one.
pub open spec fn transactions_part(cs: Seq<ChainState>, i: int) -> Seq<char> {
    match cs[i].parent {
        Some(p) => "\\ntransactions: "@ + dec(
            (cs[i].transaction_count - cs[p as int].transaction_count) as nat,
        ),
        None => Seq::empty(),
    }
}

/// The latest votes at slot `s`, where there are any.
pub open spec fn votes_part(lvs: Seq<LastVote>, s: u64) -> Seq<char> {
    if count_at(lvs, s) > 0 {
        "\\nvotes: "@ + dec(count_at(lvs, s) as nat) + ", stake: "@ + sol_text(
            stake_at(lvs, s) as u64,
        ) + " SOL ("@ + percent_text(stake_at(lvs, s) as u64, first_at(lvs, s).unwrap().total_stake)
            + "%)"@
    } else {
        Seq::empty()
    }
}

/// The end of a node's statement; tips are filled.
pub open spec fn style_part(tip: bool) -> Seq<char> {
    "\",style=\""@ + (if tip {
        "filled,"@
    } else {
        Seq::empty()
    }) + "\"];"@
}

/// The statement of node `i`, on a line of its own.
pub open spec fn node_piece(cs: Seq<ChainState>, lvs: Seq<LastVote>, i: int) -> Seq<char> {
    node_head(cs[i]) + transactions_part(cs, i) + votes_part(lvs, cs[i].slot) + style_part(
        is_tip(cs, i),
    )
}

/// The statement of an edge, on a line of its own.
pub open spec fn edge_piece(e: ForkEdge) -> Seq<char> {
    match e.parent {
        Some(p) => "\n    \""@ + dec(e.child as nat) + "\" -> \""@ + dec(p as nat) + "\"["@ + (match e.gap {
            Some(k) => "label=\""@ + dec(k as nat) + " slots\",color=red"@,
            None => "color=blue"@,
        }) + ",dir=back,penwidth="@ + (if e.epoch_crossing {
            "5"@
        } else {
            "1"@
        }) + "];"@,
        None => "\n    \""@ + dec(e.child as nat) + "\" -> \"...\" [dir=back]"@,
    }
}

/// The node statements of `nodes`, in order.
pub open spec fn nodes_text(cs: Seq<ChainState>, lvs: Seq<LastVote>, nodes: Seq<usize>) -> Seq<char>
    decreases nodes.len(),
{
    if nodes.len() == 0 {
        Seq::empty()
    } else {
        nodes_text(cs, lvs, nodes.drop_last()) + node_piece(cs, lvs, nodes.last() as int)
    }
}

/// The edge statements of `nodes`, in order.
pub open spec fn edges_text(cs: Seq<ChainState>, nodes: Seq<usize>) -> Seq<char>
    decreases nodes.len(),
{
    if nodes.len() == 0 {
        Seq::empty()
    } else {
        edges_text(cs, nodes.drop_last()) + match edge_of(cs, nodes.last() as int) {
            Some(e) => edge_piece(e),
            None => Seq::empty(),
        }
    }
}

/// One vote of a history.
pub open spec fn vote_text(v: Lockout) -> Seq<char> {
    "slot "@ + dec(v.slot as nat) + " (conf="@ + dec(v.confirmation_count as nat) + ")"@
}

/// A vote history, one vote per label line.
pub open spec fn history_text(votes: Seq<Lockout>) -> Seq<char>
    decreases votes.len(),
{
    if votes.len() == 0 {
        Seq::empty()
    } else if votes.len() == 1 {
        vote_text(votes[0])
    } else {
        history_text(votes.drop_last()) + "\\n"@ + vote_text(votes.last())
    }
}

/// The target of an annotation edge: the slot's node, or the placeholder.
pub open spec fn target_text(cs: Seq<ChainState>, s: u64) -> Seq<char> {
    if slot_rendered(cs, s) {
        dec(s as nat)
    } else {
        "..."@
    }
}


fn push_node_head(out: &mut String, c: &ChainState)
    ensures
        final(out)@ == old(out)@ + node_head(*c),
{
    let ghost o0 = out@;
    out.append("\n    \"");
    push_dec(out, c.slot as u128);
    out.append("\"[label=\"");
    push_dec(out, c.slot as u128);
    out.append(" (epoch ");
    push_dec(out, c.epoch as u128);
    out.append(")\\nleader: ");
    push_dec(out, c.leader as u128);
    proof {
        assert(out@ =~= o0 + node_head(*c));
    }
}

fn push_votes_part(out: &mut String, lvs: &Vec<LastVote>, s: u64)
    requires
        lv_stake(lvs@) <= u64::MAX,
    ensures
        final(out)@ == old(out)@ + votes_part(lvs@, s),
{
    let ghost o0 = out@;
    match slot_votes(lvs, s) {
        Some(sv) => {
            out.append("\\nvotes: ");
            push_dec(out, sv.votes as u128);
            out.append(", stake: ");
            push_sol(out, sv.stake);
            out.append(" SOL (");
            push_percent(out, sv.stake, sv.total_stake);
            out.append("%)");
        },
        None => {},
    }
    proof {
        assert(out@ =~= o0 + votes_part(lvs@, s));
    }
}

fn push_node_piece(out: &mut String, chains: &Vec<ChainState>, lvs: &Vec<LastVote>, i: usize, tip: bool)
    requires
        wf_chains(chains@),
        i < chains.len(),
        tip == is_tip(chains@, i as int),
        lv_stake(lvs@) <= u64::MAX,
    ensures
        final(out)@ == old(out)@ + node_piece(chains@, lvs@, i as int),
{
    let ghost cs = chains@;
    let c = &chains[i];
    let ghost o0 = out@;
    push_node_head(out, c);
    let ghost o1 = out@;
    match c.parent {
        Some(p) => {
            out.append("\\ntransactions: ");
            push_dec(out, (c.transaction_count - chains[p].transaction_count) as u128);
        },
        None => {},
    }
    proof {
        assert(out@ =~= o1 + transactions_part(cs, i as int));
    }
    push_votes_part(out, lvs, c.slot);
    let ghost o3 = out@;
    out.append("\",style=\"");
    if tip {
        out.append("filled,");
    }
    out.append("\"];");
    proof {
        assert(out@ =~= o3 + style_part(tip));
        assert(out@ =~= o0 + node_piece(cs, lvs@, i as int));
    }
}

fn push_edge_piece(out: &mut String, e: ForkEdge)
    ensures
        final(out)@ == old(out)@ + edge_piece(e),
{
    let ghost o0 = out@;
    match e.parent {
        Some(p) => {
            out.append("\n    \"");
            push_dec(out, e.child as u128);
            out.append("\" -> \"");
            push_dec(out, p as u128);
            out.append("\"[");
            let ghost o1 = out@;
            match e.gap {
                Some(k) => {
                    out.append("label=\"");
                    push_dec(out, k as u128);
                    out.append(" slots\",color=red");
                },
                None => {
                    out.append("color=blue");
                },
            }
            let ghost o2 = out@;
            out.append(",dir=back,penwidth=");
            if e.epoch_crossing {
                out.append("5");
            } else {
                out.append("1");
            }
            out.append("];");
            proof {
                assert(o2 =~= o1 + match e.gap {
                    Some(k) => "label=\""@ + dec(k as nat) + " slots\",color=red"@,
                    None => "color=blue"@,
                });
            }
        },
        None => {
            out.append("\n    \"");
            push_dec(out, e.child as u128);
            out.append("\" -> \"...\" [dir=back]");
        },
    }
    proof {
        assert(out@ =~= o0 + edge_piece(e));
    }
}

fn push_history(out: &mut String, votes: &Vec<Lockout>)
    ensures
        final(out)@ == old(out)@ + history_text(votes@),
{
    let ghost o0 = out@;
    let mut k: usize = 0;
    while k < votes.len()
        invariant
            k <= votes.len(),
            out@ == o0 + history_text(votes@.subrange(0, k as int)),
        decreases votes.len() - k,
    {
        let ghost pre = votes@.subrange(0, k + 1);
        if k > 0 {
            out.append("\\n");
        }
        let ghost o2 = out@;
        out.append("slot ");
        push_dec(out, votes[k].slot as u128);
        out.append(" (conf=");
        push_dec(out, votes[k].confirmation_count as u128);
        out.append(")");
        proof {
            assert(pre.drop_last() =~= votes@.subrange(0, k as int));
            assert(pre.last() == votes@[k as int]);
            assert(out@ =~= o2 + vote_text(votes@[k as int]));
            if k == 0 {
                assert(pre[0] == votes@[0]);
                assert(out@ =~= o0 + history_text(pre));
            } else {
                assert(out@ =~= o0 + history_text(pre));
            }
        }
        k = k + 1;
    }
    proof {
        assert(votes@.subrange(0, votes.len() as int) =~= votes@);
    }
}


/// A root slot as shown, zero where there is none.
pub open spec fn root_or_zero(root: Option<u64>) -> u64 {
    match root {
        Some(r) => r,
        None => 0,
    }
}

/// The vote state that a latest vote was taken from.
pub open spec fn vote_state_of(cs: Seq<ChainState>, lv: LastVote) -> VoteState {
    cs[slot_index(cs, lv.chain_slot)].vote_accounts@[lv.account as int].vote_state
}

/// The vote lines of a validator's annotation.
pub open spec fn history_part(mode: GraphVoteAccountMode, lv: LastVote, vs: VoteState) -> Seq<char> {
    if mode == GraphVoteAccountMode::WithHistory {
        "vote history:\\n"@ + history_text(vs.votes@)
    } else {
        "last vote slot: "@ + dec(lv.slot as nat)
    }
}

/// The start of a validator's annotation: identity, stake and root slot.
pub open spec fn last_vote_box(lv: LastVote, vs: VoteState) -> Seq<char> {
    "\n  \"last vote "@ + dec(lv.node as nat) + "\"[shape=box,label=\"Latest validator vote: "@ + dec(
        lv.node as nat,
    ) + "\\nstake: "@ + sol_text(lv.stake) + " SOL\\nroot slot: "@ + dec(
        root_or_zero(vs.root_slot) as nat,
    ) + "\\n"@
}

/// The edge from a validator's annotation to the slot it last voted on.
pub open spec fn last_vote_edge(cs: Seq<ChainState>, lv: LastVote) -> Seq<char> {
    "\n  \"last vote "@ + dec(lv.node as nat) + "\" -> \""@ + target_text(cs, lv.slot)
        + "\" [style=dashed,label=\"latest vote\"];"@
}

/// The annotation of a validator's latest vote and its edge to the voted slot.
pub open spec fn last_vote_piece(cs: Seq<ChainState>, lv: LastVote, mode: GraphVoteAccountMode) -> Seq<char> {
    let vs = vote_state_of(cs, lv);
    last_vote_box(lv, vs) + history_part(mode, lv, vs) + "\"];"@ + last_vote_edge(cs, lv)
}

/// The summary node of the absent votes, where there are any.
pub open spec fn absent_piece(b: AbsentBucket) -> Seq<char> {
    if b.votes > 0 {
        "\n    \"...\"[label=\"...\\nvotes: "@ + dec(b.votes as nat) + ", stake: "@ + sol_text(b.stake)
            + " SOL "@ + percent_text(b.stake, b.total_stake) + "%\"];"@
    } else {
        Seq::empty()
    }
}

fn push_target(out: &mut String, chains: &Vec<ChainState>, nodes: &Vec<usize>, s: u64)
    requires
        crate::walk::ordered_nodes(chains@, nodes@),
    ensures
        final(out)@ == old(out)@ + target_text(chains@, s),
{
    if crate::absent::slot_in(chains, nodes, s) {
        push_dec(out, s as u128);
    } else {
        out.append("...");
    }
}

fn push_last_vote_box(out: &mut String, lv: LastVote, vs: &VoteState)
    ensures
        final(out)@ == old(out)@ + last_vote_box(lv, *vs),
{
    let ghost o0 = out@;
    out.append("\n  \"last vote ");
    push_dec(out, lv.node as u128);
    out.append("\"[shape=box,label=\"Latest validator vote: ");
    push_dec(out, lv.node as u128);
    out.append("\\nstake: ");
    push_sol(out, lv.stake);
    out.append(" SOL\\nroot slot: ");
    let root = match vs.root_slot {
        Some(r) => r,
        None => 0,
    };
    push_dec(out, root as u128);
    out.append("\\n");
    proof {
        assert(out@ =~= o0 + last_vote_box(lv, *vs));
    }
}

fn push_last_vote_edge(out: &mut String, chains: &Vec<ChainState>, nodes: &Vec<usize>, lv: LastVote)
    requires
        crate::walk::ordered_nodes(chains@, nodes@),
    ensures
        final(out)@ == old(out)@ + last_vote_edge(chains@, lv),
{
    let ghost o0 = out@;
    out.append("\n  \"last vote ");
    push_dec(out, lv.node as u128);
    out.append("\" -> \"");
    push_target(out, chains, nodes, lv.slot);
    out.append("\" [style=dashed,label=\"latest vote\"];");
    proof {
        assert(out@ =~= o0 + last_vote_edge(chains@, lv));
    }
}

fn push_last_vote_piece(
    out: &mut String,
    chains: &Vec<ChainState>,
    nodes: &Vec<usize>,
    lv: LastVote,
    mode: GraphVoteAccountMode,
)
    requires
        wf_chains(chains@),
        crate::walk::ordered_nodes(chains@, nodes@),
        locates_vote(chains@, lv),
    ensures
        final(out)@ == old(out)@ + last_vote_piece(chains@, lv, mode),
{
    let vs = &chains[find_slot(chains, lv.chain_slot)].vote_accounts[lv.account].vote_state;
    let ghost o0 = out@;
    push_last_vote_box(out, lv, vs);
    let ghost o1 = out@;
    match mode {
        GraphVoteAccountMode::WithHistory => {
            out.append("vote history:\\n");
            push_history(out, &vs.votes);
        },
        _ => {
            out.append("last vote slot: ");
            push_dec(out, lv.slot as u128);
        },
    }
    proof {
        assert(out@ =~= o1 + history_part(mode, lv, *vs));
    }
    out.append("\"];");
    push_last_vote_edge(out, chains, nodes, lv);
    proof {
        assert(out@ =~= o0 + last_vote_piece(chains@, lv, mode));
    }
}

fn push_absent_piece(out: &mut String, b: AbsentBucket)
    ensures
        final(out)@ == old(out)@ + absent_piece(b),
{
    let ghost o0 = out@;
    if b.votes > 0 {
        out.append("\n    \"...\"[label=\"...\\nvotes: ");
        push_dec(out, b.votes as u128);
        out.append(", stake: ");
        push_sol(out, b.stake);
        out.append(" SOL ");
        push_percent(out, b.stake, b.total_stake);
        out.append("%\"];");
    }
    proof {
        assert(out@ =~= o0 + absent_piece(b));
    }
}


/// The annotation of one vote of the all-votes index and its edge to the voted slot.
pub open spec fn vote_piece(cs: Seq<ChainState>, e: VoteRef) -> Seq<char> {
    let vs = cs[slot_index(cs, e.chain_slot)].vote_accounts@[e.account as int].vote_state;
    vote_box(e, vs) + vote_edge(cs, e)
}

/// The box of one vote of the all-votes index.
pub open spec fn vote_box(e: VoteRef, vs: VoteState) -> Seq<char> {
    "\n  \""@ + dec(e.node as nat) + " vote "@ + dec(e.slot as nat)
        + "\"[shape=box,style=dotted,label=\"validator vote: "@ + dec(e.node as nat)
        + "\\nroot slot: "@ + dec(root_or_zero(vs.root_slot) as nat) + "\\nvote history:\\n"@
        + history_text(vs.votes@) + "\"];"@
}

/// The edge from one vote of the all-votes index to the voted slot.
pub open spec fn vote_edge(cs: Seq<ChainState>, e: VoteRef) -> Seq<char> {
    "\n  \""@ + dec(e.node as nat) + " vote "@ + dec(e.slot as nat) + "\" -> \""@ + target_text(cs, e.slot)
        + "\" [style=dotted,label=\"vote\"];"@
}

/// The annotations of the latest votes, in order.
pub open spec fn last_votes_text(cs: Seq<ChainState>, lvs: Seq<LastVote>, mode: GraphVoteAccountMode) -> Seq<char>
    decreases lvs.len(),
{
    if lvs.len() == 0 {
        Seq::empty()
    } else {
        last_votes_text(cs, lvs.drop_last(), mode) + last_vote_piece(cs, lvs.last(), mode)
    }
}

/// The annotations of the votes of the index, in order.
pub open spec fn votes_text(cs: Seq<ChainState>, refs: Seq<VoteRef>) -> Seq<char>
    decreases refs.len(),
{
    if refs.len() == 0 {
        Seq::empty()
    } else {
        votes_text(cs, refs.drop_last()) + vote_piece(cs, refs.last())
    }
}

/// The absent votes of the graph as a bucket.
pub open spec fn bucket_of(cs: Seq<ChainState>, lvs: Seq<LastVote>) -> AbsentBucket {
    AbsentBucket {
        votes: count_off(cs, lvs) as u64,
        stake: stake_off(cs, lvs) as u64,
        total_stake: match lowest_off(cs, lvs) {
            Some(l) => l.total_stake,
            None => 0,
        },
    }
}

/// The graph description of the rendered nodes `nodes`, the latest votes
/// `lvs` and the all-votes index `refs`.
pub open spec fn graph_text(
    cs: Seq<ChainState>,
    nodes: Seq<usize>,
    lvs: Seq<LastVote>,
    refs: Seq<VoteRef>,
    config: GraphConfig,
) -> Seq<char> {
    "digraph {"@ + "\n  subgraph cluster_banks {"@ + "\n    style=invis"@ + nodes_text(cs, lvs, nodes)
        + edges_text(cs, nodes) + "\n  }"@ + (if config.vote_account_mode
        != GraphVoteAccountMode::Disabled {
        last_votes_text(cs, lvs, config.vote_account_mode)
    } else {
        Seq::empty()
    }) + absent_piece(bucket_of(cs, lvs)) + (if config.include_all_votes {
        votes_text(cs, other_votes(refs, lvs))
    } else {
        Seq::empty()
    }) + "\n}"@
}

fn push_vote_piece(out: &mut String, chains: &Vec<ChainState>, nodes: &Vec<usize>, e: VoteRef)
    requires
        wf_chains(chains@),
        ordered_nodes(chains@, nodes@),
        locates_ref(chains@, e),
    ensures
        final(out)@ == old(out)@ + vote_piece(chains@, e),
{
    let vs = &chains[find_slot(chains, e.chain_slot)].vote_accounts[e.account].vote_state;
    let ghost o0 = out@;
    out.append("\n  \"");
    push_dec(out, e.node as u128);
    out.append(" vote ");
    push_dec(out, e.slot as u128);
    out.append("\"[shape=box,style=dotted,label=\"validator vote: ");
    push_dec(out, e.node as u128);
    out.append("\\nroot slot: ");
    let root = match vs.root_slot {
        Some(r) => r,
        None => 0,
    };
    push_dec(out, root as u128);
    out.append("\\nvote history:\\n");
    push_history(out, &vs.votes);
    out.append("\"];");
    proof {
        assert(out@ =~= o0 + vote_box(e, *vs));
    }
    let ghost o1 = out@;
    out.append("\n  \"");
    push_dec(out, e.node as u128);
    out.append(" vote ");
    push_dec(out, e.slot as u128);
    out.append("\" -> \"");
    push_target(out, chains, nodes, e.slot);
    out.append("\" [style=dotted,label=\"vote\"];");
    proof {
        assert(out@ =~= o1 + vote_edge(chains@, e));
        assert(out@ =~= o0 + vote_piece(chains@, e));
    }
}

fn is_listed(tips: &Vec<usize>, i: usize) -> (r: bool)
    ensures
        r == exists|k: int| 0 <= k < tips.len() && tips[k] == i,
{
    let mut k: usize = 0;
    while k < tips.len()
        invariant
            k <= tips.len(),
            forall|j: int| 0 <= j < k ==> tips[j] != i,
        decreases tips.len() - k,
    {
        if tips[k] == i {
            return true;
        }
        k = k + 1;
    }
    false
}

fn push_nodes(out: &mut String, chains: &Vec<ChainState>, tips: &Vec<usize>, nodes: &Vec<usize>, lvs: &Vec<LastVote>)
    requires
        wf_chains(chains@),
        tips_listed(chains@, tips@),
        ordered_nodes(chains@, nodes@),
        lv_stake(lvs@) <= u64::MAX,
    ensures
        final(out)@ == old(out)@ + nodes_text(chains@, lvs@, nodes@),
{
    let ghost o0 = out@;
    let mut k: usize = 0;
    while k < nodes.len()
        invariant
            wf_chains(chains@),
            tips_listed(chains@, tips@),
            ordered_nodes(chains@, nodes@),
            lv_stake(lvs@) <= u64::MAX,
            k <= nodes.len(),
            out@ == o0 + nodes_text(chains@, lvs@, nodes@.subrange(0, k as int)),
        decreases nodes.len() - k,
    {
        let i = nodes[k];
        let tip = is_listed(tips, i);
        proof {
            assert(nodes@.subrange(0, k + 1).drop_last() =~= nodes@.subrange(0, k as int));
            if is_tip(chains@, i as int) {
                assert(tip);
            }
        }
        push_node_piece(out, chains, lvs, i, tip);
        k = k + 1;
    }
    proof {
        assert(nodes@.subrange(0, nodes.len() as int) =~= nodes@);
    }
}

fn push_edges(out: &mut String, chains: &Vec<ChainState>, nodes: &Vec<usize>)
    requires
        wf_chains(chains@),
        ordered_nodes(chains@, nodes@),
    ensures
        final(out)@ == old(out)@ + edges_text(chains@, nodes@),
{
    let ghost o0 = out@;
    let mut k: usize = 0;
    while k < nodes.len()
        invariant
            wf_chains(chains@),
            ordered_nodes(chains@, nodes@),
            k <= nodes.len(),
            out@ == o0 + edges_text(chains@, nodes@.subrange(0, k as int)),
        decreases nodes.len() - k,
    {
        proof {
            assert(nodes@.subrange(0, k + 1).drop_last() =~= nodes@.subrange(0, k as int));
        }
        match fork_edge(chains, nodes[k]) {
            Some(e) => push_edge_piece(out, e),
            None => {},
        }
        proof {
            assert(out@ =~= o0 + edges_text(chains@, nodes@.subrange(0, k + 1)));
        }
        k = k + 1;
    }
    proof {
        assert(nodes@.subrange(0, nodes.len() as int) =~= nodes@);
    }
}

fn push_last_votes(out: &mut String, chains: &Vec<ChainState>, nodes: &Vec<usize>, lvs: &Vec<LastVote>, mode: GraphVoteAccountMode)
    requires
        wf_chains(chains@),
        ordered_nodes(chains@, nodes@),
        forall|k: int| 0 <= k < lvs.len() ==> locates_vote(chains@, #[trigger] lvs[k]),
    ensures
        final(out)@ == old(out)@ + last_votes_text(chains@, lvs@, mode),
{
    let ghost o0 = out@;
    let mut k: usize = 0;
    while k < lvs.len()
        invariant
            wf_chains(chains@),
            ordered_nodes(chains@, nodes@),
            forall|j: int| 0 <= j < lvs.len() ==> locates_vote(chains@, #[trigger] lvs[j]),
            k <= lvs.len(),
            out@ == o0 + last_votes_text(chains@, lvs@.subrange(0, k as int), mode),
        decreases lvs.len() - k,
    {
        proof {
            assert(lvs@.subrange(0, k + 1).drop_last() =~= lvs@.subrange(0, k as int));
        }
        push_last_vote_piece(out, chains, nodes, lvs[k], mode);
        proof {
            assert(out@ =~= o0 + last_votes_text(chains@, lvs@.subrange(0, k + 1), mode));
        }
        k = k + 1;
    }
    proof {
        assert(lvs@.subrange(0, lvs.len() as int) =~= lvs@);
    }
}

fn push_votes(out: &mut String, chains: &Vec<ChainState>, nodes: &Vec<usize>, refs: &Vec<VoteRef>)
    requires
        wf_chains(chains@),
        ordered_nodes(chains@, nodes@),
        forall|k: int| 0 <= k < refs.len() ==> locates_ref(chains@, #[trigger] refs[k]),
    ensures
        final(out)@ == old(out)@ + votes_text(chains@, refs@),
{
    let ghost o0 = out@;
    let mut k: usize = 0;
    while k < refs.len()
        invariant
            wf_chains(chains@),
            ordered_nodes(chains@, nodes@),
            forall|j: int| 0 <= j < refs.len() ==> locates_ref(chains@, #[trigger] refs[j]),
            k <= refs.len(),
            out@ == o0 + votes_text(chains@, refs@.subrange(0, k as int)),
        decreases refs.len() - k,
    {
        proof {
            assert(refs@.subrange(0, k + 1).drop_last() =~= refs@.subrange(0, k as int));
        }
        push_vote_piece(out, chains, nodes, refs[k]);
        proof {
            assert(out@ =~= o0 + votes_text(chains@, refs@.subrange(0, k + 1)));
        }
        k = k + 1;
    }
    proof {
        assert(refs@.subrange(0, refs.len() as int) =~= refs@);
    }
}


/// The graph description of the given parts.
pub fn assemble_graph(
    chains: &Vec<ChainState>,
    tips: &Vec<usize>,
    nodes: &Vec<usize>,
    lvs: &Vec<LastVote>,
    refs: &Vec<VoteRef>,
    config: &GraphConfig,
) -> (r: String)
    requires
        wf_chains(chains@),
        tips_listed(chains@, tips@),
        ordered_nodes(chains@, nodes@),
        lv_stake(lvs@) <= u64::MAX,
        forall|k: int| 0 <= k < lvs.len() ==> locates_vote(chains@, #[trigger] lvs[k]),
        forall|k: int| 0 <= k < refs.len() ==> locates_ref(chains@, #[trigger] refs[k]),
    ensures
        r@ == graph_text(chains@, nodes@, lvs@, refs@, *config),
{
    let ghost cs = chains@;
    let mut out = String::from_str("digraph {");
    out.append("\n  subgraph cluster_banks {");
    out.append("\n    style=invis");
    push_nodes(&mut out, chains, tips, nodes, lvs);
    push_edges(&mut out, chains, nodes);
    out.append("\n  }");
    let ghost o2 = out@;
    if config.vote_account_mode.is_enabled() {
        push_last_votes(&mut out, chains, nodes, lvs, config.vote_account_mode);
    }
    let ghost o3 = out@;
    let bucket = crate::absent::absent_bucket(chains, nodes, lvs);
    proof {
        assert(bucket == bucket_of(cs, lvs@));
    }
    push_absent_piece(&mut out, bucket);
    let ghost o4 = out@;
    if config.include_all_votes {
        let others = crate::all_votes::drop_latest(refs, lvs, Ghost(cs));
        push_votes(&mut out, chains, nodes, &others);
    }
    let ghost o5 = out@;
    out.append("\n}");
    proof {
        assert(o3 =~= o2 + (if config.vote_account_mode != GraphVoteAccountMode::Disabled {
            last_votes_text(cs, lvs@, config.vote_account_mode)
        } else {
            Seq::empty()
        }));
        assert(o5 =~= o4 + (if config.include_all_votes {
            votes_text(cs, other_votes(refs@, lvs@))
        } else {
            Seq::empty()
        }));
        assert(out@ =~= graph_text(cs, nodes@, lvs@, refs@, *config));
    }
    out
}

} // verus!
