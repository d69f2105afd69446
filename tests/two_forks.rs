use fork_graph::chain::{ChainState, Lockout, VoteAccount, VoteState};
use fork_graph::graph::graph_forks;
use fork_graph::mode::{GraphConfig, GraphVoteAccountMode};
use fork_graph::tips::fork_tips;
use fork_graph::walk::fork_nodes;
use fork_graph::votes::last_votes;
use fork_graph::absent::{absent_bucket, slot_votes};

const SOL: u64 = 1_000_000_000;

fn account(node: u64, stake: u64, votes: &[u64]) -> VoteAccount {
    VoteAccount {
        stake,
        vote_state: VoteState {
            node,
            votes: votes
                .iter()
                .map(|s| Lockout { slot: *s, confirmation_count: 1 })
                .collect(),
            root_slot: None,
        },
    }
}

fn chain(slot: u64, parent: Option<usize>, txs: u64, accounts: Vec<VoteAccount>) -> ChainState {
    ChainState { slot, epoch: 0, parent, leader: 7, transaction_count: txs, vote_accounts: accounts }
}

/// Chains 0 -> 5 -> 10 -> 12 and 0 -> 5 -> 8; validator 1 last voted on 10,
/// validator 2 on 8, validator 3 on 20, which no chain holds.
fn snapshot() -> Vec<ChainState> {
    vec![
        chain(0, None, 0, vec![]),
        chain(5, Some(0), 2, vec![]),
        chain(10, Some(1), 5, vec![]),
        chain(
            12,
            Some(2),
            9,
            vec![
                account(1, 100 * SOL, &[5, 10]),
                account(2, 150 * SOL, &[5]),
                account(3, 50 * SOL, &[20]),
            ],
        ),
        chain(
            8,
            Some(1),
            4,
            vec![
                account(1, 100 * SOL, &[5]),
                account(2, 150 * SOL, &[5, 8]),
                account(3, 50 * SOL, &[20]),
            ],
        ),
    ]
}

fn disabled() -> GraphConfig {
    GraphConfig { include_all_votes: false, vote_account_mode: GraphVoteAccountMode::Disabled }
}

#[test]
fn two_forks_tips_are_eight_and_twelve() {
    let chains = snapshot();
    let tips = fork_tips(&chains);
    let slots: Vec<u64> = tips.iter().map(|i| chains[*i].slot).collect();
    assert_eq!(slots, vec![8, 12]);
}

#[test]
fn two_forks_nodes_by_slot() {
    let chains = snapshot();
    let tips = fork_tips(&chains);
    let nodes = fork_nodes(&chains, &tips);
    let slots: Vec<u64> = nodes.iter().map(|i| chains[*i].slot).collect();
    assert_eq!(slots, vec![0, 5, 8, 10, 12]);
}

#[test]
fn two_forks_last_votes() {
    let chains = snapshot();
    let lvs = match last_votes(&chains) {
        Ok(l) => l,
        Err(_) => panic!("the snapshot is consistent"),
    };
    let got: Vec<(u64, u64, u64, u64)> =
        lvs.iter().map(|l| (l.node, l.slot, l.stake, l.total_stake)).collect();
    assert_eq!(
        got,
        vec![
            (1, 10, 100 * SOL, 300 * SOL),
            (2, 8, 150 * SOL, 300 * SOL),
            (3, 20, 50 * SOL, 300 * SOL)
        ]
    );
}

#[test]
fn two_forks_slot_annotations_and_absent_bucket() {
    let chains = snapshot();
    let lvs = match last_votes(&chains) {
        Ok(l) => l,
        Err(_) => panic!("the snapshot is consistent"),
    };
    let at10 = slot_votes(&lvs, 10).unwrap();
    assert_eq!((at10.votes, at10.stake, at10.total_stake), (1, 100 * SOL, 300 * SOL));
    let at8 = slot_votes(&lvs, 8).unwrap();
    assert_eq!((at8.votes, at8.stake, at8.total_stake), (1, 150 * SOL, 300 * SOL));
    assert!(slot_votes(&lvs, 5).is_none());
    let tips = fork_tips(&chains);
    let nodes = fork_nodes(&chains, &tips);
    let bucket = absent_bucket(&chains, &nodes, &lvs);
    assert_eq!((bucket.votes, bucket.stake, bucket.total_stake), (1, 50 * SOL, 300 * SOL));
}

#[test]
fn two_forks_graph_text() {
    let chains = snapshot();
    let text = match graph_forks(&chains, &disabled()) {
        Ok(t) => t,
        Err(_) => panic!("the snapshot is consistent"),
    };
    let expected = [
        "digraph {",
        "  subgraph cluster_banks {",
        "    style=invis",
        "    \"0\"[label=\"0 (epoch 0)\\nleader: 7\",style=\"\"];",
        "    \"5\"[label=\"5 (epoch 0)\\nleader: 7\\ntransactions: 2\",style=\"\"];",
        "    \"8\"[label=\"8 (epoch 0)\\nleader: 7\\ntransactions: 2\\nvotes: 1, stake: 150.0 SOL (50.0%)\",style=\"filled,\"];",
        "    \"10\"[label=\"10 (epoch 0)\\nleader: 7\\ntransactions: 3\\nvotes: 1, stake: 100.0 SOL (33.3%)\",style=\"\"];",
        "    \"12\"[label=\"12 (epoch 0)\\nleader: 7\\ntransactions: 4\",style=\"filled,\"];",
        "    \"5\" -> \"0\"[label=\"4 slots\",color=red,dir=back,penwidth=1];",
        "    \"8\" -> \"5\"[label=\"2 slots\",color=red,dir=back,penwidth=1];",
        "    \"10\" -> \"5\"[label=\"4 slots\",color=red,dir=back,penwidth=1];",
        "    \"12\" -> \"10\"[label=\"1 slots\",color=red,dir=back,penwidth=1];",
        "  }",
        "    \"...\"[label=\"...\\nvotes: 1, stake: 50.0 SOL 16.7%\"];",
        "}",
    ]
    .join("\n");
    assert_eq!(text, expected);
}
