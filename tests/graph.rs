use fork_graph::chain::{ChainState, Lockout, VoteAccount, VoteState};
use fork_graph::graph::graph_forks;
use fork_graph::mode::{GraphConfig, GraphVoteAccountMode};
use fork_graph::tips::fork_tips;
use fork_graph::walk::{fork_edge, fork_nodes};
use fork_graph::votes::{last_votes, GraphError};
use fork_graph::absent::{absent_bucket, slot_votes, stake_fits};

const SOL: u64 = 1_000_000_000;

fn account(node: u64, stake: u64, votes: &[u64]) -> VoteAccount {
    VoteAccount {
        stake,
        vote_state: VoteState {
            node,
            votes: votes
                .iter()
                .map(|s| Lockout { slot: *s, confirmation_count: 1 })
                .collect(),
            root_slot: None,
        },
    }
}

fn chain(slot: u64, parent: Option<usize>, txs: u64, accounts: Vec<VoteAccount>) -> ChainState {
    ChainState { slot, epoch: 0, parent, leader: 7, transaction_count: txs, vote_accounts: accounts }
}

fn snapshot() -> Vec<ChainState> {
    vec![
        chain(0, None, 0, vec![]),
        chain(5, Some(0), 2, vec![]),
        chain(10, Some(1), 5, vec![]),
        chain(
            12,
            Some(2),
            9,
            vec![
                account(1, 100 * SOL, &[5, 10]),
                account(2, 150 * SOL, &[5]),
                account(3, 50 * SOL, &[20]),
            ],
        ),
        chain(
            8,
            Some(1),
            4,
            vec![
                account(1, 100 * SOL, &[5]),
                account(2, 150 * SOL, &[5, 8]),
                account(3, 50 * SOL, &[20]),
            ],
        ),
    ]
}

fn config(include_all_votes: bool, vote_account_mode: GraphVoteAccountMode) -> GraphConfig {
    GraphConfig { include_all_votes, vote_account_mode }
}

fn render(chains: &Vec<ChainState>, c: &GraphConfig) -> String {
    match graph_forks(chains, c) {
        Ok(t) => t,
        Err(e) => panic!("unexpected error {:?}", e),
    }
}

const TOPOLOGY: [&str; 12] = [
    "digraph {",
    "  subgraph cluster_banks {",
    "    style=invis",
    "    \"0\"[label=\"0 (epoch 0)\\nleader: 7\",style=\"\"];",
    "    \"5\"[label=\"5 (epoch 0)\\nleader: 7\\ntransactions: 2\",style=\"\"];",
    "    \"8\"[label=\"8 (epoch 0)\\nleader: 7\\ntransactions: 2\\nvotes: 1, stake: 150.0 SOL (50.0%)\",style=\"filled,\"];",
    "    \"10\"[label=\"10 (epoch 0)\\nleader: 7\\ntransactions: 3\\nvotes: 1, stake: 100.0 SOL (33.3%)\",style=\"\"];",
    "    \"12\"[label=\"12 (epoch 0)\\nleader: 7\\ntransactions: 4\",style=\"filled,\"];",
    "    \"5\" -> \"0\"[label=\"4 slots\",color=red,dir=back,penwidth=1];",
    "    \"8\" -> \"5\"[label=\"2 slots\",color=red,dir=back,penwidth=1];",
    "    \"10\" -> \"5\"[label=\"4 slots\",color=red,dir=back,penwidth=1];",
    "    \"12\" -> \"10\"[label=\"1 slots\",color=red,dir=back,penwidth=1];",
];

const ABSENT: &str = "    \"...\"[label=\"...\\nvotes: 1, stake: 50.0 SOL 16.7%\"];";

fn document(extra_before_absent: &[&str], extra_after_absent: &[&str]) -> String {
    let mut lines: Vec<&str> = TOPOLOGY.to_vec();
    lines.push("  }");
    lines.extend_from_slice(extra_before_absent);
    lines.push(ABSENT);
    lines.extend_from_slice(extra_after_absent);
    lines.push("}");
    lines.join("\n")
}

#[test]
fn mode_names_round_trip() {
    for (name, mode) in [
        ("disabled", GraphVoteAccountMode::Disabled),
        ("last-only", GraphVoteAccountMode::LastOnly),
        ("with-history", GraphVoteAccountMode::WithHistory),
    ] {
        match GraphVoteAccountMode::from_str(name) {
            Ok(m) => assert_eq!(m, mode),
            Err(_) => panic!("{} is a mode", name),
        }
        assert_eq!(mode.as_ref(), name);
    }
}

#[test]
fn mode_unknown_name_is_rejected() {
    match GraphVoteAccountMode::from_str("all") {
        Ok(_) => panic!("all is no mode"),
        Err(e) => assert_eq!(e.0, "all"),
    }
}

#[test]
fn mode_default_is_disabled() {
    let m = GraphVoteAccountMode::default();
    assert_eq!(m, GraphVoteAccountMode::Disabled);
    assert!(!m.is_enabled());
    assert!(GraphVoteAccountMode::LastOnly.is_enabled());
    assert!(GraphVoteAccountMode::WithHistory.is_enabled());
}

#[test]
fn last_only_annotations() {
    let text = render(&snapshot(), &config(false, GraphVoteAccountMode::LastOnly));
    let expected = document(
        &[
            "  \"last vote 1\"[shape=box,label=\"Latest validator vote: 1\\nstake: 100.0 SOL\\nroot slot: 0\\nlast vote slot: 10\"];",
            "  \"last vote 1\" -> \"10\" [style=dashed,label=\"latest vote\"];",
            "  \"last vote 2\"[shape=box,label=\"Latest validator vote: 2\\nstake: 150.0 SOL\\nroot slot: 0\\nlast vote slot: 8\"];",
            "  \"last vote 2\" -> \"8\" [style=dashed,label=\"latest vote\"];",
            "  \"last vote 3\"[shape=box,label=\"Latest validator vote: 3\\nstake: 50.0 SOL\\nroot slot: 0\\nlast vote slot: 20\"];",
            "  \"last vote 3\" -> \"...\" [style=dashed,label=\"latest vote\"];",
        ],
        &[],
    );
    assert_eq!(text, expected);
}

#[test]
fn with_history_annotations() {
    let text = render(&snapshot(), &config(false, GraphVoteAccountMode::WithHistory));
    let expected = document(
        &[
            "  \"last vote 1\"[shape=box,label=\"Latest validator vote: 1\\nstake: 100.0 SOL\\nroot slot: 0\\nvote history:\\nslot 5 (conf=1)\\nslot 10 (conf=1)\"];",
            "  \"last vote 1\" -> \"10\" [style=dashed,label=\"latest vote\"];",
            "  \"last vote 2\"[shape=box,label=\"Latest validator vote: 2\\nstake: 150.0 SOL\\nroot slot: 0\\nvote history:\\nslot 5 (conf=1)\\nslot 8 (conf=1)\"];",
            "  \"last vote 2\" -> \"8\" [style=dashed,label=\"latest vote\"];",
            "  \"last vote 3\"[shape=box,label=\"Latest validator vote: 3\\nstake: 50.0 SOL\\nroot slot: 0\\nvote history:\\nslot 20 (conf=1)\"];",
            "  \"last vote 3\" -> \"...\" [style=dashed,label=\"latest vote\"];",
        ],
        &[],
    );
    assert_eq!(text, expected);
}

#[test]
fn all_votes_annotations() {
    let text = render(&snapshot(), &config(true, GraphVoteAccountMode::Disabled));
    let expected = document(
        &[],
        &[
            "  \"1 vote 5\"[shape=box,style=dotted,label=\"validator vote: 1\\nroot slot: 0\\nvote history:\\nslot 5 (conf=1)\"];",
            "  \"1 vote 5\" -> \"5\" [style=dotted,label=\"vote\"];",
            "  \"2 vote 5\"[shape=box,style=dotted,label=\"validator vote: 2\\nroot slot: 0\\nvote history:\\nslot 5 (conf=1)\\nslot 8 (conf=1)\"];",
            "  \"2 vote 5\" -> \"5\" [style=dotted,label=\"vote\"];",
        ],
    );
    assert_eq!(text, expected);
}

#[test]
fn root_slot_is_shown() {
    let mut a = account(4, 10 * SOL, &[1, 2]);
    a.vote_state.root_slot = Some(1);
    let chains = vec![chain(0, None, 0, vec![]), chain(2, Some(0), 1, vec![a])];
    let text = render(&chains, &config(false, GraphVoteAccountMode::LastOnly));
    assert!(text.contains("\\nroot slot: 1\\nlast vote slot: 2\"];"));
    assert!(text.contains("  \"last vote 4\" -> \"2\" [style=dashed,label=\"latest vote\"];"));
}

#[test]
fn inconsistent_total_stake_is_fatal() {
    let chains = vec![
        chain(0, None, 0, vec![account(9, 10, &[0])]),
        chain(1, Some(0), 0, vec![account(9, 10, &[1]), account(8, 10, &[])]),
    ];
    assert_eq!(last_votes(&chains), Err(GraphError::InconsistentTotalStake(9)));
    match graph_forks(&chains, &config(false, GraphVoteAccountMode::Disabled)) {
        Ok(_) => panic!("the totals disagree"),
        Err(e) => assert_eq!(e, GraphError::InconsistentTotalStake(9)),
    }
}

#[test]
fn chain_stake_overflow() {
    let chains = vec![chain(0, None, 0, vec![account(1, u64::MAX, &[]), account(2, 1, &[])])];
    assert_eq!(last_votes(&chains), Err(GraphError::StakeOverflow));
}

#[test]
fn latest_vote_stake_overflow() {
    let chains = vec![
        chain(0, None, 0, vec![account(1, u64::MAX, &[0])]),
        chain(1, Some(0), 0, vec![account(2, u64::MAX, &[1])]),
    ];
    let lvs = last_votes(&chains).unwrap();
    assert!(!stake_fits(&lvs));
    match graph_forks(&chains, &config(false, GraphVoteAccountMode::Disabled)) {
        Ok(_) => panic!("the stake does not fit"),
        Err(e) => assert_eq!(e, GraphError::StakeOverflow),
    }
}

#[test]
fn first_candidate_kept_on_equal_slots() {
    let chains = vec![
        chain(0, None, 0, vec![account(5, 30, &[0])]),
        chain(1, Some(0), 0, vec![account(5, 30, &[0])]),
    ];
    let lvs = last_votes(&chains).unwrap();
    assert_eq!(lvs.len(), 1);
    assert_eq!((lvs[0].node, lvs[0].slot, lvs[0].chain_slot), (5, 0, 0));
}

#[test]
fn validator_without_votes_is_left_out() {
    let chains = vec![chain(0, None, 0, vec![account(5, 30, &[])])];
    assert!(last_votes(&chains).unwrap().is_empty());
    let text = render(&chains, &config(false, GraphVoteAccountMode::LastOnly));
    assert!(!text.contains("last vote"));
    assert!(!text.contains("\"...\""));
}

#[test]
fn zero_stake_percentage_is_nan() {
    let chains = vec![chain(0, None, 0, vec![account(5, 0, &[0])])];
    let text = render(&chains, &config(false, GraphVoteAccountMode::Disabled));
    assert!(text.contains("\\nvotes: 1, stake: 0.0 SOL (NaN%)\",style=\"filled,\"];"));
}

#[test]
fn stake_rounds_half_up_to_a_tenth() {
    let chains = vec![chain(
        0,
        None,
        0,
        vec![account(5, 50_000_000, &[0]), account(6, 100_000_000_000 - 50_000_000, &[])],
    )];
    let text = render(&chains, &config(false, GraphVoteAccountMode::Disabled));
    assert!(text.contains("votes: 1, stake: 0.1 SOL (0.1%)"));
}

#[test]
fn empty_snapshot() {
    let chains: Vec<ChainState> = vec![];
    assert!(fork_tips(&chains).is_empty());
    let text = render(&chains, &config(true, GraphVoteAccountMode::WithHistory));
    assert_eq!(text, "digraph {\n  subgraph cluster_banks {\n    style=invis\n  }\n}");
}

#[test]
fn edge_labels_follow_slot_distance() {
    let mut chains = vec![
        chain(4, None, 0, vec![]),
        chain(5, Some(0), 0, vec![]),
        chain(9, Some(1), 0, vec![]),
        chain(0, None, 0, vec![]),
    ];
    chains[2].epoch = 1;
    let direct = fork_edge(&chains, 1).unwrap();
    assert_eq!((direct.child, direct.parent, direct.gap, direct.epoch_crossing), (5, Some(4), None, false));
    let skipped = fork_edge(&chains, 2).unwrap();
    assert_eq!((skipped.child, skipped.parent, skipped.gap, skipped.epoch_crossing), (9, Some(5), Some(3), true));
    let dangling = fork_edge(&chains, 0).unwrap();
    assert_eq!((dangling.child, dangling.parent, dangling.gap), (4, None, None));
    assert!(fork_edge(&chains, 3).is_none());
    let text = render(&chains, &config(false, GraphVoteAccountMode::Disabled));
    assert!(text.contains("    \"5\" -> \"4\"[color=blue,dir=back,penwidth=1];"));
    assert!(text.contains("    \"9\" -> \"5\"[label=\"3 slots\",color=red,dir=back,penwidth=5];"));
    assert!(text.contains("    \"4\" -> \"...\" [dir=back]"));
    assert!(!text.contains("    \"0\" -> "));
}

/// Is `a` reached from `j` by one or more parent steps?
fn is_ancestor(chains: &Vec<ChainState>, j: usize, a: usize) -> bool {
    let mut cur = chains[j].parent;
    while let Some(p) = cur {
        if p == a {
            return true;
        }
        cur = chains[p].parent;
    }
    false
}

fn forest() -> Vec<ChainState> {
    vec![
        chain(0, None, 0, vec![]),
        chain(1, Some(0), 0, vec![]),
        chain(2, Some(1), 0, vec![]),
        chain(3, Some(1), 0, vec![]),
        chain(4, Some(3), 0, vec![]),
        chain(6, Some(0), 0, vec![]),
        chain(7, None, 0, vec![]),
    ]
}

#[test]
fn tips_are_unrelated_and_cover_the_rest() {
    let chains = forest();
    let tips = fork_tips(&chains);
    assert_eq!(tips, vec![2, 4, 5, 6]);
    for t in &tips {
        for u in &tips {
            assert!(!is_ancestor(&chains, *t, *u));
        }
    }
    for i in 0..chains.len() {
        if !tips.contains(&i) {
            assert!(tips.iter().any(|t| is_ancestor(&chains, *t, i)));
        }
    }
}

#[test]
fn shared_ancestors_rendered_once() {
    let chains = forest();
    let tips = fork_tips(&chains);
    let nodes = fork_nodes(&chains, &tips);
    assert_eq!(nodes, vec![0, 1, 2, 3, 4, 5, 6]);
    let text = render(&chains, &config(false, GraphVoteAccountMode::Disabled));
    assert_eq!(text.matches("    \"1\"[label=").count(), 1);
    assert_eq!(text.matches("    \"0\"[label=").count(), 1);
    assert_eq!(text.matches("    \"1\" -> \"0\"").count(), 1);
}

#[test]
fn visited_and_absent_stake_add_up() {
    let chains = snapshot();
    let lvs = last_votes(&chains).unwrap();
    let tips = fork_tips(&chains);
    let nodes = fork_nodes(&chains, &tips);
    let visited: u64 = nodes
        .iter()
        .map(|i| slot_votes(&lvs, chains[*i].slot).map(|s| s.stake).unwrap_or(0))
        .sum();
    let absent = absent_bucket(&chains, &nodes, &lvs);
    let all: u64 = lvs.iter().map(|l| l.stake).sum();
    assert_eq!(visited + absent.stake, all);
    assert_eq!(all, 300 * SOL);
}

#[test]
fn two_runs_give_the_same_text() {
    let c = config(true, GraphVoteAccountMode::WithHistory);
    assert_eq!(render(&snapshot(), &c), render(&snapshot(), &c));
}

#[test]
fn lowest_absent_slot_gives_the_denominator() {
    let chains = vec![
        chain(0, None, 0, vec![account(1, 10, &[40]), account(2, 30, &[30])]),
        chain(1, Some(0), 0, vec![account(3, 60, &[50]), account(4, 0, &[1])]),
    ];
    let lvs = last_votes(&chains).unwrap();
    let tips = fork_tips(&chains);
    let nodes = fork_nodes(&chains, &tips);
    let bucket = absent_bucket(&chains, &nodes, &lvs);
    assert_eq!((bucket.votes, bucket.stake, bucket.total_stake), (3, 100, 40));
}

/// The snapshot with its chain states listed as 0, 5, 10, 8, 12.
fn snapshot_reordered() -> Vec<ChainState> {
    let mut chains = snapshot();
    let twelve = chains.remove(3);
    chains.push(twelve);
    chains[3].parent = Some(1);
    chains[4].parent = Some(2);
    chains
}

#[test]
fn reordered_snapshot_gives_the_same_text() {
    let first = snapshot();
    let second = snapshot_reordered();
    assert_eq!(second.iter().map(|c| c.slot).collect::<Vec<u64>>(), vec![0, 5, 10, 8, 12]);
    for include_all_votes in [false, true] {
        for mode in [
            GraphVoteAccountMode::Disabled,
            GraphVoteAccountMode::LastOnly,
            GraphVoteAccountMode::WithHistory,
        ] {
            let c = config(include_all_votes, mode);
            assert_eq!(render(&first, &c), render(&second, &c));
        }
    }
}

#[test]
fn equal_latest_slots_resolved_by_chain_slot() {
    let a = || {
        vec![
            chain(0, None, 0, vec![]),
            chain(3, Some(0), 1, vec![account(5, 40, &[1, 2]), account(6, 60, &[2])]),
            chain(4, Some(0), 2, vec![account(5, 40, &[2]), account(6, 60, &[2])]),
        ]
    };
    let b = || {
        vec![
            chain(4, Some(2), 2, vec![account(5, 40, &[2]), account(6, 60, &[2])]),
            chain(3, Some(2), 1, vec![account(5, 40, &[1, 2]), account(6, 60, &[2])]),
            chain(0, None, 0, vec![]),
        ]
    };
    let lvs = last_votes(&a()).unwrap();
    assert_eq!(lvs[0].chain_slot, 3);
    assert_eq!(last_votes(&b()).unwrap(), lvs);
    let c = config(true, GraphVoteAccountMode::WithHistory);
    let text = render(&a(), &c);
    assert!(text.contains("Latest validator vote: 5\\nstake: 0.0 SOL\\nroot slot: 0\\nvote history:\\nslot 1 (conf=1)\\nslot 2 (conf=1)"));
    assert_eq!(render(&b(), &c), text);
}
