use vstd::prelude::*;

verus! {

/// One cast vote: the slot voted on and its confirmation count.
#[derive(Clone, Copy, Debug, PartialEq, Eq, Structural)]
pub struct Lockout {
    pub slot: u64,
    pub confirmation_count: u32,
}

/// A validator's vote state as recorded in one chain state.
/// `votes` is chronological: its last element is the most recent vote.
pub struct VoteState {
    pub node: u64,
    pub votes: Vec<Lockout>,
    pub root_slot: Option<u64>,
}

/// A vote account of one chain state: the delegated stake and the vote state.
pub struct VoteAccount {
    pub stake: u64,
    pub vote_state: VoteState,
}

/// A chain state (a bank) of the snapshot. `parent` is the index of the parent
/// chain state in the arena; `None` only where the snapshot holds no parent.
pub struct ChainState {
    pub slot: u64,
    pub epoch: u64,
    pub parent: Option<usize>,
    pub leader: u64,
    pub transaction_count: u64,
    pub vote_accounts: Vec<VoteAccount>,
}

/// The arena is well formed: parents are in the arena at strictly lower slots,
/// with no more transactions than their children, and slots are distinct.
pub open spec fn wf_chains(cs: Seq<ChainState>) -> bool {
    &&& forall|i: int|
        #![trigger cs[i].parent]
        0 <= i < cs.len() && cs[i].parent.is_some() ==> {
            let p = cs[i].parent.unwrap() as int;
            &&& p < cs.len()
            &&& cs[p].slot < cs[i].slot
            &&& cs[p].transaction_count <= cs[i].transaction_count
        }
    &&& forall|i: int, j: int|
        0 <= i < cs.len() && 0 <= j < cs.len() && i != j ==> #[trigger] cs[i].slot
            != #[trigger] cs[j].slot
}

/// `a` is a strict ancestor of `j`: it is reached from `j` by one or more
/// parent steps.
pub open spec fn descends_from(cs: Seq<ChainState>, j: int, a: int) -> bool
    decreases cs[j].slot,
{
    if 0 <= j < cs.len() && cs[j].parent.is_some() {
        let p = cs[j].parent.unwrap() as int;
        if 0 <= p < cs.len() && cs[p].slot < cs[j].slot {
            p == a || descends_from(cs, p, a)
        } else {
            false
        }
    } else {
        false
    }
}

/// A tip is a chain state that is no other's ancestor.
pub open spec fn is_tip(cs: Seq<ChainState>, i: int) -> bool {
    forall|j: int| 0 <= j < cs.len() ==> !#[trigger] descends_from(cs, j, i)
}

pub proof fn lemma_ancestor_in_range(cs: Seq<ChainState>, j: int, a: int)
    requires
        descends_from(cs, j, a),
    ensures
        0 <= a < cs.len(),
        0 <= j < cs.len(),
        cs[a].slot < cs[j].slot,
    decreases cs[j].slot,
{
    let p = cs[j].parent.unwrap() as int;
    if p != a {
        lemma_ancestor_in_range(cs, p, a);
    }
}

pub proof fn lemma_ancestor_trans(cs: Seq<ChainState>, j: int, m: int, a: int)
    requires
        descends_from(cs, j, m),
        descends_from(cs, m, a),
    ensures
        descends_from(cs, j, a),
    decreases cs[j].slot,
{
    let p = cs[j].parent.unwrap() as int;
    if p != m {
        lemma_ancestor_trans(cs, p, m, a);
    }
}


/// The index of the chain state at slot `s`.
pub open spec fn slot_index(cs: Seq<ChainState>, s: u64) -> int {
    choose|i: int| 0 <= i < cs.len() && cs[i].slot == s
}

/// Some chain state sits at slot `s`.
pub open spec fn has_slot(cs: Seq<ChainState>, s: u64) -> bool {
    exists|i: int| 0 <= i < cs.len() && cs[i].slot == s
}

pub proof fn lemma_slot_index(cs: Seq<ChainState>, i: int)
    requires
        wf_chains(cs),
        0 <= i < cs.len(),
    ensures
        has_slot(cs, cs[i].slot),
        slot_index(cs, cs[i].slot) == i,
{
    assert(has_slot(cs, cs[i].slot));
}

/// The index of the chain state at slot `s`.
pub fn find_slot(chains: &Vec<ChainState>, s: u64) -> (r: usize)
    requires
        wf_chains(chains@),
        has_slot(chains@, s),
    ensures
        r == slot_index(chains@, s),
        r < chains.len(),
        chains@[r as int].slot == s,
{
    let mut k: usize = 0;
    while k < chains.len()
        invariant
            wf_chains(chains@),
            k <= chains.len(),
            forall|l: int| 0 <= l < k ==> #[trigger] chains@[l].slot != s,
        decreases chains.len() - k,
    {
        if chains[k].slot == s {
            proof {
                lemma_slot_index(chains@, k as int);
            }
            return k;
        }
        k = k + 1;
    }
    proof {
        let i = choose|i: int| 0 <= i < chains.len() && chains@[i].slot == s;
    }
    0
}

/// Whether the arena is well formed (see `wf_chains`).
pub fn chains_well_formed(chains: &Vec<ChainState>) -> (r: bool)
    ensures
        r == wf_chains(chains@),
{
    let ghost cs = chains@;
    let n = chains.len();
    let mut i: usize = 0;
    while i < n
        invariant
            cs == chains@,
            n == chains.len(),
            i <= n,
            forall|j: int|
                #![trigger cs[j].parent]
                0 <= j < i && cs[j].parent.is_some() ==> {
                    let p = cs[j].parent.unwrap() as int;
                    &&& p < cs.len()
                    &&& cs[p].slot < cs[j].slot
                    &&& cs[p].transaction_count <= cs[j].transaction_count
                },
            forall|j: int, k: int|
                0 <= j < i && 0 <= k < n && j != k ==> #[trigger] cs[j].slot != #[trigger] cs[k].slot,
        decreases n - i,
    {
        match chains[i].parent {
            Some(p) => {
                if p >= n || chains[p].slot >= chains[i].slot || chains[p].transaction_count
                    > chains[i].transaction_count {
                    return false;
                }
            },
            None => {},
        }
        let mut k: usize = 0;
        while k < n
            invariant
                cs == chains@,
                n == chains.len(),
                i < n,
                k <= n,
                forall|l: int| 0 <= l < k && l != i ==> cs[i as int].slot != #[trigger] cs[l].slot,
            decreases n - k,
        {
            if k != i && chains[k].slot == chains[i].slot {
                return false;
            }
            k = k + 1;
        }
        i = i + 1;
    }
    true
}

} // verus!
