use vstd::prelude::*;

verus! {

/// How the per-validator "last vote" annotation nodes are rendered.
#[derive(Clone, Copy, Debug, PartialEq, Eq, Structural)]
pub enum GraphVoteAccountMode {
    Disabled,
    LastOnly,
    WithHistory,
}

/// The text that names a mode on the command line.
pub open spec fn mode_name(m: GraphVoteAccountMode) -> Seq<char> {
    match m {
        GraphVoteAccountMode::Disabled => "disabled"@,
        GraphVoteAccountMode::LastOnly => "last-only"@,
        GraphVoteAccountMode::WithHistory => "with-history"@,
    }
}

/// The text that no mode names; kept as the error's payload.
#[derive(Clone, Debug)]
pub struct GraphVoteAccountModeError(pub String);

impl GraphVoteAccountMode {
    pub fn is_enabled(&self) -> (r: bool)
        ensures
            r == (*self != GraphVoteAccountMode::Disabled),
    {
        !matches!(self, GraphVoteAccountMode::Disabled)
    }

    pub fn as_ref(&self) -> (r: &'static str)
        ensures
            r@ == mode_name(*self),
    {
        match self {
            GraphVoteAccountMode::Disabled => "disabled",
            GraphVoteAccountMode::LastOnly => "last-only",
            GraphVoteAccountMode::WithHistory => "with-history",
        }
    }

    pub fn from_str(s: &str) -> (r: Result<GraphVoteAccountMode, GraphVoteAccountModeError>)
        ensures
            match r {
                Ok(m) => mode_name(m) == s@,
                Err(e) => e.0@ == s@ && s@ != "disabled"@ && s@ != "last-only"@ && s@
                    != "with-history"@,
            },
    {
        let owned = s.to_owned();
        if owned == "disabled".to_owned() {
            Ok(GraphVoteAccountMode::Disabled)
        } else if owned == "last-only".to_owned() {
            Ok(GraphVoteAccountMode::LastOnly)
        } else if owned == "with-history".to_owned() {
            Ok(GraphVoteAccountMode::WithHistory)
        } else {
            Err(GraphVoteAccountModeError(owned))
        }
    }
}

impl Default for GraphVoteAccountMode {
    fn default() -> (r: GraphVoteAccountMode)
        ensures
            r == GraphVoteAccountMode::Disabled,
    {
        GraphVoteAccountMode::Disabled
    }
}

/// What the graph assembler adds to the fork topology.
pub struct GraphConfig {
    pub include_all_votes: bool,
    pub vote_account_mode: GraphVoteAccountMode,
}

} // verus!
