use vstd::prelude::*;

pub mod audit;
pub mod changelog;
pub mod detect;
pub mod latest_tags;
pub mod plan;
pub mod publish;
pub mod release;
pub mod remote;
pub mod roadmap;
pub mod scope;
pub mod status;
pub mod submodule;
pub mod tag;
pub mod testing;
pub mod text;
pub mod worktree;

verus! {
} // verus!
