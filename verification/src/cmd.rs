//! The commands the Raft log replicates.
use vstd::prelude::*;
use crate::data::Table;

verus! {

/// A command applied to the state machine of every node.
#[derive(Debug)]
pub enum PandaCmd {
    CreateTable { table: Table },
}

} // verus!
