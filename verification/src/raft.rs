//! The Raft log as this database keeps it: log entries, cluster membership,
//! the persisted vote, and the state a node starts from.
pub mod storage;

use vstd::prelude::*;
use crate::cmd::PandaCmd;
use crate::data::ResultSet;

verus! {

/// The identifier of a node of the cluster.
pub type NodeId = u64;

/// What the state machine answers to a command.
pub type PandaResponse = ResultSet;

/// The members of the cluster. Each is a set: no member is listed twice
/// (`membership_wf`).
#[derive(Debug)]
pub struct MembershipConfig {
    /// All members of the cluster.
    pub members: Vec<NodeId>,
    /// The members once a joint-consensus change completes, if one is under way.
    pub members_after_consensus: Option<Vec<NodeId>>,
}

/// A membership configuration as values.
pub struct Membership {
    pub members: Seq<NodeId>,
    pub members_after_consensus: Option<Seq<NodeId>>,
}

impl View for MembershipConfig {
    type V = Membership;

    open spec fn view(&self) -> Membership {
        Membership {
            members: self.members@,
            members_after_consensus: match self.members_after_consensus {
                Some(v) => Some(v@),
                None => None,
            },
        }
    }
}

/// A membership whose member lists are sets: no member is listed twice.
pub open spec fn membership_wf(m: Membership) -> bool {
    &&& m.members.no_duplicates()
    &&& match m.members_after_consensus {
        Some(after) => after.no_duplicates(),
        None => true,
    }
}

/// The configuration of a cluster that holds only `id`.
pub open spec fn initial_membership(id: NodeId) -> Membership {
    Membership { members: seq![id], members_after_consensus: None }
}

impl MembershipConfig {
    /// A cluster that holds only `id`.
    pub fn new_initial(id: NodeId) -> (m: MembershipConfig)
        ensures
            m@ == initial_membership(id),
            membership_wf(m@),
    {
        let mut members: Vec<NodeId> = Vec::new();
        members.push(id);
        assert(members@ =~= seq![id]);
        MembershipConfig { members, members_after_consensus: None }
    }

    /// A copy with the same members.
    pub fn duplicate(&self) -> (m: MembershipConfig)
        ensures
            m@ == self@,
    {
        let members = self.members.clone();
        assert(members@ =~= self.members@);
        let members_after_consensus = match &self.members_after_consensus {
            Some(v) => {
                let c = v.clone();
                assert(c@ =~= v@);
                Some(c)
            },
            None => None,
        };
        MembershipConfig { members, members_after_consensus }
    }
}

/// The durable vote of a node.
#[derive(Debug, Clone, Copy, PartialEq, Eq, Structural)]
pub struct HardState {
    /// The last term this node has seen.
    pub current_term: u64,
    /// The node this node voted for in `current_term`.
    pub voted_for: Option<NodeId>,
}

/// What a log entry carries.
#[derive(Debug)]
pub enum EntryPayload {
    /// Nothing: written by a new leader.
    Blank,
    /// A command for the state machine.
    Normal(PandaCmd),
    /// A change of the cluster's members.
    ConfigChange(MembershipConfig),
    /// Stands for the entries that a snapshot replaced.
    SnapshotPointer { id: String, membership: MembershipConfig },
}

/// An entry of the Raft log.
#[derive(Debug)]
pub struct Entry {
    pub term: u64,
    pub index: u64,
    pub payload: EntryPayload,
}

/// What an entry carries, as values.
pub enum Payload {
    Blank,
    Normal,
    ConfigChange(Membership),
    SnapshotPointer { id: Seq<char>, membership: Membership },
}

/// A log entry as values; a command is not looked into.
pub struct EntryView {
    pub term: u64,
    pub index: u64,
    pub payload: Payload,
}

impl View for Entry {
    type V = EntryView;

    open spec fn view(&self) -> EntryView {
        EntryView {
            term: self.term,
            index: self.index,
            payload: match self.payload {
                EntryPayload::Blank => Payload::Blank,
                EntryPayload::Normal(_) => Payload::Normal,
                EntryPayload::ConfigChange(m) => Payload::ConfigChange(m@),
                EntryPayload::SnapshotPointer { id, membership } => Payload::SnapshotPointer {
                    id: id@,
                    membership: membership@,
                },
            },
        }
    }
}

/// Every membership the entries record is well formed.
pub open spec fn entries_wf(s: Seq<EntryView>) -> bool {
    forall|i: int|
        0 <= i < s.len() ==> match (#[trigger] s[i]).payload {
            Payload::ConfigChange(m) => membership_wf(m),
            Payload::SnapshotPointer { membership, .. } => membership_wf(membership),
            _ => true,
        }
}

/// The entries, as values.
pub open spec fn entries_view(s: Seq<Entry>) -> Seq<EntryView> {
    Seq::new(s.len(), |i: int| s[i]@)
}

impl Entry {
    /// An entry at `index` and `term` that points to snapshot `id`, which
    /// covers the log up to there with the given membership.
    pub fn new_snapshot_pointer(index: u64, term: u64, id: String, membership: MembershipConfig) -> (e:
        Entry)
        ensures
            e@ == (EntryView {
                term,
                index,
                payload: Payload::SnapshotPointer { id: id@, membership: membership@ },
            }),
    {
        Entry { term, index, payload: EntryPayload::SnapshotPointer { id, membership } }
    }
}

/// The state a node starts from.
#[derive(Debug)]
pub struct InitialState {
    /// The index of the last log entry.
    pub last_log_index: u64,
    /// The term of the last log entry.
    pub last_log_term: u64,
    /// The index of the last entry applied to the state machine.
    pub last_applied_log: u64,
    /// The durable vote.
    pub hard_state: HardState,
    /// The latest membership in the log, else one of this node alone.
    pub membership: MembershipConfig,
}

/// A start state as values.
pub struct StartState {
    pub last_log_index: u64,
    pub last_log_term: u64,
    pub last_applied_log: u64,
    pub hard_state: HardState,
    pub membership: Membership,
}

impl View for InitialState {
    type V = StartState;

    open spec fn view(&self) -> StartState {
        StartState {
            last_log_index: self.last_log_index,
            last_log_term: self.last_log_term,
            last_applied_log: self.last_applied_log,
            hard_state: self.hard_state,
            membership: self.membership@,
        }
    }
}

/// The start state of a node that has never run: nothing logged, nothing
/// applied, no vote, and a cluster of itself alone.
pub open spec fn pristine_state(id: NodeId) -> StartState {
    StartState {
        last_log_index: 0,
        last_log_term: 0,
        last_applied_log: 0,
        hard_state: HardState { current_term: 0, voted_for: None },
        membership: initial_membership(id),
    }
}

impl InitialState {
    /// The start state of a node that has never run.
    pub fn new_initial(id: NodeId) -> (s: InitialState)
        ensures
            s@ == pristine_state(id),
    {
        InitialState {
            last_log_index: 0,
            last_log_term: 0,
            last_applied_log: 0,
            hard_state: HardState { current_term: 0, voted_for: None },
            membership: MembershipConfig::new_initial(id),
        }
    }
}

} // verus!
