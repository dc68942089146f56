//! The decisions of the Raft log storage.
//!
//! The log lives in a key-value store: each entry under the big-endian bytes
//! of its index, so that the store's byte order is the log's order. The
//! store itself, the vote's record and the snapshot files are read and
//! written by the caller; this module decides what to read, what to write and
//! what to answer, and keeps the state machine and the snapshot counters.
use vstd::prelude::*;
use vstd::slice::slice_subrange;
use vstd::string::{StrSliceExecFns, StringExecFns};
use crate::raft::{
    Entry, EntryPayload, EntryView, HardState, InitialState, Membership, MembershipConfig, NodeId,
    Payload, StartState, entries_view, entries_wf, initial_membership, membership_wf,
    pristine_state,
};

verus! {

/// Where snapshots are written.
pub const SNAPSHOT_DIR: &'static str = "/tmp/panda/snapshots";

/// The Raft state machine.
#[derive(Debug)]
pub struct Panda {
    /// Index of the highest log entry applied to the state machine
    pub last_applied_log: u64,
}

impl Default for Panda {
    fn default() -> (p: Self)
        ensures
            p.last_applied_log == 0,
    {
        Panda { last_applied_log: 0 }
    }
}

impl Clone for Panda {
    fn clone(&self) -> (p: Self)
        ensures
            p.last_applied_log == self.last_applied_log,
    {
        Panda { last_applied_log: self.last_applied_log }
    }
}

/// What a snapshot file holds.
#[derive(Debug)]
pub struct PandaSnapshot {
    pub term: u64,
    pub index: u64,
    pub membership: MembershipConfig,
    pub panda: Panda,
}

// ---------------------------------------------------------------------------
// Keys of the log store
// ---------------------------------------------------------------------------

/// The eight big-endian bytes of `x`.
pub open spec fn be_u64_bytes(x: u64) -> Seq<u8> {
    seq![
        ((x / 0x100_0000_0000_0000) % 0x100) as u8,
        ((x / 0x1_0000_0000_0000) % 0x100) as u8,
        ((x / 0x100_0000_0000) % 0x100) as u8,
        ((x / 0x1_0000_0000) % 0x100) as u8,
        ((x / 0x100_0000) % 0x100) as u8,
        ((x / 0x1_0000) % 0x100) as u8,
        ((x / 0x100) % 0x100) as u8,
        (x % 0x100) as u8,
    ]
}

/// The key under which the entry at `index` is stored.
pub fn log_key(index: u64) -> (k: Vec<u8>)
    ensures
        k@ == be_u64_bytes(index),
{
    let mut k: Vec<u8> = Vec::new();
    k.push(((index / 0x100_0000_0000_0000) % 0x100) as u8);
    k.push(((index / 0x1_0000_0000_0000) % 0x100) as u8);
    k.push(((index / 0x100_0000_0000) % 0x100) as u8);
    k.push(((index / 0x1_0000_0000) % 0x100) as u8);
    k.push(((index / 0x100_0000) % 0x100) as u8);
    k.push(((index / 0x1_0000) % 0x100) as u8);
    k.push(((index / 0x100) % 0x100) as u8);
    k.push((index % 0x100) as u8);
    assert(k@ =~= be_u64_bytes(index));
    k
}

/// The first and the end key of the entries that deleting from `start`
/// (up to `stop`, or to the end of the log) removes; the end key itself
/// stays.
pub fn delete_range_keys(start: u64, stop: Option<u64>) -> (r: (Vec<u8>, Vec<u8>))
    ensures
        r.0@ == be_u64_bytes(start),
        r.1@ == be_u64_bytes(
            match stop {
                Some(s) => s,
                None => u64::MAX,
            },
        ),
{
    let stop = match stop {
        Some(s) => s,
        None => u64::MAX,
    };
    (log_key(start), log_key(stop))
}

/// The index that an eight-byte key spells, its bytes read big-endian: the
/// inverse of `be_u64_bytes`.
pub open spec fn key_index(key: Seq<u8>) -> int {
    key[0] * 0x100_0000_0000_0000 + key[1] * 0x1_0000_0000_0000 + key[2] * 0x100_0000_0000
        + key[3] * 0x1_0000_0000 + key[4] * 0x100_0000 + key[5] * 0x1_0000 + key[6] * 0x100
        + key[7]
}

/// Reads the index out of a stored key, the key's bytes taken big-endian as
/// `log_key` wrote them.
pub fn parse_key(key: &[u8]) -> (idx: u64)
    requires
        key@.len() == 8,
    ensures
        idx as int == key_index(key@),
{
    let b0 = key[0] as u64;
    let b1 = key[1] as u64;
    let b2 = key[2] as u64;
    let b3 = key[3] as u64;
    let b4 = key[4] as u64;
    let b5 = key[5] as u64;
    let b6 = key[6] as u64;
    let b7 = key[7] as u64;
    b0 * 0x100_0000_0000_0000 + b1 * 0x1_0000_0000_0000 + b2 * 0x100_0000_0000 + b3
        * 0x1_0000_0000 + b4 * 0x100_0000 + b5 * 0x1_0000 + b6 * 0x100 + b7
}

/// A stored key reads back as the index it was made from.
pub proof fn lemma_log_key_roundtrip(index: u64)
    ensures
        be_u64_bytes(index).len() == 8,
        key_index(be_u64_bytes(index)) == index,
{
    let x = index;
    assert((((x / 0x100_0000_0000_0000) % 0x100) as u8) as u64 * 0x100_0000_0000_0000
        + (((x / 0x1_0000_0000_0000) % 0x100) as u8) as u64 * 0x1_0000_0000_0000
        + (((x / 0x100_0000_0000) % 0x100) as u8) as u64 * 0x100_0000_0000
        + (((x / 0x1_0000_0000) % 0x100) as u8) as u64 * 0x1_0000_0000
        + (((x / 0x100_0000) % 0x100) as u8) as u64 * 0x100_0000
        + (((x / 0x1_0000) % 0x100) as u8) as u64 * 0x1_0000
        + (((x / 0x100) % 0x100) as u8) as u64 * 0x100
        + ((x % 0x100) as u8) as u64 == x) by (bit_vector);
}

/// What a scan bounded by `end` yields for one item of the store.
pub open spec fn range_item<T>(end: u64, item: Option<(u64, T)>) -> Option<(u64, T)> {
    match item {
        Some((k, v)) => if k >= end {
            None
        } else {
            Some((k, v))
        },
        None => None,
    }
}

/// What successive calls of `next_item` yield, before the first `None`, for
/// the items of the store in order.
pub open spec fn range_scan<T>(end: u64, items: Seq<(u64, T)>) -> Seq<(u64, T)>
    decreases items.len(),
{
    if items.len() == 0 {
        seq![]
    } else {
        match range_item(end, Some(items[0])) {
            Some(x) => seq![x] + range_scan(end, items.drop_first()),
            None => seq![],
        }
    }
}

/// The number of leading items whose key is below `end`.
pub open spec fn keys_below<T>(end: u64, items: Seq<(u64, T)>) -> int
    decreases items.len(),
{
    if items.len() == 0 || items[0].0 >= end {
        0
    } else {
        1 + keys_below(end, items.drop_first())
    }
}

/// A bounded scan yields exactly the leading items whose keys are below
/// `end`, in order, and stops at the first key at or past `end`.
pub proof fn lemma_range_scan<T>(end: u64, items: Seq<(u64, T)>)
    ensures
        0 <= keys_below(end, items) <= items.len(),
        range_scan(end, items) == items.take(keys_below(end, items)),
        forall|i: int| 0 <= i < range_scan(end, items).len() ==> (#[trigger] range_scan(end, items)[i]).0 < end,
        keys_below(end, items) < items.len() ==> items[keys_below(end, items)].0 >= end,
    decreases items.len(),
{
    if items.len() == 0 {
        assert(items.take(0) =~= Seq::<(u64, T)>::empty());
    } else if items[0].0 >= end {
        assert(items.take(0) =~= Seq::<(u64, T)>::empty());
    } else {
        let rest = items.drop_first();
        lemma_range_scan(end, rest);
        assert(seq![items[0]] + rest.take(keys_below(end, rest)) =~= items.take(
            keys_below(end, items),
        ));
        assert(items[keys_below(end, items)] == rest[keys_below(end, rest)] || keys_below(end, items)
            >= items.len());
        let r = range_scan(end, items);
        assert forall|i: int| 0 <= i < r.len() implies (#[trigger] r[i]).0 < end by {
            if i > 0 {
                assert(r[i] == range_scan(end, rest)[i - 1]);
            }
        }
    }
}

/// Bounds a forward scan of the log: items are passed on until one's key
/// reaches `end`.
pub struct RangeIter {
    pub end: u64,
}

impl RangeIter {
    /// What the scan yields for the next item of the store, if there is one.
    pub fn next_item<T>(&self, item: Option<(u64, T)>) -> (r: Option<(u64, T)>)
        ensures
            r == range_item(self.end, item),
            match item {
                Some((k, v)) => if k >= self.end {
                    r is None
                } else {
                    r == Some((k, v))
                },
                None => r is None,
            },
    {
        match item {
            Some((k, v)) => {
                if k >= self.end {
                    None
                } else {
                    Some((k, v))
                }
            },
            None => None,
        }
    }
}

// ---------------------------------------------------------------------------
// Membership
// ---------------------------------------------------------------------------

/// The membership an entry records, if it records one.
pub open spec fn entry_membership(e: EntryView) -> Option<Membership> {
    match e.payload {
        Payload::ConfigChange(m) => Some(m),
        Payload::SnapshotPointer { membership, .. } => Some(membership),
        _ => None,
    }
}

/// The membership recorded by the first entry of `s` that records one, else
/// a cluster of `id` alone.
pub open spec fn find_membership(id: NodeId, s: Seq<EntryView>) -> Membership
    decreases s.len(),
{
    if s.len() == 0 {
        initial_membership(id)
    } else {
        match entry_membership(s[0]) {
            Some(m) => m,
            None => find_membership(id, s.drop_first()),
        }
    }
}

/// `s` without its leading entries whose index is above `index`.
pub open spec fn skip_newer(s: Seq<EntryView>, index: u64) -> Seq<EntryView>
    decreases s.len(),
{
    if s.len() > 0 && s[0].index > index {
        skip_newer(s.drop_first(), index)
    } else {
        s
    }
}

// ---------------------------------------------------------------------------
// Snapshot ids
// ---------------------------------------------------------------------------

/// The decimal digit `d`.
pub open spec fn digit_char(d: int) -> char {
    if d == 0 {
        '0'
    } else if d == 1 {
        '1'
    } else if d == 2 {
        '2'
    } else if d == 3 {
        '3'
    } else if d == 4 {
        '4'
    } else if d == 5 {
        '5'
    } else if d == 6 {
        '6'
    } else if d == 7 {
        '7'
    } else if d == 8 {
        '8'
    } else {
        '9'
    }
}

/// `n` in decimal, without leading zeros.
pub open spec fn decimal(n: nat) -> Seq<char>
    decreases n,
{
    if n < 10 {
        seq![digit_char(n as int)]
    } else {
        decimal(n / 10).push(digit_char((n % 10) as int))
    }
}

pub open spec fn is_digit(c: char) -> bool {
    '0' <= c && c <= '9'
}

/// The value of a string of decimal digits.
pub open spec fn digits_value(s: Seq<char>) -> int
    decreases s.len(),
{
    if s.len() == 0 {
        0
    } else {
        digits_value(s.drop_last()) * 10 + (s.last() as int - '0' as int)
    }
}

/// A string without its leading `+`, if it has one.
pub open spec fn unsigned_digits(s: Seq<char>) -> Seq<char> {
    if s.len() > 0 && s[0] == '+' {
        s.drop_first()
    } else {
        s
    }
}

pub open spec fn all_digits(d: Seq<char>) -> bool {
    forall|i: int| 0 <= i < d.len() ==> is_digit(#[trigger] d[i])
}

/// What `str::parse::<u64>` gives: an optional `+`, then one or more decimal
/// digits whose value fits in a `u64`.
pub open spec fn parse_u64_spec(s: Seq<char>) -> Option<u64> {
    let d = unsigned_digits(s);
    if d.len() > 0 && all_digits(d) && digits_value(d) <= u64::MAX {
        Some(digits_value(d) as u64)
    } else {
        None
    }
}

fn digit_str(d: u64) -> (s: &'static str)
    requires
        d < 10,
    ensures
        s@ == seq![digit_char(d as int)],
{
    if d == 0 {
        proof {
            reveal_strlit("0");
        }
        "0"
    } else if d == 1 {
        proof {
            reveal_strlit("1");
        }
        "1"
    } else if d == 2 {
        proof {
            reveal_strlit("2");
        }
        "2"
    } else if d == 3 {
        proof {
            reveal_strlit("3");
        }
        "3"
    } else if d == 4 {
        proof {
            reveal_strlit("4");
        }
        "4"
    } else if d == 5 {
        proof {
            reveal_strlit("5");
        }
        "5"
    } else if d == 6 {
        proof {
            reveal_strlit("6");
        }
        "6"
    } else if d == 7 {
        proof {
            reveal_strlit("7");
        }
        "7"
    } else if d == 8 {
        proof {
            reveal_strlit("8");
        }
        "8"
    } else {
        proof {
            reveal_strlit("9");
        }
        "9"
    }
}

/// `n` written in decimal.
pub fn decimal_string(n: u64) -> (s: String)
    ensures
        s@ == decimal(n as nat),
    decreases n,
{
    if n < 10 {
        String::from_str(digit_str(n))
    } else {
        let mut s = decimal_string(n / 10);
        s.append(digit_str(n % 10));
        s
    }
}

/// Parses a snapshot id as `str::parse::<u64>` does.
pub fn parse_u64(s: &str) -> (r: Option<u64>)
    ensures
        r == parse_u64_spec(s@),
{
    let n = s.unicode_len();
    let mut i: usize = 0;
    if n > 0 && s.get_char(0) == '+' {
        i = 1;
    }
    let ghost d = unsigned_digits(s@);
    assert(d =~= s@.skip(i as int));
    if i == n {
        return None;
    }
    let start = i;
    let mut value: u64 = 0;
    while i < n
        invariant
            n == s@.len(),
            start <= i <= n,
            d == s@.skip(start as int),
            d.len() > 0,
            d == unsigned_digits(s@),
            forall|j: int| 0 <= j < i - start ==> is_digit(#[trigger] d[j]),
            value == digits_value(d.take(i - start)),
        decreases n - i,
    {
        let c = s.get_char(i);
        assert(c == d[i - start]);
        if !('0' <= c && c <= '9') {
            assert(!is_digit(d[i - start]));
            assert(!all_digits(d));
            return None;
        }
        let digit: u64 = (c as u32 - '0' as u32) as u64;
        assert(d.take(i + 1 - start).drop_last() =~= d.take(i - start));
        assert(d.take(i + 1 - start).last() == c);
        assert(digits_value(d.take(i + 1 - start)) == value * 10 + digit);
        match value.checked_mul(10) {
            Some(v10) => match v10.checked_add(digit) {
                Some(v) => {
                    value = v;
                },
                None => {
                    proof {
                        if all_digits(d) {
                            lemma_digits_value_prefix_bound(d, i + 1 - start);
                        }
                    }
                    return None;
                },
            },
            None => {
                proof {
                    if all_digits(d) {
                        lemma_digits_value_prefix_bound(d, i + 1 - start);
                    }
                }
                return None;
            },
        }
        i = i + 1;
    }
    assert(d.take(n - start) =~= d);
    Some(value)
}

/// The value of a digit string is at least that of each of its prefixes.
proof fn lemma_digits_value_prefix_bound(d: Seq<char>, k: int)
    requires
        0 <= k <= d.len(),
        forall|j: int| 0 <= j < d.len() ==> is_digit(#[trigger] d[j]),
    ensures
        digits_value(d.take(k)) <= digits_value(d),
        digits_value(d.take(k)) >= 0,
    decreases d.len() - k,
{
    assert(d.take(d.len() as int) =~= d);
    lemma_digits_value_nonneg(d);
    lemma_digits_value_nonneg(d.take(k));
    if k < d.len() {
        let e = d.take(k + 1);
        assert(e.drop_last() =~= d.take(k));
        lemma_digits_value_prefix_bound(d, k + 1);
        lemma_digits_value_nonneg(d.take(k));
    }
}

proof fn lemma_digits_value_nonneg(d: Seq<char>)
    requires
        forall|j: int| 0 <= j < d.len() ==> is_digit(#[trigger] d[j]),
    ensures
        digits_value(d) >= 0,
    decreases d.len(),
{
    if d.len() > 0 {
        assert forall|j: int| 0 <= j < d.drop_last().len() implies is_digit(
            #[trigger] d.drop_last()[j],
        ) by {
            assert(d.drop_last()[j] == d[j]);
        }
        lemma_digits_value_nonneg(d.drop_last());
        assert(is_digit(d[d.len() - 1]));
    }
}

// ---------------------------------------------------------------------------
// The storage
// ---------------------------------------------------------------------------

/// The storage's state besides the log store: the state machine and the
/// snapshot counters.
pub struct PandaStorage {
    node_id: NodeId,
    panda: Panda,
    next_snapshot_idx: u64,
    /// The id of the current active snapshot. u64::MAX if no snapshot is active.
    active_snapshot_id: u64,
}

/// The storage's state as values.
pub struct StorageView {
    pub node_id: NodeId,
    pub last_applied_log: u64,
    pub next_snapshot_idx: u64,
    pub active_snapshot_id: u64,
}

impl View for PandaStorage {
    type V = StorageView;

    closed spec fn view(&self) -> StorageView {
        StorageView {
            node_id: self.node_id,
            last_applied_log: self.panda.last_applied_log,
            next_snapshot_idx: self.next_snapshot_idx,
            active_snapshot_id: self.active_snapshot_id,
        }
    }
}

/// What installing a snapshot writes to the log store, in this order: the
/// pointer entry under its key, then the deletion of every entry from
/// `delete_from` up to (not including) `delete_to`.
pub struct SnapshotInstall {
    pub pointer_key: Vec<u8>,
    pub pointer: Entry,
    pub delete_from: Vec<u8>,
    pub delete_to: Vec<u8>,
}

/// The path of the file of the active snapshot `id`.
pub open spec fn snapshot_file_path(id: u64) -> Seq<char> {
    SNAPSHOT_DIR@ + "-"@ + decimal(id as nat)
}

/// The state a node starts from, and the vote to record first, if one must
/// be: a node with a recorded vote resumes from its log; a node without one
/// starts pristine and records the pristine vote.
pub open spec fn initial_state_spec(
    id: NodeId,
    membership: Membership,
    hard_state: Option<HardState>,
    last_entry: Option<EntryView>,
    last_applied_log: u64,
) -> (StartState, Option<HardState>) {
    match hard_state {
        Some(hs) => (
            StartState {
                last_log_index: match last_entry {
                    Some(e) => e.index,
                    None => 0,
                },
                last_log_term: match last_entry {
                    Some(e) => e.term,
                    None => 0,
                },
                last_applied_log,
                hard_state: hs,
                membership,
            },
            None,
        ),
        None => (pristine_state(id), Some(pristine_state(id).hard_state)),
    }
}

fn skip_newer_count(entries: &[Entry], index: u64) -> (n: usize)
    ensures
        n <= entries@.len(),
        entries_view(entries@).skip(n as int) == skip_newer(entries_view(entries@), index),
{
    let ghost all = entries_view(entries@);
    let mut i: usize = 0;
    assert(all.skip(0) =~= all);
    while i < entries.len() && entries[i].index > index
        invariant
            0 <= i <= entries@.len(),
            all == entries_view(entries@),
            skip_newer(all, index) == skip_newer(all.skip(i as int), index),
        decreases entries@.len() - i,
    {
        assert(all.skip(i as int).drop_first() =~= all.skip(i + 1));
        i = i + 1;
    }
    i
}

impl PandaStorage {
    /// The state of a fresh storage for node `node_id`: nothing applied, no
    /// snapshot taken, none active.
    pub fn new(node_id: NodeId) -> (s: PandaStorage)
        ensures
            s@ == (StorageView {
                node_id,
                last_applied_log: 0,
                next_snapshot_idx: 0,
                active_snapshot_id: u64::MAX,
            }),
    {
        PandaStorage {
            node_id,
            panda: Panda::default(),
            next_snapshot_idx: 0,
            active_snapshot_id: u64::MAX,
        }
    }

    pub fn node_id(&self) -> (id: NodeId)
        ensures
            id == self@.node_id,
    {
        self.node_id
    }

    /// Index of the highest log entry applied to the state machine.
    pub fn last_applied_log(&self) -> (i: u64)
        ensures
            i == self@.last_applied_log,
    {
        self.panda.last_applied_log
    }

    /// A copy of the state machine.
    pub fn panda(&self) -> (p: Panda)
        ensures
            p.last_applied_log == self@.last_applied_log,
    {
        self.panda.clone()
    }

    /// Replaces the state machine (as a snapshot installation does).
    pub fn set_panda(&mut self, panda: Panda)
        ensures
            final(self)@ == (StorageView { last_applied_log: panda.last_applied_log, ..old(self)@ }),
    {
        self.panda = panda;
    }

    /// The membership recorded by the first of `entries` that records one,
    /// else a cluster of this node alone.
    pub fn find_membership_config_from(&self, entries: &[Entry]) -> (m: MembershipConfig)
        ensures
            m@ == find_membership(self@.node_id, entries_view(entries@)),
            entries_wf(entries_view(entries@)) ==> membership_wf(m@),
    {
        proof {
            if entries_wf(entries_view(entries@)) {
                lemma_found_membership_wf(self@.node_id, entries_view(entries@));
            }
        }
        let ghost all = entries_view(entries@);
        let mut i: usize = 0;
        assert(all.skip(0) =~= all);
        while i < entries.len()
            invariant
                0 <= i <= entries@.len(),
                all == entries_view(entries@),
                find_membership(self@.node_id, all) == find_membership(
                    self@.node_id,
                    all.skip(i as int),
                ),
            decreases entries@.len() - i,
        {
            assert(all.skip(i as int)[0] == entries@[i as int]@);
            match &entries[i].payload {
                EntryPayload::ConfigChange(cfg) => {
                    return cfg.duplicate();
                },
                EntryPayload::SnapshotPointer { membership, .. } => {
                    return membership.duplicate();
                },
                _ => {},
            }
            assert(all.skip(i as int).drop_first() =~= all.skip(i + 1));
            i = i + 1;
        }
        assert(all.skip(i as int).len() == 0);
        MembershipConfig::new_initial(self.node_id)
    }

    /// The state to start the node from, given the latest membership in the
    /// log, the recorded vote and the last log entry; and the vote that must
    /// be recorded before starting, if any.
    pub fn get_initial_state(
        &self,
        membership: MembershipConfig,
        hard_state: Option<HardState>,
        last_entry: Option<&Entry>,
    ) -> (r: (InitialState, Option<HardState>))
        ensures
            ({
                let (s, save) = initial_state_spec(
                    self@.node_id,
                    membership@,
                    hard_state,
                    match last_entry {
                        Some(e) => Some(e@),
                        None => None,
                    },
                    self@.last_applied_log,
                );
                r.0@ == s && r.1 == save
            }),
    {
        match hard_state {
            Some(hard_state) => {
                let (last_log_index, last_log_term) = match last_entry {
                    Some(entry) => (entry.index, entry.term),
                    None => (0, 0),
                };
                let last_applied_log = self.panda.last_applied_log;
                (
                    InitialState {
                        last_log_index,
                        last_log_term,
                        hard_state,
                        membership,
                        last_applied_log,
                    },
                    None,
                )
            },
            None => {
                let state = InitialState::new_initial(self.node_id);
                let save = state.hard_state;
                (state, Some(save))
            },
        }
    }

    /// The snapshot of the state machine at the last applied index, given the
    /// log entry at that index and the log from the newest entry down.
    pub fn do_log_compaction(&self, entry_at_index: &Entry, newest_first: &[Entry]) -> (snapshot:
        PandaSnapshot)
        requires
            entry_at_index.index == self@.last_applied_log,
        ensures
            snapshot.index == self@.last_applied_log,
            snapshot.term == entry_at_index.term,
            snapshot.membership@ == find_membership(
                self@.node_id,
                skip_newer(entries_view(newest_first@), self@.last_applied_log),
            ),
            snapshot.panda.last_applied_log == self@.last_applied_log,
            entries_wf(entries_view(newest_first@)) ==> membership_wf(snapshot.membership@),
    {
        proof {
            if entries_wf(entries_view(newest_first@)) {
                lemma_skip_newer_wf(entries_view(newest_first@), self@.last_applied_log);
            }
        }
        let index = self.panda.last_applied_log;
        let panda = self.panda.clone();
        let term = entry_at_index.term;
        let skip = skip_newer_count(newest_first, index);
        let older = slice_subrange(newest_first, skip, newest_first.len());
        assert(entries_view(older@) =~= entries_view(newest_first@).skip(skip as int));
        let membership = self.find_membership_config_from(older);
        PandaSnapshot { index, term, membership, panda }
    }

    /// Takes the next snapshot id: the counter in decimal. The counter then
    /// moves on by one, wrapping around.
    pub fn next_snapshot_id(&mut self) -> (id: String)
        ensures
            id@ == decimal(old(self)@.next_snapshot_idx as nat),
            final(self)@ == (StorageView {
                next_snapshot_idx: if old(self)@.next_snapshot_idx == u64::MAX {
                    0
                } else {
                    (old(self)@.next_snapshot_idx + 1) as u64
                },
                ..old(self)@
            }),
    {
        let idx = self.next_snapshot_idx;
        self.next_snapshot_idx = idx.wrapping_add(1);
        decimal_string(idx)
    }

    /// The path of the active snapshot's file, if a snapshot is active.
    pub fn active_snapshot_path(&self) -> (p: Option<String>)
        ensures
            self@.active_snapshot_id == u64::MAX ==> p is None,
            self@.active_snapshot_id != u64::MAX ==> p is Some && p->Some_0@ == snapshot_file_path(
                self@.active_snapshot_id,
            ),
    {
        let idx = self.active_snapshot_id;
        if idx == u64::MAX {
            return None;
        }
        let mut path = String::from_str(SNAPSHOT_DIR);
        path.append("-");
        let digits = decimal_string(idx);
        path.append(digits.as_str());
        Some(path)
    }

    /// Makes snapshot `id` (covering the log up to `index`, at `term`) the
    /// active one and says what to write to the log store: a pointer entry at
    /// `index` carrying the membership the log had there, then the deletion of
    /// the log from the start up to `delete_through` (or to the end).
    pub fn finalize_snapshot_installation(
        &mut self,
        index: u64,
        term: u64,
        delete_through: Option<u64>,
        id: String,
        newest_first: &[Entry],
    ) -> (w: SnapshotInstall)
        requires
            parse_u64_spec(id@) is Some,
        ensures
            final(self)@ == (StorageView {
                active_snapshot_id: parse_u64_spec(id@)->Some_0,
                ..old(self)@
            }),
            w.pointer_key@ == be_u64_bytes(index),
            w.pointer@ == (EntryView {
                term,
                index,
                payload: Payload::SnapshotPointer {
                    id: id@,
                    membership: find_membership(
                        old(self)@.node_id,
                        skip_newer(entries_view(newest_first@), index),
                    ),
                },
            }),
            entries_wf(entries_view(newest_first@)) ==> match w.pointer.payload {
                EntryPayload::SnapshotPointer { membership, .. } => membership_wf(membership@),
                _ => false,
            },
            w.delete_from@ == be_u64_bytes(0),
            w.delete_to@ == be_u64_bytes(
                match delete_through {
                    Some(d) => d,
                    None => u64::MAX,
                },
            ),
    {
        proof {
            if entries_wf(entries_view(newest_first@)) {
                lemma_skip_newer_wf(entries_view(newest_first@), index);
            }
        }
        let skip = skip_newer_count(newest_first, index);
        let older = slice_subrange(newest_first, skip, newest_first.len());
        assert(entries_view(older@) =~= entries_view(newest_first@).skip(skip as int));
        let membership = self.find_membership_config_from(older);
        let active = match parse_u64(id.as_str()) {
            Some(v) => v,
            None => {
                assert(false);
                0
            },
        };
        self.active_snapshot_id = active;
        let pointer = Entry::new_snapshot_pointer(index, term, id, membership);
        let (delete_from, delete_to) = delete_range_keys(0, delete_through);
        SnapshotInstall { pointer_key: log_key(index), pointer, delete_from, delete_to }
    }
}

// ---------------------------------------------------------------------------
// Laws
// ---------------------------------------------------------------------------

proof fn lemma_digit_char(d: int)
    requires
        0 <= d < 10,
    ensures
        is_digit(digit_char(d)),
        digit_char(d) as int - '0' as int == d,
{
}

proof fn lemma_decimal_digits(n: nat)
    ensures
        decimal(n).len() > 0,
        all_digits(decimal(n)),
        digits_value(decimal(n)) == n,
    decreases n,
{
    if n < 10 {
        lemma_digit_char(n as int);
        let s = decimal(n);
        assert(s.drop_last() =~= Seq::<char>::empty());
        assert(digits_value(s.drop_last()) == 0);
        assert(s.last() == digit_char(n as int));
        assert(digits_value(s) == digits_value(s.drop_last()) * 10 + (s.last() as int - '0' as int));
    } else {
        lemma_decimal_digits(n / 10);
        lemma_digit_char((n % 10) as int);
        let s = decimal(n);
        assert(s.drop_last() =~= decimal(n / 10));
        assert(forall|i: int| 0 <= i < decimal(n / 10).len() ==> s[i] == decimal(n / 10)[i]);
        assert(n == (n / 10) * 10 + n % 10) by (nonlinear_arith);
        assert(s.last() == digit_char((n % 10) as int));
        assert(digits_value(s) == digits_value(s.drop_last()) * 10 + (s.last() as int - '0' as int));
    }
}

/// Snapshot ids read back as the counter value they were made from: every id
/// that `next_snapshot_id` hands out can be installed.
pub proof fn lemma_snapshot_id_roundtrip(n: u64)
    ensures
        parse_u64_spec(decimal(n as nat)) == Some(n),
{
    lemma_decimal_digits(n as nat);
    let s = decimal(n as nat);
    assert(is_digit(s[0]));
    assert(unsigned_digits(s) == s);
}

/// Different counter values give different snapshot ids.
pub proof fn lemma_snapshot_ids_distinct(a: u64, b: u64)
    requires
        a != b,
    ensures
        decimal(a as nat) != decimal(b as nat),
{
    lemma_snapshot_id_roundtrip(a);
    lemma_snapshot_id_roundtrip(b);
}

/// Installing a snapshot under an id that `next_snapshot_id` made activates
/// the path `SNAPSHOT_DIR-<id>`: the snapshot directory's own path, a hyphen and
/// the id's decimal digits. (Snapshots are written inside that directory, under
/// the bare id; this lemma speaks only of the path that becomes active.)
pub proof fn lemma_installed_snapshot_file(n: u64)
    requires
        n != u64::MAX,
    ensures
        parse_u64_spec(decimal(n as nat)) is Some,
        snapshot_file_path(parse_u64_spec(decimal(n as nat))->Some_0) == SNAPSHOT_DIR@ + "-"@
            + decimal(n as nat),
{
    lemma_snapshot_id_roundtrip(n);
}

/// The order of stored keys as the store compares them: byte by byte.
pub open spec fn key_less(a: Seq<u8>, b: Seq<u8>) -> bool {
    exists|k: int| 0 <= k < a.len() && k < b.len() && a.take(k) == b.take(k) && a[k] < b[k]
}

proof fn lemma_key_bytes(x: u64)
    ensures
        be_u64_bytes(x)[0] as u64 == ((x >> 56u64) & 0xffu64),
        be_u64_bytes(x)[1] as u64 == ((x >> 48u64) & 0xffu64),
        be_u64_bytes(x)[2] as u64 == ((x >> 40u64) & 0xffu64),
        be_u64_bytes(x)[3] as u64 == ((x >> 32u64) & 0xffu64),
        be_u64_bytes(x)[4] as u64 == ((x >> 24u64) & 0xffu64),
        be_u64_bytes(x)[5] as u64 == ((x >> 16u64) & 0xffu64),
        be_u64_bytes(x)[6] as u64 == ((x >> 8u64) & 0xffu64),
        be_u64_bytes(x)[7] as u64 == ((x >> 0u64) & 0xffu64),
{
    assert(((((x / 0x100000000000000) % 0x100)) as u8) as u64 == ((x >> 56u64) & 0xffu64)) by (bit_vector);
    assert(((((x / 0x1000000000000) % 0x100)) as u8) as u64 == ((x >> 48u64) & 0xffu64)) by (bit_vector);
    assert(((((x / 0x10000000000) % 0x100)) as u8) as u64 == ((x >> 40u64) & 0xffu64)) by (bit_vector);
    assert(((((x / 0x100000000) % 0x100)) as u8) as u64 == ((x >> 32u64) & 0xffu64)) by (bit_vector);
    assert(((((x / 0x1000000) % 0x100)) as u8) as u64 == ((x >> 24u64) & 0xffu64)) by (bit_vector);
    assert(((((x / 0x10000) % 0x100)) as u8) as u64 == ((x >> 16u64) & 0xffu64)) by (bit_vector);
    assert(((((x / 0x100) % 0x100)) as u8) as u64 == ((x >> 8u64) & 0xffu64)) by (bit_vector);
    assert((((x % 0x100)) as u8) as u64 == ((x >> 0u64) & 0xffu64)) by (bit_vector);
}

proof fn lemma_be_order_bits(i: u64, j: u64)
    by (bit_vector)
    requires
        i < j,
    ensures
        (((i >> 56u64) & 0xffu64) < ((j >> 56u64) & 0xffu64)) ||
        (((i >> 56u64) & 0xffu64) == ((j >> 56u64) & 0xffu64) && ((i >> 48u64) & 0xffu64) < ((j >> 48u64) & 0xffu64)) ||
        (((i >> 56u64) & 0xffu64) == ((j >> 56u64) & 0xffu64) && ((i >> 48u64) & 0xffu64) == ((j >> 48u64) & 0xffu64) && ((i >> 40u64) & 0xffu64) < ((j >> 40u64) & 0xffu64)) ||
        (((i >> 56u64) & 0xffu64) == ((j >> 56u64) & 0xffu64) && ((i >> 48u64) & 0xffu64) == ((j >> 48u64) & 0xffu64) && ((i >> 40u64) & 0xffu64) == ((j >> 40u64) & 0xffu64) && ((i >> 32u64) & 0xffu64) < ((j >> 32u64) & 0xffu64)) ||
        (((i >> 56u64) & 0xffu64) == ((j >> 56u64) & 0xffu64) && ((i >> 48u64) & 0xffu64) == ((j >> 48u64) & 0xffu64) && ((i >> 40u64) & 0xffu64) == ((j >> 40u64) & 0xffu64) && ((i >> 32u64) & 0xffu64) == ((j >> 32u64) & 0xffu64) && ((i >> 24u64) & 0xffu64) < ((j >> 24u64) & 0xffu64)) ||
        (((i >> 56u64) & 0xffu64) == ((j >> 56u64) & 0xffu64) && ((i >> 48u64) & 0xffu64) == ((j >> 48u64) & 0xffu64) && ((i >> 40u64) & 0xffu64) == ((j >> 40u64) & 0xffu64) && ((i >> 32u64) & 0xffu64) == ((j >> 32u64) & 0xffu64) && ((i >> 24u64) & 0xffu64) == ((j >> 24u64) & 0xffu64) && ((i >> 16u64) & 0xffu64) < ((j >> 16u64) & 0xffu64)) ||
        (((i >> 56u64) & 0xffu64) == ((j >> 56u64) & 0xffu64) && ((i >> 48u64) & 0xffu64) == ((j >> 48u64) & 0xffu64) && ((i >> 40u64) & 0xffu64) == ((j >> 40u64) & 0xffu64) && ((i >> 32u64) & 0xffu64) == ((j >> 32u64) & 0xffu64) && ((i >> 24u64) & 0xffu64) == ((j >> 24u64) & 0xffu64) && ((i >> 16u64) & 0xffu64) == ((j >> 16u64) & 0xffu64) && ((i >> 8u64) & 0xffu64) < ((j >> 8u64) & 0xffu64)) ||
        (((i >> 56u64) & 0xffu64) == ((j >> 56u64) & 0xffu64) && ((i >> 48u64) & 0xffu64) == ((j >> 48u64) & 0xffu64) && ((i >> 40u64) & 0xffu64) == ((j >> 40u64) & 0xffu64) && ((i >> 32u64) & 0xffu64) == ((j >> 32u64) & 0xffu64) && ((i >> 24u64) & 0xffu64) == ((j >> 24u64) & 0xffu64) && ((i >> 16u64) & 0xffu64) == ((j >> 16u64) & 0xffu64) && ((i >> 8u64) & 0xffu64) == ((j >> 8u64) & 0xffu64) && ((i >> 0u64) & 0xffu64) < ((j >> 0u64) & 0xffu64)),
{
}

/// The store keeps entries in log order: a lower index has a smaller key.
pub proof fn lemma_log_keys_ordered(i: u64, j: u64)
    requires
        i < j,
    ensures
        key_less(be_u64_bytes(i), be_u64_bytes(j)),
{
    lemma_key_bytes(i);
    lemma_key_bytes(j);
    lemma_be_order_bits(i, j);
    let a = be_u64_bytes(i);
    let b = be_u64_bytes(j);
    if a[0] != b[0] {
        assert(a.take(0) =~= b.take(0));
    } else if a[1] != b[1] {
        assert(a.take(1) =~= b.take(1));
    } else if a[2] != b[2] {
        assert(a.take(2) =~= b.take(2));
    } else if a[3] != b[3] {
        assert(a.take(3) =~= b.take(3));
    } else if a[4] != b[4] {
        assert(a.take(4) =~= b.take(4));
    } else if a[5] != b[5] {
        assert(a.take(5) =~= b.take(5));
    } else if a[6] != b[6] {
        assert(a.take(6) =~= b.take(6));
    } else if a[7] != b[7] {
        assert(a.take(7) =~= b.take(7));
    } else {
        assert(a =~= b);
    }
}

/// Different indexes are stored under different keys.
pub proof fn lemma_log_keys_distinct(i: u64, j: u64)
    requires
        i != j,
    ensures
        be_u64_bytes(i) != be_u64_bytes(j),
{
    if i < j {
        lemma_log_keys_ordered(i, j);
    } else {
        lemma_log_keys_ordered(j, i);
    }
}

proof fn lemma_key_less_asymmetric(a: Seq<u8>, b: Seq<u8>)
    requires
        key_less(a, b),
    ensures
        !key_less(b, a),
{
    let k1 = choose|k: int| 0 <= k < a.len() && k < b.len() && a.take(k) == b.take(k) && a[k] < b[k];
    if key_less(b, a) {
        let k2 = choose|k: int|
            0 <= k < b.len() && k < a.len() && b.take(k) == a.take(k) && b[k] < a[k];
        if k1 < k2 {
            assert(b.take(k2)[k1] == a.take(k2)[k1]);
        } else if k2 < k1 {
            assert(a.take(k1)[k2] == b.take(k1)[k2]);
        }
    }
}

/// Keys compare as the indexes they stand for.
pub proof fn lemma_key_order(i: u64, j: u64)
    ensures
        key_less(be_u64_bytes(i), be_u64_bytes(j)) <==> i < j,
{
    if i < j {
        lemma_log_keys_ordered(i, j);
    } else if j < i {
        lemma_log_keys_ordered(j, i);
        lemma_key_less_asymmetric(be_u64_bytes(j), be_u64_bytes(i));
    } else {
        assert(!key_less(be_u64_bytes(i), be_u64_bytes(i)));
    }
}

/// Whether the store's range deletion from `from` up to (not including) `to`
/// removes the entry stored under `k`.
pub open spec fn in_key_range(k: Seq<u8>, from: Seq<u8>, to: Seq<u8>) -> bool {
    !key_less(k, from) && key_less(k, to)
}

/// Deleting the log from `start` up to `stop` (or the end) removes exactly
/// the entries whose index lies in between; an entry at `u64::MAX` is never
/// removed.
pub proof fn lemma_deleted_entries(start: u64, stop: Option<u64>, i: u64)
    ensures
        in_key_range(
            be_u64_bytes(i),
            be_u64_bytes(start),
            be_u64_bytes(
                match stop {
                    Some(s) => s,
                    None => u64::MAX,
                },
            ),
        ) <==> start <= i < match stop {
            Some(s) => s,
            None => u64::MAX,
        },
{
    let end = match stop {
        Some(s) => s,
        None => u64::MAX,
    };
    lemma_key_order(i, start);
    lemma_key_order(i, end);
}

/// The pointer entry that installing a snapshot writes survives the deletion
/// that follows it exactly when the deletion stops at or before the
/// snapshot's index.
pub proof fn lemma_snapshot_pointer_kept(index: u64, delete_through: Option<u64>)
    ensures
        !in_key_range(
            be_u64_bytes(index),
            be_u64_bytes(0),
            be_u64_bytes(
                match delete_through {
                    Some(d) => d,
                    None => u64::MAX,
                },
            ),
        ) <==> index >= match delete_through {
            Some(d) => d,
            None => u64::MAX,
        },
{
    lemma_deleted_entries(0, delete_through, index);
}

/// The membership found in a log whose memberships are sets is a set too.
pub proof fn lemma_found_membership_wf(id: NodeId, s: Seq<EntryView>)
    requires
        entries_wf(s),
    ensures
        membership_wf(find_membership(id, s)),
    decreases s.len(),
{
    if s.len() == 0 {
        assert(seq![id].no_duplicates());
    } else {
        assert(match s[0].payload {
            Payload::ConfigChange(m) => membership_wf(m),
            Payload::SnapshotPointer { membership, .. } => membership_wf(membership),
            _ => true,
        });
        if entry_membership(s[0]) is None {
            assert forall|i: int| 0 <= i < s.drop_first().len() implies match (
            #[trigger] s.drop_first()[i]).payload {
                Payload::ConfigChange(m) => membership_wf(m),
                Payload::SnapshotPointer { membership, .. } => membership_wf(membership),
                _ => true,
            } by {
                assert(s.drop_first()[i] == s[i + 1]);
            }
            lemma_found_membership_wf(id, s.drop_first());
        }
    }
}

/// Skipping the newer entries of a log keeps its memberships sets.
pub proof fn lemma_skip_newer_wf(s: Seq<EntryView>, index: u64)
    requires
        entries_wf(s),
    ensures
        entries_wf(skip_newer(s, index)),
    decreases s.len(),
{
    if s.len() > 0 && s[0].index > index {
        assert forall|i: int| 0 <= i < s.drop_first().len() implies match (
        #[trigger] s.drop_first()[i]).payload {
            Payload::ConfigChange(m) => membership_wf(m),
            Payload::SnapshotPointer { membership, .. } => membership_wf(membership),
            _ => true,
        } by {
            assert(s.drop_first()[i] == s[i + 1]);
        }
        lemma_skip_newer_wf(s.drop_first(), index);
    }
}

/// Whether an entry records no membership: a blank or a command.
pub open spec fn records_no_membership(e: EntryView) -> bool {
    e.payload is Blank || e.payload is Normal
}

/// The membership read from a newest-first log is the one recorded by its
/// first entry that records one, whether that is a configuration change or a
/// snapshot pointer, exactly as recorded.
pub proof fn lemma_membership_of_first_recording_entry(id: NodeId, s: Seq<EntryView>, k: int)
    requires
        0 <= k < s.len(),
        forall|j: int| 0 <= j < k ==> records_no_membership(#[trigger] s[j]),
    ensures
        s[k].payload matches Payload::ConfigChange(m) ==> find_membership(id, s) == m,
        s[k].payload matches Payload::SnapshotPointer { membership, .. } ==> find_membership(id, s)
            == membership,
    decreases k,
{
    if k > 0 {
        assert(records_no_membership(s[0]));
        let t = s.drop_first();
        assert forall|j: int| 0 <= j < k - 1 implies records_no_membership(#[trigger] t[j]) by {
            assert(t[j] == s[j + 1]);
            assert(records_no_membership(s[j + 1]));
        }
        lemma_membership_of_first_recording_entry(id, t, k - 1);
        assert(t[k - 1] == s[k]);
    }
}

/// A log in which no entry records a membership leaves the node in a
/// cluster of itself alone.
pub proof fn lemma_membership_without_records(id: NodeId, s: Seq<EntryView>)
    requires
        forall|j: int| 0 <= j < s.len() ==> records_no_membership(#[trigger] s[j]),
    ensures
        find_membership(id, s) == (Membership { members: seq![id], members_after_consensus: None }),
    decreases s.len(),
{
    if s.len() > 0 {
        assert(records_no_membership(s[0]));
        let t = s.drop_first();
        assert forall|j: int| 0 <= j < t.len() implies records_no_membership(#[trigger] t[j]) by {
            assert(t[j] == s[j + 1]);
            assert(records_no_membership(s[j + 1]));
        }
        lemma_membership_without_records(id, t);
    }
}

/// Passing over the entries newer than `index` drops exactly the leading
/// entries whose index is above it: the first entry at or below `index`, the
/// one at `index` itself included, is kept with all that follow it.
pub proof fn lemma_skip_newer_keeps_from_index(s: Seq<EntryView>, index: u64, k: int)
    requires
        0 <= k <= s.len(),
        forall|j: int| 0 <= j < k ==> (#[trigger] s[j]).index > index,
        k < s.len() ==> s[k].index <= index,
    ensures
        skip_newer(s, index) == s.skip(k),
    decreases k,
{
    if k == 0 {
        assert(s.skip(0) =~= s);
    } else {
        assert(s[0].index > index);
        let t = s.drop_first();
        assert forall|j: int| 0 <= j < k - 1 implies (#[trigger] t[j]).index > index by {
            assert(t[j] == s[j + 1]);
            assert(s[j + 1].index > index);
        }
        if k < s.len() {
            assert(t[k - 1] == s[k]);
        }
        lemma_skip_newer_keeps_from_index(t, index, k - 1);
        assert(t.skip(k - 1) =~= s.skip(k));
    }
}

/// A snapshot taken at `index` records the membership of the newest entry at
/// or below `index` that records one; an entry at `index` itself counts.
pub proof fn lemma_snapshot_membership(id: NodeId, s: Seq<EntryView>, index: u64, k: int, r: int)
    requires
        0 <= k <= r < s.len(),
        forall|j: int| 0 <= j < k ==> (#[trigger] s[j]).index > index,
        s[k].index <= index,
        forall|j: int| k <= j < r ==> records_no_membership(#[trigger] s[j]),
    ensures
        s[r].payload matches Payload::ConfigChange(m) ==> find_membership(
            id,
            skip_newer(s, index),
        ) == m,
        s[r].payload matches Payload::SnapshotPointer { membership, .. } ==> find_membership(
            id,
            skip_newer(s, index),
        ) == membership,
{
    lemma_skip_newer_keeps_from_index(s, index, k);
    let t = s.skip(k);
    assert forall|j: int| 0 <= j < r - k implies records_no_membership(#[trigger] t[j]) by {
        assert(t[j] == s[j + k]);
        assert(records_no_membership(s[j + k]));
    }
    lemma_membership_of_first_recording_entry(id, t, r - k);
    assert(t[r - k] == s[r]);
}

/// A node with a recorded vote resumes from its log: the last log index and
/// term are those of the last entry (zero for an empty log), the vote, the
/// membership and the applied index are the ones given, and nothing needs to
/// be recorded first. A node without a vote starts with an empty log, a vote
/// for nobody in term zero, in a cluster of itself alone, and records that
/// vote first.
pub proof fn lemma_start_state(
    id: NodeId,
    membership: Membership,
    hard_state: Option<HardState>,
    last_entry: Option<EntryView>,
    applied: u64,
)
    ensures
        ({
            let (st, save) = initial_state_spec(id, membership, hard_state, last_entry, applied);
            &&& hard_state matches Some(hs) ==> {
                &&& save is None
                &&& st.hard_state == hs
                &&& st.membership == membership
                &&& st.last_applied_log == applied
                &&& last_entry matches Some(e) ==> st.last_log_index == e.index && st.last_log_term
                    == e.term
                &&& last_entry is None ==> st.last_log_index == 0 && st.last_log_term == 0
            }
            &&& hard_state is None ==> {
                &&& save == Some(HardState { current_term: 0, voted_for: None })
                &&& st.hard_state == HardState { current_term: 0, voted_for: None }
                &&& st.last_log_index == 0 && st.last_log_term == 0 && st.last_applied_log == 0
                &&& st.membership == Membership { members: seq![id], members_after_consensus: None }
            }
        }),
{
}

} // verus!
