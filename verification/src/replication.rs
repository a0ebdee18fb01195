//! Log replication: the leader's log, what it sends to each follower, what
//! each follower has confirmed, and the follower-side consistency check.
use vstd::prelude::*;
use crate::entry::{entries_view, EntryView, LogEntry};
use crate::peer_map::{keys_at_least, PeerMap};

verus! {

broadcast use vstd::string::to_string_from_display_ensures_for_str;

/// The message of the error returned when the previous entry's term differs.
pub open spec fn term_mismatch_message() -> Seq<char> {
    "log term mismatch"@
}

/// The message of the error returned when the previous entry is missing.
pub open spec fn missing_entry_message() -> Seq<char> {
    "log missing previous entry"@
}

/// An operation of a leader on its replication engine, as the methods of
/// [`LogReplication`] perform it.
pub enum LeaderOp {
    SetTerm(u64),
    Append(Seq<u8>),
    AddFollower(Seq<char>),
    ConfirmReplication(Seq<char>, usize),
}

/// Every entry's index is its 1-based position in the log.
pub open spec fn indices_are_positions(log: Seq<EntryView>) -> bool {
    forall|i: int| 0 <= i < log.len() ==> #[trigger] log[i].index == i + 1
}

/// Mathematical model of a [`LogReplication`].
pub struct ReplicationView {
    pub node_id: Seq<char>,
    pub log: Seq<EntryView>,
    /// For each follower, the next log index to send.
    pub next_index: Map<Seq<char>, usize>,
    /// For each follower, the highest index known to be replicated there.
    pub match_index: Map<Seq<char>, usize>,
    pub current_term: u64,
}

impl ReplicationView {
    /// Both maps track the same, finite, set of followers.
    pub open spec fn inv(self) -> bool {
        &&& self.next_index.dom().finite()
        &&& self.match_index.dom().finite()
        &&& self.next_index.dom() == self.match_index.dom()
    }

    /// The state after `set_term(term)`.
    pub open spec fn set_term(self, term: u64) -> ReplicationView {
        ReplicationView { current_term: term, ..self }
    }

    /// The entry that `append(data)` creates: the current term, and the
    /// index one past the current log length.
    pub open spec fn next_entry(self, data: Seq<u8>) -> EntryView {
        EntryView { term: self.current_term, data, index: (self.log.len() + 1) as usize }
    }

    /// The state after `append(data)`.
    pub open spec fn append(self, data: Seq<u8>) -> ReplicationView {
        ReplicationView { log: self.log.push(self.next_entry(data)), ..self }
    }

    /// The state after `add_follower(follower_id)`: nothing sent yet (next
    /// index 1) and nothing confirmed (match index 0).
    pub open spec fn add_follower(self, follower_id: Seq<char>) -> ReplicationView {
        ReplicationView {
            next_index: self.next_index.insert(follower_id, 1),
            match_index: self.match_index.insert(follower_id, 0),
            ..self
        }
    }

    /// The first index to send to `follower_id` (1 for an unknown follower).
    pub open spec fn next_start(self, follower_id: Seq<char>) -> usize {
        if self.next_index.contains_key(follower_id) {
            self.next_index[follower_id]
        } else {
            1
        }
    }

    /// The entries to send to `follower_id`: those at or after its next index,
    /// in log order.
    pub open spec fn entries_for(self, follower_id: Seq<char>) -> Seq<EntryView> {
        let start = self.next_start(follower_id);
        self.log.filter(|e: EntryView| e.index >= start)
    }

    /// The state after `confirm_replication(follower_id, index)`: for a known
    /// follower the next index becomes `index + 1` and the match index never
    /// decreases; an unknown follower changes nothing.
    pub open spec fn confirm_replication(self, follower_id: Seq<char>, index: usize) -> ReplicationView {
        if self.next_index.contains_key(follower_id) {
            let matched = self.match_index[follower_id];
            ReplicationView {
                next_index: self.next_index.insert(follower_id, (index + 1) as usize),
                match_index: self.match_index.insert(
                    follower_id,
                    if matched > index {
                        matched
                    } else {
                        index
                    },
                ),
                ..self
            }
        } else {
            self
        }
    }

    /// The state after one leader operation.
    pub open spec fn step(self, op: LeaderOp) -> ReplicationView {
        match op {
            LeaderOp::SetTerm(term) => self.set_term(term),
            LeaderOp::Append(data) => self.append(data),
            LeaderOp::AddFollower(follower_id) => self.add_follower(follower_id),
            LeaderOp::ConfirmReplication(follower_id, index) => self.confirm_replication(
                follower_id,
                index,
            ),
        }
    }

    /// The state after the leader operations `ops`, in order.
    pub open spec fn run(self, ops: Seq<LeaderOp>) -> ReplicationView
        decreases ops.len(),
    {
        if ops.len() == 0 {
            self
        } else {
            self.step(ops[0]).run(ops.drop_first())
        }
    }

    /// How many nodes hold the log up to `index`: the followers whose match
    /// index reaches it, and the leader itself.
    pub open spec fn replication_count(self, index: usize) -> nat {
        keys_at_least(self.match_index, index).len() + 1
    }

    /// The state and the result of `apply_entries(prev_log_index, prev_log_term, entries)`.
    /// When `prev_log_index` is 0, or the log holds an entry at that (1-based)
    /// position with term `prev_log_term`, the log keeps its first
    /// `prev_log_index` entries, `entries` follow, and their number is returned.
    /// Otherwise the log is unchanged and the error names the failed check.
    pub open spec fn apply_entries(self, prev_log_index: usize, prev_log_term: u64, entries: Seq<EntryView>) -> (
        ReplicationView,
        Result<usize, Seq<char>>,
    ) {
        if prev_log_index > 0 && prev_log_index > self.log.len() {
            (self, Err(missing_entry_message()))
        } else if prev_log_index > 0 && self.log[prev_log_index - 1].term != prev_log_term {
            (self, Err(term_mismatch_message()))
        } else {
            (
                ReplicationView { log: self.log.take(prev_log_index as int) + entries, ..self },
                Ok(entries.len() as usize),
            )
        }
    }
}

/// Log replication engine.
///
/// The leader replicates log entries to all followers. Each follower's
/// next index tracks what the leader should send next, and its match index
/// the highest log index known to be replicated on it.
#[derive(Debug)]
pub struct LogReplication {
    node_id: String,
    log: Vec<LogEntry>,
    next_index: PeerMap<usize>,
    match_index: PeerMap<usize>,
    current_term: u64,
}

impl View for LogReplication {
    type V = ReplicationView;

    closed spec fn view(&self) -> ReplicationView {
        ReplicationView {
            node_id: self.node_id@,
            log: entries_view(self.log@),
            next_index: self.next_index@,
            match_index: self.match_index@,
            current_term: self.current_term,
        }
    }
}

impl LogReplication {
    /// The internal maps are well formed and the model's invariant holds.
    pub closed spec fn wf(&self) -> bool {
        &&& self.next_index.wf()
        &&& self.match_index.wf()
        &&& self@.inv()
    }

    /// A well-formed engine's model satisfies the model invariant, so the
    /// laws stated over models apply to it.
    pub proof fn lemma_wf_inv(&self)
        requires
            self.wf(),
        ensures
            self@.inv(),
    {
    }

    /// A new replication engine for `node_id`: empty log, no followers, term 0.
    pub fn new(node_id: &str) -> (r: LogReplication)
        ensures
            r.wf(),
            r@ == (ReplicationView {
                node_id: node_id@,
                log: Seq::empty(),
                next_index: Map::empty(),
                match_index: Map::empty(),
                current_term: 0,
            }),
    {
        let r = LogReplication {
            node_id: node_id.to_string(),
            log: Vec::new(),
            next_index: PeerMap::new(),
            match_index: PeerMap::new(),
            current_term: 0,
        };
        assert(r@.log =~= Seq::<EntryView>::empty());
        r
    }

    /// Set the current term.
    pub fn set_term(&mut self, term: u64)
        requires
            old(self).wf(),
        ensures
            final(self).wf(),
            final(self)@ == old(self)@.set_term(term),
    {
        self.current_term = term;
    }

    /// The current term.
    pub fn term(&self) -> (r: u64)
        ensures
            r == self@.current_term,
    {
        self.current_term
    }

    /// Append a new entry with `data` to the local log, in the current term
    /// and at the index one past the log's length. Returns the new entry.
    pub fn append(&mut self, data: Vec<u8>) -> (e: &LogEntry)
        requires
            old(self).wf(),
            old(self)@.log.len() < usize::MAX,
        ensures
            final(self).wf(),
            final(self)@ == old(self)@.append(data@),
            e@ == old(self)@.next_entry(data@),
            e.data@ == data@,
            e.term == old(self)@.current_term,
            e.index == old(self)@.log.len() + 1,
    {
        let index = self.log.len() + 1;
        let entry = LogEntry::new(self.current_term, data, index);
        self.log.push(entry);
        assert(self@.log =~= old(self)@.log.push(old(self)@.next_entry(data@)));
        let n = self.log.len();
        &self.log[n - 1]
    }

    /// The number of log entries.
    pub fn log_len(&self) -> (r: usize)
        ensures
            r == self@.log.len(),
    {
        self.log.len()
    }

    /// The log.
    pub fn log(&self) -> (r: &[LogEntry])
        ensures
            entries_view(r@) == self@.log,
    {
        self.log.as_slice()
    }

    /// Track a follower: nothing sent to it yet and nothing confirmed.
    pub fn add_follower(&mut self, follower_id: &str)
        requires
            old(self).wf(),
        ensures
            final(self).wf(),
            final(self)@ == old(self)@.add_follower(follower_id@),
    {
        let next: usize = 1;
        self.next_index.insert(follower_id.to_string(), next);
        self.match_index.insert(follower_id.to_string(), 0);
        proof {
            self.next_index.lemma_wf_finite();
            self.match_index.lemma_wf_finite();
        }
    }

    /// The entries to send to `follower_id`: copies of those at or after its
    /// next index (from the start of the log for an unknown follower).
    pub fn entries_for(&self, follower_id: &str) -> (r: Vec<LogEntry>)
        requires
            self.wf(),
        ensures
            entries_view(r@) == self@.entries_for(follower_id@),
    {
        let key = follower_id.to_string();
        let start: usize = match self.next_index.get(&key) {
            Some(v) => *v,
            None => 1,
        };
        let ghost pred = |e: EntryView| e.index >= start;
        let ghost model = self@.log;
        let mut out: Vec<LogEntry> = Vec::new();
        let mut i: usize = 0;
        while i < self.log.len()
            invariant
                i <= self.log@.len(),
                model == entries_view(self.log@),
                pred == (|e: EntryView| e.index >= start),
                entries_view(out@) == model.take(i as int).filter(pred),
            decreases self.log@.len() - i,
        {
            proof {
                assert(model.take(i + 1) =~= model.take(i as int).push(self.log@[i as int]@));
                model.take(i as int).lemma_filter_push(self.log@[i as int]@, pred);
            }
            if self.log[i].index >= start {
                let copy = self.log[i].duplicate();
                out.push(copy);
                assert(entries_view(out@) =~= model.take(i as int).filter(pred).push(copy@));
            }
            i = i + 1;
        }
        assert(model.take(i as int) =~= model);
        out
    }

    /// Record that `follower_id` has replicated up to `index`: its next index
    /// becomes `index + 1` and its match index rises to `index` if lower.
    /// An unknown follower changes nothing.
    pub fn confirm_replication(&mut self, follower_id: &str, index: usize)
        requires
            old(self).wf(),
            old(self)@.next_index.contains_key(follower_id@) ==> index < usize::MAX,
        ensures
            final(self).wf(),
            final(self)@ == old(self)@.confirm_replication(follower_id@, index),
    {
        let key = follower_id.to_string();
        if self.next_index.contains_key(&key) {
            self.next_index.insert(key.clone(), index + 1);
        }
        match self.match_index.get(&key) {
            Some(mi) => {
                let matched = *mi;
                let raised = if matched > index {
                    matched
                } else {
                    index
                };
                self.match_index.insert(key, raised);
            },
            None => {},
        }
        proof {
            self.next_index.lemma_wf_finite();
            self.match_index.lemma_wf_finite();
            assert(self@.next_index.dom() =~= self@.match_index.dom());
        }
    }

    /// How many nodes, this leader included, have replicated up to `index`.
    pub fn replication_count(&self, index: usize) -> (r: usize)
        requires
            self.wf(),
            self@.match_index.len() < usize::MAX,
        ensures
            r == self@.replication_count(index),
    {
        let count = self.match_index.count_at_least(index);
        count + 1
    }

    /// Apply entries sent by a leader (follower side). The entry before them
    /// (at 1-based position `prev_log_index`, if not 0) must exist and have
    /// term `prev_log_term`; then the log is cut after it and `entries` are
    /// appended, and their number is returned. Otherwise nothing changes.
    pub fn apply_entries(&mut self, prev_log_index: usize, prev_log_term: u64, entries: Vec<
        LogEntry,
    >) -> (r: Result<usize, String>)
        requires
            old(self).wf(),
        ensures
            final(self).wf(),
            ({
                let (next, result) = old(self)@.apply_entries(
                    prev_log_index,
                    prev_log_term,
                    entries_view(entries@),
                );
                &&& final(self)@ == next
                &&& match r {
                    Ok(n) => result == Ok::<usize, Seq<char>>(n),
                    Err(msg) => result == Err::<usize, Seq<char>>(msg@),
                }
            }),
    {
        if prev_log_index > 0 {
            if prev_log_index - 1 < self.log.len() {
                if self.log[prev_log_index - 1].term != prev_log_term {
                    return Err("log term mismatch".to_string());
                }
            } else {
                return Err("log missing previous entry".to_string());
            }
        }
        let ghost incoming = entries@;
        let new_count = entries.len();
        let mut rest = entries;
        self.log.truncate(prev_log_index);
        self.log.append(&mut rest);
        assert(self@.log =~= old(self)@.log.take(prev_log_index as int) + entries_view(incoming));
        Ok(new_count)
    }
}

/// The leader's log is append-only: `append` keeps every existing entry in
/// place and adds exactly one entry, of the current term, at the end.
pub proof fn lemma_append_only(r: ReplicationView, data: Seq<u8>)
    ensures
        r.append(data).log.len() == r.log.len() + 1,
        r.append(data).log.take(r.log.len() as int) == r.log,
        r.append(data).log.last() == r.next_entry(data),
        r.append(data).log.last().term == r.current_term,
{
    assert(r.append(data).log.take(r.log.len() as int) =~= r.log);
}

/// The follower's consistency check: entries are accepted only when the
/// follower holds the entry before them with the expected term; then its
/// log up to that entry is kept and the new entries follow it. A rejected
/// request leaves the follower untouched.
pub proof fn lemma_apply_entries_log_matching(
    r: ReplicationView,
    prev_log_index: usize,
    prev_log_term: u64,
    entries: Seq<EntryView>,
)
    ensures
        ({
            let (r2, result) = r.apply_entries(prev_log_index, prev_log_term, entries);
            &&& result is Ok ==> {
                &&& prev_log_index <= r.log.len()
                &&& prev_log_index > 0 ==> r.log[prev_log_index - 1].term == prev_log_term
                &&& r2.log.take(prev_log_index as int) == r.log.take(prev_log_index as int)
                &&& r2.log.skip(prev_log_index as int) == entries
                &&& prev_log_index > 0 ==> r2.log[prev_log_index - 1].term == prev_log_term
            }
            &&& result is Err ==> r2 == r
        }),
{
    let (r2, result) = r.apply_entries(prev_log_index, prev_log_term, entries);
    if result is Ok {
        assert(r2.log.take(prev_log_index as int) =~= r.log.take(prev_log_index as int));
        assert(r2.log.skip(prev_log_index as int) =~= entries);
    }
}

/// Once a follower confirms replication up to `index`, nothing at or below
/// `index` is sent to it again.
pub proof fn lemma_confirmed_entries_not_resent(r: ReplicationView, follower_id: Seq<char>, index: usize)
    requires
        r.next_index.contains_key(follower_id),
        index < usize::MAX,
    ensures
        forall|i: int|
            0 <= i < r.confirm_replication(follower_id, index).entries_for(follower_id).len()
                ==> #[trigger] r.confirm_replication(follower_id, index).entries_for(
                follower_id,
            )[i].index > index,
{
    let r2 = r.confirm_replication(follower_id, index);
    let start = r2.next_start(follower_id);
    assert(start == index + 1);
    let pred = |e: EntryView| e.index >= start;
    assert forall|i: int| 0 <= i < r2.entries_for(follower_id).len() implies #[trigger] r2.entries_for(
        follower_id,
    )[i].index > index by {
        r2.log.lemma_filter_pred(pred, i);
    }
}

/// A follower's match index never decreases, and after a confirmation it
/// reaches at least the confirmed index.
pub proof fn lemma_match_index_never_decreases(r: ReplicationView, follower_id: Seq<char>, index: usize)
    requires
        r.inv(),
        r.match_index.contains_key(follower_id),
    ensures
        r.confirm_replication(follower_id, index).match_index[follower_id]
            >= r.match_index[follower_id],
        r.confirm_replication(follower_id, index).match_index[follower_id] >= index,
{
    assert(r.next_index.dom().contains(follower_id));
}

/// The leader always counts itself, and never more nodes than it tracks.
pub proof fn lemma_replication_count_bounds(r: ReplicationView, index: usize)
    requires
        r.inv(),
    ensures
        1 <= r.replication_count(index) <= r.match_index.len() + 1,
{
    vstd::set_lib::lemma_len_subset(keys_at_least(r.match_index, index), r.match_index.dom());
}

/// Counting replicas is monotone: a higher index is held by no more nodes.
pub proof fn lemma_replication_count_monotone(r: ReplicationView, low: usize, high: usize)
    requires
        r.inv(),
        low <= high,
    ensures
        r.replication_count(high) <= r.replication_count(low),
{
    vstd::set_lib::lemma_len_subset(keys_at_least(r.match_index, high), keys_at_least(r.match_index, low));
    vstd::set_lib::lemma_len_subset(keys_at_least(r.match_index, low), r.match_index.dom());
}

/// Adding a new follower adds one node holding index 0 (it has confirmed
/// nothing yet) and changes the count at every higher index not at all; the
/// new follower is sent the whole log, and the log and term are unchanged.
pub proof fn lemma_add_follower_counts(r: ReplicationView, follower_id: Seq<char>, index: usize)
    requires
        r.inv(),
        !r.next_index.contains_key(follower_id),
    ensures
        r.add_follower(follower_id).inv(),
        r.add_follower(follower_id).replication_count(0) == r.replication_count(0) + 1,
        index >= 1 ==> r.add_follower(follower_id).replication_count(index)
            == r.replication_count(index),
        r.add_follower(follower_id).entries_for(follower_id) == r.log.filter(
            |e: EntryView| e.index >= 1,
        ),
        r.add_follower(follower_id).log == r.log,
        r.add_follower(follower_id).current_term == r.current_term,
{
    let r2 = r.add_follower(follower_id);
    assert(!r.match_index.contains_key(follower_id));
    assert(r2.next_index.dom() =~= r2.match_index.dom());
    vstd::set_lib::lemma_len_subset(keys_at_least(r.match_index, 0), r.match_index.dom());
    vstd::set_lib::lemma_len_subset(keys_at_least(r.match_index, index), r.match_index.dom());
    assert(keys_at_least(r2.match_index, 0) =~= keys_at_least(r.match_index, 0).insert(follower_id));
    assert(!keys_at_least(r.match_index, 0).contains(follower_id));
    if index >= 1 {
        assert(keys_at_least(r2.match_index, index) =~= keys_at_least(r.match_index, index));
    }
}

/// On a leader, log indices are consecutive and 1-based: starting from a
/// log whose indices are their positions (such as a new engine's empty
/// log), any sequence of leader operations keeps every entry's index equal
/// to its 1-based position, and grows the log by at most one entry per
/// operation.
pub proof fn lemma_leader_indices_are_positions(r: ReplicationView, ops: Seq<LeaderOp>)
    requires
        indices_are_positions(r.log),
        r.log.len() + ops.len() < usize::MAX,
    ensures
        indices_are_positions(r.run(ops).log),
        r.log.len() <= r.run(ops).log.len() <= r.log.len() + ops.len(),
        r.run(ops).log.take(r.log.len() as int) == r.log,
    decreases ops.len(),
{
    if ops.len() > 0 {
        let next = r.step(ops[0]);
        let rest = ops.drop_first();
        assert(next.log.len() <= r.log.len() + 1);
        assert(next.log.take(r.log.len() as int) =~= r.log);
        assert(indices_are_positions(next.log));
        lemma_leader_indices_are_positions(next, rest);
        let last = next.run(rest);
        assert(r.run(ops) == last);
        assert forall|i: int| 0 <= i < r.log.len() implies last.log[i] == r.log[i] by {
            assert(last.log.take(next.log.len() as int)[i] == next.log[i]);
            assert(next.log.take(r.log.len() as int)[i] == r.log[i]);
        }
        assert(last.log.take(r.log.len() as int) =~= r.log);
    } else {
        assert(r.log.take(r.log.len() as int) =~= r.log);
    }
}

/// Confirming replication for a known follower sets its next index to one
/// past the confirmed index and its match index to the larger of its old
/// match index and the confirmed index; no other follower, and nothing else,
/// changes. Confirming for an unknown follower changes nothing.
pub proof fn lemma_confirm_replication_sets_indices(
    r: ReplicationView,
    follower_id: Seq<char>,
    index: usize,
    other: Seq<char>,
)
    requires
        r.inv(),
        index < usize::MAX,
    ensures
        ({
            let r2 = r.confirm_replication(follower_id, index);
            &&& r.next_index.contains_key(follower_id) ==> {
                &&& r2.next_index.contains_key(follower_id)
                &&& r2.next_index[follower_id] == index + 1
                &&& r2.match_index.contains_key(follower_id)
                &&& r2.match_index[follower_id] >= r.match_index[follower_id]
                &&& r2.match_index[follower_id] >= index
                &&& (r2.match_index[follower_id] == r.match_index[follower_id]
                    || r2.match_index[follower_id] == index)
            }
            &&& !r.next_index.contains_key(follower_id) ==> r2 == r
            &&& other != follower_id ==> {
                &&& r2.next_index.contains_key(other) == r.next_index.contains_key(other)
                &&& r2.match_index.contains_key(other) == r.match_index.contains_key(other)
                &&& r2.next_index[other] == r.next_index[other]
                &&& r2.match_index[other] == r.match_index[other]
            }
            &&& r2.log == r.log
            &&& r2.current_term == r.current_term
        }),
{
    assert(r.next_index.contains_key(follower_id) ==> r.match_index.contains_key(follower_id));
}

/// A follower counts as holding `bound` after confirming `index` exactly
/// when its old match index or `index` reaches `bound`.
pub proof fn lemma_confirmed_follower_counts(
    r: ReplicationView,
    follower_id: Seq<char>,
    index: usize,
    bound: usize,
)
    requires
        r.inv(),
        r.next_index.contains_key(follower_id),
        index < usize::MAX,
    ensures
        keys_at_least(r.confirm_replication(follower_id, index).match_index, bound).contains(
            follower_id,
        ) <==> (r.match_index[follower_id] >= bound || index >= bound),
{
    assert(r.match_index.contains_key(follower_id));
}

/// The replication count is one (the leader) plus the number of tracked
/// followers whose match index is at least the given index.
pub proof fn lemma_replication_count_is_leader_plus_followers(r: ReplicationView, index: usize)
    ensures
        r.replication_count(index) == 1 + r.match_index.dom().filter(
            |f: Seq<char>| r.match_index[f] >= index,
        ).len(),
{
}

/// The follower's consistency check accepts every consistent request:
/// when `prev_log_index` is 0, or the log holds an entry at that 1-based
/// position with term `prev_log_term`, the result is `Ok` with the number of
/// entries, and the log becomes its first `prev_log_index` entries followed
/// by `entries`. It refuses exactly the other requests: a missing entry
/// (position beyond the log) and a term mismatch, each with its message.
pub proof fn lemma_apply_entries_accepts_consistent(
    r: ReplicationView,
    prev_log_index: usize,
    prev_log_term: u64,
    entries: Seq<EntryView>,
)
    requires
        entries.len() <= usize::MAX,
    ensures
        ({
            let (r2, result) = r.apply_entries(prev_log_index, prev_log_term, entries);
            let consistent = prev_log_index == 0 || (prev_log_index <= r.log.len()
                && r.log[prev_log_index - 1].term == prev_log_term);
            &&& consistent ==> {
                &&& result == Ok::<usize, Seq<char>>(entries.len() as usize)
                &&& r2.log.len() == prev_log_index + entries.len()
                &&& forall|i: int| 0 <= i < prev_log_index ==> #[trigger] r2.log[i] == r.log[i]
                &&& forall|i: int|
                    0 <= i < entries.len() ==> #[trigger] r2.log[prev_log_index + i] == entries[i]
                &&& r2.next_index == r.next_index
                &&& r2.match_index == r.match_index
                &&& r2.current_term == r.current_term
            }
            &&& prev_log_index > r.log.len() ==> result == Err::<usize, Seq<char>>(
                "log missing previous entry"@,
            ) && r2 == r
            &&& (0 < prev_log_index <= r.log.len() && r.log[prev_log_index - 1].term
                != prev_log_term) ==> result == Err::<usize, Seq<char>>("log term mismatch"@)
                && r2 == r
        }),
{
}

/// `append(data)` adds exactly one entry at the end of the log, carrying
/// `data` unchanged as its payload, the current term, and the index one past
/// the old length; earlier entries and the followers are untouched.
pub proof fn lemma_append_adds_given_payload(r: ReplicationView, data: Seq<u8>)
    requires
        r.log.len() < usize::MAX,
    ensures
        r.append(data).log.len() == r.log.len() + 1,
        r.append(data).log[r.log.len() as int].data == data,
        r.append(data).log[r.log.len() as int].term == r.current_term,
        r.append(data).log[r.log.len() as int].index == r.log.len() + 1,
        forall|i: int| 0 <= i < r.log.len() ==> #[trigger] r.append(data).log[i] == r.log[i],
        r.next_entry(data).data == data,
        r.append(data).next_index == r.next_index,
        r.append(data).match_index == r.match_index,
        r.append(data).current_term == r.current_term,
{
}

/// Adding a follower makes it known with next index 1 and match index 0,
/// and leaves every other follower, the log and the term as they were.
pub proof fn lemma_add_follower_starts_from_scratch(
    r: ReplicationView,
    follower_id: Seq<char>,
    other: Seq<char>,
)
    ensures
        r.add_follower(follower_id).next_index.contains_key(follower_id),
        r.add_follower(follower_id).next_index[follower_id] == 1,
        r.add_follower(follower_id).match_index.contains_key(follower_id),
        r.add_follower(follower_id).match_index[follower_id] == 0,
        other != follower_id ==> r.add_follower(follower_id).next_index.contains_key(other)
            == r.next_index.contains_key(other) && r.add_follower(follower_id).next_index[other]
            == r.next_index[other] && r.add_follower(follower_id).match_index.contains_key(other)
            == r.match_index.contains_key(other) && r.add_follower(follower_id).match_index[other]
            == r.match_index[other],
        r.add_follower(follower_id).log == r.log,
        r.add_follower(follower_id).current_term == r.current_term,
{
}

/// The entries sent to a follower are exactly the log's entries whose index
/// is at least the follower's next index (1 for an unknown follower): every
/// sent entry is in the log and qualifies, every qualifying log entry is
/// sent, and none is sent twice more often than it occurs in the log.
pub proof fn lemma_entries_for_selects_from_next_index(r: ReplicationView, follower_id: Seq<char>)
    ensures
        ({
            let start: int = if r.next_index.contains_key(follower_id) {
                r.next_index[follower_id] as int
            } else {
                1
            };
            let sent = r.entries_for(follower_id);
            &&& forall|i: int| 0 <= i < sent.len() ==> #[trigger] sent[i].index >= start
            &&& forall|i: int| 0 <= i < sent.len() ==> r.log.contains(#[trigger] sent[i])
            &&& forall|i: int| 0 <= i < r.log.len() && r.log[i].index >= start ==> sent.contains(
                #[trigger] r.log[i],
            )
            &&& sent.len() <= r.log.len()
        }),
{
    let start = r.next_start(follower_id);
    let pred = |e: EntryView| e.index >= start;
    let sent = r.log.filter(pred);
    assert forall|i: int| 0 <= i < sent.len() implies #[trigger] sent[i].index >= start && r.log.contains(
        sent[i],
    ) by {
        r.log.lemma_filter_pred(pred, i);
        assert(sent.contains(sent[i]));
        r.log.lemma_filter_contains_rev(pred, sent[i]);
    }
    assert forall|i: int| 0 <= i < r.log.len() && r.log[i].index >= start implies sent.contains(
        #[trigger] r.log[i],
    ) by {
        r.log.lemma_filter_contains(pred, i);
    }
    r.log.lemma_filter_len(pred);
}

} // verus!
