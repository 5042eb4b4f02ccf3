//! Selecting a mailbox: loading its latest snapshot, replaying its change
//! log into a session view, and reporting what changed between polls.

use vstd::prelude::*;

use crate::flags::{Flag, has_flag};
use crate::ids::{Cid, Modseq, Uid, MAX_UID};
use crate::rollup::{RollupInfo, expunge_before_cid, expunge_floor};
use crate::state::{
    MailboxState, Mutation, StateView, Transaction, empty_state, expunged_after,
    lemma_nothing_after_last, lemma_replay_covers, lemma_replay_stale,
    lemma_replay_wf, lemma_visible_below, modified_after, replay, report_modseq_raw, state_wf, visible,
};

verus! {

/// The errors the engine reports.
#[derive(Clone, Copy, Debug, PartialEq, Eq, Structural)]
pub enum Error {
    /// The mailbox does not exist.
    NxMailbox,
    /// The mailbox cannot be selected.
    MailboxUnselectable,
    /// A change was attempted on a mailbox opened read-only.
    MailboxReadOnly,
    /// A sequence number or UID names no message.
    NxMessage,
    /// A transaction of the change log could not be decoded.
    CorruptTransaction,
    /// Every CID has been used.
    CidsExhausted,
}

/// A mailbox before selection: its identity, access mode, the state of its
/// latest snapshot where one could be read, and its change log.
#[derive(Debug)]
pub struct StatelessMailbox {
    uid_validity: u32,
    read_only: bool,
    snapshot: Option<MailboxState>,
    changes: Vec<Transaction>,
    /// The CID of a transaction that could not be decoded; nothing past it
    /// is replayed, and nothing more is committed.
    corrupt_at: Option<Cid>,
}

/// The change log: CIDs positive and strictly ascending.
pub open spec fn log_wf(changes: Seq<Transaction>) -> bool {
    crate::state::valid_history(changes)
}

/// Whether transaction `t` appends the message stored under `hash`.
pub open spec fn appends(t: Transaction, hash: Seq<u8>) -> bool {
    match t.mutation {
        Mutation::Append { hash: h, .. } => h@ == hash,
        _ => false,
    }
}

/// Whether a transaction of `changes` appends the message stored under
/// `hash`.
pub open spec fn log_references(changes: Seq<Transaction>, hash: Seq<u8>) -> bool {
    exists|i: int| 0 <= i < changes.len() && appends(#[trigger] changes[i], hash)
}

/// Whether two mailboxes hold the same identity, mode, snapshot and log.
pub open spec fn same_mailbox(a: StatelessMailbox, b: StatelessMailbox) -> bool {
    &&& a.spec_uid_validity() == b.spec_uid_validity()
    &&& a.spec_read_only() == b.spec_read_only()
    &&& a.spec_snapshot() == b.spec_snapshot()
    &&& a.spec_changes() == b.spec_changes()
    &&& a.spec_corrupt_at() == b.spec_corrupt_at()
}

/// The greatest CID of the log, or 0.
pub open spec fn log_max_cid(changes: Seq<Transaction>) -> u32 {
    if changes.len() == 0 {
        0
    } else {
        changes.last().cid.0
    }
}

impl StatelessMailbox {
    pub closed spec fn spec_uid_validity(&self) -> u32 {
        self.uid_validity
    }

    pub closed spec fn spec_read_only(&self) -> bool {
        self.read_only
    }

    /// The model of the latest snapshot, if any.
    pub closed spec fn spec_snapshot(&self) -> Option<StateView> {
        match self.snapshot {
            Some(s) => Some(s@),
            None => None,
        }
    }

    /// The change log.
    pub closed spec fn spec_changes(&self) -> Seq<Transaction> {
        self.changes@
    }

    pub closed spec fn spec_corrupt_at(&self) -> Option<Cid> {
        self.corrupt_at
    }

    pub open spec fn wf(&self) -> bool {
        &&& log_wf(self.spec_changes())
        &&& self.spec_corrupt_at().is_some() ==> log_max_cid(self.spec_changes()) < self.spec_corrupt_at().unwrap().0
        &&& self.spec_snapshot().is_some() ==> state_wf(self.spec_snapshot().unwrap())
    }

    /// The state selection starts from: the snapshot, or the empty state.
    pub open spec fn start_state(&self) -> StateView {
        match self.spec_snapshot() {
            Some(s) => s,
            None => empty_state(self.spec_uid_validity()),
        }
    }

    /// A mailbox with no snapshot and an empty change log.
    pub fn new(uid_validity: u32, read_only: bool) -> (r: StatelessMailbox)
        ensures
            r.wf(),
            r.spec_uid_validity() == uid_validity,
            r.spec_read_only() == read_only,
            r.spec_snapshot().is_none(),
            r.spec_changes().len() == 0,
            r.spec_corrupt_at().is_none(),
    {
        StatelessMailbox { uid_validity, read_only, snapshot: None, changes: Vec::new(), corrupt_at: None }
    }

    /// Records that the transaction `cid`, past every one of the log, could
    /// not be decoded. The log then takes no more transactions. Refused
    /// where a corrupt transaction is already recorded or `cid` is not past
    /// the log.
    pub fn mark_corrupt(&mut self, cid: Cid) -> (r: bool)
        requires
            old(self).wf(),
        ensures
            final(self).wf(),
            final(self).spec_snapshot() == old(self).spec_snapshot(),
            final(self).spec_uid_validity() == old(self).spec_uid_validity(),
            final(self).spec_read_only() == old(self).spec_read_only(),
            final(self).spec_changes() == old(self).spec_changes(),
            r == (old(self).spec_corrupt_at().is_none() && cid.0 > log_max_cid(old(self).spec_changes())),
            r ==> final(self).spec_corrupt_at() == Some(cid),
            !r ==> final(self).spec_corrupt_at() == old(self).spec_corrupt_at(),
    {
        let max: u32 = if self.changes.len() == 0 {
            0
        } else {
            self.changes[self.changes.len() - 1].cid.0
        };
        if self.corrupt_at.is_some() || cid.0 <= max {
            return false;
        }
        self.corrupt_at = Some(cid);
        true
    }

    /// The CID of the transaction that could not be decoded, if any.
    pub fn corrupt_at(&self) -> (r: Option<Cid>)
        ensures
            r == self.spec_corrupt_at(),
    {
        self.corrupt_at
    }

    pub fn uid_validity(&self) -> (r: u32)
        ensures
            r == self.spec_uid_validity(),
    {
        self.uid_validity
    }

    pub fn read_only(&self) -> (r: bool)
        ensures
            r == self.spec_read_only(),
    {
        self.read_only
    }

    /// The change log, ascending by CID.
    pub fn changes(&self) -> (r: &Vec<Transaction>)
        ensures
            r@ == self.spec_changes(),
    {
        &self.changes
    }

    /// Installs the state read from the latest rollup.
    pub fn set_snapshot(&mut self, state: MailboxState)
        requires
            old(self).wf(),
            state_wf(state@),
        ensures
            final(self).wf(),
            final(self).spec_snapshot() == Some(state@),
            final(self).spec_changes() == old(self).spec_changes(),
            final(self).spec_corrupt_at() == old(self).spec_corrupt_at(),
            final(self).spec_uid_validity() == old(self).spec_uid_validity(),
            final(self).spec_read_only() == old(self).spec_read_only(),
    {
        self.snapshot = Some(state);
    }

    /// Adds a transaction found in the change log. One whose CID is not past
    /// the greatest of the log is refused and handed back.
    pub fn add_change(&mut self, tx: Transaction) -> (r: Result<(), Transaction>)
        requires
            old(self).wf(),
        ensures
            final(self).wf(),
            final(self).spec_snapshot() == old(self).spec_snapshot(),
            final(self).spec_uid_validity() == old(self).spec_uid_validity(),
            final(self).spec_read_only() == old(self).spec_read_only(),
            final(self).spec_corrupt_at() == old(self).spec_corrupt_at(),
            r.is_ok() == (old(self).spec_corrupt_at().is_none() && tx.cid.0 > log_max_cid(old(self).spec_changes())),
            r.is_ok() ==> final(self).spec_changes() == old(self).spec_changes().push(tx),
            r.is_err() ==> final(self).spec_changes() == old(self).spec_changes() && r == Err::<(), Transaction>(tx),
    {
        let max: u32 = if self.changes.len() == 0 {
            0
        } else {
            self.changes[self.changes.len() - 1].cid.0
        };
        if self.corrupt_at.is_some() || tx.cid.0 <= max {
            return Err(tx);
        }
        proof {
            let c = self.changes@;
            let c2 = c.push(tx);
            assert forall|i: int, j: int| 0 <= i < j < c2.len() implies (#[trigger] c2[i]).cid.0 < (#[trigger] c2[j]).cid.0 by {
                if j == c.len() && i < c.len() - 1 {
                    assert(c[i].cid.0 < c[c.len() - 1].cid.0);
                }
            }
            assert forall|i: int| 0 <= i < c2.len() implies (#[trigger] c2[i]).cid.0 > 0 by {
                if i < c.len() {
                    assert(c2[i] == c[i]);
                }
            }
        }
        self.changes.push(tx);
        Ok(())
    }

    /// Commits a mutation: it gets the CID after the greatest of the log,
    /// with that CID as its parent.
    pub fn commit(&mut self, mutation: Mutation, committed_at: u64) -> (r: Result<Cid, Error>)
        requires
            old(self).wf(),
        ensures
            final(self).wf(),
            final(self).spec_snapshot() == old(self).spec_snapshot(),
            final(self).spec_uid_validity() == old(self).spec_uid_validity(),
            final(self).spec_read_only() == old(self).spec_read_only(),
            final(self).spec_corrupt_at() == old(self).spec_corrupt_at(),
            old(self).spec_read_only() ==> r == Err::<Cid, Error>(Error::MailboxReadOnly),
            !old(self).spec_read_only() && old(self).spec_corrupt_at().is_some()
                ==> r == Err::<Cid, Error>(Error::CorruptTransaction),
            !old(self).spec_read_only() && old(self).spec_corrupt_at().is_none()
                && log_max_cid(old(self).spec_changes()) == u32::MAX
                ==> r == Err::<Cid, Error>(Error::CidsExhausted),
            !old(self).spec_read_only() && old(self).spec_corrupt_at().is_none()
                && log_max_cid(old(self).spec_changes()) < u32::MAX
                ==> r == Ok::<Cid, Error>(Cid((log_max_cid(old(self).spec_changes()) + 1) as u32))
                && final(self).spec_changes() == old(self).spec_changes().push(
                    Transaction {
                        cid: Cid((log_max_cid(old(self).spec_changes()) + 1) as u32),
                        parent_cid: Cid(log_max_cid(old(self).spec_changes())),
                        committed_at,
                        mutation,
                    },
                ),
            r.is_err() ==> final(self).spec_changes() == old(self).spec_changes(),
    {
        if self.read_only {
            return Err(Error::MailboxReadOnly);
        }
        if self.corrupt_at.is_some() {
            return Err(Error::CorruptTransaction);
        }
        let max: u32 = if self.changes.len() == 0 {
            0
        } else {
            self.changes[self.changes.len() - 1].cid.0
        };
        if max == u32::MAX {
            return Err(Error::CidsExhausted);
        }
        let cid = Cid(max + 1);
        let tx = Transaction { cid, parent_cid: Cid(max), committed_at, mutation };
        match self.add_change(tx) {
            Ok(()) => Ok(cid),
            Err(_) => Err(Error::CidsExhausted),
        }
    }

    /// Removes from the log every transaction with a CID at or below
    /// `expunge_before_cid`.
    pub fn gc_changes(&mut self, expunge_before_cid: Cid)
        requires
            old(self).wf(),
        ensures
            final(self).wf(),
            final(self).spec_snapshot() == old(self).spec_snapshot(),
            final(self).spec_uid_validity() == old(self).spec_uid_validity(),
            final(self).spec_read_only() == old(self).spec_read_only(),
            final(self).spec_corrupt_at() == old(self).spec_corrupt_at(),
            forall|i: int| 0 <= i < final(self).spec_changes().len()
                ==> (#[trigger] final(self).spec_changes()[i]).cid.0 > expunge_before_cid.0,
            final(self).spec_changes() == old(self).spec_changes().filter(
                |t: Transaction| t.cid.0 > expunge_before_cid.0,
            ),
    {
        let ghost c = self.changes@;
        let ghost pred = |t: Transaction| t.cid.0 > expunge_before_cid.0;
        let mut n: usize = 0;
        while n < self.changes.len() && self.changes[n].cid.0 <= expunge_before_cid.0
            invariant
                self.changes@ == c,
                0 <= n <= c.len(),
                forall|i: int| 0 <= i < n ==> (#[trigger] c[i]).cid.0 <= expunge_before_cid.0,
            decreases c.len() - n,
        {
            n = n + 1;
        }
        let mut kept: Vec<Transaction> = Vec::new();
        let mut rest = self.changes.split_off(n);
        std::mem::swap(&mut kept, &mut rest);
        self.changes = kept;
        proof {
            assert(self.changes@ == c.subrange(n as int, c.len() as int));
            assert forall|i: int| 0 <= i < self.changes@.len() implies (#[trigger] self.changes@[i]).cid.0 > expunge_before_cid.0 by {
                assert(self.changes@[i] == c[n + i]);
                if n < c.len() {
                    assert(c[n as int].cid.0 > expunge_before_cid.0);
                    if i > 0 {
                        assert(c[n as int].cid.0 < c[n + i].cid.0);
                    }
                }
            }
            lemma_filter_split(c, n as int, pred);
            assert forall|i: int, j: int| 0 <= i < j < self.changes@.len() implies (#[trigger] self.changes@[i]).cid.0 < (#[trigger] self.changes@[j]).cid.0 by {
                assert(self.changes@[i] == c[n + i]);
                assert(self.changes@[j] == c[n + j]);
            }
        }
    }

    /// Whether the message stored under `hash` is still needed: a
    /// transaction of the log appends it, or the snapshot holds it.
    pub fn message_referenced(&self, hash: &[u8]) -> (r: bool)
        ensures
            r == (log_references(self.spec_changes(), hash@) || (self.spec_snapshot().is_some()
                && crate::state::state_references(self.spec_snapshot().unwrap(), hash@))),
    {
        let mut i: usize = 0;
        while i < self.changes.len()
            invariant
                0 <= i <= self.changes@.len(),
                forall|j: int| 0 <= j < i ==> !appends(#[trigger] self.changes@[j], hash@),
            decreases self.changes@.len() - i,
        {
            if let Mutation::Append { hash: h, .. } = &self.changes[i].mutation {
                if crate::state::bytes_eq(h.as_slice(), hash) {
                    assert(appends(self.changes@[i as int], hash@));
                    return true;
                }
            }
            i = i + 1;
        }
        match &self.snapshot {
            Some(state) => state.references(hash),
            None => false,
        }
    }

    /// Brings this mailbox into stateful mode: the session starts from the
    /// snapshot (or the empty state) and replays the change log.
    pub fn select(self) -> (r: Result<(StatefulMailbox, SelectResponse), Error>)
        requires
            self.wf(),
        ensures
            r.is_ok() == self.spec_corrupt_at().is_none(),
            r.is_err() ==> r == Err::<(StatefulMailbox, SelectResponse), Error>(Error::CorruptTransaction),
            r.is_ok() ==> ({
                let (m, resp) = r.unwrap();
                &&& m.wf()
                &&& m.spec_state() == replay(self.start_state(), self.spec_changes())
                &&& same_mailbox(m.spec_mailbox(), self)
                &&& m.spec_seqnums() == visible(m.spec_state().messages)
                &&& resp.exists == visible(m.spec_state().messages).len()
                &&& resp.uidnext.0 == m.spec_state().next_uid
                &&& resp.uidvalidity == self.spec_uid_validity()
                &&& resp.read_only == self.spec_read_only()
                &&& resp.flags@ == m.spec_state().flags
                &&& resp.recent == m.spec_recent().len()
                &&& (resp.max_modseq.is_some() ==> resp.max_modseq.unwrap().raw() == report_modseq_raw(m.spec_state()))
                &&& resp.max_modseq.is_none() == (m.spec_state().last_cid == 0 || visible(m.spec_state().messages).len() == 0)
                &&& resp.unseen == first_unseen(m.spec_state())
            }),
    {
        StatefulMailbox::select(self)
    }
}

/// What `SELECT`, `EXAMINE` and `STATUS` report.
#[derive(Debug)]
pub struct SelectResponse {
    /// The flag table, in `flag_id` order.
    pub flags: Vec<Flag>,
    /// The number of messages not expunged.
    pub exists: usize,
    /// The number of messages recent to this session.
    pub recent: usize,
    /// The sequence number of the first message without `\Seen`.
    pub unseen: Option<usize>,
    pub uidnext: Uid,
    pub uidvalidity: u32,
    pub read_only: bool,
    /// The modseq reported to clients; `None` while no message is visible.
    pub max_modseq: Option<Modseq>,
}

/// What changed between two polls.
#[derive(Debug, PartialEq, Eq)]
pub struct PollResponse {
    /// `(sequence number, UID)` of each message expunged, in descending
    /// sequence-number order of the table before the poll.
    pub expunge: Vec<(usize, Uid)>,
    /// The new message count, where new messages arrived.
    pub exists: Option<usize>,
    /// The new count of recent messages, where new messages arrived.
    pub recent: Option<usize>,
    /// The UIDs, ascending, of messages already known whose flags changed.
    pub fetch: Vec<Uid>,
    /// The new highest modseq, where a change was applied.
    pub max_modseq: Option<Modseq>,
}

impl PollResponse {
    /// Whether nothing changed.
    pub open spec fn spec_is_empty(&self) -> bool {
        &&& self.expunge@.len() == 0
        &&& self.exists.is_none()
        &&& self.recent.is_none()
        &&& self.fetch@.len() == 0
        &&& self.max_modseq.is_none()
    }

    /// Whether nothing changed.
    pub fn is_empty(&self) -> (r: bool)
        ensures
            r == self.spec_is_empty(),
    {
        self.expunge.len() == 0 && self.exists.is_none() && self.recent.is_none()
            && self.fetch.len() == 0 && self.max_modseq.is_none()
    }
}

/// The data a QRESYNC client needs to catch up.
#[derive(Debug, PartialEq, Eq)]
pub struct QresyncResponse {
    /// UIDs, ascending, expunged after the client's modseq.
    pub expunged: Vec<Uid>,
    /// UIDs, ascending, of messages not expunged whose flags changed after
    /// the client's modseq.
    pub changed: Vec<Uid>,
    /// The current modseq reported to clients.
    pub highest_modseq: Option<Modseq>,
}

/// Whether message `uid` carries `\Seen`.
pub open spec fn seen_on(s: StateView, uid: u32) -> bool {
    exists|fid: int| 0 <= fid < s.flags.len() && crate::flags::flag_same(#[trigger] s.flags[fid], Flag::Seen)
        && crate::state::flag_set_on(s, fid, uid)
}

/// Whether `r` is the sequence number of the first visible message without
/// `\Seen`, or `None` where every visible message has it.
pub open spec fn is_first_unseen(s: StateView, r: Option<usize>) -> bool {
    let vis = visible(s.messages);
    match r {
        Some(n) => 1 <= n <= vis.len() && !seen_on(s, vis[n - 1])
            && forall|j: int| 0 <= j < n - 1 ==> seen_on(s, #[trigger] vis[j]),
        None => forall|j: int| 0 <= j < vis.len() ==> seen_on(s, #[trigger] vis[j]),
    }
}

/// The sequence number of the first visible message without `\Seen`.
pub open spec fn first_unseen(s: StateView) -> Option<usize> {
    if exists|r: Option<usize>| is_first_unseen(s, r) {
        choose|r: Option<usize>| is_first_unseen(s, r)
    } else {
        None
    }
}

/// `(sequence number, UID)` of each UID of `before` from position `i` on
/// that `after` lacks, descending.
pub open spec fn gone_desc(before: Seq<Uid>, after: Seq<u32>, i: int) -> Seq<(usize, Uid)>
    decreases before.len() - i,
{
    if i >= before.len() || i < 0 {
        Seq::empty()
    } else {
        let rest = gone_desc(before, after, i + 1);
        if after.contains(before[i].0) {
            rest
        } else {
            rest.push(((i + 1) as usize, before[i]))
        }
    }
}

/// The UIDs of `uids` above `frontier`, in order.
pub open spec fn above(uids: Seq<u32>, frontier: u32) -> Seq<Uid>
    decreases uids.len(),
{
    if uids.len() == 0 {
        Seq::empty()
    } else if uids.last() > frontier {
        above(uids.drop_last(), frontier).push(Uid(uids.last()))
    } else {
        above(uids.drop_last(), frontier)
    }
}

pub open spec fn uids_of(s: Seq<Uid>) -> Seq<u32> {
    s.map_values(|u: Uid| u.0)
}

/// What a poll does, from session `pre` to session `post`, reporting `r`:
/// the log is replayed; expunged messages are reported by their sequence
/// numbers before the poll (descending); the new message count where
/// messages arrived; the messages already known whose flags changed; and a
/// poll with nothing new to replay reports nothing.
pub open spec fn poll_outcome(pre: StatefulMailbox, post: StatefulMailbox, r: PollResponse) -> bool {
    &&& post.spec_state() == replay(pre.spec_state(), pre.spec_mailbox().spec_changes())
    &&& r.expunge@ == gone_desc(pre.spec_seqnum_uids(), visible(post.spec_state().messages), 0)
    &&& r.fetch@ == modified_after(
        post.spec_state().messages,
        pre.spec_state().last_cid,
        pre.spec_state().next_uid,
    )
    &&& r.exists.is_some() == (visible(post.spec_state().messages).len() > 0
        && visible(post.spec_state().messages).last() >= pre.spec_state().next_uid)
    &&& r.exists.is_some() ==> r.exists.unwrap() == visible(post.spec_state().messages).len()
    &&& r.recent.is_some() == r.exists.is_some()
    &&& post.spec_recent() == pre.spec_recent() + above(
        visible(post.spec_state().messages),
        pre.spec_frontier(),
    )
    &&& r.recent.is_some() ==> r.recent.unwrap() == post.spec_recent().len()
    &&& post.spec_state().last_cid == pre.spec_state().last_cid ==> r.max_modseq.is_none()
    &&& r.max_modseq.is_some() ==> r.max_modseq.unwrap().raw() == report_modseq_raw(post.spec_state())
    &&& pre.settled() ==> r.spec_is_empty()
}

/// A selected mailbox: the state this session has replayed, and the view
/// of it the client was last told of.
#[derive(Debug)]
pub struct StatefulMailbox {
    s: StatelessMailbox,
    state: MailboxState,
    /// UIDs above this one become recent to this session when first seen.
    recency_frontier: u32,
    /// The visible UIDs as last reported: sequence number `i + 1` is at
    /// position `i`.
    seqnums: Vec<Uid>,
    recent: Vec<Uid>,
    /// How many transactions polls have replayed; a hint to take a rollup.
    suggest_rollup: u64,
}

impl StatefulMailbox {
    pub closed spec fn spec_mailbox(&self) -> StatelessMailbox {
        self.s
    }

    pub closed spec fn spec_state(&self) -> StateView {
        self.state@
    }

    pub closed spec fn spec_seqnums(&self) -> Seq<u32> {
        uids_of(self.seqnums@)
    }

    pub closed spec fn spec_seqnum_uids(&self) -> Seq<Uid> {
        self.seqnums@
    }

    pub closed spec fn spec_recent(&self) -> Seq<Uid> {
        self.recent@
    }

    pub closed spec fn spec_frontier(&self) -> u32 {
        self.recency_frontier
    }

    pub open spec fn wf(&self) -> bool {
        &&& self.spec_mailbox().wf()
        &&& state_wf(self.spec_state())
        &&& self.spec_seqnums() == visible(self.spec_state().messages)
    }

    /// Whether every transaction of the log has been replayed.
    pub open spec fn settled(&self) -> bool {
        forall|i: int| 0 <= i < self.spec_mailbox().spec_changes().len()
            ==> (#[trigger] self.spec_mailbox().spec_changes()[i]).cid.0 <= self.spec_state().last_cid
    }

    fn select(s: StatelessMailbox) -> (r: Result<(StatefulMailbox, SelectResponse), Error>)
        requires
            s.wf(),
        ensures
            r.is_ok() == s.spec_corrupt_at().is_none(),
            r.is_err() ==> r == Err::<(StatefulMailbox, SelectResponse), Error>(Error::CorruptTransaction),
            r.is_ok() ==> ({
                let (m, resp) = r.unwrap();
                &&& m.wf()
                &&& m.spec_state() == replay(s.start_state(), s.spec_changes())
                &&& same_mailbox(m.spec_mailbox(), s)
                &&& m.spec_seqnums() == visible(m.spec_state().messages)
                &&& resp.exists == visible(m.spec_state().messages).len()
                &&& resp.uidnext.0 == m.spec_state().next_uid
                &&& resp.uidvalidity == s.spec_uid_validity()
                &&& resp.read_only == s.spec_read_only()
                &&& resp.flags@ == m.spec_state().flags
                &&& resp.recent == m.spec_recent().len()
                &&& (resp.max_modseq.is_some() ==> resp.max_modseq.unwrap().raw() == report_modseq_raw(m.spec_state()))
                &&& resp.max_modseq.is_none() == (m.spec_state().last_cid == 0 || visible(m.spec_state().messages).len() == 0)
                &&& resp.unseen == first_unseen(m.spec_state())
            }),
    {
        let ghost input = s;
        let mut s = s;
        let had_snapshot = s.snapshot.is_some();
        let mut snapshot: Option<MailboxState> = None;
        std::mem::swap(&mut snapshot, &mut s.snapshot);
        assert(snapshot == input.snapshot);
        let state = match snapshot {
            Some(state) => state,
            None => MailboxState::new(s.uid_validity),
        };
        assert(state@ == input.start_state());
        let frontier: u32 = match state.max_modseq() {
            Some(m) => m.uid().0,
            None => 0,
        };
        let ghost start = state@;
        if had_snapshot {
            s.snapshot = Some(state.snapshot());
        }
        assert(same_mailbox(s, input));
        let seqnums = state.visible_uids();
        let mut this = StatefulMailbox {
            s,
            state,
            recency_frontier: frontier,
            seqnums,
            recent: Vec::new(),
            suggest_rollup: 0,
        };
        assert(this.spec_seqnums() =~= visible(this.spec_state().messages));
        this.replay_pending();
        if this.s.corrupt_at.is_some() {
            return Err(Error::CorruptTransaction);
        }
        let response = this.response();
        Ok((this, response))
    }

    /// Replays the transactions of the log not yet applied, and reports
    /// what changed since the last poll. Where the log holds a transaction
    /// that could not be decoded, the transactions before it are replayed
    /// and the poll fails.
    pub fn poll(&mut self) -> (r: Result<PollResponse, Error>)
        requires
            old(self).wf(),
        ensures
            final(self).wf(),
            final(self).settled(),
            same_mailbox(final(self).spec_mailbox(), old(self).spec_mailbox()),
            final(self).spec_state() == replay(old(self).spec_state(), old(self).spec_mailbox().spec_changes()),
            r.is_ok() == old(self).spec_mailbox().spec_corrupt_at().is_none(),
            r.is_ok() ==> poll_outcome(*old(self), *final(self), r.unwrap()),
            r.is_err() ==> r == Err::<PollResponse, Error>(Error::CorruptTransaction),
    {
        let delta = self.replay_pending();
        if self.s.corrupt_at.is_some() {
            Err(Error::CorruptTransaction)
        } else {
            Ok(delta)
        }
    }

    /// Replays the transactions of the log not yet applied, and reports
    /// what changed since the last poll.
    fn replay_pending(&mut self) -> (r: PollResponse)
        requires
            old(self).wf(),
        ensures
            final(self).wf(),
            final(self).settled(),
            same_mailbox(final(self).spec_mailbox(), old(self).spec_mailbox()),
            poll_outcome(*old(self), *final(self), r),
    {
        let ghost s0 = self.state@;
        let ghost before = self.seqnums@;
        let old_cid = self.state.last_cid().0;
        let old_next = self.state.next_uid().0;
        let n = self.s.changes.len();
        let mut i: usize = 0;
        while i < n
            invariant
                n == self.s.changes@.len(),
                0 <= i <= n,
                state_wf(self.state@),
                self.state@ == replay(s0, self.s.changes@.subrange(0, i as int)),
                self.s == old(self).s,
                self.seqnums@ == before,
                self.recent@ == old(self).recent@,
                self.recency_frontier == old(self).recency_frontier,
            decreases n - i,
        {
            assert(self.s.changes@.subrange(0, i + 1).drop_last() == self.s.changes@.subrange(0, i as int));
            if self.state.apply(&self.s.changes[i]) {
                if self.suggest_rollup < u64::MAX {
                    self.suggest_rollup = self.suggest_rollup + 1;
                }
            }
            i = i + 1;
        }
        assert(self.s.changes@.subrange(0, n as int) == self.s.changes@);
        proof {
            lemma_replay_covers(s0, self.s.changes@);
            lemma_replay_wf(s0, self.s.changes@);
        }
        let after = self.state.visible_uids();
        let ghost vis = visible(self.state@.messages);
        assert(uids_of(after@) =~= vis);

        let expunge = gone_pairs(&self.seqnums, &after);
        let has_new = after.len() > 0 && after[after.len() - 1].0 >= old_next;
        assert(after.len() > 0 ==> vis.last() == after@[after@.len() - 1].0);

        let frontier = self.recency_frontier;
        let mut k: usize = 0;
        let ghost recent0 = self.recent@;
        let ghost sf = self.state@;
        while k < after.len()
            invariant
                0 <= k <= after@.len(),
                self.state@ == sf,
                state_wf(sf),
                self.s == old(self).s,
                self.seqnums@ == before,
                self.recency_frontier == frontier,
                uids_of(after@) == vis,
                self.recent@ == recent0 + above(vis.subrange(0, k as int), frontier),
            decreases after@.len() - k,
        {
            assert(vis.subrange(0, k + 1).drop_last() == vis.subrange(0, k as int));
            assert(vis[k as int] == after@[k as int].0);
            if after[k].0 > frontier {
                self.recent.push(after[k]);
                assert(self.recent@ =~= recent0 + above(vis.subrange(0, k + 1), frontier));
            } else {
                assert(self.recent@ =~= recent0 + above(vis.subrange(0, k + 1), frontier));
            }
            k = k + 1;
        }
        assert(vis.subrange(0, after@.len() as int) == vis);
        if after.len() > 0 && after[after.len() - 1].0 > self.recency_frontier {
            self.recency_frontier = after[after.len() - 1].0;
        }

        let fetch = self.state.modified_after(old_cid, old_next);
        let exists = if has_new { Some(after.len()) } else { None };
        let recent = if has_new { Some(self.recent.len()) } else { None };
        let max_modseq = if self.state.last_cid().0 > old_cid {
            self.state.report_max_modseq()
        } else {
            None
        };
        self.seqnums = after;
        proof {
            if old(self).settled() {
                lemma_replay_stale(s0, self.s.changes@);
                assert(vis == uids_of(before));
                lemma_gone_none(before, vis, 0);
                lemma_nothing_after_last(s0.messages, s0.last_cid, s0.next_uid);
                lemma_visible_below(s0.messages, s0.next_uid);
                if vis.len() > 0 {
                    assert(vis.last() == vis[vis.len() - 1]);
                }
            }
        }
        PollResponse { expunge, exists, recent, fetch, max_modseq }
    }

    /// Commits a mutation through this session; the next poll observes it.
    pub fn commit(&mut self, mutation: Mutation, committed_at: u64) -> (r: Result<Cid, Error>)
        requires
            old(self).wf(),
        ensures
            final(self).wf(),
            final(self).spec_state() == old(self).spec_state(),
            old(self).spec_mailbox().spec_read_only() ==> r == Err::<Cid, Error>(Error::MailboxReadOnly),
            r.is_ok() ==> final(self).spec_mailbox().spec_changes().len() == old(self).spec_mailbox().spec_changes().len() + 1
                && final(self).spec_mailbox().spec_changes().last().cid == r.unwrap()
                && r.unwrap().0 == log_max_cid(old(self).spec_mailbox().spec_changes()) + 1,
            !old(self).spec_mailbox().spec_read_only() && old(self).spec_mailbox().spec_corrupt_at().is_some()
                ==> r == Err::<Cid, Error>(Error::CorruptTransaction),
            !old(self).spec_mailbox().spec_read_only() && old(self).spec_mailbox().spec_corrupt_at().is_none()
                && log_max_cid(old(self).spec_mailbox().spec_changes()) < u32::MAX ==> r.is_ok(),
            r.is_err() ==> final(self).spec_mailbox().spec_changes() == old(self).spec_mailbox().spec_changes(),
    {
        self.s.commit(mutation, committed_at)
    }

    /// The state as this session last replayed it.
    pub fn state(&self) -> (r: &MailboxState)
        ensures
            r@ == self.spec_state(),
    {
        &self.state
    }

    /// The mailbox this session was selected from.
    pub fn mailbox(&self) -> (r: &StatelessMailbox)
        ensures
            *r == self.spec_mailbox(),
    {
        &self.s
    }

    /// The UID of each sequence number as last reported: sequence number
    /// `i + 1` is at position `i`.
    pub fn seqnums(&self) -> (r: &Vec<Uid>)
        ensures
            r@ == self.spec_seqnum_uids(),
    {
        &self.seqnums
    }

    /// How many transactions polls have replayed; a hint to take a rollup.
    pub fn suggest_rollup(&self) -> u64 {
        self.suggest_rollup
    }

    /// The number of messages recent to this session.
    pub fn count_recent(&self) -> (r: usize)
        ensures
            r == self.spec_recent().len(),
    {
        self.recent.len()
    }

    /// What a client that last saw `modseq` under `uid_validity` needs to
    /// catch up: the UIDs expunged after it and the UIDs whose flags changed
    /// after it, by CID. `None` where `uid_validity` is not the mailbox's.
    pub fn qresync(&self, uid_validity: u32, modseq: Modseq) -> (r: Option<QresyncResponse>)
        requires
            self.wf(),
            modseq.valid(),
        ensures
            r.is_none() == (uid_validity != self.spec_state().uid_validity),
            r.is_some() ==> ({
                let q = r.unwrap();
                &&& q.expunged@ == expunged_after(self.spec_state().messages, modseq.cid_part())
                &&& q.changed@ == modified_after(self.spec_state().messages, modseq.cid_part(), MAX_UID)
                &&& q.highest_modseq.is_none() == (self.spec_state().last_cid == 0
                    || visible(self.spec_state().messages).len() == 0)
                &&& q.highest_modseq.is_some() ==> q.highest_modseq.unwrap().raw() == report_modseq_raw(self.spec_state())
            }),
    {
        if uid_validity != self.state.uid_validity() {
            return None;
        }
        let cid = modseq.cid().0;
        Some(QresyncResponse {
            expunged: self.state.expunged_after(cid),
            changed: self.state.modified_after(cid, MAX_UID),
            highest_modseq: self.state.report_max_modseq(),
        })
    }

    /// The sequence number of the first visible message without `\Seen`.
    fn first_unseen(&self) -> (r: Option<usize>)
        requires
            self.wf(),
        ensures
            r == first_unseen(self.spec_state()),
    {
        let ghost st = self.state@;
        let seen = self.state.flag_id(&Flag::Seen);
        let vis = self.state.visible_uids();
        let mut i: usize = 0;
        while i < vis.len()
            invariant
                state_wf(st),
                st == self.state@,
                0 <= i <= vis@.len(),
                vis@.len() == visible(st.messages).len(),
                forall|j: int| 0 <= j < vis@.len() ==> (#[trigger] vis@[j]).0 == visible(st.messages)[j],
                seen.is_none() == !has_flag(st.flags, Flag::Seen),
                seen.is_some() ==> seen.unwrap() < st.flags.len() && crate::flags::flag_same(st.flags[seen.unwrap() as int], Flag::Seen),
                forall|j: int| 0 <= j < i ==> seen_on(st, #[trigger] visible(st.messages)[j]),
            decreases vis@.len() - i,
        {
            let uid = vis[i];
            let is_seen = match seen {
                Some(fid) => self.state.test_flag(fid, uid),
                None => false,
            };
            proof {
                let u = visible(st.messages)[i as int];
                assert(uid.0 == u);
                if is_seen {
                    assert(seen_on(st, u));
                } else {
                    if seen_on(st, u) {
                        let fid = choose|fid: int| 0 <= fid < st.flags.len() && crate::flags::flag_same(#[trigger] st.flags[fid], Flag::Seen)
                            && crate::state::flag_set_on(st, fid, u);
                        assert(has_flag(st.flags, Flag::Seen));
                        let f0 = seen.unwrap() as int;
                        if fid != f0 {
                            if fid < f0 {
                                assert(!crate::flags::flag_same(st.flags[fid], st.flags[f0]));
                            } else {
                                assert(!crate::flags::flag_same(st.flags[f0], st.flags[fid]));
                            }
                        }
                    }
                }
            }
            if !is_seen {
                let r = Some(i + 1);
                assert(is_first_unseen(st, r));
                proof { lemma_first_unseen_unique(st, r); }
                return r;
            }
            i = i + 1;
        }
        assert(is_first_unseen(st, None));
        proof { lemma_first_unseen_unique(st, None); }
        None
    }

    fn response(&self) -> (resp: SelectResponse)
        requires
            self.wf(),
        ensures
            resp.exists == visible(self.spec_state().messages).len(),
            resp.uidnext.0 == self.spec_state().next_uid,
            resp.uidvalidity == self.spec_mailbox().spec_uid_validity(),
            resp.read_only == self.spec_mailbox().spec_read_only(),
            resp.flags@ == self.spec_state().flags,
            resp.recent == self.spec_recent().len(),
            resp.max_modseq.is_some() ==> resp.max_modseq.unwrap().raw() == report_modseq_raw(self.spec_state()),
            resp.max_modseq.is_none() == (self.spec_state().last_cid == 0 || visible(self.spec_state().messages).len() == 0),
            resp.unseen == first_unseen(self.spec_state()),
    {
        let mut flags: Vec<Flag> = Vec::new();
        let table = self.state.flag_table();
        let mut i: usize = 0;
        while i < table.len()
            invariant
                0 <= i <= table@.len(),
                flags@ == table@.subrange(0, i as int),
            decreases table@.len() - i,
        {
            flags.push(table[i].duplicate());
            i = i + 1;
        }
        assert(table@.subrange(0, table@.len() as int) == table@);
        SelectResponse {
            flags,
            exists: self.state.num_messages(),
            recent: self.recent.len(),
            unseen: self.first_unseen(),
            uidnext: self.state.next_uid(),
            uidvalidity: self.s.uid_validity,
            read_only: self.s.read_only,
            max_modseq: self.state.report_max_modseq(),
        }
    }
}

/// The clean-up that follows a selection: transactions at or below
/// `expunge_before_cid` go, then the rollups of `delete_rollups`.
#[derive(Debug, PartialEq, Eq)]
pub struct GcPlan {
    pub expunge_before_cid: Cid,
    /// The CIDs of the rollups marked `delete_rollup`, in order.
    pub delete_rollups: Vec<Cid>,
}

/// The CIDs of the rollups of `rollups` marked `delete_rollup`, in order.
pub open spec fn marked_for_deletion(rollups: Seq<RollupInfo>) -> Seq<Cid>
    decreases rollups.len(),
{
    if rollups.len() == 0 {
        Seq::empty()
    } else if rollups.last().delete_rollup {
        marked_for_deletion(rollups.drop_last()).push(rollups.last().cid)
    } else {
        marked_for_deletion(rollups.drop_last())
    }
}

/// The clean-up to run after selecting a mailbox whose rollups were
/// classified as `rollups`; none for a read-only selection.
pub fn gc_plan(rollups: &Vec<RollupInfo>, read_only: bool) -> (r: Option<GcPlan>)
    ensures
        r.is_none() == read_only,
        r.is_some() ==> r.unwrap().expunge_before_cid.0 == expunge_floor(rollups@)
            && r.unwrap().delete_rollups@ == marked_for_deletion(rollups@),
{
    if read_only {
        return None;
    }
    let mut delete_rollups: Vec<Cid> = Vec::new();
    let mut i: usize = 0;
    while i < rollups.len()
        invariant
            0 <= i <= rollups@.len(),
            delete_rollups@ == marked_for_deletion(rollups@.subrange(0, i as int)),
        decreases rollups@.len() - i,
    {
        assert(rollups@.subrange(0, i + 1).drop_last() == rollups@.subrange(0, i as int));
        if rollups[i].delete_rollup {
            delete_rollups.push(rollups[i].cid);
        }
        i = i + 1;
    }
    assert(rollups@.subrange(0, rollups@.len() as int) == rollups@);
    Some(GcPlan { expunge_before_cid: expunge_before_cid(rollups), delete_rollups })
}

/// `(sequence number, UID)` of each UID of `before` that `after` lacks,
/// descending.
fn gone_pairs(before: &Vec<Uid>, after: &Vec<Uid>) -> (r: Vec<(usize, Uid)>)
    ensures
        r@ == gone_desc(before@, uids_of(after@), 0),
{
    let ghost a = uids_of(after@);
    let mut r: Vec<(usize, Uid)> = Vec::new();
    let mut i: usize = before.len();
    while i > 0
        invariant
            0 <= i <= before@.len(),
            a == uids_of(after@),
            r@ == gone_desc(before@, a, i as int),
        decreases i,
    {
        let u = before[i - 1];
        let mut found = false;
        let mut j: usize = 0;
        while j < after.len()
            invariant
                0 <= j <= after@.len(),
                a == uids_of(after@),
                found == exists|x: int| 0 <= x < j && a[x] == u.0,
            decreases after@.len() - j,
        {
            assert(a[j as int] == after@[j as int].0);
            if after[j].0 == u.0 {
                found = true;
            }
            j = j + 1;
        }
        assert(found == a.contains(u.0));
        if !found {
            r.push((i, u));
        }
        i = i - 1;
    }
    r
}

/// Where `after` holds every UID of `before`, nothing is gone.
proof fn lemma_gone_none(before: Seq<Uid>, after: Seq<u32>, i: int)
    requires
        after == uids_of(before),
        0 <= i,
    ensures
        gone_desc(before, after, i).len() == 0,
    decreases before.len() - i,
{
    if i < before.len() {
        lemma_gone_none(before, after, i + 1);
        assert(after[i] == before[i].0);
        assert(after.contains(before[i].0));
    }
}

proof fn lemma_first_unseen_unique(s: StateView, r: Option<usize>)
    requires
        is_first_unseen(s, r),
    ensures
        first_unseen(s) == r,
{
    let c = choose|c: Option<usize>| is_first_unseen(s, c);
    let vis = visible(s.messages);
    match (c, r) {
        (Some(a), Some(b)) => {
            if a < b {
                assert(seen_on(s, vis[a - 1]));
            } else if b < a {
                assert(seen_on(s, vis[b - 1]));
            }
        },
        (Some(a), None) => {
            assert(seen_on(s, vis[a - 1]));
        },
        (None, Some(b)) => {
            assert(seen_on(s, vis[b - 1]));
        },
        (None, None) => {},
    }
}

proof fn lemma_filter_split(c: Seq<Transaction>, n: int, pred: spec_fn(Transaction) -> bool)
    requires
        0 <= n <= c.len(),
        forall|i: int| 0 <= i < n ==> !pred(#[trigger] c[i]),
        forall|i: int| n <= i < c.len() ==> pred(#[trigger] c[i]),
    ensures
        c.filter(pred) == c.subrange(n, c.len() as int),
    decreases c.len(),
{
    reveal(Seq::filter);
    if c.len() == n {
        lemma_filter_none(c.subrange(0, n), pred);
        assert(c.subrange(0, n) == c);
        assert(c.subrange(n, c.len() as int) =~= Seq::<Transaction>::empty());
    } else {
        lemma_filter_split(c.drop_last(), n, pred);
        assert(c.drop_last().subrange(n, c.drop_last().len() as int) == c.subrange(n, c.len() - 1));
        assert(c.subrange(n, c.len() as int) =~= c.subrange(n, c.len() - 1).push(c.last()));
        assert(pred(c[c.len() - 1]));
    }
}

proof fn lemma_filter_none(c: Seq<Transaction>, pred: spec_fn(Transaction) -> bool)
    requires
        forall|i: int| 0 <= i < c.len() ==> !pred(#[trigger] c[i]),
    ensures
        c.filter(pred) == Seq::<Transaction>::empty(),
    decreases c.len(),
{
    reveal(Seq::filter);
    if c.len() > 0 {
        lemma_filter_none(c.drop_last(), pred);
        assert(!pred(c[c.len() - 1]));
    }
    assert(c.filter(pred) =~= Seq::<Transaction>::empty());
}

} // verus!
