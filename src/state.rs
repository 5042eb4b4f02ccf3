//! The materialised state of one mailbox, and the transactions that change
//! it.

use vstd::prelude::*;

use crate::flags::{
    Flag, bits_of, contains_flag, distinct_flags, has_flag, intern, intern_all, intern_flag,
    intern_flags, lemma_intern_all_prefix, stored_bits, bit,
};
use crate::ids::{Cid, Modseq, Uid, MAX_UID, CID_SPAN, pack};

verus! {

/// What is recorded of a message when it is appended.
#[derive(Debug)]
pub struct MessageMeta {
    /// The size of the message, in bytes.
    pub size: u32,
    /// The internal date, in seconds since the epoch.
    pub internal_date: i64,
    /// The opaque email id.
    pub email_id: Vec<u8>,
}

/// The model of a `MessageMeta`.
pub struct MetaView {
    pub size: u32,
    pub internal_date: i64,
    pub email_id: Seq<u8>,
}

impl View for MessageMeta {
    type V = MetaView;

    open spec fn view(&self) -> MetaView {
        MetaView { size: self.size, internal_date: self.internal_date, email_id: self.email_id@ }
    }
}

/// One message as the mailbox state records it.
#[derive(Debug)]
pub struct MessageEntry {
    pub uid: Uid,
    /// The content hash naming the message in the message store.
    pub hash: Vec<u8>,
    pub meta: MessageMeta,
    /// One bit per entry of the flag table; missing bits are clear.
    pub flags: Vec<bool>,
    /// The CID of the last change to this message's flags.
    pub last_modified: Cid,
    /// The CID that expunged this message, if one did.
    pub expunged_at: Option<Cid>,
}

/// The model of a `MessageEntry`.
pub struct MessageView {
    pub uid: u32,
    pub hash: Seq<u8>,
    pub meta: MetaView,
    pub flags: Seq<bool>,
    pub last_modified: u32,
    pub expunged_at: Option<u32>,
}

pub open spec fn cid_opt(c: Option<Cid>) -> Option<u32> {
    match c {
        Some(c) => Some(c.0),
        None => None,
    }
}

impl View for MessageEntry {
    type V = MessageView;

    open spec fn view(&self) -> MessageView {
        MessageView {
            uid: self.uid.0,
            hash: self.hash@,
            meta: self.meta@,
            flags: self.flags@,
            last_modified: self.last_modified.0,
            expunged_at: cid_opt(self.expunged_at),
        }
    }
}

/// A state mutation carried by one transaction.
#[derive(Debug)]
pub enum Mutation {
    /// A new message at `uid`, with its initial flags.
    Append { uid: Uid, hash: Vec<u8>, meta: MessageMeta, flags: Vec<Flag> },
    /// Sets the flags `add`, then clears the flags `remove`, on each message
    /// of `uids`.
    StoreFlags { uids: Vec<Uid>, add: Vec<Flag>, remove: Vec<Flag>, silent: bool },
    /// Expunges each message of `uids`.
    Expunge { uids: Vec<Uid> },
    /// Renames the mailbox; the content is untouched.
    Rename { name: String },
    Subscribe,
    Unsubscribe,
    /// Adds a flag to the flag table.
    DefineFlag { flag: Flag },
}

/// One committed change to a mailbox.
#[derive(Debug)]
pub struct Transaction {
    pub cid: Cid,
    /// The greatest CID the writer saw; advisory only.
    pub parent_cid: Cid,
    /// Commit time, in seconds since the epoch.
    pub committed_at: u64,
    pub mutation: Mutation,
}

/// The in-memory state of a mailbox.
#[derive(Debug)]
pub struct MailboxState {
    uid_validity: u32,
    next_uid: u32,
    messages: Vec<MessageEntry>,
    flags: Vec<Flag>,
    last_cid: u32,
    subscribed: bool,
}

/// The model of a `MailboxState`.
pub struct StateView {
    pub uid_validity: u32,
    /// Strictly greater than every UID assigned.
    pub next_uid: u32,
    /// Ascending by UID, expunged messages included.
    pub messages: Seq<MessageView>,
    /// The flag table: a flag's position is its id.
    pub flags: Seq<Flag>,
    /// The CID of the last transaction applied, or 0.
    pub last_cid: u32,
    pub subscribed: bool,
}

impl View for MailboxState {
    type V = StateView;

    closed spec fn view(&self) -> StateView {
        StateView {
            uid_validity: self.uid_validity,
            next_uid: self.next_uid,
            messages: self.messages@.map_values(|m: MessageEntry| m@),
            flags: self.flags@,
            last_cid: self.last_cid,
            subscribed: self.subscribed,
        }
    }
}

/// The state of a freshly created mailbox.
pub open spec fn empty_state(uid_validity: u32) -> StateView {
    StateView {
        uid_validity,
        next_uid: 1,
        messages: Seq::empty(),
        flags: Seq::empty(),
        last_cid: 0,
        subscribed: false,
    }
}

/// The invariants of a mailbox state.
pub open spec fn state_wf(s: StateView) -> bool {
    &&& s.next_uid >= 1
    &&& forall|k: int| 0 <= k < s.messages.len() ==> 0 < (#[trigger] s.messages[k]).uid < s.next_uid
    &&& forall|a: int, b: int| 0 <= a < b < s.messages.len()
        ==> (#[trigger] s.messages[a]).uid < (#[trigger] s.messages[b]).uid
    &&& forall|k: int| 0 <= k < s.messages.len()
        ==> (#[trigger] s.messages[k]).flags.len() <= s.flags.len()
    &&& forall|k: int| 0 <= k < s.messages.len()
        ==> (#[trigger] s.messages[k]).last_modified <= s.last_cid
    &&& forall|k: int| 0 <= k < s.messages.len() && (#[trigger] s.messages[k]).expunged_at.is_some()
        ==> s.messages[k].expunged_at.unwrap() <= s.last_cid
    &&& distinct_flags(s.flags)
}

/// Whether a change to `uids` reaches message `m`: it is named and not
/// expunged.
pub open spec fn touches(m: MessageView, uids: Seq<Uid>) -> bool {
    m.expunged_at.is_none() && uids.contains(Uid(m.uid))
}

pub open spec fn append_ok(s: StateView, uid: Uid) -> bool {
    s.next_uid <= uid.0 < MAX_UID
}

/// The effect of appending message `uid` with `flags`.
pub open spec fn append_spec(s: StateView, uid: Uid, hash: Seq<u8>, meta: MetaView, flags: Seq<Flag>, cid: u32) -> StateView {
    if append_ok(s, uid) {
        let t = intern_all(s.flags, flags);
        StateView {
            flags: t,
            next_uid: (uid.0 + 1) as u32,
            messages: s.messages.push(
                MessageView {
                    uid: uid.0,
                    hash,
                    meta,
                    flags: bits_of(t, flags),
                    last_modified: cid,
                    expunged_at: None,
                },
            ),
            ..s
        }
    } else {
        s
    }
}

/// Message `m` after a flag store of change `cid` over table `t`.
pub open spec fn stored_message(m: MessageView, uids: Seq<Uid>, t: Seq<Flag>, add: Seq<Flag>, remove: Seq<Flag>, cid: u32) -> MessageView {
    if touches(m, uids) {
        MessageView { flags: stored_bits(m.flags, t, add, remove), last_modified: cid, ..m }
    } else {
        m
    }
}

/// The effect of storing flags on the messages of `uids`.
pub open spec fn store_spec(s: StateView, uids: Seq<Uid>, add: Seq<Flag>, remove: Seq<Flag>, cid: u32) -> StateView {
    let t = intern_all(s.flags, add);
    StateView {
        flags: t,
        messages: Seq::new(s.messages.len(), |k: int| stored_message(s.messages[k], uids, t, add, remove, cid)),
        ..s
    }
}

/// Message `m` after an expunge of change `cid`.
pub open spec fn expunged_message(m: MessageView, uids: Seq<Uid>, cid: u32) -> MessageView {
    if touches(m, uids) {
        MessageView { expunged_at: Some(cid), ..m }
    } else {
        m
    }
}

/// The effect of expunging the messages of `uids`.
pub open spec fn expunge_spec(s: StateView, uids: Seq<Uid>, cid: u32) -> StateView {
    StateView {
        messages: Seq::new(s.messages.len(), |k: int| expunged_message(s.messages[k], uids, cid)),
        ..s
    }
}

/// The effect of `m`, committed as `cid`, on `s`.
pub open spec fn apply_mutation(s: StateView, m: Mutation, cid: u32) -> StateView {
    match m {
        Mutation::Append { uid, hash, meta, flags } => append_spec(s, uid, hash@, meta@, flags@, cid),
        Mutation::StoreFlags { uids, add, remove, silent } => store_spec(s, uids@, add@, remove@, cid),
        Mutation::Expunge { uids } => expunge_spec(s, uids@, cid),
        Mutation::Rename { name } => s,
        Mutation::Subscribe => StateView { subscribed: true, ..s },
        Mutation::Unsubscribe => StateView { subscribed: false, ..s },
        Mutation::DefineFlag { flag } => StateView { flags: intern(s.flags, flag), ..s },
    }
}

/// The state after `tx`: a transaction whose CID is not past the last one
/// applied is ignored.
pub open spec fn apply_tx(s: StateView, tx: Transaction) -> StateView {
    if tx.cid.0 <= s.last_cid {
        s
    } else {
        StateView { last_cid: tx.cid.0, ..apply_mutation(s, tx.mutation, tx.cid.0) }
    }
}

/// The state after each of `txs`, in order.
pub open spec fn replay(s: StateView, txs: Seq<Transaction>) -> StateView
    decreases txs.len(),
{
    if txs.len() == 0 {
        s
    } else {
        apply_tx(replay(s, txs.drop_last()), txs.last())
    }
}

/// The greatest UID assigned, or 1 where none is.
pub open spec fn max_uid_or_min(s: StateView) -> u32 {
    if s.next_uid > 1 {
        (s.next_uid - 1) as u32
    } else {
        1
    }
}

/// The packed modseq of the last change, or 0 before any change.
pub open spec fn max_modseq_raw(s: StateView) -> u64 {
    if s.last_cid == 0 {
        0
    } else {
        pack(max_uid_or_min(s), s.last_cid)
    }
}

/// Whether `uids` names `uid`.
fn uid_in(uids: &Vec<Uid>, uid: u32) -> (r: bool)
    ensures
        r == uids@.contains(Uid(uid)),
{
    let mut i: usize = 0;
    while i < uids.len()
        invariant
            0 <= i <= uids@.len(),
            forall|j: int| 0 <= j < i ==> (#[trigger] uids@[j]).0 != uid,
        decreases uids@.len() - i,
    {
        if uids[i].0 == uid {
            assert(uids@[i as int] == Uid(uid));
            return true;
        }
        i = i + 1;
    }
    false
}

/// A copy of `v`.
fn copy_bytes(v: &Vec<u8>) -> (r: Vec<u8>)
    ensures
        r@ == v@,
{
    let mut r: Vec<u8> = Vec::new();
    let mut i: usize = 0;
    while i < v.len()
        invariant
            0 <= i <= v@.len(),
            r@ == v@.subrange(0, i as int),
        decreases v@.len() - i,
    {
        r.push(v[i]);
        i = i + 1;
    }
    assert(v@.subrange(0, v@.len() as int) == v@);
    r
}

/// The bits of `fs` over table `t`.
fn bits_of_exec(t: &Vec<Flag>, fs: &Vec<Flag>) -> (r: Vec<bool>)
    ensures
        r@ == bits_of(t@, fs@),
{
    let mut r: Vec<bool> = Vec::new();
    let mut i: usize = 0;
    while i < t.len()
        invariant
            0 <= i <= t@.len(),
            r@ == bits_of(t@, fs@).subrange(0, i as int),
        decreases t@.len() - i,
    {
        r.push(contains_flag(fs, &t[i]));
        i = i + 1;
    }
    assert(bits_of(t@, fs@).subrange(0, t@.len() as int) == bits_of(t@, fs@));
    r
}

/// The bits `old`, with `add` set and `remove` cleared, over table `t`.
fn stored_bits_exec(old: &Vec<bool>, t: &Vec<Flag>, add: &Vec<Flag>, remove: &Vec<Flag>) -> (r: Vec<bool>)
    ensures
        r@ == stored_bits(old@, t@, add@, remove@),
{
    let mut r: Vec<bool> = Vec::new();
    let mut i: usize = 0;
    while i < t.len()
        invariant
            0 <= i <= t@.len(),
            r@ == stored_bits(old@, t@, add@, remove@).subrange(0, i as int),
        decreases t@.len() - i,
    {
        let was = i < old.len() && old[i];
        r.push((was || contains_flag(add, &t[i])) && !contains_flag(remove, &t[i]));
        i = i + 1;
    }
    assert(stored_bits(old@, t@, add@, remove@).subrange(0, t@.len() as int) == stored_bits(
        old@,
        t@,
        add@,
        remove@,
    ));
    r
}

impl MailboxState {
    /// The state of a freshly created mailbox.
    pub fn new(uid_validity: u32) -> (r: MailboxState)
        ensures
            r@ == empty_state(uid_validity),
            state_wf(r@),
    {
        let r = MailboxState {
            uid_validity,
            next_uid: 1,
            messages: Vec::new(),
            flags: Vec::new(),
            last_cid: 0,
            subscribed: false,
        };
        assert(r@.messages =~= Seq::<MessageView>::empty());
        r
    }

    fn apply_append(&mut self, uid: Uid, hash: &Vec<u8>, meta: &MessageMeta, flags: &Vec<Flag>, cid: u32)
        requires
            state_wf(old(self)@),
            cid > old(self)@.last_cid,
        ensures
            final(self)@ == append_spec(old(self)@, uid, hash@, meta@, flags@, cid),
    {
        if self.next_uid <= uid.0 && uid.0 < MAX_UID {
            let ghost s0 = self@;
            intern_flags(&mut self.flags, flags);
            let bits = bits_of_exec(&self.flags, flags);
            let entry = MessageEntry {
                uid,
                hash: copy_bytes(hash),
                meta: meta.duplicate(),
                flags: bits,
                last_modified: Cid(cid),
                expunged_at: None,
            };
            self.messages.push(entry);
            self.next_uid = uid.0 + 1;
            assert(self@.messages =~= append_spec(s0, uid, hash@, meta@, flags@, cid).messages);
        }
    }

    fn apply_store(&mut self, uids: &Vec<Uid>, add: &Vec<Flag>, remove: &Vec<Flag>, cid: u32)
        requires
            state_wf(old(self)@),
            cid > old(self)@.last_cid,
        ensures
            final(self)@ == store_spec(old(self)@, uids@, add@, remove@, cid),
    {
        let ghost s0 = self@;
        intern_flags(&mut self.flags, add);
        let ghost t = self.flags@;
        let n = self.messages.len();
        let mut k: usize = 0;
        while k < n
            invariant
                n == self.messages@.len(),
                n == s0.messages.len(),
                0 <= k <= n,
                self.flags@ == t,
                t == intern_all(s0.flags, add@),
                self.uid_validity == s0.uid_validity,
                self.next_uid == s0.next_uid,
                self.last_cid == s0.last_cid,
                self.subscribed == s0.subscribed,
                forall|j: int| 0 <= j < k ==> (#[trigger] self.messages@[j])@ == stored_message(
                    s0.messages[j],
                    uids@,
                    t,
                    add@,
                    remove@,
                    cid,
                ),
                forall|j: int| k <= j < n ==> (#[trigger] self.messages@[j])@ == s0.messages[j],
            decreases n - k,
        {
            if self.messages[k].expunged_at.is_none() && uid_in(uids, self.messages[k].uid.0) {
                let bits = stored_bits_exec(&self.messages[k].flags, &self.flags, add, remove);
                self.messages[k].flags = bits;
                self.messages[k].last_modified = Cid(cid);
            }
            k = k + 1;
        }
        assert(self@.messages =~= store_spec(s0, uids@, add@, remove@, cid).messages);
    }

    fn apply_expunge(&mut self, uids: &Vec<Uid>, cid: u32)
        requires
            state_wf(old(self)@),
            cid > old(self)@.last_cid,
        ensures
            final(self)@ == expunge_spec(old(self)@, uids@, cid),
    {
        let ghost s0 = self@;
        let n = self.messages.len();
        let mut k: usize = 0;
        while k < n
            invariant
                n == self.messages@.len(),
                n == s0.messages.len(),
                0 <= k <= n,
                self.flags@ == s0.flags,
                self.uid_validity == s0.uid_validity,
                self.next_uid == s0.next_uid,
                self.last_cid == s0.last_cid,
                self.subscribed == s0.subscribed,
                forall|j: int| 0 <= j < k ==> (#[trigger] self.messages@[j])@ == expunged_message(
                    s0.messages[j],
                    uids@,
                    cid,
                ),
                forall|j: int| k <= j < n ==> (#[trigger] self.messages@[j])@ == s0.messages[j],
            decreases n - k,
        {
            if self.messages[k].expunged_at.is_none() && uid_in(uids, self.messages[k].uid.0) {
                self.messages[k].expunged_at = Some(Cid(cid));
            }
            k = k + 1;
        }
        assert(self@.messages =~= expunge_spec(s0, uids@, cid).messages);
    }

    /// Applies one transaction. One whose CID is not past the last one
    /// applied is ignored, as is an `Append` whose UID is below `next_uid`
    /// or is the largest UID; `StoreFlags` and `Expunge` pass over UIDs that
    /// are unknown or already expunged. Returns whether the transaction was
    /// taken in CID order.
    pub fn apply(&mut self, tx: &Transaction) -> (r: bool)
        requires
            state_wf(old(self)@),
        ensures
            final(self)@ == apply_tx(old(self)@, *tx),
            state_wf(final(self)@),
            r == (tx.cid.0 > old(self)@.last_cid),
    {
        let ghost s0 = self@;
        proof { lemma_apply_wf(s0, *tx); }
        if tx.cid.0 <= self.last_cid {
            return false;
        }
        let cid = tx.cid.0;
        match &tx.mutation {
            Mutation::Append { uid, hash, meta, flags } => self.apply_append(*uid, hash, meta, flags, cid),
            Mutation::StoreFlags { uids, add, remove, silent } => self.apply_store(uids, add, remove, cid),
            Mutation::Expunge { uids } => self.apply_expunge(uids, cid),
            Mutation::Rename { name } => {},
            Mutation::Subscribe => {
                self.subscribed = true;
            },
            Mutation::Unsubscribe => {
                self.subscribed = false;
            },
            Mutation::DefineFlag { flag } => intern_flag(&mut self.flags, flag),
        }
        self.last_cid = cid;
        true
    }
}

/// The UIDs of the messages of `msgs` that are not expunged, in order.
pub open spec fn visible(msgs: Seq<MessageView>) -> Seq<u32>
    decreases msgs.len(),
{
    if msgs.len() == 0 {
        Seq::empty()
    } else if msgs.last().expunged_at.is_none() {
        visible(msgs.drop_last()).push(msgs.last().uid)
    } else {
        visible(msgs.drop_last())
    }
}

/// The packed modseq reported to clients: that of the last change, or 0
/// where no message is visible.
pub open spec fn report_modseq_raw(s: StateView) -> u64 {
    if visible(s.messages).len() == 0 {
        0
    } else {
        max_modseq_raw(s)
    }
}

/// Whether the message `uid` of `s` has flag `fid` set.
pub open spec fn flag_set_on(s: StateView, fid: int, uid: u32) -> bool {
    exists|k: int| 0 <= k < s.messages.len() && (#[trigger] s.messages[k]).uid == uid
        && bit(s.messages[k].flags, fid)
}

impl MailboxState {
    pub fn uid_validity(&self) -> (r: u32)
        ensures
            r == self@.uid_validity,
    {
        self.uid_validity
    }

    /// The UID the next appended message receives.
    pub fn next_uid(&self) -> (r: Uid)
        ensures
            r.0 == self@.next_uid,
    {
        Uid(self.next_uid)
    }

    /// The CID of the last transaction applied, or `Cid(0)`.
    pub fn last_cid(&self) -> (r: Cid)
        ensures
            r.0 == self@.last_cid,
    {
        Cid(self.last_cid)
    }

    pub fn subscribed(&self) -> (r: bool)
        ensures
            r == self@.subscribed,
    {
        self.subscribed
    }

    /// The flag table, in `flag_id` order.
    pub fn flag_table(&self) -> (r: &Vec<Flag>)
        ensures
            r@ == self@.flags,
    {
        &self.flags
    }

    /// The id of `flag`, if the table holds it.
    pub fn flag_id(&self, flag: &Flag) -> (r: Option<usize>)
        ensures
            r.is_none() == !has_flag(self@.flags, *flag),
            r.is_some() ==> r.unwrap() < self@.flags.len() && crate::flags::flag_same(
                self@.flags[r.unwrap() as int],
                *flag,
            ),
    {
        crate::flags::find_flag(&self.flags, flag)
    }

    /// The modseq of the last change, or `None` before any.
    pub fn max_modseq(&self) -> (r: Option<Modseq>)
        requires
            state_wf(self@),
        ensures
            r.is_none() == (self@.last_cid == 0),
            r.is_some() ==> r.unwrap().raw() == max_modseq_raw(self@) && r.unwrap().valid(),
    {
        if self.last_cid == 0 {
            None
        } else {
            let u: u32 = if self.next_uid > 1 {
                self.next_uid - 1
            } else {
                1
            };
            Some(Modseq::new(Uid(u), Cid(self.last_cid)))
        }
    }

    /// The modseq reported to clients: `None` where no message is visible.
    pub fn report_max_modseq(&self) -> (r: Option<Modseq>)
        requires
            state_wf(self@),
        ensures
            r.is_none() == (self@.last_cid == 0 || visible(self@.messages).len() == 0),
            r.is_some() ==> r.unwrap().raw() == report_modseq_raw(self@),
    {
        if self.num_messages() == 0 {
            None
        } else {
            self.max_modseq()
        }
    }

    /// The UIDs of the messages not expunged, ascending; the message with
    /// sequence number `i + 1` is at position `i`.
    pub fn visible_uids(&self) -> (r: Vec<Uid>)
        ensures
            r@.len() == visible(self@.messages).len(),
            forall|i: int| 0 <= i < r@.len() ==> (#[trigger] r@[i]).0 == visible(self@.messages)[i],
    {
        let mut r: Vec<Uid> = Vec::new();
        let mut k: usize = 0;
        while k < self.messages.len()
            invariant
                0 <= k <= self.messages@.len(),
                r@.len() == visible(self@.messages.subrange(0, k as int)).len(),
                forall|i: int| 0 <= i < r@.len() ==> (#[trigger] r@[i]).0 == visible(
                    self@.messages.subrange(0, k as int),
                )[i],
            decreases self.messages@.len() - k,
        {
            assert(self@.messages.subrange(0, k + 1).drop_last() == self@.messages.subrange(0, k as int));
            assert(self@.messages[k as int] == self.messages@[k as int]@);
            if self.messages[k].expunged_at.is_none() {
                r.push(self.messages[k].uid);
            }
            k = k + 1;
        }
        assert(self@.messages.subrange(0, self@.messages.len() as int) == self@.messages);
        r
    }

    /// The number of messages not expunged.
    pub fn num_messages(&self) -> (r: usize)
        ensures
            r == visible(self@.messages).len(),
    {
        self.visible_uids().len()
    }

    /// The entry of message `uid`, expunged or not.
    pub fn entry(&self, uid: Uid) -> (r: Option<&MessageEntry>)
        ensures
            r.is_none() == !(exists|k: int| 0 <= k < self@.messages.len() && (#[trigger] self@.messages[k]).uid == uid.0),
            r.is_some() ==> exists|k: int| 0 <= k < self@.messages.len() && self@.messages[k] == (#[trigger] r.unwrap()@) && r.unwrap().uid == uid,
    {
        let mut k: usize = 0;
        while k < self.messages.len()
            invariant
                0 <= k <= self.messages@.len(),
                forall|j: int| 0 <= j < k ==> (#[trigger] self@.messages[j]).uid != uid.0,
            decreases self.messages@.len() - k,
        {
            assert(self@.messages[k as int] == self.messages@[k as int]@);
            if self.messages[k].uid.0 == uid.0 {
                return Some(&self.messages[k]);
            }
            k = k + 1;
        }
        None
    }

    /// Whether message `uid` has the flag `fid` set.
    pub fn test_flag(&self, fid: usize, uid: Uid) -> (r: bool)
        requires
            state_wf(self@),
        ensures
            r == flag_set_on(self@, fid as int, uid.0),
    {
        let mut k: usize = 0;
        while k < self.messages.len()
            invariant
                0 <= k <= self.messages@.len(),
                state_wf(self@),
                forall|j: int| 0 <= j < k ==> (#[trigger] self@.messages[j]).uid != uid.0,
            decreases self.messages@.len() - k,
        {
            assert(self@.messages[k as int] == self.messages@[k as int]@);
            if self.messages[k].uid.0 == uid.0 {
                let f = &self.messages[k].flags;
                let r = fid < f.len() && f[fid];
                proof {
                    let sv = self@;
                    assert(sv.messages[k as int].uid == uid.0);
                    if !r {
                        assert forall|j: int| 0 <= j < self@.messages.len() && (#[trigger] self@.messages[j]).uid == uid.0
                            implies !bit(self@.messages[j].flags, fid as int) by {
                            if j != k {
                                if j < k {
                                } else {
                                    assert(sv.messages[k as int].uid < sv.messages[j].uid);
                                }
                            }
                        }
                    }
                }
                return r;
            }
            k = k + 1;
        }
        false
    }

    /// A copy of this state, as a snapshot to load later.
    pub fn snapshot(&self) -> (r: MailboxState)
        ensures
            r@ == self@,
    {
        let mut messages: Vec<MessageEntry> = Vec::new();
        let mut k: usize = 0;
        while k < self.messages.len()
            invariant
                0 <= k <= self.messages@.len(),
                messages@.len() == k,
                forall|j: int| 0 <= j < k ==> (#[trigger] messages@[j])@ == self.messages@[j]@,
            decreases self.messages@.len() - k,
        {
            let m = &self.messages[k];
            messages.push(MessageEntry {
                uid: m.uid,
                hash: copy_bytes(&m.hash),
                meta: m.meta.duplicate(),
                flags: copy_bits(&m.flags),
                last_modified: m.last_modified,
                expunged_at: m.expunged_at,
            });
            k = k + 1;
        }
        let mut flags: Vec<Flag> = Vec::new();
        let mut i: usize = 0;
        while i < self.flags.len()
            invariant
                0 <= i <= self.flags@.len(),
                flags@ == self.flags@.subrange(0, i as int),
            decreases self.flags@.len() - i,
        {
            flags.push(self.flags[i].duplicate());
            i = i + 1;
        }
        assert(self.flags@.subrange(0, self.flags@.len() as int) == self.flags@);
        let r = MailboxState {
            uid_validity: self.uid_validity,
            next_uid: self.next_uid,
            messages,
            flags,
            last_cid: self.last_cid,
            subscribed: self.subscribed,
        };
        assert(r@.messages =~= self@.messages);
        r
    }
}

/// The UIDs, ascending, of the messages of `msgs` below `below`, not
/// expunged, whose flags changed after `cid`.
pub open spec fn modified_after(msgs: Seq<MessageView>, cid: u32, below: u32) -> Seq<Uid>
    decreases msgs.len(),
{
    if msgs.len() == 0 {
        Seq::empty()
    } else {
        let m = msgs.last();
        let rest = modified_after(msgs.drop_last(), cid, below);
        if m.expunged_at.is_none() && m.last_modified > cid && m.uid < below {
            rest.push(Uid(m.uid))
        } else {
            rest
        }
    }
}

/// The UIDs, ascending, of the messages of `msgs` expunged after `cid`.
pub open spec fn expunged_after(msgs: Seq<MessageView>, cid: u32) -> Seq<Uid>
    decreases msgs.len(),
{
    if msgs.len() == 0 {
        Seq::empty()
    } else {
        let m = msgs.last();
        let rest = expunged_after(msgs.drop_last(), cid);
        if m.expunged_at.is_some() && m.expunged_at.unwrap() > cid {
            rest.push(Uid(m.uid))
        } else {
            rest
        }
    }
}

/// Every visible UID of a well-formed state is below its `next_uid`.
pub proof fn lemma_visible_below(msgs: Seq<MessageView>, next_uid: u32)
    requires
        forall|k: int| 0 <= k < msgs.len() ==> (#[trigger] msgs[k]).uid < next_uid,
    ensures
        forall|i: int| 0 <= i < visible(msgs).len() ==> #[trigger] visible(msgs)[i] < next_uid,
    decreases msgs.len(),
{
    if msgs.len() > 0 {
        let p = msgs.drop_last();
        assert forall|k: int| 0 <= k < p.len() implies (#[trigger] p[k]).uid < next_uid by {
            assert(p[k] == msgs[k]);
        }
        lemma_visible_below(p, next_uid);
        assert(msgs.last() == msgs[msgs.len() - 1]);
        assert forall|i: int| 0 <= i < visible(msgs).len() implies #[trigger] visible(msgs)[i] < next_uid by {
            if i < visible(p).len() {
                assert(visible(p)[i] < next_uid);
            }
        }
    }
}

/// No message of a well-formed state changed after its last CID.
pub proof fn lemma_nothing_after_last(msgs: Seq<MessageView>, last: u32, below: u32)
    requires
        forall|k: int| 0 <= k < msgs.len() ==> (#[trigger] msgs[k]).last_modified <= last,
    ensures
        modified_after(msgs, last, below).len() == 0,
    decreases msgs.len(),
{
    if msgs.len() > 0 {
        lemma_nothing_after_last(msgs.drop_last(), last, below);
        assert(msgs.last() == msgs[msgs.len() - 1]);
    }
}

impl MailboxState {
    /// The UIDs, ascending, of the messages below `below`, not expunged,
    /// whose flags changed after `cid`.
    pub fn modified_after(&self, cid: u32, below: u32) -> (r: Vec<Uid>)
        ensures
            r@ == modified_after(self@.messages, cid, below),
    {
        let mut r: Vec<Uid> = Vec::new();
        let mut k: usize = 0;
        while k < self.messages.len()
            invariant
                0 <= k <= self.messages@.len(),
                r@ == modified_after(self@.messages.subrange(0, k as int), cid, below),
            decreases self.messages@.len() - k,
        {
            assert(self@.messages.subrange(0, k + 1).drop_last() == self@.messages.subrange(0, k as int));
            assert(self@.messages[k as int] == self.messages@[k as int]@);
            let m = &self.messages[k];
            if m.expunged_at.is_none() && m.last_modified.0 > cid && m.uid.0 < below {
                r.push(m.uid);
            }
            k = k + 1;
        }
        assert(self@.messages.subrange(0, self@.messages.len() as int) == self@.messages);
        r
    }

    /// The UIDs, ascending, of the messages expunged after `cid`.
    pub fn expunged_after(&self, cid: u32) -> (r: Vec<Uid>)
        ensures
            r@ == expunged_after(self@.messages, cid),
    {
        let mut r: Vec<Uid> = Vec::new();
        let mut k: usize = 0;
        while k < self.messages.len()
            invariant
                0 <= k <= self.messages@.len(),
                r@ == expunged_after(self@.messages.subrange(0, k as int), cid),
            decreases self.messages@.len() - k,
        {
            assert(self@.messages.subrange(0, k + 1).drop_last() == self@.messages.subrange(0, k as int));
            assert(self@.messages[k as int] == self.messages@[k as int]@);
            let m = &self.messages[k];
            match m.expunged_at {
                Some(c) => {
                    if c.0 > cid {
                        r.push(m.uid);
                    }
                },
                None => {},
            }
            k = k + 1;
        }
        assert(self@.messages.subrange(0, self@.messages.len() as int) == self@.messages);
        r
    }
}

/// Whether a message of `s` is stored under `hash`.
pub open spec fn state_references(s: StateView, hash: Seq<u8>) -> bool {
    exists|k: int| 0 <= k < s.messages.len() && (#[trigger] s.messages[k]).hash == hash
}

/// Whether `a` and `b` hold the same bytes.
pub fn bytes_eq(a: &[u8], b: &[u8]) -> (r: bool)
    ensures
        r == (a@ == b@),
{
    if a.len() != b.len() {
        return false;
    }
    let mut i: usize = 0;
    while i < a.len()
        invariant
            a@.len() == b@.len(),
            0 <= i <= a@.len(),
            forall|j: int| 0 <= j < i ==> a@[j] == b@[j],
        decreases a@.len() - i,
    {
        if a[i] != b[i] {
            return false;
        }
        i = i + 1;
    }
    assert(a@ =~= b@);
    true
}

impl MailboxState {
    /// Whether a message of this state, expunged or not, is stored under
    /// `hash`.
    pub fn references(&self, hash: &[u8]) -> (r: bool)
        ensures
            r == state_references(self@, hash@),
    {
        let mut k: usize = 0;
        while k < self.messages.len()
            invariant
                0 <= k <= self.messages@.len(),
                forall|j: int| 0 <= j < k ==> (#[trigger] self@.messages[j]).hash != hash@,
            decreases self.messages@.len() - k,
        {
            assert(self@.messages[k as int] == self.messages@[k as int]@);
            if bytes_eq(self.messages[k].hash.as_slice(), hash) {
                return true;
            }
            k = k + 1;
        }
        false
    }
}

impl MessageMeta {
    /// A copy of this metadata.
    pub fn duplicate(&self) -> (r: MessageMeta)
        ensures
            r@ == self@,
    {
        MessageMeta { size: self.size, internal_date: self.internal_date, email_id: copy_bytes(&self.email_id) }
    }
}

/// A copy of `v`.
fn copy_bits(v: &Vec<bool>) -> (r: Vec<bool>)
    ensures
        r@ == v@,
{
    let mut r: Vec<bool> = Vec::new();
    let mut i: usize = 0;
    while i < v.len()
        invariant
            0 <= i <= v@.len(),
            r@ == v@.subrange(0, i as int),
        decreases v@.len() - i,
    {
        r.push(v[i]);
        i = i + 1;
    }
    assert(v@.subrange(0, v@.len() as int) == v@);
    r
}

/// Applying a transaction keeps the state's invariants.
pub proof fn lemma_apply_wf(s: StateView, tx: Transaction)
    requires
        state_wf(s),
    ensures
        state_wf(apply_tx(s, tx)),
{
    if tx.cid.0 > s.last_cid {
        let cid = tx.cid.0;
        let s2 = apply_tx(s, tx);
        match tx.mutation {
            Mutation::Append { uid, hash, meta, flags } => {
                if append_ok(s, uid) {
                    lemma_intern_all_prefix(s.flags, flags@);
                    let n = s.messages.len();
                    assert forall|a: int, b: int| 0 <= a < b < s2.messages.len()
                        implies (#[trigger] s2.messages[a]).uid < (#[trigger] s2.messages[b]).uid by {
                        if b == n {
                            assert(s2.messages[a] == s.messages[a]);
                        } else {
                            assert(s2.messages[a] == s.messages[a]);
                            assert(s2.messages[b] == s.messages[b]);
                        }
                    }
                    assert forall|k: int| 0 <= k < s2.messages.len()
                        implies (#[trigger] s2.messages[k]).flags.len() <= s2.flags.len() by {
                        if k < n {
                            assert(s2.messages[k] == s.messages[k]);
                        }
                    }
                    assert forall|k: int| 0 <= k < s2.messages.len()
                        implies 0 < (#[trigger] s2.messages[k]).uid < s2.next_uid by {
                        if k < n {
                            assert(s2.messages[k] == s.messages[k]);
                        }
                    }
                    assert forall|k: int| 0 <= k < s2.messages.len()
                        implies (#[trigger] s2.messages[k]).last_modified <= s2.last_cid by {
                        if k < n {
                            assert(s2.messages[k] == s.messages[k]);
                        }
                    }
                    assert forall|k: int| 0 <= k < s2.messages.len()
                        && (#[trigger] s2.messages[k]).expunged_at.is_some()
                        implies s2.messages[k].expunged_at.unwrap() <= s2.last_cid by {
                        if k < n {
                            assert(s2.messages[k] == s.messages[k]);
                        }
                    }
                }
            },
            Mutation::StoreFlags { uids, add, remove, silent } => {
                lemma_intern_all_prefix(s.flags, add@);
            },
            Mutation::DefineFlag { flag } => {
                lemma_intern_all_prefix(s.flags, seq![flag]);
                assert(seq![flag].drop_last() =~= Seq::<Flag>::empty());
                assert(intern_all(s.flags, seq![flag].drop_last()) == s.flags);
                assert(seq![flag].last() == flag);
                assert(intern_all(s.flags, seq![flag]) == intern(s.flags, flag));
            },
            _ => {},
        }
    }
}

/// Replaying transactions keeps the state's invariants.
pub proof fn lemma_replay_wf(s: StateView, txs: Seq<Transaction>)
    requires
        state_wf(s),
    ensures
        state_wf(replay(s, txs)),
    decreases txs.len(),
{
    if txs.len() > 0 {
        lemma_replay_wf(s, txs.drop_last());
        lemma_apply_wf(replay(s, txs.drop_last()), txs.last());
    }
}

/// Replaying `a + b` is replaying `a`, then `b`.
pub proof fn lemma_replay_split(s: StateView, a: Seq<Transaction>, b: Seq<Transaction>)
    ensures
        replay(s, a + b) == replay(replay(s, a), b),
    decreases b.len(),
{
    if b.len() == 0 {
        assert(a + b =~= a);
    } else {
        lemma_replay_split(s, a, b.drop_last());
        assert((a + b).drop_last() =~= a + b.drop_last());
        assert((a + b).last() == b.last());
    }
}

/// A history as the change log holds it: CIDs positive and strictly
/// ascending.
pub open spec fn valid_history(h: Seq<Transaction>) -> bool {
    &&& forall|i: int| 0 <= i < h.len() ==> (#[trigger] h[i]).cid.0 > 0
    &&& forall|i: int, j: int| 0 <= i < j < h.len() ==> (#[trigger] h[i]).cid.0 < (#[trigger] h[j]).cid.0
}

/// Transactions that are all at or below the last CID applied change
/// nothing.
pub proof fn lemma_replay_stale(s: StateView, txs: Seq<Transaction>)
    requires
        forall|i: int| 0 <= i < txs.len() ==> (#[trigger] txs[i]).cid.0 <= s.last_cid,
    ensures
        replay(s, txs) == s,
    decreases txs.len(),
{
    if txs.len() > 0 {
        lemma_replay_stale(s, txs.drop_last());
        assert(txs.last() == txs[txs.len() - 1]);
    }
}

/// After a replay, the last CID applied is at least that of every
/// transaction replayed.
pub proof fn lemma_replay_covers(s: StateView, txs: Seq<Transaction>)
    ensures
        s.last_cid <= replay(s, txs).last_cid,
        forall|i: int| 0 <= i < txs.len() ==> (#[trigger] txs[i]).cid.0 <= replay(s, txs).last_cid,
    decreases txs.len(),
{
    if txs.len() > 0 {
        lemma_replay_covers(s, txs.drop_last());
        assert forall|i: int| 0 <= i < txs.len() implies (#[trigger] txs[i]).cid.0 <= replay(s, txs).last_cid by {
            if i < txs.len() - 1 {
                assert(txs.drop_last()[i] == txs[i]);
            }
        }
    }
}

/// Replaying a valid history whose CIDs are all past the last CID applied
/// ends at the CID of its last transaction.
proof fn lemma_replay_last_cid(s: StateView, h: Seq<Transaction>)
    requires
        valid_history(h),
        h.len() > 0 ==> s.last_cid < h[0].cid.0,
    ensures
        replay(s, h).last_cid == (if h.len() == 0 { s.last_cid } else { h.last().cid.0 }),
    decreases h.len(),
{
    if h.len() > 0 {
        let p = h.drop_last();
        assert forall|i: int, j: int| 0 <= i < j < p.len() implies (#[trigger] p[i]).cid.0 < (#[trigger] p[j]).cid.0 by {
            assert(p[i] == h[i] && p[j] == h[j]);
        }
        assert forall|i: int| 0 <= i < p.len() implies (#[trigger] p[i]).cid.0 > 0 by {
            assert(p[i] == h[i]);
        }
        if p.len() > 0 {
            assert(p[0] == h[0]);
        }
        lemma_replay_last_cid(s, p);
        if p.len() > 0 {
            assert(p.last() == h[h.len() - 2]);
            assert(h[h.len() - 2].cid.0 < h[h.len() - 1].cid.0);
        }
    }
}

/// Loading the snapshot taken after the first `k` transactions of a history
/// and replaying the transactions past the snapshot's CID gives the state
/// that replaying the whole history on an empty mailbox gives. The
/// snapshot's CID splits the history exactly at `k`, and replaying the whole
/// history on the snapshot gives that state too.
pub proof fn lemma_snapshot_replay(uid_validity: u32, h: Seq<Transaction>, k: int)
    requires
        valid_history(h),
        0 <= k <= h.len(),
    ensures
        ({
            let snap = replay(empty_state(uid_validity), h.subrange(0, k));
            &&& forall|i: int| 0 <= i < k ==> (#[trigger] h[i]).cid.0 <= snap.last_cid
            &&& forall|i: int| k <= i < h.len() ==> (#[trigger] h[i]).cid.0 > snap.last_cid
            &&& replay(snap, h.subrange(k, h.len() as int)) == replay(empty_state(uid_validity), h)
            &&& replay(snap, h) == replay(empty_state(uid_validity), h)
        }),
{
    let e = empty_state(uid_validity);
    let pre = h.subrange(0, k);
    let post = h.subrange(k, h.len() as int);
    let snap = replay(e, pre);
    assert(pre + post =~= h);
    lemma_replay_split(e, pre, post);
    assert forall|i: int, j: int| 0 <= i < j < pre.len() implies (#[trigger] pre[i]).cid.0 < (#[trigger] pre[j]).cid.0 by {
        assert(pre[i] == h[i] && pre[j] == h[j]);
    }
    assert forall|i: int| 0 <= i < pre.len() implies (#[trigger] pre[i]).cid.0 > 0 by {
        assert(pre[i] == h[i]);
    }
    if k > 0 {
        assert(pre[0] == h[0]);
    }
    lemma_replay_last_cid(e, pre);
    assert forall|i: int| 0 <= i < k implies (#[trigger] h[i]).cid.0 <= snap.last_cid by {
        if i < k - 1 {
            assert(h[i].cid.0 < h[k - 1].cid.0);
        }
    }
    assert forall|i: int| k <= i < h.len() implies (#[trigger] h[i]).cid.0 > snap.last_cid by {
        if k > 0 {
            assert(h[k - 1].cid.0 < h[i].cid.0);
        }
    }
    assert forall|i: int| 0 <= i < pre.len() implies (#[trigger] pre[i]).cid.0 <= snap.last_cid by {
        assert(pre[i] == h[i]);
    }
    lemma_replay_split(snap, pre, post);
    lemma_replay_stale(snap, pre);
}

proof fn lemma_pack_monotone(u1: u32, c1: u32, u2: u32, c2: u32)
    requires
        u1 <= u2,
        c1 <= c2,
    ensures
        pack(u1, c1) <= pack(u2, c2),
{
    assert(u1 as int * CID_SPAN + c1 <= u2 as int * CID_SPAN + c2) by (nonlinear_arith)
        requires u1 <= u2, c1 <= c2, CID_SPAN == 0x1_0000_0000u64;
    assert(u2 as int * CID_SPAN + c2 <= u64::MAX) by (nonlinear_arith)
        requires u2 <= 0xFFFF_FFFFu32, c2 <= 0xFFFF_FFFFu32, CID_SPAN == 0x1_0000_0000u64;
    assert(u1 as int * CID_SPAN + c1 >= 0) by (nonlinear_arith)
        requires CID_SPAN == 0x1_0000_0000u64;
}

proof fn lemma_apply_grows(s: StateView, tx: Transaction)
    requires
        state_wf(s),
    ensures
        ({
            let s2 = apply_tx(s, tx);
            &&& s.next_uid <= s2.next_uid
            &&& s.last_cid <= s2.last_cid
            &&& s.flags.is_prefix_of(s2.flags)
            &&& s.messages.len() <= s2.messages.len()
            &&& forall|k: int| 0 <= k < s.messages.len() ==> (#[trigger] s2.messages[k]).uid == s.messages[k].uid
        }),
{
    if tx.cid.0 > s.last_cid {
        match tx.mutation {
            Mutation::Append { uid, hash, meta, flags } => {
                lemma_intern_all_prefix(s.flags, flags@);
            },
            Mutation::StoreFlags { uids, add, remove, silent } => {
                lemma_intern_all_prefix(s.flags, add@);
            },
            Mutation::DefineFlag { flag } => {
                lemma_intern_all_prefix(s.flags, seq![flag]);
                assert(seq![flag].drop_last() =~= Seq::<Flag>::empty());
                assert(intern_all(s.flags, seq![flag].drop_last()) == s.flags);
                assert(seq![flag].last() == flag);
                assert(intern_all(s.flags, seq![flag]) == intern(s.flags, flag));
            },
            _ => {},
        }
    }
}

/// The modseq of the last change never decreases as transactions are
/// applied.
pub proof fn lemma_max_modseq_monotone(s: StateView, txs: Seq<Transaction>)
    requires
        state_wf(s),
    ensures
        max_modseq_raw(s) <= max_modseq_raw(replay(s, txs)),
    decreases txs.len(),
{
    if txs.len() > 0 {
        let p = replay(s, txs.drop_last());
        lemma_max_modseq_monotone(s, txs.drop_last());
        lemma_replay_wf(s, txs.drop_last());
        lemma_apply_grows(p, txs.last());
        let q = apply_tx(p, txs.last());
        if p.last_cid != 0 {
            lemma_pack_monotone(max_uid_or_min(p), p.last_cid, max_uid_or_min(q), q.last_cid);
        }
    }
}

/// Every UID assigned stays strictly below `next_uid` whatever is applied
/// after, and its entry keeps its place.
pub proof fn lemma_uids_stay_below_next(s: StateView, txs: Seq<Transaction>)
    requires
        state_wf(s),
    ensures
        s.messages.len() <= replay(s, txs).messages.len(),
        forall|k: int| 0 <= k < s.messages.len()
            ==> (#[trigger] replay(s, txs).messages[k]).uid == s.messages[k].uid
                && s.messages[k].uid < replay(s, txs).next_uid,
    decreases txs.len(),
{
    lemma_replay_wf(s, txs);
    if txs.len() > 0 {
        let p = replay(s, txs.drop_last());
        lemma_uids_stay_below_next(s, txs.drop_last());
        lemma_replay_wf(s, txs.drop_last());
        lemma_apply_grows(p, txs.last());
        let q = replay(s, txs);
        assert forall|k: int| 0 <= k < s.messages.len()
            implies (#[trigger] q.messages[k]).uid == s.messages[k].uid && s.messages[k].uid < q.next_uid by {
            assert(p.messages[k].uid == s.messages[k].uid);
        }
    }
}

/// A flag's id never changes: the flag table only grows at its end.
pub proof fn lemma_flag_ids_stable(s: StateView, txs: Seq<Transaction>)
    requires
        state_wf(s),
    ensures
        s.flags.is_prefix_of(replay(s, txs).flags),
        forall|i: int| 0 <= i < s.flags.len() ==> #[trigger] replay(s, txs).flags[i] == s.flags[i],
    decreases txs.len(),
{
    if txs.len() > 0 {
        let p = replay(s, txs.drop_last());
        lemma_flag_ids_stable(s, txs.drop_last());
        lemma_replay_wf(s, txs.drop_last());
        lemma_apply_grows(p, txs.last());
        let q = replay(s, txs);
        assert forall|i: int| 0 <= i < s.flags.len() implies #[trigger] q.flags[i] == s.flags[i] by {
            assert(p.flags[i] == s.flags[i]);
            assert(q.flags[i] == p.flags[i]);
        }
    }
}

} // verus!
