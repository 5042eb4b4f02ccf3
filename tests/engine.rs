use crymap_engine::flags::Flag;
use crymap_engine::ids::{Cid, Modseq, Uid, MAX_UID};
use crymap_engine::mailbox::{gc_plan, Error, PollResponse, StatelessMailbox};
use crymap_engine::rollup::RollupInfo;
use crymap_engine::state::{MailboxState, MessageMeta, Mutation, Transaction};

fn keyword(s: &str) -> Flag {
    Flag::Keyword(s.to_owned())
}

fn tx(cid: u32, mutation: Mutation) -> Transaction {
    Transaction {
        cid: Cid(cid),
        parent_cid: Cid(cid - 1),
        committed_at: 0,
        mutation,
    }
}

fn append(uid: u32, flags: Vec<Flag>) -> Mutation {
    Mutation::Append {
        uid: Uid(uid),
        hash: vec![uid as u8; 4],
        meta: MessageMeta {
            size: 100 + uid,
            internal_date: 1_600_000_000,
            email_id: vec![uid as u8; 15],
        },
        flags,
    }
}

fn store(uids: Vec<u32>, add: Vec<Flag>, remove: Vec<Flag>) -> Mutation {
    Mutation::StoreFlags {
        uids: uids.into_iter().map(Uid).collect(),
        add,
        remove,
        silent: false,
    }
}

fn expunge(uids: Vec<u32>) -> Mutation {
    Mutation::Expunge {
        uids: uids.into_iter().map(Uid).collect(),
    }
}

fn history() -> Vec<Transaction> {
    vec![
        tx(1, Mutation::DefineFlag { flag: keyword("x") }),
        tx(2, append(1, vec![keyword("x")])),
        tx(3, store(vec![1], vec![Flag::Seen], vec![])),
        tx(4, expunge(vec![1])),
    ]
}

fn flag_names(state: &MailboxState, uid: u32) -> Vec<String> {
    let entry = state.entry(Uid(uid)).unwrap();
    let table = state.flag_table();
    let mut names = Vec::new();
    for (i, set) in entry.flags.iter().enumerate() {
        if *set {
            names.push(format!("{:?}", table[i]));
        }
    }
    names
}

fn describe(state: &MailboxState) -> String {
    let mut out = format!(
        "uv={} next={} last={} sub={} flags={:?}",
        state.uid_validity(),
        state.next_uid().0,
        state.last_cid().0,
        state.subscribed(),
        state.flag_table()
    );
    for uid in 1..state.next_uid().0 {
        if let Some(e) = state.entry(Uid(uid)) {
            out.push_str(&format!(" [{:?}]", e));
        }
    }
    out
}

#[test]
fn replay_materialises_history() {
    let mut state = MailboxState::new(42);
    for t in &history() {
        assert!(state.apply(t));
    }
    let entry = state.entry(Uid(1)).unwrap();
    assert_eq!(Some(Cid(4)), entry.expunged_at);
    assert_eq!(Cid(3), entry.last_modified);
    assert_eq!(vec!["Keyword(\"x\")".to_owned(), "Seen".to_owned()], flag_names(&state, 1));
    assert_eq!(Uid(2), state.next_uid());
    assert_eq!(0, state.num_messages());
    assert_eq!(None, state.report_max_modseq());
    assert_eq!(
        Some(Modseq::new(Uid(1), Cid(4))),
        state.max_modseq()
    );
}

#[test]
fn snapshot_then_replay_equals_full_replay() {
    let mut full = MailboxState::new(42);
    for t in &history() {
        full.apply(t);
    }
    for k in 0..=4 {
        let mut snap = MailboxState::new(42);
        for t in &history()[..k] {
            snap.apply(t);
        }
        let mut reloaded = snap.snapshot();
        for t in &history() {
            reloaded.apply(t);
        }
        assert_eq!(describe(&full), describe(&reloaded));
        let mut tail_only = snap.snapshot();
        for t in &history()[k..] {
            tail_only.apply(t);
        }
        assert_eq!(describe(&full), describe(&tail_only));
    }
}

#[test]
fn stale_and_out_of_order_transactions_are_ignored() {
    let mut state = MailboxState::new(1);
    assert!(state.apply(&tx(5, append(3, vec![]))));
    assert!(!state.apply(&tx(5, append(4, vec![]))));
    assert!(!state.apply(&tx(2, append(9, vec![]))));
    // A UID below next_uid is not reused.
    assert!(state.apply(&tx(6, append(2, vec![]))));
    assert!(state.entry(Uid(2)).is_none());
    assert_eq!(Uid(4), state.next_uid());
    // The largest UID is never assigned.
    assert!(state.apply(&tx(7, append(MAX_UID, vec![]))));
    assert!(state.entry(Uid(MAX_UID)).is_none());
    assert_eq!(Cid(7), state.last_cid());
}

#[test]
fn max_modseq_never_decreases() {
    let mut state = MailboxState::new(1);
    let mut last = 0u64;
    let steps = vec![
        tx(1, Mutation::Subscribe),
        tx(2, append(10, vec![])),
        tx(3, store(vec![10], vec![Flag::Flagged], vec![])),
        tx(4, append(11, vec![])),
        tx(5, expunge(vec![10, 11])),
        tx(6, Mutation::Rename { name: "new".to_owned() }),
    ];
    for t in &steps {
        state.apply(t);
        let now = state.max_modseq().unwrap().raw_value();
        assert!(now >= last);
        last = now;
    }
    assert_eq!((11u64 << 32) | 6, last);
}

#[test]
fn uids_stay_below_next_uid() {
    let mut state = MailboxState::new(1);
    state.apply(&tx(1, append(1, vec![])));
    state.apply(&tx(2, append(5, vec![])));
    state.apply(&tx(3, expunge(vec![1])));
    state.apply(&tx(4, append(6, vec![])));
    for uid in [1u32, 5, 6] {
        assert!(state.entry(Uid(uid)).is_some());
        assert!(uid < state.next_uid().0);
    }
    assert_eq!(vec![Uid(5), Uid(6)], state.visible_uids());
}

#[test]
fn flag_ids_never_change() {
    let mut state = MailboxState::new(1);
    state.apply(&tx(1, Mutation::DefineFlag { flag: keyword("Alpha") }));
    state.apply(&tx(2, append(1, vec![Flag::Seen, keyword("beta")])));
    let alpha = state.flag_id(&keyword("alpha")).unwrap();
    let seen = state.flag_id(&Flag::Seen).unwrap();
    state.apply(&tx(3, Mutation::DefineFlag { flag: keyword("ALPHA") }));
    state.apply(&tx(4, store(vec![1], vec![keyword("gamma"), Flag::Deleted], vec![])));
    assert_eq!(Some(alpha), state.flag_id(&keyword("aLpHa")));
    assert_eq!(Some(seen), state.flag_id(&Flag::Seen));
    assert_eq!(5, state.flag_table().len());
    assert_eq!("Keyword(\"Alpha\")", format!("{:?}", state.flag_table()[0]));
    assert!(state.test_flag(seen, Uid(1)));
    assert!(!state.test_flag(alpha, Uid(1)));
}

#[test]
fn store_flags_adds_then_removes() {
    let mut state = MailboxState::new(1);
    state.apply(&tx(1, append(1, vec![Flag::Seen, Flag::Draft])));
    state.apply(&tx(2, store(vec![1, 99], vec![Flag::Flagged], vec![Flag::Draft, Flag::Flagged])));
    let seen = state.flag_id(&Flag::Seen).unwrap();
    let draft = state.flag_id(&Flag::Draft).unwrap();
    let flagged = state.flag_id(&Flag::Flagged).unwrap();
    assert!(state.test_flag(seen, Uid(1)));
    assert!(!state.test_flag(draft, Uid(1)));
    assert!(!state.test_flag(flagged, Uid(1)));
    assert_eq!(Cid(2), state.entry(Uid(1)).unwrap().last_modified);
}

fn mailbox_with(txs: Vec<Transaction>, read_only: bool) -> StatelessMailbox {
    let mut mb = StatelessMailbox::new(7, read_only);
    for t in txs {
        assert!(mb.add_change(t).is_ok());
    }
    mb
}

#[test]
fn select_reports_state() {
    let mb = mailbox_with(
        vec![
            tx(1, append(1, vec![Flag::Seen])),
            tx(2, append(2, vec![])),
            tx(3, append(3, vec![Flag::Seen])),
        ],
        false,
    );
    let (session, resp) = mb.select().unwrap();
    assert_eq!(3, resp.exists);
    assert_eq!(3, resp.recent);
    assert_eq!(Some(2), resp.unseen);
    assert_eq!(Uid(4), resp.uidnext);
    assert_eq!(7, resp.uidvalidity);
    assert!(!resp.read_only);
    assert_eq!(Some(Modseq::new(Uid(3), Cid(3))), resp.max_modseq);
    assert_eq!(1, resp.flags.len());
    assert_eq!(&vec![Uid(1), Uid(2), Uid(3)], session.seqnums());
}

#[test]
fn select_from_snapshot_marks_only_later_messages_recent() {
    let mut snap = MailboxState::new(7);
    snap.apply(&tx(1, append(1, vec![])));
    snap.apply(&tx(2, append(2, vec![])));
    let mut mb = mailbox_with(
        vec![
            tx(1, append(1, vec![])),
            tx(2, append(2, vec![])),
            tx(3, append(3, vec![])),
        ],
        true,
    );
    mb.set_snapshot(snap);
    let (session, resp) = mb.select().unwrap();
    assert_eq!(3, resp.exists);
    assert_eq!(1, resp.recent);
    assert_eq!(Some(1), resp.unseen);
    assert!(resp.read_only);
    assert_eq!(3, session.state().num_messages());
}

#[test]
fn empty_mailbox_select() {
    let (_, resp) = StatelessMailbox::new(9, false).select().unwrap();
    assert_eq!(0, resp.exists);
    assert_eq!(None, resp.unseen);
    assert_eq!(Uid(1), resp.uidnext);
    assert_eq!(None, resp.max_modseq);
}

#[test]
fn second_poll_is_empty() {
    let mb = mailbox_with(vec![tx(1, append(1, vec![]))], false);
    let (mut session, _) = mb.select().unwrap();
    assert!(session.poll().unwrap().is_empty());
    session.commit(append(2, vec![]), 10).unwrap();
    let first = session.poll().unwrap();
    assert!(!first.is_empty());
    assert_eq!(Some(2), first.exists);
    let second = session.poll().unwrap();
    assert!(second.is_empty());
    assert_eq!(
        PollResponse {
            expunge: vec![],
            exists: None,
            recent: None,
            fetch: vec![],
            max_modseq: None,
        },
        second
    );
}

#[test]
fn poll_reports_expunges_descending_and_flag_changes() {
    let mb = mailbox_with(
        vec![
            tx(1, append(1, vec![])),
            tx(2, append(2, vec![])),
            tx(3, append(3, vec![])),
            tx(4, append(4, vec![])),
        ],
        false,
    );
    let (mut session, _) = mb.select().unwrap();
    assert_eq!(Ok(Cid(5)), session.commit(expunge(vec![2, 4]), 0));
    assert_eq!(Ok(Cid(6)), session.commit(store(vec![3], vec![Flag::Answered], vec![]), 0));
    assert_eq!(Ok(Cid(7)), session.commit(append(5, vec![]), 0));
    let delta = session.poll().unwrap();
    assert_eq!(vec![(4, Uid(4)), (2, Uid(2))], delta.expunge);
    assert_eq!(vec![Uid(3)], delta.fetch);
    assert_eq!(Some(3), delta.exists);
    assert_eq!(Some(Modseq::new(Uid(5), Cid(7))), delta.max_modseq);
    assert_eq!(&vec![Uid(1), Uid(3), Uid(5)], session.seqnums());
}

#[test]
fn read_only_commit_is_refused() {
    let mb = mailbox_with(vec![], true);
    let (mut session, _) = mb.select().unwrap();
    assert_eq!(Err(Error::MailboxReadOnly), session.commit(Mutation::Subscribe, 0));
}

#[test]
fn racing_commits_get_distinct_cids() {
    let mut mb = StatelessMailbox::new(1, false);
    assert_eq!(Ok(Cid(1)), mb.commit(append(1, vec![]), 0));
    // A second writer that reserved the same CID loses and retries.
    let lost = mb.add_change(tx(1, append(2, vec![])));
    assert!(lost.is_err());
    assert_eq!(Ok(Cid(2)), mb.commit(append(2, vec![]), 0));
    let cids: Vec<u32> = mb.changes().iter().map(|t| t.cid.0).collect();
    assert_eq!(vec![1, 2], cids);
    assert_eq!(Cid(1), mb.changes()[1].parent_cid);
}

#[test]
fn qresync_reports_expunged_and_changed() {
    let mut txs = Vec::new();
    for uid in 1..=8u32 {
        txs.push(tx(uid, append(uid, vec![])));
    }
    let mb = mailbox_with(txs, false);
    let (mut session, _) = mb.select().unwrap();
    let client_modseq = session.state().max_modseq().unwrap();
    session.commit(expunge(vec![3]), 0).unwrap();
    session.commit(expunge(vec![5]), 0).unwrap();
    session.commit(store(vec![7], vec![Flag::Seen], vec![]), 0).unwrap();
    session.poll().unwrap();
    let q = session.qresync(7, client_modseq).unwrap();
    assert_eq!(vec![Uid(3), Uid(5)], q.expunged);
    assert_eq!(vec![Uid(7)], q.changed);
    assert_eq!(session.state().report_max_modseq(), q.highest_modseq);
    assert!(session.qresync(8, client_modseq).is_none());
}

#[test]
fn gc_drops_transactions_at_or_below_floor() {
    let mut mb = mailbox_with(
        vec![
            tx(1, append(1, vec![])),
            tx(2, append(2, vec![])),
            tx(3, append(3, vec![])),
        ],
        false,
    );
    mb.gc_changes(Cid(2));
    let cids: Vec<u32> = mb.changes().iter().map(|t| t.cid.0).collect();
    assert_eq!(vec![3], cids);
    mb.gc_changes(Cid(0));
    assert_eq!(1, mb.changes().len());
    mb.gc_changes(Cid(9));
    assert!(mb.changes().is_empty());
}

#[test]
fn gc_plan_follows_marks() {
    let rollups = vec![
        RollupInfo { cid: Cid(1), age_ms: 0, delete_rollup: true, delete_transactions: true },
        RollupInfo { cid: Cid(2), age_ms: 0, delete_rollup: true, delete_transactions: false },
        RollupInfo { cid: Cid(3), age_ms: 0, delete_rollup: false, delete_transactions: false },
    ];
    let plan = gc_plan(&rollups, false).unwrap();
    assert_eq!(Cid(1), plan.expunge_before_cid);
    assert_eq!(vec![Cid(1), Cid(2)], plan.delete_rollups);
    assert!(gc_plan(&rollups, true).is_none());
}

#[test]
fn modseq_packing() {
    assert_eq!(None, Modseq::of(0));
    assert_eq!(None, Modseq::of(5));
    assert_eq!(None, Modseq::of(5 << 32));
    let m = Modseq::of((5 << 32) | 9).unwrap();
    assert_eq!(Uid(5), m.uid());
    assert_eq!(Cid(9), m.cid());
    assert_eq!(m, Modseq::new(Uid(5), Cid(9)));
    assert!(Modseq::new(Uid(1), Cid(9)).precedes(Modseq::new(Uid(2), Cid(1))));
    assert_eq!(None, Uid::of(0));
    assert_eq!(Some(Uid(3)), Uid::of(3));
}

#[test]
fn keyword_comparison_ignores_ascii_case_only() {
    assert!(keyword("Junk").same_as(&keyword("jUNK")));
    assert!(!keyword("Junk").same_as(&keyword("Junk2")));
    assert!(!keyword("Seen").same_as(&Flag::Seen));
    assert!(!keyword("\u{e9}").same_as(&keyword("\u{c9}")));
}

#[test]
fn message_references_follow_log_and_snapshot() {
    let mut mb = mailbox_with(vec![tx(1, append(1, vec![]))], false);
    assert!(mb.message_referenced(&[1, 1, 1, 1]));
    assert!(!mb.message_referenced(&[2, 2, 2, 2]));
    let mut snap = MailboxState::new(7);
    snap.apply(&tx(1, append(2, vec![])));
    mb.set_snapshot(snap);
    assert!(mb.message_referenced(&[2, 2, 2, 2]));
    mb.gc_changes(Cid(1));
    assert!(!mb.message_referenced(&[1, 1, 1, 1]));
    assert!(mb.message_referenced(&[2, 2, 2, 2]));
}

#[test]
fn append_keeps_metadata() {
    let mut state = MailboxState::new(1);
    state.apply(&tx(1, append(3, vec![])));
    let entry = state.entry(Uid(3)).unwrap();
    assert_eq!(103, entry.meta.size);
    assert_eq!(1_600_000_000, entry.meta.internal_date);
    assert_eq!(vec![3u8; 15], entry.meta.email_id);
    assert_eq!(vec![3u8; 4], entry.hash);
    let copy = state.snapshot();
    assert_eq!(vec![3u8; 15], copy.entry(Uid(3)).unwrap().meta.email_id);
}

#[test]
fn corrupt_transaction_stops_the_mailbox() {
    let mut mb = mailbox_with(vec![tx(1, append(1, vec![]))], false);
    assert!(!mb.mark_corrupt(Cid(1)));
    assert!(mb.mark_corrupt(Cid(2)));
    assert!(!mb.mark_corrupt(Cid(3)));
    assert_eq!(Some(Cid(2)), mb.corrupt_at());
    assert!(mb.add_change(tx(3, append(3, vec![]))).is_err());
    assert_eq!(Err(Error::CorruptTransaction), mb.commit(Mutation::Subscribe, 0));
    assert!(matches!(mb.select(), Err(Error::CorruptTransaction)));
}
