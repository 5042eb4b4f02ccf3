//! Rollup classification: which snapshots, and which transactions, can be
//! trimmed once a newer snapshot exists.

use vstd::prelude::*;

use crate::ids::{Cid, Modseq, valid_modseq_raw};
use crate::text::{decimal_u64, parse_u64};

verus! {

broadcast use vstd::seq_lib::group_to_multiset_ensures;

/// What is known of one rollup file when deciding whether to remove it.
#[derive(Clone, Copy, Debug, PartialEq, Eq, Structural)]
pub struct RollupInfo {
    /// The CID of the last change the snapshot includes.
    pub cid: Cid,
    /// How long ago the file was written, in milliseconds.
    pub age_ms: u64,
    /// The snapshot itself may be removed.
    pub delete_rollup: bool,
    /// The transactions the snapshot includes may be removed.
    pub delete_transactions: bool,
}

/// The thresholds that drive rollup trimming.
#[derive(Clone, Copy, Debug, PartialEq, Eq, Structural)]
pub struct RollupPolicy {
    /// Rollups other than the latest that are at least this old (in
    /// milliseconds) are removed together with the transactions they hold.
    pub old_grace_ms: u64,
    /// Rollups beyond the most recent `excess_threshold` that are at least
    /// this old (in milliseconds) are removed, keeping their transactions.
    pub excess_grace_ms: u64,
    /// How many rollups may accumulate before the excess rule engages.
    pub excess_threshold: usize,
}

/// One day.
pub const OLD_ROLLUP_GRACE_PERIOD_MS: u64 = 86_400_000;
/// One minute.
pub const EXCESS_ROLLUP_GRACE_PERIOD_MS: u64 = 60_000;
/// The number of rollups tolerated before excess trimming starts.
pub const EXCESS_ROLLUP_THRESHOLD: usize = 4;

impl RollupPolicy {
    /// At least one rollup is always kept.
    pub open spec fn wf(self) -> bool {
        self.excess_threshold >= 1
    }

    /// The policy used by a running server.
    pub fn standard() -> (r: RollupPolicy)
        ensures
            r.old_grace_ms == OLD_ROLLUP_GRACE_PERIOD_MS,
            r.excess_grace_ms == EXCESS_ROLLUP_GRACE_PERIOD_MS,
            r.excess_threshold == EXCESS_ROLLUP_THRESHOLD,
        r.wf(),
    {
        RollupPolicy {
            old_grace_ms: OLD_ROLLUP_GRACE_PERIOD_MS,
            excess_grace_ms: EXCESS_ROLLUP_GRACE_PERIOD_MS,
            excess_threshold: EXCESS_ROLLUP_THRESHOLD,
        }
    }
}

/// The order rollups are sorted in: by CID, then age, then the two marks
/// (unset before set).
pub open spec fn rollup_le(a: RollupInfo, b: RollupInfo) -> bool {
    a.cid.0 < b.cid.0 || (a.cid.0 == b.cid.0 && (a.age_ms < b.age_ms || (a.age_ms == b.age_ms
        && ((!a.delete_rollup && b.delete_rollup) || (a.delete_rollup == b.delete_rollup && (
    !a.delete_transactions || b.delete_transactions))))))
}

pub open spec fn rollups_sorted(s: Seq<RollupInfo>) -> bool {
    forall|a: int, b: int| 0 <= a < b < s.len() ==> rollup_le(#[trigger] s[a], #[trigger] s[b])
}

/// Whether the rollup at position `i` of `n`, sorted, is old enough to go
/// with its transactions.
pub open spec fn is_old(r: RollupInfo, i: int, n: int, p: RollupPolicy) -> bool {
    i < n - 1 && r.age_ms >= p.old_grace_ms
}

/// Whether the rollup at position `i` of `n`, sorted, is one of the excess
/// ones and old enough to go.
pub open spec fn is_excess(r: RollupInfo, i: int, n: int, p: RollupPolicy) -> bool {
    n > p.excess_threshold && i < n - p.excess_threshold && r.age_ms >= p.excess_grace_ms
}

/// The rollup at position `i` of `n`, sorted, with its marks set.
pub open spec fn classified(r: RollupInfo, i: int, n: int, p: RollupPolicy) -> RollupInfo {
    RollupInfo {
        delete_rollup: r.delete_rollup || is_old(r, i, n, p) || is_excess(r, i, n, p),
        delete_transactions: r.delete_transactions || is_old(r, i, n, p),
        ..r
    }
}

/// Whether `out` is `sorted` with every element classified.
pub open spec fn classification_of(out: Seq<RollupInfo>, sorted: Seq<RollupInfo>, p: RollupPolicy) -> bool {
    &&& out.len() == sorted.len()
    &&& forall|i: int| 0 <= i < out.len()
        ==> #[trigger] out[i] == classified(sorted[i], i, out.len() as int, p)
}

fn rollup_le_exec(a: &RollupInfo, b: &RollupInfo) -> (r: bool)
    ensures
        r == rollup_le(*a, *b),
{
    if a.cid.0 != b.cid.0 {
        a.cid.0 < b.cid.0
    } else if a.age_ms != b.age_ms {
        a.age_ms < b.age_ms
    } else if a.delete_rollup != b.delete_rollup {
        b.delete_rollup
    } else {
        !a.delete_transactions || b.delete_transactions
    }
}

proof fn lemma_swap_multiset(s: Seq<RollupInfo>, i: int, j: int)
    requires
        0 <= i < s.len(),
        0 <= j < s.len(),
        i != j,
    ensures
        s.update(i, s[j]).update(j, s[i]).to_multiset() == s.to_multiset(),
{
    broadcast use vstd::seq_lib::to_multiset_update;
    broadcast use vstd::multiset::group_multiset_axioms;

    let s1 = s.update(i, s[j]);
    assert(s1[j] == s[j]);
    assert(s1.update(j, s[i]).to_multiset() =~= s.to_multiset());
}

/// Sorts `rollups` by `rollup_le`.
fn sort_rollups(rollups: &mut Vec<RollupInfo>)
    ensures
        final(rollups)@.to_multiset() == old(rollups)@.to_multiset(),
        final(rollups)@.len() == old(rollups)@.len(),
        rollups_sorted(final(rollups)@),
{
    let n = rollups.len();
    if n == 0 {
        return;
    }
    let mut i: usize = 1;
    while i < n
        invariant
            n == rollups@.len(),
            1 <= i <= n,
            rollups@.to_multiset() == old(rollups)@.to_multiset(),
            forall|a: int, b: int| 0 <= a < b < i ==> rollup_le(#[trigger] rollups@[a], #[trigger] rollups@[b]),
        decreases n - i,
    {
        let mut j: usize = i;
        while j > 0 && !rollup_le_exec(&rollups[j - 1], &rollups[j])
            invariant
                n == rollups@.len(),
                1 <= i < n,
                0 <= j <= i,
                rollups@.to_multiset() == old(rollups)@.to_multiset(),
                forall|a: int, b: int| 0 <= a < b <= i && a != j && b != j
                    ==> rollup_le(#[trigger] rollups@[a], #[trigger] rollups@[b]),
                forall|b: int| j < b <= i ==> rollup_le(rollups@[j as int], #[trigger] rollups@[b]),
                0 < j < i ==> rollup_le(rollups@[j - 1], rollups@[j + 1]),
            decreases j,
        {
            let a = rollups[j - 1];
            let b = rollups[j];
            proof { lemma_swap_multiset(rollups@, j - 1, j as int); }
            rollups.set(j - 1, b);
            rollups.set(j, a);
            j = j - 1;
        }
        i = i + 1;
    }
}

/// Orders `rollups` so that the latest one (the one to load) comes last, and
/// sets `delete_rollup` and `delete_transactions` where `policy` allows.
///
/// Every rollup but the latest that is at least `old_grace_ms` old is
/// marked for removal together with its transactions. Where there are more
/// than `excess_threshold` rollups, each of the oldest `n - excess_threshold`
/// that is at least `excess_grace_ms` old is marked for removal alone. The
/// latest rollup is never marked. Marks already set stay set.
pub fn classify_rollups(rollups: &mut Vec<RollupInfo>, policy: &RollupPolicy)
    requires
        policy.wf(),
    ensures
        exists|s: Seq<RollupInfo>|
            s.to_multiset() == old(rollups)@.to_multiset() && rollups_sorted(s)
                && classification_of(final(rollups)@, s, *policy),
        final(rollups)@.len() == old(rollups)@.len(),
        // Ascending by CID: the greatest CID comes last.
        forall|a: int, b: int| 0 <= a < b < final(rollups)@.len()
            ==> (#[trigger] final(rollups)@[a]).cid.0 <= (#[trigger] final(rollups)@[b]).cid.0,
        // The latest rollup is left as it came.
        final(rollups)@.len() > 0 ==> old(rollups)@.contains(final(rollups)@.last()),
        forall|i: int| 0 <= i < final(rollups)@.len() - 1
            && (#[trigger] final(rollups)@[i]).age_ms >= policy.old_grace_ms
            ==> final(rollups)@[i].delete_rollup && final(rollups)@[i].delete_transactions,
        forall|i: int| 0 <= i < final(rollups)@.len() && final(rollups)@.len() > policy.excess_threshold
            && i < final(rollups)@.len() - policy.excess_threshold
            && (#[trigger] final(rollups)@[i]).age_ms >= policy.excess_grace_ms
            ==> final(rollups)@[i].delete_rollup,
{
    if rollups.len() == 0 {
        assert(rollups@.to_multiset() == old(rollups)@.to_multiset() && rollups_sorted(rollups@)
            && classification_of(rollups@, rollups@, *policy));
        return;
    }
    sort_rollups(rollups);
    let ghost sorted = rollups@;
    let len = rollups.len();
    let mut i: usize = 0;
    while i < len
        invariant
            len == rollups@.len(),
            sorted.len() == len,
            0 <= i <= len,
            forall|k: int| 0 <= k < i ==> #[trigger] rollups@[k] == classified(sorted[k], k, len as int, *policy),
            forall|k: int| i <= k < len ==> #[trigger] rollups@[k] == sorted[k],
        decreases len - i,
    {
        let mut r = rollups[i];
        if i < len - 1 && r.age_ms >= policy.old_grace_ms {
            r.delete_rollup = true;
            r.delete_transactions = true;
        }
        if len > policy.excess_threshold && i < len - policy.excess_threshold
            && r.age_ms >= policy.excess_grace_ms {
            r.delete_rollup = true;
        }
        rollups.set(i, r);
        i = i + 1;
    }
    proof {
        assert(classification_of(rollups@, sorted, *policy));
        assert(sorted.to_multiset() == old(rollups)@.to_multiset() && rollups_sorted(sorted)
            && classification_of(rollups@, sorted, *policy));
        let last = len - 1;
        assert(rollups@.last() == sorted[last as int]);
        assert(sorted.to_multiset().count(sorted[last as int]) > 0);
        assert(old(rollups)@.to_multiset().count(sorted[last as int]) > 0);
        assert forall|a: int, b: int| 0 <= a < b < rollups@.len()
            implies (#[trigger] rollups@[a]).cid.0 <= (#[trigger] rollups@[b]).cid.0 by {
            assert(rollup_le(sorted[a], sorted[b]));
        }
    }
}

/// The modseq a rollup file is named by: its name is the modseq in
/// decimal. `None` for any other name.
pub fn modseq_of_file_name(name: &str) -> (r: Option<Modseq>)
    ensures
        r.is_some() == (decimal_u64(name@).is_some() && valid_modseq_raw(decimal_u64(name@).unwrap())),
        r.is_some() ==> r.unwrap().raw() == decimal_u64(name@).unwrap() && r.unwrap().valid(),
{
    match parse_u64(name) {
        Some(raw) => Modseq::of(raw),
        None => None,
    }
}

/// The CID a transaction file is named by: its name is the CID in decimal.
/// `None` for any other name, and for zero.
pub fn cid_of_file_name(name: &str) -> (r: Option<Cid>)
    ensures
        r.is_some() == (decimal_u64(name@).is_some() && 0 < decimal_u64(name@).unwrap() <= u32::MAX),
        r.is_some() ==> r.unwrap().0 == decimal_u64(name@).unwrap(),
{
    match parse_u64(name) {
        Some(raw) => {
            if raw > 0 && raw <= 0xFFFF_FFFF {
                Some(Cid(raw as u32))
            } else {
                None
            }
        },
        None => None,
    }
}

/// Whether the transaction file `name` may go once transactions at or below
/// `expunge_before_cid` are collectable: its name is a CID no greater.
pub fn change_is_collectable(name: &str, expunge_before_cid: Cid) -> (r: bool)
    ensures
        r == (decimal_u64(name@).is_some() && 0 < decimal_u64(name@).unwrap() <= expunge_before_cid.0),
{
    match cid_of_file_name(name) {
        Some(cid) => cid.0 <= expunge_before_cid.0,
        None => false,
    }
}

/// The greatest CID among the rollups marked `delete_transactions`, or 0
/// where none is.
pub open spec fn expunge_floor(rollups: Seq<RollupInfo>) -> u32
    decreases rollups.len(),
{
    if rollups.len() == 0 {
        0
    } else {
        let rest = expunge_floor(rollups.drop_last());
        let r = rollups.last();
        if r.delete_transactions && r.cid.0 > rest {
            r.cid.0
        } else {
            rest
        }
    }
}

/// The CID at or below which every transaction may be removed: the
/// greatest CID of a rollup marked `delete_transactions`, or `Cid(0)`.
pub fn expunge_before_cid(rollups: &Vec<RollupInfo>) -> (r: Cid)
    ensures
        r.0 == expunge_floor(rollups@),
        forall|i: int| 0 <= i < rollups@.len() && (#[trigger] rollups@[i]).delete_transactions
            ==> rollups@[i].cid.0 <= r.0,
        r.0 == 0 || exists|i: int| 0 <= i < rollups@.len() && (#[trigger] rollups@[i]).delete_transactions
            && rollups@[i].cid == r,
{
    let mut max: u32 = 0;
    let mut i: usize = 0;
    while i < rollups.len()
        invariant
            0 <= i <= rollups@.len(),
            max == expunge_floor(rollups@.subrange(0, i as int)),
            forall|k: int| 0 <= k < i && (#[trigger] rollups@[k]).delete_transactions
                ==> rollups@[k].cid.0 <= max,
            max == 0 || exists|k: int| 0 <= k < i && (#[trigger] rollups@[k]).delete_transactions
                && rollups@[k].cid.0 == max,
        decreases rollups@.len() - i,
    {
        assert(rollups@.subrange(0, i + 1).drop_last() == rollups@.subrange(0, i as int));
        let r = rollups[i];
        if r.delete_transactions && r.cid.0 > max {
            max = r.cid.0;
        }
        i = i + 1;
    }
    assert(rollups@.subrange(0, rollups@.len() as int) == rollups@);
    Cid(max)
}

} // verus!
