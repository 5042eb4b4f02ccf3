use crymap_engine::ids::{Cid, Modseq, Uid};
use crymap_engine::rollup::{
    change_is_collectable, cid_of_file_name, classify_rollups, expunge_before_cid,
    modseq_of_file_name, RollupInfo, RollupPolicy,
};

fn policy() -> RollupPolicy {
    RollupPolicy {
        old_grace_ms: 2_000,
        excess_grace_ms: 1_000,
        excess_threshold: 4,
    }
}

fn r(cid: u32, age_ms: u64) -> RollupInfo {
    RollupInfo {
        cid: Cid(cid),
        age_ms,
        delete_rollup: false,
        delete_transactions: false,
    }
}

#[test]
fn classify_rollups_empty() {
    let mut rollups: Vec<RollupInfo> = vec![];
    classify_rollups(&mut rollups, &policy());
    assert!(rollups.is_empty());
}

#[test]
fn classify_rollups_single_young() {
    let mut rollups = vec![r(1234, 100)];
    classify_rollups(&mut rollups, &policy());
    assert_eq!(vec![r(1234, 100)], rollups);
}

#[test]
fn classify_rollups_single_old() {
    let mut rollups = vec![r(1234, 10_000_000)];
    classify_rollups(&mut rollups, &policy());
    assert_eq!(vec![r(1234, 10_000_000)], rollups);
}

#[test]
fn classify_rollups_one_young_one_old() {
    let mut rollups = vec![r(1000, 100), r(900, 10_000_000)];
    classify_rollups(&mut rollups, &policy());
    assert_eq!(
        vec![
            RollupInfo {
                delete_rollup: true,
                delete_transactions: true,
                ..r(900, 10_000_000)
            },
            r(1000, 100)
        ],
        rollups
    );
}

#[test]
fn classify_rollups_one_old_one_young() {
    let mut rollups = vec![r(900, 10_000_000), r(1000, 100)];
    classify_rollups(&mut rollups, &policy());
    assert_eq!(
        vec![
            RollupInfo {
                delete_rollup: true,
                delete_transactions: true,
                ..r(900, 10_000_000)
            },
            r(1000, 100)
        ],
        rollups
    );
}

#[test]
fn classify_rollups_excess() {
    let mut rollups = vec![
        r(1, 5_000), // delete everything
        r(2, 1_900), // delete rollup only
        r(3, 1_800), // excess allowance
        r(4, 1_700), // excess allowance
        r(5, 1_600), // excess allowance
        r(6, 1_500), // most recent
    ];
    classify_rollups(&mut rollups, &policy());
    assert_eq!(
        vec![
            RollupInfo {
                delete_rollup: true,
                delete_transactions: true,
                ..r(1, 5_000)
            },
            RollupInfo {
                delete_rollup: true,
                ..r(2, 1_900)
            },
            r(3, 1_800),
            r(4, 1_700),
            r(5, 1_600),
            r(6, 1_500),
        ],
        rollups
    );
}

#[test]
fn classify_rollups_unsorted_excess_keeps_latest() {
    let mut rollups = vec![
        r(6, 9_000),
        r(3, 9_000),
        r(1, 9_000),
        r(5, 9_000),
        r(2, 9_000),
        r(4, 9_000),
    ];
    classify_rollups(&mut rollups, &policy());
    let cids: Vec<u32> = rollups.iter().map(|r| r.cid.0).collect();
    assert_eq!(vec![1, 2, 3, 4, 5, 6], cids);
    for rollup in &rollups[..5] {
        assert!(rollup.delete_rollup && rollup.delete_transactions);
    }
    assert_eq!(r(6, 9_000), rollups[5]);
}

#[test]
fn classify_rollups_excess_young_are_kept() {
    let mut rollups = vec![r(1, 500), r(2, 500), r(3, 500), r(4, 500), r(5, 500)];
    classify_rollups(&mut rollups, &policy());
    assert!(rollups.iter().all(|r| !r.delete_rollup && !r.delete_transactions));
}

#[test]
fn classify_rollups_standard_policy_is_a_day() {
    let mut rollups = vec![r(1, 10_000_000), r(2, 100)];
    classify_rollups(&mut rollups, &RollupPolicy::standard());
    assert_eq!(vec![r(1, 10_000_000), r(2, 100)], rollups);
    let mut rollups = vec![r(1, 86_400_000), r(2, 100)];
    classify_rollups(&mut rollups, &RollupPolicy::standard());
    assert!(rollups[0].delete_transactions);
}

#[test]
fn expunge_floor_is_greatest_deleted_transactions() {
    let mut rollups = vec![
        r(1, 5_000),
        r(2, 4_000),
        r(3, 1_800),
        r(4, 1_700),
        r(5, 1_600),
        r(6, 1_500),
    ];
    classify_rollups(&mut rollups, &policy());
    assert_eq!(Cid(2), expunge_before_cid(&rollups));
    assert_eq!(Cid(0), expunge_before_cid(&vec![r(7, 100)]));
}

#[test]
fn file_names() {
    let raw = (3u64 << 32) | 17;
    assert_eq!(
        Some(Modseq::new(Uid(3), Cid(17))),
        modseq_of_file_name(&raw.to_string())
    );
    assert_eq!(None, modseq_of_file_name("17"));
    assert_eq!(None, modseq_of_file_name("tmp.123"));
    assert_eq!(None, modseq_of_file_name(""));
    assert_eq!(Some(Cid(42)), cid_of_file_name("42"));
    assert_eq!(Some(Cid(42)), cid_of_file_name("+42"));
    assert_eq!(None, cid_of_file_name("0"));
    assert_eq!(None, cid_of_file_name("4294967296"));
    assert_eq!(None, cid_of_file_name("-1"));
    assert!(change_is_collectable("5", Cid(5)));
    assert!(!change_is_collectable("6", Cid(5)));
    assert!(!change_is_collectable("x", Cid(5)));
}
