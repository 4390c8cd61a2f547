use sluice::history::{History, Snapshot};

#[test]
fn append_range_roundtrips() {
    let mut h = History::load(vec![], 30);
    h.append(100, 5);
    h.append(200, 9);
    let all = h.range(0, 1000, 100);
    assert_eq!(all.len(), 2);
    assert_eq!(all[1].total, 9);
    // Range filtering.
    assert_eq!(h.range(150, 1000, 100).len(), 1);
}

#[test]
fn prunes_beyond_retention() {
    let mut h = History::load(vec![], 1); // 1 day = 86400s
    h.append(1_000, 1);
    h.append(1_000 + 200_000, 2); // 200k s later: the first is now expired
    let all = h.range(0, u64::MAX, 100);
    assert_eq!(all.len(), 1, "old snapshot should have been pruned");
    assert_eq!(all[0].total, 2);
}

#[test]
fn persists_and_reloads() {
    let mut h = History::load(vec![], 30);
    h.append(10, 1);
    h.append(20, 4);
    let kept: Vec<Snapshot> = h
        .snapshots()
        .iter()
        .map(|s| Snapshot {
            t: s.t,
            total: s.total,
        })
        .collect();
    let reloaded = History::load(kept, 30);
    assert_eq!(reloaded.range(0, 1000, 100).len(), 2);
}

#[test]
fn downsamples_to_max() {
    let mut h = History::load(vec![], 0);
    for i in 0..1000 {
        h.append(i, i);
    }
    assert!(h.range(0, u64::MAX, 50).len() <= 50);
}

#[test]
fn a_downsampled_range_starts_at_its_first_snapshot() {
    let mut h = History::load(vec![], 0);
    for i in 0..10 {
        h.append(i, i * 3);
    }
    let r = h.range(2, 8, 3);
    let at: Vec<u64> = r.iter().map(|s| s.t).collect();
    assert_eq!(at, [2, 5, 8]);
    assert_eq!(h.range(2, 8, 100).len(), 7);
    assert!(h.range(2, 8, 0).len() <= 7);
}
