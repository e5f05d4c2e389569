use kernel_plugins::record::{FactorRecord, FactorRecordMap, HistoryRecord, HistoryRecordMap, Record, RecordMap};

#[test]
fn factor_record_weighs_the_last_run() {
    let mut r = FactorRecord::new();
    assert_eq!(r.get_time(), 0);
    r.update(100);
    assert_eq!(r.get_time(), 100);
    r.update(200);
    // (90 * 100 + 10 * 200) / 100
    assert_eq!(r.get_time(), 110);
    r.update(0);
    assert_eq!(r.get_time(), 110);
    r.set_factor(50);
    r.update(10);
    // (50 * 110 + 50 * 10) / 100
    assert_eq!(r.get_time(), 60);
}

#[test]
fn factor_record_copy_is_equal() {
    let mut r = FactorRecord::new();
    r.update(33);
    let c = r.copy();
    assert_eq!(c.get_time(), 33);
    r.update(66);
    assert_eq!(c.get_time(), 33);
}

#[test]
fn history_record_averages_the_runs() {
    let mut r = HistoryRecord::new();
    assert_eq!(r.get_time(), 0);
    r.update(10);
    assert_eq!(r.get_time(), 10);
    r.update(20);
    assert_eq!(r.get_time(), 15);
    r.update(30);
    assert_eq!(r.get_time(), 20);
    r.update(0);
    assert_eq!(r.get_time(), 20);
    let c = r.copy();
    assert_eq!(c.get_time(), 20);
}

#[test]
fn history_record_rounds_down() {
    let mut r = HistoryRecord::new();
    r.update(1);
    r.update(2);
    assert_eq!(r.get_time(), 1);
}

#[test]
fn record_maps_store_and_change_records() {
    let mut m: FactorRecordMap<FactorRecord> = FactorRecordMap::new();
    assert!(m.get_record(3).is_none());
    let mut r = FactorRecord::new();
    r.update(40);
    m.insert(3, r);
    match m.get_record(3) {
        Some(rec) => rec.update(140),
        None => panic!("record 3 should be there"),
    }
    assert_eq!(m.get_record(3).map(|r| r.get_time()), Some(50));

    let mut h: HistoryRecordMap<HistoryRecord> = HistoryRecordMap::new();
    let mut r = HistoryRecord::new();
    r.update(8);
    h.insert(1, r);
    h.insert(1, HistoryRecord::new());
    assert_eq!(h.get_record(1).map(|r| r.get_time()), Some(0));
}
