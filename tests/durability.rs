use geommdb::decimal::{parse_decimal, Decimal};
use geommdb::persistence::{create_snapshot, load_snapshot, load_wal, recover, wal_record, ReplayError, WalEntry};
use geommdb::replica::{LiveReplicas, DEAD_TIMEOUT_S, MONITOR_PERIOD_S};
use geommdb::storage::GeoDatabase;
use geommdb::text::chars_of;

fn dec(s: &str) -> Decimal {
    parse_decimal(&chars_of(s)).expect("decimal")
}

fn coords(v: &[(&str, &str)]) -> Vec<(Decimal, Decimal)> {
    v.iter().map(|(a, b)| (dec(a), dec(b))).collect()
}

fn keys(db: &GeoDatabase) -> Vec<String> {
    (0..db.len()).map(|i| db.entry(i).0.clone()).collect()
}

#[test]
fn wal_replay_restores_a_point() {
    let wal = wal_record(WalEntry::GeoAdd { key: "p1".to_string(), coords: coords(&[("40.0", "-74.0")]) });
    assert_eq!(wal, "GEOADD p1 40.0 -74.0\n");
    let mut db = GeoDatabase::new();
    assert_eq!(load_wal(&mut db, &wal), Ok(1));
    assert_eq!(db.geo_get("p1"), Some("POINT(40.0 -74.0)".to_string()));
}

#[test]
fn wal_replay_keeps_last_write() {
    let mut wal = String::new();
    wal += &wal_record(WalEntry::GeoAdd { key: "a".to_string(), coords: coords(&[("1", "1")]) });
    wal += &wal_record(WalEntry::GeoAdd { key: "b".to_string(), coords: coords(&[("2", "2")]) });
    wal += &wal_record(WalEntry::GeoAdd { key: "a".to_string(), coords: coords(&[("0", "0"), ("0", "1"), ("1", "1")]) });
    let mut db = GeoDatabase::new();
    assert_eq!(load_wal(&mut db, &wal), Ok(3));
    assert_eq!(db.len(), 2);
    assert_eq!(keys(&db), vec!["b".to_string(), "a".to_string()]);
    assert_eq!(db.geo_get("a"), Some("POLYGON((0.0 0.0, 0.0 1.0, 1.0 1.0))".to_string()));
    assert_eq!(db.geo_get("b"), Some("POINT(2.0 2.0)".to_string()));
}

#[test]
fn wal_replay_stops_at_a_bad_record() {
    let wal = "GEOADD a 1 1\nGEOGET a\nGEOADD b 2 2\n";
    let mut db = GeoDatabase::new();
    assert_eq!(load_wal(&mut db, wal), Err(ReplayError::BadRecord { index: 1 }));
    assert_eq!(db.geo_get("a"), Some("POINT(1.0 1.0)".to_string()));
    assert_eq!(db.geo_get("b"), None);
}

#[test]
fn wal_replay_reports_a_torn_tail() {
    let wal = "GEOADD a 1 1\nGEOADD b 2 2\nGEOADD c 3";
    let mut db = GeoDatabase::new();
    assert_eq!(load_wal(&mut db, wal), Err(ReplayError::TornRecord));
    assert_eq!(db.len(), 2);
    assert_eq!(db.geo_get("c"), None);
    let mut empty = GeoDatabase::new();
    assert_eq!(load_wal(&mut empty, ""), Ok(0));
}

#[test]
fn snapshot_then_load_gives_the_same_store() {
    let mut db = GeoDatabase::new();
    db.geo_add("p".to_string(), coords(&[("1.25", "-3")]));
    db.geo_add("poly".to_string(), coords(&[("0", "0"), ("0", "1"), ("1", "1"), ("1", "0")]));
    db.geo_add("q".to_string(), coords(&[("-0.5", "7")]));
    db.geo_add("p".to_string(), coords(&[("2", "2")]));
    let text = create_snapshot(&db);
    assert_eq!(
        text,
        "GEOADD poly 0.0 0.0 0.0 1.0 1.0 1.0 1.0 0.0\nGEOADD q -0.5 7.0\nGEOADD p 2.0 2.0\n"
    );
    let (back, res) = load_snapshot(&text);
    assert_eq!(res, Ok(3));
    assert_eq!(keys(&back), keys(&db));
    for k in ["p", "poly", "q", "none"] {
        assert_eq!(back.geo_get(k), db.geo_get(k));
    }
    for (lat, lon, r) in [("0", "0", "10"), ("2", "2", "1"), ("-0.5", "7", "0.1")] {
        let (lat, lon, r) = (dec(lat), dec(lon), dec(r));
        let a = db.nearest_points(&lat, &lon);
        let b = back.nearest_points(&lat, &lon);
        let within = vec![true; a.len()];
        let dists: Vec<u64> = (0..a.len() as u64).collect();
        assert_eq!(db.geo_search(&a, &dists, &within, &lat, &lon, &r), back.geo_search(&b, &dists, &within, &lat, &lon, &r));
    }
}

#[test]
fn recovery_loads_snapshot_then_log() {
    let snap = "GEOADD a 1 1\nGEOADD b 2 2\n";
    let wal = "GEOADD b 3 3\nGEOADD c 4 4\n";
    let (db, report) = recover(Some(snap), Some(wal));
    assert_eq!(report.snapshot, Some(Ok(2)));
    assert_eq!(report.wal, Some(Ok(2)));
    assert_eq!(db.geo_get("b"), Some("POINT(3.0 3.0)".to_string()));
    assert_eq!(db.len(), 3);
    let (partial, res) = load_snapshot("GEOADD a 1 1\nGEOGET a\n");
    assert_eq!(res, Err(ReplayError::BadRecord { index: 1 }));
    assert_eq!(partial.len(), 0);
    let (db, report) = recover(Some("GEOADD a 1"), Some(wal));
    assert_eq!(report.snapshot, Some(Err(ReplayError::TornRecord)));
    assert_eq!(db.geo_get("a"), None);
    assert_eq!(db.len(), 2);
    let (db, report) = recover(None, None);
    assert!(report.snapshot.is_none() && report.wal.is_none());
    assert_eq!(db.len(), 0);
}

#[test]
fn heartbeats_keep_replicas_alive() {
    let mut live = LiveReplicas::new();
    live.handle_heartbeat("10.0.0.1:7000".to_string(), 100);
    live.handle_heartbeat("10.0.0.2:7000".to_string(), 100);
    live.handle_heartbeat("10.0.0.1:7000".to_string(), 105);
    assert_eq!(live.len(), 2);
    assert!(live.monitor_replicas(100 + DEAD_TIMEOUT_S).is_empty());
    assert_eq!(live.len(), 2);
    let dead = live.monitor_replicas(100 + DEAD_TIMEOUT_S + 1);
    assert_eq!(dead, vec!["10.0.0.2:7000".to_string()]);
    assert_eq!(live.len(), 1);
    let dead = live.monitor_replicas(105 + MONITOR_PERIOD_S + DEAD_TIMEOUT_S);
    assert_eq!(dead, vec!["10.0.0.1:7000".to_string()]);
    assert_eq!(live.len(), 0);
}

#[test]
fn dead_replicas_reads_without_removing() {
    let mut live = LiveReplicas::new();
    live.handle_heartbeat("a".to_string(), 0);
    live.handle_heartbeat("b".to_string(), 50);
    assert_eq!(live.dead_replicas(55), vec!["a".to_string()]);
    assert_eq!(live.len(), 2);
    live.remove_replicas(&vec!["a".to_string(), "zzz".to_string()], 55);
    assert_eq!(live.len(), 1);
    assert!(live.dead_replicas(60).is_empty());
}

#[test]
fn heartbeat_between_scan_and_removal_keeps_the_replica() {
    let mut live = LiveReplicas::new();
    live.handle_heartbeat("r1".to_string(), 0);
    live.handle_heartbeat("r2".to_string(), 0);
    let dead = live.dead_replicas(20);
    assert_eq!(dead.len(), 2);
    live.handle_heartbeat("r1".to_string(), 20);
    live.remove_replicas(&dead, 20);
    assert_eq!(live.len(), 1);
    assert!(live.dead_replicas(30).is_empty());
    assert_eq!(live.dead_replicas(31), vec!["r1".to_string()]);
}
