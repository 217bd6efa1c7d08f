use geo::{Distance, Haversine, Point};
use geommdb::command::{parse_command, Command};
use geommdb::decimal::{parse_decimal, Decimal};
use geommdb::node::{forward_outcome, heartbeat_step, HeartbeatAction, HeartbeatEvent, HeartbeatState, Replica, Reply};
use geommdb::replica::Role;
use geommdb::storage::{format_search, great_circle_order, select_within, Candidate, GeoDatabase};
use geommdb::text::chars_of;

fn dec(s: &str) -> Decimal {
    parse_decimal(&chars_of(s)).expect("decimal")
}

fn deg(d: &Decimal) -> f64 {
    d.mant as f64 / 10f64.powi(d.scale as i32)
}

fn add(db: &mut GeoDatabase, key: &str, coords: &[(&str, &str)]) {
    db.geo_add(key.to_string(), coords.iter().map(|(a, b)| (dec(a), dec(b))).collect());
}

/// Sends one line to a node, doing the radius test as a server does.
fn ask(node: &mut Replica, line: &str) -> String {
    match node.handle_line(line, &"127.0.0.1:7000".to_string(), 100) {
        Reply::Text { text, .. } => text,
        Reply::Forward => "FORWARD".to_string(),
        Reply::Search { lat, lon, radius, cands } => {
            let centre = Point::new(deg(&lon), deg(&lat));
            let (dists, within): (Vec<u64>, Vec<bool>) = cands
                .iter()
                .map(|c| {
                    let d = Haversine.distance(Point::new(deg(&c.lon), deg(&c.lat)), centre);
                    (d.to_bits(), d <= deg(&radius))
                })
                .unzip();
            node.finish_search(&cands, &dists, &within, &lat, &lon, &radius)
        }
    }
}

#[test]
fn add_then_search_finds_the_point() {
    let mut node = Replica::new(Role::Leader);
    assert_eq!(ask(&mut node, "GEOADD p1 40.7128 -74.0060\n"), "OK\n");
    assert_eq!(ask(&mut node, "GEOGET p1\n"), "POINT(40.7128 -74.006)\n");
    assert_eq!(ask(&mut node, "GEOSEARCH 40.7128 -74.0060 10\n"), "p1\n");
}

#[test]
fn second_add_replaces_the_first() {
    let mut node = Replica::new(Role::Leader);
    assert_eq!(ask(&mut node, "GEOADD p1 40.7128 -74.0060\n"), "OK\n");
    assert_eq!(ask(&mut node, "GEOADD p1 34.0522 -118.2437\n"), "OK\n");
    assert_eq!(ask(&mut node, "GEOGET p1\n"), "POINT(34.0522 -118.2437)\n");
    assert_eq!(ask(&mut node, "GEOSEARCH 40.7128 -74.0060 10\n"), "\n");
    assert_eq!(ask(&mut node, "GEOSEARCH 34.0522 -118.2437 10\n"), "p1\n");
}

#[test]
fn search_on_empty_store_is_a_newline() {
    let mut node = Replica::new(Role::Leader);
    assert_eq!(ask(&mut node, "GEOSEARCH 0 0 1000\n"), "\n");
}

#[test]
fn polygon_comes_back_in_ingress_order() {
    let mut node = Replica::new(Role::Leader);
    assert_eq!(ask(&mut node, "GEOADD poly 0 0 0 1 1 1 1 0\n"), "OK\n");
    assert_eq!(ask(&mut node, "GEOGET poly\n"), "POLYGON((0.0 0.0, 0.0 1.0, 1.0 1.0, 1.0 0.0))\n");
    assert_eq!(ask(&mut node, "GEOADD tri 10.5 20 11 21 12 20.25\n"), "OK\n");
    assert_eq!(ask(&mut node, "GEOGET tri\n"), "POLYGON((10.5 20.0, 11.0 21.0, 12.0 20.25))\n");
}

#[test]
fn get_of_missing_key_is_not_found() {
    let mut node = Replica::new(Role::Leader);
    assert_eq!(ask(&mut node, "GEOGET nothing\n"), "Not Found\n");
}

#[test]
fn bad_lines_answer_error() {
    let mut node = Replica::new(Role::Leader);
    assert_eq!(ask(&mut node, "GEOADD p1 1 2 3 4\n"), "ERROR\n");
    assert_eq!(ask(&mut node, "FOO\n"), "ERROR\n");
    assert_eq!(ask(&mut node, "GEOSEARCH a b c\n"), "ERROR\n");
    assert_eq!(ask(&mut node, "GEOGET p1\n"), "Not Found\n");
}

#[test]
fn key_space_is_shared_between_kinds() {
    let mut node = Replica::new(Role::Leader);
    ask(&mut node, "GEOADD k 0 0 0 1 1 1\n");
    ask(&mut node, "GEOADD k 5 5\n");
    assert_eq!(ask(&mut node, "GEOGET k\n"), "POINT(5.0 5.0)\n");
    assert_eq!(ask(&mut node, "GEOSEARCH 0 0 0.5\n"), "\n");
    ask(&mut node, "GEOADD k 0 0 0 1 1 1\n");
    assert_eq!(ask(&mut node, "GEOGET k\n"), "POLYGON((0.0 0.0, 0.0 1.0, 1.0 1.0))\n");
    assert_eq!(ask(&mut node, "GEOSEARCH 5 5 1\n"), "\n");
    assert_eq!(ask(&mut node, "GEOSEARCH 1 1 1\n"), "k\n");
}

#[test]
fn points_come_nearest_first_within_the_radius() {
    let mut node = Replica::new(Role::Leader);
    ask(&mut node, "GEOADD far 0 0.002\n");
    ask(&mut node, "GEOADD near 0 0.0005\n");
    ask(&mut node, "GEOADD mid 0 0.001\n");
    ask(&mut node, "GEOADD away 0 1\n");
    // 0.001 degrees of longitude on the equator is about 111 m.
    assert_eq!(ask(&mut node, "GEOSEARCH 0 0 150\n"), "near\nmid\n");
    assert_eq!(ask(&mut node, "GEOSEARCH 0 0 300\n"), "near\nmid\nfar\n");
    assert_eq!(ask(&mut node, "GEOSEARCH 0 0.002 1\n"), "far\n");
}

#[test]
fn every_point_found_lies_within_the_radius() {
    let mut node = Replica::new(Role::Leader);
    for (i, lon) in ["0.0001", "0.0009", "0.0011", "0.003", "0.02"].iter().enumerate() {
        ask(&mut node, &format!("GEOADD p{} 0 {}\n", i, lon));
    }
    let out = ask(&mut node, "GEOSEARCH 0 0 120\n");
    assert_eq!(out, "p0\np1\n");
    for key in out.lines() {
        let got = ask(&mut node, &format!("GEOGET {}\n", key));
        let inner = got.trim_end().trim_start_matches("POINT(").trim_end_matches(')').to_string();
        let parts: Vec<f64> = inner.split(' ').map(|x| x.parse().unwrap()).collect();
        let d = Haversine.distance(Point::new(parts[1], parts[0]), Point::new(0.0, 0.0));
        assert!(d <= 120.0);
    }
}

#[test]
fn polygon_search_uses_the_degree_box() {
    let mut node = Replica::new(Role::Leader);
    ask(&mut node, "GEOADD sq 10 10 10 11 11 11 11 10\n");
    // The box around (0, 0) of half-width 10 touches the polygon's box corner.
    assert_eq!(ask(&mut node, "GEOSEARCH 0 0 10\n"), "sq\n");
    assert_eq!(ask(&mut node, "GEOSEARCH 0 0 9.5\n"), "\n");
    ask(&mut node, "GEOADD p 0 0\n");
    assert_eq!(ask(&mut node, "GEOSEARCH 0 0 10\n"), "p\nsq\n");
}

#[test]
fn nearest_points_lists_each_point_once_sorted() {
    let mut db = GeoDatabase::new();
    add(&mut db, "a", &[("0", "3")]);
    add(&mut db, "b", &[("0", "1")]);
    add(&mut db, "c", &[("0", "2")]);
    add(&mut db, "poly", &[("0", "0"), ("0", "1"), ("1", "1")]);
    add(&mut db, "a", &[("0", "0.5")]);
    let cands = db.nearest_points(&dec("0"), &dec("0"));
    let keys: Vec<&str> = cands.iter().map(|c| c.key.as_str()).collect();
    assert_eq!(keys, vec!["a", "b", "c"]);
    assert_eq!(cands[1].dist, 100_000_000u128 * 100_000_000u128);
    assert!(cands.windows(2).all(|w| w[0].dist <= w[1].dist));
}

#[test]
fn select_within_orders_by_distance_and_stops_outside() {
    let c = |k: &str| Candidate { key: k.to_string(), lat: dec("0"), lon: dec("0"), dist: 0 };
    let cands = vec![c("a"), c("b"), c("c")];
    assert_eq!(select_within(&cands, &vec![30, 10, 20], &vec![false, true, true]), vec!["b".to_string(), "c".to_string()]);
    assert_eq!(select_within(&cands, &vec![1, 2, 3], &vec![true, false, true]), vec!["a".to_string()]);
    assert_eq!(select_within(&cands, &vec![5, 5, 5], &vec![true, true, true]), vec!["a".to_string(), "b".to_string(), "c".to_string()]);
    assert!(select_within(&cands, &vec![3, 1, 2], &vec![true, false, true]).is_empty());
    assert_eq!(great_circle_order(&vec![30, 10, 20, 10]), vec![1, 3, 2, 0]);
    assert_eq!(format_search(&vec!["a".to_string(), "b".to_string()]), "a\nb\n");
    assert_eq!(format_search(&vec![]), "\n");
}

#[test]
fn leader_hands_out_the_log_record() {
    let mut node = Replica::new(Role::Leader);
    match node.handle_line("GEOADD  p1   40.0 -74.0 \n", &"r".to_string(), 1) {
        Reply::Text { text, record } => {
            assert_eq!(text, "OK\n");
            assert_eq!(record, Some("GEOADD p1 40.0 -74.0\n".to_string()));
        }
        _ => panic!("expected a text reply"),
    }
}

#[test]
fn replica_forwards_writes_and_serves_reads() {
    let mut node = Replica::new(Role::Replica);
    assert_eq!(ask(&mut node, "GEOADD p1 1 2\n"), "FORWARD");
    assert_eq!(ask(&mut node, "GEOGET p1\n"), "Not Found\n");
    assert_eq!(ask(&mut node, "HEARTBEAT\n"), "ERROR\n");
    assert_eq!(forward_outcome(Some("OK\n".to_string())), "OK\n");
    assert_eq!(forward_outcome(None), "ERROR\n");
}

#[test]
fn heartbeat_on_leader_records_the_peer() {
    let mut node = Replica::new(Role::Leader);
    assert_eq!(node.live.len(), 0);
    assert_eq!(ask(&mut node, "HEARTBEAT\n"), "OK\n");
    assert_eq!(node.live.len(), 1);
    assert_eq!(ask(&mut node, "HEARTBEAT\n"), "OK\n");
    assert_eq!(node.live.len(), 1);
}

#[test]
fn parse_command_feeds_geo_add() {
    let mut db = GeoDatabase::new();
    if let Some(Command::GeoAdd { key, coords }) = parse_command("GEOADD x -1.5 2.25\n") {
        db.geo_add(key, coords);
    }
    assert_eq!(db.geo_get("x"), Some("POINT(-1.5 2.25)".to_string()));
    assert_eq!(db.len(), 1);
}

#[test]
fn test_leader_replica_interaction() {
    let mut leader = Replica::new(Role::Leader);
    assert_eq!(ask(&mut leader, "GEOADD point1 40.7128 -74.0060\n"), "OK\n");
}

#[test]
fn point_inside_radius_is_found_behind_a_nearer_looking_one() {
    let mut node = Replica::new(Role::Leader);
    // At latitude 60 a degree of longitude is half as long as one of latitude.
    ask(&mut node, "GEOADD a 60 0.01\n");
    ask(&mut node, "GEOADD b 60.009 0\n");
    assert_eq!(ask(&mut node, "GEOSEARCH 60 0 600\n"), "a\n");
    assert_eq!(ask(&mut node, "GEOSEARCH 60 0 1100\n"), "a\nb\n");
}

#[test]
fn a_write_does_not_hide_other_points() {
    let mut node = Replica::new(Role::Leader);
    ask(&mut node, "GEOADD p 0 0.001\n");
    assert_eq!(ask(&mut node, "GEOSEARCH 0 0 150\n"), "p\n");
    ask(&mut node, "GEOADD q 0.0009 0\n");
    assert_eq!(ask(&mut node, "GEOSEARCH 0 0 150\n"), "q\np\n");
    ask(&mut node, "GEOADD q 0.0002 0.0002\n");
    assert_eq!(ask(&mut node, "GEOSEARCH 0 0 150\n"), "q\np\n");
}

#[test]
fn exponent_and_long_fraction_coordinates_are_accepted() {
    let mut node = Replica::new(Role::Leader);
    assert_eq!(ask(&mut node, "GEOADD p 4.07128e1 -74.00601234567\n"), "OK\n");
    assert_eq!(ask(&mut node, "GEOGET p\n"), "POINT(40.7128 -74.00601234567)\n");
    assert_eq!(ask(&mut node, "GEOSEARCH +40.7128 -7.4006e1 1e1\n"), "p\n");
}

#[test]
fn heartbeat_sender_sends_reconnects_and_retries() {
    let (s, a) = heartbeat_step(HeartbeatState::Disconnected, HeartbeatEvent::Tick);
    assert_eq!(s, HeartbeatState::Disconnected);
    assert!(matches!(a, HeartbeatAction::Connect));
    let (s, a) = heartbeat_step(HeartbeatState::Disconnected, HeartbeatEvent::ConnectOk);
    assert_eq!(s, HeartbeatState::Connected);
    assert!(matches!(a, HeartbeatAction::Send { ref text } if text == "HEARTBEAT\n"));
    let (s, a) = heartbeat_step(HeartbeatState::Connected, HeartbeatEvent::SendOk);
    assert_eq!(s, HeartbeatState::Connected);
    assert!(matches!(a, HeartbeatAction::Wait));
    let (s, a) = heartbeat_step(HeartbeatState::Connected, HeartbeatEvent::Tick);
    assert_eq!(s, HeartbeatState::Connected);
    assert!(matches!(a, HeartbeatAction::Send { ref text } if text == "HEARTBEAT\n"));
    let (s, a) = heartbeat_step(HeartbeatState::Connected, HeartbeatEvent::SendFailed);
    assert_eq!(s, HeartbeatState::Disconnected);
    assert!(matches!(a, HeartbeatAction::Connect));
    let (s, a) = heartbeat_step(HeartbeatState::Disconnected, HeartbeatEvent::ConnectFailed);
    assert_eq!(s, HeartbeatState::Disconnected);
    assert!(matches!(a, HeartbeatAction::Wait));
}

#[test]
fn polygon_box_test_uses_exact_values() {
    let mut node = Replica::new(Role::Leader);
    ask(&mut node, "GEOADD poly 0 1.000000009 1 1.000000009 1 2\n");
    assert_eq!(ask(&mut node, "GEOSEARCH 0 0 1\n"), "\n");
    assert_eq!(ask(&mut node, "GEOSEARCH 0 0 1.000000009\n"), "poly\n");
}

#[test]
fn tokens_split_on_unicode_whitespace() {
    let mut node = Replica::new(Role::Leader);
    assert_eq!(ask(&mut node, "GEOADD\u{a0}p 1\u{3000}2\n"), "OK\n");
    assert_eq!(ask(&mut node, "GEOGET p\n"), "POINT(1.0 2.0)\n");
}
