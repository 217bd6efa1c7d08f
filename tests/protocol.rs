use geommdb::command::{format_command, parse_command, Command};
use geommdb::decimal::{parse_decimal, push_decimal, Decimal};
use geommdb::text::{chars_of, join_tokens, split_tokens};

fn dec(s: &str) -> Decimal {
    parse_decimal(&chars_of(s)).expect("decimal")
}

fn dec_text(d: &Decimal) -> String {
    let mut s = String::new();
    push_decimal(&mut s, d);
    s
}

#[test]
fn decimal_reads_sign_and_scale() {
    assert_eq!(dec("40.7128"), Decimal { mant: 407128, scale: 4 });
    assert_eq!(dec("-74.0060"), Decimal { mant: -74006, scale: 3 });
    assert_eq!(dec("40.0"), Decimal { mant: 40, scale: 0 });
    assert_eq!(dec("1.2300"), dec("1.23"));
    assert_eq!(dec("0"), Decimal { mant: 0, scale: 0 });
    assert_eq!(dec("-0.05"), Decimal { mant: -5, scale: 2 });
    assert_eq!(dec("9999999999.999999999999999999"), Decimal { mant: 9_999_999_999_999_999_999_999_999_999, scale: 18 });
}

#[test]
fn decimal_reads_floating_point_forms() {
    assert_eq!(dec("1e3"), Decimal { mant: 1000, scale: 0 });
    assert_eq!(dec("+1"), Decimal { mant: 1, scale: 0 });
    assert_eq!(dec(".5"), Decimal { mant: 5, scale: 1 });
    assert_eq!(dec("5."), Decimal { mant: 5, scale: 0 });
    assert_eq!(dec("1234567890"), Decimal { mant: 1234567890, scale: 0 });
    assert_eq!(dec("0.1234567890"), Decimal { mant: 123456789, scale: 9 });
    assert_eq!(dec("-1.5E-3"), Decimal { mant: -15, scale: 4 });
    assert_eq!(dec("2.50e1"), Decimal { mant: 25, scale: 0 });
    assert_eq!(dec("0.000000000000000000000"), Decimal { mant: 0, scale: 0 });
    assert_eq!(dec("4E+2"), Decimal { mant: 400, scale: 0 });
    assert_eq!(dec("0e999"), Decimal { mant: 0, scale: 0 });
    assert_eq!(dec("-74.006012345678901"), Decimal { mant: -74006012345678901, scale: 15 });
}

#[test]
fn decimal_rejects_other_shapes() {
    for t in [
        "", "-", "+", ".", "e5", "1e", "1e+", "NaN", "inf", "1.2.3", "--1", "+-1", "4a", "1e1000", "1e2.5",
        "12345678901", "1e10", "0.0000000000000000001", "0x10",
    ] {
        assert!(parse_decimal(&chars_of(t)).is_none(), "{}", t);
    }
}

#[test]
fn decimal_writes_as_read() {
    for t in ["40.7128", "40.0", "-0.05", "-118.2437", "9999999999.999999999999999999", "0.123456789", "0.0"] {
        assert_eq!(dec_text(&dec(t)), t);
    }
    assert_eq!(dec_text(&dec("-74.0060")), "-74.006");
    assert_eq!(dec_text(&dec("7")), "7.0");
    assert_eq!(dec_text(&dec("-0")), "0.0");
    assert_eq!(dec_text(&dec("1e3")), "1000.0");
    assert_eq!(dec_text(&dec(".5")), "0.5");
    assert_eq!(dec_text(&dec("+2.")), "2.0");
    assert_eq!(dec_text(&Decimal { mant: -5, scale: 0 }), "-5.0");
    assert_eq!(dec_text(&Decimal { mant: 12, scale: 3 }), "0.012");
}

#[test]
fn tokens_split_on_any_whitespace() {
    let ts = split_tokens(&chars_of("  GEOGET\t key1 \r\n"));
    let words: Vec<String> = ts.iter().map(|t| t.iter().collect()).collect();
    assert_eq!(words, vec!["GEOGET".to_string(), "key1".to_string()]);
    assert!(split_tokens(&chars_of(" \n ")).is_empty());
    assert_eq!(join_tokens(&ts), "GEOGET key1\n");
}

#[test]
fn parse_geoadd_point() {
    match parse_command("GEOADD p1 40.7128 -74.0060\n") {
        Some(Command::GeoAdd { key, coords }) => {
            assert_eq!(key, "p1");
            assert_eq!(coords, vec![(dec("40.7128"), dec("-74.0060"))]);
        }
        _ => panic!("expected GEOADD"),
    }
}

#[test]
fn parse_geoadd_polygon() {
    match parse_command("GEOADD poly 0 0 0 1 1 1 1 0\n") {
        Some(Command::GeoAdd { key, coords }) => {
            assert_eq!(key, "poly");
            assert_eq!(coords.len(), 4);
            assert_eq!(coords[1], (dec("0"), dec("1")));
        }
        _ => panic!("expected GEOADD"),
    }
}

#[test]
fn parse_rejects_bad_lines() {
    for line in [
        "",
        "\n",
        "GEOADD\n",
        "GEOADD p1\n",
        "GEOADD p1 1\n",
        "GEOADD p1 1 2 3 4\n",
        "GEOADD p1 1 2 3\n",
        "GEOADD p1 1 x\n",
        "GEOSEARCH 1 2\n",
        "GEOSEARCH 1 2 3 4\n",
        "GEOSEARCH 1 2 NaN\n",
        "GEOSEARCH 1 2 inf\n",
        "GEOGET\n",
        "GEOGET a b\n",
        "HEARTBEAT now\n",
        "geoget a\n",
        "PING\n",
    ] {
        assert!(parse_command(line).is_none(), "{:?}", line);
    }
}

#[test]
fn parse_search_get_heartbeat() {
    match parse_command("GEOSEARCH 0 0 1000\n") {
        Some(Command::GeoSearch { lat, lon, radius }) => {
            assert_eq!(lat, dec("0"));
            assert_eq!(lon, dec("0"));
            assert_eq!(radius, dec("1000"));
        }
        _ => panic!("expected GEOSEARCH"),
    }
    assert!(matches!(parse_command("GEOGET k\n"), Some(Command::GeoGet { key }) if key == "k"));
    assert!(matches!(parse_command("HEARTBEAT\n"), Some(Command::Heartbeat)));
}

#[test]
fn format_then_parse_gives_the_command_back() {
    let cmds = vec![
        Command::GeoAdd { key: "p1".to_string(), coords: vec![(dec("40.7128"), dec("-74.0060"))] },
        Command::GeoAdd {
            key: "poly".to_string(),
            coords: vec![(dec("0"), dec("0")), (dec("0"), dec("1")), (dec("1.5"), dec("-1"))],
        },
        Command::GeoSearch { lat: dec("-0.5"), lon: dec("12"), radius: dec("1000.25") },
        Command::GeoGet { key: "x".to_string() },
        Command::Heartbeat,
    ];
    for c in cmds {
        let line = format_command(&c);
        assert!(line.ends_with('\n'));
        let back = parse_command(&line).expect("parses");
        assert_eq!(format_command(&back), line);
        match (&c, &back) {
            (Command::GeoAdd { key: a, coords: x }, Command::GeoAdd { key: b, coords: y }) => {
                assert_eq!(a, b);
                assert_eq!(x, y);
            }
            (Command::GeoSearch { lat, lon, radius }, Command::GeoSearch { lat: a, lon: b, radius: r }) => {
                assert_eq!((lat, lon, radius), (a, b, r));
            }
            (Command::GeoGet { key: a }, Command::GeoGet { key: b }) => assert_eq!(a, b),
            (Command::Heartbeat, Command::Heartbeat) => {}
            _ => panic!("different command"),
        }
    }
    assert_eq!(
        format_command(&Command::GeoSearch { lat: dec("1"), lon: dec("2"), radius: dec("3") }),
        "GEOSEARCH 1.0 2.0 3.0\n"
    );
}
