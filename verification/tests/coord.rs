use postfix_csv::coord::Coord;

#[test]
fn coord_parse_test() {
    assert_eq!(Coord::parse("A1"), Some(Coord { column: 0, row: 0 }));
    assert_eq!(Coord::parse("a1"), Some(Coord { column: 0, row: 0 }));
    assert_eq!(Coord::parse("a10"), Some(Coord { column: 0, row: 9 }));
    assert_eq!(Coord::parse("a510"), Some(Coord { column: 0, row: 509 }));
    assert_eq!(Coord::parse("B2"), Some(Coord { column: 1, row: 1 }));
    assert_eq!(Coord::parse("Z2"), Some(Coord { column: 25, row: 1 }));
    assert_eq!(Coord::parse("AA2"), Some(Coord { column: 26, row: 1 }));
    assert_eq!(Coord::parse("AB2"), Some(Coord { column: 27, row: 1 }));
    assert_eq!(Coord::parse("AZ2"), Some(Coord { column: 51, row: 1 }));
    assert_eq!(Coord::parse("BA2"), Some(Coord { column: 52, row: 1 }));
    assert_eq!(Coord::parse("BZ2"), Some(Coord { column: 77, row: 1 }));
    assert_eq!(Coord::parse("CA2"), Some(Coord { column: 78, row: 1 }));
    assert_eq!(Coord::parse("ZA2"), Some(Coord { column: 676, row: 1 }));
    assert_eq!(Coord::parse("ZZ2"), Some(Coord { column: 701, row: 1 }));
    assert_eq!(Coord::parse("AAA2"), Some(Coord { column: 702, row: 1 }));
    assert_eq!(Coord::parse("AAB2"), Some(Coord { column: 703, row: 1 }));
    assert_eq!(
        Coord::parse("ZZZ50"),
        Some(Coord {
            column: 18_277,
            row: 49
        })
    );
    assert_eq!(
        Coord::parse("FZZ123412021312"),
        Some(Coord {
            column: 4_757,
            row: 123_412_021_311
        })
    );

    assert_eq!(Coord::parse("A1"), Some(Coord { column: 0, row: 0 }));
    assert_eq!(Coord::parse("AA11"), Some(Coord { column: 26, row: 10 }));
    assert_eq!(
        Coord::parse("ZZZZ1"),
        Some(Coord {
            column: 475253,
            row: 0
        })
    );
    assert_eq!(
        Coord::parse("Z1234"),
        Some(Coord {
            column: 25,
            row: 1233
        })
    );
    assert_eq!(Coord::parse("a1"), Some(Coord { column: 0, row: 0 }));

    assert_eq!(Coord::parse("1"), None);
    assert_eq!(Coord::parse("A"), None);
    assert_eq!(Coord::parse("A1A"), None);
    assert_eq!(Coord::parse("1A1"), None);
    assert_eq!(Coord::parse("A1A1"), None);
    assert_eq!(Coord::parse("AAA123.123"), None);
    assert_eq!(Coord::parse("A 1"), None);
    assert_eq!(Coord::parse("AB2/3"), None);
    assert_eq!(Coord::parse("a-1"), None);
    assert_eq!(Coord::parse("b 5#"), None);
}

#[test]
fn coord_stringify_test() {
    assert_eq!(Coord { column: 0, row: 0 }.stringify(), String::from("A1"));
    assert_eq!(Coord { column: 1, row: 1 }.stringify(), String::from("B2"));
    assert_eq!(Coord { column: 25, row: 1 }.stringify(), String::from("Z2"));
    assert_eq!(Coord { column: 26, row: 4 }.stringify(), String::from("AA5"));
    assert_eq!(Coord { column: 701, row: 4 }.stringify(), String::from("ZZ5"));
    assert_eq!(Coord { column: 702, row: 4 }.stringify(), String::from("AAA5"));
    assert_eq!(
        Coord {
            column: 20_000,
            row: 1000
        }
        .stringify(),
        String::from("ACOG1001")
    );
}

#[test]
fn coord_to_string_test() {
    assert_eq!(Coord { column: 0, row: 0 }.stringify(), String::from("A1"));
    assert_eq!(Coord { column: 1, row: 1 }.stringify(), String::from("B2"));
    assert_eq!(Coord { column: 25, row: 1 }.stringify(), String::from("Z2"));
    assert_eq!(Coord { column: 26, row: 4 }.stringify(), String::from("AA5"));
    assert_eq!(Coord { column: 701, row: 4 }.stringify(), String::from("ZZ5"));
    assert_eq!(Coord { column: 702, row: 4 }.stringify(), String::from("AAA5"));
    assert_eq!(
        Coord {
            column: 20_000,
            row: 1000
        }
        .stringify(),
        String::from("ACOG1001")
    );
}

#[test]
fn is_coord_test() {
    assert_eq!(Coord::is_coord("A1"), true);
    assert_eq!(Coord::is_coord("AA11"), true);
    assert_eq!(Coord::is_coord("ZZZZ1"), true);
    assert_eq!(Coord::is_coord("Z1234"), true);
    assert_eq!(Coord::is_coord("a1"), true);

    assert_eq!(Coord::is_coord("1"), false);
    assert_eq!(Coord::is_coord("A"), false);
    assert_eq!(Coord::is_coord("A1A"), false);
    assert_eq!(Coord::is_coord("1A1"), false);
    assert_eq!(Coord::is_coord("A1A1"), false);
    assert_eq!(Coord::is_coord("AAA123.123"), false);
    assert_eq!(Coord::is_coord("A 1"), false);
    assert_eq!(Coord::is_coord("AB2/3"), false);
}

#[test]
fn coord_roundtrip_boundaries_test() {
    // The label comes back as the same coordinate, across the
    // bijective base-26 rollovers.
    for coordinate in [
        Coord { column: 0, row: 0 },
        Coord { column: 25, row: 0 },
        Coord { column: 26, row: 0 },
        Coord { column: 51, row: 0 },
        Coord { column: 701, row: 0 },
        Coord { column: 702, row: 0 },
        Coord {
            column: 18_277,
            row: 49,
        },
    ] {
        assert_eq!(Coord::parse(&coordinate.stringify()), Some(coordinate));
    }
    // Parsing then printing canonicalizes a lower-case label.
    assert_eq!(Coord::parse("zz12").unwrap().stringify(), "ZZ12");
    assert_eq!(Coord::parse("Z1").unwrap().stringify(), "Z1");
}

#[test]
fn parse_test() {
    assert_eq!(Coord::parse("A1"), Some(Coord { column: 0, row: 0 }));
    assert_eq!(Coord::parse("a1"), Some(Coord { column: 0, row: 0 }));
    assert_eq!(Coord::parse("a10"), Some(Coord { column: 0, row: 9 }));
    assert_eq!(Coord::parse("a510"), Some(Coord { column: 0, row: 509 }));
    assert_eq!(Coord::parse("B2"), Some(Coord { column: 1, row: 1 }));
    assert_eq!(Coord::parse("Z2"), Some(Coord { column: 25, row: 1 }));
    assert_eq!(Coord::parse("AA2"), Some(Coord { column: 26, row: 1 }));
    assert_eq!(Coord::parse("AB2"), Some(Coord { column: 27, row: 1 }));
    assert_eq!(Coord::parse("AZ2"), Some(Coord { column: 51, row: 1 }));
    assert_eq!(Coord::parse("BA2"), Some(Coord { column: 52, row: 1 }));
    assert_eq!(Coord::parse("BZ2"), Some(Coord { column: 77, row: 1 }));
    assert_eq!(Coord::parse("CA2"), Some(Coord { column: 78, row: 1 }));
    assert_eq!(Coord::parse("ZA2"), Some(Coord { column: 676, row: 1 }));
    assert_eq!(Coord::parse("ZZ2"), Some(Coord { column: 701, row: 1 }));
    assert_eq!(Coord::parse("AAA2"), Some(Coord { column: 702, row: 1 }));
    assert_eq!(Coord::parse("AAB2"), Some(Coord { column: 703, row: 1 }));
    assert_eq!(
        Coord::parse("ZZZ50"),
        Some(Coord {
            column: 18_277,
            row: 49
        })
    );
    assert_eq!(
        Coord::parse("FZZ123412021312"),
        Some(Coord {
            column: 4_757,
            row: 123_412_021_311
        })
    );

    assert_eq!(Coord::parse("A1"), Some(Coord { column: 0, row: 0 }));
    assert_eq!(Coord::parse("AA11"), Some(Coord { column: 26, row: 10 }));
    assert_eq!(
        Coord::parse("ZZZZ1"),
        Some(Coord {
            column: 475253,
            row: 0
        })
    );
    assert_eq!(
        Coord::parse("Z1234"),
        Some(Coord {
            column: 25,
            row: 1233
        })
    );
    assert_eq!(Coord::parse("a1"), Some(Coord { column: 0, row: 0 }));

    assert_eq!(Coord::parse("1"), None);
    assert_eq!(Coord::parse("A"), None);
    assert_eq!(Coord::parse("A1A"), None);
    assert_eq!(Coord::parse("1A1"), None);
    assert_eq!(Coord::parse("A1A1"), None);
    assert_eq!(Coord::parse("AAA123.123"), None);
    assert_eq!(Coord::parse("A 1"), None);
    assert_eq!(Coord::parse("AB2/3"), None);
    assert_eq!(Coord::parse("a-1"), None);
    assert_eq!(Coord::parse("b 5#"), None);
}

#[test]
fn stringify_test() {
    assert_eq!(Coord { column: 0, row: 0 }.stringify(), String::from("A1"));
    assert_eq!(Coord { column: 1, row: 1 }.stringify(), String::from("B2"));
    assert_eq!(Coord { column: 25, row: 1 }.stringify(), String::from("Z2"));
    assert_eq!(Coord { column: 26, row: 4 }.stringify(), String::from("AA5"));
    assert_eq!(Coord { column: 701, row: 4 }.stringify(), String::from("ZZ5"));
    assert_eq!(Coord { column: 702, row: 4 }.stringify(), String::from("AAA5"));
    assert_eq!(
        Coord {
            column: 20_000,
            row: 1000
        }
        .stringify(),
        String::from("ACOG1001")
    );
}

#[test]
fn to_string_test() {
    assert_eq!(Coord { column: 0, row: 0 }.stringify(), String::from("A1"));
    assert_eq!(Coord { column: 1, row: 1 }.stringify(), String::from("B2"));
    assert_eq!(Coord { column: 25, row: 1 }.stringify(), String::from("Z2"));
    assert_eq!(Coord { column: 26, row: 4 }.stringify(), String::from("AA5"));
    assert_eq!(Coord { column: 701, row: 4 }.stringify(), String::from("ZZ5"));
    assert_eq!(Coord { column: 702, row: 4 }.stringify(), String::from("AAA5"));
    assert_eq!(
        Coord {
            column: 20_000,
            row: 1000
        }
        .stringify(),
        String::from("ACOG1001")
    );
}
