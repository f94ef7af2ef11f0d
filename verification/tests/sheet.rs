use postfix_csv::coord::Coord;
use postfix_csv::sheet::Sheet;

fn row(cells: &[&str]) -> Vec<String> {
    cells.iter().map(|c| String::from(*c)).collect()
}

#[test]
fn sheet_parse_test() {
    assert_eq!(
        Sheet::new(
            "cellA1,cellB1,cellC1\ncellA2,cellB2,cellC2\ncellA3,cellB3,cellC3\n",
            ","
        ),
        Sheet {
            data: vec![
                row(&["cellA1", "cellB1", "cellC1"]),
                row(&["cellA2", "cellB2", "cellC2"]),
                row(&["cellA3", "cellB3", "cellC3"]),
            ],
            separator: String::from(","),
        }
    );

    assert_eq!(
        Sheet::new(
            "cellA1,cellB1,cellC1\r\ncellA2,cellB2,cellC2\ncellA3,cellB3,cellC3\n",
            ","
        ),
        Sheet {
            data: vec![
                row(&["cellA1", "cellB1", "cellC1"]),
                row(&["cellA2", "cellB2", "cellC2"]),
                row(&["cellA3", "cellB3", "cellC3"]),
            ],
            separator: String::from(","),
        }
    );

    assert_eq!(
        Sheet::new(
            "cellA1|cellB1|cellC1\ncellA2|cellB2|cellC2\ncellA3|cellB3|cellC3\n",
            "|"
        ),
        Sheet {
            data: vec![
                row(&["cellA1", "cellB1", "cellC1"]),
                row(&["cellA2", "cellB2", "cellC2"]),
                row(&["cellA3", "cellB3", "cellC3"]),
            ],
            separator: String::from("|"),
        }
    );
}

#[test]
fn sheet_get_test() {
    let sheet = Sheet::new(
        "cellA1,cellB1,cellC1\ncellA2,cellB2,cellC2\ncellA3,cellB3,cellC3\n",
        ",",
    );

    assert_eq!(
        sheet.get(&Coord { column: 0, row: 0 }),
        Some(&String::from("cellA1"))
    );
    assert_eq!(
        sheet.get(&Coord { column: 1, row: 1 }),
        Some(&String::from("cellB2"))
    );
    assert_eq!(
        sheet.get(&Coord { column: 2, row: 2 }),
        Some(&String::from("cellC3"))
    );
    assert_eq!(sheet.get(&Coord { column: 0, row: 3 }), None);
    assert_eq!(sheet.get(&Coord { column: 3, row: 0 }), None);
}

#[test]
fn display_test() {
    let sheet = Sheet::new("cellA1,cellB1,cellC1\ncellA2,cellB2", ",");
    assert_eq!(sheet.render(), "cellA1,cellB1,cellC1\ncellA2,cellB2");

    let sheet = Sheet::new(
        "cellA1,cellB1,cellC1\ncellA2,cellB2,cellC2\ncellA3,cellB3,cellC3",
        ",",
    );
    assert_eq!(
        sheet.render(),
        "cellA1,cellB1,cellC1\ncellA2,cellB2,cellC2\ncellA3,cellB3,cellC3"
    );

    let sheet = Sheet::new("cellA1;cellB1;cellC1\ncellA2;cellB2;cellC2", ";");
    assert_eq!(sheet.render(), "cellA1;cellB1;cellC1\ncellA2;cellB2;cellC2");

    let sheet = Sheet::new("cellA1;cellB1;cellC1\ncellA2;cellB2;cellC2\n\n", ";");
    assert_eq!(sheet.render(), "cellA1;cellB1;cellC1\ncellA2;cellB2;cellC2");
}

#[test]
fn sheet_jagged_and_empty_fields_test() {
    let sheet = Sheet::new("a,b,c\nd\ne,f", ",");
    assert_eq!(
        sheet.data,
        vec![row(&["a", "b", "c"]), row(&["d"]), row(&["e", "f"])]
    );
    assert_eq!(sheet.get(&Coord { column: 2, row: 0 }), Some(&String::from("c")));
    assert_eq!(sheet.get(&Coord { column: 1, row: 1 }), None);

    // Empty fields and empty lines survive the round trip.
    let sheet = Sheet::new("a,,c\n\nd,", ",");
    assert_eq!(
        sheet.data,
        vec![row(&["a", "", "c"]), row(&[""]), row(&["d", ""])]
    );
    assert_eq!(sheet.render(), "a,,c\n\nd,");

    // A multi-character separator.
    let sheet = Sheet::new("a...b...c\nd...e", "...");
    assert_eq!(sheet.data, vec![row(&["a", "b", "c"]), row(&["d", "e"])]);
    assert_eq!(sheet.render(), "a...b...c\nd...e");
}

#[test]
fn get_test() {
    let sheet = Sheet::new(
        "cellA1,cellB1,cellC1\ncellA2,cellB2,cellC2\ncellA3,cellB3,cellC3\n",
        ",",
    );

    assert_eq!(
        sheet.get(&Coord { column: 0, row: 0 }),
        Some(&String::from("cellA1"))
    );
    assert_eq!(
        sheet.get(&Coord { column: 1, row: 1 }),
        Some(&String::from("cellB2"))
    );
    assert_eq!(
        sheet.get(&Coord { column: 2, row: 2 }),
        Some(&String::from("cellC3"))
    );
    assert_eq!(sheet.get(&Coord { column: 0, row: 3 }), None);
    assert_eq!(sheet.get(&Coord { column: 3, row: 0 }), None);
}
