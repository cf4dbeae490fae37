use rust_script_ext::csvio::CSV;
use rust_script_ext::error::TableError;
use rust_script_ext::table::Table;

#[derive(Debug, PartialEq)]
struct City {
    city: String,
    pop: u32,
}

#[test]
fn structured_api_csv() {
    let csv = "city,pop\nBrisbane,100000\nSydney,200000\n";

    let t = Table::from_csv(csv.as_bytes()).unwrap();
    let mut x = Vec::new();
    for r in 0..t.num_rows() {
        let row = t.get_row(r).unwrap();
        let city = row.get(&"city").unwrap().clone();
        let pop: u32 = row.get(&"pop").unwrap().parse().unwrap();
        x.push(City { city, pop });
    }

    assert_eq!(
        x,
        vec![
            City {
                city: "Brisbane".to_string(),
                pop: 100_000,
            },
            City {
                city: "Sydney".to_string(),
                pop: 200_000,
            }
        ]
    );

    let buf = t.write_as(CSV).unwrap();

    assert_eq!(buf, csv.as_bytes());
}

#[test]
fn csv_round_trip_unedited() {
    let csv = "name,qty,note\nbolt,4,plain\nnut,9,\"a, b\"\n";
    let t = Table::from_csv(csv.as_bytes()).unwrap();
    let buf = t.write_as(CSV).unwrap();
    assert_eq!(String::from_utf8(buf).unwrap(), csv);
}

#[test]
fn from_csv_rejects_ragged_rows() {
    let csv = "a,b\n1,2,3\n";
    let err = Table::<String>::from_csv(csv.as_bytes()).unwrap_err();
    assert!(matches!(err, TableError::Csv { .. }));
}

#[test]
fn from_csv_counts() {
    let csv = "city,pop\nBrisbane,100000\nSydney,200000\n";
    let t = Table::from_csv(csv.as_bytes()).unwrap();
    assert_eq!(t.num_rows(), 2);
    assert_eq!(t.num_cols(), 2);
    assert_eq!(t.cell_count(), 4);
}

#[test]
fn display_grid() {
    let csv = "city,pop\nBrisbane,100000\nSydney,200000\n";
    let t = Table::from_csv(csv.as_bytes()).unwrap();
    let text = t.display().render();
    assert!(text.contains("city"));
    assert!(text.contains("pop"));
    assert!(text.contains("Brisbane"));
    assert!(text.contains("Sydney"));
    assert!(text.contains("200000"));
    // the renderer draws a bordered grid around the cells
    assert!(text.starts_with('+'));
    assert!(text.ends_with('+'));
}
