use rust_script_ext::csvio::CSV;
use rust_script_ext::error::TableError;
use rust_script_ext::row::Row;
use rust_script_ext::table::Table;

fn cities() -> Table<String> {
    Table::from_csv("city,pop\nBrisbane,100000\nSydney,200000\n".as_bytes()).unwrap()
}

fn col_values(t: &Table<String>, name: &str) -> Vec<String> {
    t.get_col(&name).unwrap().values
}

#[test]
fn filter_by_column_prefix() {
    let t = cities().filter("city", |c: &String| c.starts_with('B')).unwrap();
    assert_eq!(t.num_rows(), 1);
    assert_eq!(col_values(&t, "city"), vec!["Brisbane".to_string()]);
    assert_eq!(col_values(&t, "pop"), vec!["100000".to_string()]);
}

#[test]
fn filter_unknown_column_fails() {
    let err = cities().filter("country", |_c: &String| true).unwrap_err();
    assert!(matches!(err, TableError::ColumnNotFound { .. }));
}

#[test]
fn filter_rows_true_is_identity() {
    let before = cities().write_as(CSV).unwrap();
    let t = cities().filter_rows(|_row: Row<String>| Ok(true)).unwrap();
    assert_eq!(t.write_as(CSV).unwrap(), before);
}

#[test]
fn filter_rows_by_cell() {
    let t = cities()
        .filter_rows(|row: Row<String>| Ok(row.get(&"city")? == "Sydney"))
        .unwrap();
    assert_eq!(t.num_rows(), 1);
    assert_eq!(col_values(&t, "pop"), vec!["200000".to_string()]);
}

#[test]
fn filter_rows_propagates_first_failure() {
    let err = cities()
        .filter_rows(|row: Row<String>| row.get(&"country").map(|_| true))
        .unwrap_err();
    assert!(matches!(err, TableError::ColumnNotFound { .. }));
}

#[test]
fn filter_cols_true_is_identity() {
    let before = cities().write_as(CSV).unwrap();
    let t = cities().filter_cols(|_name: &String| true);
    assert_eq!(t.write_as(CSV).unwrap(), before);
}

#[test]
fn removed_column_cannot_resolve() {
    let t = cities().filter_cols(|name: &String| name != "pop");
    assert_eq!(t.num_cols(), 1);
    for r in 0..t.num_rows() {
        let row = t.get_row(r).unwrap();
        let err = row.get(&"pop").unwrap_err();
        assert!(matches!(err, TableError::ColumnNotFound { .. }));
    }
}

#[test]
fn rename_relabels_header_only() {
    let t = cities()
        .rename(vec![("city", "City".to_string()), ("pop", "Population".to_string())])
        .unwrap();
    assert_eq!(col_values(&t, "City"), vec!["Brisbane".to_string(), "Sydney".to_string()]);
    assert_eq!(col_values(&t, "Population"), vec!["100000".to_string(), "200000".to_string()]);
    assert!(t.get_col(&"city").is_err());
}

#[test]
fn rename_swaps_simultaneously() {
    let t = cities()
        .rename(vec![("city", "pop".to_string()), ("pop", "city".to_string())])
        .unwrap();
    // the names swapped; the data stayed in place
    assert_eq!(col_values(&t, "pop"), vec!["Brisbane".to_string(), "Sydney".to_string()]);
    assert_eq!(col_values(&t, "city"), vec!["100000".to_string(), "200000".to_string()]);
}

#[test]
fn rename_unknown_column_fails() {
    let err = cities().rename(vec![("country", "Country".to_string())]).unwrap_err();
    assert!(matches!(err, TableError::ColumnNotFound { .. }));
}

#[test]
fn pick_reorders_and_selects() {
    let t = cities().pick(false, vec!["pop"]).unwrap();
    assert_eq!(t.num_cols(), 1);
    let col = t.get_col(&0usize).unwrap();
    assert_eq!(col.name, "pop".to_string());
    assert_eq!(col.values, vec!["100000".to_string(), "200000".to_string()]);
}

#[test]
fn pick_single_column_matches_get_col() {
    let before = col_values(&cities(), "city");
    let t = cities().pick(false, vec!["city"]).unwrap();
    assert_eq!(t.get_col(&0usize).unwrap().values, before);
}

#[test]
fn pick_trailing_keeps_the_rest_in_order() {
    let t = Table::from_csv("a,b,c\n1,2,3\n".as_bytes()).unwrap();
    let t = t.pick(true, vec!["b"]).unwrap();
    assert_eq!(col_values(&t, "b"), vec!["2".to_string()]);
    assert_eq!(t.get_col(&1usize).unwrap().name, "a".to_string());
    assert_eq!(t.get_col(&2usize).unwrap().name, "c".to_string());
}

#[test]
fn append_country_scenario() {
    let t = cities().append("country".to_string(), |_row: Row<String>| "Australia".to_string());
    assert_eq!(t.num_cols(), 3);
    assert_eq!(
        col_values(&t, "country"),
        vec!["Australia".to_string(), "Australia".to_string()]
    );
    // the original two columns are unaffected
    assert_eq!(col_values(&t, "city"), vec!["Brisbane".to_string(), "Sydney".to_string()]);
    assert_eq!(col_values(&t, "pop"), vec!["100000".to_string(), "200000".to_string()]);
}

#[test]
fn map_col_rewrites_one_column() {
    let t = cities()
        .map_col("city", |_row: Row<String>, c: &String| c.to_lowercase())
        .unwrap();
    assert_eq!(col_values(&t, "city"), vec!["brisbane".to_string(), "sydney".to_string()]);
    assert_eq!(col_values(&t, "pop"), vec!["100000".to_string(), "200000".to_string()]);
}

#[test]
fn typify_rewrites_every_cell() {
    let t = cities().typify(|c: &String| format!("<{c}>"));
    assert_eq!(col_values(&t, "city"), vec!["<Brisbane>".to_string(), "<Sydney>".to_string()]);
    assert_eq!(col_values(&t, "pop"), vec!["<100000>".to_string(), "<200000>".to_string()]);
}

#[test]
fn insert_splices_a_row() {
    let t = cities().insert(1, vec!["Perth".to_string(), "50000".to_string()]);
    assert_eq!(t.num_rows(), 3);
    assert_eq!(
        col_values(&t, "city"),
        vec!["Brisbane".to_string(), "Perth".to_string(), "Sydney".to_string()]
    );
}

#[test]
fn sort_rows_by_key_is_stable() {
    let t = Table::from_csv("name,grp\nd,2\na,1\nc,2\nb,1\n".as_bytes()).unwrap();
    let t = t.sort_rows(|row: Row<String>| row.get(&"grp").unwrap().parse::<u64>().unwrap());
    assert_eq!(
        col_values(&t, "name"),
        vec!["a".to_string(), "b".to_string(), "d".to_string(), "c".to_string()]
    );
}

#[test]
fn sort_cols_by_name() {
    let t = Table::from_csv("b,a,c\n2,1,3\n".as_bytes()).unwrap();
    let t = t.sort_cols(|name: &String| name.as_bytes()[0] as u64);
    assert_eq!(t.get_col(&0usize).unwrap().name, "a".to_string());
    assert_eq!(t.get_col(&1usize).unwrap().name, "b".to_string());
    assert_eq!(t.get_col(&2usize).unwrap().name, "c".to_string());
    assert_eq!(col_values(&t, "a"), vec!["1".to_string()]);
    assert_eq!(col_values(&t, "c"), vec!["3".to_string()]);
}

#[test]
fn get_row_out_of_bounds() {
    let t = cities();
    let err = t.get_row(5).unwrap_err();
    assert!(matches!(err, TableError::RowOutOfBounds { .. }));
    assert!(t.try_get_row(5).is_none());
}

#[test]
fn row_lookup_by_position() {
    let t = cities();
    let row = t.get_row(0).unwrap();
    assert_eq!(row.get(&0usize).unwrap(), "Brisbane");
    assert_eq!(row.try_get(&1usize).unwrap(), "100000");
    assert!(row.try_get(&2usize).is_none());
}

#[test]
fn consolidate_twice_is_once() {
    // drop two of three columns without crossing the threshold, so orphans
    // stay behind
    let t = Table::from_csv("a,b,c\n1,2,3\n4,5,6\n".as_bytes()).unwrap();
    let t = t.filter_cols(|name: &String| name == "a");
    assert_eq!(t.cell_count(), 6);
    let once = t.consolidate();
    assert_eq!(once.cell_count(), 2);
    let bytes = once.write_as(CSV).unwrap();
    let twice = once.consolidate();
    assert_eq!(twice.cell_count(), 2);
    assert_eq!(twice.write_as(CSV).unwrap(), bytes);
}

#[test]
fn reclamation_threshold() {
    // six columns filtered down to one: the store exceeds five cells per
    // slot, so the next structural operation compacts it
    let t = Table::from_csv("a,b,c,d,e,f\n1,2,3,4,5,6\n".as_bytes()).unwrap();
    assert_eq!(t.cell_count(), 6);
    let t = t.filter_cols(|name: &String| name == "a");
    assert_eq!(t.num_cols(), 1);
    assert_eq!(t.num_rows(), 1);
    assert!(t.cell_count() <= 5);
    assert_eq!(t.cell_count(), 1);

    // three columns filtered down to two: under the threshold, orphans stay
    let t = Table::from_csv("a,b,c\n1,2,3\n".as_bytes()).unwrap();
    let t = t.filter_cols(|name: &String| name != "b");
    assert_eq!(t.num_cols(), 2);
    assert_eq!(t.cell_count(), 3);
}

#[test]
fn chained_edits_scenario() {
    let t = cities()
        .append("country".to_string(), |_row: Row<String>| "AU".to_string())
        .filter("city", |c: &String| c.starts_with('S'))
        .unwrap()
        .rename(vec![("pop", "population".to_string())])
        .unwrap()
        .pick(false, vec!["population", "city"])
        .unwrap();
    assert_eq!(t.num_rows(), 1);
    assert_eq!(t.get_col(&0usize).unwrap().values, vec!["200000".to_string()]);
    assert_eq!(t.get_col(&1usize).unwrap().values, vec!["Sydney".to_string()]);
}

#[test]
fn error_messages() {
    let t = cities();
    let err = t.get_row(9).unwrap_err();
    assert_eq!(err.message(), "row index out of bounds");
    let err = cities().filter("country", |_c: &String| true).unwrap_err();
    assert_eq!(err.message(), "could not find column country in table");
    // positions are rendered in decimal
    let err = t.get_col(&7usize).unwrap_err();
    assert_eq!(err.message(), "could not find column 7 in table");
    let err = t.get_col(&480usize).unwrap_err();
    assert_eq!(err.message(), "could not find column 480 in table");
}

#[test]
fn pick_triggers_reclamation() {
    let t = Table::from_csv("a,b,c,d,e,f
1,2,3,4,5,6
".as_bytes()).unwrap();
    let t = t.pick(false, vec!["f"]).unwrap();
    // one slot remains; six cells exceeded five per slot, so the store was
    // compacted down to the picked cell
    assert_eq!(t.cell_count(), 1);
    assert_eq!(col_values(&t, "f"), vec!["6".to_string()]);
}
