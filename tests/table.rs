use csvtool::order::{compare_columns, parse_method, parse_number, parse_order, chars_of};
use csvtool::{CSVFile, CSVSortMethod, CSVSortOrder, CsvError};

fn load(text: &str) -> CSVFile {
    CSVFile::read(text.as_bytes()).expect("well-formed text")
}

fn text_of(t: &CSVFile) -> String {
    String::from_utf8(t.write_bytes().expect("writes")).expect("utf-8")
}

fn strings(v: &[&str]) -> Vec<String> {
    v.iter().map(|s| s.to_string()).collect()
}

#[test]
fn sort_ascending_numerical_scenario() {
    let mut t = load("name,score\nalice,3\nbob,1\ncarol,2\n");
    t.sort_by_column("score", CSVSortOrder::Ascending, CSVSortMethod::Numerical).unwrap();
    assert_eq!(text_of(&t), "name,score\nbob,1\ncarol,2\nalice,3\n");
}

#[test]
fn merge_same_header_scenario() {
    let mut a = load("a,b\n1,2\n");
    let b = load("a,b\n3,4\n");
    a.merge(b).unwrap();
    assert_eq!(text_of(&a), "a,b\n1,2\n3,4\n");
}

#[test]
fn merge_other_header_scenario() {
    let mut a = load("a,b\n1,2\n");
    let b = load("a,c\n3,4\n");
    let r = a.merge(b);
    match r {
        Err(CsvError::SchemaMismatch { expected, found }) => {
            assert_eq!(expected, strings(&["a", "b"]));
            assert_eq!(found, strings(&["a", "c"]));
        }
        other => panic!("unexpected {:?}", other),
    }
    assert_eq!(a.rows().len(), 1);
    assert_eq!(text_of(&a), "a,b\n1,2\n");
}

#[test]
fn merge_with_empty_table_keeps_rows() {
    let mut a = load("a,b\n1,2\n5,6\n");
    let empty = load("a,b\n");
    a.merge(empty).unwrap();
    assert_eq!(text_of(&a), "a,b\n1,2\n5,6\n");
}

#[test]
fn merge_is_associative() {
    let mut left = load("a,b\n1,2\n");
    left.merge(load("a,b\n3,4\n")).unwrap();
    left.merge(load("a,b\n5,6\n")).unwrap();
    let mut bc = load("a,b\n3,4\n");
    bc.merge(load("a,b\n5,6\n")).unwrap();
    let mut right = load("a,b\n1,2\n");
    right.merge(bc).unwrap();
    assert_eq!(text_of(&left), text_of(&right));
    assert_eq!(text_of(&left), "a,b\n1,2\n3,4\n5,6\n");
}

#[test]
fn sort_descending_numerical_is_ordered() {
    let mut t = load("k,v\nx,2.5\ny,-1\nz,10\nw,2.50\nq,0.75\n");
    t.sort_by_column("v", CSVSortOrder::Descending, CSVSortMethod::Numerical).unwrap();
    assert_eq!(text_of(&t), "k,v\nz,10\nx,2.5\nw,2.50\nq,0.75\ny,-1\n");
}

#[test]
fn sort_keeps_ties_in_order() {
    let mut t = load("id,g\n1,b\n2,a\n3,b\n4,a\n5,b\n");
    t.sort_by_column("g", CSVSortOrder::Ascending, CSVSortMethod::Alphabetical).unwrap();
    assert_eq!(text_of(&t), "id,g\n2,a\n4,a\n1,b\n3,b\n5,b\n");
    let mut d = load("id,g\n1,b\n2,a\n3,b\n4,a\n5,b\n");
    d.sort_by_column("g", CSVSortOrder::Descending, CSVSortMethod::Alphabetical).unwrap();
    assert_eq!(text_of(&d), "id,g\n1,b\n3,b\n5,b\n2,a\n4,a\n");
}

#[test]
fn sort_by_missing_column_fails() {
    let mut t = load("name,score\nalice,3\nbob,1\n");
    let r = t.sort_by_column("nonexistent", CSVSortOrder::Descending, CSVSortMethod::Numerical);
    match r {
        Err(CsvError::ColumnNotFound { key }) => assert_eq!(key, "nonexistent"),
        other => panic!("unexpected {:?}", other),
    }
    assert_eq!(text_of(&t), "name,score\nalice,3\nbob,1\n");
}

#[test]
fn sort_on_non_number_fails_without_change() {
    let mut t = load("name,score\nalice,3\nbob,many\ncarol,x\n");
    let r = t.sort_by_column("score", CSVSortOrder::Ascending, CSVSortMethod::Numerical);
    match r {
        Err(CsvError::ValueParse { row_index, raw_value }) => {
            assert_eq!(row_index, 1);
            assert_eq!(raw_value, "many");
        }
        other => panic!("unexpected {:?}", other),
    }
    assert_eq!(text_of(&t), "name,score\nalice,3\nbob,many\ncarol,x\n");
}

#[test]
fn sort_uses_first_column_of_a_repeated_name() {
    let mut t = load("k,k\n1,9\n2,8\n");
    t.sort_by_column("k", CSVSortOrder::Descending, CSVSortMethod::Numerical).unwrap();
    assert_eq!(text_of(&t), "k,k\n2,8\n1,9\n");
}

#[test]
fn sort_moves_whole_rows() {
    let mut t = load("name,score\nalice,3\nbob,1\n");
    t.sort_by_column("name", CSVSortOrder::Descending, CSVSortMethod::Alphabetical).unwrap();
    assert_eq!(text_of(&t), "name,score\nbob,1\nalice,3\n");
}

#[test]
fn round_trip_keeps_quoted_values() {
    let src = "h1,h2\n\"a,b\",\"say \"\"hi\"\"\"\n\"line\nbreak\",plain\n";
    let t = load(src);
    assert_eq!(t.rows()[0], strings(&["a,b", "say \"hi\""]));
    assert_eq!(t.rows()[1], strings(&["line\nbreak", "plain"]));
    let written = t.write_bytes().unwrap();
    let again = CSVFile::read(&written).unwrap();
    assert_eq!(again.header(), t.header());
    assert_eq!(again.rows(), t.rows());
    assert_eq!(String::from_utf8(written).unwrap(), src);
}

#[test]
fn read_rejects_ragged_record() {
    match CSVFile::read(b"a,b\n1,2,3\n") {
        Err(CsvError::Parse { .. }) => {}
        other => panic!("unexpected {:?}", other),
    }
}

#[test]
fn read_rejects_invalid_utf8() {
    match CSVFile::read(&[b'a', b'\n', 0xff, b'\n']) {
        Err(CsvError::Parse { .. }) => {}
        other => panic!("unexpected {:?}", other),
    }
}

#[test]
fn from_records_checks_widths() {
    let ok = CSVFile::from_records(strings(&["a", "b"]), vec![strings(&["1", "2"])]).unwrap();
    assert_eq!(ok.rows().len(), 1);
    match CSVFile::from_records(strings(&["a", "b"]), vec![strings(&["1"])]) {
        Err(CsvError::Parse { .. }) => {}
        other => panic!("unexpected {:?}", other),
    }
}

#[test]
fn new_table_is_empty() {
    let t = CSVFile::new();
    assert!(t.header().is_empty());
    assert!(t.rows().is_empty());
    assert_eq!(t.column_index("a"), None);
}

#[test]
fn column_index_finds_first_match() {
    let t = load("x,y,x\n1,2,3\n");
    assert_eq!(t.column_index("x"), Some(0));
    assert_eq!(t.column_index("y"), Some(1));
    assert_eq!(t.column_index("z"), None);
}

#[test]
fn compare_columns_exact_values() {
    let asc = CSVSortOrder::Ascending;
    let desc = CSVSortOrder::Descending;
    let num = CSVSortMethod::Numerical;
    let alpha = CSVSortMethod::Alphabetical;
    assert!(compare_columns("2", "10", asc, num).unwrap());
    assert!(!compare_columns("10", "2", asc, num).unwrap());
    assert!(compare_columns("10", "2", desc, num).unwrap());
    assert!(compare_columns("10", "2", asc, alpha).unwrap());
    assert!(!compare_columns("2.5", "2.50", asc, num).unwrap());
    assert!(!compare_columns("2.50", "2.5", asc, num).unwrap());
    assert!(compare_columns("-3", "-0.5", asc, num).unwrap());
    assert!(compare_columns("+.5", "1.", asc, num).unwrap());
    assert!(compare_columns("B", "a", asc, alpha).unwrap());
    assert!(compare_columns("ab", "abc", asc, alpha).unwrap());
    assert!(!compare_columns("abc", "abc", desc, alpha).unwrap());
    match compare_columns("x", "1", asc, num) {
        Err(CsvError::ValueParse { raw_value, .. }) => assert_eq!(raw_value, "x"),
        other => panic!("unexpected {:?}", other),
    }
    match compare_columns("1", "1e", asc, num) {
        Err(CsvError::ValueParse { raw_value, .. }) => assert_eq!(raw_value, "1e"),
        other => panic!("unexpected {:?}", other),
    }
}

#[test]
fn parse_number_reads_decimals() {
    let n = parse_number(&chars_of("-12.340")).unwrap();
    assert!(n.negative);
    assert_eq!(n.digits, chars_of("1234"));
    assert_eq!(n.point, 2);
    let z = parse_number(&chars_of("-000.000")).unwrap();
    assert!(!z.negative);
    assert!(z.digits.is_empty());
    assert_eq!(z.point, 0);
    let small = parse_number(&chars_of("0.05")).unwrap();
    assert_eq!(small.digits, chars_of("5"));
    assert_eq!(small.point, -1);
    assert!(parse_number(&chars_of("")).is_none());
    assert!(parse_number(&chars_of("-")).is_none());
    assert!(parse_number(&chars_of(".")).is_none());
    assert!(parse_number(&chars_of("1.2.3")).is_none());
    assert!(parse_number(&chars_of("18446744073709551616")).is_some());
    assert!(parse_number(&chars_of("123456789012345678901234567890.5")).is_some());
}

#[test]
fn parse_order_and_method_names() {
    assert_eq!(parse_order("descending").unwrap(), CSVSortOrder::Descending);
    assert_eq!(parse_order("ascending").unwrap(), CSVSortOrder::Ascending);
    assert_eq!(parse_method("numerical").unwrap(), CSVSortMethod::Numerical);
    assert_eq!(parse_method("alphabetical").unwrap(), CSVSortMethod::Alphabetical);
    match parse_order("sideways") {
        Err(CsvError::InvalidArgument { value }) => assert_eq!(value, "sideways"),
        other => panic!("unexpected {:?}", other),
    }
    match parse_method("random") {
        Err(CsvError::InvalidArgument { value }) => assert_eq!(value, "random"),
        other => panic!("unexpected {:?}", other),
    }
}

#[test]
fn write_bytes_quotes_when_needed() {
    let t = CSVFile::from_records(strings(&["a"]), vec![strings(&["x,y"])]).unwrap();
    assert_eq!(text_of(&t), "a\n\"x,y\"\n");
}

#[test]
fn sort_many_rows_is_stable_and_ordered() {
    let mut text = String::from("id,k\n");
    for i in 0..200u32 {
        text.push_str(&format!("{},{}\n", i, (i * 37) % 11));
    }
    let mut t = load(&text);
    t.sort_by_column("k", CSVSortOrder::Ascending, CSVSortMethod::Numerical).unwrap();
    let rows = t.rows();
    assert_eq!(rows.len(), 200);
    for w in rows.windows(2) {
        let a: u32 = w[0][1].parse().unwrap();
        let b: u32 = w[1][1].parse().unwrap();
        assert!(a <= b);
        if a == b {
            let ia: u32 = w[0][0].parse().unwrap();
            let ib: u32 = w[1][0].parse().unwrap();
            assert!(ia < ib);
        }
    }
}

#[test]
fn numbers_with_exponents_compare_exactly() {
    let asc = CSVSortOrder::Ascending;
    let desc = CSVSortOrder::Descending;
    let num = CSVSortMethod::Numerical;
    assert!(compare_columns("999", "1e3", asc, num).unwrap());
    assert!(!compare_columns("1e3", "1000", asc, num).unwrap());
    assert!(!compare_columns("1000", "1E+3", asc, num).unwrap());
    assert!(compare_columns("2.5E-1", "0.3", asc, num).unwrap());
    assert!(!compare_columns("0.25", "2.5e-1", asc, num).unwrap());
    assert!(compare_columns("-1e2", "-99", asc, num).unwrap());
    assert!(!compare_columns("1e20", "1", asc, num).unwrap());
    assert!(compare_columns("1e20", "1", desc, num).unwrap());
    assert!(!compare_columns("1e20", "1e20", asc, num).unwrap());
    assert!(!compare_columns("1e20", "1e20", desc, num).unwrap());
    assert!(!compare_columns("100000000000000000000", "1e20", asc, num).unwrap());
    assert!(!compare_columns("1e20", "100000000000000000000", asc, num).unwrap());
    assert!(compare_columns("0.0000000000000000001", "0.000000000000000001", asc, num).unwrap());
    assert!(compare_columns("1e-30", "1e-29", asc, num).unwrap());
    assert!(compare_columns("-0", "1e-400", asc, num).unwrap());
    assert!(!compare_columns("-0.0", "0", asc, num).unwrap());
    assert!(!compare_columns("0", "-0.0", asc, num).unwrap());
    assert!(compare_columns("9007199254740992", "9007199254740993", asc, num).unwrap());
    assert!(compare_columns("-2", "-1.5", asc, num).unwrap());
    for bad in ["e5", "1e", "1e+", "1e5.0", "inf", "NaN", "1e10000000000000000", "--1", "1 "] {
        match compare_columns(bad, "1", asc, num) {
            Err(CsvError::ValueParse { raw_value, .. }) => assert_eq!(raw_value, bad),
            other => panic!("{} gave {:?}", bad, other),
        }
    }
}

#[test]
fn parse_number_applies_exponent() {
    let n = parse_number(&chars_of("1.5e3")).unwrap();
    assert!(!n.negative);
    assert_eq!(n.digits, chars_of("15"));
    assert_eq!(n.point, 4);
    let m = parse_number(&chars_of("-12E-4")).unwrap();
    assert!(m.negative);
    assert_eq!(m.digits, chars_of("12"));
    assert_eq!(m.point, -2);
}

#[test]
fn sort_numerical_with_exponents() {
    let mut t = load("v\n1e3\n5\n2.5E-1\n-1e1\n");
    t.sort_by_column("v", CSVSortOrder::Descending, CSVSortMethod::Numerical).unwrap();
    assert_eq!(text_of(&t), "v\n1e3\n5\n2.5E-1\n-1e1\n");
    let mut u = load("v\n1e3\n5\n2.5E-1\n-1e1\n");
    u.sort_by_column("v", CSVSortOrder::Ascending, CSVSortMethod::Numerical).unwrap();
    assert_eq!(text_of(&u), "v\n-1e1\n2.5E-1\n5\n1e3\n");
}
