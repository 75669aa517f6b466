use datatoolkit_football::data::{generate_flexdata_from_str, FlexData, FlexDataType, FlexDataVector, FlexIndex};
use datatoolkit_football::football::data_prep::{
    clean_field, csv_path, game_set, hdr_types, hdr_types_bytes, points_for_result, read_clean, season_division_pairs,
    series_type, TableCollection,
};
use datatoolkit_football::ordmap::{key_before, sort_keys, OrdMap};
use datatoolkit_football::table::FlexTable;

fn chars(s: &str) -> Vec<char> {
    s.chars().collect()
}

fn text(v: &Vec<char>) -> String {
    v.iter().collect()
}

fn strings(v: &[&str]) -> Vec<String> {
    v.iter().map(|x| x.to_string()).collect()
}

fn show(d: &FlexData) -> String {
    match d {
        FlexData::NA => "NA".to_string(),
        FlexData::Str(s) => format!("S:{}", s),
        FlexData::Uint(n) => format!("U:{}", n),
        FlexData::Int(n) => format!("I:{}", n),
        FlexData::Dbl(s) => format!("D:{}", s),
    }
}

fn show_rows(t: &FlexTable) -> Vec<Vec<String>> {
    t.get_data().iter().map(|r| r.data.iter().map(show).collect()).collect()
}

fn bytes(v: &[&str]) -> Vec<Vec<u8>> {
    v.iter().map(|x| x.as_bytes().to_vec()).collect()
}

fn labels(t: &FlexTable) -> Vec<String> {
    t.get_labels().to_vec()
}

#[test]
fn series_type_infers_int_dbl_str() {
    assert_eq!(series_type(&strings(&["1", "-2", ""])), FlexDataType::Int);
    assert_eq!(series_type(&strings(&["1.5", "2", ""])), FlexDataType::Dbl);
    assert_eq!(series_type(&strings(&["01/08/01", "02/08/01"])), FlexDataType::Str);
    assert_eq!(series_type(&strings(&["Arsenal", "1"])), FlexDataType::Str);
    assert_eq!(series_type(&strings(&["", ""])), FlexDataType::Int);
    assert_eq!(series_type(&strings(&[])), FlexDataType::Int);
    assert_eq!(series_type(&strings(&["nan", "1e3"])), FlexDataType::Dbl);
    assert_eq!(series_type(&strings(&["99999999999999999999"])), FlexDataType::Dbl);
}

#[test]
fn clean_field_decodes_trims_and_blanks_na() {
    assert_eq!(clean_field(&b" Arsenal ".to_vec()), "Arsenal");
    assert_eq!(clean_field(&b"NA".to_vec()), "");
    assert_eq!(clean_field(&b" NA ".to_vec()), "NA");
    assert_eq!(clean_field(&"Zürich".as_bytes().to_vec()), "Zürich");
    assert_eq!(clean_field(&vec![0x41, 0xe9, 0x42, 0x09]), "A B");
    assert_eq!(clean_field(&vec![0xff, 0x20, 0x43, 0x7f]), "C\u{7f}");
    assert_eq!(clean_field(&vec![]), "");
}

#[test]
fn hdr_types_types_each_column() {
    let headers = strings(&["Div", "Date", "FTHG", "Odds"]);
    let records = vec![bytes(&["E0", "01/08/01", "1", "1.5"]), bytes(&["E0", "02/08/01", "NA", "2"])];
    let (types, table) = hdr_types(&headers, &records);
    assert_eq!(types.len(), 4);
    assert_eq!(types.get(&chars("Div")), Some(&FlexDataType::Str));
    assert_eq!(types.get(&chars("Date")), Some(&FlexDataType::Str));
    assert_eq!(types.get(&chars("FTHG")), Some(&FlexDataType::Int));
    assert_eq!(types.get(&chars("Odds")), Some(&FlexDataType::Dbl));
    assert_eq!(labels(&table), strings(&["Div", "Date", "FTHG", "Odds"]));
    assert_eq!(
        table.get_datatypes().to_vec(),
        vec![FlexDataType::Str, FlexDataType::Str, FlexDataType::Int, FlexDataType::Dbl]
    );
    assert_eq!(
        show_rows(&table),
        vec![vec!["S:E0", "S:01/08/01", "I:1", "D:1.5"], vec!["S:E0", "S:02/08/01", "NA", "D:2"]]
    );
    assert_eq!(table.get_data()[1].index, FlexIndex::Uint(1));
}

#[test]
fn hdr_types_drops_a_column_without_header() {
    // The column without a header goes after the first record; the later
    // records pair with the remaining columns in order.
    let headers = strings(&["Div", "Date", "", "FTHG", "Odds"]);
    let records = vec![
        bytes(&["E0", "01/08/01", "x", "1", "1.5"]),
        bytes(&["E0", "02/08/01", "y", "NA", "2"]),
    ];
    let (types, table) = hdr_types(&headers, &records);
    assert_eq!(types.len(), 4);
    assert_eq!(types.get(&chars("")), None);
    assert_eq!(types.get(&chars("FTHG")), Some(&FlexDataType::Str));
    assert_eq!(types.get(&chars("Odds")), Some(&FlexDataType::Dbl));
    assert_eq!(labels(&table), strings(&["Div", "Date", "FTHG", "Odds"]));
    assert_eq!(
        show_rows(&table),
        vec![vec!["S:E0", "S:01/08/01", "S:1", "D:1.5"], vec!["S:E0", "S:02/08/01", "S:y", "NA"]]
    );
}

#[test]
fn hdr_types_drops_columns_a_record_does_not_reach() {
    let headers = strings(&["Div", "Date", "FTHG"]);
    let records = vec![bytes(&["E0", "01/08/01", "3"]), bytes(&["E1"])];
    let (types, table) = hdr_types(&headers, &records);
    assert_eq!(types.len(), 1);
    assert_eq!(labels(&table), strings(&["Div"]));
    assert_eq!(show_rows(&table), vec![vec!["S:E0"], vec!["S:E1"]]);
}

#[test]
fn hdr_types_without_records_keeps_headers() {
    let (types, table) = hdr_types(&strings(&["Div", "Date"]), &vec![]);
    assert_eq!(types.len(), 2);
    assert_eq!(types.get(&chars("Div")), Some(&FlexDataType::Int));
    assert_eq!(labels(&table), strings(&["Div", "Date"]));
    assert_eq!(table.num_records(), 0);
}

#[test]
fn points_for_result_gives_three_for_a_win() {
    assert_eq!(points_for_result(&"H".to_string()), (3, 0));
    assert_eq!(points_for_result(&"A".to_string()), (0, 3));
    assert_eq!(points_for_result(&"D".to_string()), (1, 1));
    assert_eq!(points_for_result(&"".to_string()), (1, 1));
    assert_eq!(points_for_result(&"HA".to_string()), (1, 1));
}

#[test]
fn csv_path_joins_parts() {
    assert_eq!(csv_path("/data/results/", "9394", "E0"), "/data/results/9394E0.csv");
    assert_eq!(csv_path("", "", ""), ".csv");
}

#[test]
fn season_division_pairs_seasons_outer() {
    let p = season_division_pairs(&vec!["9394", "9495"], &vec!["E0", "E1", "EC"]);
    let want: Vec<(String, String)> = vec![
        ("9394", "E0"),
        ("9394", "E1"),
        ("9394", "EC"),
        ("9495", "E0"),
        ("9495", "E1"),
        ("9495", "EC"),
    ]
    .iter()
    .map(|(a, b)| (a.to_string(), b.to_string()))
    .collect();
    assert_eq!(p, want);
    assert_eq!(season_division_pairs(&vec![], &vec!["E0"]), vec![]);
}

#[test]
fn table_collection_keeps_tables_or_header_types() {
    let (t1, table1) = hdr_types(&strings(&["Div", "FTHG"]), &vec![bytes(&["E0", "1"])]);
    let (t2, table2) = hdr_types(&strings(&["Div", "FTHG", "Odds"]), &vec![bytes(&["E1", "x", "2.5"])]);
    let mut by_header = TableCollection::new();
    by_header.add("9394", "E0", &t1, table1.duplicate(), false);
    by_header.add("9394", "E1", &t2, table2.duplicate(), false);
    assert_eq!(by_header.tables.len(), 0);
    assert_eq!(by_header.headers.len(), 3);
    assert_eq!(by_header.headers.get(&chars("Div")).unwrap().types(), &vec![FlexDataType::Str]);
    assert_eq!(
        by_header.headers.get(&chars("FTHG")).unwrap().types(),
        &vec![FlexDataType::Int, FlexDataType::Str]
    );
    assert_eq!(by_header.headers.get(&chars("Odds")).unwrap().types(), &vec![FlexDataType::Dbl]);
    let (t3, table3) = hdr_types(&strings(&["FTHG"]), &vec![bytes(&["7"])]);
    by_header.add("9495", "E0", &t3, table3, false);
    assert_eq!(
        by_header.headers.get(&chars("FTHG")).unwrap().types(),
        &vec![FlexDataType::Int, FlexDataType::Str]
    );

    let mut by_table = TableCollection::new();
    by_table.add("9394", "E0", &t1, table1, true);
    by_table.add("9394", "E1", &t2, table2, true);
    assert_eq!(by_table.headers.len(), 0);
    assert_eq!(by_table.tables.len(), 2);
    let t = by_table.tables.get(&(chars("9394"), chars("E1"))).unwrap();
    assert_eq!(show_rows(t), vec![vec!["S:E1", "S:x", "D:2.5"]]);
}

#[test]
fn read_clean_drops_records_without_division() {
    let rows = vec![
        FlexDataVector::new(FlexIndex::Uint(0), vec![FlexData::Str("E0".to_string()), FlexData::Uint(1)]),
        FlexDataVector::new(FlexIndex::Uint(1), vec![FlexData::Str("".to_string()), FlexData::Uint(2)]),
        FlexDataVector::new(FlexIndex::Uint(2), vec![FlexData::NA, FlexData::Uint(3)]),
        FlexDataVector::new(FlexIndex::Uint(3), vec![FlexData::Str("E0".to_string()), FlexData::NA]),
    ];
    let raw = FlexTable::from_vecs(strings(&["Div", "FTHG"]), vec![FlexDataType::Str, FlexDataType::Uint], rows);
    let t = read_clean(&raw);
    assert_eq!(labels(&t), strings(&["Div", "FTHG"]));
    assert_eq!(show_rows(&t), vec![vec!["S:E0", "U:1"], vec!["NA", "U:3"], vec!["S:E0", "NA"]]);
    assert_eq!(t.get_data()[1].index, FlexIndex::Uint(2));
}

#[test]
fn game_set_keys_by_date_and_home_team() {
    let rows = vec![
        FlexDataVector::new(
            FlexIndex::Uint(0),
            vec![
                FlexData::Str("E0".to_string()),
                FlexData::Str("01/08/01".to_string()),
                FlexData::Str("Arsenal".to_string()),
                FlexData::Uint(2),
            ],
        ),
        FlexDataVector::new(
            FlexIndex::Uint(1),
            vec![
                FlexData::Str("E0".to_string()),
                FlexData::Str("01/08/01".to_string()),
                FlexData::Str("Bolton".to_string()),
                FlexData::Uint(0),
            ],
        ),
        FlexDataVector::new(
            FlexIndex::Uint(2),
            vec![
                FlexData::Str("E0".to_string()),
                FlexData::Str("01/08/01".to_string()),
                FlexData::Str("Arsenal".to_string()),
                FlexData::Uint(5),
            ],
        ),
    ];
    let t = FlexTable::from_vecs(
        strings(&["Div", "Date", "HomeTeam", "FTHG"]),
        vec![FlexDataType::Str, FlexDataType::Str, FlexDataType::Str, FlexDataType::Uint],
        rows,
    );
    let g = game_set(&t);
    assert_eq!(g.len(), 2);
    let keys: Vec<String> = g.entries.iter().map(|e| text(&e.0)).collect();
    assert_eq!(keys, vec!["01/08/01_Arsenal", "01/08/01_Bolton"]);
    let a: Vec<String> = g.get(&chars("01/08/01_Arsenal")).unwrap().data.iter().map(show).collect();
    assert_eq!(a, vec!["S:01/08/01", "S:Arsenal", "U:5"]);
}

#[test]
fn from_records_reads_requested_headers() {
    let header_row = strings(&["Div", "Date", "HomeTeam", "Odds"]);
    let records = vec![strings(&["E0", "01/08/01", "Arsenal", "1.5"]), strings(&["E1", "02/08/01"])];
    let headers = strings(&["HomeTeam", "Div", "FTHG", "Odds"]);
    let types = vec![FlexDataType::Str, FlexDataType::Str, FlexDataType::Uint, FlexDataType::Dbl];
    let t = FlexTable::from_records(&header_row, &records, &headers, &types);
    assert_eq!(labels(&t), headers);
    assert_eq!(
        show_rows(&t),
        vec![vec!["S:Arsenal", "S:E0", "NA", "D:1.5"], vec!["S:", "S:E1", "NA", "NA"]]
    );
}

#[test]
fn group_by_keeps_first_appearance_order() {
    let rows = vec![
        FlexDataVector::new(FlexIndex::Uint(0), vec![FlexData::Str("B".to_string()), FlexData::Uint(1)]),
        FlexDataVector::new(FlexIndex::Uint(1), vec![FlexData::Str("A".to_string()), FlexData::Uint(2)]),
        FlexDataVector::new(FlexIndex::Uint(2), vec![FlexData::Str("B".to_string()), FlexData::Uint(3)]),
        FlexDataVector::new(FlexIndex::Uint(3), vec![FlexData::Uint(7), FlexData::Int(-4)]),
    ];
    let t = FlexTable::from_vecs(strings(&["Team", "Goals"]), vec![FlexDataType::Str, FlexDataType::Uint], rows);
    assert_eq!(t.column_index("Goals"), Some(1));
    assert_eq!(t.column_index("Nope"), None);
    let groups = t.group_by("Team");
    let names: Vec<String> = groups.iter().map(|g| g.0.clone()).collect();
    assert_eq!(names, strings(&["B", "A", "7"]));
    assert_eq!(show_rows(&groups[0].1), vec![vec!["S:B", "U:1"], vec!["S:B", "U:3"]]);
    assert_eq!(groups[2].1.num_records(), 1);
    let keys: Vec<String> = t.distinct_keys(1).iter().map(text).collect();
    assert_eq!(keys, strings(&["1", "2", "3", "-4"]));
}

#[test]
fn flex_data_conversions() {
    let n = generate_flexdata_from_str(&"42".to_string(), &FlexDataType::Uint);
    assert_eq!(n.as_u32(), Some(42));
    assert_eq!(show(&generate_flexdata_from_str(&"-42".to_string(), &FlexDataType::Uint)), "NA");
    assert_eq!(show(&generate_flexdata_from_str(&"-42".to_string(), &FlexDataType::Int)), "I:-42");
    assert_eq!(show(&generate_flexdata_from_str(&"2.50".to_string(), &FlexDataType::Dbl)), "D:2.50");
    assert_eq!(show(&generate_flexdata_from_str(&"x".to_string(), &FlexDataType::Dbl)), "NA");
    assert_eq!(show(&generate_flexdata_from_str(&"".to_string(), &FlexDataType::Str)), "S:");
    assert_eq!(text(&FlexData::Int(-7).to_text()), "-7");
    assert_eq!(text(&FlexData::NA.to_text()), "");
    assert_eq!(show(&FlexData::Uint(12).as_type(FlexDataType::Str)), "S:12");
    assert_eq!(show(&FlexData::Str("12".to_string()).as_type(FlexDataType::Int)), "I:12");
    assert_eq!(show(&FlexData::Str("x".to_string()).as_type(FlexDataType::Uint)), "NA");
    assert_eq!(show(&FlexData::Int(-3).as_type(FlexDataType::Uint)), "NA");
    assert_eq!(show(&FlexData::Dbl("1.5".to_string()).as_type(FlexDataType::Dbl)), "D:1.5");
    assert_eq!(FlexData::Int(5).as_i64(), Some(5));
    assert_eq!(FlexData::Uint(5).as_i64(), None);
    assert_eq!(FlexData::Str("H".to_string()).as_string(), Some("H".to_string()));
    assert_eq!(FlexData::NA.as_string(), None);
    let mut v = FlexDataVector::new(FlexIndex::Uint(0), vec![FlexData::Uint(1), FlexData::Str("2".to_string())]);
    v.set_index(FlexIndex::Uint(9));
    let w = v.as_types(&vec![FlexDataType::Str, FlexDataType::Uint]);
    assert_eq!(w.index, FlexIndex::Uint(9));
    let shown: Vec<String> = w.data.iter().map(show).collect();
    assert_eq!(shown, vec!["S:1", "U:2"]);
}

#[test]
fn ord_map_keeps_keys_in_order() {
    let mut m: OrdMap<u32, u32> = OrdMap::new();
    m.insert(5, 50);
    m.insert(1, 10);
    m.insert(3, 30);
    m.insert(5, 55);
    assert_eq!(m.len(), 3);
    assert_eq!(m.get(&5), Some(&55));
    assert_eq!(m.get(&2), None);
    let keys: Vec<u32> = m.entries.iter().map(|e| e.0).collect();
    assert_eq!(keys, vec![1, 3, 5]);
    assert_eq!(sort_keys(vec![chars("b"), chars("a"), chars("c")]), vec![chars("a"), chars("b"), chars("c")]);
    assert_eq!(sort_keys(vec![(2u32, 1i64), (1, 9), (2, -1)]), vec![(1, 9), (2, -1), (2, 1)]);
    assert!(key_before(&chars("Arsenal"), &chars("Bolton")));
    assert!(!key_before(&7u32, &7u32));
}

#[test]
fn hdr_types_bytes_reads_a_csv_file() {
    let bytes = b"Div,Date,HomeTeam,FTHG,Odds\nE0,01/08/01,\"Man \\\"Utd\\\"\",1,1.5\nE0,02/08/01,Bolton,NA\n".to_vec();
    let (types, table) = hdr_types_bytes(&bytes).unwrap();
    assert_eq!(types.get(&chars("FTHG")), Some(&FlexDataType::Int));
    assert_eq!(labels(&table), strings(&["Div", "Date", "HomeTeam", "FTHG"]));
    assert_eq!(
        show_rows(&table),
        vec![vec!["S:E0", "S:01/08/01", "S:Man \"Utd\"", "I:1"], vec!["S:E0", "S:02/08/01", "S:Bolton", "NA"]]
    );
}

#[test]
fn hdr_types_bytes_reports_a_header_that_is_not_utf8() {
    assert!(hdr_types_bytes(&vec![0x44, 0xff, b'\n', b'1', b'\n']).is_err());
    let (types, table) = hdr_types_bytes(&vec![]).unwrap();
    assert_eq!(types.len(), 0);
    assert_eq!(table.num_records(), 0);
}

#[test]
fn from_csv_bytes_reads_requested_headers() {
    let bytes = b"Div,Date,FTHG\nE0,01/08/01,3\nE1,02/08/01\n".to_vec();
    let headers = strings(&["FTHG", "Div"]);
    let t = FlexTable::from_csv_bytes(&bytes, &headers, &vec![FlexDataType::Uint, FlexDataType::Str]).unwrap();
    assert_eq!(show_rows(&t), vec![vec!["U:3", "S:E0"], vec!["NA", "S:E1"]]);
    let bad = vec![b'a', b'\n', 0xff, b'\n'];
    assert!(FlexTable::from_csv_bytes(&bad, &headers, &vec![FlexDataType::Uint, FlexDataType::Str]).is_err());
}
