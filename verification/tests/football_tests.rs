use datatoolkit_football::data::{FlexData, FlexDataType, FlexDataVector, FlexIndex};
use datatoolkit_football::football::counts::value_counts;
use datatoolkit_football::football::data_check::{checkstats, final_tables};
use datatoolkit_football::football::data_prep::{create_master, try_create_master};
use datatoolkit_football::football::feature_add::{
    goal_sup_map, goal_superiority, gs_summ, logistic_gs_summ,
};
use datatoolkit_football::football::graphs::{bet_counts, histogram};
use datatoolkit_football::table::FlexTable;

fn chars(s: &str) -> Vec<char> {
    s.chars().collect()
}

fn text(v: &Vec<char>) -> String {
    v.iter().collect()
}

fn show(d: &FlexData) -> String {
    match d {
        FlexData::NA => "NA".to_string(),
        FlexData::Str(s) => format!("S:{}", s),
        FlexData::Uint(n) => format!("U:{}", n),
        FlexData::Int(n) => format!("I:{}", n),
        FlexData::Dbl(s) => format!("D:{}", s),
    }
}

fn show_row(r: &FlexDataVector) -> Vec<String> {
    r.data.iter().map(show).collect()
}

fn raw_labels() -> Vec<String> {
    vec!["Div", "Date", "HomeTeam", "AwayTeam", "FTHG", "FTAG", "FTR"].iter().map(|x| x.to_string()).collect()
}

fn raw_types() -> Vec<FlexDataType> {
    vec![
        FlexDataType::Str,
        FlexDataType::Str,
        FlexDataType::Str,
        FlexDataType::Str,
        FlexDataType::Uint,
        FlexDataType::Uint,
        FlexDataType::Str,
    ]
}

fn raw_table(games: &[(&str, &str, &str, u32, u32, &str)]) -> FlexTable {
    let mut rows = Vec::new();
    for (i, g) in games.iter().enumerate() {
        rows.push(FlexDataVector::new(
            FlexIndex::Uint(i),
            vec![
                FlexData::Str("E0".to_string()),
                FlexData::Str(g.0.to_string()),
                FlexData::Str(g.1.to_string()),
                FlexData::Str(g.2.to_string()),
                FlexData::Uint(g.3),
                FlexData::Uint(g.4),
                FlexData::Str(g.5.to_string()),
            ],
        ));
    }
    FlexTable::from_vecs(raw_labels(), raw_types(), rows)
}

// Ten matches between Arsenal and Bolton, alternating the home side; the
// goal differences for Arsenal are 1, 0, 2, -1, 3, 0, 1, -2, 0, 1.
fn season_games() -> Vec<(&'static str, &'static str, &'static str, u32, u32, &'static str)> {
    vec![
        ("01/08/01", "Arsenal", "Bolton", 1, 0, "H"),
        ("02/08/01", "Bolton", "Arsenal", 1, 1, "D"),
        ("03/08/01", "Arsenal", "Bolton", 2, 0, "H"),
        ("04/08/01", "Bolton", "Arsenal", 1, 0, "H"),
        ("05/08/01", "Arsenal", "Bolton", 3, 0, "H"),
        ("06/08/01", "Bolton", "Arsenal", 0, 0, "D"),
        ("07/08/01", "Arsenal", "Bolton", 2, 1, "H"),
        ("08/08/01", "Bolton", "Arsenal", 2, 0, "H"),
        ("09/08/01", "Arsenal", "Bolton", 1, 1, "D"),
        ("10/08/01", "Bolton", "Arsenal", 0, 1, "A"),
    ]
}

fn master() -> FlexTable {
    let games = season_games();
    create_master(&vec![vec![raw_table(&games)]])
}

#[test]
fn create_master_adds_season_points_and_days() {
    let m = master();
    let labels: Vec<&str> = m.get_labels().iter().map(|x| x.as_str()).collect();
    assert_eq!(
        labels,
        vec![
            "Div", "Date", "HomeTeam", "AwayTeam", "FTHG", "FTAG", "FTR", "Ssn", "Div_n", "Home Points",
            "Away Points", "Date_chron"
        ]
    );
    assert_eq!(m.get_datatypes().len(), 12);
    assert_eq!(m.get_datatypes()[11], FlexDataType::Uint);
    assert_eq!(m.num_records(), 10);
    assert_eq!(
        show_row(&m.get_data()[0]),
        vec!["S:E0", "S:01/08/01", "S:Arsenal", "S:Bolton", "U:1", "U:0", "S:H", "U:0", "U:0", "U:3", "U:0", "U:730698"]
    );
    assert_eq!(show_row(&m.get_data()[1])[9..].to_vec(), vec!["U:1", "U:1", "U:730699"]);
    assert_eq!(show_row(&m.get_data()[9])[9..].to_vec(), vec!["U:0", "U:3", "U:730707"]);
    assert_eq!(m.get_data()[9].index, FlexIndex::Uint(9));
}

#[test]
fn create_master_numbers_seasons_and_divisions() {
    let a = raw_table(&[("01/08/01", "Arsenal", "Bolton", 1, 0, "H")]);
    let b = raw_table(&[("02/08/01", "Bury", "Crewe", 0, 2, "A")]);
    let c = raw_table(&[("01/08/02", "Arsenal", "Bolton", 0, 0, "D")]);
    let m = create_master(&vec![vec![a, b], vec![c]]);
    assert_eq!(m.num_records(), 3);
    assert_eq!(show_row(&m.get_data()[1])[7..].to_vec(), vec!["U:0", "U:1", "U:0", "U:3", "U:730699"]);
    assert_eq!(show_row(&m.get_data()[2])[7..].to_vec(), vec!["U:1", "U:0", "U:1", "U:1", "U:731063"]);
}

#[test]
fn create_master_counts_days_from_year_one() {
    let t = raw_table(&[
        ("01/01/70", "Arsenal", "Bolton", 1, 0, "H"),
        ("29/02/00", "Arsenal", "Bolton", 1, 0, "H"),
        ("31/12/69", "Arsenal", "Bolton", 1, 0, "H"),
    ]);
    let m = create_master(&vec![vec![t]]);
    let days: Vec<String> = m.get_data().iter().map(|r| show(&r.data[11])).collect();
    assert_eq!(days, vec!["U:719163", "U:730179", "U:755687"]);
}

#[test]
fn try_create_master_refuses_a_bad_date() {
    let good = raw_table(&[("01/08/01", "Arsenal", "Bolton", 1, 0, "H")]);
    let bad = raw_table(&[("2001-08-01", "Arsenal", "Bolton", 1, 0, "H")]);
    assert!(try_create_master(&vec![vec![good]]).is_some());
    assert!(try_create_master(&vec![vec![bad]]).is_none());
    let leap = raw_table(&[("29/02/01", "Arsenal", "Bolton", 1, 0, "H")]);
    assert!(try_create_master(&vec![vec![leap]]).is_none());
}

#[test]
fn goal_superiority_sums_six_previous_matches() {
    let m = master();
    let g = goal_superiority(&m);
    assert_eq!(g.get_labels().len(), 15);
    assert_eq!(g.get_labels()[12], "Home_Sup");
    assert_eq!(g.get_labels()[13], "Away_Sup");
    assert_eq!(g.get_labels()[14], "Game_Sup");
    assert_eq!(g.get_datatypes()[14], FlexDataType::Int);
    assert_eq!(g.num_records(), 4);
    let tails: Vec<Vec<String>> = g.get_data().iter().map(|r| show_row(r)[11..].to_vec()).collect();
    assert_eq!(
        tails,
        vec![
            vec!["U:730704", "I:5", "I:-5", "I:10"],
            vec!["U:730705", "I:-5", "I:5", "I:-10"],
            vec!["U:730706", "I:3", "I:-3", "I:6"],
            vec!["U:730707", "I:-1", "I:1", "I:-2"],
        ]
    );
    assert_eq!(show_row(&g.get_data()[0])[2], "S:Arsenal");
    assert_eq!(g.get_data()[3].index, FlexIndex::Uint(3));
}

#[test]
fn goal_sup_map_holds_each_side() {
    let m = master();
    let gs = goal_sup_map(&m);
    assert_eq!(gs.len(), 8);
    assert_eq!(gs.get(&(730704, chars("Arsenal"))), Some(&5));
    assert_eq!(gs.get(&(730704, chars("Bolton"))), Some(&-5));
    assert_eq!(gs.get(&(730707, chars("Arsenal"))), Some(&1));
    assert_eq!(gs.get(&(730703, chars("Arsenal"))), None);
}

#[test]
fn gs_summ_counts_results_by_goal_superiority() {
    let g = goal_superiority(&master());
    let s = gs_summ(&g);
    let seen: Vec<(i64, Vec<(String, usize)>, usize)> =
        s.iter().map(|e| (e.0, e.1.iter().map(|t| (text(&t.0), t.1)).collect(), e.2)).collect();
    let t = |a: usize, b: usize, c: usize| vec![("H".to_string(), a), ("D".to_string(), b), ("A".to_string(), c)];
    assert_eq!(
        seen,
        vec![(-10, t(1, 0, 0), 1), (-2, t(0, 0, 1), 1), (6, t(0, 1, 0), 1), (10, t(1, 0, 0), 1)]
    );
}

#[test]
fn gs_summ_orders_counts_within_a_value() {
    let mut rows = Vec::new();
    let results = ["H", "A", "H", "D", "A", "H"];
    for (i, r) in results.iter().enumerate() {
        rows.push(FlexDataVector::new(
            FlexIndex::Uint(i),
            vec![FlexData::Str(r.to_string()), FlexData::Int(if i < 5 { 3 } else { -1 })],
        ));
    }
    let t = FlexTable::from_vecs(
        vec!["FTR".to_string(), "Game_Sup".to_string()],
        vec![FlexDataType::Str, FlexDataType::Int],
        rows,
    );
    let s = gs_summ(&t);
    assert_eq!(s.len(), 2);
    assert_eq!(s[0].0, -1);
    assert_eq!(s[0].2, 1);
    assert_eq!(s[1].0, 3);
    assert_eq!(s[1].2, 5);
    let counts: Vec<(String, usize)> = s[1].1.iter().map(|x| (text(&x.0), x.1)).collect();
    assert_eq!(counts, vec![("H".to_string(), 2), ("D".to_string(), 1), ("A".to_string(), 2)]);
    let total: usize = s[1].1.iter().map(|x| x.1).sum();
    assert_eq!(total, s[1].2);
}

#[test]
fn logistic_gs_summ_one_hot_per_match() {
    let g = goal_superiority(&master());
    let l = logistic_gs_summ(&g);
    assert_eq!(l, vec![(10, (1, 0, 0)), (-10, (1, 0, 0)), (6, (0, 1, 0)), (-2, (0, 0, 1))]);
}

#[test]
fn histogram_counts_unit_bins() {
    let g = goal_superiority(&master());
    let h = histogram(&g);
    assert_eq!(h.len(), 52);
    let mut want = vec![0usize; 52];
    want[16] = 1;
    want[24] = 1;
    want[32] = 1;
    want[36] = 1;
    assert_eq!(h, want);
}

#[test]
fn histogram_ignores_values_outside_bins() {
    let rows = vec![
        FlexDataVector::new(FlexIndex::Uint(0), vec![FlexData::Int(-26)]),
        FlexDataVector::new(FlexIndex::Uint(1), vec![FlexData::Int(25)]),
        FlexDataVector::new(FlexIndex::Uint(2), vec![FlexData::Int(26)]),
        FlexDataVector::new(FlexIndex::Uint(3), vec![FlexData::Int(-27)]),
        FlexDataVector::new(FlexIndex::Uint(4), vec![FlexData::Int(25)]),
    ];
    let t = FlexTable::from_vecs(vec!["Game_Sup".to_string()], vec![FlexDataType::Int], rows);
    let h = histogram(&t);
    assert_eq!(h[0], 1);
    assert_eq!(h[51], 2);
    assert_eq!(h.iter().sum::<usize>(), 3);
}

#[test]
fn bet_counts_tallies() {
    let v = vec![(true, true), (true, false), (false, true), (false, false), (true, true)];
    assert_eq!(bet_counts(&v), (5, 3, 3, 2));
    assert_eq!(bet_counts(&vec![]), (0, 0, 0, 0));
}

#[test]
fn checkstats_counts_seasons_divisions_and_teams() {
    let a = raw_table(&[
        ("01/08/01", "Arsenal", "Bolton", 1, 0, "H"),
        ("02/08/01", "Bolton", "Arsenal", 1, 0, "H"),
    ]);
    let b = raw_table(&[
        ("02/08/01", "Bury", "Crewe", 0, 2, "A"),
        ("03/08/01", "Bury", "Derby", 0, 0, "D"),
        ("04/08/01", "Crewe", "Derby", 1, 0, "H"),
    ]);
    let c = raw_table(&[("01/08/02", "Arsenal", "Bolton", 0, 0, "D")]);
    let m = create_master(&vec![vec![a, b], vec![c]]);
    let (total, seasons) = checkstats(&m);
    assert_eq!(total, 6);
    let seen: Vec<(String, usize, Vec<(String, usize, usize)>)> = seasons
        .iter()
        .map(|s| (text(&s.0), s.1, s.2.iter().map(|d| (text(&d.0), d.1, d.2)).collect()))
        .collect();
    assert_eq!(
        seen,
        vec![
            ("0".to_string(), 5, vec![("0".to_string(), 2, 2), ("1".to_string(), 3, 2)]),
            ("1".to_string(), 1, vec![("0".to_string(), 1, 1)]),
        ]
    );
    let season_sum: usize = seasons.iter().map(|s| s.1).sum();
    assert_eq!(season_sum, total);
}

#[test]
fn final_tables_rank_by_points_and_goal_difference() {
    let (counts, total, tables) = final_tables(&master());
    let seen: Vec<(String, usize)> = counts.iter().map(|c| (text(&c.0), c.1)).collect();
    assert_eq!(seen, vec![("Arsenal".to_string(), 1), ("Bolton".to_string(), 1)]);
    assert_eq!(total, 2);
    assert_eq!(tables.len(), 1);
    assert_eq!(tables[0].0, (0, 0));
    let rows: Vec<(String, u128, i128)> = tables[0].1.iter().map(|x| (text(&x.0), x.1, x.2)).collect();
    assert_eq!(rows, vec![("Arsenal".to_string(), 18, 5), ("Bolton".to_string(), 9, -5)]);
}

#[test]
fn final_tables_break_ties_by_name_descending() {
    let a = raw_table(&[
        ("01/08/01", "Bury", "Crewe", 1, 1, "D"),
        ("02/08/01", "Derby", "Exeter", 2, 0, "H"),
    ]);
    let b = raw_table(&[("02/08/02", "Bury", "Crewe", 0, 2, "A")]);
    let m = create_master(&vec![vec![a], vec![b]]);
    let (counts, total, tables) = final_tables(&m);
    let seen: Vec<(String, usize)> = counts.iter().map(|c| (text(&c.0), c.1)).collect();
    assert_eq!(seen, vec![("Bury".to_string(), 2), ("Derby".to_string(), 1)]);
    assert_eq!(total, 3);
    assert_eq!(tables.len(), 2);
    assert_eq!(tables[0].0, (0, 0));
    let first: Vec<(String, u128, i128)> = tables[0].1.iter().map(|x| (text(&x.0), x.1, x.2)).collect();
    assert_eq!(
        first,
        vec![
            ("Derby".to_string(), 3, 2),
            ("Crewe".to_string(), 1, 0),
            ("Bury".to_string(), 1, 0),
            ("Exeter".to_string(), 0, -2),
        ]
    );
    assert_eq!(tables[1].0, (1, 0));
    let second: Vec<(String, u128, i128)> = tables[1].1.iter().map(|x| (text(&x.0), x.1, x.2)).collect();
    assert_eq!(second, vec![("Crewe".to_string(), 3, 2), ("Bury".to_string(), 0, -2)]);
}

#[test]
fn final_tables_points_and_goal_differences_add_up() {
    let a = raw_table(&[
        ("01/08/01", "Bury", "Crewe", 1, 1, "D"),
        ("02/08/01", "Derby", "Exeter", 2, 0, "H"),
        ("03/08/01", "Crewe", "Derby", 0, 3, "A"),
    ]);
    let b = raw_table(&[("02/08/02", "Bury", "Crewe", 0, 2, "A")]);
    let m = create_master(&vec![vec![a], vec![b]]);
    let (_counts, _total, tables) = final_tables(&m);
    let points: Vec<u128> = tables.iter().map(|t| t.1.iter().map(|x| x.1).sum::<u128>()).collect();
    let gd: Vec<i128> = tables.iter().map(|t| t.1.iter().map(|x| x.2).sum::<i128>()).collect();
    assert_eq!(points, vec![2 + 3 + 3, 3]);
    assert_eq!(gd, vec![0, 0]);
}

#[test]
fn gs_summ_agrees_with_one_hot_flags() {
    let mut games = season_games();
    games.push(("11/08/01", "Arsenal", "Bolton", 3, 1, "H"));
    games.push(("12/08/01", "Bolton", "Arsenal", 1, 1, "D"));
    let g = goal_superiority(&create_master(&vec![vec![raw_table(&games)]]));
    let l = logistic_gs_summ(&g);
    let s = gs_summ(&g);
    for (v, counts, total) in s.iter() {
        let with_v: Vec<&(i64, (u8, u8, u8))> = l.iter().filter(|x| x.0 == *v).collect();
        assert_eq!(*total, with_v.len());
        let flags = [
            with_v.iter().filter(|x| x.1 .0 == 1).count(),
            with_v.iter().filter(|x| x.1 .1 == 1).count(),
            with_v.iter().filter(|x| x.1 .2 == 1).count(),
        ];
        for (j, r) in ["H", "D", "A"].iter().enumerate() {
            assert!(counts.contains(&(chars(r), flags[j])));
        }
    }
    for x in l.iter() {
        assert!(s.iter().any(|e| e.0 == x.0));
    }
    let hist = value_counts(&l);
    assert_eq!(hist.len(), s.len());
    for (v, _counts, total) in s.iter() {
        assert_eq!(hist.get(v), Some(total));
    }
}

#[test]
fn value_counts_counts_each_value() {
    let l = vec![(3, (1, 0, 0)), (-1, (0, 1, 0)), (3, (0, 0, 1)), (0, (1, 0, 0))];
    let m = value_counts(&l);
    let seen: Vec<(i64, usize)> = m.iter().map(|(k, n)| (*k, *n)).collect();
    assert_eq!(seen, vec![(-1, 1), (0, 1), (3, 2)]);
    assert_eq!(value_counts(&vec![]).len(), 0);
}

#[test]
fn goal_superiority_ignores_record_order() {
    let m = master();
    let mut rows: Vec<FlexDataVector> = m.get_data().iter().map(|r| r.duplicate()).collect();
    rows.reverse();
    rows.swap(2, 7);
    let shuffled = FlexTable::from_vecs(m.get_labels().to_vec(), m.get_datatypes().to_vec(), rows);
    let a = goal_superiority(&m);
    let b = goal_superiority(&shuffled);
    let rows_a: Vec<Vec<String>> = a.get_data().iter().map(show_row).collect();
    let rows_b: Vec<Vec<String>> = b.get_data().iter().map(show_row).collect();
    assert_eq!(rows_a, rows_b);
    let idx_a: Vec<FlexIndex> = a.get_data().iter().map(|r| r.index).collect();
    let idx_b: Vec<FlexIndex> = b.get_data().iter().map(|r| r.index).collect();
    assert_eq!(idx_a, idx_b);
    assert_eq!(goal_sup_map(&m).entries, goal_sup_map(&shuffled).entries);
}
