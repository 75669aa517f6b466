//! Goal-superiority features and result summaries.

use vstd::prelude::*;
use crate::data::{DataView, FlexData, FlexDataType, FlexDataVector, FlexIndex, RowView};
use crate::ordmap::{
    entries_map, has_sorted_entries, key_views, lemma_entries_map_at, lemma_sorted_entries_empty,
    lemma_sorted_entries_insert, lemma_sorted_entries_of, lemma_weight_sum_reverse,
    lemma_map_same_multiset, lemma_sort_contains, lemma_sort_from, lemma_sort_same_multiset,
    lemma_weight_sum_sort, sort_keys, sort_keys_spec, sorted_entries, strictly_sorted, weight_sum,
    OrdMap, OrderedKey,
};
use crate::table::{
    column_of, count_sum, duplicate_texts, duplicate_types, find_text, group_keys, group_rows,
    group_sizes, key_at, lemma_filter_from, lemma_group_key_from, lemma_group_keys_same, lemma_group_rows_same, lemma_key_in_group_keys, lemma_group_keys_distinct,
    lemma_group_rows_push, lemma_group_sizes_total, lemma_groups_cover, lemma_no_group_rows, lemma_rows_reach_group, row_views, rows_reach, same_text, text_views,
    FlexTable, TableView,
};
use crate::text::{copy_text, int_text, law_int_text_parses, parse_i64, spec_parse_i64, string_chars};

verus! {

broadcast use vstd::seq_lib::group_seq_properties;

/// The number of earlier matches whose goal differences make a team's goal
/// superiority.
pub const WINDOW: usize = 6;

/// The value of a `Uint` (0 for other values).
pub open spec fn u32_of(d: DataView) -> u32 {
    match d {
        DataView::Uint(n) => n,
        _ => 0,
    }
}

/// The places of the columns that goal superiority reads.
pub struct SupColumns {
    pub ssn: int,
    pub home: int,
    pub away: int,
    pub date: int,
    pub fthg: int,
    pub ftag: int,
}

/// The columns `Ssn`, `HomeTeam`, `AwayTeam`, `Date_chron`, `FTHG` and
/// `FTAG` of a table.
pub open spec fn sup_columns(labels: Seq<Seq<char>>) -> SupColumns {
    SupColumns {
        ssn: column_of(labels, "Ssn"@),
        home: column_of(labels, "HomeTeam"@),
        away: column_of(labels, "AwayTeam"@),
        date: column_of(labels, "Date_chron"@),
        fthg: column_of(labels, "FTHG"@),
        ftag: column_of(labels, "FTAG"@),
    }
}

/// A match as one team's entry: the date and the goal difference, taken for
/// the team by `sign`.
pub open spec fn gd_entry(r: RowView, cols: SupColumns, sign: int) -> (u32, i64) {
    (u32_of(r.data[cols.date]), (sign * (u32_of(r.data[cols.fthg]) - u32_of(r.data[cols.ftag]))) as i64)
}

/// A team's entries in a season: its home matches with the goal difference
/// as it is, then its away matches with it reversed; a team without home
/// matches has its away matches with the goal difference as it is.
pub open spec fn team_entries(sr: Seq<RowView>, cols: SupColumns, t: Seq<char>) -> Seq<(u32, i64)> {
    let h = group_rows(sr, cols.home, t);
    let a = group_rows(sr, cols.away, t);
    let sign: int = if h.len() > 0 {
        -1
    } else {
        1
    };
    h.map_values(|r: RowView| gd_entry(r, cols, 1)) + a.map_values(|r: RowView| gd_entry(r, cols, sign))
}

/// The sum of the goal differences of entries.
pub open spec fn sum_gd(s: Seq<(u32, i64)>) -> int
    decreases s.len(),
{
    if s.len() == 0 {
        0
    } else {
        sum_gd(s.drop_last()) + s.last().1
    }
}

/// A team's goal superiority at entry `idx`: the sum of the goal differences
/// of the `WINDOW` entries before it.
pub open spec fn window_sum(es: Seq<(u32, i64)>, idx: int) -> i64 {
    sum_gd(es.subrange(idx - WINDOW, idx)) as i64
}

/// The goal superiorities of a team's sorted entries from `WINDOW` up to `n`,
/// set in order under (date of the entry, team).
pub open spec fn add_windows(
    m: Map<(u32, Seq<char>), i64>,
    es: Seq<(u32, i64)>,
    t: Seq<char>,
    n: int,
) -> Map<(u32, Seq<char>), i64>
    decreases n,
{
    if n <= WINDOW {
        m
    } else {
        add_windows(m, es, t, n - 1).insert((es[n - 1].0, t), window_sum(es, n - 1))
    }
}

/// The teams of a season: those with home matches, then those with only
/// away matches, each in order of first appearance.
pub open spec fn team_list(sr: Seq<RowView>, cols: SupColumns) -> Seq<Seq<char>> {
    let hk = group_keys(sr, cols.home);
    hk + group_keys(sr, cols.away).filter(|k: Seq<char>| !hk.contains(k))
}

/// The sorted entries of a team in a season.
pub open spec fn sorted_team_entries(sr: Seq<RowView>, cols: SupColumns, t: Seq<char>) -> Seq<(u32, i64)> {
    sort_keys_spec::<(u32, i64)>(team_entries(sr, cols, t))
}

/// The goal superiorities of the teams of a season, team by team.
pub open spec fn add_teams(
    m: Map<(u32, Seq<char>), i64>,
    sr: Seq<RowView>,
    cols: SupColumns,
    teams: Seq<Seq<char>>,
) -> Map<(u32, Seq<char>), i64>
    decreases teams.len(),
{
    if teams.len() == 0 {
        m
    } else {
        let es = sorted_team_entries(sr, cols, teams.last());
        add_windows(add_teams(m, sr, cols, teams.drop_last()), es, teams.last(), es.len() as int)
    }
}

/// The goal superiorities of the seasons, season by season.
pub open spec fn add_seasons(
    m: Map<(u32, Seq<char>), i64>,
    rows: Seq<RowView>,
    cols: SupColumns,
    seasons: Seq<Seq<char>>,
) -> Map<(u32, Seq<char>), i64>
    decreases seasons.len(),
{
    if seasons.len() == 0 {
        m
    } else {
        let sr = group_rows(rows, cols.ssn, seasons.last());
        add_teams(add_seasons(m, rows, cols, seasons.drop_last()), sr, cols, team_list(sr, cols))
    }
}

/// The goal superiority of every team at every match from its seventh of a
/// season on, under (date, team), the seasons taken in the order of their
/// text.
pub open spec fn goal_sups(t: TableView) -> Map<(u32, Seq<char>), i64> {
    let cols = sup_columns(t.labels);
    add_seasons(
        Map::empty(),
        t.rows,
        cols,
        sort_keys_spec::<Vec<char>>(group_keys(t.rows, cols.ssn)),
    )
}


/// The sorted entries of team `tm` in the season with text `s` (see
/// `sorted_team_entries`).
pub open spec fn season_entries(t: TableView, s: Seq<char>, tm: Seq<char>) -> Seq<(u32, i64)> {
    let cols = sup_columns(t.labels);
    sorted_team_entries(group_rows(t.rows, cols.ssn, s), cols, tm)
}

/// The day of entry `idx` of team `tm` in season `s` with the team's goal
/// superiority there (the sum of its `WINDOW` entries before it), when `s`
/// is a season of the table and `idx` an entry from the seventh on.
pub open spec fn window_at(t: TableView, s: Seq<char>, tm: Seq<char>, idx: int) -> Option<(u32, i64)> {
    let es = season_entries(t, s, tm);
    if group_keys(t.rows, sup_columns(t.labels).ssn).contains(s) && WINDOW <= idx < es.len() {
        Some((es[idx].0, window_sum(es, idx)))
    } else {
        None
    }
}

/// Value `v` under (day, team) `key` is the team's goal superiority at one of
/// its matches of a season on that day.
pub open spec fn season_window(t: TableView, key: (u32, Seq<char>), v: i64) -> bool {
    exists|s: Seq<char>, idx: int| #[trigger] window_at(t, s, key.1, idx) == Some((key.0, v))
}

/// Every value of the map is a season window.
pub open spec fn all_season_windows(t: TableView, m: Map<(u32, Seq<char>), i64>) -> bool {
    forall|key: (u32, Seq<char>)| #[trigger] m.contains_key(key) ==> season_window(t, key, m[key])
}

proof fn lemma_add_windows_sound(t: TableView, m: Map<(u32, Seq<char>), i64>, s: Seq<char>, tm: Seq<char>, n: int)
    requires
        all_season_windows(t, m),
        group_keys(t.rows, sup_columns(t.labels).ssn).contains(s),
        n <= season_entries(t, s, tm).len(),
    ensures
        all_season_windows(t, add_windows(m, season_entries(t, s, tm), tm, n)),
    decreases n,
{
    let es = season_entries(t, s, tm);
    if n > WINDOW {
        lemma_add_windows_sound(t, m, s, tm, n - 1);
        let m1 = add_windows(m, es, tm, n - 1);
        let k = (es[n - 1].0, tm);
        assert(window_at(t, s, tm, n - 1) == Some((k.0, window_sum(es, n - 1))));
        assert forall|key: (u32, Seq<char>)| #[trigger] m1.insert(k, window_sum(es, n - 1)).contains_key(key) implies season_window(
            t,
            key,
            m1.insert(k, window_sum(es, n - 1))[key],
        ) by {
            if key == k {
                assert(window_at(t, s, key.1, n - 1) == Some((key.0, window_sum(es, n - 1))));
            } else {
                assert(m1.contains_key(key));
            }
        }
    }
}

proof fn lemma_add_teams_sound(t: TableView, m: Map<(u32, Seq<char>), i64>, s: Seq<char>, teams: Seq<Seq<char>>)
    requires
        all_season_windows(t, m),
        group_keys(t.rows, sup_columns(t.labels).ssn).contains(s),
    ensures
        all_season_windows(
            t,
            add_teams(m, group_rows(t.rows, sup_columns(t.labels).ssn, s), sup_columns(t.labels), teams),
        ),
    decreases teams.len(),
{
    if teams.len() > 0 {
        let cols = sup_columns(t.labels);
        let sr = group_rows(t.rows, cols.ssn, s);
        lemma_add_teams_sound(t, m, s, teams.drop_last());
        let es = sorted_team_entries(sr, cols, teams.last());
        assert(es == season_entries(t, s, teams.last()));
        lemma_add_windows_sound(t, add_teams(m, sr, cols, teams.drop_last()), s, teams.last(), es.len() as int);
    }
}

proof fn lemma_add_seasons_sound(t: TableView, seasons: Seq<Seq<char>>)
    requires
        forall|i: int| 0 <= i < seasons.len() ==> group_keys(t.rows, sup_columns(t.labels).ssn).contains(
            #[trigger] seasons[i],
        ),
    ensures
        all_season_windows(t, add_seasons(Map::empty(), t.rows, sup_columns(t.labels), seasons)),
    decreases seasons.len(),
{
    let cols = sup_columns(t.labels);
    if seasons.len() > 0 {
        let r = seasons.drop_last();
        assert forall|i: int| 0 <= i < r.len() implies group_keys(t.rows, cols.ssn).contains(#[trigger] r[i]) by {
            assert(r[i] == seasons[i]);
        }
        lemma_add_seasons_sound(t, r);
        let s = seasons.last();
        assert(seasons[seasons.len() - 1] == s);
        let sr = group_rows(t.rows, cols.ssn, s);
        lemma_add_teams_sound(t, add_seasons(Map::empty(), t.rows, cols, r), s, team_list(sr, cols));
    }
}

/// Every goal superiority in the map is that of its team at one of its
/// matches of a season, on the match's day: the sum of the goal
/// differences of the team's `WINDOW` matches of that season before it, in
/// the order of (day, goal difference), from the team's seventh match of the
/// season on.
pub proof fn law_goal_sups_are_windows(t: TableView)
    ensures
        forall|key: (u32, Seq<char>)| #[trigger] goal_sups(t).contains_key(key) ==> exists|s: Seq<char>, idx: int|
            #[trigger] window_at(t, s, key.1, idx) == Some((key.0, goal_sups(t)[key])),
{
    let cols = sup_columns(t.labels);
    let ks = group_keys(t.rows, cols.ssn);
    let seasons = sort_keys_spec::<Vec<char>>(ks);
    assert forall|i: int| 0 <= i < seasons.len() implies ks.contains(#[trigger] seasons[i]) by {
        lemma_sort_from::<Vec<char>>(ks, seasons[i]);
    }
    lemma_add_seasons_sound(t, seasons);
}

proof fn lemma_gd_entry_bound(r: RowView, cols: SupColumns, sign: int)
    requires
        sign == 1 || sign == -1,
    ensures
        -4294967295 <= gd_entry(r, cols, sign).1 <= 4294967295,
{
    let d: int = u32_of(r.data[cols.fthg]) - u32_of(r.data[cols.ftag]);
    if sign == 1 {
        assert(sign * d == d);
    } else {
        assert(sign * d == -d);
    }
}

proof fn lemma_team_entries_bound(sr: Seq<RowView>, cols: SupColumns, t: Seq<char>)
    ensures
        forall|i: int|
            0 <= i < team_entries(sr, cols, t).len() ==> -4294967295 <= (#[trigger] team_entries(sr, cols, t)[i]).1
                <= 4294967295,
{
    let h = group_rows(sr, cols.home, t);
    let a = group_rows(sr, cols.away, t);
    let sign: int = if h.len() > 0 {
        -1
    } else {
        1
    };
    let te = team_entries(sr, cols, t);
    assert forall|i: int| 0 <= i < te.len() implies -4294967295 <= (#[trigger] te[i]).1 <= 4294967295 by {
        if i < h.len() {
            lemma_gd_entry_bound(h[i], cols, 1);
        } else {
            lemma_gd_entry_bound(a[i - h.len()], cols, sign);
        }
    }
}

proof fn lemma_sum_gd_bound(s: Seq<(u32, i64)>)
    requires
        forall|i: int| 0 <= i < s.len() ==> -4294967295 <= (#[trigger] s[i]).1 <= 4294967295,
    ensures
        -4294967295 * s.len() <= sum_gd(s) <= 4294967295 * s.len(),
    decreases s.len(),
{
    if s.len() > 0 {
        let r = s.drop_last();
        assert forall|i: int| 0 <= i < r.len() implies -4294967295 <= (#[trigger] r[i]).1 <= 4294967295 by {
            assert(r[i] == s[i]);
        }
        lemma_sum_gd_bound(r);
        assert(s[s.len() - 1] == s.last());
    }
}

/// Every goal superiority lies within `WINDOW` times the largest goal
/// difference that a match can have (that of two `u32` goal counts).
pub proof fn law_goal_sups_bounded(t: TableView)
    ensures
        forall|key: (u32, Seq<char>)| #[trigger] goal_sups(t).contains_key(key) ==> -25769803770 <= goal_sups(t)[key]
            <= 25769803770,
{
    law_goal_sups_are_windows(t);
    assert forall|key: (u32, Seq<char>)| #[trigger] goal_sups(t).contains_key(key) implies -25769803770
        <= goal_sups(t)[key] <= 25769803770 by {
        let (s, idx) = choose|s: Seq<char>, idx: int|
            #[trigger] window_at(t, s, key.1, idx) == Some((key.0, goal_sups(t)[key]));
        let cols = sup_columns(t.labels);
        let sr = group_rows(t.rows, cols.ssn, s);
        let te = team_entries(sr, cols, key.1);
        let es = season_entries(t, s, key.1);
        assert(es == sort_keys_spec::<(u32, i64)>(te));
        lemma_team_entries_bound(sr, cols, key.1);
        let w = es.subrange(idx - WINDOW, idx);
        assert forall|i: int| 0 <= i < w.len() implies -4294967295 <= (#[trigger] w[i]).1 <= 4294967295 by {
            let x = w[i];
            assert(es[idx - WINDOW + i] == x);
            assert(es.contains(x));
            lemma_sort_from::<(u32, i64)>(te, x);
            let j = choose|j: int| 0 <= j < te.len() && te[j] == x;
            assert(-4294967295 <= te[j].1 <= 4294967295);
        }
        lemma_sum_gd_bound(w);
        assert(goal_sups(t)[key] == window_sum(es, idx));
    }
}

proof fn lemma_add_windows_keys(m: Map<(u32, Seq<char>), i64>, es: Seq<(u32, i64)>, tm: Seq<char>, n: int)
    requires
        n <= es.len(),
    ensures
        forall|key: (u32, Seq<char>)| m.contains_key(key) ==> #[trigger] add_windows(m, es, tm, n).contains_key(key),
        forall|idx: int| WINDOW <= idx < n ==> add_windows(m, es, tm, n).contains_key((#[trigger] es[idx].0, tm)),
    decreases n,
{
    if n > WINDOW {
        lemma_add_windows_keys(m, es, tm, n - 1);
        let m1 = add_windows(m, es, tm, n - 1);
        assert(add_windows(m, es, tm, n) == m1.insert((es[n - 1].0, tm), window_sum(es, n - 1)));
    } else {
        assert(add_windows(m, es, tm, n) == m);
    }
}

proof fn lemma_add_teams_keys(m: Map<(u32, Seq<char>), i64>, sr: Seq<RowView>, cols: SupColumns, teams: Seq<Seq<char>>)
    ensures
        forall|key: (u32, Seq<char>)| m.contains_key(key) ==> #[trigger] add_teams(m, sr, cols, teams).contains_key(key),
        forall|q: int, idx: int|
            0 <= q < teams.len() && WINDOW <= idx < sorted_team_entries(sr, cols, teams[q]).len() ==> add_teams(
                m,
                sr,
                cols,
                teams,
            ).contains_key((#[trigger] sorted_team_entries(sr, cols, teams[q])[idx].0, teams[q])),
    decreases teams.len(),
{
    if teams.len() > 0 {
        let r = teams.drop_last();
        let m1 = add_teams(m, sr, cols, r);
        lemma_add_teams_keys(m, sr, cols, r);
        let es = sorted_team_entries(sr, cols, teams.last());
        lemma_add_windows_keys(m1, es, teams.last(), es.len() as int);
        assert forall|q: int, idx: int|
            0 <= q < teams.len() && WINDOW <= idx < sorted_team_entries(sr, cols, teams[q]).len() implies add_teams(
                m,
                sr,
                cols,
                teams,
            ).contains_key((#[trigger] sorted_team_entries(sr, cols, teams[q])[idx].0, teams[q])) by {
            if q < r.len() {
                assert(r[q] == teams[q]);
                assert(m1.contains_key((sorted_team_entries(sr, cols, r[q])[idx].0, r[q])));
            } else {
                assert(teams[q] == teams.last());
            }
        }
    }
}

proof fn lemma_add_seasons_keys(t: TableView, seasons: Seq<Seq<char>>)
    ensures
        forall|q: int, tm: Seq<char>, idx: int|
            0 <= q < seasons.len() && team_list(
                group_rows(t.rows, sup_columns(t.labels).ssn, seasons[q]),
                sup_columns(t.labels),
            ).contains(tm) && WINDOW <= idx < season_entries(t, seasons[q], tm).len() ==> add_seasons(
                Map::empty(),
                t.rows,
                sup_columns(t.labels),
                seasons,
            ).contains_key((#[trigger] season_entries(t, seasons[q], tm)[idx].0, tm)),
    decreases seasons.len(),
{
    let cols = sup_columns(t.labels);
    if seasons.len() > 0 {
        let r = seasons.drop_last();
        lemma_add_seasons_keys(t, r);
        let s = seasons.last();
        let sr = group_rows(t.rows, cols.ssn, s);
        let m1 = add_seasons(Map::empty(), t.rows, cols, r);
        let teams = team_list(sr, cols);
        lemma_add_teams_keys(m1, sr, cols, teams);
        assert forall|q: int, tm: Seq<char>, idx: int|
            0 <= q < seasons.len() && team_list(group_rows(t.rows, cols.ssn, seasons[q]), cols).contains(tm)
                && WINDOW <= idx < season_entries(t, seasons[q], tm).len() implies add_seasons(
                Map::empty(),
                t.rows,
                cols,
                seasons,
            ).contains_key((#[trigger] season_entries(t, seasons[q], tm)[idx].0, tm)) by {
            if q < r.len() {
                assert(r[q] == seasons[q]);
                assert(m1.contains_key((season_entries(t, r[q], tm)[idx].0, tm)));
            } else {
                assert(seasons[q] == s);
                let p = choose|p: int| 0 <= p < teams.len() && teams[p] == tm;
                assert(season_entries(t, s, tm) == sorted_team_entries(sr, cols, teams[p]));
                assert(sorted_team_entries(sr, cols, teams[p])[idx].0 == season_entries(t, s, tm)[idx].0);
            }
        }
    }
}

/// Every team of every season has a goal superiority in the map at each
/// of its matches of the season from the seventh on.
pub proof fn law_goal_sups_cover_windows(t: TableView, s: Seq<char>, tm: Seq<char>, idx: int)
    requires
        group_keys(t.rows, sup_columns(t.labels).ssn).contains(s),
        team_list(group_rows(t.rows, sup_columns(t.labels).ssn, s), sup_columns(t.labels)).contains(tm),
        WINDOW <= idx < season_entries(t, s, tm).len(),
    ensures
        goal_sups(t).contains_key((season_entries(t, s, tm)[idx].0, tm)),
{
    let cols = sup_columns(t.labels);
    let ks = group_keys(t.rows, cols.ssn);
    let seasons = sort_keys_spec::<Vec<char>>(ks);
    lemma_sort_contains::<Vec<char>>(ks, s);
    let q = choose|q: int| 0 <= q < seasons.len() && seasons[q] == s;
    lemma_add_seasons_keys(t, seasons);
    assert(season_entries(t, seasons[q], tm)[idx].0 == season_entries(t, s, tm)[idx].0);
}

/// A team's goal superiority at its match number `idx + 1` of a season,
/// from the seventh on, is the sum of the goal differences of its `WINDOW`
/// previous matches of that season, when none of its other matches from
/// the seventh of a season on falls on the same day.
pub proof fn law_goal_sup_at_match(t: TableView, s: Seq<char>, tm: Seq<char>, idx: int)
    requires
        group_keys(t.rows, sup_columns(t.labels).ssn).contains(s),
        team_list(group_rows(t.rows, sup_columns(t.labels).ssn, s), sup_columns(t.labels)).contains(tm),
        WINDOW <= idx < season_entries(t, s, tm).len(),
        forall|s2: Seq<char>, i2: int|
            #[trigger] window_at(t, s2, tm, i2) is Some && window_at(t, s2, tm, i2).unwrap().0 == season_entries(
                t,
                s,
                tm,
            )[idx].0 ==> s2 == s && i2 == idx,
    ensures
        goal_sups(t).contains_key((season_entries(t, s, tm)[idx].0, tm)),
        goal_sups(t)[(season_entries(t, s, tm)[idx].0, tm)] == window_sum(season_entries(t, s, tm), idx),
{
    let key = (season_entries(t, s, tm)[idx].0, tm);
    law_goal_sups_cover_windows(t, s, tm, idx);
    law_goal_sups_are_windows(t);
    assert(goal_sups(t).contains_key(key));
    let (s2, i2) = choose|s2: Seq<char>, i2: int| #[trigger] window_at(t, s2, key.1, i2) == Some((key.0, goal_sups(t)[key]));
    assert(window_at(t, s2, tm, i2) is Some);
}

/// A team's sorted entries in a season do not depend on the order of the
/// season's records.
pub proof fn lemma_sorted_team_entries_same(sr: Seq<RowView>, sr2: Seq<RowView>, cols: SupColumns, tm: Seq<char>)
    requires
        sr.to_multiset() == sr2.to_multiset(),
    ensures
        sorted_team_entries(sr2, cols, tm) == sorted_team_entries(sr, cols, tm),
{
    broadcast use vstd::seq_lib::lemma_multiset_commutative;

    let h = group_rows(sr, cols.home, tm);
    let a = group_rows(sr, cols.away, tm);
    let h2 = group_rows(sr2, cols.home, tm);
    let a2 = group_rows(sr2, cols.away, tm);
    lemma_group_rows_same(sr, sr2, cols.home, tm);
    lemma_group_rows_same(sr, sr2, cols.away, tm);
    vstd::seq_lib::to_multiset_len(h);
    vstd::seq_lib::to_multiset_len(h2);
    let sign: int = if h.len() > 0 {
        -1
    } else {
        1
    };
    let f1 = |r: RowView| gd_entry(r, cols, 1);
    let f2 = |r: RowView| gd_entry(r, cols, sign);
    assert(team_entries(sr, cols, tm) =~= h.map_values(f1) + a.map_values(f2));
    assert(team_entries(sr2, cols, tm) =~= h2.map_values(f1) + a2.map_values(f2));
    lemma_map_same_multiset(h, h2, f1);
    lemma_map_same_multiset(a, a2, f2);
    lemma_sort_same_multiset::<(u32, i64)>(team_entries(sr, cols, tm), team_entries(sr2, cols, tm));
}

/// Two maps agree at a key: both hold it with the same value, or neither
/// holds it.
pub open spec fn agree_at(m1: Map<(u32, Seq<char>), i64>, m2: Map<(u32, Seq<char>), i64>, key: (u32, Seq<char>)) -> bool {
    &&& m1.contains_key(key) == m2.contains_key(key)
    &&& m1.contains_key(key) ==> m1[key] == m2[key]
}

proof fn lemma_add_windows_other(m: Map<(u32, Seq<char>), i64>, es: Seq<(u32, i64)>, tm: Seq<char>, n: int, key: (u32, Seq<char>))
    requires
        key.1 != tm,
    ensures
        agree_at(add_windows(m, es, tm, n), m, key),
    decreases n,
{
    if n > WINDOW {
        lemma_add_windows_other(m, es, tm, n - 1, key);
    }
}

proof fn lemma_add_windows_cong(
    m1: Map<(u32, Seq<char>), i64>,
    m2: Map<(u32, Seq<char>), i64>,
    es: Seq<(u32, i64)>,
    tm: Seq<char>,
    n: int,
    key: (u32, Seq<char>),
)
    requires
        agree_at(m1, m2, key),
    ensures
        agree_at(add_windows(m1, es, tm, n), add_windows(m2, es, tm, n), key),
    decreases n,
{
    if n > WINDOW {
        lemma_add_windows_cong(m1, m2, es, tm, n - 1, key);
    }
}

proof fn lemma_add_teams_at(
    m: Map<(u32, Seq<char>), i64>,
    sr: Seq<RowView>,
    cols: SupColumns,
    teams: Seq<Seq<char>>,
    key: (u32, Seq<char>),
)
    requires
        teams.no_duplicates(),
    ensures
        agree_at(
            add_teams(m, sr, cols, teams),
            if teams.contains(key.1) {
                add_windows(m, sorted_team_entries(sr, cols, key.1), key.1, sorted_team_entries(sr, cols, key.1).len() as int)
            } else {
                m
            },
            key,
        ),
    decreases teams.len(),
{
    if teams.len() > 0 {
        let r = teams.drop_last();
        let last = teams.last();
        assert(r.no_duplicates()) by {
            assert forall|i: int, j: int| 0 <= i < r.len() && 0 <= j < r.len() && i != j implies r[i] != r[j] by {
                assert(r[i] == teams[i] && r[j] == teams[j]);
            }
        }
        lemma_add_teams_at(m, sr, cols, r, key);
        let m1 = add_teams(m, sr, cols, r);
        let es = sorted_team_entries(sr, cols, last);
        assert(teams[teams.len() - 1] == last);
        if key.1 == last {
            assert(!r.contains(last)) by {
                if r.contains(last) {
                    let i = choose|i: int| 0 <= i < r.len() && r[i] == last;
                    assert(teams[i] == teams[teams.len() - 1]);
                }
            }
            lemma_add_windows_cong(m1, m, es, last, es.len() as int, key);
        } else {
            lemma_add_windows_other(m1, es, last, es.len() as int, key);
            assert(teams.contains(key.1) == r.contains(key.1)) by {
                if teams.contains(key.1) {
                    let i = choose|i: int| 0 <= i < teams.len() && teams[i] == key.1;
                    assert(r[i] == key.1);
                }
                if r.contains(key.1) {
                    let i = choose|i: int| 0 <= i < r.len() && r[i] == key.1;
                    assert(teams[i] == key.1);
                }
            }
        }
    }
}

proof fn lemma_filter_no_duplicates(s: Seq<Seq<char>>, p: spec_fn(Seq<char>) -> bool)
    requires
        s.no_duplicates(),
    ensures
        s.filter(p).no_duplicates(),
    decreases s.len(),
{
    if s.len() > 0 {
        let s0 = s.drop_last();
        assert(s0.no_duplicates()) by {
            assert forall|i: int, j: int| 0 <= i < s0.len() && 0 <= j < s0.len() && i != j implies s0[i] != s0[j] by {
                assert(s0[i] == s[i] && s0[j] == s[j]);
            }
        }
        lemma_filter_no_duplicates(s0, p);
        s0.lemma_filter_push(s.last(), p);
        assert(s0.push(s.last()) =~= s);
        let f = s0.filter(p);
        if p(s.last()) {
            assert(!f.contains(s.last())) by {
                if f.contains(s.last()) {
                    s0.lemma_filter_contains_rev(p, s.last());
                    let i = choose|i: int| 0 <= i < s0.len() && s0[i] == s.last();
                    assert(s[i] == s[s.len() - 1]);
                }
            }
            assert forall|i: int, j: int| 0 <= i < f.push(s.last()).len() && 0 <= j < f.push(s.last()).len() && i != j
                implies f.push(s.last())[i] != f.push(s.last())[j] by {
                if i < f.len() && j < f.len() {
                } else if i == f.len() {
                    assert(f[j] == f.push(s.last())[j]);
                } else {
                    assert(f[i] == f.push(s.last())[i]);
                }
            }
        }
    }
}

proof fn lemma_team_list(sr: Seq<RowView>, cols: SupColumns, tm: Seq<char>)
    ensures
        team_list(sr, cols).no_duplicates(),
        team_list(sr, cols).contains(tm) <==> group_keys(sr, cols.home).contains(tm) || group_keys(sr, cols.away).contains(tm),
{
    let hk = group_keys(sr, cols.home);
    let ak = group_keys(sr, cols.away);
    let p = |k: Seq<char>| !hk.contains(k);
    let f = ak.filter(p);
    lemma_group_keys_distinct(sr, cols.home);
    lemma_group_keys_distinct(sr, cols.away);
    lemma_filter_no_duplicates(ak, p);
    let tl = hk + f;
    assert(team_list(sr, cols) == tl);
    assert(tl.no_duplicates()) by {
        assert forall|i: int, j: int| 0 <= i < tl.len() && 0 <= j < tl.len() && i != j implies tl[i] != tl[j] by {
            if i < hk.len() && j >= hk.len() {
                assert(f.contains(tl[j]));
                ak.lemma_filter_pred(p, j - hk.len());
                assert(hk.contains(tl[i]));
            } else if j < hk.len() && i >= hk.len() {
                ak.lemma_filter_pred(p, i - hk.len());
                assert(hk.contains(tl[j]));
            } else if i >= hk.len() {
                assert(tl[i] == f[i - hk.len()] && tl[j] == f[j - hk.len()]);
            }
        }
    }
    if tl.contains(tm) {
        let i = choose|i: int| 0 <= i < tl.len() && tl[i] == tm;
        if i >= hk.len() {
            assert(f.contains(tm));
            ak.lemma_filter_contains_rev(p, tm);
        }
    }
    if hk.contains(tm) {
        let i = choose|i: int| 0 <= i < hk.len() && hk[i] == tm;
        assert(tl[i] == tm);
    } else if ak.contains(tm) {
        let i = choose|i: int| 0 <= i < ak.len() && ak[i] == tm;
        ak.lemma_filter_contains(p, i);
        let j = choose|j: int| 0 <= j < f.len() && f[j] == tm;
        assert(tl[hk.len() + j] == tm);
    }
}

proof fn lemma_group_keys_contains_same(a: Seq<RowView>, b: Seq<RowView>, c: int, k: Seq<char>)
    requires
        a.to_multiset() == b.to_multiset(),
    ensures
        group_keys(a, c).contains(k) == group_keys(b, c).contains(k),
{
    lemma_group_keys_same(a, b, c);
    vstd::seq_lib::to_multiset_contains(group_keys(a, c), k);
    vstd::seq_lib::to_multiset_contains(group_keys(b, c), k);
}

proof fn lemma_add_seasons_same(t: TableView, t2: TableView, seasons: Seq<Seq<char>>, key: (u32, Seq<char>))
    requires
        t2.labels == t.labels,
        t2.rows.to_multiset() == t.rows.to_multiset(),
    ensures
        agree_at(
            add_seasons(Map::empty(), t2.rows, sup_columns(t.labels), seasons),
            add_seasons(Map::empty(), t.rows, sup_columns(t.labels), seasons),
            key,
        ),
    decreases seasons.len(),
{
    let cols = sup_columns(t.labels);
    if seasons.len() > 0 {
        let r = seasons.drop_last();
        let s = seasons.last();
        lemma_add_seasons_same(t, t2, r, key);
        let m = add_seasons(Map::empty(), t.rows, cols, r);
        let m2 = add_seasons(Map::empty(), t2.rows, cols, r);
        let sr = group_rows(t.rows, cols.ssn, s);
        let sr2 = group_rows(t2.rows, cols.ssn, s);
        lemma_group_rows_same(t.rows, t2.rows, cols.ssn, s);
        let teams = team_list(sr, cols);
        let teams2 = team_list(sr2, cols);
        lemma_team_list(sr, cols, key.1);
        lemma_team_list(sr2, cols, key.1);
        lemma_group_keys_contains_same(sr, sr2, cols.home, key.1);
        lemma_group_keys_contains_same(sr, sr2, cols.away, key.1);
        lemma_add_teams_at(m, sr, cols, teams, key);
        lemma_add_teams_at(m2, sr2, cols, teams2, key);
        if teams.contains(key.1) {
            lemma_sorted_team_entries_same(sr, sr2, cols, key.1);
            let es = sorted_team_entries(sr, cols, key.1);
            lemma_add_windows_cong(m2, m, es, key.1, es.len() as int, key);
        }
    }
}

/// The goal superiorities do not depend on the order of the records: a
/// table with the same labels and the same records in another order gives
/// the same map.
pub proof fn law_goal_sups_order_free(t: TableView, t2: TableView)
    requires
        t2.labels == t.labels,
        t2.rows.to_multiset() == t.rows.to_multiset(),
    ensures
        goal_sups(t2) == goal_sups(t),
{
    let cols = sup_columns(t.labels);
    lemma_group_keys_same(t.rows, t2.rows, cols.ssn);
    lemma_sort_same_multiset::<Vec<char>>(group_keys(t2.rows, cols.ssn), group_keys(t.rows, cols.ssn));
    let seasons = sort_keys_spec::<Vec<char>>(group_keys(t.rows, cols.ssn));
    assert forall|key: (u32, Seq<char>)| #[trigger] goal_sups(t2).contains_key(key) == goal_sups(t).contains_key(key)
        && (goal_sups(t2).contains_key(key) ==> goal_sups(t2)[key] == goal_sups(t)[key]) by {
        lemma_add_seasons_same(t, t2, seasons, key);
    }
    assert(goal_sups(t2) =~= goal_sups(t));
}

/// The places of the goal-superiority columns.
pub struct SupCols {
    pub ssn: usize,
    pub home: usize,
    pub away: usize,
    pub date: usize,
    pub fthg: usize,
    pub ftag: usize,
}

impl View for SupCols {
    type V = SupColumns;

    open spec fn view(&self) -> SupColumns {
        SupColumns {
            ssn: self.ssn as int,
            home: self.home as int,
            away: self.away as int,
            date: self.date as int,
            fthg: self.fthg as int,
            ftag: self.ftag as int,
        }
    }
}

/// Every record has the goal-superiority columns, with numbers for date and
/// goals.
pub open spec fn rows_have_sup_columns(rows: Seq<RowView>, cols: SupColumns) -> bool {
    &&& rows_reach(rows, cols.ssn)
    &&& rows_reach(rows, cols.home)
    &&& rows_reach(rows, cols.away)
    &&& rows_reach(rows, cols.date)
    &&& rows_reach(rows, cols.fthg)
    &&& rows_reach(rows, cols.ftag)
    &&& forall|k: int|
        0 <= k < rows.len() ==> {
            &&& (#[trigger] rows[k]).data[cols.date] is Uint
            &&& rows[k].data[cols.fthg] is Uint
            &&& rows[k].data[cols.ftag] is Uint
        }
}

/// The entry of a record for a team (see `gd_entry`).
fn gd_entry_of(r: &FlexDataVector, c: &SupCols, sign: i64) -> (e: (u32, i64))
    requires
        sign == 1 || sign == -1,
        c.date < r@.data.len(),
        c.fthg < r@.data.len(),
        c.ftag < r@.data.len(),
    ensures
        e == gd_entry(r@, c@, sign as int),
{
    assert(r@.data[c.date as int] == r.data@[c.date as int]@);
    assert(r@.data[c.fthg as int] == r.data@[c.fthg as int]@);
    assert(r@.data[c.ftag as int] == r.data@[c.ftag as int]@);
    let d = match r.data[c.date].as_u32() {
        Some(v) => v,
        None => 0,
    };
    let h = match r.data[c.fthg].as_u32() {
        Some(v) => v,
        None => 0,
    };
    let a = match r.data[c.ftag].as_u32() {
        Some(v) => v,
        None => 0,
    };
    (d, sign * (h as i64 - a as i64))
}

/// The entries of the records of `sr` whose key (in `keys`) is `t`.
fn entries_with_key(sr: &FlexTable, c: &SupCols, keys: &Vec<Vec<char>>, col: Ghost<int>, t: &Vec<char>, sign: i64) -> (r: Vec<(u32, i64)>)
    requires
        sign == 1 || sign == -1,
        rows_have_sup_columns(sr@.rows, c@),
        keys@.len() == sr@.rows.len(),
        forall|i: int| 0 <= i < keys@.len() ==> (#[trigger] keys@[i])@ == key_at(sr@.rows[i], col@),
    ensures
        r@ == group_rows(sr@.rows, col@, t@).map_values(|row: RowView| gd_entry(row, c@, sign as int)),
{
    let ghost rows = sr@.rows;
    let ghost f = |row: RowView| gd_entry(row, c@, sign as int);
    let ghost p = |row: RowView| key_at(row, col@) == t@;
    let mut out: Vec<(u32, i64)> = Vec::new();
    let mut i: usize = 0;
    while i < sr.data.len()
        invariant
            i <= rows.len(),
            rows == sr@.rows,
            sign == 1 || sign == -1,
            rows_have_sup_columns(rows, c@),
            keys@.len() == rows.len(),
            forall|j: int| 0 <= j < keys@.len() ==> (#[trigger] keys@[j])@ == key_at(rows[j], col@),
            f == (|row: RowView| gd_entry(row, c@, sign as int)),
            p == (|row: RowView| key_at(row, col@) == t@),
            out@ == rows.take(i as int).filter(p).map_values(f),
        decreases rows.len() - i,
    {
        proof {
            rows.take(i as int).lemma_filter_push(rows[i as int], p);
            assert(rows.take(i + 1) =~= rows.take(i as int).push(rows[i as int]));
        }
        if same_text(&keys[i], t) {
            let row = &sr.data[i];
            assert(row@ == rows[i as int]);
            assert(c.date < rows[i as int].data.len());
            assert(c.fthg < rows[i as int].data.len());
            assert(c.ftag < rows[i as int].data.len());
            let e = gd_entry_of(row, c, sign);
            let ghost before = out@;
            out.push(e);
            assert(rows.take(i as int).filter(p).push(rows[i as int]).map_values(f) =~= before.push(e));
        }
        i = i + 1;
    }
    assert(rows.take(i as int) =~= rows);
    out
}

/// A team's entries in a season (see `team_entries`).
fn team_entries_of(sr: &FlexTable, c: &SupCols, home_keys: &Vec<Vec<char>>, away_keys: &Vec<Vec<char>>, t: &Vec<char>) -> (r: Vec<(u32, i64)>)
    requires
        rows_have_sup_columns(sr@.rows, c@),
        home_keys@.len() == sr@.rows.len(),
        forall|i: int| 0 <= i < home_keys@.len() ==> (#[trigger] home_keys@[i])@ == key_at(sr@.rows[i], c@.home),
        away_keys@.len() == sr@.rows.len(),
        forall|i: int| 0 <= i < away_keys@.len() ==> (#[trigger] away_keys@[i])@ == key_at(sr@.rows[i], c@.away),
    ensures
        r@ == team_entries(sr@.rows, c@, t@),
{
    let mut h = entries_with_key(sr, c, home_keys, Ghost(c@.home), t, 1);
    let sign: i64 = if h.len() > 0 { -1 } else { 1 };
    let a = entries_with_key(sr, c, away_keys, Ghost(c@.away), t, sign);
    let ghost hv = h@;
    let mut j: usize = 0;
    while j < a.len()
        invariant
            j <= a@.len(),
            h@ == hv + a@.take(j as int),
        decreases a@.len() - j,
    {
        h.push(a[j]);
        j = j + 1;
        assert(h@ =~= hv + a@.take(j as int));
    }
    assert(a@.take(j as int) =~= a@);
    h
}

/// Sets the goal superiorities of a team's sorted entries (see
/// `add_windows`).
fn set_windows(gs: &mut OrdMap<(u32, Vec<char>), i64>, es: &Vec<(u32, i64)>, t: &Vec<char>)
    requires
        old(gs).wf(),
    ensures
        final(gs).wf(),
        final(gs).map() == add_windows(old(gs).map(), es@, t@, es@.len() as int),
{
    let ghost m0 = gs.map();
    let mut idx: usize = WINDOW;
    if es.len() <= WINDOW {
        return;
    }
    while idx < es.len()
        invariant
            WINDOW <= idx <= es@.len(),
            gs.wf(),
            gs.map() == add_windows(m0, es@, t@, idx as int),
        decreases es@.len() - idx,
    {
        let mut acc: i128 = 0;
        let mut j: usize = idx - WINDOW;
        while j < idx
            invariant
                WINDOW <= idx < es@.len(),
                idx - WINDOW <= j <= idx,
                acc as int == sum_gd(es@.subrange(idx - WINDOW, j as int)),
                -(j - (idx - WINDOW)) * 9223372036854775808 <= acc <= (j - (idx - WINDOW)) * 9223372036854775808,
            decreases idx - j,
        {
            assert(es@.subrange(idx - WINDOW, j + 1).drop_last() =~= es@.subrange(idx - WINDOW, j as int));
            acc = acc + es[j].1 as i128;
            j = j + 1;
        }
        let key = (es[idx].0, copy_text(t));
        gs.insert(key, acc as i64);
        idx = idx + 1;
    }
}


proof fn lemma_group_rows_keep_columns(rows: Seq<RowView>, cols: SupColumns, c: int, k: Seq<char>)
    requires
        rows_have_sup_columns(rows, cols),
    ensures
        rows_have_sup_columns(group_rows(rows, c, k), cols),
{
    let g = group_rows(rows, c, k);
    assert forall|i: int| 0 <= i < g.len() implies exists|j: int| 0 <= j < rows.len() && rows[j] == #[trigger] g[i] by {
        lemma_filter_from(rows, |r: RowView| key_at(r, c) == k, i);
    }
    assert forall|i: int| 0 <= i < g.len() implies {
        &&& cols.ssn < (#[trigger] g[i]).data.len()
        &&& cols.home < g[i].data.len()
        &&& cols.away < g[i].data.len()
        &&& cols.date < g[i].data.len()
        &&& cols.fthg < g[i].data.len()
        &&& cols.ftag < g[i].data.len()
        &&& g[i].data[cols.date] is Uint
        &&& g[i].data[cols.fthg] is Uint
        &&& g[i].data[cols.ftag] is Uint
    } by {
        let j = choose|j: int| 0 <= j < rows.len() && rows[j] == #[trigger] g[i];
        assert(rows[j] == g[i]);
    }
}

/// The teams of a season (see `team_list`).
fn teams_of(hk: &Vec<Vec<char>>, ak: &Vec<Vec<char>>) -> (r: Vec<Vec<char>>)
    ensures
        r@.map_values(|v: Vec<char>| v@) == hk@.map_values(|v: Vec<char>| v@) + ak@.map_values(
            |v: Vec<char>| v@,
        ).filter(|k: Seq<char>| !hk@.map_values(|v: Vec<char>| v@).contains(k)),
{
    let ghost hv = hk@.map_values(|v: Vec<char>| v@);
    let ghost av = ak@.map_values(|v: Vec<char>| v@);
    let ghost p = |k: Seq<char>| !hv.contains(k);
    let mut r: Vec<Vec<char>> = Vec::new();
    let mut i: usize = 0;
    while i < hk.len()
        invariant
            i <= hk@.len(),
            hv == hk@.map_values(|v: Vec<char>| v@),
            r@.map_values(|v: Vec<char>| v@) == hv.take(i as int),
        decreases hk@.len() - i,
    {
        let ghost before = r@.map_values(|v: Vec<char>| v@);
        r.push(copy_text(&hk[i]));
        assert(r@.map_values(|v: Vec<char>| v@) =~= before.push(hv[i as int]));
        assert(hv.take(i + 1) =~= hv.take(i as int).push(hv[i as int]));
        i = i + 1;
    }
    assert(hv.take(i as int) =~= hv);
    let mut j: usize = 0;
    while j < ak.len()
        invariant
            j <= ak@.len(),
            hv == hk@.map_values(|v: Vec<char>| v@),
            av == ak@.map_values(|v: Vec<char>| v@),
            p == (|k: Seq<char>| !hv.contains(k)),
            r@.map_values(|v: Vec<char>| v@) == hv + av.take(j as int).filter(p),
        decreases ak@.len() - j,
    {
        proof {
            av.take(j as int).lemma_filter_push(av[j as int], p);
            assert(av.take(j + 1) =~= av.take(j as int).push(av[j as int]));
        }
        let ghost before = r@.map_values(|v: Vec<char>| v@);
        match find_text(hk, &ak[j]) {
            Some(g) => {
                assert(hv[g as int] == av[j as int]);
            },
            None => {
                assert(!hv.contains(av[j as int]));
                r.push(copy_text(&ak[j]));
                assert(r@.map_values(|v: Vec<char>| v@) =~= before.push(av[j as int]));
            },
        }
        j = j + 1;
    }
    assert(av.take(j as int) =~= av);
    r
}

/// Sets the goal superiorities of the teams of one season (see `add_teams`).
fn add_season(gs: &mut OrdMap<(u32, Vec<char>), i64>, sr: &FlexTable, c: &SupCols)
    requires
        old(gs).wf(),
        rows_have_sup_columns(sr@.rows, c@),
    ensures
        final(gs).wf(),
        final(gs).map() == add_teams(old(gs).map(), sr@.rows, c@, team_list(sr@.rows, c@)),
{
    let ghost m0 = gs.map();
    let hk = sr.distinct_keys(c.home);
    let ak = sr.distinct_keys(c.away);
    let teams = teams_of(&hk, &ak);
    let ghost tl = team_list(sr@.rows, c@);
    assert(teams@.map_values(|v: Vec<char>| v@) == tl);
    let home_keys = sr.key_texts(c.home);
    let away_keys = sr.key_texts(c.away);
    let mut i: usize = 0;
    while i < teams.len()
        invariant
            i <= teams@.len(),
            tl == team_list(sr@.rows, c@),
            teams@.map_values(|v: Vec<char>| v@) == tl,
            rows_have_sup_columns(sr@.rows, c@),
            home_keys@.len() == sr@.rows.len(),
            forall|k: int| 0 <= k < home_keys@.len() ==> (#[trigger] home_keys@[k])@ == key_at(sr@.rows[k], c@.home),
            away_keys@.len() == sr@.rows.len(),
            forall|k: int| 0 <= k < away_keys@.len() ==> (#[trigger] away_keys@[k])@ == key_at(sr@.rows[k], c@.away),
            gs.wf(),
            gs.map() == add_teams(m0, sr@.rows, c@, tl.take(i as int)),
        decreases teams@.len() - i,
    {
        let t = &teams[i];
        assert(t@ == tl[i as int]);
        let es = team_entries_of(sr, c, &home_keys, &away_keys, t);
        assert(crate::ordmap::key_views(es@) =~= es@);
        let sorted = sort_keys(es);
        assert(crate::ordmap::key_views(sorted@) =~= sorted@);
        set_windows(gs, &sorted, t);
        assert(tl.take(i + 1).drop_last() =~= tl.take(i as int));
        i = i + 1;
    }
    assert(tl.take(i as int) =~= tl);
}

/// The goal-superiority columns of a table that has them.
pub fn sup_cols(t: &FlexTable) -> (r: SupCols)
    requires
        t@.labels.contains("Ssn"@),
        t@.labels.contains("HomeTeam"@),
        t@.labels.contains("AwayTeam"@),
        t@.labels.contains("Date_chron"@),
        t@.labels.contains("FTHG"@),
        t@.labels.contains("FTAG"@),
    ensures
        r@ == sup_columns(t@.labels),
{
    SupCols {
        ssn: t.column_of_label("Ssn"),
        home: t.column_of_label("HomeTeam"),
        away: t.column_of_label("AwayTeam"),
        date: t.column_of_label("Date_chron"),
        fthg: t.column_of_label("FTHG"),
        ftag: t.column_of_label("FTAG"),
    }
}

/// A table from which goal superiority can be computed: it has the
/// columns, with numbers for date and goals in every record.
pub open spec fn sup_table_ready(t: TableView) -> bool {
    &&& t.labels.contains("Ssn"@)
    &&& t.labels.contains("HomeTeam"@)
    &&& t.labels.contains("AwayTeam"@)
    &&& t.labels.contains("Date_chron"@)
    &&& t.labels.contains("FTHG"@)
    &&& t.labels.contains("FTAG"@)
    &&& rows_have_sup_columns(t.rows, sup_columns(t.labels))
}

/// The goal superiorities of a table (see `goal_sups`).
pub fn goal_sup_map(master: &FlexTable) -> (r: OrdMap<(u32, Vec<char>), i64>)
    requires
        sup_table_ready(master@),
    ensures
        r.wf(),
        r.map() == goal_sups(master@),
{
    let c = sup_cols(master);
    let ssn_keys = master.key_texts(c.ssn);
    let distinct = master.distinct_keys(c.ssn);
    assert(crate::ordmap::key_views(distinct@) =~= distinct@.map_values(|v: Vec<char>| v@));
    let seasons = sort_keys(distinct);
    let ghost ss = sort_keys_spec::<Vec<char>>(group_keys(master@.rows, c@.ssn));
    assert(crate::ordmap::key_views(seasons@) == ss);
    let mut gs: OrdMap<(u32, Vec<char>), i64> = OrdMap::new();
    let mut i: usize = 0;
    while i < seasons.len()
        invariant
            i <= seasons@.len(),
            crate::ordmap::key_views(seasons@) == ss,
            c@ == sup_columns(master@.labels),
            rows_have_sup_columns(master@.rows, c@),
            ssn_keys@.len() == master@.rows.len(),
            forall|k: int| 0 <= k < ssn_keys@.len() ==> (#[trigger] ssn_keys@[k])@ == key_at(master@.rows[k], c@.ssn),
            gs.wf(),
            gs.map() == add_seasons(Map::empty(), master@.rows, c@, ss.take(i as int)),
        decreases seasons@.len() - i,
    {
        let s = &seasons[i];
        assert(s@ == ss[i as int]);
        let sr = master.rows_with_key(c.ssn, s, &ssn_keys);
        proof {
            lemma_group_rows_keep_columns(master@.rows, c@, c@.ssn, s@);
        }
        add_season(&mut gs, &sr, &c);
        assert(ss.take(i + 1).drop_last() =~= ss.take(i as int));
        i = i + 1;
    }
    assert(ss.take(i as int) =~= ss);
    gs
}


/// An entry of the joined matches holds a match whose away key is the
/// entry's key, with the goal superiority of its home side and of its away
/// side on its day.
pub open spec fn sup_entry_sound(rows: Seq<RowView>, gs: Map<SupKey, i64>, e: (SupKey, (usize, i64, i64))) -> bool {
    let i = e.1.0 as int;
    &&& 0 <= i < rows.len()
    &&& e.0 == away_key(rows[i])
    &&& gs.contains_key(home_key(rows[i]))
    &&& e.1.1 == gs[home_key(rows[i])]
    &&& gs.contains_key(away_key(rows[i]))
    &&& e.1.2 == gs[away_key(rows[i])]
}

/// The joined matches are in strictly ascending order of (day, away team),
/// and each holds the goal superiorities of its two sides on its day.
pub open spec fn sup_rows_sound(rows: Seq<RowView>, gs: Map<SupKey, i64>, js: Seq<(SupKey, (usize, i64, i64))>) -> bool {
    &&& strictly_sorted::<(u32, Vec<char>), (usize, i64, i64)>(js)
    &&& forall|k: int| 0 <= k < js.len() ==> sup_entry_sound(rows, gs, #[trigger] js[k])
}

/// A key of the goal superiorities: a day number and a team.
pub type SupKey = (u32, Seq<char>);

/// The text of a string value (empty for other values).
pub open spec fn text_of(d: DataView) -> Seq<char> {
    match d {
        DataView::Str(s) => s,
        _ => Seq::empty(),
    }
}

/// A match record under its day number (last column) and home team
/// (column 2).
pub open spec fn home_key(r: RowView) -> SupKey {
    (u32_of(r.data.last()), text_of(r.data[2]))
}

/// A match record under its day number (last column) and away team
/// (column 3).
pub open spec fn away_key(r: RowView) -> SupKey {
    (u32_of(r.data.last()), text_of(r.data[3]))
}

/// Every record has a day number last and its teams as strings in columns 2
/// and 3.
pub open spec fn rows_have_match_keys(rows: Seq<RowView>) -> bool {
    forall|k: int|
        0 <= k < rows.len() ==> {
            &&& (#[trigger] rows[k]).data.len() >= 4
            &&& rows[k].data.last() is Uint
            &&& rows[k].data[2] is Str
            &&& rows[k].data[3] is Str
        }
}

/// The place of the last record under each home key.
pub open spec fn core_home(rows: Seq<RowView>) -> Map<SupKey, usize>
    decreases rows.len(),
{
    if rows.len() == 0 {
        Map::empty()
    } else {
        core_home(rows.drop_last()).insert(home_key(rows.last()), (rows.len() - 1) as usize)
    }
}

/// The home keys, in ascending order, that have a goal superiority, each
/// with its record's place and the home side's goal superiority.
pub open spec fn join_home(rows: Seq<RowView>, gs: Map<SupKey, i64>) -> Seq<(SupKey, (usize, i64))> {
    sorted_entries::<(u32, Vec<char>), usize>(core_home(rows)).filter(
        |e: (SupKey, usize)| gs.contains_key(e.0),
    ).map_values(|e: (SupKey, usize)| (e.0, (e.1, gs[e.0])))
}

/// The joined records under their away keys, taken in ascending order of
/// home key (the last one under a key stays).
pub open spec fn core_away(js: Seq<(SupKey, (usize, i64))>, rows: Seq<RowView>) -> Map<SupKey, (usize, i64)>
    decreases js.len(),
{
    if js.len() == 0 {
        Map::empty()
    } else {
        core_away(js.drop_last(), rows).insert(away_key(rows[js.last().1.0 as int]), js.last().1)
    }
}

/// The away keys, in ascending order, that have a goal superiority, each
/// with its record's place and the goal superiorities of both sides.
pub open spec fn join_away(rows: Seq<RowView>, gs: Map<SupKey, i64>) -> Seq<(SupKey, (usize, i64, i64))> {
    sorted_entries::<(u32, Vec<char>), (usize, i64)>(core_away(join_home(rows, gs), rows)).filter(
        |e: (SupKey, (usize, i64))| gs.contains_key(e.0),
    ).map_values(|e: (SupKey, (usize, i64))| (e.0, (e.1.0, e.1.1, gs[e.0])))
}

/// Record `k` of the goal-superiority table: the match's values, then the
/// home side's, the away side's and the match's goal superiority.
pub open spec fn sup_row(rows: Seq<RowView>, e: (SupKey, (usize, i64, i64)), k: int) -> RowView {
    RowView {
        index: k as usize,
        data: rows[e.1.0 as int].data + seq![
            DataView::Int(e.1.1),
            DataView::Int(e.1.2),
            DataView::Int((e.1.1 - e.1.2) as i64),
        ],
    }
}

/// The labels that goal superiority adds.
pub open spec fn sup_labels() -> Seq<Seq<char>> {
    seq!["Home_Sup"@, "Away_Sup"@, "Game_Sup"@]
}

/// The goal-superiority table: the matches whose home side and away side
/// both have a goal superiority on the day, in ascending order of (day, away
/// team), with the three added columns.
pub open spec fn goal_superiority_table(t: TableView) -> TableView {
    let js = join_away(t.rows, goal_sups(t));
    TableView {
        labels: t.labels + sup_labels(),
        datatypes: t.datatypes + seq![FlexDataType::Int, FlexDataType::Int, FlexDataType::Int],
        rows: Seq::new(js.len(), |k: int| sup_row(t.rows, js[k], k)),
    }
}

/// The home or away key of a record.
fn match_key(r: &FlexDataVector, team_col: usize) -> (k: (u32, Vec<char>))
    requires
        r@.data.len() >= 4,
        r@.data.last() is Uint,
        team_col == 2 || team_col == 3,
        r@.data[team_col as int] is Str,
    ensures
        k@ == (u32_of(r@.data.last()), text_of(r@.data[team_col as int])),
{
    let n = r.data.len();
    assert(r@.data.last() == r.data@[n - 1]@);
    assert(r@.data[team_col as int] == r.data@[team_col as int]@);
    let day = match r.data[n - 1].as_u32() {
        Some(v) => v,
        None => 0,
    };
    let team = match r.data[team_col].as_string() {
        Some(s) => string_chars(&s),
        None => Vec::new(),
    };
    (day, team)
}

/// Adds to a table the goal superiority of each side and of the match: a
/// side's goal superiority on a day is the sum of its goal differences over
/// its `WINDOW` previous matches of the season (see `goal_sups`); the table
/// holds the matches for which both sides have one (see
/// `goal_superiority_table`).
pub fn goal_superiority(master_table: &FlexTable) -> (r: FlexTable)
    requires
        sup_table_ready(master_table@),
        rows_have_match_keys(master_table@.rows),
    ensures
        r@ == goal_superiority_table(master_table@),
        sup_rows_sound(master_table@.rows, goal_sups(master_table@), join_away(master_table@.rows, goal_sups(master_table@))),
{
    let gs = goal_sup_map(master_table);
    let ghost gm = gs.map();
    let ghost rows = master_table@.rows;
    let n = master_table.data.len();
    let mut c1: OrdMap<(u32, Vec<char>), usize> = OrdMap::new();
    let mut k: usize = 0;
    while k < n
        invariant
            k <= n,
            n == rows.len(),
            rows == master_table@.rows,
            rows_have_match_keys(rows),
            c1.wf(),
            c1.map() == core_home(rows.take(k as int)),
            forall|key: SupKey| #[trigger] c1.map().contains_key(key) ==> c1.map()[key] < n
                && home_key(rows[c1.map()[key] as int]) == key,
        decreases n - k,
    {
        let r = &master_table.data[k];
        assert(r@ == rows[k as int]);
        let key = match_key(r, 2);
        assert(rows.take(k + 1).drop_last() =~= rows.take(k as int));
        c1.insert(key, k);
        k = k + 1;
    }
    assert(rows.take(k as int) =~= rows);
    proof {
        lemma_sorted_entries_of::<(u32, Vec<char>), usize>(c1.entry_views());
    }
    let ghost e1 = c1.entry_views();
    let ghost p1 = |e: (SupKey, usize)| gm.contains_key(e.0);
    let ghost f1 = |e: (SupKey, usize)| (e.0, (e.1, gm[e.0]));
    let mut j1: Vec<((u32, Vec<char>), (usize, i64))> = Vec::new();
    let mut i: usize = 0;
    while i < c1.entries.len()
        invariant
            i <= e1.len(),
            e1 == c1.entry_views(),
            e1.len() == c1.entries@.len(),
            c1.wf(),
            gs.wf(),
            gm == gs.map(),
            p1 == (|e: (SupKey, usize)| gm.contains_key(e.0)),
            f1 == (|e: (SupKey, usize)| (e.0, (e.1, gm[e.0]))),
            forall|key: SupKey| #[trigger] c1.map().contains_key(key) ==> c1.map()[key] < n
                && home_key(rows[c1.map()[key] as int]) == key,
            rows == master_table@.rows,
            n == rows.len(),
            j1@.map_values(|e: ((u32, Vec<char>), (usize, i64))| (e.0@, e.1)) == e1.take(i as int).filter(p1).map_values(f1),
            forall|t: int| 0 <= t < j1@.len() ==> (#[trigger] j1@[t]).1.0 < n
                && gm.contains_key(home_key(rows[j1@[t].1.0 as int]))
                && j1@[t].1.1 == gm[home_key(rows[j1@[t].1.0 as int])],
        decreases e1.len() - i,
    {
        proof {
            e1.take(i as int).lemma_filter_push(e1[i as int], p1);
            assert(e1.take(i + 1) =~= e1.take(i as int).push(e1[i as int]));
            lemma_entries_map_at::<(u32, Vec<char>), usize>(e1, i as int);
        }
        let entry = &c1.entries[i];
        assert(e1[i as int] == (entry.0@, entry.1));
        assert(c1.map().contains_key(e1[i as int].0));
        assert(entry.1 < n);
        assert(home_key(rows[entry.1 as int]) == entry.0@);
        match gs.get(&entry.0) {
            Some(h) => {
                let ghost before = j1@.map_values(|e: ((u32, Vec<char>), (usize, i64))| (e.0@, e.1));
                j1.push((entry.0.copy_key(), (entry.1, *h)));
                assert(j1@.map_values(|e: ((u32, Vec<char>), (usize, i64))| (e.0@, e.1)) =~= before.push(f1(e1[i as int])));
            },
            None => {},
        }
        i = i + 1;
    }
    assert(e1.take(i as int) =~= e1);
    let ghost js1 = j1@.map_values(|e: ((u32, Vec<char>), (usize, i64))| (e.0@, e.1));
    assert(js1 == join_home(rows, gm));
    let mut c2: OrdMap<(u32, Vec<char>), (usize, i64)> = OrdMap::new();
    let mut i: usize = 0;
    while i < j1.len()
        invariant
            i <= j1@.len(),
            js1 == j1@.map_values(|e: ((u32, Vec<char>), (usize, i64))| (e.0@, e.1)),
            forall|t: int| 0 <= t < j1@.len() ==> (#[trigger] j1@[t]).1.0 < n
                && gm.contains_key(home_key(rows[j1@[t].1.0 as int]))
                && j1@[t].1.1 == gm[home_key(rows[j1@[t].1.0 as int])],
            n == rows.len(),
            rows == master_table@.rows,
            rows_have_match_keys(rows),
            c2.wf(),
            c2.map() == core_away(js1.take(i as int), rows),
            forall|key: SupKey| #[trigger] c2.map().contains_key(key) ==> c2.map()[key].0 < n
                && away_key(rows[c2.map()[key].0 as int]) == key
                && gm.contains_key(home_key(rows[c2.map()[key].0 as int]))
                && c2.map()[key].1 == gm[home_key(rows[c2.map()[key].0 as int])],
        decreases j1@.len() - i,
    {
        let v = j1[i].1;
        let r = &master_table.data[v.0];
        assert(r@ == rows[v.0 as int]);
        let key = match_key(r, 3);
        assert(js1.take(i + 1).drop_last() =~= js1.take(i as int));
        assert(js1.take(i + 1).last() == js1[i as int]);
        c2.insert(key, v);
        i = i + 1;
    }
    assert(js1.take(i as int) =~= js1);
    proof {
        lemma_sorted_entries_of::<(u32, Vec<char>), (usize, i64)>(c2.entry_views());
    }
    let ghost e2 = c2.entry_views();
    let ghost p2 = |e: (SupKey, (usize, i64))| gm.contains_key(e.0);
    let ghost f2 = |e: (SupKey, (usize, i64))| (e.0, (e.1.0, e.1.1, gm[e.0]));
    let ghost js = join_away(rows, gm);
    let mut out: Vec<FlexDataVector> = Vec::new();
    let mut i: usize = 0;
    let ghost chosen: Seq<(SupKey, (usize, i64, i64))> = Seq::empty();
    while i < c2.entries.len()
        invariant
            i <= e2.len(),
            e2 == c2.entry_views(),
            e2.len() == c2.entries@.len(),
            c2.wf(),
            gs.wf(),
            gm == gs.map(),
            n == rows.len(),
            rows == master_table@.rows,
            p2 == (|e: (SupKey, (usize, i64))| gm.contains_key(e.0)),
            f2 == (|e: (SupKey, (usize, i64))| (e.0, (e.1.0, e.1.1, gm[e.0]))),
            forall|key: SupKey| #[trigger] c2.map().contains_key(key) ==> c2.map()[key].0 < n
                && away_key(rows[c2.map()[key].0 as int]) == key
                && gm.contains_key(home_key(rows[c2.map()[key].0 as int]))
                && c2.map()[key].1 == gm[home_key(rows[c2.map()[key].0 as int])],
            chosen == e2.take(i as int).filter(p2).map_values(f2),
            sup_rows_sound(rows, gm, chosen),
            forall|a: int, m: int|
                0 <= a < chosen.len() && i <= m < e2.len() ==> <(u32, Vec<char>) as OrderedKey>::precedes(
                    #[trigger] chosen[a].0,
                    #[trigger] e2[m].0,
                ),
            out@.len() == chosen.len(),
            forall|t: int| 0 <= t < out@.len() ==> (#[trigger] out@[t])@ == sup_row(rows, chosen[t], t),
        decreases e2.len() - i,
    {
        proof {
            e2.take(i as int).lemma_filter_push(e2[i as int], p2);
            assert(e2.take(i + 1) =~= e2.take(i as int).push(e2[i as int]));
            lemma_entries_map_at::<(u32, Vec<char>), (usize, i64)>(e2, i as int);
        }
        let entry = &c2.entries[i];
        assert(e2[i as int] == (entry.0@, entry.1));
        assert(c2.map().contains_key(e2[i as int].0));
        assert(entry.1.0 < n);
        match gs.get(&entry.0) {
            Some(a) => {
                let (row_at, h) = entry.1;
                let r = &master_table.data[row_at];
                assert(r@ == rows[row_at as int]);
                let mut data = crate::data::duplicate_data(&r.data);
                let ghost d0 = crate::data::data_views(data@);
                data.push(FlexData::Int(h));
                data.push(FlexData::Int(*a));
                data.push(FlexData::Int(((h as i128) - (*a as i128)) as i64));
                let idx = out.len();
                let rec = FlexDataVector::new(FlexIndex::Uint(idx), data);
                let ghost e = f2(e2[i as int]);
                assert(rec@ == sup_row(rows, e, idx as int)) by {
                    assert(rec@.data =~= d0 + seq![
                        DataView::Int(h),
                        DataView::Int(*a),
                        DataView::Int((h - *a) as i64),
                    ]);
                }
                out.push(rec);
                proof {
                    let old_chosen = chosen;
                    chosen = chosen.push(e);
                    assert(e.0 == e2[i as int].0);
                    assert forall|a: int, b: int| 0 <= a < b < chosen.len() implies <(u32, Vec<char>) as OrderedKey>::precedes(
                        #[trigger] chosen[a].0,
                        #[trigger] chosen[b].0,
                    ) by {
                        if b == chosen.len() - 1 {
                            assert(chosen[a] == old_chosen[a]);
                        } else {
                            assert(chosen[a] == old_chosen[a] && chosen[b] == old_chosen[b]);
                        }
                    }
                    assert forall|a: int, m: int|
                        0 <= a < chosen.len() && i + 1 <= m < e2.len() implies <(u32, Vec<char>) as OrderedKey>::precedes(
                        #[trigger] chosen[a].0,
                        #[trigger] e2[m].0,
                    ) by {
                        if a == chosen.len() - 1 {
                            assert(<(u32, Vec<char>) as OrderedKey>::precedes(e2[i as int].0, e2[m].0));
                        } else {
                            assert(chosen[a] == old_chosen[a]);
                        }
                    }
                    assert(sup_rows_sound(rows, gm, chosen)) by {
                        assert forall|t: int| 0 <= t < chosen.len() implies sup_entry_sound(rows, gm, #[trigger] chosen[t]) by {
                            if t < old_chosen.len() {
                                assert(chosen[t] == old_chosen[t]);
                            }
                        }
                    }
                }
            },
            None => {},
        }
        i = i + 1;
    }
    assert(e2.take(i as int) =~= e2);
    assert(chosen == js);
    let mut labels = duplicate_texts(master_table.get_labels());
    let ghost l0 = text_views(labels@);
    labels.push("Home_Sup".to_owned());
    labels.push("Away_Sup".to_owned());
    labels.push("Game_Sup".to_owned());
    assert(text_views(labels@) =~= l0 + sup_labels());
    let mut dtypes = duplicate_types(master_table.get_datatypes());
    dtypes.push(FlexDataType::Int);
    dtypes.push(FlexDataType::Int);
    dtypes.push(FlexDataType::Int);
    assert(dtypes@ =~= master_table@.datatypes + seq![FlexDataType::Int, FlexDataType::Int, FlexDataType::Int]);
    let ghost want = goal_superiority_table(master_table@);
    assert(row_views(out@) =~= want.rows) by {
        assert forall|t: int| 0 <= t < out@.len() implies #[trigger] row_views(out@)[t] == want.rows[t] by {
            assert(row_views(out@)[t] == out@[t]@);
        }
    }
    FlexTable::from_vecs(labels, dtypes, out)
}


/// A label with a count.
pub type Tally = (Seq<char>, usize);

/// The results of a group of matches, each with its number of matches, in
/// order of first appearance.
pub open spec fn ftr_summary(rows: Seq<RowView>, c: int) -> Seq<Tally> {
    group_keys(rows, c).map_values(|k: Seq<char>| (k, group_rows(rows, c, k).len() as usize))
}

/// The three results.
pub open spec fn results_hda() -> Seq<Seq<char>> {
    seq![seq!['H'], seq!['D'], seq!['A']]
}

/// A summary of fewer than three results, completed with a zero count for
/// each of `H`, `D`, `A` that it lacks.
pub open spec fn filled(s: Seq<Tally>) -> Seq<Tally> {
    if s.len() < 3 {
        let ks = s.map_values(|t: Tally| t.0);
        s + results_hda().filter(|r: Seq<char>| !ks.contains(r)).map_values(|r: Seq<char>| (r, 0usize))
    } else {
        s
    }
}

/// The sum of the counts of a summary.
pub open spec fn tally_total(s: Seq<Tally>) -> int
    decreases s.len(),
{
    if s.len() == 0 {
        0
    } else {
        tally_total(s.drop_last()) + s.last().1
    }
}

proof fn lemma_tally_total_append(a: Seq<Tally>, b: Seq<Tally>)
    ensures
        tally_total(a + b) == tally_total(a) + tally_total(b),
    decreases b.len(),
{
    if b.len() > 0 {
        lemma_tally_total_append(a, b.drop_last());
        assert((a + b).drop_last() =~= a + b.drop_last());
    }
}

proof fn lemma_tally_total_counts(s: Seq<Tally>)
    ensures
        tally_total(s) == count_sum(s.map_values(|t: Tally| t.1)),
    decreases s.len(),
{
    if s.len() > 0 {
        lemma_tally_total_counts(s.drop_last());
        assert(s.map_values(|t: Tally| t.1).drop_last() =~= s.drop_last().map_values(|t: Tally| t.1));
    }
}

proof fn lemma_tally_total_zero(s: Seq<Tally>)
    requires
        forall|i: int| 0 <= i < s.len() ==> (#[trigger] s[i]).1 == 0,
    ensures
        tally_total(s) == 0,
    decreases s.len(),
{
    if s.len() > 0 {
        lemma_tally_total_zero(s.drop_last());
    }
}

/// The counts of a result summary add up to the number of matches
/// summarised: every match is counted once, under its result, and the
/// results added to complete the summary count none.
pub proof fn law_summary_counts_cover(rows: Seq<RowView>, cf: int)
    requires
        rows.len() <= usize::MAX,
    ensures
        tally_total(filled(ftr_summary(rows, cf))) == rows.len(),
{
    let s = ftr_summary(rows, cf);
    let ks = group_keys(rows, cf);
    lemma_tally_total_counts(s);
    assert(s.map_values(|t: Tally| t.1) =~= group_sizes(rows, cf, ks));
    lemma_group_sizes_total(rows, cf, ks);
    lemma_groups_cover(rows, cf);
    if s.len() < 3 {
        let names = s.map_values(|t: Tally| t.0);
        let extra = results_hda().filter(|r: Seq<char>| !names.contains(r)).map_values(
            |r: Seq<char>| (r, 0usize),
        );
        lemma_tally_total_append(s, extra);
        lemma_tally_total_zero(extra);
    }
}

/// The summaries of the groups of `Game_Sup`, under the value of their text
/// (a later group under the same value replaces an earlier one).
pub open spec fn gs_groups(rows: Seq<RowView>, cg: int, cf: int, ks: Seq<Seq<char>>) -> Map<i64, Seq<Tally>>
    decreases ks.len(),
{
    if ks.len() == 0 {
        Map::empty()
    } else {
        gs_groups(rows, cg, cf, ks.drop_last()).insert(
            spec_parse_i64(ks.last()).unwrap() as i64,
            filled(ftr_summary(group_rows(rows, cg, ks.last()), cf)),
        )
    }
}

/// A summary as it is reported: in descending order of (result, count),
/// with its total.
pub open spec fn reported(s: Seq<Tally>) -> (Seq<Tally>, usize) {
    (sort_keys_spec::<(Vec<char>, usize)>(s).reverse(), tally_total(s) as usize)
}

/// A table from which the result summary can be made: it has `Game_Sup`
/// and `FTR` columns reached by every record, and every `Game_Sup` text is
/// an integer.
pub open spec fn gs_summ_ready(t: TableView) -> bool {
    &&& t.labels.contains("Game_Sup"@)
    &&& t.labels.contains("FTR"@)
    &&& rows_reach(t.rows, column_of(t.labels, "Game_Sup"@))
    &&& rows_reach(t.rows, column_of(t.labels, "FTR"@))
    &&& forall|k: int|
        0 <= k < t.rows.len() ==> spec_parse_i64(
            key_at(#[trigger] t.rows[k], column_of(t.labels, "Game_Sup"@)),
        ) is Some
}

/// The result summary of a table: for each goal superiority of a match, in
/// ascending order, how many matches ended in each result (see `reported`).
pub open spec fn gs_summ_spec(t: TableView) -> Seq<(i64, (Seq<Tally>, usize))> {
    let cg = column_of(t.labels, "Game_Sup"@);
    let cf = column_of(t.labels, "FTR"@);
    sorted_entries::<i64, Seq<Tally>>(gs_groups(t.rows, cg, cf, group_keys(t.rows, cg))).map_values(
        |e: (i64, Seq<Tally>)| (e.0, reported(e.1)),
    )
}

/// The views of a summary.
pub open spec fn tally_views(v: Seq<(Vec<char>, usize)>) -> Seq<Tally> {
    v.map_values(|t: (Vec<char>, usize)| (t.0@, t.1))
}

/// The summary of a group of matches (see `filled` and `ftr_summary`).
fn summarise(g: &FlexTable, cf: usize) -> (r: Vec<(Vec<char>, usize)>)
    requires
        rows_reach(g@.rows, cf as int),
    ensures
        tally_views(r@) == filled(ftr_summary(g@.rows, cf as int)),
{
    let keys = g.key_texts(cf);
    let ks = g.distinct_keys(cf);
    let ghost kv = ks@.map_values(|v: Vec<char>| v@);
    let ghost s = ftr_summary(g@.rows, cf as int);
    let mut out: Vec<(Vec<char>, usize)> = Vec::new();
    let mut i: usize = 0;
    while i < ks.len()
        invariant
            i <= ks@.len(),
            kv == ks@.map_values(|v: Vec<char>| v@),
            kv == group_keys(g@.rows, cf as int),
            s == ftr_summary(g@.rows, cf as int),
            keys@.len() == g@.rows.len(),
            forall|j: int| 0 <= j < keys@.len() ==> (#[trigger] keys@[j])@ == key_at(g@.rows[j], cf as int),
            tally_views(out@) == s.take(i as int),
        decreases ks@.len() - i,
    {
        let sub = g.rows_with_key(cf, &ks[i], &keys);
        let ghost before = tally_views(out@);
        let name = copy_text(&ks[i]);
        let count = sub.num_records();
        let ghost item = (name@, count);
        assert(kv[i as int] == ks@[i as int]@);
        assert(s[i as int] == item);
        out.push((name, count));
        assert(tally_views(out@) =~= before.push(item));
        assert(s.take(i + 1) =~= s.take(i as int).push(s[i as int]));
        i = i + 1;
    }
    assert(s.take(i as int) =~= s);
    if out.len() < 3 {
        let ghost base = tally_views(out@);
        let ghost bk = base.map_values(|t: Tally| t.0);
        let ghost p = |r: Seq<char>| !bk.contains(r);
        let ghost f = |r: Seq<char>| (r, 0usize);
        let mut names: Vec<Vec<char>> = Vec::new();
        let mut j: usize = 0;
        while j < out.len()
            invariant
                j <= out@.len(),
                out@.len() == base.len(),
                base == tally_views(out@),
                names@.map_values(|v: Vec<char>| v@) == bk.take(j as int),
                bk == base.map_values(|t: Tally| t.0),
            decreases out@.len() - j,
        {
            let ghost nb = names@.map_values(|v: Vec<char>| v@);
            let name = copy_text(&out[j].0);
            assert(name@ == bk[j as int]);
            names.push(name);
            assert(names@.map_values(|v: Vec<char>| v@) =~= nb.push(bk[j as int]));
            assert(bk.take(j + 1) =~= bk.take(j as int).push(bk[j as int]));
            j = j + 1;
        }
        assert(bk.take(j as int) =~= bk);
        let mut h: Vec<char> = Vec::new();
        h.push('H');
        let mut d: Vec<char> = Vec::new();
        d.push('D');
        let mut a: Vec<char> = Vec::new();
        a.push('A');
        assert(h@ =~= seq!['H']);
        assert(d@ =~= seq!['D']);
        assert(a@ =~= seq!['A']);
        let mut hda: Vec<Vec<char>> = Vec::new();
        hda.push(h);
        hda.push(d);
        hda.push(a);
        let ghost hv = hda@.map_values(|v: Vec<char>| v@);
        assert(hv =~= results_hda());
        let mut r: usize = 0;
        while r < 3
            invariant
                r <= 3,
                hda@.len() == 3,
                hv == hda@.map_values(|v: Vec<char>| v@),
                hv == results_hda(),
                names@.map_values(|v: Vec<char>| v@) == bk,
                p == (|r: Seq<char>| !bk.contains(r)),
                f == (|r: Seq<char>| (r, 0usize)),
                tally_views(out@) == base + hv.take(r as int).filter(p).map_values(f),
            decreases 3 - r,
        {
            proof {
                hv.take(r as int).lemma_filter_push(hv[r as int], p);
                assert(hv.take(r + 1) =~= hv.take(r as int).push(hv[r as int]));
            }
            let ghost before = tally_views(out@);
            match find_text(&names, &hda[r]) {
                Some(at) => {
                    assert(bk[at as int] == hv[r as int]);
                },
                None => {
                    assert(!bk.contains(hv[r as int]));
                    out.push((copy_text(&hda[r]), 0));
                    assert(tally_views(out@) =~= before + seq![f(hv[r as int])]);
                    assert(base + hv.take(r as int).filter(p).push(hv[r as int]).map_values(f) =~= before + seq![f(hv[r as int])]);
                },
            }
            r = r + 1;
        }
        assert(hv.take(3) =~= hv);
    }
    out
}

proof fn lemma_group_key_parses(rows: Seq<RowView>, c: int, k: Seq<char>)
    requires
        group_keys(rows, c).contains(k),
        forall|i: int| 0 <= i < rows.len() ==> spec_parse_i64(key_at(#[trigger] rows[i], c)) is Some,
    ensures
        spec_parse_i64(k) is Some,
{
    lemma_group_key_from(rows, c, k);
}

/// A summary as it is reported (see `reported`).
fn report(s: Vec<(Vec<char>, usize)>) -> (r: (Vec<(Vec<char>, usize)>, usize))
    ensures
        (tally_views(r.0@), r.1) == reported(tally_views(s@)),
{
    let ghost sv = tally_views(s@);
    let mut total: u128 = 0;
    let mut i: usize = 0;
    while i < s.len()
        invariant
            i <= s@.len(),
            sv == tally_views(s@),
            total as int == tally_total(sv.take(i as int)),
            total <= i * 18446744073709551616,
        decreases s@.len() - i,
    {
        assert(sv.take(i + 1).drop_last() =~= sv.take(i as int));
        total = total + s[i].1 as u128;
        i = i + 1;
    }
    assert(sv.take(i as int) =~= sv);
    assert(key_views(s@) =~= sv);
    let sorted = sort_keys(s);
    let ghost so = tally_views(sorted@);
    assert(key_views(sorted@) =~= so);
    let mut out: Vec<(Vec<char>, usize)> = Vec::new();
    let mut j: usize = sorted.len();
    while j > 0
        invariant
            j <= sorted@.len(),
            so == tally_views(sorted@),
            tally_views(out@) == so.skip(j as int).reverse(),
        decreases j,
    {
        j = j - 1;
        let ghost before = tally_views(out@);
        let name = copy_text(&sorted[j].0);
        let ghost item = (name@, sorted[j as int].1);
        assert(so[j as int] == item);
        out.push((name, sorted[j].1));
        assert(tally_views(out@) =~= before.push(item));
        assert(so.skip(j as int) =~= seq![so[j as int]] + so.skip(j + 1));
        assert(so.skip(j as int).reverse() =~= so.skip(j + 1).reverse().push(so[j as int]));
    }
    assert(so.skip(0) =~= so);
    (out, total as usize)
}

/// Summarises the results by goal superiority: for each value of
/// `Game_Sup`, in ascending order, each result with its number of matches
/// in descending order of (result, count), and the number of matches (see
/// `gs_summ_spec`). The shares of the results are these counts over the
/// total.
pub fn gs_summ(table: &FlexTable) -> (r: Vec<(i64, Vec<(Vec<char>, usize)>, usize)>)
    requires
        gs_summ_ready(table@),
    ensures
        r@.map_values(|e: (i64, Vec<(Vec<char>, usize)>, usize)| (e.0, (tally_views(e.1@), e.2)))
            == gs_summ_spec(table@),
{
    let cg = table.column_of_label("Game_Sup");
    let cf = table.column_of_label("FTR");
    let keys = table.key_texts(cg);
    let ks = table.distinct_keys(cg);
    let ghost kv = group_keys(table@.rows, cg as int);
    let mut res: OrdMap<i64, TallyList> = OrdMap::new();
    let mut i: usize = 0;
    while i < ks.len()
        invariant
            i <= ks@.len(),
            ks@.map_values(|v: Vec<char>| v@) == kv,
            kv == group_keys(table@.rows, cg as int),
            gs_summ_ready(table@),
            cg == column_of(table@.labels, "Game_Sup"@),
            cf == column_of(table@.labels, "FTR"@),
            keys@.len() == table@.rows.len(),
            forall|j: int| 0 <= j < keys@.len() ==> (#[trigger] keys@[j])@ == key_at(table@.rows[j], cg as int),
            res.wf(),
            res.map() == gs_groups(table@.rows, cg as int, cf as int, kv.take(i as int)),
        decreases ks@.len() - i,
    {
        let g = table.rows_with_key(cg, &ks[i], &keys);
        assert(ks@[i as int]@ == kv[i as int]);
        proof {
            lemma_group_key_parses(table@.rows, cg as int, kv[i as int]);
            lemma_rows_reach_group(table@.rows, cf as int, cg as int, kv[i as int]);
        }
        let v = match parse_i64(&ks[i]) {
            Some(v) => v,
            None => 0,
        };
        let summary = summarise(&g, cf);
        assert(kv.take(i + 1).drop_last() =~= kv.take(i as int));
        res.insert(v, TallyList { items: summary });
        i = i + 1;
    }
    assert(kv.take(i as int) =~= kv);
    proof {
        lemma_sorted_entries_of::<i64, Seq<Tally>>(res.entry_views());
    }
    let ghost es = res.entry_views();
    let mut out: Vec<(i64, Vec<(Vec<char>, usize)>, usize)> = Vec::new();
    let mut j: usize = 0;
    while j < res.entries.len()
        invariant
            j <= es.len(),
            es == res.entry_views(),
            es.len() == res.entries@.len(),
            out@.map_values(|e: (i64, Vec<(Vec<char>, usize)>, usize)| (e.0, (tally_views(e.1@), e.2)))
                == es.take(j as int).map_values(|e: (i64, Seq<Tally>)| (e.0, reported(e.1))),
        decreases es.len() - j,
    {
        let k = res.entries[j].0;
        let items = copy_tallies(&res.entries[j].1.items);
        assert(es[j as int] == (k, tally_views(res.entries@[j as int].1.items@)));
        let (sorted, total) = report(items);
        let ghost before = out@.map_values(|e: (i64, Vec<(Vec<char>, usize)>, usize)| (e.0, (tally_views(e.1@), e.2)));
        let ghost item = (k, (tally_views(sorted@), total));
        assert(item == (es[j as int].0, reported(es[j as int].1)));
        out.push((k, sorted, total));
        assert(out@.map_values(|e: (i64, Vec<(Vec<char>, usize)>, usize)| (e.0, (tally_views(e.1@), e.2)))
            =~= before.push(item));
        assert(es.take(j + 1) =~= es.take(j as int).push(es[j as int]));
        assert(es.take(j + 1).map_values(|e: (i64, Seq<Tally>)| (e.0, reported(e.1))) =~= es.take(j as int).map_values(|e: (i64, Seq<Tally>)| (e.0, reported(e.1))).push(item));
        j = j + 1;
    }
    assert(es.take(j as int) =~= es);
    out
}

proof fn lemma_tally_total_weight(s: Seq<Tally>, w: spec_fn(Tally) -> int)
    requires
        forall|t: Tally| #[trigger] w(t) == t.1,
    ensures
        tally_total(s) == weight_sum(s, w),
    decreases s.len(),
{
    if s.len() > 0 {
        lemma_tally_total_weight(s.drop_last(), w);
    }
}

proof fn lemma_gs_groups_sorted(rows: Seq<RowView>, cg: int, cf: int, ks: Seq<Seq<char>>)
    ensures
        has_sorted_entries::<i64, Seq<Tally>>(gs_groups(rows, cg, cf, ks)),
    decreases ks.len(),
{
    if ks.len() == 0 {
        lemma_sorted_entries_empty::<i64, Seq<Tally>>();
    } else {
        lemma_gs_groups_sorted(rows, cg, cf, ks.drop_last());
        lemma_sorted_entries_insert::<i64, Seq<Tally>>(
            gs_groups(rows, cg, cf, ks.drop_last()),
            spec_parse_i64(ks.last()).unwrap() as i64,
            filled(ftr_summary(group_rows(rows, cg, ks.last()), cf)),
        );
    }
}

proof fn lemma_gs_groups_from(rows: Seq<RowView>, cg: int, cf: int, ks: Seq<Seq<char>>, v: i64)
    requires
        gs_groups(rows, cg, cf, ks).contains_key(v),
    ensures
        exists|j: int|
            0 <= j < ks.len() && spec_parse_i64(#[trigger] ks[j]).unwrap() as i64 == v && gs_groups(
                rows,
                cg,
                cf,
                ks,
            )[v] == filled(ftr_summary(group_rows(rows, cg, ks[j]), cf)),
    decreases ks.len(),
{
    let n = ks.len() - 1;
    if spec_parse_i64(ks.last()).unwrap() as i64 == v {
        assert(ks[n] == ks.last());
    } else {
        let r = ks.drop_last();
        lemma_gs_groups_from(rows, cg, cf, r, v);
        let j = choose|j: int|
            0 <= j < r.len() && spec_parse_i64(#[trigger] r[j]).unwrap() as i64 == v && gs_groups(
                rows,
                cg,
                cf,
                r,
            )[v] == filled(ftr_summary(group_rows(rows, cg, r[j]), cf));
        assert(ks[j] == r[j]);
    }
}

/// For each goal superiority in the result summary, the counts add up to
/// the total reported with it, and that total is the number of matches
/// whose `Game_Sup` text reads as that value (of the texts that read as
/// it, the last one to appear): the shares of the results add up to one.
pub proof fn law_gs_summ_totals(t: TableView)
    requires
        gs_summ_ready(t),
        t.rows.len() <= usize::MAX,
    ensures
        forall|i: int|
            0 <= i < gs_summ_spec(t).len() ==> {
                let e = #[trigger] gs_summ_spec(t)[i];
                &&& tally_total(e.1.0) == e.1.1
                &&& exists|k: Seq<char>|
                    group_keys(t.rows, column_of(t.labels, "Game_Sup"@)).contains(k) && spec_parse_i64(k)
                        == Some(e.0 as int) && e.1.1 == group_rows(
                        t.rows,
                        column_of(t.labels, "Game_Sup"@),
                        k,
                    ).len()
            },
{
    let rows = t.rows;
    let cg = column_of(t.labels, "Game_Sup"@);
    let cf = column_of(t.labels, "FTR"@);
    let ks = group_keys(rows, cg);
    let g = gs_groups(rows, cg, cf, ks);
    lemma_gs_groups_sorted(rows, cg, cf, ks);
    let s = sorted_entries::<i64, Seq<Tally>>(g);
    let w = |x: Tally| x.1 as int;
    assert forall|i: int| 0 <= i < gs_summ_spec(t).len() implies {
        let e = #[trigger] gs_summ_spec(t)[i];
        &&& tally_total(e.1.0) == e.1.1
        &&& exists|k: Seq<char>|
            group_keys(t.rows, column_of(t.labels, "Game_Sup"@)).contains(k) && spec_parse_i64(k) == Some(
                e.0 as int,
            ) && e.1.1 == group_rows(t.rows, column_of(t.labels, "Game_Sup"@), k).len()
    } by {
        lemma_entries_map_at::<i64, Seq<Tally>>(s, i);
        let v = s[i].0;
        let sm = s[i].1;
        lemma_gs_groups_from(rows, cg, cf, ks, v);
        let j = choose|j: int|
            0 <= j < ks.len() && spec_parse_i64(#[trigger] ks[j]).unwrap() as i64 == v && g[v] == filled(
                ftr_summary(group_rows(rows, cg, ks[j]), cf),
            );
        let k = ks[j];
        assert(ks.contains(k));
        lemma_group_key_parses(rows, cg, k);
        let grp = group_rows(rows, cg, k);
        rows.lemma_filter_len(|r: RowView| key_at(r, cg) == k);
        law_summary_counts_cover(grp, cf);
        let sorted = sort_keys_spec::<(Vec<char>, usize)>(sm);
        lemma_tally_total_weight(sm, w);
        lemma_tally_total_weight(sorted, w);
        lemma_tally_total_weight(sorted.reverse(), w);
        lemma_weight_sum_sort::<(Vec<char>, usize)>(sm, w);
        lemma_weight_sum_reverse(sorted, w);
        assert(gs_summ_spec(t)[i] == (v, reported(sm)));
        assert(group_keys(t.rows, column_of(t.labels, "Game_Sup"@)).contains(k) && spec_parse_i64(k) == Some(
            v as int,
        ) && reported(sm).1 == group_rows(t.rows, column_of(t.labels, "Game_Sup"@), k).len());
    }
}

/// The number of entries of a one-hot list with value `v` and, for `j` of
/// 0, 1 and 2, with flag `j` (`H`, `D`, `A`) set; for any other `j`, the
/// number of entries with value `v`.
pub open spec fn one_hot_count(l: Seq<(i64, (u8, u8, u8))>, v: i64, j: int) -> nat
    decreases l.len(),
{
    if l.len() == 0 {
        0
    } else {
        let x = l.last();
        let hit = x.0 == v && (j == 0 ==> x.1.0 == 1) && (j == 1 ==> x.1.1 == 1) && (j == 2 ==> x.1.2 == 1);
        one_hot_count(l.drop_last(), v, j) + if hit {
            1nat
        } else {
            0nat
        }
    }
}

/// A table laid out as goal superiority leaves it: `Game_Sup` an `Int` in
/// the last column of every record, `FTR` column 6 with the result `H`, `D`
/// or `A`.
pub open spec fn one_hot_ready(t: TableView) -> bool {
    let cg = column_of(t.labels, "Game_Sup"@);
    &&& gs_summ_ready(t)
    &&& column_of(t.labels, "FTR"@) == 6
    &&& forall|k: int|
        0 <= k < t.rows.len() ==> {
            &&& (#[trigger] t.rows[k]).data.len() == cg + 1
            &&& t.rows[k].data[cg] is Int
            &&& t.rows[k].data[6] is Str
            &&& results_hda().contains(text_of(t.rows[k].data[6]))
        }
}

/// Records whose `Game_Sup` (column `cg`) is an `Int` in the last column and
/// whose result (column 6) is a string.
pub open spec fn rows_int_sup(rows: Seq<RowView>, cg: int) -> bool {
    forall|k: int|
        0 <= k < rows.len() ==> {
            &&& (#[trigger] rows[k]).data.len() == cg + 1
            &&& cg > 6
            &&& rows[k].data[cg] is Int
            &&& rows[k].data[6] is Str
        }
}

proof fn lemma_sup_key_value(rows: Seq<RowView>, cg: int, k: Seq<char>, r: RowView)
    requires
        rows_int_sup(rows, cg),
        group_keys(rows, cg).contains(k),
        r.data.len() > cg,
        r.data[cg] is Int,
    ensures
        spec_parse_i64(k) is Some,
        key_at(r, cg) == k <==> i64_of(r.data[cg]) as int == spec_parse_i64(k).unwrap(),
{
    lemma_group_key_from(rows, cg, k);
    let i = choose|i: int| 0 <= i < rows.len() && key_at(#[trigger] rows[i], cg) == k;
    let n0 = i64_of(rows[i].data[cg]);
    assert(rows[i].data[cg] is Int);
    law_int_text_parses(n0 as int);
    let n = i64_of(r.data[cg]);
    law_int_text_parses(n as int);
    assert(key_at(r, cg) == int_text(n as int));
    assert(k == int_text(n0 as int));
}

proof fn lemma_one_hot_counts(rows: Seq<RowView>, cg: int, k: Seq<char>, v: i64, j: int)
    requires
        rows_int_sup(rows, cg),
        0 <= j <= 3,
        forall|i: int| 0 <= i < rows.len() ==> (key_at(#[trigger] rows[i], cg) == k <==> i64_of(rows[i].data[cg]) == v),
    ensures
        one_hot_count(rows.map_values(|r: RowView| sup_and_result(r)), v, j) == if j < 3 {
            group_rows(group_rows(rows, cg, k), 6, results_hda()[j]).len()
        } else {
            group_rows(rows, cg, k).len()
        },
    decreases rows.len(),
{
    if rows.len() == 0 {
        reveal(Seq::filter);
        assert(group_rows(rows, cg, k) =~= Seq::<RowView>::empty());
        assert(group_rows(Seq::<RowView>::empty(), 6, results_hda()[j]) =~= Seq::<RowView>::empty()) by {
            reveal(Seq::filter);
        }
    } else {
        let r0 = rows.drop_last();
        let r = rows.last();
        assert(rows_int_sup(r0, cg)) by {
            assert forall|i: int| 0 <= i < r0.len() implies (#[trigger] r0[i]).data.len() == cg + 1 && cg > 6
                && r0[i].data[cg] is Int && r0[i].data[6] is Str by {
                assert(r0[i] == rows[i]);
            }
        }
        assert forall|i: int| 0 <= i < r0.len() implies (key_at(#[trigger] r0[i], cg) == k <==> i64_of(
            r0[i].data[cg],
        ) == v) by {
            assert(r0[i] == rows[i]);
        }
        lemma_one_hot_counts(r0, cg, k, v, j);
        assert(rows.map_values(|r: RowView| sup_and_result(r)).drop_last() =~= r0.map_values(
            |r: RowView| sup_and_result(r),
        ));
        assert(rows[rows.len() - 1] == r);
        assert(r.data.last() == r.data[cg]);
        lemma_group_rows_push(rows, cg, k);
        let g0 = group_rows(r0, cg, k);
        if key_at(r, cg) == k && j < 3 {
            let g = g0.push(r);
            assert(g.drop_last() =~= g0);
            lemma_group_rows_push(g, 6, results_hda()[j]);
            assert(key_at(r, 6) == text_of(r.data[6]));
            assert(one_hot(text_of(r.data[6])).0 == 1 <==> text_of(r.data[6]) == results_hda()[0]);
        }
    }
}

proof fn lemma_filled_contains(g: Seq<RowView>, c: int, j: int)
    requires
        0 <= j < 3,
        forall|i: int| 0 <= i < g.len() ==> results_hda().contains(key_at(#[trigger] g[i], c)),
        g.len() <= usize::MAX,
    ensures
        filled(ftr_summary(g, c)).contains((results_hda()[j], group_rows(g, c, results_hda()[j]).len() as usize)),
{
    let s = ftr_summary(g, c);
    let ks = group_keys(g, c);
    let rj = results_hda()[j];
    let item = (rj, group_rows(g, c, rj).len() as usize);
    if ks.contains(rj) {
        let i = choose|i: int| 0 <= i < ks.len() && ks[i] == rj;
        assert(s[i] == item);
        if s.len() < 3 {
            let names = s.map_values(|t: Tally| t.0);
            let extra = results_hda().filter(|r: Seq<char>| !names.contains(r)).map_values(
                |r: Seq<char>| (r, 0usize),
            );
            assert((s + extra)[i] == item);
        }
    } else {
        lemma_no_group_rows(g, c, rj);
        lemma_group_keys_distinct(g, c);
        assert forall|i: int| 0 <= i < ks.len() implies results_hda().contains(#[trigger] ks[i]) && ks[i] != rj by {
            lemma_group_key_from(g, c, ks[i]);
        }
        assert(ks.len() < 3) by {
            if ks.len() >= 3 {
                assert(results_hda().contains(ks[0]));
                assert(results_hda().contains(ks[1]));
                assert(results_hda().contains(ks[2]));
                assert(ks[0] != ks[1] && ks[0] != ks[2] && ks[1] != ks[2]);
            }
        }
        let names = s.map_values(|t: Tally| t.0);
        assert(names =~= ks);
        let p = |r: Seq<char>| !names.contains(r);
        results_hda().lemma_filter_contains(p, j);
        let f = results_hda().filter(p);
        let q = choose|q: int| 0 <= q < f.len() && f[q] == rj;
        let extra = f.map_values(|r: Seq<char>| (r, 0usize));
        assert(extra[q] == item);
        assert((s + extra)[s.len() + q] == item);
    }
}

proof fn lemma_gs_groups_has(rows: Seq<RowView>, cg: int, cf: int, ks: Seq<Seq<char>>, j: int)
    requires
        0 <= j < ks.len(),
    ensures
        gs_groups(rows, cg, cf, ks).contains_key(spec_parse_i64(ks[j]).unwrap() as i64),
    decreases ks.len(),
{
    if j < ks.len() - 1 {
        lemma_gs_groups_has(rows, cg, cf, ks.drop_last(), j);
        assert(ks.drop_last()[j] == ks[j]);
    }
}

/// On a table laid out as goal superiority leaves it (`Game_Sup` an `Int`
/// in the last column, `FTR` in column 6 with results `H`, `D` or `A`), the
/// result summary agrees with the one-hot list: every value of the list is
/// reported, and for each reported value the total is the number of list
/// entries with that value and the count of each of `H`, `D` and `A` is the
/// number of those entries with that flag set. Each share of the summary
/// is thus the average of the flag over the entries with the value.
pub proof fn law_gs_summ_one_hot(t: TableView)
    requires
        one_hot_ready(t),
        t.rows.len() <= usize::MAX,
    ensures
        forall|i: int|
            0 <= i < t.rows.len() ==> exists|p: int|
                0 <= p < gs_summ_spec(t).len() && (#[trigger] gs_summ_spec(t)[p]).0 == sup_and_result(
                    #[trigger] t.rows[i],
                ).0,
        forall|p: int|
            0 <= p < gs_summ_spec(t).len() ==> {
                let e = #[trigger] gs_summ_spec(t)[p];
                let l = t.rows.map_values(|r: RowView| sup_and_result(r));
                &&& e.1.1 == one_hot_count(l, e.0, 3)
                &&& forall|j: int|
                    0 <= j < 3 ==> e.1.0.contains((results_hda()[j], one_hot_count(l, e.0, j) as usize))
            },
{
    let rows = t.rows;
    let cg = column_of(t.labels, "Game_Sup"@);
    let cf = column_of(t.labels, "FTR"@);
    let ks = group_keys(rows, cg);
    let g = gs_groups(rows, cg, cf, ks);
    let l = rows.map_values(|r: RowView| sup_and_result(r));
    lemma_gs_groups_sorted(rows, cg, cf, ks);
    let s = sorted_entries::<i64, Seq<Tally>>(g);
    assert(rows_int_sup(rows, cg)) by {
        assert forall|k: int| 0 <= k < rows.len() implies (#[trigger] rows[k]).data.len() == cg + 1 && cg > 6
            && rows[k].data[cg] is Int && rows[k].data[6] is Str by {
            assert(rows[k].data.len() == cg + 1);
            if cg == 6 {
                assert(rows[k].data[cg] is Int);
            }
        }
    }
    assert forall|i: int| 0 <= i < rows.len() implies exists|p: int|
        0 <= p < gs_summ_spec(t).len() && (#[trigger] gs_summ_spec(t)[p]).0 == sup_and_result(
            #[trigger] rows[i],
        ).0 by {
        let k = key_at(rows[i], cg);
        lemma_key_in_group_keys(rows, cg, i);
        let j0 = choose|j0: int| 0 <= j0 < ks.len() && ks[j0] == k;
        lemma_gs_groups_has(rows, cg, cf, ks, j0);
        lemma_sup_key_value(rows, cg, k, rows[i]);
        let key = spec_parse_i64(k).unwrap() as i64;
        assert(entries_map(s).contains_key(key));
        let p = choose|p: int| 0 <= p < s.len() && #[trigger] s[p].0 == key;
        assert(gs_summ_spec(t)[p].0 == s[p].0);
        assert(rows[i].data.last() == rows[i].data[cg]);
    }
    assert forall|p: int| 0 <= p < gs_summ_spec(t).len() implies {
        let e = #[trigger] gs_summ_spec(t)[p];
        &&& e.1.1 == one_hot_count(l, e.0, 3)
        &&& forall|j: int|
            0 <= j < 3 ==> e.1.0.contains((results_hda()[j], one_hot_count(l, e.0, j) as usize))
    } by {
        lemma_entries_map_at::<i64, Seq<Tally>>(s, p);
        let v = s[p].0;
        let sm = s[p].1;
        lemma_gs_groups_from(rows, cg, cf, ks, v);
        let j0 = choose|j0: int|
            0 <= j0 < ks.len() && spec_parse_i64(#[trigger] ks[j0]).unwrap() as i64 == v && g[v] == filled(
                ftr_summary(group_rows(rows, cg, ks[j0]), cf),
            );
        let k = ks[j0];
        assert(ks.contains(k));
        let grp = group_rows(rows, cg, k);
        assert forall|i: int| 0 <= i < rows.len() implies (key_at(#[trigger] rows[i], cg) == k <==> i64_of(
            rows[i].data[cg],
        ) == v) by {
            lemma_sup_key_value(rows, cg, k, rows[i]);
        }
        lemma_one_hot_counts(rows, cg, k, v, 0);
        lemma_one_hot_counts(rows, cg, k, v, 1);
        lemma_one_hot_counts(rows, cg, k, v, 2);
        lemma_one_hot_counts(rows, cg, k, v, 3);
        rows.lemma_filter_len(|r: RowView| key_at(r, cg) == k);
        law_summary_counts_cover(grp, cf);
        assert(gs_summ_spec(t)[p] == (v, reported(sm)));
        assert forall|i: int| 0 <= i < grp.len() implies results_hda().contains(key_at(#[trigger] grp[i], cf)) by {
            lemma_filter_from(rows, |r: RowView| key_at(r, cg) == k, i);
            let q = choose|q: int| 0 <= q < rows.len() && rows[q] == grp[i];
            assert(key_at(rows[q], cf) == text_of(rows[q].data[6]));
        }
        let sorted = sort_keys_spec::<(Vec<char>, usize)>(sm);
        assert forall|j: int| 0 <= j < 3 implies reported(sm).0.contains(
            (results_hda()[j], one_hot_count(l, v, j) as usize),
        ) by {
            let item = (results_hda()[j], group_rows(grp, cf, results_hda()[j]).len() as usize);
            lemma_filled_contains(grp, cf, j);
            lemma_sort_contains::<(Vec<char>, usize)>(sm, item);
            let q = choose|q: int| 0 <= q < sorted.len() && sorted[q] == item;
            assert(sorted.reverse()[sorted.len() - 1 - q] == item);
        }
    }
}

/// A count of a one-hot list is at most its length.
pub proof fn lemma_one_hot_count_bound(l: Seq<(i64, (u8, u8, u8))>, v: i64, j: int)
    ensures
        one_hot_count(l, v, j) <= l.len(),
    decreases l.len(),
{
    if l.len() > 0 {
        lemma_one_hot_count_bound(l.drop_last(), v, j);
    }
}

/// A summary held as a map value.
pub struct TallyList {
    pub items: Vec<(Vec<char>, usize)>,
}

impl View for TallyList {
    type V = Seq<Tally>;

    open spec fn view(&self) -> Seq<Tally> {
        tally_views(self.items@)
    }
}

fn copy_tallies(v: &Vec<(Vec<char>, usize)>) -> (r: Vec<(Vec<char>, usize)>)
    ensures
        tally_views(r@) == tally_views(v@),
{
    let mut r: Vec<(Vec<char>, usize)> = Vec::new();
    let mut i: usize = 0;
    while i < v.len()
        invariant
            i <= v@.len(),
            tally_views(r@) == tally_views(v@).take(i as int),
        decreases v@.len() - i,
    {
        let ghost before = tally_views(r@);
        let name = copy_text(&v[i].0);
        let ghost item = (name@, v@[i as int].1);
        assert(tally_views(v@)[i as int] == item);
        r.push((name, v[i].1));
        assert(tally_views(r@) =~= before.push(item));
        assert(tally_views(v@).take(i + 1) =~= tally_views(v@).take(i as int).push(item));
        i = i + 1;
    }
    assert(tally_views(v@).take(i as int) =~= tally_views(v@));
    r
}


/// The value of an `Int` (0 for other values).
pub open spec fn i64_of(d: DataView) -> i64 {
    match d {
        DataView::Int(n) => n,
        _ => 0,
    }
}

/// The one-hot form of a result over (`H`, `D`, `A`).
pub open spec fn one_hot(r: Seq<char>) -> (u8, u8, u8) {
    (
        if r == seq!['H'] { 1u8 } else { 0u8 },
        if r == seq!['D'] { 1u8 } else { 0u8 },
        if r == seq!['A'] { 1u8 } else { 0u8 },
    )
}

/// Every record has its goal superiority as an `Int` last and its result
/// as a string in column 6.
pub open spec fn rows_have_sup_and_result(rows: Seq<RowView>) -> bool {
    forall|k: int|
        0 <= k < rows.len() ==> {
            &&& (#[trigger] rows[k]).data.len() > 6
            &&& rows[k].data.last() is Int
            &&& rows[k].data[6] is Str
        }
}

/// The goal superiority of a match with its result in one-hot form.
pub open spec fn sup_and_result(r: RowView) -> (i64, (u8, u8, u8)) {
    (i64_of(r.data.last()), one_hot(text_of(r.data[6])))
}

fn one_hot_of(r: &Vec<char>) -> (o: (u8, u8, u8))
    ensures
        o == one_hot(r@),
{
    let single = r.len() == 1;
    let h: u8 = if single && r[0] == 'H' { 1 } else { 0 };
    let d: u8 = if single && r[0] == 'D' { 1 } else { 0 };
    let a: u8 = if single && r[0] == 'A' { 1 } else { 0 };
    proof {
        if single {
            assert(r@ =~= seq![r@[0]]);
        }
        if r@ == seq!['H'] || r@ == seq!['D'] || r@ == seq!['A'] {
            assert(r@.len() == 1);
        }
    }
    (h, d, a)
}

/// Each match's goal superiority (last column) with its result (column 6)
/// as one-hot flags over (`H`, `D`, `A`), in the order of the records.
pub fn logistic_gs_summ(table: &FlexTable) -> (r: Vec<(i64, (u8, u8, u8))>)
    requires
        rows_have_sup_and_result(table@.rows),
    ensures
        r@ == table@.rows.map_values(|row: RowView| sup_and_result(row)),
{
    let mut out: Vec<(i64, (u8, u8, u8))> = Vec::new();
    let mut i: usize = 0;
    while i < table.data.len()
        invariant
            i <= table@.rows.len(),
            rows_have_sup_and_result(table@.rows),
            out@ == table@.rows.take(i as int).map_values(|row: RowView| sup_and_result(row)),
        decreases table@.rows.len() - i,
    {
        let g = &table.data[i];
        assert(g@ == table@.rows[i as int]);
        let n = g.data.len();
        assert(g@.data.last() == g.data@[n - 1]@);
        assert(g@.data[6] == g.data@[6]@);
        let sup = match g.data[n - 1].as_i64() {
            Some(v) => v,
            None => 0,
        };
        let res = match g.data[6].as_string() {
            Some(s) => string_chars(&s),
            None => Vec::new(),
        };
        let oh = one_hot_of(&res);
        out.push((sup, oh));
        assert(table@.rows.take(i + 1) =~= table@.rows.take(i as int).push(table@.rows[i as int]));
        assert(out@ =~= table@.rows.take(i + 1).map_values(|row: RowView| sup_and_result(row)));
        i = i + 1;
    }
    assert(table@.rows.take(i as int) =~= table@.rows);
    out
}

} // verus!
