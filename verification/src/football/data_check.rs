//! Checks on the master table: match counts by season and division, and the
//! final league tables.

use vstd::prelude::*;
use crate::data::{DataView, RowView};
use crate::football::feature_add::{text_of, u32_of};
use crate::ordmap::{
    entries_map, has_sorted_entries, key_views, lemma_entries_map_at, lemma_entries_map_take,
    lemma_sorted_drop_last, lemma_sorted_entries_empty, lemma_sorted_entries_insert,
    lemma_sort_from, lemma_sorted_entries_of, lemma_weight_sum_reverse, lemma_weight_sum_sort, sort_keys,
    sort_keys_spec, sorted_entries, strictly_sorted, weight_sum, OrdMap, OrderedKey,
};
use crate::table::{
    column_of, count_sum, group_keys, group_rows, group_sizes, key_at, lemma_rows_reach_group,
    lemma_sorted_group_sizes, rows_reach, FlexTable,
};
use crate::text::copy_text;

verus! {

broadcast use vstd::seq_lib::group_seq_properties;

/// A division's figures: its text, its number of matches and its number of
/// teams (those with home matches).
pub type DivisionView = (Seq<char>, usize, usize);

/// A season's figures: its text, its number of matches and its divisions'
/// figures.
pub type SeasonView = (Seq<char>, usize, Seq<DivisionView>);

/// The figures of the divisions of a season's matches, in the order of
/// their text.
pub open spec fn division_stats(sr: Seq<RowView>, cd: int, ch: int) -> Seq<DivisionView> {
    sort_keys_spec::<Vec<char>>(group_keys(sr, cd)).map_values(
        |d: Seq<char>|
            (
                d,
                group_rows(sr, cd, d).len() as usize,
                group_keys(group_rows(sr, cd, d), ch).len() as usize,
            ),
    )
}

/// The figures of the seasons of a table's matches, in the order of their
/// text.
pub open spec fn season_stats(rows: Seq<RowView>, cs: int, cd: int, ch: int) -> Seq<SeasonView> {
    sort_keys_spec::<Vec<char>>(group_keys(rows, cs)).map_values(
        |s: Seq<char>|
            (s, group_rows(rows, cs, s).len() as usize, division_stats(group_rows(rows, cs, s), cd, ch)),
    )
}

/// A table on which the checks can be made: it has the `Ssn`, `Div_n` and
/// `HomeTeam` columns, reached by every record.
pub open spec fn check_ready(t: crate::table::TableView) -> bool {
    &&& t.labels.contains("Ssn"@)
    &&& t.labels.contains("Div_n"@)
    &&& t.labels.contains("HomeTeam"@)
    &&& rows_reach(t.rows, column_of(t.labels, "Ssn"@))
    &&& rows_reach(t.rows, column_of(t.labels, "Div_n"@))
    &&& rows_reach(t.rows, column_of(t.labels, "HomeTeam"@))
}

/// The views of division figures.
pub open spec fn division_views(v: Seq<(Vec<char>, usize, usize)>) -> Seq<DivisionView> {
    v.map_values(|d: (Vec<char>, usize, usize)| (d.0@, d.1, d.2))
}

/// The views of season figures.
pub open spec fn season_views(v: Seq<(Vec<char>, usize, Vec<(Vec<char>, usize, usize)>)>) -> Seq<SeasonView> {
    v.map_values(|s: (Vec<char>, usize, Vec<(Vec<char>, usize, usize)>)| (s.0@, s.1, division_views(s.2@)))
}

fn division_figures(sr: &FlexTable, cd: usize, ch: usize) -> (r: Vec<(Vec<char>, usize, usize)>)
    requires
        rows_reach(sr@.rows, cd as int),
        rows_reach(sr@.rows, ch as int),
    ensures
        division_views(r@) == division_stats(sr@.rows, cd as int, ch as int),
{
    let keys = sr.key_texts(cd);
    let ds = sr.distinct_keys(cd);
    assert(key_views(ds@) =~= ds@.map_values(|v: Vec<char>| v@));
    let sorted = sort_keys(ds);
    let ghost sv = key_views(sorted@);
    let mut out: Vec<(Vec<char>, usize, usize)> = Vec::new();
    let mut i: usize = 0;
    while i < sorted.len()
        invariant
            i <= sorted@.len(),
            sv == key_views(sorted@),
            sv == sort_keys_spec::<Vec<char>>(group_keys(sr@.rows, cd as int)),
            rows_reach(sr@.rows, cd as int),
            rows_reach(sr@.rows, ch as int),
            keys@.len() == sr@.rows.len(),
            forall|j: int| 0 <= j < keys@.len() ==> (#[trigger] keys@[j])@ == key_at(sr@.rows[j], cd as int),
            division_views(out@) == division_stats(sr@.rows, cd as int, ch as int).take(i as int),
        decreases sorted@.len() - i,
    {
        let d = &sorted[i];
        assert(d@ == sv[i as int]);
        let dr = sr.rows_with_key(cd, d, &keys);
        proof {
            lemma_rows_reach_group(sr@.rows, ch as int, cd as int, d@);
        }
        let teams = dr.distinct_keys(ch);
        let ghost before = division_views(out@);
        let item = (copy_text(d), dr.num_records(), teams.len());
        out.push(item);
        assert(division_views(out@) =~= before.push((d@, dr@.rows.len() as usize, group_keys(dr@.rows, ch as int).len() as usize)));
        assert(division_stats(sr@.rows, cd as int, ch as int).take(i + 1) =~= division_stats(sr@.rows, cd as int, ch as int).take(i as int).push(division_stats(sr@.rows, cd as int, ch as int)[i as int]));
        i = i + 1;
    }
    assert(division_stats(sr@.rows, cd as int, ch as int).take(i as int) =~= division_stats(sr@.rows, cd as int, ch as int));
    out
}

/// The figures that `checkstats` reports: the number of matches, and for
/// each season (in the order of its text) its number of matches and, for
/// each of its divisions, the number of matches and of teams (see
/// `season_stats`).
pub fn checkstats(master_table: &FlexTable) -> (r: (usize, Vec<(Vec<char>, usize, Vec<(Vec<char>, usize, usize)>)>))
    requires
        check_ready(master_table@),
    ensures
        r.0 == master_table@.rows.len(),
        season_views(r.1@) == season_stats(
            master_table@.rows,
            column_of(master_table@.labels, "Ssn"@),
            column_of(master_table@.labels, "Div_n"@),
            column_of(master_table@.labels, "HomeTeam"@),
        ),
{
    let cs = master_table.column_of_label("Ssn");
    let cd = master_table.column_of_label("Div_n");
    let ch = master_table.column_of_label("HomeTeam");
    let ghost rows = master_table@.rows;
    let ghost want = season_stats(rows, cs as int, cd as int, ch as int);
    let keys = master_table.key_texts(cs);
    let ss = master_table.distinct_keys(cs);
    assert(key_views(ss@) =~= ss@.map_values(|v: Vec<char>| v@));
    let sorted = sort_keys(ss);
    let ghost sv = key_views(sorted@);
    let mut out: Vec<(Vec<char>, usize, Vec<(Vec<char>, usize, usize)>)> = Vec::new();
    let mut i: usize = 0;
    while i < sorted.len()
        invariant
            i <= sorted@.len(),
            rows == master_table@.rows,
            sv == key_views(sorted@),
            sv == sort_keys_spec::<Vec<char>>(group_keys(rows, cs as int)),
            want == season_stats(rows, cs as int, cd as int, ch as int),
            rows_reach(rows, cs as int),
            rows_reach(rows, cd as int),
            rows_reach(rows, ch as int),
            keys@.len() == rows.len(),
            forall|j: int| 0 <= j < keys@.len() ==> (#[trigger] keys@[j])@ == key_at(rows[j], cs as int),
            season_views(out@) == want.take(i as int),
        decreases sorted@.len() - i,
    {
        let s = &sorted[i];
        assert(s@ == sv[i as int]);
        let sr = master_table.rows_with_key(cs, s, &keys);
        proof {
            lemma_rows_reach_group(rows, cd as int, cs as int, s@);
            lemma_rows_reach_group(rows, ch as int, cs as int, s@);
        }
        let divs = division_figures(&sr, cd, ch);
        let ghost before = season_views(out@);
        let ghost item = (s@, sr@.rows.len() as usize, division_views(divs@));
        out.push((copy_text(s), sr.num_records(), divs));
        assert(season_views(out@) =~= before.push(item));
        assert(want.take(i + 1) =~= want.take(i as int).push(want[i as int]));
        i = i + 1;
    }
    assert(want.take(i as int) =~= want);
    (master_table.num_records(), out)
}


/// The numbers of matches of a list of season figures.
pub open spec fn season_matches(s: Seq<SeasonView>) -> Seq<usize> {
    s.map_values(|x: SeasonView| x.1)
}

/// The numbers of matches of a list of division figures.
pub open spec fn division_matches(s: Seq<DivisionView>) -> Seq<usize> {
    s.map_values(|x: DivisionView| x.1)
}

/// The figures that `checkstats` reports add up: the matches of the seasons
/// add up to all the matches, and in each season the matches of its
/// divisions add up to the season's matches.
pub proof fn law_checkstats_counts_add_up(rows: Seq<RowView>, cs: int, cd: int, ch: int)
    requires
        rows.len() <= usize::MAX,
    ensures
        count_sum(season_matches(season_stats(rows, cs, cd, ch))) == rows.len(),
        forall|i: int|
            0 <= i < season_stats(rows, cs, cd, ch).len() ==> count_sum(
                division_matches(#[trigger] season_stats(rows, cs, cd, ch)[i].2),
            ) == season_stats(rows, cs, cd, ch)[i].1,
{
    let ss = season_stats(rows, cs, cd, ch);
    let sk = sort_keys_spec::<Vec<char>>(group_keys(rows, cs));
    assert(season_matches(ss) =~= group_sizes(rows, cs, sk));
    lemma_sorted_group_sizes(rows, cs);
    assert forall|i: int| 0 <= i < ss.len() implies count_sum(division_matches(#[trigger] ss[i].2)) == ss[i].1 by {
        let g = group_rows(rows, cs, sk[i]);
        rows.lemma_filter_len(|r: RowView| key_at(r, cs) == sk[i]);
        let dk = sort_keys_spec::<Vec<char>>(group_keys(g, cd));
        assert(division_matches(ss[i].2) =~= group_sizes(g, cd, dk));
        lemma_sorted_group_sizes(g, cd);
    }
}

/// A campaign: a season and a division.
pub type Campaign = (u32, u32);

/// The campaign of a match (columns 7 and 8).
pub open spec fn campaign_of(r: RowView) -> Campaign {
    (u32_of(r.data[7]), u32_of(r.data[8]))
}

/// The home side's goal difference in a match (columns 4 and 5).
pub open spec fn home_gd(r: RowView) -> int {
    u32_of(r.data[4]) - u32_of(r.data[5])
}

/// Every record is a master-table match: teams as strings in columns 2 and
/// 3, and goals, season, division and points as numbers in columns 4, 5 and
/// 7 to 10.
pub open spec fn rows_are_matches(rows: Seq<RowView>) -> bool {
    forall|k: int|
        0 <= k < rows.len() ==> {
            &&& (#[trigger] rows[k]).data.len() > 10
            &&& rows[k].data[2] is Str
            &&& rows[k].data[3] is Str
            &&& rows[k].data[4] is Uint
            &&& rows[k].data[5] is Uint
            &&& rows[k].data[7] is Uint
            &&& rows[k].data[8] is Uint
            &&& rows[k].data[9] is Uint
            &&& rows[k].data[10] is Uint
        }
}

/// A campaign added to a team's campaigns (kept once, in order of first
/// appearance).
pub open spec fn add_campaign(m: Map<Seq<char>, Seq<Campaign>>, t: Seq<char>, c: Campaign) -> Map<
    Seq<char>,
    Seq<Campaign>,
> {
    m.insert(
        t,
        if m.contains_key(t) {
            if m[t].contains(c) {
                m[t]
            } else {
                m[t].push(c)
            }
        } else {
            seq![c]
        },
    )
}

/// The campaigns of each team, from its home matches.
pub open spec fn campaigns_of(rows: Seq<RowView>) -> Map<Seq<char>, Seq<Campaign>>
    decreases rows.len(),
{
    if rows.len() == 0 {
        Map::empty()
    } else {
        add_campaign(campaigns_of(rows.drop_last()), text_of(rows.last().data[2]), campaign_of(rows.last()))
    }
}

/// A key of the points: a campaign and a team.
pub type PointsKey = (Campaign, Seq<char>);

/// Points `p` and goal difference `g` added to a team's campaign totals.
pub open spec fn add_points(m: Map<PointsKey, (u128, i128)>, k: PointsKey, p: int, g: int) -> Map<
    PointsKey,
    (u128, i128),
> {
    m.insert(
        k,
        if m.contains_key(k) {
            ((m[k].0 + p) as u128, (m[k].1 + g) as i128)
        } else {
            (p as u128, g as i128)
        },
    )
}

/// The points and goal difference of each team in each campaign: each
/// match adds the home points and goal difference to the home side, the
/// away points and the reversed goal difference to the away side.
pub open spec fn points_of(rows: Seq<RowView>) -> Map<PointsKey, (u128, i128)>
    decreases rows.len(),
{
    if rows.len() == 0 {
        Map::empty()
    } else {
        let r = rows.last();
        let c = campaign_of(r);
        add_points(
            add_points(points_of(rows.drop_last()), (c, text_of(r.data[2])), u32_of(r.data[9]) as int, home_gd(r)),
            (c, text_of(r.data[3])),
            u32_of(r.data[10]) as int,
            -home_gd(r),
        )
    }
}

/// The distinct elements of a sequence, in order of first appearance.
pub open spec fn distinct_in_order<T>(s: Seq<T>) -> Seq<T>
    decreases s.len(),
{
    if s.len() == 0 {
        s
    } else {
        let d = distinct_in_order(s.drop_last());
        if d.contains(s.last()) {
            d
        } else {
            d.push(s.last())
        }
    }
}

/// The key by which a standing is ordered: points, goal difference, team.
pub type StandingKey = ((u128, i128), Seq<char>);

/// The points entries of a campaign, in ascending order of team.
pub open spec fn campaign_entries(es: Seq<(PointsKey, (u128, i128))>, c: Campaign) -> Seq<
    (PointsKey, (u128, i128)),
>
    decreases es.len(),
{
    if es.len() == 0 {
        es
    } else {
        let r = campaign_entries(es.drop_last(), c);
        if es.last().0.0 == c {
            r.push(es.last())
        } else {
            r
        }
    }
}

/// The standing keys of points entries.
pub open spec fn standing_keys(es: Seq<(PointsKey, (u128, i128))>) -> Seq<StandingKey> {
    es.map_values(|e: (PointsKey, (u128, i128))| ((e.1.0, e.1.1), e.0.1))
}

/// A standing as it is reported: team, points, goal difference.
pub open spec fn standing_row(x: StandingKey) -> (Seq<char>, u128, i128) {
    (x.1, x.0.0, x.0.1)
}

/// The table of a campaign: its teams with their points and goal
/// difference, in descending order of (points, goal difference, team).
pub open spec fn standings(pts: Map<PointsKey, (u128, i128)>, c: Campaign) -> Seq<(Seq<char>, u128, i128)> {
    sort_keys_spec::<((u128, i128), Vec<char>)>(
        standing_keys(campaign_entries(sorted_entries::<((u32, u32), Vec<char>), (u128, i128)>(pts), c)),
    ).reverse().map_values(
        |x: StandingKey| standing_row(x),
    )
}

/// The campaigns, in ascending order.
pub open spec fn campaigns_in_order(pts: Map<PointsKey, (u128, i128)>) -> Seq<Campaign> {
    distinct_in_order(
        sorted_entries::<((u32, u32), Vec<char>), (u128, i128)>(pts).map_values(
            |e: (PointsKey, (u128, i128))| e.0.0,
        ),
    )
}

/// The sum of the campaign counts of the teams.
pub open spec fn count_total(s: Seq<(Seq<char>, usize)>) -> int
    decreases s.len(),
{
    if s.len() == 0 {
        0
    } else {
        count_total(s.drop_last()) + s.last().1
    }
}

/// What `final_tables` reports: each team (in the order of its name) with
/// its number of campaigns, the total of these, and the final table of
/// each campaign in ascending order.
pub open spec fn final_tables_spec(rows: Seq<RowView>) -> (
    Seq<(Seq<char>, usize)>,
    int,
    Seq<(Campaign, Seq<(Seq<char>, u128, i128)>)>,
) {
    let counts = sorted_entries::<Vec<char>, Seq<Campaign>>(campaigns_of(rows)).map_values(
        |e: (Seq<char>, Seq<Campaign>)| (e.0, e.1.len() as usize),
    );
    let pts = points_of(rows);
    (
        counts,
        count_total(counts),
        campaigns_in_order(pts).map_values(|c: Campaign| (c, standings(pts, c))),
    )
}

/// The bound on the totals after `k` matches.
pub open spec fn points_bound(k: int) -> int {
    k * 8589934592
}

/// The totals stay within `points_bound`.
pub open spec fn points_within(m: Map<PointsKey, (u128, i128)>, b: int) -> bool {
    forall|key: PointsKey|
        #[trigger] m.contains_key(key) ==> m[key].0 <= b && -b <= m[key].1 <= b
}

fn add_points_exec(
    pts: &mut OrdMap<((u32, u32), Vec<char>), (u128, i128)>,
    key: ((u32, u32), Vec<char>),
    p: u32,
    g: i64,
    bound: Ghost<int>,
)
    requires
        old(pts).wf(),
        0 <= bound@,
        bound@ + 4294967296 <= 170141183460469231731687303715884105727,
        -4294967296 <= g <= 4294967296,
        points_within(old(pts).map(), bound@),
    ensures
        final(pts).wf(),
        final(pts).map() == add_points(old(pts).map(), key@, p as int, g as int),
        points_within(final(pts).map(), bound@ + 4294967296),
{
    let (np, ng): (u128, i128) = match pts.get(&key) {
        Some(v) => (v.0 + p as u128, v.1 + g as i128),
        None => (p as u128, g as i128),
    };
    pts.insert(key, (np, ng));
}

/// The final league tables and campaign counts of the master table (see
/// `final_tables_spec`).
pub fn final_tables(master_table: &FlexTable) -> (r: (
    Vec<(Vec<char>, usize)>,
    u128,
    Vec<((u32, u32), Vec<(Vec<char>, u128, i128)>)>,
))
    requires
        rows_are_matches(master_table@.rows),
    ensures
        ({
            let want = final_tables_spec(master_table@.rows);
            &&& r.0@.map_values(|e: (Vec<char>, usize)| (e.0@, e.1)) == want.0
            &&& r.1 as int == want.1
            &&& r.2@.map_values(
                |t: ((u32, u32), Vec<(Vec<char>, u128, i128)>)|
                    (t.0, t.1@.map_values(|x: (Vec<char>, u128, i128)| (x.0@, x.1, x.2))),
            ) == want.2
        }),
{
    let ghost rows = master_table@.rows;
    let mut camps: OrdMap<Vec<char>, Vec<(u32, u32)>> = OrdMap::new();
    let mut pts: OrdMap<((u32, u32), Vec<char>), (u128, i128)> = OrdMap::new();
    let mut k: usize = 0;
    while k < master_table.data.len()
        invariant
            k <= rows.len(),
            rows == master_table@.rows,
            rows_are_matches(rows),
            camps.wf(),
            pts.wf(),
            camps.map() == campaigns_of(rows.take(k as int)),
            pts.map() == points_of(rows.take(k as int)),
            points_within(pts.map(), points_bound(k as int)),
        decreases rows.len() - k,
    {
        let g = &master_table.data[k];
        assert(g@ == rows[k as int]);
        assert(g@.data[2] == g.data@[2]@);
        assert(g@.data[3] == g.data@[3]@);
        assert(g@.data[4] == g.data@[4]@);
        assert(g@.data[5] == g.data@[5]@);
        assert(g@.data[7] == g.data@[7]@);
        assert(g@.data[8] == g.data@[8]@);
        assert(g@.data[9] == g.data@[9]@);
        assert(g@.data[10] == g.data@[10]@);
        let home = match g.data[2].as_string() {
            Some(s) => crate::text::string_chars(&s),
            None => Vec::new(),
        };
        let away = match g.data[3].as_string() {
            Some(s) => crate::text::string_chars(&s),
            None => Vec::new(),
        };
        let num = |d: &crate::data::FlexData| -> (v: u32)
            ensures
                v == u32_of(d@),
        {
            match d.as_u32() {
                Some(v) => v,
                None => 0,
            }
        };
        let fthg = num(&g.data[4]);
        let ftag = num(&g.data[5]);
        let ssn = num(&g.data[7]);
        let div = num(&g.data[8]);
        let hp = num(&g.data[9]);
        let ap = num(&g.data[10]);
        let c: (u32, u32) = (ssn, div);
        let hgd: i64 = fthg as i64 - ftag as i64;
        assert(rows.take(k + 1).drop_last() =~= rows.take(k as int));
        assert(rows.take(k + 1).last() == rows[k as int]);
        let mut cs: Vec<(u32, u32)> = match camps.get(&home) {
            Some(v) => {
                let mut w: Vec<(u32, u32)> = Vec::new();
                let mut j: usize = 0;
                while j < v.len()
                    invariant
                        j <= v@.len(),
                        w@ == v@.take(j as int),
                    decreases v@.len() - j,
                {
                    w.push(v[j]);
                    j = j + 1;
                    assert(w@ =~= v@.take(j as int));
                }
                assert(v@.take(j as int) =~= v@);
                w
            },
            None => Vec::new(),
        };
        let mut present = false;
        let mut j: usize = 0;
        while j < cs.len()
            invariant
                j <= cs@.len(),
                present == exists|x: int| 0 <= x < j && cs@[x] == c,
            decreases cs@.len() - j,
        {
            if cs[j].0 == c.0 && cs[j].1 == c.1 {
                present = true;
            }
            j = j + 1;
        }
        if !present {
            cs.push(c);
        }
        let ghost m0 = camps.map();
        proof {
            if m0.contains_key(home@) {
                assert(present == m0[home@].contains(c));
            } else {
                assert(cs@ =~= seq![c]);
            }
        }
        camps.insert(copy_text(&home), cs);
        proof {
            assert(points_within(pts.map(), points_bound(k as int)));
        }
        add_points_exec(&mut pts, (c, copy_text(&home)), hp, hgd, Ghost(points_bound(k as int)));
        add_points_exec(&mut pts, (c, away), ap, -hgd, Ghost(points_bound(k as int) + 4294967296));
        k = k + 1;
    }
    assert(rows.take(k as int) =~= rows);
    let ghost want = final_tables_spec(rows);
    // campaign counts
    proof {
        lemma_sorted_entries_of::<Vec<char>, Seq<(u32, u32)>>(camps.entry_views());
    }
    let ghost ce = camps.entry_views();
    assert(ce == sorted_entries::<Vec<char>, Seq<(u32, u32)>>(campaigns_of(rows)));
    let mut counts: Vec<(Vec<char>, usize)> = Vec::new();
    let mut total: u128 = 0;
    let mut i: usize = 0;
    while i < camps.entries.len()
        invariant
            i <= ce.len(),
            ce == camps.entry_views(),
            ce.len() == camps.entries@.len(),
            want == final_tables_spec(rows),
            ce == sorted_entries::<Vec<char>, Seq<(u32, u32)>>(campaigns_of(rows)),
            want.0 == ce.map_values(|e: (Seq<char>, Seq<Campaign>)| (e.0, e.1.len() as usize)),
            counts@.map_values(|e: (Vec<char>, usize)| (e.0@, e.1)) == want.0.take(i as int),
            total as int == count_total(want.0.take(i as int)),
            total <= i * 18446744073709551616,
        decreases ce.len() - i,
    {
        let e = &camps.entries[i];
        assert(ce[i as int] == (e.0@, e.1@));
        let ghost before = counts@.map_values(|e: (Vec<char>, usize)| (e.0@, e.1));
        let n = e.1.len();
        counts.push((copy_text(&e.0), n));
        assert(counts@.map_values(|e: (Vec<char>, usize)| (e.0@, e.1)) =~= before.push(want.0[i as int]));
        assert(want.0.take(i + 1) =~= want.0.take(i as int).push(want.0[i as int]));
        assert(want.0.take(i + 1).drop_last() =~= want.0.take(i as int));
        total = total + n as u128;
        i = i + 1;
    }
    assert(want.0.take(i as int) =~= want.0);
    // final tables
    proof {
        lemma_sorted_entries_of::<((u32, u32), Vec<char>), (u128, i128)>(pts.entry_views());
    }
    let ghost pe = pts.entry_views();
    let ghost pm = pts.map();
    let ghost ckeys = pe.map_values(|e: (PointsKey, (u128, i128))| e.0.0);
    let mut cl: Vec<(u32, u32)> = Vec::new();
    let mut i: usize = 0;
    while i < pts.entries.len()
        invariant
            i <= pe.len(),
            pe == pts.entry_views(),
            pe.len() == pts.entries@.len(),
            ckeys == pe.map_values(|e: (PointsKey, (u128, i128))| e.0.0),
            cl@ == distinct_in_order(ckeys.take(i as int)),
        decreases pe.len() - i,
    {
        let c = pts.entries[i].0.0;
        assert(ckeys[i as int] == c);
        assert(ckeys.take(i + 1).drop_last() =~= ckeys.take(i as int));
        let mut present = false;
        let mut j: usize = 0;
        while j < cl.len()
            invariant
                j <= cl@.len(),
                present == exists|x: int| 0 <= x < j && cl@[x] == c,
            decreases cl@.len() - j,
        {
            if cl[j].0 == c.0 && cl[j].1 == c.1 {
                present = true;
            }
            j = j + 1;
        }
        if !present {
            cl.push(c);
        }
        i = i + 1;
    }
    assert(ckeys.take(i as int) =~= ckeys);
    let ghost cio = campaigns_in_order(pm);
    assert(cl@ == cio);
    let mut tables: Vec<((u32, u32), Vec<(Vec<char>, u128, i128)>)> = Vec::new();
    let mut t: usize = 0;
    while t < cl.len()
        invariant
            t <= cl@.len(),
            cl@ == cio,
            pe == pts.entry_views(),
            pe.len() == pts.entries@.len(),
            pm == pts.map(),
            pe == sorted_entries::<((u32, u32), Vec<char>), (u128, i128)>(pm),
            want == final_tables_spec(rows),
            pm == points_of(rows),
            pts.wf(),
            want.2 == cio.map_values(|c: Campaign| (c, standings(pm, c))),
            tables@.map_values(
                |t: ((u32, u32), Vec<(Vec<char>, u128, i128)>)|
                    (t.0, t.1@.map_values(|x: (Vec<char>, u128, i128)| (x.0@, x.1, x.2))),
            ) == want.2.take(t as int),
        decreases cl@.len() - t,
    {
        let c = cl[t];
        let table = campaign_standing(&pts, c);
        let ghost before = tables@.map_values(
            |t: ((u32, u32), Vec<(Vec<char>, u128, i128)>)|
                (t.0, t.1@.map_values(|x: (Vec<char>, u128, i128)| (x.0@, x.1, x.2))),
        );
        let ghost item = (c, table@.map_values(|x: (Vec<char>, u128, i128)| (x.0@, x.1, x.2)));
        tables.push((c, table));
        assert(tables@.map_values(
            |t: ((u32, u32), Vec<(Vec<char>, u128, i128)>)|
                (t.0, t.1@.map_values(|x: (Vec<char>, u128, i128)| (x.0@, x.1, x.2))),
        ) =~= before.push(item));
        assert(want.2.take(t + 1) =~= want.2.take(t as int).push(want.2[t as int]));
        t = t + 1;
    }
    assert(want.2.take(t as int) =~= want.2);
    (counts, total, tables)
}

/// The points (`gd` false) or the goal difference (`gd` true) of a total.
pub open spec fn pick(v: (u128, i128), gd: bool) -> int {
    if gd {
        v.1 as int
    } else {
        v.0 as int
    }
}

/// The sum of the points or goal differences of the keys `s` of a map of
/// totals.
pub open spec fn totals_sum(m: Map<PointsKey, (u128, i128)>, s: Set<PointsKey>, gd: bool) -> int
    decreases s.len(),
    when s.finite()
{
    if s.len() == 0 {
        0
    } else {
        let k = s.choose();
        pick(m[k], gd) + totals_sum(m, s.remove(k), gd)
    }
}

/// The keys of a campaign among those of a map of totals.
pub open spec fn campaign_keys(m: Map<PointsKey, (u128, i128)>, c: Campaign) -> Set<PointsKey> {
    m.dom().filter(|k: PointsKey| k.0 == c)
}

/// The points that the matches of a campaign award: home points (column 9)
/// and away points (column 10).
pub open spec fn awarded(rows: Seq<RowView>, c: Campaign) -> int
    decreases rows.len(),
{
    if rows.len() == 0 {
        0
    } else {
        let r = rows.last();
        awarded(rows.drop_last(), c) + if campaign_of(r) == c {
            u32_of(r.data[9]) + u32_of(r.data[10])
        } else {
            0int
        }
    }
}

proof fn lemma_totals_sum_remove(m: Map<PointsKey, (u128, i128)>, s: Set<PointsKey>, gd: bool, x: PointsKey)
    requires
        s.finite(),
        s.contains(x),
    ensures
        totals_sum(m, s, gd) == pick(m[x], gd) + totals_sum(m, s.remove(x), gd),
    decreases s.len(),
{
    let k = s.choose();
    if k != x {
        lemma_totals_sum_remove(m, s.remove(k), gd, x);
        lemma_totals_sum_remove(m, s.remove(x), gd, k);
        assert(s.remove(k).remove(x) =~= s.remove(x).remove(k));
    }
}

proof fn lemma_totals_sum_agree(
    m1: Map<PointsKey, (u128, i128)>,
    m2: Map<PointsKey, (u128, i128)>,
    s: Set<PointsKey>,
    gd: bool,
)
    requires
        s.finite(),
        forall|k: PointsKey| #[trigger] s.contains(k) ==> pick(m1[k], gd) == pick(m2[k], gd),
    ensures
        totals_sum(m1, s, gd) == totals_sum(m2, s, gd),
    decreases s.len(),
{
    if s.len() > 0 {
        let k = s.choose();
        lemma_totals_sum_agree(m1, m2, s.remove(k), gd);
    }
}

proof fn lemma_totals_sum_insert(
    m: Map<PointsKey, (u128, i128)>,
    s: Set<PointsKey>,
    k: PointsKey,
    v: (u128, i128),
    gd: bool,
)
    requires
        s.finite(),
    ensures
        totals_sum(m.insert(k, v), s.insert(k), gd) == totals_sum(m, s, gd) - (if s.contains(k) {
            pick(m[k], gd)
        } else {
            0
        }) + pick(v, gd),
        !s.contains(k) ==> totals_sum(m.insert(k, v), s, gd) == totals_sum(m, s, gd),
{
    let m2 = m.insert(k, v);
    let s2 = s.insert(k);
    lemma_totals_sum_remove(m2, s2, gd, k);
    assert(s2.remove(k) =~= s.remove(k));
    lemma_totals_sum_agree(m2, m, s.remove(k), gd);
    if s.contains(k) {
        lemma_totals_sum_remove(m, s, gd, k);
    } else {
        assert(s.remove(k) =~= s);
    }
}

proof fn lemma_add_points_sum(m: Map<PointsKey, (u128, i128)>, k: PointsKey, p: int, g: int, b: int, c: Campaign)
    requires
        m.dom().finite(),
        0 <= p <= 4294967296,
        -4294967296 <= g <= 4294967296,
        0 <= b,
        b + 4294967296 <= 170141183460469231731687303715884105727,
        points_within(m, b),
    ensures
        add_points(m, k, p, g).dom().finite(),
        points_within(add_points(m, k, p, g), b + 4294967296),
        totals_sum(add_points(m, k, p, g), campaign_keys(add_points(m, k, p, g), c), true)
            == totals_sum(m, campaign_keys(m, c), true) + if k.0 == c { g } else { 0 },
        totals_sum(add_points(m, k, p, g), campaign_keys(add_points(m, k, p, g), c), false)
            == totals_sum(m, campaign_keys(m, c), false) + if k.0 == c { p } else { 0 },
{
    let v = if m.contains_key(k) {
        ((m[k].0 + p) as u128, (m[k].1 + g) as i128)
    } else {
        (p as u128, g as i128)
    };
    let m2 = m.insert(k, v);
    assert(add_points(m, k, p, g) == m2);
    assert(m2.dom() =~= m.dom().insert(k));
    let s = campaign_keys(m, c);
    assert(s.finite()) by {
        m.dom().lemma_len_filter(|x: PointsKey| x.0 == c);
    }
    if k.0 == c {
        assert(campaign_keys(m2, c) =~= s.insert(k));
        assert(s.contains(k) == m.contains_key(k));
    } else {
        assert(campaign_keys(m2, c) =~= s);
    }
    lemma_totals_sum_insert(m, s, k, v, true);
    lemma_totals_sum_insert(m, s, k, v, false);
}

proof fn lemma_points_of_sums(rows: Seq<RowView>, c: Campaign)
    requires
        rows.len() <= 18446744073709551615,
    ensures
        points_of(rows).dom().finite(),
        points_within(points_of(rows), points_bound(rows.len() as int)),
        totals_sum(points_of(rows), campaign_keys(points_of(rows), c), true) == 0,
        totals_sum(points_of(rows), campaign_keys(points_of(rows), c), false) == awarded(rows, c),
    decreases rows.len(),
{
    if rows.len() == 0 {
        assert(points_of(rows).dom() =~= Set::<PointsKey>::empty());
        assert(campaign_keys(points_of(rows), c) =~= Set::<PointsKey>::empty());
    } else {
        let r0 = rows.drop_last();
        let r = rows.last();
        let rc = campaign_of(r);
        let n = r0.len() as int;
        lemma_points_of_sums(r0, c);
        let m0 = points_of(r0);
        let g = home_gd(r);
        let m1 = add_points(m0, (rc, text_of(r.data[2])), u32_of(r.data[9]) as int, g);
        lemma_add_points_sum(m0, (rc, text_of(r.data[2])), u32_of(r.data[9]) as int, g, points_bound(n), c);
        lemma_add_points_sum(
            m1,
            (rc, text_of(r.data[3])),
            u32_of(r.data[10]) as int,
            -g,
            points_bound(n) + 4294967296,
            c,
        );
    }
}

proof fn lemma_points_sorted(rows: Seq<RowView>)
    ensures
        has_sorted_entries::<((u32, u32), Vec<char>), (u128, i128)>(points_of(rows)),
    decreases rows.len(),
{
    if rows.len() == 0 {
        lemma_sorted_entries_empty::<((u32, u32), Vec<char>), (u128, i128)>();
        assert(points_of(rows) == Map::<PointsKey, (u128, i128)>::empty());
    } else {
        let r = rows.last();
        let c = campaign_of(r);
        let g = home_gd(r);
        let m0 = points_of(rows.drop_last());
        lemma_points_sorted(rows.drop_last());
        let k1 = (c, text_of(r.data[2]));
        let p1 = u32_of(r.data[9]) as int;
        let v1 = if m0.contains_key(k1) {
            ((m0[k1].0 + p1) as u128, (m0[k1].1 + g) as i128)
        } else {
            (p1 as u128, g as i128)
        };
        let m1 = add_points(m0, k1, p1, g);
        assert(m1 == m0.insert(k1, v1));
        lemma_sorted_entries_insert::<((u32, u32), Vec<char>), (u128, i128)>(m0, k1, v1);
        let k2 = (c, text_of(r.data[3]));
        let p2 = u32_of(r.data[10]) as int;
        let v2 = if m1.contains_key(k2) {
            ((m1[k2].0 + p2) as u128, (m1[k2].1 - g) as i128)
        } else {
            (p2 as u128, (-g) as i128)
        };
        assert(add_points(m1, k2, p2, -g) == m1.insert(k2, v2));
        lemma_sorted_entries_insert::<((u32, u32), Vec<char>), (u128, i128)>(m1, k2, v2);
    }
}

/// The sum of the points or goal differences of points entries.
pub open spec fn entry_sum(es: Seq<(PointsKey, (u128, i128))>, gd: bool) -> int
    decreases es.len(),
{
    if es.len() == 0 {
        0
    } else {
        entry_sum(es.drop_last(), gd) + pick(es.last().1, gd)
    }
}

proof fn lemma_campaign_entries_sum(s: Seq<(PointsKey, (u128, i128))>, c: Campaign, gd: bool)
    requires
        strictly_sorted::<((u32, u32), Vec<char>), (u128, i128)>(s),
    ensures
        entries_map(s).dom().finite(),
        entry_sum(campaign_entries(s, c), gd) == totals_sum(entries_map(s), campaign_keys(entries_map(s), c), gd),
    decreases s.len(),
{
    if s.len() == 0 {
        assert(entries_map(s).dom() =~= Set::<PointsKey>::empty());
        assert(campaign_keys(entries_map(s), c) =~= Set::<PointsKey>::empty());
    } else {
        let n = s.len() - 1;
        let t = s.drop_last();
        let e = s.last();
        lemma_sorted_drop_last::<((u32, u32), Vec<char>), (u128, i128)>(s);
        lemma_campaign_entries_sum(t, c, gd);
        lemma_entries_map_take::<((u32, u32), Vec<char>), (u128, i128)>(s, n);
        assert(s.take(n + 1) =~= s);
        assert(s.take(n) =~= t);
        let m0 = entries_map(t);
        let m = entries_map(s);
        assert(!m0.contains_key(e.0)) by {
            if m0.contains_key(e.0) {
                let j = choose|j: int| 0 <= j < t.len() && #[trigger] t[j].0 == e.0;
                assert(s[j] == t[j]);
                <((u32, u32), Vec<char>) as OrderedKey>::lemma_irreflexive(e.0);
            }
        }
        assert(m.dom() =~= m0.dom().insert(e.0));
        let s0 = campaign_keys(m0, c);
        assert(s0.finite()) by {
            m0.dom().lemma_len_filter(|x: PointsKey| x.0 == c);
        }
        lemma_totals_sum_insert(m0, s0, e.0, e.1, gd);
        let r = campaign_entries(t, c);
        if e.0.0 == c {
            assert(campaign_keys(m, c) =~= s0.insert(e.0));
            assert(campaign_entries(s, c) == r.push(e));
            assert(r.push(e).drop_last() =~= r);
        } else {
            assert(campaign_keys(m, c) =~= s0);
            assert(campaign_entries(s, c) == r);
        }
    }
}

/// The sum of the points or goal differences of a final table.
pub open spec fn table_sum(t: Seq<(Seq<char>, u128, i128)>, gd: bool) -> int
    decreases t.len(),
{
    if t.len() == 0 {
        0
    } else {
        table_sum(t.drop_last(), gd) + pick((t.last().1, t.last().2), gd)
    }
}

/// The sum of the points or goal differences of standing keys.
pub open spec fn key_sum(xs: Seq<StandingKey>, gd: bool) -> int
    decreases xs.len(),
{
    if xs.len() == 0 {
        0
    } else {
        key_sum(xs.drop_last(), gd) + pick(xs.last().0, gd)
    }
}

proof fn lemma_key_sum_weight(xs: Seq<StandingKey>, gd: bool, w: spec_fn(StandingKey) -> int)
    requires
        forall|x: StandingKey| #[trigger] w(x) == pick(x.0, gd),
    ensures
        key_sum(xs, gd) == weight_sum(xs, w),
    decreases xs.len(),
{
    if xs.len() > 0 {
        lemma_key_sum_weight(xs.drop_last(), gd, w);
    }
}

proof fn lemma_table_sum_rows(xs: Seq<StandingKey>, gd: bool)
    ensures
        table_sum(xs.map_values(|x: StandingKey| standing_row(x)), gd) == key_sum(xs, gd),
    decreases xs.len(),
{
    if xs.len() > 0 {
        lemma_table_sum_rows(xs.drop_last(), gd);
        assert(xs.map_values(|x: StandingKey| standing_row(x)).drop_last() =~= xs.drop_last().map_values(
            |x: StandingKey| standing_row(x),
        ));
    }
}

proof fn lemma_key_sum_entries(es: Seq<(PointsKey, (u128, i128))>, gd: bool)
    ensures
        key_sum(standing_keys(es), gd) == entry_sum(es, gd),
    decreases es.len(),
{
    if es.len() > 0 {
        lemma_key_sum_entries(es.drop_last(), gd);
        assert(standing_keys(es).drop_last() =~= standing_keys(es.drop_last()));
    }
}

proof fn lemma_standings_sum(pts: Map<PointsKey, (u128, i128)>, c: Campaign, gd: bool)
    requires
        has_sorted_entries::<((u32, u32), Vec<char>), (u128, i128)>(pts),
    ensures
        pts.dom().finite(),
        table_sum(standings(pts, c), gd) == totals_sum(pts, campaign_keys(pts, c), gd),
{
    let s = sorted_entries::<((u32, u32), Vec<char>), (u128, i128)>(pts);
    let ce = campaign_entries(s, c);
    let ks = standing_keys(ce);
    let sorted = sort_keys_spec::<((u128, i128), Vec<char>)>(ks);
    lemma_campaign_entries_sum(s, c, gd);
    lemma_key_sum_entries(ce, gd);
    let w = |x: StandingKey| pick(x.0, gd);
    lemma_key_sum_weight(ks, gd, w);
    lemma_key_sum_weight(sorted, gd, w);
    lemma_key_sum_weight(sorted.reverse(), gd, w);
    lemma_weight_sum_sort::<((u128, i128), Vec<char>)>(ks, w);
    lemma_weight_sum_reverse(sorted, w);
    lemma_table_sum_rows(sorted.reverse(), gd);
}

/// In the final table of every campaign, the teams' points add up to the
/// points that the campaign's matches award, and their goal differences
/// cancel out.
pub proof fn law_final_table_totals(rows: Seq<RowView>, c: Campaign)
    requires
        rows.len() <= usize::MAX,
    ensures
        table_sum(standings(points_of(rows), c), false) == awarded(rows, c),
        table_sum(standings(points_of(rows), c), true) == 0,
{
    lemma_points_sorted(rows);
    lemma_standings_sum(points_of(rows), c, false);
    lemma_standings_sum(points_of(rows), c, true);
    lemma_points_of_sums(rows, c);
}


proof fn lemma_campaign_entries_from(es: Seq<(PointsKey, (u128, i128))>, c: Campaign, t: int)
    requires
        0 <= t < campaign_entries(es, c).len(),
    ensures
        campaign_entries(es, c)[t].0.0 == c,
        es.contains(campaign_entries(es, c)[t]),
    decreases es.len(),
{
    let r = campaign_entries(es.drop_last(), c);
    if t < r.len() {
        lemma_campaign_entries_from(es.drop_last(), c, t);
        if es.last().0.0 == c {
            assert(campaign_entries(es, c)[t] == r[t]);
        }
        let i = choose|i: int| 0 <= i < es.drop_last().len() && es.drop_last()[i] == r[t];
        assert(es[i] == r[t]);
    } else {
        assert(es[es.len() - 1] == es.last());
    }
}

proof fn lemma_points_key_from(rows: Seq<RowView>, key: PointsKey)
    requires
        points_of(rows).contains_key(key),
    ensures
        exists|k: int|
            0 <= k < rows.len() && u32_of((#[trigger] rows[k]).data[7]) == key.0.0 && u32_of(rows[k].data[8])
                == key.0.1 && (text_of(rows[k].data[2]) == key.1 || text_of(rows[k].data[3]) == key.1),
    decreases rows.len(),
{
    let r = rows.last();
    let k = rows.len() - 1;
    assert(rows[k] == r);
    if key != (campaign_of(r), text_of(r.data[2])) && key != (campaign_of(r), text_of(r.data[3])) {
        lemma_points_key_from(rows.drop_last(), key);
        let j = choose|j: int|
            0 <= j < rows.drop_last().len() && u32_of((#[trigger] rows.drop_last()[j]).data[7]) == key.0.0 && u32_of(
                rows.drop_last()[j].data[8],
            ) == key.0.1 && (text_of(rows.drop_last()[j].data[2]) == key.1 || text_of(rows.drop_last()[j].data[3])
                == key.1);
        assert(rows[j] == rows.drop_last()[j]);
    }
}

/// Each final table belongs to one season and one division: a team stands
/// in the table of campaign (season, division) only if it played, at home
/// or away, a match whose season (column 7) and division (column 8) are
/// those of the campaign.
pub proof fn law_final_tables_per_division(rows: Seq<RowView>, i: int, j: int)
    requires
        0 <= i < final_tables_spec(rows).2.len(),
        0 <= j < final_tables_spec(rows).2[i].1.len(),
    ensures
        exists|k: int|
            0 <= k < rows.len() && u32_of((#[trigger] rows[k]).data[7]) == final_tables_spec(rows).2[i].0.0
                && u32_of(rows[k].data[8]) == final_tables_spec(rows).2[i].0.1 && (text_of(rows[k].data[2])
                =~= final_tables_spec(rows).2[i].1[j].0 || text_of(rows[k].data[3]) =~= final_tables_spec(rows).2[i].1[j].0),
{
    let pts = points_of(rows);
    lemma_points_sorted(rows);
    let s = sorted_entries::<((u32, u32), Vec<char>), (u128, i128)>(pts);
    let out = final_tables_spec(rows).2;
    let c = campaigns_in_order(pts)[i];
    assert(out[i] == (c, standings(pts, c)));
    let ce = campaign_entries(s, c);
    let ks = standing_keys(ce);
    let sorted = sort_keys_spec::<((u128, i128), Vec<char>)>(ks);
    let x = sorted.reverse()[j];
    assert(out[i].1[j] == standing_row(x));
    assert(sorted.contains(x)) by {
        assert(sorted[sorted.len() - 1 - j] == x);
    }
    lemma_sort_from::<((u128, i128), Vec<char>)>(ks, x);
    let t = choose|t: int| 0 <= t < ks.len() && ks[t] == x;
    lemma_campaign_entries_from(s, c, t);
    let q = choose|q: int| 0 <= q < s.len() && s[q] == ce[t];
    lemma_entries_map_at::<((u32, u32), Vec<char>), (u128, i128)>(s, q);
    let key = s[q].0;
    assert(ks[t] == ((ce[t].1.0, ce[t].1.1), ce[t].0.1));
    assert(key.0 == c && key.1 == out[i].1[j].0);
    lemma_points_key_from(rows, key);
    let k = choose|k: int|
        0 <= k < rows.len() && u32_of((#[trigger] rows[k]).data[7]) == key.0.0 && u32_of(rows[k].data[8])
            == key.0.1 && (text_of(rows[k].data[2]) == key.1 || text_of(rows[k].data[3]) == key.1);
    assert(out[i].0 == c);
    assert(0 <= k < rows.len() && u32_of(rows[k].data[7]) == out[i].0.0 && u32_of(rows[k].data[8])
        == out[i].0.1);
}

/// The final table of one campaign (see `standings`).
fn campaign_standing(pts: &OrdMap<((u32, u32), Vec<char>), (u128, i128)>, c: (u32, u32)) -> (r: Vec<(Vec<char>, u128, i128)>)
    requires
        pts.wf(),
        pts.entry_views() == sorted_entries::<((u32, u32), Vec<char>), (u128, i128)>(pts.map()),
    ensures
        r@.map_values(|x: (Vec<char>, u128, i128)| (x.0@, x.1, x.2)) == standings(pts.map(), c),
{
    let ghost pe = pts.entry_views();
    let ghost f = |e: (PointsKey, (u128, i128))| ((e.1.0, e.1.1), e.0.1);
    let mut keys: Vec<((u128, i128), Vec<char>)> = Vec::new();
    let mut i: usize = 0;
    while i < pts.entries.len()
        invariant
            i <= pe.len(),
            pe == pts.entry_views(),
            pe.len() == pts.entries@.len(),
            pe == sorted_entries::<((u32, u32), Vec<char>), (u128, i128)>(pts.map()),
            f == (|e: (PointsKey, (u128, i128))| ((e.1.0, e.1.1), e.0.1)),
            key_views(keys@) == standing_keys(campaign_entries(pe.take(i as int), c)),
        decreases pe.len() - i,
    {
        assert(pe.take(i + 1).drop_last() =~= pe.take(i as int));
        let e = &pts.entries[i];
        assert(pe[i as int] == (e.0@, e.1));
        assert(pe.take(i + 1).last() == pe[i as int]);
        if e.0.0.0 == c.0 && e.0.0.1 == c.1 {
            let ghost before = key_views(keys@);
            keys.push(((e.1.0, e.1.1), copy_text(&e.0.1)));
            assert(key_views(keys@) =~= before.push(f(pe[i as int])));
            assert(standing_keys(campaign_entries(pe.take(i + 1), c)) =~= standing_keys(
                campaign_entries(pe.take(i as int), c),
            ).push(f(pe[i as int])));
        }
        i = i + 1;
    }
    assert(pe.take(i as int) =~= pe);
    let sorted = sort_keys(keys);
    let ghost so = key_views(sorted@);
    assert(so == sort_keys_spec::<((u128, i128), Vec<char>)>(standing_keys(campaign_entries(pe, c))));
    let mut out: Vec<(Vec<char>, u128, i128)> = Vec::new();
    let mut j: usize = sorted.len();
    while j > 0
        invariant
            j <= sorted@.len(),
            so == key_views(sorted@),
            out@.map_values(|x: (Vec<char>, u128, i128)| (x.0@, x.1, x.2)) == so.skip(j as int).reverse().map_values(
                |x: StandingKey| standing_row(x),
            ),
        decreases j,
    {
        j = j - 1;
        let ghost before = out@.map_values(|x: (Vec<char>, u128, i128)| (x.0@, x.1, x.2));
        let e = &sorted[j];
        assert(so[j as int] == e@);
        out.push((copy_text(&e.1), e.0.0, e.0.1));
        assert(out@.map_values(|x: (Vec<char>, u128, i128)| (x.0@, x.1, x.2)) =~= before.push((e.1@, e.0.0, e.0.1)));
        assert(so.skip(j as int) =~= seq![so[j as int]] + so.skip(j + 1));
        assert(so.skip(j as int).reverse() =~= so.skip(j + 1).reverse().push(so[j as int]));
    }
    assert(so.skip(0) =~= so);
    assert(out@.map_values(|x: (Vec<char>, u128, i128)| (x.0@, x.1, x.2)) =~= standings(pts.map(), c));
    out
}

} // verus!
