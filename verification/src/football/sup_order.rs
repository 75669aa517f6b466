//! Laws of the goal-superiority table: it does not depend on the order of
//! the records, and each record's `Game_Sup` is the difference of its two
//! sides' goal superiorities.

use vstd::prelude::*;
use crate::data::{DataView, RowView};
use crate::football::feature_add::{
    away_key, core_away, core_home, goal_superiority_table, goal_sups, home_key, i64_of, join_away, join_home,
    law_goal_sups_bounded, law_goal_sups_order_free, sup_row, text_of, u32_of, SupKey,
};
use crate::table::TableView;
use crate::ordmap::{
    entries_map, has_sorted_entries, lemma_entries_map_at, lemma_sorted_entries_empty,
    lemma_sorted_entries_insert, lemma_sorted_entries_of, lemma_sorted_filter, sorted_entries,
    strictly_sorted, OrderedKey,
};
use crate::table::lemma_filter_from;

verus! {

broadcast use vstd::seq_lib::group_seq_properties;

/// No two records have the same home key, nor the same away key.
pub open spec fn keys_unique(rows: Seq<RowView>) -> bool {
    forall|i: int, j: int|
        0 <= i < rows.len() && 0 <= j < rows.len() && i != j ==> home_key(#[trigger] rows[i]) != home_key(
            #[trigger] rows[j],
        ) && away_key(rows[i]) != away_key(rows[j])
}

proof fn lemma_core_home(rows: Seq<RowView>)
    requires
        rows.len() <= usize::MAX,
    ensures
        has_sorted_entries::<(u32, Vec<char>), usize>(core_home(rows)),
        forall|key: SupKey| #[trigger] core_home(rows).contains_key(key) ==> core_home(rows)[key] < rows.len()
            && home_key(rows[core_home(rows)[key] as int]) == key,
        forall|i: int| 0 <= i < rows.len() ==> core_home(rows).contains_key(home_key(#[trigger] rows[i])),
    decreases rows.len(),
{
    if rows.len() == 0 {
        lemma_sorted_entries_empty::<(u32, Vec<char>), usize>();
    } else {
        let r0 = rows.drop_last();
        lemma_core_home(r0);
        lemma_sorted_entries_insert::<(u32, Vec<char>), usize>(core_home(r0), home_key(rows.last()), (rows.len() - 1) as usize);
        assert forall|key: SupKey| #[trigger] core_home(rows).contains_key(key) implies core_home(rows)[key] < rows.len()
            && home_key(rows[core_home(rows)[key] as int]) == key by {
            if key != home_key(rows.last()) {
                assert(core_home(r0).contains_key(key));
                assert(rows[core_home(r0)[key] as int] == r0[core_home(r0)[key] as int]);
            } else {
                assert(core_home(rows)[key] == rows.len() - 1);
                assert(rows[rows.len() - 1] == rows.last());
            }
        }
        assert forall|i: int| 0 <= i < rows.len() implies core_home(rows).contains_key(home_key(#[trigger] rows[i])) by {
            if i < r0.len() {
                assert(r0[i] == rows[i]);
            }
        }
    }
}

/// A joined home entry: its record has its key, and it carries the home
/// side's goal superiority.
pub open spec fn home_entry_ok(rows: Seq<RowView>, gs: Map<SupKey, i64>, e: (SupKey, (usize, i64))) -> bool {
    &&& e.1.0 < rows.len()
    &&& home_key(rows[e.1.0 as int]) == e.0
    &&& gs.contains_key(e.0)
    &&& e.1.1 == gs[e.0]
}

proof fn lemma_join_home(rows: Seq<RowView>, gs: Map<SupKey, i64>)
    requires
        rows.len() <= usize::MAX,
    ensures
        forall|t: int| 0 <= t < join_home(rows, gs).len() ==> home_entry_ok(rows, gs, #[trigger] join_home(rows, gs)[t]),
        forall|a: int, b: int|
            0 <= a < join_home(rows, gs).len() && 0 <= b < join_home(rows, gs).len() && a != b ==> (#[trigger] join_home(
                rows,
                gs,
            )[a]).0 != (#[trigger] join_home(rows, gs)[b]).0,
        keys_unique(rows) ==> forall|i: int|
            0 <= i < rows.len() && gs.contains_key(home_key(#[trigger] rows[i])) ==> exists|t: int|
                0 <= t < join_home(rows, gs).len() && (#[trigger] join_home(rows, gs)[t]).1.0 == i,
{
    let ch = core_home(rows);
    lemma_core_home(rows);
    let s1 = sorted_entries::<(u32, Vec<char>), usize>(ch);
    assert(strictly_sorted::<(u32, Vec<char>), usize>(s1) && entries_map(s1) == ch);
    let p = |e: (SupKey, usize)| gs.contains_key(e.0);
    let f = |e: (SupKey, usize)| (e.0, (e.1, gs[e.0]));
    let flt = s1.filter(p);
    let jh = join_home(rows, gs);
    assert(jh == flt.map_values(f));
    lemma_sorted_filter::<(u32, Vec<char>), usize>(s1, p);
    assert forall|t: int| 0 <= t < jh.len() implies home_entry_ok(rows, gs, #[trigger] jh[t]) by {
        lemma_filter_from(s1, p, t);
        let q = choose|q: int| 0 <= q < s1.len() && s1[q] == flt[t];
        lemma_entries_map_at::<(u32, Vec<char>), usize>(s1, q);
        s1.lemma_filter_pred(p, t);
    }
    assert forall|a: int, b: int| 0 <= a < jh.len() && 0 <= b < jh.len() && a != b implies (#[trigger] jh[a]).0 != (
    #[trigger] jh[b]).0 by {
        if a < b {
            assert(<(u32, Vec<char>) as OrderedKey>::precedes(flt[a].0, flt[b].0));
        } else {
            assert(<(u32, Vec<char>) as OrderedKey>::precedes(flt[b].0, flt[a].0));
        }
        <(u32, Vec<char>) as OrderedKey>::lemma_irreflexive(flt[a].0);
    }
    if keys_unique(rows) {
        assert forall|i: int| 0 <= i < rows.len() && gs.contains_key(home_key(#[trigger] rows[i])) implies exists|t: int|
            0 <= t < jh.len() && (#[trigger] jh[t]).1.0 == i by {
            let hk = home_key(rows[i]);
            assert(ch.contains_key(hk));
            let v = ch[hk];
            if v != i {
                assert(home_key(rows[v as int]) == home_key(rows[i]));
            }
            let q = choose|q: int| 0 <= q < s1.len() && #[trigger] s1[q].0 == hk;
            lemma_entries_map_at::<(u32, Vec<char>), usize>(s1, q);
            s1.lemma_filter_contains(p, q);
            let t = choose|t: int| 0 <= t < flt.len() && flt[t] == s1[q];
            assert(jh[t].1.0 == i);
        }
    }
}

proof fn lemma_core_away(jh: Seq<(SupKey, (usize, i64))>, rows: Seq<RowView>)
    ensures
        has_sorted_entries::<(u32, Vec<char>), (usize, i64)>(core_away(jh, rows)),
        forall|key: SupKey| #[trigger] core_away(jh, rows).contains_key(key) ==> exists|t: int|
            0 <= t < jh.len() && (#[trigger] jh[t]).1 == core_away(jh, rows)[key] && away_key(rows[jh[t].1.0 as int]) == key,
        forall|t: int| 0 <= t < jh.len() ==> core_away(jh, rows).contains_key(away_key(rows[(#[trigger] jh[t]).1.0 as int])),
    decreases jh.len(),
{
    if jh.len() == 0 {
        lemma_sorted_entries_empty::<(u32, Vec<char>), (usize, i64)>();
    } else {
        let j0 = jh.drop_last();
        let e = jh.last();
        lemma_core_away(j0, rows);
        lemma_sorted_entries_insert::<(u32, Vec<char>), (usize, i64)>(core_away(j0, rows), away_key(rows[e.1.0 as int]), e.1);
        assert forall|key: SupKey| #[trigger] core_away(jh, rows).contains_key(key) implies exists|t: int|
            0 <= t < jh.len() && (#[trigger] jh[t]).1 == core_away(jh, rows)[key] && away_key(rows[jh[t].1.0 as int]) == key by {
            if key == away_key(rows[e.1.0 as int]) {
                assert(jh[jh.len() - 1] == e);
            } else {
                assert(core_away(j0, rows).contains_key(key));
                let t = choose|t: int| 0 <= t < j0.len() && (#[trigger] j0[t]).1 == core_away(j0, rows)[key] && away_key(rows[j0[t].1.0 as int]) == key;
                assert(jh[t] == j0[t]);
            }
        }
        assert forall|t: int| 0 <= t < jh.len() implies core_away(jh, rows).contains_key(away_key(rows[(#[trigger] jh[t]).1.0 as int])) by {
            if t < j0.len() {
                assert(jh[t] == j0[t]);
            }
        }
    }
}

/// An entry of the joined matches: its record has its key and both sides'
/// goal superiorities are the map's (see `sup_entry_sound`).
pub open spec fn away_entry_ok(rows: Seq<RowView>, gs: Map<SupKey, i64>, e: (SupKey, (usize, i64, i64))) -> bool {
    &&& e.1.0 < rows.len()
    &&& e.0 == away_key(rows[e.1.0 as int])
    &&& gs.contains_key(home_key(rows[e.1.0 as int]))
    &&& e.1.1 == gs[home_key(rows[e.1.0 as int])]
    &&& gs.contains_key(e.0)
    &&& e.1.2 == gs[e.0]
}

proof fn lemma_join_away(rows: Seq<RowView>, gs: Map<SupKey, i64>)
    requires
        rows.len() <= usize::MAX,
    ensures
        strictly_sorted::<(u32, Vec<char>), (usize, i64, i64)>(join_away(rows, gs)),
        forall|u: int| 0 <= u < join_away(rows, gs).len() ==> away_entry_ok(rows, gs, #[trigger] join_away(rows, gs)[u]),
        keys_unique(rows) ==> forall|i: int|
            0 <= i < rows.len() && gs.contains_key(home_key(#[trigger] rows[i])) && gs.contains_key(away_key(rows[i]))
                ==> exists|u: int| 0 <= u < join_away(rows, gs).len() && (#[trigger] join_away(rows, gs)[u]).1.0 == i,
{
    let jh = join_home(rows, gs);
    lemma_join_home(rows, gs);
    let ca = core_away(jh, rows);
    lemma_core_away(jh, rows);
    let s2 = sorted_entries::<(u32, Vec<char>), (usize, i64)>(ca);
    assert(strictly_sorted::<(u32, Vec<char>), (usize, i64)>(s2) && entries_map(s2) == ca);
    let p = |e: (SupKey, (usize, i64))| gs.contains_key(e.0);
    let f = |e: (SupKey, (usize, i64))| (e.0, (e.1.0, e.1.1, gs[e.0]));
    let flt = s2.filter(p);
    let js = join_away(rows, gs);
    assert(js == flt.map_values(f));
    lemma_sorted_filter::<(u32, Vec<char>), (usize, i64)>(s2, p);
    assert forall|a: int, b: int| 0 <= a < b < js.len() implies <(u32, Vec<char>) as OrderedKey>::precedes(
        #[trigger] js[a].0,
        #[trigger] js[b].0,
    ) by {
        assert(<(u32, Vec<char>) as OrderedKey>::precedes(flt[a].0, flt[b].0));
    }
    assert forall|u: int| 0 <= u < js.len() implies away_entry_ok(rows, gs, #[trigger] js[u]) by {
        lemma_filter_from(s2, p, u);
        let q = choose|q: int| 0 <= q < s2.len() && s2[q] == flt[u];
        lemma_entries_map_at::<(u32, Vec<char>), (usize, i64)>(s2, q);
        s2.lemma_filter_pred(p, u);
        let key = s2[q].0;
        assert(ca.contains_key(key));
        let t = choose|t: int| 0 <= t < jh.len() && (#[trigger] jh[t]).1 == ca[key] && away_key(rows[jh[t].1.0 as int]) == key;
        assert(home_entry_ok(rows, gs, jh[t]));
    }
    if keys_unique(rows) {
        assert forall|i: int|
            0 <= i < rows.len() && gs.contains_key(home_key(#[trigger] rows[i])) && gs.contains_key(away_key(rows[i]))
                implies exists|u: int| 0 <= u < js.len() && (#[trigger] js[u]).1.0 == i by {
            let t = choose|t: int| 0 <= t < jh.len() && (#[trigger] jh[t]).1.0 == i;
            let ak = away_key(rows[i]);
            assert(ca.contains_key(away_key(rows[jh[t].1.0 as int])));
            let t2 = choose|t2: int| 0 <= t2 < jh.len() && (#[trigger] jh[t2]).1 == ca[ak] && away_key(rows[jh[t2].1.0 as int]) == ak;
            assert(home_entry_ok(rows, gs, jh[t2]));
            if jh[t2].1.0 != i {
                assert(away_key(rows[jh[t2].1.0 as int]) == away_key(rows[i]));
            }
            let q = choose|q: int| 0 <= q < s2.len() && #[trigger] s2[q].0 == ak;
            lemma_entries_map_at::<(u32, Vec<char>), (usize, i64)>(s2, q);
            s2.lemma_filter_contains(p, q);
            let u = choose|u: int| 0 <= u < flt.len() && flt[u] == s2[q];
            assert(js[u].1.0 == i);
        }
    }
}

/// The joined matches as values: under each away key whose match has a goal
/// superiority for both sides, the match's values and the two goal
/// superiorities.
pub open spec fn joined_values(rows: Seq<RowView>, gs: Map<SupKey, i64>) -> Map<SupKey, (Seq<DataView>, i64, i64)> {
    Map::new(
        |k: SupKey|
            exists|i: int|
                0 <= i < rows.len() && away_key(#[trigger] rows[i]) == k && gs.contains_key(home_key(rows[i]))
                    && gs.contains_key(k),
        |k: SupKey|
            {
                let i = choose|i: int|
                    0 <= i < rows.len() && away_key(#[trigger] rows[i]) == k && gs.contains_key(home_key(rows[i]))
                        && gs.contains_key(k);
                (rows[i].data, gs[home_key(rows[i])], gs[k])
            },
    )
}

/// The joined matches with each record's values in place of its place.
pub open spec fn entry_values(rows: Seq<RowView>, js: Seq<(SupKey, (usize, i64, i64))>) -> Seq<
    (SupKey, (Seq<DataView>, i64, i64)),
> {
    js.map_values(|e: (SupKey, (usize, i64, i64))| (e.0, (rows[e.1.0 as int].data, e.1.1, e.1.2)))
}

proof fn lemma_entry_values(rows: Seq<RowView>, gs: Map<SupKey, i64>)
    requires
        rows.len() <= usize::MAX,
        keys_unique(rows),
    ensures
        entry_values(rows, join_away(rows, gs)) == sorted_entries::<(u32, Vec<char>), (Seq<DataView>, i64, i64)>(
            joined_values(rows, gs),
        ),
{
    let js = join_away(rows, gs);
    lemma_join_away(rows, gs);
    let ev = entry_values(rows, js);
    let jv = joined_values(rows, gs);
    assert(strictly_sorted::<(u32, Vec<char>), (Seq<DataView>, i64, i64)>(ev)) by {
        assert forall|a: int, b: int| 0 <= a < b < ev.len() implies <(u32, Vec<char>) as OrderedKey>::precedes(
            #[trigger] ev[a].0,
            #[trigger] ev[b].0,
        ) by {
            assert(<(u32, Vec<char>) as OrderedKey>::precedes(js[a].0, js[b].0));
        }
    }
    assert(entries_map(ev) =~= jv) by {
        assert forall|k: SupKey| #[trigger] entries_map(ev).contains_key(k) implies jv.contains_key(k) && entries_map(ev)[k]
            == jv[k] by {
            let u = choose|u: int| 0 <= u < ev.len() && #[trigger] ev[u].0 == k;
            lemma_entries_map_at::<(u32, Vec<char>), (Seq<DataView>, i64, i64)>(ev, u);
            assert(away_entry_ok(rows, gs, js[u]));
            let i = js[u].1.0 as int;
            assert(away_key(rows[i]) == k && gs.contains_key(home_key(rows[i])) && gs.contains_key(k));
            let i2 = choose|i2: int|
                0 <= i2 < rows.len() && away_key(#[trigger] rows[i2]) == k && gs.contains_key(home_key(rows[i2]))
                    && gs.contains_key(k);
            if i2 != i {
                assert(away_key(rows[i2]) == away_key(rows[i]));
            }
        }
        assert forall|k: SupKey| #[trigger] jv.contains_key(k) implies entries_map(ev).contains_key(k) by {
            let i = choose|i: int|
                0 <= i < rows.len() && away_key(#[trigger] rows[i]) == k && gs.contains_key(home_key(rows[i]))
                    && gs.contains_key(k);
            let u = choose|u: int| 0 <= u < js.len() && (#[trigger] js[u]).1.0 == i;
            assert(away_entry_ok(rows, gs, js[u]));
            assert(ev[u].0 == k);
        }
    }
    lemma_sorted_entries_of::<(u32, Vec<char>), (Seq<DataView>, i64, i64)>(ev);
}

proof fn lemma_joined_values_same(rows: Seq<RowView>, rows2: Seq<RowView>, gs: Map<SupKey, i64>)
    requires
        rows.to_multiset() == rows2.to_multiset(),
        keys_unique(rows),
    ensures
        joined_values(rows2, gs) == joined_values(rows, gs),
{
    let jv = joined_values(rows, gs);
    let jv2 = joined_values(rows2, gs);
    assert forall|k: SupKey| #[trigger] jv2.contains_key(k) implies jv.contains_key(k) && jv2[k] == jv[k] by {
        let i2 = choose|i2: int|
            0 <= i2 < rows2.len() && away_key(#[trigger] rows2[i2]) == k && gs.contains_key(home_key(rows2[i2]))
                && gs.contains_key(k);
        vstd::seq_lib::to_multiset_contains(rows2, rows2[i2]);
        assert(rows2.contains(rows2[i2]));
        vstd::seq_lib::to_multiset_contains(rows, rows2[i2]);
        let j = choose|j: int| 0 <= j < rows.len() && rows[j] == rows2[i2];
        assert(away_key(rows[j]) == k);
        let i = choose|i: int|
            0 <= i < rows.len() && away_key(#[trigger] rows[i]) == k && gs.contains_key(home_key(rows[i]))
                && gs.contains_key(k);
        if i != j {
            assert(away_key(rows[i]) == away_key(rows[j]));
        }
    }
    assert forall|k: SupKey| #[trigger] jv.contains_key(k) implies jv2.contains_key(k) by {
        let i = choose|i: int|
            0 <= i < rows.len() && away_key(#[trigger] rows[i]) == k && gs.contains_key(home_key(rows[i]))
                && gs.contains_key(k);
        vstd::seq_lib::to_multiset_contains(rows, rows[i]);
        assert(rows.contains(rows[i]));
        vstd::seq_lib::to_multiset_contains(rows2, rows[i]);
        let j = choose|j: int| 0 <= j < rows2.len() && rows2[j] == rows[i];
        assert(away_key(rows2[j]) == k);
    }
    assert(jv2 =~= jv);
}

/// The day of a match: its last value (`Date_chron` in the master table).
pub open spec fn match_day(r: RowView) -> u32 {
    u32_of(r.data.last())
}

/// No team plays twice on one day: two different records on the same day
/// share no team (column 2 the home team, column 3 the away team).
pub open spec fn one_match_per_team_day(rows: Seq<RowView>) -> bool {
    forall|i: int, j: int|
        0 <= i < rows.len() && 0 <= j < rows.len() && i != j && match_day(#[trigger] rows[i]) == match_day(
            #[trigger] rows[j],
        ) ==> {
            &&& text_of(rows[i].data[2]) != text_of(rows[j].data[2])
            &&& text_of(rows[i].data[2]) != text_of(rows[j].data[3])
            &&& text_of(rows[i].data[3]) != text_of(rows[j].data[2])
            &&& text_of(rows[i].data[3]) != text_of(rows[j].data[3])
        }
}

proof fn lemma_count_two(s: Seq<RowView>, i: int, j: int)
    requires
        0 <= i < s.len(),
        0 <= j < s.len(),
        i != j,
        s[i] == s[j],
    ensures
        s.to_multiset().count(s[i]) >= 2,
{
    broadcast use vstd::multiset::group_multiset_axioms;

    let x = s[i];
    vstd::seq_lib::to_multiset_remove(s, i);
    let r = s.remove(i);
    let k = if j < i { j } else { j - 1 };
    assert(r[k] == x);
    vstd::seq_lib::to_multiset_contains(r, x);
    assert(r.contains(x));
    vstd::seq_lib::to_multiset_contains(s, x);
    assert(s.contains(x));
}

proof fn lemma_two_from_count(s: Seq<RowView>, x: RowView)
    requires
        s.to_multiset().count(x) >= 2,
    ensures
        exists|i: int, j: int| 0 <= i < s.len() && 0 <= j < s.len() && i != j && #[trigger] s[i] == x && #[trigger] s[j] == x,
{
    broadcast use vstd::multiset::group_multiset_axioms;

    vstd::seq_lib::to_multiset_contains(s, x);
    let i = choose|i: int| 0 <= i < s.len() && s[i] == x;
    vstd::seq_lib::to_multiset_remove(s, i);
    let r = s.remove(i);
    vstd::seq_lib::to_multiset_contains(r, x);
    let k = choose|k: int| 0 <= k < r.len() && r[k] == x;
    let j = if k < i { k } else { k + 1 };
    assert(s[j] == x);
}

proof fn lemma_keys_unique(rows: Seq<RowView>, rows2: Seq<RowView>)
    requires
        one_match_per_team_day(rows),
        rows.to_multiset() == rows2.to_multiset(),
    ensures
        keys_unique(rows),
        keys_unique(rows2),
{
    assert(keys_unique(rows)) by {
        assert forall|i: int, j: int| 0 <= i < rows.len() && 0 <= j < rows.len() && i != j implies home_key(
            #[trigger] rows[i],
        ) != home_key(#[trigger] rows[j]) && away_key(rows[i]) != away_key(rows[j]) by {
            if home_key(rows[i]) == home_key(rows[j]) || away_key(rows[i]) == away_key(rows[j]) {
                assert(match_day(rows[i]) == match_day(rows[j]));
            }
        }
    }
    assert forall|i: int, j: int| 0 <= i < rows2.len() && 0 <= j < rows2.len() && i != j implies home_key(
        #[trigger] rows2[i],
    ) != home_key(#[trigger] rows2[j]) && away_key(rows2[i]) != away_key(rows2[j]) by {
        if home_key(rows2[i]) == home_key(rows2[j]) || away_key(rows2[i]) == away_key(rows2[j]) {
            vstd::seq_lib::to_multiset_contains(rows2, rows2[i]);
            vstd::seq_lib::to_multiset_contains(rows2, rows2[j]);
            assert(rows2.contains(rows2[i]) && rows2.contains(rows2[j]));
            vstd::seq_lib::to_multiset_contains(rows, rows2[i]);
            vstd::seq_lib::to_multiset_contains(rows, rows2[j]);
            let p = choose|p: int| 0 <= p < rows.len() && rows[p] == rows2[i];
            let q = choose|q: int| 0 <= q < rows.len() && rows[q] == rows2[j];
            assert(p == q);
            lemma_count_two(rows2, i, j);
            lemma_two_from_count(rows, rows2[i]);
            let (a, b) = choose|a: int, b: int| 0 <= a < rows.len() && 0 <= b < rows.len() && a != b && #[trigger] rows[a]
                == rows2[i] && #[trigger] rows[b] == rows2[i];
            assert(home_key(rows[a]) == home_key(rows[b]));
        }
    }
}

/// The goal-superiority table does not depend on the order of the records:
/// when no team plays twice on one day, a table with the same labels, types
/// and records in another order gives the same table, record for record.
pub proof fn law_goal_superiority_order_free(t: TableView, t2: TableView)
    requires
        t2.labels == t.labels,
        t2.datatypes == t.datatypes,
        t2.rows.to_multiset() == t.rows.to_multiset(),
        one_match_per_team_day(t.rows),
        t.rows.len() <= usize::MAX,
    ensures
        goal_superiority_table(t2) == goal_superiority_table(t),
{
    let rows = t.rows;
    let rows2 = t2.rows;
    law_goal_sups_order_free(t, t2);
    let gs = goal_sups(t);
    lemma_keys_unique(rows, rows2);
    vstd::seq_lib::to_multiset_len(rows);
    vstd::seq_lib::to_multiset_len(rows2);
    lemma_entry_values(rows, gs);
    lemma_entry_values(rows2, gs);
    lemma_joined_values_same(rows, rows2, gs);
    let js = join_away(rows, gs);
    let js2 = join_away(rows2, gs);
    let ev = entry_values(rows, js);
    let ev2 = entry_values(rows2, js2);
    assert(ev2 == ev);
    let g = goal_superiority_table(t);
    let g2 = goal_superiority_table(t2);
    assert(js2.len() == js.len());
    assert(g2.rows =~= g.rows) by {
        assert forall|k: int| 0 <= k < g.rows.len() implies g2.rows[k] == g.rows[k] by {
            assert(ev2[k] == ev[k]);
            assert(g2.rows[k].data =~= g.rows[k].data);
        }
    }
}


/// In every record of the goal-superiority table the last three values are
/// integers (`Home_Sup`, `Away_Sup` and `Game_Sup`), and `Game_Sup` is
/// `Home_Sup` minus `Away_Sup`.
pub proof fn law_game_sup_is_difference(t: TableView, k: int)
    requires
        t.rows.len() <= usize::MAX,
        0 <= k < goal_superiority_table(t).rows.len(),
    ensures
        ({
            let d = goal_superiority_table(t).rows[k].data;
            &&& d.len() >= 3
            &&& d[d.len() - 3] is Int
            &&& d[d.len() - 2] is Int
            &&& d[d.len() - 1] is Int
            &&& i64_of(d[d.len() - 1]) == i64_of(d[d.len() - 3]) - i64_of(d[d.len() - 2])
        }),
{
    let gs = goal_sups(t);
    lemma_join_away(t.rows, gs);
    law_goal_sups_bounded(t);
    let js = join_away(t.rows, gs);
    let e = js[k];
    assert(away_entry_ok(t.rows, gs, e));
    assert(goal_superiority_table(t).rows[k] == sup_row(t.rows, e, k));
    let d0 = t.rows[e.1.0 as int].data;
    let d = goal_superiority_table(t).rows[k].data;
    assert(d == d0 + seq![DataView::Int(e.1.1), DataView::Int(e.1.2), DataView::Int((e.1.1 - e.1.2) as i64)]);
    assert(d[d.len() - 3] == DataView::Int(e.1.1));
    assert(d[d.len() - 2] == DataView::Int(e.1.2));
    assert(d[d.len() - 1] == DataView::Int((e.1.1 - e.1.2) as i64));
}

} // verus!
