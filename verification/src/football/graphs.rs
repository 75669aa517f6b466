//! The figures behind the plots and reports: the distribution of match
//! goal superiorities and the betting tallies.

use vstd::prelude::*;
use crate::data::{DataView, RowView};
use crate::football::feature_add::i64_of;
use crate::table::{column_of, rows_reach, FlexTable};

verus! {

broadcast use vstd::seq_lib::group_seq_properties;

/// The lowest edge of the histogram of goal superiorities.
pub const LOW_EDGE: i64 = -26;

/// The number of unit bins of the histogram, from `LOW_EDGE` on.
pub const BINS: usize = 52;

/// The goal superiorities of the matches: the `Int` values of column `c`.
pub open spec fn sup_values(rows: Seq<RowView>, c: int) -> Seq<i64> {
    rows.map_values(|r: RowView| i64_of(r.data[c]))
}

/// The histogram of values over unit bins from `LOW_EDGE`: bin `i` counts
/// the values equal to `LOW_EDGE + i`; values outside the bins are not
/// counted.
pub open spec fn histogram_spec(values: Seq<i64>) -> Seq<usize> {
    Seq::new(BINS as nat, |i: int| values.filter(|x: i64| x == LOW_EDGE + i).len() as usize)
}

/// Every record has an `Int` in column `c`.
pub open spec fn rows_have_int(rows: Seq<RowView>, c: int) -> bool {
    rows_reach(rows, c) && forall|k: int| 0 <= k < rows.len() ==> (#[trigger] rows[k]).data[c] is Int
}

/// The histogram of the goal superiorities (`Game_Sup`) of a table's
/// matches (see `histogram_spec`).
pub fn histogram(df: &FlexTable) -> (r: Vec<usize>)
    requires
        df@.labels.contains("Game_Sup"@),
        rows_have_int(df@.rows, column_of(df@.labels, "Game_Sup"@)),
    ensures
        r@ == histogram_spec(sup_values(df@.rows, column_of(df@.labels, "Game_Sup"@))),
{
    let c = df.column_of_label("Game_Sup");
    let ghost vals = sup_values(df@.rows, c as int);
    let mut counts: Vec<usize> = Vec::new();
    let mut b: usize = 0;
    while b < BINS
        invariant
            b <= BINS,
            counts@.len() == b,
            forall|i: int| 0 <= i < b ==> #[trigger] counts@[i] == 0,
        decreases BINS - b,
    {
        counts.push(0);
        b = b + 1;
    }
    let mut k: usize = 0;
    while k < df.data.len()
        invariant
            k <= df@.rows.len(),
            c == column_of(df@.labels, "Game_Sup"@),
            rows_have_int(df@.rows, c as int),
            vals == sup_values(df@.rows, c as int),
            counts@.len() == BINS,
            forall|i: int|
                0 <= i < BINS ==> #[trigger] counts@[i] == vals.take(k as int).filter(
                    |x: i64| x == LOW_EDGE + i,
                ).len() && counts@[i] <= k,
        decreases df@.rows.len() - k,
    {
        let g = &df.data[k];
        assert(g@ == df@.rows[k as int]);
        assert(c < g@.data.len());
        assert(g@.data[c as int] == g.data@[c as int]@);
        let v: i64 = match g.data[c].as_i64() {
            Some(v) => v,
            None => 0,
        };
        assert(v == vals[k as int]);
        let ghost old_counts = counts@;
        if LOW_EDGE <= v && v < LOW_EDGE + BINS as i64 {
            let at = (v - LOW_EDGE) as usize;
            let cur = counts[at];
            counts.set(at, cur + 1);
        }
        assert(vals.take(k + 1) =~= vals.take(k as int).push(vals[k as int]));
        assert forall|i: int| 0 <= i < BINS implies #[trigger] counts@[i] == vals.take(k + 1).filter(
            |x: i64| x == LOW_EDGE + i,
        ).len() && counts@[i] <= k + 1 by {
            vals.take(k as int).lemma_filter_push(vals[k as int], |x: i64| x == LOW_EDGE + i);
        }
        k = k + 1;
    }
    assert(vals.take(k as int) =~= vals);
    assert(counts@ =~= histogram_spec(vals));
    counts
}

/// The tallies of the bets on one outcome at one goal superiority: the
/// matches, the blind bets won (the outcome came), the stakes (a bet was
/// placed) and the bets won (placed and the outcome came).
pub open spec fn bet_counts_spec(v: Seq<(bool, bool)>) -> (usize, usize, usize, usize) {
    (
        v.len() as usize,
        v.filter(|x: (bool, bool)| x.1).len() as usize,
        v.filter(|x: (bool, bool)| x.0).len() as usize,
        v.filter(|x: (bool, bool)| x.0 && x.1).len() as usize,
    )
}

/// Tallies bets, each given as (placed, outcome came) (see
/// `bet_counts_spec`).
pub fn bet_counts(v: &Vec<(bool, bool)>) -> (r: (usize, usize, usize, usize))
    ensures
        r == bet_counts_spec(v@),
{
    let mut blind: usize = 0;
    let mut stakes: usize = 0;
    let mut won: usize = 0;
    let mut i: usize = 0;
    let ghost p1 = |x: (bool, bool)| x.1;
    let ghost p2 = |x: (bool, bool)| x.0;
    let ghost p3 = |x: (bool, bool)| x.0 && x.1;
    while i < v.len()
        invariant
            i <= v@.len(),
            p1 == (|x: (bool, bool)| x.1),
            p2 == (|x: (bool, bool)| x.0),
            p3 == (|x: (bool, bool)| x.0 && x.1),
            blind == v@.take(i as int).filter(p1).len(),
            stakes == v@.take(i as int).filter(p2).len(),
            won == v@.take(i as int).filter(p3).len(),
            blind <= i && stakes <= i && won <= i,
        decreases v@.len() - i,
    {
        proof {
            v@.take(i as int).lemma_filter_push(v@[i as int], p1);
            v@.take(i as int).lemma_filter_push(v@[i as int], p2);
            v@.take(i as int).lemma_filter_push(v@[i as int], p3);
            assert(v@.take(i + 1) =~= v@.take(i as int).push(v@[i as int]));
        }
        let (placed, came) = v[i];
        if came {
            blind = blind + 1;
        }
        if placed {
            stakes = stakes + 1;
        }
        if placed && came {
            won = won + 1;
        }
        i = i + 1;
    }
    assert(v@.take(i as int) =~= v@);
    (v.len(), blind, stakes, won)
}

} // verus!
