//! Tables of records: columns, grouping, filtering and reading records.

use vstd::prelude::*;
use crate::data::{
    data_from_token, data_text, data_views, duplicate_data, generate_flexdata_from_str, DataView,
    FlexData, FlexDataType, FlexDataVector, FlexIndex, RowView,
};
use crate::text::{copy_text, rank_text, string_chars, Rank};

verus! {

broadcast use vstd::seq_lib::group_seq_properties;

/// The characters of a string slice.
pub fn str_chars(s: &str) -> (r: Vec<char>)
    ensures
        r@ == s@,
{
    let n = s.unicode_len();
    let mut r: Vec<char> = Vec::new();
    let mut i: usize = 0;
    while i < n
        invariant
            n == s@.len(),
            i <= n,
            r@ == s@.take(i as int),
        decreases n - i,
    {
        r.push(s.get_char(i));
        i = i + 1;
        assert(r@ =~= s@.take(i as int));
    }
    assert(s@.take(i as int) =~= s@);
    r
}

/// Whether two texts are equal.
pub fn same_text(a: &Vec<char>, b: &Vec<char>) -> (r: bool)
    ensures
        r == (a@ == b@),
{
    match rank_text(a, b) {
        Rank::Same => true,
        _ => false,
    }
}

/// A table: labels and types of its columns, and its records.
#[derive(Debug)]
pub struct FlexTable {
    pub labels: Vec<String>,
    pub datatypes: Vec<FlexDataType>,
    pub data: Vec<FlexDataVector>,
}

/// What a table holds.
pub struct TableView {
    pub labels: Seq<Seq<char>>,
    pub datatypes: Seq<FlexDataType>,
    pub rows: Seq<RowView>,
}

/// The views of a list of strings.
pub open spec fn text_views(v: Seq<String>) -> Seq<Seq<char>> {
    v.map_values(|s: String| s@)
}

/// The views of a list of records.
pub open spec fn row_views(v: Seq<FlexDataVector>) -> Seq<RowView> {
    v.map_values(|r: FlexDataVector| r@)
}

impl View for FlexTable {
    type V = TableView;

    open spec fn view(&self) -> TableView {
        TableView {
            labels: text_views(self.labels@),
            datatypes: self.datatypes@,
            rows: row_views(self.data@),
        }
    }
}

/// `i` is the first column labelled `l`.
pub open spec fn is_first_label(labels: Seq<Seq<char>>, l: Seq<char>, i: int) -> bool {
    0 <= i < labels.len() && labels[i] == l && forall|j: int| 0 <= j < i ==> labels[j] != l
}

/// The first column labelled `l` (meaningful when there is one).
pub open spec fn column_of(labels: Seq<Seq<char>>, l: Seq<char>) -> int {
    choose|i: int| is_first_label(labels, l, i)
}

/// Every record has a value in column `c`.
pub open spec fn rows_reach(rows: Seq<RowView>, c: int) -> bool {
    forall|k: int| 0 <= k < rows.len() ==> c < (#[trigger] rows[k]).data.len()
}

/// The text of a record's value in column `c`, by which records are grouped.
pub open spec fn key_at(r: RowView, c: int) -> Seq<char> {
    data_text(r.data[c])
}

/// The distinct keys of column `c`, in order of first appearance.
pub open spec fn group_keys(rows: Seq<RowView>, c: int) -> Seq<Seq<char>>
    decreases rows.len(),
{
    if rows.len() == 0 {
        Seq::empty()
    } else {
        let ks = group_keys(rows.drop_last(), c);
        let k = key_at(rows.last(), c);
        if ks.contains(k) {
            ks
        } else {
            ks.push(k)
        }
    }
}

/// The records whose key in column `c` is `k`, in their order.
pub open spec fn group_rows(rows: Seq<RowView>, c: int, k: Seq<char>) -> Seq<RowView> {
    rows.filter(|r: RowView| key_at(r, c) == k)
}

/// The records that hold something other than the empty string in column
/// `c`.
pub open spec fn not_blank_rows(rows: Seq<RowView>, c: int) -> Seq<RowView> {
    rows.filter(|r: RowView| r.data[c] != DataView::Str(Seq::empty()))
}

/// Every element of a filtered sequence is an element of the sequence.
pub proof fn lemma_filter_from<A>(s: Seq<A>, p: spec_fn(A) -> bool, i: int)
    requires
        0 <= i < s.filter(p).len(),
    ensures
        s.contains(s.filter(p)[i]),
    decreases s.len(),
{
    reveal(Seq::filter);
    let sub = s.drop_last().filter(p);
    if i < sub.len() {
        lemma_filter_from(s.drop_last(), p, i);
        let j = choose|j: int| 0 <= j < s.drop_last().len() && s.drop_last()[j] == sub[i];
        assert(s[j] == s.filter(p)[i]);
    } else {
        assert(s[s.len() - 1] == s.filter(p)[i]);
    }
}

/// A key among the group keys is the key of some record.
pub proof fn lemma_group_key_from(rows: Seq<RowView>, c: int, k: Seq<char>)
    requires
        group_keys(rows, c).contains(k),
    ensures
        exists|i: int| 0 <= i < rows.len() && key_at(#[trigger] rows[i], c) == k,
    decreases rows.len(),
{
    let ks = group_keys(rows.drop_last(), c);
    if ks.contains(k) {
        lemma_group_key_from(rows.drop_last(), c, k);
        let i = choose|i: int| 0 <= i < rows.drop_last().len() && key_at(#[trigger] rows.drop_last()[i], c) == k;
        assert(rows[i] == rows.drop_last()[i]);
    } else {
        assert(key_at(rows[rows.len() - 1], c) == k);
    }
}

/// The key of every record is a group key.
pub proof fn lemma_key_in_group_keys(rows: Seq<RowView>, c: int, i: int)
    requires
        0 <= i < rows.len(),
    ensures
        group_keys(rows, c).contains(key_at(rows[i], c)),
    decreases rows.len(),
{
    let r0 = rows.drop_last();
    let ks = group_keys(r0, c);
    if i < r0.len() {
        lemma_key_in_group_keys(r0, c, i);
        assert(r0[i] == rows[i]);
        if !ks.contains(key_at(rows.last(), c)) {
            let q = choose|q: int| 0 <= q < ks.len() && ks[q] == key_at(rows[i], c);
            assert(ks.push(key_at(rows.last(), c))[q] == key_at(rows[i], c));
        }
    } else {
        if !ks.contains(key_at(rows.last(), c)) {
            assert(ks.push(key_at(rows.last(), c))[ks.len() as int] == key_at(rows.last(), c));
        }
    }
}

/// The records of a group, as a multiset, are those of the records with
/// the group's key.
pub proof fn lemma_group_rows_multiset(s: Seq<RowView>, c: int, k: Seq<char>)
    ensures
        group_rows(s, c, k).to_multiset() == s.to_multiset().filter(|r: RowView| key_at(r, c) == k),
    decreases s.len(),
{
    broadcast use vstd::multiset::group_multiset_axioms;

    if s.len() == 0 {
        reveal(Seq::filter);
        assert(group_rows(s, c, k) =~= s);
        assert(s.to_multiset() =~= vstd::multiset::Multiset::<RowView>::empty());
        assert(s.to_multiset().filter(|r: RowView| key_at(r, c) == k) =~= s.to_multiset());
    } else {
        let s0 = s.drop_last();
        let x = s.last();
        lemma_group_rows_multiset(s0, c, k);
        lemma_group_rows_push(s, c, k);
        assert(s0.push(x) =~= s);
        vstd::seq_lib::to_multiset_build(s0, x);
        vstd::seq_lib::to_multiset_build(group_rows(s0, c, k), x);
        assert(group_rows(s, c, k).to_multiset() =~= s.to_multiset().filter(|r: RowView| key_at(r, c) == k));
    }
}

/// Records that are the same multiset have the same groups, as multisets.
pub proof fn lemma_group_rows_same(a: Seq<RowView>, b: Seq<RowView>, c: int, k: Seq<char>)
    requires
        a.to_multiset() == b.to_multiset(),
    ensures
        group_rows(a, c, k).to_multiset() == group_rows(b, c, k).to_multiset(),
{
    lemma_group_rows_multiset(a, c, k);
    lemma_group_rows_multiset(b, c, k);
}

/// A key is a group key exactly when some record has it.
pub proof fn lemma_group_keys_contains(rows: Seq<RowView>, c: int, k: Seq<char>)
    ensures
        group_keys(rows, c).contains(k) <==> exists|i: int| 0 <= i < rows.len() && key_at(#[trigger] rows[i], c) == k,
{
    if group_keys(rows, c).contains(k) {
        lemma_group_key_from(rows, c, k);
    }
    if exists|i: int| 0 <= i < rows.len() && key_at(#[trigger] rows[i], c) == k {
        let i = choose|i: int| 0 <= i < rows.len() && key_at(#[trigger] rows[i], c) == k;
        lemma_key_in_group_keys(rows, c, i);
    }
}

/// Records that are the same multiset have the same group keys, as a
/// multiset.
pub proof fn lemma_group_keys_same(a: Seq<RowView>, b: Seq<RowView>, c: int)
    requires
        a.to_multiset() == b.to_multiset(),
    ensures
        group_keys(a, c).to_multiset() == group_keys(b, c).to_multiset(),
{
    broadcast use vstd::multiset::group_multiset_axioms;

    let ka = group_keys(a, c);
    let kb = group_keys(b, c);
    lemma_group_keys_distinct(a, c);
    lemma_group_keys_distinct(b, c);
    ka.lemma_multiset_has_no_duplicates();
    kb.lemma_multiset_has_no_duplicates();
    assert forall|k: Seq<char>| ka.to_multiset().count(k) == kb.to_multiset().count(k) by {
        lemma_group_keys_contains(a, c, k);
        lemma_group_keys_contains(b, c, k);
        vstd::seq_lib::to_multiset_contains(ka, k);
        vstd::seq_lib::to_multiset_contains(kb, k);
        if ka.contains(k) {
            let i = choose|i: int| 0 <= i < a.len() && key_at(#[trigger] a[i], c) == k;
            vstd::seq_lib::to_multiset_contains(a, a[i]);
            assert(a.contains(a[i]));
            vstd::seq_lib::to_multiset_contains(b, a[i]);
            let j = choose|j: int| 0 <= j < b.len() && b[j] == a[i];
            assert(key_at(b[j], c) == k);
        }
        if kb.contains(k) {
            let i = choose|i: int| 0 <= i < b.len() && key_at(#[trigger] b[i], c) == k;
            vstd::seq_lib::to_multiset_contains(b, b[i]);
            assert(b.contains(b[i]));
            vstd::seq_lib::to_multiset_contains(a, b[i]);
            let j = choose|j: int| 0 <= j < a.len() && a[j] == b[i];
            assert(key_at(a[j], c) == k);
        }
    }
    assert(ka.to_multiset() =~= kb.to_multiset());
}

/// The records of a group reach every column that all records reach.
pub proof fn lemma_rows_reach_group(rows: Seq<RowView>, c: int, g: int, k: Seq<char>)
    requires
        rows_reach(rows, c),
    ensures
        rows_reach(group_rows(rows, g, k), c),
{
    let gr = group_rows(rows, g, k);
    assert forall|i: int| 0 <= i < gr.len() implies c < (#[trigger] gr[i]).data.len() by {
        lemma_filter_from(rows, |r: RowView| key_at(r, g) == k, i);
        let j = choose|j: int| 0 <= j < rows.len() && rows[j] == gr[i];
        assert(c < rows[j].data.len());
    }
}

/// The first column of a file with the given header, if any.
pub open spec fn file_column(header_row: Seq<Seq<char>>, h: Seq<char>) -> Option<usize> {
    if header_row.contains(h) {
        Some(column_of(header_row, h) as usize)
    } else {
        None
    }
}

/// The field of a record under a header (the empty text when there is
/// none).
pub open spec fn record_token(header_row: Seq<Seq<char>>, rec: Seq<Seq<char>>, h: Seq<char>) -> Seq<char> {
    match file_column(header_row, h) {
        Some(c) => if (c as int) < rec.len() {
            rec[c as int]
        } else {
            Seq::empty()
        },
        None => Seq::empty(),
    }
}

/// Record `k` of a file read with the requested headers and types.
pub open spec fn record_row(
    header_row: Seq<Seq<char>>,
    recs: Seq<Seq<Seq<char>>>,
    headers: Seq<Seq<char>>,
    types: Seq<FlexDataType>,
    k: int,
) -> RowView {
    RowView {
        index: k as usize,
        data: Seq::new(
            headers.len(),
            |j: int| data_from_token(record_token(header_row, recs[k], headers[j]), types[j]),
        ),
    }
}

/// The table of a file read with the requested headers and types.
pub open spec fn records_table(
    header_row: Seq<Seq<char>>,
    recs: Seq<Seq<Seq<char>>>,
    headers: Seq<Seq<char>>,
    types: Seq<FlexDataType>,
) -> TableView {
    TableView {
        labels: headers,
        datatypes: types,
        rows: Seq::new(recs.len(), |k: int| record_row(header_row, recs, headers, types, k)),
    }
}

/// The number of records in the groups of the keys `ks`.
pub open spec fn groups_total(rows: Seq<RowView>, c: int, ks: Seq<Seq<char>>) -> int
    decreases ks.len(),
{
    if ks.len() == 0 {
        0
    } else {
        groups_total(rows, c, ks.drop_last()) + group_rows(rows, c, ks.last()).len()
    }
}

/// The records of a group, as one more record comes last.
pub proof fn lemma_group_rows_push(rows: Seq<RowView>, c: int, k: Seq<char>)
    requires
        rows.len() > 0,
    ensures
        group_rows(rows, c, k) == if key_at(rows.last(), c) == k {
            group_rows(rows.drop_last(), c, k).push(rows.last())
        } else {
            group_rows(rows.drop_last(), c, k)
        },
{
    let p = |r: RowView| key_at(r, c) == k;
    rows.drop_last().lemma_filter_push(rows.last(), p);
    assert(rows.drop_last().push(rows.last()) =~= rows);
}

/// The group keys are distinct.
pub proof fn lemma_group_keys_distinct(rows: Seq<RowView>, c: int)
    ensures
        group_keys(rows, c).no_duplicates(),
    decreases rows.len(),
{
    if rows.len() > 0 {
        lemma_group_keys_distinct(rows.drop_last(), c);
        let ks = group_keys(rows.drop_last(), c);
        let k = key_at(rows.last(), c);
        if !ks.contains(k) {
            let ks2 = ks.push(k);
            assert forall|a: int, b: int| 0 <= a < ks2.len() && 0 <= b < ks2.len() && a != b implies ks2[a] != ks2[b] by {
                if a < ks.len() && b < ks.len() {
                } else if a == ks.len() {
                    assert(ks2[b] == ks[b]);
                } else {
                    assert(ks2[a] == ks[a]);
                }
            }
        }
    }
}

/// A key that is not a group key has no records.
pub proof fn lemma_no_group_rows(rows: Seq<RowView>, c: int, k: Seq<char>)
    requires
        !group_keys(rows, c).contains(k),
    ensures
        group_rows(rows, c, k).len() == 0,
    decreases rows.len(),
{
    if rows.len() == 0 {
        reveal(Seq::filter);
    } else {
        lemma_group_rows_push(rows, c, k);
        let ks = group_keys(rows.drop_last(), c);
        if ks.contains(k) {
            let i = choose|i: int| 0 <= i < ks.len() && ks[i] == k;
            assert(group_keys(rows, c).contains(k)) by {
                if !ks.contains(key_at(rows.last(), c)) {
                    assert(ks.push(key_at(rows.last(), c))[i] == k);
                }
            }
        }
        if key_at(rows.last(), c) == k {
            if !ks.contains(k) {
                assert(ks.push(k)[ks.len() as int] == k);
            }
        }
        lemma_no_group_rows(rows.drop_last(), c, k);
    }
}

proof fn lemma_groups_total_step(rows: Seq<RowView>, c: int, ks: Seq<Seq<char>>)
    requires
        rows.len() > 0,
        ks.no_duplicates(),
    ensures
        groups_total(rows, c, ks) == groups_total(rows.drop_last(), c, ks) + if ks.contains(
            key_at(rows.last(), c),
        ) {
            1int
        } else {
            0int
        },
    decreases ks.len(),
{
    if ks.len() > 0 {
        let kl = ks.drop_last();
        assert(kl.no_duplicates()) by {
            assert forall|a: int, b: int| 0 <= a < kl.len() && 0 <= b < kl.len() && a != b implies kl[a] != kl[b] by {
                assert(kl[a] == ks[a] && kl[b] == ks[b]);
            }
        }
        lemma_groups_total_step(rows, c, kl);
        lemma_group_rows_push(rows, c, ks.last());
        let x = key_at(rows.last(), c);
        if kl.contains(x) {
            let i = choose|i: int| 0 <= i < kl.len() && kl[i] == x;
            assert(ks[i] == x);
            if ks.last() == x {
                assert(ks[ks.len() - 1] == ks[i]);
            }
            assert(ks.contains(x));
        } else if ks.last() == x {
            assert(ks[ks.len() - 1] == x);
        } else {
            if ks.contains(x) {
                let i = choose|i: int| 0 <= i < ks.len() && ks[i] == x;
                assert(kl[i] == x);
            }
        }
    }
}

/// The groups of a column hold all the records: their sizes add up to the
/// number of records.
pub proof fn lemma_groups_cover(rows: Seq<RowView>, c: int)
    ensures
        groups_total(rows, c, group_keys(rows, c)) == rows.len(),
    decreases rows.len(),
{
    if rows.len() > 0 {
        let r0 = rows.drop_last();
        let ks = group_keys(r0, c);
        let x = key_at(rows.last(), c);
        lemma_groups_cover(r0, c);
        lemma_group_keys_distinct(r0, c);
        lemma_groups_total_step(rows, c, ks);
        if !ks.contains(x) {
            lemma_no_group_rows(r0, c, x);
            lemma_group_rows_push(rows, c, x);
            assert(ks.push(x).drop_last() =~= ks);
        }
    }
}

proof fn lemma_groups_total_prepend(rows: Seq<RowView>, c: int, x: Seq<char>, ks: Seq<Seq<char>>)
    ensures
        groups_total(rows, c, seq![x] + ks) == group_rows(rows, c, x).len() + groups_total(rows, c, ks),
    decreases ks.len(),
{
    if ks.len() == 0 {
        assert((seq![x] + ks).drop_last() =~= Seq::<Seq<char>>::empty());
    } else {
        lemma_groups_total_prepend(rows, c, x, ks.drop_last());
        assert((seq![x] + ks).drop_last() =~= seq![x] + ks.drop_last());
    }
}

proof fn lemma_groups_total_insert(rows: Seq<RowView>, c: int, s: Seq<Seq<char>>, x: Seq<char>)
    ensures
        groups_total(rows, c, crate::ordmap::insert_in_order::<Vec<char>>(s, x)) == groups_total(rows, c, s)
            + group_rows(rows, c, x).len(),
    decreases s.len(),
{
    if s.len() == 0 {
        assert(seq![x].drop_last() =~= Seq::<Seq<char>>::empty());
    } else if !<Vec<char> as crate::ordmap::OrderedKey>::precedes(s[0], x) {
        lemma_groups_total_prepend(rows, c, x, s);
    } else {
        lemma_groups_total_insert(rows, c, s.drop_first(), x);
        lemma_groups_total_prepend(rows, c, s[0], crate::ordmap::insert_in_order::<Vec<char>>(s.drop_first(), x));
        lemma_groups_total_prepend(rows, c, s[0], s.drop_first());
        assert(seq![s[0]] + s.drop_first() =~= s);
    }
}

/// Sorting keys does not change the number of records in their groups.
pub proof fn lemma_groups_total_sorted(rows: Seq<RowView>, c: int, ks: Seq<Seq<char>>)
    ensures
        groups_total(rows, c, crate::ordmap::sort_keys_spec::<Vec<char>>(ks)) == groups_total(rows, c, ks),
    decreases ks.len(),
{
    if ks.len() > 0 {
        lemma_groups_total_sorted(rows, c, ks.drop_last());
        lemma_groups_total_insert(rows, c, crate::ordmap::sort_keys_spec::<Vec<char>>(ks.drop_last()), ks.last());
    }
}

/// The sum of a sequence of counts.
pub open spec fn count_sum(s: Seq<usize>) -> int
    decreases s.len(),
{
    if s.len() == 0 {
        0
    } else {
        count_sum(s.drop_last()) + s.last()
    }
}

/// The sizes of the groups of the keys `ks`.
pub open spec fn group_sizes(rows: Seq<RowView>, c: int, ks: Seq<Seq<char>>) -> Seq<usize> {
    ks.map_values(|k: Seq<char>| group_rows(rows, c, k).len() as usize)
}

/// The sizes of the groups of some keys add up to the number of their
/// records.
pub proof fn lemma_group_sizes_total(rows: Seq<RowView>, c: int, ks: Seq<Seq<char>>)
    requires
        rows.len() <= usize::MAX,
    ensures
        count_sum(group_sizes(rows, c, ks)) == groups_total(rows, c, ks),
    decreases ks.len(),
{
    if ks.len() > 0 {
        lemma_group_sizes_total(rows, c, ks.drop_last());
        assert(group_sizes(rows, c, ks).drop_last() =~= group_sizes(rows, c, ks.drop_last()));
        rows.lemma_filter_len(|r: RowView| key_at(r, c) == ks.last());
    }
}

/// The groups of a column, taken in the order of their keys, hold all the
/// records: their sizes add up to the number of records.
pub proof fn lemma_sorted_group_sizes(rows: Seq<RowView>, c: int)
    requires
        rows.len() <= usize::MAX,
    ensures
        count_sum(group_sizes(rows, c, crate::ordmap::sort_keys_spec::<Vec<char>>(group_keys(rows, c))))
            == rows.len(),
{
    let ks = group_keys(rows, c);
    lemma_group_sizes_total(rows, c, crate::ordmap::sort_keys_spec::<Vec<char>>(ks));
    lemma_groups_total_sorted(rows, c, ks);
    lemma_groups_cover(rows, c);
}

/// A copy of a list of records.
pub fn duplicate_rows(v: &Vec<FlexDataVector>) -> (r: Vec<FlexDataVector>)
    ensures
        row_views(r@) == row_views(v@),
{
    let mut r: Vec<FlexDataVector> = Vec::new();
    let mut i: usize = 0;
    while i < v.len()
        invariant
            i <= v@.len(),
            r@.len() == i,
            forall|k: int| 0 <= k < i ==> (#[trigger] r@[k])@ == v@[k]@,
        decreases v@.len() - i,
    {
        r.push(v[i].duplicate());
        i = i + 1;
    }
    assert(row_views(r@) =~= row_views(v@));
    r
}

/// A copy of a list of strings.
pub fn duplicate_texts(v: &Vec<String>) -> (r: Vec<String>)
    ensures
        text_views(r@) == text_views(v@),
{
    let mut r: Vec<String> = Vec::new();
    let mut i: usize = 0;
    while i < v.len()
        invariant
            i <= v@.len(),
            r@.len() == i,
            forall|k: int| 0 <= k < i ==> (#[trigger] r@[k])@ == v@[k]@,
        decreases v@.len() - i,
    {
        r.push(v[i].clone());
        i = i + 1;
    }
    assert(text_views(r@) =~= text_views(v@));
    r
}

/// A copy of a list of column types.
pub fn duplicate_types(v: &Vec<FlexDataType>) -> (r: Vec<FlexDataType>)
    ensures
        r@ == v@,
{
    let mut r: Vec<FlexDataType> = Vec::new();
    let mut i: usize = 0;
    while i < v.len()
        invariant
            i <= v@.len(),
            r@ == v@.take(i as int),
        decreases v@.len() - i,
    {
        r.push(v[i]);
        i = i + 1;
        assert(r@ =~= v@.take(i as int));
    }
    assert(v@.take(i as int) =~= v@);
    r
}

/// Whether `k` is among the texts `ks`; the place of its first occurrence.
pub fn find_text(ks: &Vec<Vec<char>>, k: &Vec<char>) -> (r: Option<usize>)
    ensures
        r matches Some(i) ==> i < ks@.len() && ks@[i as int]@ == k@,
        r is None ==> forall|i: int| 0 <= i < ks@.len() ==> (#[trigger] ks@[i])@ != k@,
{
    let mut i: usize = 0;
    while i < ks.len()
        invariant
            i <= ks@.len(),
            forall|j: int| 0 <= j < i ==> (#[trigger] ks@[j])@ != k@,
        decreases ks@.len() - i,
    {
        if same_text(&ks[i], k) {
            return Some(i);
        }
        i = i + 1;
    }
    None
}

/// The texts of records of text fields.
pub open spec fn record_texts(v: Seq<Vec<String>>) -> Seq<Seq<Seq<char>>> {
    v.map_values(|rec: Vec<String>| text_views(rec@))
}

/// What the csv crate reads from the bytes of a CSV file (flexible record
/// lengths): its header row and the text fields of its records; `None`
/// where it reports an error (such as a field that is not UTF-8).
pub uninterp spec fn csv_text_records(bytes: Seq<u8>) -> Option<(Seq<Seq<char>>, Seq<Seq<Seq<char>>>)>;

/// Parses CSV bytes with `csv::ReaderBuilder` (flexible): `Reader::headers`,
/// then `Reader::records`. The contract claims that the header row and the
/// records are a function of the bytes (named `csv_text_records`) and that
/// the call fails exactly where that gives `None`; the text of the error is
/// left unsaid.
#[verifier::external_body]
fn parse_csv_text(bytes: &Vec<u8>) -> (r: Result<(Vec<String>, Vec<Vec<String>>), String>)
    ensures
        r is Ok <==> csv_text_records(bytes@) is Some,
        r matches Ok(p) ==> csv_text_records(bytes@) == Some((text_views(p.0@), record_texts(p.1@))),
{
    let mut rdr = csv::ReaderBuilder::new().flexible(true).from_reader(bytes.as_slice());
    let headers: Vec<String> = rdr.headers().map_err(|e| e.to_string())?.iter().map(|h| h.to_string()).collect();
    let records: Result<Vec<Vec<String>>, csv::Error> =
        rdr.records().map(|r| r.map(|r| r.iter().map(|f| f.to_string()).collect())).collect();
    Ok((headers, records.map_err(|e| e.to_string())?))
}

impl FlexTable {
    /// A table of the given records.
    pub fn from_vecs(labels: Vec<String>, datatypes: Vec<FlexDataType>, data: Vec<FlexDataVector>) -> (r:
        FlexTable)
        ensures
            r@ == (TableView {
                labels: text_views(labels@),
                datatypes: datatypes@,
                rows: row_views(data@),
            }),
    {
        FlexTable { labels, datatypes, data }
    }

    pub fn get_labels(&self) -> (r: &Vec<String>)
        ensures
            text_views(r@) == self@.labels,
    {
        &self.labels
    }

    pub fn get_datatypes(&self) -> (r: &Vec<FlexDataType>)
        ensures
            r@ == self@.datatypes,
    {
        &self.datatypes
    }

    pub fn get_data(&self) -> (r: &Vec<FlexDataVector>)
        ensures
            row_views(r@) == self@.rows,
    {
        &self.data
    }

    /// The number of records.
    pub fn num_records(&self) -> (r: usize)
        ensures
            r == self@.rows.len(),
    {
        self.data.len()
    }

    /// A copy of the table.
    pub fn duplicate(&self) -> (r: FlexTable)
        ensures
            r@ == self@,
    {
        FlexTable {
            labels: duplicate_texts(&self.labels),
            datatypes: duplicate_types(&self.datatypes),
            data: duplicate_rows(&self.data),
        }
    }

    /// The first column with the given label.
    pub fn column_index(&self, label: &str) -> (r: Option<usize>)
        ensures
            r matches Some(i) ==> is_first_label(self@.labels, label@, i as int),
            r is None ==> !self@.labels.contains(label@),
    {
        let l = str_chars(label);
        let mut i: usize = 0;
        while i < self.labels.len()
            invariant
                i <= self.labels@.len(),
                l@ == label@,
                forall|j: int| 0 <= j < i ==> self@.labels[j] != label@,
            decreases self.labels@.len() - i,
        {
            let c = string_chars(&self.labels[i]);
            if same_text(&c, &l) {
                return Some(i);
            }
            i = i + 1;
        }
        None
    }

    /// The records whose value in column `c` has text `k`, as a table with
    /// the same columns.
    pub fn rows_with_key(&self, c: usize, k: &Vec<char>, keys: &Vec<Vec<char>>) -> (r: FlexTable)
        requires
            keys@.len() == self@.rows.len(),
            forall|i: int| 0 <= i < keys@.len() ==> (#[trigger] keys@[i])@ == key_at(self@.rows[i], c as int),
        ensures
            r@ == (TableView { rows: group_rows(self@.rows, c as int, k@), ..self@ }),
    {
        let mut out: Vec<FlexDataVector> = Vec::new();
        let mut i: usize = 0;
        while i < self.data.len()
            invariant
                i <= self@.rows.len(),
                keys@.len() == self@.rows.len(),
                forall|j: int| 0 <= j < keys@.len() ==> (#[trigger] keys@[j])@ == key_at(self@.rows[j], c as int),
                row_views(out@) == group_rows(self@.rows.take(i as int), c as int, k@),
            decreases self@.rows.len() - i,
        {
            let ghost before = row_views(out@);
            assert(self@.rows.take(i + 1) =~= self@.rows.take(i as int).push(self@.rows[i as int]));
            proof {
                let p = |r: RowView| key_at(r, c as int) == k@;
                self@.rows.take(i as int).lemma_filter_push(self@.rows[i as int], p);
                assert(group_rows(self@.rows.take(i + 1), c as int, k@) == self@.rows.take(i + 1).filter(p));
            }
            if same_text(&keys[i], k) {
                out.push(self.data[i].duplicate());
                assert(row_views(out@) =~= before.push(self@.rows[i as int]));
            }
            i = i + 1;
        }
        assert(self@.rows.take(i as int) =~= self@.rows);
        FlexTable {
            labels: duplicate_texts(&self.labels),
            datatypes: duplicate_types(&self.datatypes),
            data: out,
        }
    }

    /// The records that hold something other than the empty string in the
    /// column with the given label (`filter_any` of that column with the
    /// test "not the empty string").
    pub fn drop_blank(&self, label: &str) -> (r: FlexTable)
        requires
            self@.labels.contains(label@),
            rows_reach(self@.rows, column_of(self@.labels, label@)),
        ensures
            r@ == (TableView {
                rows: not_blank_rows(self@.rows, column_of(self@.labels, label@)),
                ..self@
            }),
    {
        let c = self.column_of_label(label);
        let ghost p = |r: RowView| r.data[c as int] != DataView::Str(Seq::empty());
        let mut out: Vec<FlexDataVector> = Vec::new();
        let mut i: usize = 0;
        while i < self.data.len()
            invariant
                i <= self@.rows.len(),
                c == column_of(self@.labels, label@),
                rows_reach(self@.rows, c as int),
                p == (|r: RowView| r.data[c as int] != DataView::Str(Seq::empty())),
                row_views(out@) == self@.rows.take(i as int).filter(p),
            decreases self@.rows.len() - i,
        {
            proof {
                self@.rows.take(i as int).lemma_filter_push(self@.rows[i as int], p);
                assert(self@.rows.take(i + 1) =~= self@.rows.take(i as int).push(self@.rows[i as int]));
            }
            let row = &self.data[i];
            assert(row@ == self@.rows[i as int]);
            assert(c < row@.data.len());
            assert(row@.data[c as int] == row.data@[c as int]@);
            let blank = match &row.data[c] {
                FlexData::Str(s) => s.as_str().is_empty(),
                _ => false,
            };
            if !blank {
                let ghost before = row_views(out@);
                out.push(row.duplicate());
                assert(row_views(out@) =~= before.push(self@.rows[i as int]));
            }
            i = i + 1;
        }
        assert(self@.rows.take(i as int) =~= self@.rows);
        FlexTable {
            labels: duplicate_texts(&self.labels),
            datatypes: duplicate_types(&self.datatypes),
            data: out,
        }
    }

    /// Reads a table from the bytes of a CSV file whose first row names its
    /// columns (see `from_records`), or the csv crate's error.
    pub fn from_csv_bytes(bytes: &Vec<u8>, headers: &Vec<String>, datatypes: &Vec<FlexDataType>) -> (r: Result<
        FlexTable,
        String,
    >)
        requires
            headers@.len() == datatypes@.len(),
        ensures
            r is Ok <==> csv_text_records(bytes@) is Some,
            r matches Ok(t) ==> ({
                let (h, rs) = csv_text_records(bytes@).unwrap();
                t@ == records_table(h, rs, text_views(headers@), datatypes@)
            }),
    {
        match parse_csv_text(bytes) {
            Ok((header_row, records)) => {
                let t = FlexTable::from_records(&header_row, &records, headers, datatypes);
                assert(records@.map_values(|rec: Vec<String>| text_views(rec@)) == record_texts(records@));
                Ok(t)
            },
            Err(e) => Err(e),
        }
    }

    /// Reads a table from a file's header row and its records of text
    /// fields: one column for each requested header, typed as requested,
    /// filled from the first column of the file with that header (the empty
    /// text where the file or the record has none).
    pub fn from_records(
        header_row: &Vec<String>,
        records: &Vec<Vec<String>>,
        headers: &Vec<String>,
        datatypes: &Vec<FlexDataType>,
    ) -> (r: FlexTable)
        requires
            headers@.len() == datatypes@.len(),
        ensures
            r@ == records_table(
                text_views(header_row@),
                records@.map_values(|rec: Vec<String>| text_views(rec@)),
                text_views(headers@),
                datatypes@,
            ),
    {
        let ghost hr = text_views(header_row@);
        let ghost recs = records@.map_values(|rec: Vec<String>| text_views(rec@));
        let ghost hs = text_views(headers@);
        let mut cols: Vec<Option<usize>> = Vec::new();
        let mut j: usize = 0;
        while j < headers.len()
            invariant
                j <= headers@.len(),
                hr == text_views(header_row@),
                hs == text_views(headers@),
                cols@.len() == j,
                forall|t: int| 0 <= t < j ==> #[trigger] cols@[t] == file_column(hr, hs[t]),
            decreases headers@.len() - j,
        {
            let want = string_chars(&headers[j]);
            let mut found: Option<usize> = None;
            let mut c: usize = 0;
            while c < header_row.len()
                invariant
                    c <= header_row@.len(),
                    hr == text_views(header_row@),
                    want@ == hs[j as int],
                    found is None ==> forall|x: int| 0 <= x < c ==> hr[x] != hs[j as int],
                    found matches Some(x) ==> is_first_label(hr, hs[j as int], x as int),
                decreases header_row@.len() - c,
            {
                if found.is_none() {
                    let have = string_chars(&header_row[c]);
                    if same_text(&have, &want) {
                        found = Some(c);
                    }
                }
                c = c + 1;
            }
            proof {
                match found {
                    Some(x) => {
                        let y = column_of(hr, hs[j as int]);
                        assert(is_first_label(hr, hs[j as int], y));
                        if y < x {
                        } else if y > x {
                        }
                    },
                    None => {
                        assert(!hr.contains(hs[j as int]));
                    },
                }
            }
            cols.push(found);
            j = j + 1;
        }
        let ghost want = records_table(hr, recs, hs, datatypes@);
        let mut rows: Vec<FlexDataVector> = Vec::new();
        let mut k: usize = 0;
        while k < records.len()
            invariant
                k <= records@.len(),
                hr == text_views(header_row@),
                hs == text_views(headers@),
                recs == records@.map_values(|rec: Vec<String>| text_views(rec@)),
                want == records_table(hr, recs, hs, datatypes@),
                headers@.len() == datatypes@.len(),
                cols@.len() == headers@.len(),
                forall|t: int| 0 <= t < cols@.len() ==> #[trigger] cols@[t] == file_column(hr, hs[t]),
                rows@.len() == k,
                forall|t: int| 0 <= t < k ==> (#[trigger] rows@[t])@ == want.rows[t],
            decreases records@.len() - k,
        {
            let rec = &records[k];
            assert(text_views(rec@) == recs[k as int]);
            let mut data: Vec<FlexData> = Vec::new();
            let mut j: usize = 0;
            while j < headers.len()
                invariant
                    j <= headers@.len(),
                    k < records@.len(),
                    rec == records@[k as int],
                    text_views(rec@) == recs[k as int],
                    headers@.len() == datatypes@.len(),
                    cols@.len() == headers@.len(),
                    forall|t: int| 0 <= t < cols@.len() ==> #[trigger] cols@[t] == file_column(hr, hs[t]),
                    data@.len() == j,
                    forall|t: int|
                        0 <= t < j ==> (#[trigger] data@[t])@ == data_from_token(
                            record_token(hr, recs[k as int], hs[t]),
                            datatypes@[t],
                        ),
                decreases headers@.len() - j,
            {
                let token: String = match cols[j] {
                    Some(c) => {
                        if c < rec.len() {
                            rec[c].clone()
                        } else {
                            String::new()
                        }
                    },
                    None => String::new(),
                };
                data.push(generate_flexdata_from_str(&token, &datatypes[j]));
                j = j + 1;
            }
            let ghost dv = data_views(data@);
            assert(dv =~= want.rows[k as int].data) by {
                assert forall|t: int| 0 <= t < headers@.len() implies #[trigger] dv[t] == want.rows[k as int].data[t] by {
                    assert(dv[t] == data@[t]@);
                }
            }
            rows.push(FlexDataVector::new(FlexIndex::Uint(k), data));
            k = k + 1;
        }
        let r = FlexTable {
            labels: duplicate_texts(headers),
            datatypes: duplicate_types(datatypes),
            data: rows,
        };
        assert(r@.rows =~= want.rows) by {
            assert forall|t: int| 0 <= t < r@.rows.len() implies #[trigger] r@.rows[t] == want.rows[t] by {
                assert(r@.rows[t] == r.data@[t]@);
            }
        }
        r
    }

    /// The text of each record's value in column `c`.
    pub fn key_texts(&self, c: usize) -> (r: Vec<Vec<char>>)
        requires
            rows_reach(self@.rows, c as int),
        ensures
            r@.len() == self@.rows.len(),
            forall|i: int| 0 <= i < r@.len() ==> (#[trigger] r@[i])@ == key_at(self@.rows[i], c as int),
    {
        let mut keys: Vec<Vec<char>> = Vec::new();
        let mut i: usize = 0;
        while i < self.data.len()
            invariant
                i <= self@.rows.len(),
                rows_reach(self@.rows, c as int),
                keys@.len() == i,
                forall|j: int| 0 <= j < i ==> (#[trigger] keys@[j])@ == key_at(self@.rows[j], c as int),
            decreases self@.rows.len() - i,
        {
            assert(c < self@.rows[i as int].data.len());
            assert(self.data@[i as int]@.data[c as int] == self.data@[i as int].data@[c as int]@);
            keys.push(self.data[i].data[c].to_text());
            i = i + 1;
        }
        keys
    }

    /// The distinct texts of the values in column `c`, in order of first
    /// appearance.
    pub fn distinct_keys(&self, c: usize) -> (r: Vec<Vec<char>>)
        requires
            rows_reach(self@.rows, c as int),
        ensures
            r@.map_values(|v: Vec<char>| v@) == group_keys(self@.rows, c as int),
    {
        let keys = self.key_texts(c);
        let mut distinct: Vec<Vec<char>> = Vec::new();
        let mut i: usize = 0;
        while i < keys.len()
            invariant
                i <= self@.rows.len(),
                keys@.len() == self@.rows.len(),
                forall|j: int| 0 <= j < keys@.len() ==> (#[trigger] keys@[j])@ == key_at(self@.rows[j], c as int),
                distinct@.map_values(|v: Vec<char>| v@) == group_keys(self@.rows.take(i as int), c as int),
            decreases self@.rows.len() - i,
        {
            let ghost old_d = distinct@.map_values(|v: Vec<char>| v@);
            let ghost t = self@.rows.take(i + 1);
            assert(t.drop_last() =~= self@.rows.take(i as int));
            assert(t.last() == self@.rows[i as int]);
            match find_text(&distinct, &keys[i]) {
                Some(g) => {
                    assert(old_d[g as int] == keys@[i as int]@);
                    assert(old_d.contains(keys@[i as int]@));
                },
                None => {
                    assert(!old_d.contains(keys@[i as int]@));
                    distinct.push(copy_text(&keys[i]));
                    assert(distinct@.map_values(|v: Vec<char>| v@) =~= old_d.push(keys@[i as int]@));
                },
            }
            i = i + 1;
        }
        assert(self@.rows.take(i as int) =~= self@.rows);
        distinct
    }

    /// The place of the column with the given label, when there is one.
    pub fn column_of_label(&self, label: &str) -> (r: usize)
        requires
            self@.labels.contains(label@),
        ensures
            r == column_of(self@.labels, label@),
    {
        match self.column_index(label) {
            Some(c) => {
                proof {
                    let c2 = column_of(self@.labels, label@);
                    assert(is_first_label(self@.labels, label@, c2));
                    if c2 < c {
                    } else if c2 > c {
                    }
                }
                c
            },
            None => {
                assert(false);
                0
            },
        }
    }

    /// Groups the records by the text of their value in the column with the
    /// given label: one table per distinct text, in order of first
    /// appearance, holding the records with that text in their order.
    pub fn group_by(&self, label: &str) -> (r: Vec<(String, FlexTable)>)
        requires
            self@.labels.contains(label@),
            rows_reach(self@.rows, column_of(self@.labels, label@)),
        ensures
            ({
                let c = column_of(self@.labels, label@);
                let ks = group_keys(self@.rows, c);
                &&& r@.len() == ks.len()
                &&& forall|g: int|
                    0 <= g < ks.len() ==> (#[trigger] r@[g]).0@ == ks[g] && r@[g].1@ == (TableView {
                        rows: group_rows(self@.rows, c, ks[g]),
                        ..self@
                    })
            }),
    {
        let c = self.column_of_label(label);
        let keys = self.key_texts(c);
        let distinct = self.distinct_keys(c);
        let ghost ks = group_keys(self@.rows, c as int);
        let mut r: Vec<(String, FlexTable)> = Vec::new();
        let mut g: usize = 0;
        while g < distinct.len()
            invariant
                g <= distinct@.len(),
                distinct@.map_values(|v: Vec<char>| v@) == ks,
                ks == group_keys(self@.rows, c as int),
                c == column_of(self@.labels, label@),
                keys@.len() == self@.rows.len(),
                forall|j: int| 0 <= j < keys@.len() ==> (#[trigger] keys@[j])@ == key_at(self@.rows[j], c as int),
                r@.len() == g,
                forall|h: int|
                    0 <= h < g ==> (#[trigger] r@[h]).0@ == ks[h] && r@[h].1@ == (TableView {
                        rows: group_rows(self@.rows, c as int, ks[h]),
                        ..self@
                    }),
            decreases distinct@.len() - g,
        {
            let t = self.rows_with_key(c, &distinct[g], &keys);
            let name = crate::text::text_to_string(&distinct[g]);
            assert(distinct@[g as int]@ == ks[g as int]);
            r.push((name, t));
            g = g + 1;
        }
        r
    }
}

} // verus!
