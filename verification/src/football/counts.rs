//! Counting the matches at each goal superiority.

use vstd::prelude::*;
use std::collections::BTreeMap;
use crate::football::feature_add::{lemma_one_hot_count_bound, one_hot_count};

verus! {

broadcast use vstd::std_specs::btree::group_btree_axioms, vstd::laws_cmp::group_laws_cmp;

/// The number of entries of a one-hot list with each of its values (see
/// `one_hot_count`).
pub fn value_counts(l: &Vec<(i64, (u8, u8, u8))>) -> (r: BTreeMap<i64, usize>)
    ensures
        forall|v: i64| #[trigger] r@.contains_key(v) <==> one_hot_count(l@, v, 3) > 0,
        forall|v: i64| #[trigger] r@.contains_key(v) ==> r@[v] == one_hot_count(l@, v, 3),
{
    let mut m: BTreeMap<i64, usize> = BTreeMap::new();
    let mut i: usize = 0;
    while i < l.len()
        invariant
            i <= l@.len(),
            forall|v: i64| #[trigger] m@.contains_key(v) <==> one_hot_count(l@.take(i as int), v, 3) > 0,
            forall|v: i64| #[trigger] m@.contains_key(v) ==> m@[v] == one_hot_count(l@.take(i as int), v, 3),
        decreases l@.len() - i,
    {
        let v = l[i].0;
        assert(l@.take(i + 1).drop_last() =~= l@.take(i as int));
        proof {
            lemma_one_hot_count_bound(l@.take(i as int), v, 3);
        }
        let c: usize = match m.get(&v) {
            Some(n) => *n,
            None => 0,
        };
        m.insert(v, c + 1);
        i = i + 1;
    }
    assert(l@.take(i as int) =~= l@);
    m
}

} // verus!
