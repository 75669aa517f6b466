//! Maps kept as lists of entries in ascending key order, the ordered maps of
//! the football logic (keys of match dates and team names, of seasons and
//! divisions, of header names).

use vstd::prelude::*;
use crate::text::{lemma_text_lt_irreflexive, lemma_text_lt_total, rank_text, text_lt, Rank};

verus! {

broadcast use vstd::seq_lib::group_seq_properties;

/// Keys with a strict total order and a way to compare them.
pub trait OrderedKey: View + Sized {
    /// `a` comes before `b`.
    spec fn precedes(a: Self::V, b: Self::V) -> bool;

    proof fn lemma_irreflexive(a: Self::V)
        ensures
            !Self::precedes(a, a),
    ;

    proof fn lemma_transitive(a: Self::V, b: Self::V, c: Self::V)
        requires
            Self::precedes(a, b),
            Self::precedes(b, c),
        ensures
            Self::precedes(a, c),
    ;

    proof fn lemma_total(a: Self::V, b: Self::V)
        ensures
            a == b || Self::precedes(a, b) || Self::precedes(b, a),
    ;

    /// Where `self` stands against `other`.
    fn rank(&self, other: &Self) -> (r: Rank)
        ensures
            r == Rank::Before <==> Self::precedes(self@, other@),
            r == Rank::Same <==> self@ == other@,
            r == Rank::After <==> Self::precedes(other@, self@),
    ;

    /// A copy of the key.
    fn copy_key(&self) -> (r: Self)
        ensures
            r@ == self@,
    ;
}

proof fn lemma_text_lt_transitive(a: Seq<char>, b: Seq<char>, c: Seq<char>)
    requires
        text_lt(a, b),
        text_lt(b, c),
    ensures
        text_lt(a, c),
{
    let ab_prefix = a.len() < b.len() && a == b.take(a.len() as int);
    let bc_prefix = b.len() < c.len() && b == c.take(b.len() as int);
    if ab_prefix && bc_prefix {
        assert(a =~= c.take(a.len() as int));
    } else if ab_prefix {
        let j = choose|j: int|
            0 <= j < b.len() && j < c.len() && #[trigger] b.take(j) == c.take(j) && (b[j] as u32) < (
            c[j] as u32);
        if j < a.len() {
            assert(a.take(j) =~= b.take(j));
            assert(a[j] == b[j]);
            assert(a.take(j) == c.take(j));
        } else {
            assert(a =~= c.take(a.len() as int)) by {
                assert forall|t: int| 0 <= t < a.len() implies a[t] == c[t] by {
                    assert(a[t] == b[t]);
                    assert(b.take(j)[t] == c.take(j)[t]);
                }
            }
        }
    } else if bc_prefix {
        let i = choose|i: int|
            0 <= i < a.len() && i < b.len() && #[trigger] a.take(i) == b.take(i) && (a[i] as u32) < (
            b[i] as u32);
        assert(b.take(i) =~= c.take(i));
        assert(b[i] == c[i]);
        assert(a.take(i) == c.take(i));
    } else {
        let i = choose|i: int|
            0 <= i < a.len() && i < b.len() && #[trigger] a.take(i) == b.take(i) && (a[i] as u32) < (
            b[i] as u32);
        let j = choose|j: int|
            0 <= j < b.len() && j < c.len() && #[trigger] b.take(j) == c.take(j) && (b[j] as u32) < (
            c[j] as u32);
        if i < j {
            assert(b.take(i) =~= c.take(i)) by {
                assert forall|t: int| 0 <= t < i implies b[t] == c[t] by {
                    assert(b.take(j)[t] == c.take(j)[t]);
                }
            }
            assert(b[i] == c[i]) by {
                assert(b.take(j)[i] == c.take(j)[i]);
            }
            assert(a.take(i) == c.take(i));
        } else if j < i {
            assert(a.take(j) =~= b.take(j)) by {
                assert forall|t: int| 0 <= t < j implies a[t] == b[t] by {
                    assert(a.take(i)[t] == b.take(i)[t]);
                }
            }
            assert(a[j] == b[j]) by {
                assert(a.take(i)[j] == b.take(i)[j]);
            }
            assert(a.take(j) == c.take(j));
        } else {
            assert(a.take(i) == c.take(i));
        }
    }
}

impl OrderedKey for Vec<char> {
    open spec fn precedes(a: Seq<char>, b: Seq<char>) -> bool {
        text_lt(a, b)
    }

    proof fn lemma_irreflexive(a: Seq<char>) {
        lemma_text_lt_irreflexive(a);
    }

    proof fn lemma_transitive(a: Seq<char>, b: Seq<char>, c: Seq<char>) {
        lemma_text_lt_transitive(a, b, c);
    }

    proof fn lemma_total(a: Seq<char>, b: Seq<char>) {
        lemma_text_lt_total(a, b);
    }

    fn rank(&self, other: &Self) -> (r: Rank) {
        rank_text(self, other)
    }

    fn copy_key(&self) -> (r: Self) {
        crate::text::copy_text(self)
    }
}

impl OrderedKey for u32 {
    open spec fn precedes(a: u32, b: u32) -> bool {
        a < b
    }

    proof fn lemma_irreflexive(a: u32) {
    }

    proof fn lemma_transitive(a: u32, b: u32, c: u32) {
    }

    proof fn lemma_total(a: u32, b: u32) {
    }

    fn rank(&self, other: &Self) -> (r: Rank) {
        if *self < *other {
            Rank::Before
        } else if *self == *other {
            Rank::Same
        } else {
            Rank::After
        }
    }

    fn copy_key(&self) -> (r: Self) {
        *self
    }
}

impl OrderedKey for usize {
    open spec fn precedes(a: usize, b: usize) -> bool {
        a < b
    }

    proof fn lemma_irreflexive(a: usize) {
    }

    proof fn lemma_transitive(a: usize, b: usize, c: usize) {
    }

    proof fn lemma_total(a: usize, b: usize) {
    }

    fn rank(&self, other: &Self) -> (r: Rank) {
        if *self < *other {
            Rank::Before
        } else if *self == *other {
            Rank::Same
        } else {
            Rank::After
        }
    }

    fn copy_key(&self) -> (r: Self) {
        *self
    }
}

impl OrderedKey for u128 {
    open spec fn precedes(a: u128, b: u128) -> bool {
        a < b
    }

    proof fn lemma_irreflexive(a: u128) {
    }

    proof fn lemma_transitive(a: u128, b: u128, c: u128) {
    }

    proof fn lemma_total(a: u128, b: u128) {
    }

    fn rank(&self, other: &Self) -> (r: Rank) {
        if *self < *other {
            Rank::Before
        } else if *self == *other {
            Rank::Same
        } else {
            Rank::After
        }
    }

    fn copy_key(&self) -> (r: Self) {
        *self
    }
}

impl OrderedKey for i128 {
    open spec fn precedes(a: i128, b: i128) -> bool {
        a < b
    }

    proof fn lemma_irreflexive(a: i128) {
    }

    proof fn lemma_transitive(a: i128, b: i128, c: i128) {
    }

    proof fn lemma_total(a: i128, b: i128) {
    }

    fn rank(&self, other: &Self) -> (r: Rank) {
        if *self < *other {
            Rank::Before
        } else if *self == *other {
            Rank::Same
        } else {
            Rank::After
        }
    }

    fn copy_key(&self) -> (r: Self) {
        *self
    }
}

impl OrderedKey for i64 {
    open spec fn precedes(a: i64, b: i64) -> bool {
        a < b
    }

    proof fn lemma_irreflexive(a: i64) {
    }

    proof fn lemma_transitive(a: i64, b: i64, c: i64) {
    }

    proof fn lemma_total(a: i64, b: i64) {
    }

    fn rank(&self, other: &Self) -> (r: Rank) {
        if *self < *other {
            Rank::Before
        } else if *self == *other {
            Rank::Same
        } else {
            Rank::After
        }
    }

    fn copy_key(&self) -> (r: Self) {
        *self
    }
}

/// Pairs are ordered by their first part, then by their second.
impl<A: OrderedKey, B: OrderedKey> OrderedKey for (A, B) {
    open spec fn precedes(a: (A::V, B::V), b: (A::V, B::V)) -> bool {
        A::precedes(a.0, b.0) || (a.0 == b.0 && B::precedes(a.1, b.1))
    }

    proof fn lemma_irreflexive(a: (A::V, B::V)) {
        A::lemma_irreflexive(a.0);
        B::lemma_irreflexive(a.1);
    }

    proof fn lemma_transitive(a: (A::V, B::V), b: (A::V, B::V), c: (A::V, B::V)) {
        if A::precedes(a.0, b.0) && A::precedes(b.0, c.0) {
            A::lemma_transitive(a.0, b.0, c.0);
        }
        if a.0 == b.0 && b.0 == c.0 && B::precedes(a.1, b.1) && B::precedes(b.1, c.1) {
            B::lemma_transitive(a.1, b.1, c.1);
        }
    }

    proof fn lemma_total(a: (A::V, B::V), b: (A::V, B::V)) {
        A::lemma_total(a.0, b.0);
        B::lemma_total(a.1, b.1);
    }

    fn rank(&self, other: &Self) -> (r: Rank) {
        proof {
            A::lemma_irreflexive(self.0@);
            A::lemma_irreflexive(other.0@);
            B::lemma_irreflexive(self.1@);
        }
        match self.0.rank(&other.0) {
            Rank::Before => {
                proof {
                    if A::precedes(other.0@, self.0@) {
                        A::lemma_transitive(self.0@, other.0@, self.0@);
                    }
                }
                Rank::Before
            },
            Rank::After => {
                proof {
                    if A::precedes(self.0@, other.0@) {
                        A::lemma_transitive(self.0@, other.0@, self.0@);
                    }
                }
                Rank::After
            },
            Rank::Same => {
                let r = self.1.rank(&other.1);
                proof {
                    if B::precedes(self.1@, other.1@) && B::precedes(other.1@, self.1@) {
                        B::lemma_transitive(self.1@, other.1@, self.1@);
                    }
                }
                r
            },
        }
    }

    fn copy_key(&self) -> (r: Self) {
        (self.0.copy_key(), self.1.copy_key())
    }
}

/// `x` put into `s` before the first element that it does not follow.
pub open spec fn insert_in_order<K: OrderedKey>(s: Seq<K::V>, x: K::V) -> Seq<K::V>
    decreases s.len(),
{
    if s.len() == 0 {
        seq![x]
    } else if !K::precedes(s[0], x) {
        seq![x] + s
    } else {
        seq![s[0]] + insert_in_order::<K>(s.drop_first(), x)
    }
}

/// Insertion sort: the elements of `s` in ascending order.
pub open spec fn sort_keys_spec<K: OrderedKey>(s: Seq<K::V>) -> Seq<K::V>
    decreases s.len(),
{
    if s.len() == 0 {
        s
    } else {
        insert_in_order::<K>(sort_keys_spec::<K>(s.drop_last()), s.last())
    }
}

/// The elements of a list are in ascending order (equal ones side by side).
pub open spec fn ascending<K: OrderedKey>(s: Seq<K::V>) -> bool {
    forall|i: int, j: int| 0 <= i < j < s.len() ==> !K::precedes(#[trigger] s[j], #[trigger] s[i])
}

#[verifier::spinoff_prover]
proof fn lemma_insert_in_order_at<K: OrderedKey>(s: Seq<K::V>, x: K::V, p: int)
    requires
        0 <= p <= s.len(),
        forall|i: int| 0 <= i < p ==> K::precedes(#[trigger] s[i], x),
        p < s.len() ==> !K::precedes(s[p], x),
    ensures
        insert_in_order::<K>(s, x) == s.insert(p, x),
    decreases p,
{
    if p == 0 {
        assert(seq![x] + s =~= s.insert(0, x));
    } else {
        let t = s.drop_first();
        assert forall|i: int| 0 <= i < p - 1 implies K::precedes(#[trigger] t[i], x) by {
            assert(t[i] == s[i + 1]);
        }
        if p - 1 < t.len() {
            assert(t[p - 1] == s[p]);
        }
        lemma_insert_in_order_at::<K>(t, x, p - 1);
        assert(seq![s[0]] + t.insert(p - 1, x) =~= s.insert(p, x));
    }
}

proof fn lemma_insert_in_order_contains<K: OrderedKey>(s: Seq<K::V>, x: K::V, y: K::V)
    requires
        y == x || s.contains(y),
    ensures
        insert_in_order::<K>(s, x).contains(y),
    decreases s.len(),
{
    if s.len() == 0 {
        assert(seq![x][0] == x);
    } else if !K::precedes(s[0], x) {
        if y == x {
            assert((seq![x] + s)[0] == x);
        } else {
            let i = choose|i: int| 0 <= i < s.len() && s[i] == y;
            assert((seq![x] + s)[i + 1] == y);
        }
    } else {
        let t = s.drop_first();
        let r = insert_in_order::<K>(t, x);
        if y == s[0] {
            assert((seq![s[0]] + r)[0] == y);
        } else {
            if y != x {
                let i = choose|i: int| 0 <= i < s.len() && s[i] == y;
                assert(t[i - 1] == y);
            }
            lemma_insert_in_order_contains::<K>(t, x, y);
            let j = choose|j: int| 0 <= j < r.len() && r[j] == y;
            assert((seq![s[0]] + r)[j + 1] == y);
        }
    }
}

proof fn lemma_insert_in_order_from<K: OrderedKey>(s: Seq<K::V>, x: K::V, y: K::V)
    requires
        insert_in_order::<K>(s, x).contains(y),
    ensures
        y == x || s.contains(y),
    decreases s.len(),
{
    let r = insert_in_order::<K>(s, x);
    let i = choose|i: int| 0 <= i < r.len() && r[i] == y;
    if s.len() == 0 {
    } else if !K::precedes(s[0], x) {
        if i > 0 {
            assert(s[i - 1] == y);
        }
    } else {
        let t = s.drop_first();
        if i > 0 {
            let r2 = insert_in_order::<K>(t, x);
            assert(r2[i - 1] == y);
            lemma_insert_in_order_from::<K>(t, x, y);
            if y != x {
                let q = choose|q: int| 0 <= q < t.len() && t[q] == y;
                assert(s[q + 1] == y);
            }
        }
    }
}

/// Every element of a sorted list comes from the list.
pub proof fn lemma_sort_from<K: OrderedKey>(s: Seq<K::V>, y: K::V)
    requires
        sort_keys_spec::<K>(s).contains(y),
    ensures
        s.contains(y),
    decreases s.len(),
{
    if s.len() > 0 {
        let r = s.drop_last();
        lemma_insert_in_order_from::<K>(sort_keys_spec::<K>(r), s.last(), y);
        if y != s.last() {
            lemma_sort_from::<K>(r, y);
            let i = choose|i: int| 0 <= i < r.len() && r[i] == y;
            assert(s[i] == y);
        } else {
            assert(s[s.len() - 1] == y);
        }
    }
}

/// Sorting keeps every element of a list.
pub proof fn lemma_sort_contains<K: OrderedKey>(s: Seq<K::V>, y: K::V)
    requires
        s.contains(y),
    ensures
        sort_keys_spec::<K>(s).contains(y),
    decreases s.len(),
{
    let r = s.drop_last();
    if y != s.last() {
        let i = choose|i: int| 0 <= i < s.len() && s[i] == y;
        assert(r[i] == y);
        lemma_sort_contains::<K>(r, y);
    }
    lemma_insert_in_order_contains::<K>(sort_keys_spec::<K>(r), s.last(), y);
}

proof fn lemma_insert_in_order_multiset<K: OrderedKey>(s: Seq<K::V>, x: K::V)
    ensures
        insert_in_order::<K>(s, x).to_multiset() == s.to_multiset().insert(x),
    decreases s.len(),
{
    broadcast use vstd::multiset::group_multiset_axioms;
    broadcast use vstd::seq_lib::lemma_multiset_commutative;

    if s.len() == 0 {
        assert(seq![x] =~= s.push(x));
        vstd::seq_lib::to_multiset_build(s, x);
    } else if !K::precedes(s[0], x) {
        assert(seq![x] =~= Seq::<K::V>::empty().push(x));
        vstd::seq_lib::to_multiset_build(Seq::<K::V>::empty(), x);
        assert(Seq::<K::V>::empty().to_multiset() =~= vstd::multiset::Multiset::<K::V>::empty());
        assert((seq![x] + s).to_multiset() =~= s.to_multiset().insert(x));
    } else {
        let t = s.drop_first();
        lemma_insert_in_order_multiset::<K>(t, x);
        assert(seq![s[0]] =~= Seq::<K::V>::empty().push(s[0]));
        vstd::seq_lib::to_multiset_build(Seq::<K::V>::empty(), s[0]);
        assert(Seq::<K::V>::empty().to_multiset() =~= vstd::multiset::Multiset::<K::V>::empty());
        assert(seq![s[0]] + t =~= s);
        assert((seq![s[0]] + insert_in_order::<K>(t, x)).to_multiset() =~= s.to_multiset().insert(x));
    }
}

/// Sorting keeps the elements of a list, each as often.
pub proof fn lemma_sort_multiset<K: OrderedKey>(s: Seq<K::V>)
    ensures
        sort_keys_spec::<K>(s).to_multiset() == s.to_multiset(),
    decreases s.len(),
{
    if s.len() > 0 {
        lemma_sort_multiset::<K>(s.drop_last());
        lemma_insert_in_order_multiset::<K>(sort_keys_spec::<K>(s.drop_last()), s.last());
        assert(s.drop_last().push(s.last()) =~= s);
        vstd::seq_lib::to_multiset_build(s.drop_last(), s.last());
    }
}

proof fn lemma_insert_in_order_ascending<K: OrderedKey>(s: Seq<K::V>, x: K::V)
    requires
        ascending::<K>(s),
    ensures
        ascending::<K>(insert_in_order::<K>(s, x)),
    decreases s.len(),
{
    let r = insert_in_order::<K>(s, x);
    if s.len() == 0 {
    } else if !K::precedes(s[0], x) {
        assert forall|i: int, j: int| 0 <= i < j < r.len() implies !K::precedes(#[trigger] r[j], #[trigger] r[i]) by {
            if i == 0 {
                assert(r[j] == s[j - 1]);
                if j - 1 > 0 {
                    assert(!K::precedes(s[j - 1], s[0]));
                }
                if K::precedes(s[j - 1], x) {
                    K::lemma_total(s[0], x);
                    if s[0] != x {
                        if K::precedes(x, s[0]) {
                            K::lemma_transitive(s[j - 1], x, s[0]);
                        }
                    }
                }
            } else {
                assert(r[i] == s[i - 1] && r[j] == s[j - 1]);
            }
        }
    } else {
        let t = s.drop_first();
        assert(ascending::<K>(t)) by {
            assert forall|i: int, j: int| 0 <= i < j < t.len() implies !K::precedes(#[trigger] t[j], #[trigger] t[i]) by {
                assert(t[i] == s[i + 1] && t[j] == s[j + 1]);
            }
        }
        lemma_insert_in_order_ascending::<K>(t, x);
        let q = insert_in_order::<K>(t, x);
        assert forall|i: int, j: int| 0 <= i < j < r.len() implies !K::precedes(#[trigger] r[j], #[trigger] r[i]) by {
            if i == 0 {
                assert(r[j] == q[j - 1]);
                lemma_insert_in_order_multiset::<K>(t, x);
                assert(q.to_multiset().count(q[j - 1]) > 0) by {
                    vstd::seq_lib::to_multiset_contains(q, q[j - 1]);
                    assert(q.contains(q[j - 1]));
                }
                let y = q[j - 1];
                if y != x {
                    assert(t.to_multiset().count(y) > 0) by {
                        broadcast use vstd::multiset::group_multiset_axioms;
                    }
                    vstd::seq_lib::to_multiset_contains(t, y);
                    let k = choose|k: int| 0 <= k < t.len() && t[k] == y;
                    assert(s[k + 1] == y);
                } else {
                    if K::precedes(x, s[0]) {
                        K::lemma_transitive(s[0], x, s[0]);
                        K::lemma_irreflexive(s[0]);
                    }
                }
            } else {
                assert(r[i] == q[i - 1] && r[j] == q[j - 1]);
            }
        }
    }
}

/// A sorted list is in ascending order.
pub proof fn lemma_sort_ascending<K: OrderedKey>(s: Seq<K::V>)
    ensures
        ascending::<K>(sort_keys_spec::<K>(s)),
    decreases s.len(),
{
    if s.len() > 0 {
        lemma_sort_ascending::<K>(s.drop_last());
        lemma_insert_in_order_ascending::<K>(sort_keys_spec::<K>(s.drop_last()), s.last());
    }
}

proof fn lemma_ascending_unique<K: OrderedKey>(a: Seq<K::V>, b: Seq<K::V>)
    requires
        ascending::<K>(a),
        ascending::<K>(b),
        a.to_multiset() == b.to_multiset(),
    ensures
        a == b,
    decreases a.len(),
{
    broadcast use vstd::multiset::group_multiset_axioms;

    vstd::seq_lib::to_multiset_len(a);
    vstd::seq_lib::to_multiset_len(b);
    if a.len() == 0 {
        assert(a =~= b);
    } else {
        let x = a[0];
        let y = b[0];
        vstd::seq_lib::to_multiset_contains(b, y);
        assert(b.contains(y));
        vstd::seq_lib::to_multiset_contains(a, y);
        let i = choose|i: int| 0 <= i < a.len() && a[i] == y;
        vstd::seq_lib::to_multiset_contains(a, x);
        assert(a.contains(x));
        vstd::seq_lib::to_multiset_contains(b, x);
        let j = choose|j: int| 0 <= j < b.len() && b[j] == x;
        if i > 0 {
            assert(!K::precedes(a[i], a[0]));
        }
        if j > 0 {
            assert(!K::precedes(b[j], b[0]));
        }
        K::lemma_total(x, y);
        assert(x == y);
        let a2 = a.drop_first();
        let b2 = b.drop_first();
        vstd::seq_lib::to_multiset_remove(a, 0);
        vstd::seq_lib::to_multiset_remove(b, 0);
        assert(a.remove(0) =~= a2);
        assert(b.remove(0) =~= b2);
        assert(ascending::<K>(a2)) by {
            assert forall|p: int, q: int| 0 <= p < q < a2.len() implies !K::precedes(#[trigger] a2[q], #[trigger] a2[p]) by {
                assert(a2[p] == a[p + 1] && a2[q] == a[q + 1]);
            }
        }
        assert(ascending::<K>(b2)) by {
            assert forall|p: int, q: int| 0 <= p < q < b2.len() implies !K::precedes(#[trigger] b2[q], #[trigger] b2[p]) by {
                assert(b2[p] == b[p + 1] && b2[q] == b[q + 1]);
            }
        }
        lemma_ascending_unique::<K>(a2, b2);
        assert(a =~= b) by {
            assert forall|p: int| 0 <= p < a.len() implies a[p] == b[p] by {
                if p > 0 {
                    assert(a[p] == a2[p - 1] && b[p] == b2[p - 1]);
                }
            }
        }
    }
}

/// Lists with the same elements, each as often, sort to the same list.
pub proof fn lemma_sort_same_multiset<K: OrderedKey>(a: Seq<K::V>, b: Seq<K::V>)
    requires
        a.to_multiset() == b.to_multiset(),
    ensures
        sort_keys_spec::<K>(a) == sort_keys_spec::<K>(b),
{
    lemma_sort_multiset::<K>(a);
    lemma_sort_multiset::<K>(b);
    lemma_sort_ascending::<K>(a);
    lemma_sort_ascending::<K>(b);
    lemma_ascending_unique::<K>(sort_keys_spec::<K>(a), sort_keys_spec::<K>(b));
}

/// Lists with the same elements, each as often, map to such lists.
pub proof fn lemma_map_same_multiset<A, B>(a: Seq<A>, b: Seq<A>, f: spec_fn(A) -> B)
    requires
        a.to_multiset() == b.to_multiset(),
    ensures
        a.map_values(f).to_multiset() == b.map_values(f).to_multiset(),
    decreases a.len(),
{
    broadcast use vstd::multiset::group_multiset_axioms;

    vstd::seq_lib::to_multiset_len(a);
    vstd::seq_lib::to_multiset_len(b);
    if a.len() == 0 {
        assert(a.map_values(f) =~= b.map_values(f));
    } else {
        let a0 = a.drop_last();
        let x = a.last();
        assert(a0.push(x) =~= a);
        vstd::seq_lib::to_multiset_build(a0, x);
        vstd::seq_lib::to_multiset_contains(b, x);
        assert(b.to_multiset().count(x) > 0);
        let j = choose|j: int| 0 <= j < b.len() && b[j] == x;
        let b0 = b.remove(j);
        vstd::seq_lib::to_multiset_remove(b, j);
        assert(b0.to_multiset() =~= a0.to_multiset());
        lemma_map_same_multiset(a0, b0, f);
        assert(a.map_values(f) =~= a0.map_values(f).push(f(x)));
        vstd::seq_lib::to_multiset_build(a0.map_values(f), f(x));
        assert(b.map_values(f) =~= b0.map_values(f).insert(j, f(x)));
        vstd::seq_lib::to_multiset_insert(b0.map_values(f), j, f(x));
    }
}

/// The sum of the weights of the elements of a list.
pub open spec fn weight_sum<T>(s: Seq<T>, w: spec_fn(T) -> int) -> int
    decreases s.len(),
{
    if s.len() == 0 {
        0
    } else {
        weight_sum(s.drop_last(), w) + w(s.last())
    }
}

/// The weight of two lists one after the other is the sum of theirs.
pub proof fn lemma_weight_sum_append<T>(a: Seq<T>, b: Seq<T>, w: spec_fn(T) -> int)
    ensures
        weight_sum(a + b, w) == weight_sum(a, w) + weight_sum(b, w),
    decreases b.len(),
{
    if b.len() > 0 {
        lemma_weight_sum_append(a, b.drop_last(), w);
        assert((a + b).drop_last() =~= a + b.drop_last());
    }
}

proof fn lemma_weight_sum_single<T>(x: T, w: spec_fn(T) -> int)
    ensures
        weight_sum(seq![x], w) == w(x),
{
    assert(seq![x].drop_last() =~= Seq::<T>::empty());
    assert(weight_sum(Seq::<T>::empty(), w) == 0);
}

/// Reversing a list keeps its weight.
pub proof fn lemma_weight_sum_reverse<T>(s: Seq<T>, w: spec_fn(T) -> int)
    ensures
        weight_sum(s.reverse(), w) == weight_sum(s, w),
    decreases s.len(),
{
    if s.len() > 0 {
        let r = s.drop_last();
        lemma_weight_sum_reverse(r, w);
        assert(s.reverse() =~= seq![s.last()] + r.reverse());
        lemma_weight_sum_append(seq![s.last()], r.reverse(), w);
        lemma_weight_sum_single(s.last(), w);
    }
}

proof fn lemma_weight_sum_insert<K: OrderedKey>(s: Seq<K::V>, x: K::V, w: spec_fn(K::V) -> int)
    ensures
        weight_sum(insert_in_order::<K>(s, x), w) == weight_sum(s, w) + w(x),
    decreases s.len(),
{
    lemma_weight_sum_single(x, w);
    if s.len() == 0 {
    } else if !K::precedes(s[0], x) {
        lemma_weight_sum_append(seq![x], s, w);
    } else {
        let t = s.drop_first();
        lemma_weight_sum_insert::<K>(t, x, w);
        lemma_weight_sum_append(seq![s[0]], insert_in_order::<K>(t, x), w);
        lemma_weight_sum_append(seq![s[0]], t, w);
        lemma_weight_sum_single(s[0], w);
        assert(seq![s[0]] + t =~= s);
    }
}

/// Sorting a list keeps its weight.
pub proof fn lemma_weight_sum_sort<K: OrderedKey>(s: Seq<K::V>, w: spec_fn(K::V) -> int)
    ensures
        weight_sum(sort_keys_spec::<K>(s), w) == weight_sum(s, w),
    decreases s.len(),
{
    if s.len() > 0 {
        lemma_weight_sum_sort::<K>(s.drop_last(), w);
        lemma_weight_sum_insert::<K>(sort_keys_spec::<K>(s.drop_last()), s.last(), w);
    }
}

/// The views of a list of keys.
pub open spec fn key_views<K: View>(v: Seq<K>) -> Seq<K::V> {
    v.map_values(|k: K| k@)
}

/// Whether key `a` comes before key `b`.
pub fn key_before<K: OrderedKey>(a: &K, b: &K) -> (r: bool)
    ensures
        r == K::precedes(a@, b@),
{
    match a.rank(b) {
        Rank::Before => true,
        _ => false,
    }
}

/// Sorts keys in ascending order (insertion sort).
pub fn sort_keys<K: OrderedKey>(v: Vec<K>) -> (r: Vec<K>)
    ensures
        key_views(r@) == sort_keys_spec::<K>(key_views(v@)),
{
    let ghost vv = key_views(v@);
    let vlen = v.len();
    let mut src = v;
    let mut out: Vec<K> = Vec::new();
    let ghost n = vv.len();
    assert(n == vlen);
    let mut taken: usize = 0;
    assert(vv.take(0) =~= Seq::<K::V>::empty());
    assert(key_views(out@) =~= sort_keys_spec::<K>(vv.take(0)));
    while src.len() > 0
        invariant
            n == vv.len(),
            n <= usize::MAX,
            taken + src@.len() == n,
            key_views(src@) == vv.skip(taken as int),
            key_views(out@) == sort_keys_spec::<K>(vv.take(taken as int)),
        decreases src@.len(),
    {
        let ghost sv = src@;
        let x = src.remove(0);
        let ghost xv = x@;
        assert(xv == vv[taken as int]) by {
            assert(key_views(sv)[0] == sv[0]@);
            assert(vv.skip(taken as int)[0] == vv[taken as int]);
        }
        let mut p: usize = 0;
        while p < out.len() && key_before(&out[p], &x)
            invariant
                p <= out@.len(),
                forall|i: int| 0 <= i < p ==> K::precedes(#[trigger] key_views(out@)[i], xv),
                xv == x@,
            decreases out@.len() - p,
        {
            p = p + 1;
        }
        let ghost before = key_views(out@);
        proof {
            if p < out@.len() {
                assert(before[p as int] == out@[p as int]@);
            }
            lemma_insert_in_order_at::<K>(before, xv, p as int);
        }
        out.insert(p, x);
        assert(key_views(out@) =~= before.insert(p as int, xv));
        assert(vv.take(taken + 1).drop_last() =~= vv.take(taken as int));
        taken = taken + 1;
        assert(key_views(src@) =~= vv.skip(taken as int));
    }
    assert(vv.take(taken as int) =~= vv);
    out
}

/// The keys of a list of entries are strictly ascending.
pub open spec fn strictly_sorted<K: OrderedKey, W>(es: Seq<(K::V, W)>) -> bool {
    forall|i: int, j: int| 0 <= i < j < es.len() ==> K::precedes(#[trigger] es[i].0, #[trigger] es[j].0)
}

/// The map that a list of entries with distinct keys stands for.
pub open spec fn entries_map<KV, W>(es: Seq<(KV, W)>) -> Map<KV, W> {
    Map::new(
        |k: KV| exists|i: int| 0 <= i < es.len() && #[trigger] es[i].0 == k,
        |k: KV| es[choose|i: int| 0 <= i < es.len() && #[trigger] es[i].0 == k].1,
    )
}

/// The entries of a map in ascending key order.
pub open spec fn sorted_entries<K: OrderedKey, W>(m: Map<K::V, W>) -> Seq<(K::V, W)> {
    choose|s: Seq<(K::V, W)>| strictly_sorted::<K, W>(s) && entries_map(s) == m
}

/// An entry of a strictly sorted list is what its map gives for its key.
pub proof fn lemma_entries_map_at<K: OrderedKey, W>(es: Seq<(K::V, W)>, i: int)
    requires
        strictly_sorted::<K, W>(es),
        0 <= i < es.len(),
    ensures
        entries_map(es).contains_key(es[i].0),
        entries_map(es)[es[i].0] == es[i].1,
{
    let k = es[i].0;
    assert(exists|j: int| 0 <= j < es.len() && #[trigger] es[j].0 == k);
    let j = choose|j: int| 0 <= j < es.len() && #[trigger] es[j].0 == k;
    if j < i {
        K::lemma_irreflexive(k);
    } else if i < j {
        K::lemma_irreflexive(k);
    }
}

/// Two strictly sorted lists of entries that stand for the same map are equal.
pub proof fn lemma_sorted_unique<K: OrderedKey, W>(s1: Seq<(K::V, W)>, s2: Seq<(K::V, W)>)
    requires
        strictly_sorted::<K, W>(s1),
        strictly_sorted::<K, W>(s2),
        entries_map(s1) == entries_map(s2),
    ensures
        s1 == s2,
    decreases s1.len(),
{
    if s1.len() == 0 {
        if s2.len() > 0 {
            lemma_entries_map_at::<K, W>(s2, 0);
            assert(entries_map(s1).contains_key(s2[0].0));
        }
        assert(s1 =~= s2);
    } else if s2.len() == 0 {
        lemma_entries_map_at::<K, W>(s1, 0);
        assert(entries_map(s2).contains_key(s1[0].0));
    } else {
        lemma_entries_map_at::<K, W>(s1, 0);
        lemma_entries_map_at::<K, W>(s2, 0);
        let k1 = s1[0].0;
        let k2 = s2[0].0;
        assert(entries_map(s2).contains_key(k1));
        let j = choose|j: int| 0 <= j < s2.len() && #[trigger] s2[j].0 == k1;
        assert(entries_map(s1).contains_key(k2));
        let i = choose|i: int| 0 <= i < s1.len() && #[trigger] s1[i].0 == k2;
        if k1 != k2 {
            assert(j > 0);
            assert(i > 0);
            assert(K::precedes(k2, k1));
            assert(K::precedes(k1, k2));
            K::lemma_transitive(k1, k2, k1);
            K::lemma_irreflexive(k1);
        }
        assert(s1[0] == s2[0]);
        let t1 = s1.drop_first();
        let t2 = s2.drop_first();
        assert(strictly_sorted::<K, W>(t1)) by {
            assert forall|a: int, b: int| 0 <= a < b < t1.len() implies K::precedes(
                #[trigger] t1[a].0,
                #[trigger] t1[b].0,
            ) by {
                assert(t1[a] == s1[a + 1]);
                assert(t1[b] == s1[b + 1]);
            }
        }
        assert(strictly_sorted::<K, W>(t2)) by {
            assert forall|a: int, b: int| 0 <= a < b < t2.len() implies K::precedes(
                #[trigger] t2[a].0,
                #[trigger] t2[b].0,
            ) by {
                assert(t2[a] == s2[a + 1]);
                assert(t2[b] == s2[b + 1]);
            }
        }
        assert(entries_map(t1) =~= entries_map(t2)) by {
            assert forall|k: K::V| #[trigger] entries_map(t1).contains_key(k) implies entries_map(
                t2,
            ).contains_key(k) && entries_map(t1)[k] == entries_map(t2)[k] by {
                let a = choose|a: int| 0 <= a < t1.len() && #[trigger] t1[a].0 == k;
                lemma_entries_map_at::<K, W>(t1, a);
                lemma_entries_map_at::<K, W>(s1, a + 1);
                assert(s1[a + 1] == t1[a]);
                let b = choose|b: int| 0 <= b < s2.len() && #[trigger] s2[b].0 == k;
                lemma_entries_map_at::<K, W>(s2, b);
                if b == 0 {
                    K::lemma_irreflexive(k);
                    assert(K::precedes(s1[0].0, s1[a + 1].0));
                }
                assert(t2[b - 1] == s2[b]);
                lemma_entries_map_at::<K, W>(t2, b - 1);
            }
            assert forall|k: K::V| #[trigger] entries_map(t2).contains_key(k) implies entries_map(
                t1,
            ).contains_key(k) by {
                let b = choose|b: int| 0 <= b < t2.len() && #[trigger] t2[b].0 == k;
                lemma_entries_map_at::<K, W>(s2, b + 1);
                assert(s2[b + 1] == t2[b]);
                let a = choose|a: int| 0 <= a < s1.len() && #[trigger] s1[a].0 == k;
                if a == 0 {
                    K::lemma_irreflexive(k);
                    assert(K::precedes(s2[0].0, s2[b + 1].0));
                }
                assert(t1[a - 1] == s1[a]);
            }
        }
        lemma_sorted_unique::<K, W>(t1, t2);
        assert(s1 =~= s2) by {
            assert forall|t: int| 0 <= t < s1.len() implies s1[t] == s2[t] by {
                if t > 0 {
                    assert(s1[t] == t1[t - 1]);
                    assert(s2[t] == t2[t - 1]);
                }
            }
        }
    }
}

/// The map of the first `i + 1` entries of a strictly sorted list is that of
/// the first `i` with entry `i` added.
pub proof fn lemma_entries_map_take<K: OrderedKey, W>(s: Seq<(K::V, W)>, i: int)
    requires
        strictly_sorted::<K, W>(s),
        0 <= i < s.len(),
    ensures
        entries_map(s.take(i + 1)) == entries_map(s.take(i)).insert(s[i].0, s[i].1),
{
    let a = s.take(i + 1);
    let b = s.take(i);
    assert(strictly_sorted::<K, W>(a)) by {
        assert forall|x: int, y: int| 0 <= x < y < a.len() implies K::precedes(#[trigger] a[x].0, #[trigger] a[y].0) by {
            assert(a[x] == s[x] && a[y] == s[y]);
        }
    }
    assert(strictly_sorted::<K, W>(b)) by {
        assert forall|x: int, y: int| 0 <= x < y < b.len() implies K::precedes(#[trigger] b[x].0, #[trigger] b[y].0) by {
            assert(b[x] == s[x] && b[y] == s[y]);
        }
    }
    assert(entries_map(a) =~= entries_map(b).insert(s[i].0, s[i].1)) by {
        assert forall|k: K::V| #[trigger] entries_map(a).contains_key(k) implies entries_map(b).insert(
            s[i].0,
            s[i].1,
        ).contains_key(k) && entries_map(a)[k] == entries_map(b).insert(s[i].0, s[i].1)[k] by {
            let j = choose|j: int| 0 <= j < a.len() && #[trigger] a[j].0 == k;
            lemma_entries_map_at::<K, W>(a, j);
            if j < i {
                assert(b[j] == a[j]);
                lemma_entries_map_at::<K, W>(b, j);
                assert(K::precedes(s[j].0, s[i].0));
                if k == s[i].0 {
                    K::lemma_irreflexive(k);
                }
            } else {
                assert(a[j] == s[i]);
            }
        }
        assert forall|k: K::V| #[trigger] entries_map(b).insert(s[i].0, s[i].1).contains_key(k) implies entries_map(a).contains_key(k) by {
            if k == s[i].0 {
                assert(a[i].0 == k);
            } else {
                let j = choose|j: int| 0 <= j < b.len() && #[trigger] b[j].0 == k;
                assert(a[j] == b[j]);
            }
        }
    }
}

/// A strictly sorted list stays so without its last entry.
pub proof fn lemma_sorted_drop_last<K: OrderedKey, W>(s: Seq<(K::V, W)>)
    requires
        strictly_sorted::<K, W>(s),
        s.len() > 0,
    ensures
        strictly_sorted::<K, W>(s.drop_last()),
{
    let t = s.drop_last();
    assert forall|i: int, j: int| 0 <= i < j < t.len() implies K::precedes(#[trigger] t[i].0, #[trigger] t[j].0) by {
        assert(t[i] == s[i] && t[j] == s[j]);
    }
}

/// Keeping some entries of a strictly sorted list keeps it strictly sorted.
pub proof fn lemma_sorted_filter<K: OrderedKey, W>(s: Seq<(K::V, W)>, p: spec_fn((K::V, W)) -> bool)
    requires
        strictly_sorted::<K, W>(s),
    ensures
        strictly_sorted::<K, W>(s.filter(p)),
    decreases s.len(),
{
    if s.len() > 0 {
        let s0 = s.drop_last();
        let x = s.last();
        lemma_sorted_drop_last::<K, W>(s);
        lemma_sorted_filter::<K, W>(s0, p);
        s0.lemma_filter_push(x, p);
        assert(s0.push(x) =~= s);
        if p(x) {
            let f0 = s0.filter(p);
            let f = f0.push(x);
            assert forall|a: int, b: int| 0 <= a < b < f.len() implies K::precedes(#[trigger] f[a].0, #[trigger] f[b].0) by {
                if b == f0.len() {
                    assert(f[a] == f0[a]);
                    assert(f0.contains(f0[a]));
                    s0.lemma_filter_contains_rev(p, f0[a]);
                    let q = choose|q: int| 0 <= q < s0.len() && s0[q] == f0[a];
                    assert(s[q] == f0[a]);
                    assert(s[s.len() - 1] == x);
                } else {
                    assert(f[a] == f0[a] && f[b] == f0[b]);
                }
            }
        }
    }
}

/// A strictly sorted list of entries is the sorted entries of its map.
pub proof fn lemma_sorted_entries_of<K: OrderedKey, W>(s: Seq<(K::V, W)>)
    requires
        strictly_sorted::<K, W>(s),
    ensures
        sorted_entries::<K, W>(entries_map(s)) == s,
{
    let m = entries_map(s);
    assert(strictly_sorted::<K, W>(s) && entries_map(s) == m);
    let t = sorted_entries::<K, W>(m);
    lemma_sorted_unique::<K, W>(t, s);
}

/// The entries with key `k` set to `v` at place `p`: the entry there is
/// replaced when it has key `k`, else the new entry goes in before it.
pub open spec fn put_entry<K: OrderedKey, W>(es: Seq<(K::V, W)>, p: int, k: K::V, v: W) -> Seq<(K::V, W)> {
    if p < es.len() && es[p].0 == k {
        es.update(p, (k, v))
    } else {
        es.insert(p, (k, v))
    }
}

/// Putting an entry at the place of the first key that does not come before
/// its key keeps the entries strictly sorted and sets the key in their map.
pub proof fn lemma_put_entry<K: OrderedKey, W>(es: Seq<(K::V, W)>, p: int, k: K::V, v: W)
    requires
        strictly_sorted::<K, W>(es),
        0 <= p <= es.len(),
        forall|i: int| 0 <= i < p ==> K::precedes(#[trigger] es[i].0, k),
        p < es.len() ==> !K::precedes(es[p].0, k),
    ensures
        strictly_sorted::<K, W>(put_entry::<K, W>(es, p, k, v)),
        entries_map(put_entry::<K, W>(es, p, k, v)) == entries_map(es).insert(k, v),
{
    let replace = p < es.len() && es[p].0 == k;
    let ns = put_entry::<K, W>(es, p, k, v);
    if !replace && p < es.len() {
        K::lemma_total(k, es[p].0);
    }
    assert(strictly_sorted::<K, W>(ns)) by {
        assert forall|a: int, b: int| 0 <= a < b < ns.len() implies K::precedes(
            #[trigger] ns[a].0,
            #[trigger] ns[b].0,
        ) by {
            if replace {
                if a == p {
                    assert(K::precedes(es[a].0, es[b].0));
                } else if b == p {
                    assert(K::precedes(es[a].0, es[b].0));
                }
            } else {
                if a < p && b == p {
                } else if a < p && b > p {
                    assert(ns[b] == es[b - 1]);
                    if b - 1 > a {
                        assert(K::precedes(es[a].0, es[b - 1].0));
                    }
                } else if a == p && b > p {
                    assert(ns[b] == es[b - 1]);
                    if b - 1 > p {
                        assert(K::precedes(es[p].0, es[b - 1].0));
                        K::lemma_transitive(k, es[p].0, es[b - 1].0);
                    }
                } else if a > p {
                    assert(ns[a] == es[a - 1]);
                    assert(ns[b] == es[b - 1]);
                }
            }
        }
    }
    assert(entries_map(ns) =~= entries_map(es).insert(k, v)) by {
        assert forall|key: K::V| #[trigger] entries_map(ns).contains_key(key) implies entries_map(
            es,
        ).insert(k, v).contains_key(key) && entries_map(ns)[key] == entries_map(es).insert(k, v)[key] by {
            let j = choose|j: int| 0 <= j < ns.len() && #[trigger] ns[j].0 == key;
            lemma_entries_map_at::<K, W>(ns, j);
            if key != k {
                let j0 = if replace || j < p {
                    j
                } else {
                    j - 1
                };
                assert(es[j0] == ns[j]);
                lemma_entries_map_at::<K, W>(es, j0);
            } else {
                assert(ns[p].0 == k);
                lemma_entries_map_at::<K, W>(ns, p);
            }
        }
        assert forall|key: K::V| #[trigger] entries_map(es).insert(k, v).contains_key(key) implies entries_map(
            ns,
        ).contains_key(key) by {
            if key == k {
                assert(ns[p].0 == k);
            } else {
                let j = choose|j: int| 0 <= j < es.len() && #[trigger] es[j].0 == key;
                let j1 = if replace || j < p {
                    j
                } else {
                    j + 1
                };
                assert(ns[j1] == es[j]);
            }
        }
    }
}

/// The place of the first entry whose key does not come before `k`.
pub open spec fn entry_place<K: OrderedKey, W>(es: Seq<(K::V, W)>, k: K::V) -> int
    decreases es.len(),
{
    if es.len() == 0 {
        0
    } else if !K::precedes(es[0].0, k) {
        0
    } else {
        1 + entry_place::<K, W>(es.drop_first(), k)
    }
}

proof fn lemma_entry_place<K: OrderedKey, W>(es: Seq<(K::V, W)>, k: K::V)
    ensures
        0 <= entry_place::<K, W>(es, k) <= es.len(),
        forall|i: int| 0 <= i < entry_place::<K, W>(es, k) ==> K::precedes(#[trigger] es[i].0, k),
        entry_place::<K, W>(es, k) < es.len() ==> !K::precedes(es[entry_place::<K, W>(es, k)].0, k),
    decreases es.len(),
{
    if es.len() > 0 && K::precedes(es[0].0, k) {
        let t = es.drop_first();
        lemma_entry_place::<K, W>(t, k);
        assert forall|i: int| 0 <= i < entry_place::<K, W>(es, k) implies K::precedes(#[trigger] es[i].0, k) by {
            if i > 0 {
                assert(es[i] == t[i - 1]);
            }
        }
        if entry_place::<K, W>(es, k) < es.len() {
            assert(es[entry_place::<K, W>(es, k)] == t[entry_place::<K, W>(t, k)]);
        }
    }
}

/// A map whose entries can be listed in strictly ascending key order.
pub open spec fn has_sorted_entries<K: OrderedKey, W>(m: Map<K::V, W>) -> bool {
    exists|s: Seq<(K::V, W)>| strictly_sorted::<K, W>(s) && entries_map(s) == m
}

/// The empty map has sorted entries.
pub proof fn lemma_sorted_entries_empty<K: OrderedKey, W>()
    ensures
        has_sorted_entries::<K, W>(Map::empty()),
{
    let s = Seq::<(K::V, W)>::empty();
    assert(entries_map(s) =~= Map::<K::V, W>::empty());
    assert(strictly_sorted::<K, W>(s));
}

/// Setting a key keeps a map's entries listable in order.
pub proof fn lemma_sorted_entries_insert<K: OrderedKey, W>(m: Map<K::V, W>, k: K::V, v: W)
    requires
        has_sorted_entries::<K, W>(m),
    ensures
        has_sorted_entries::<K, W>(m.insert(k, v)),
{
    let s = choose|s: Seq<(K::V, W)>| strictly_sorted::<K, W>(s) && entries_map(s) == m;
    let p = entry_place::<K, W>(s, k);
    lemma_entry_place::<K, W>(s, k);
    lemma_put_entry::<K, W>(s, p, k, v);
    let t = put_entry::<K, W>(s, p, k, v);
    assert(strictly_sorted::<K, W>(t) && entries_map(t) == m.insert(k, v));
}

/// A map kept as a list of entries in ascending key order.
pub struct OrdMap<K, V> {
    pub entries: Vec<(K, V)>,
}

impl<K: OrderedKey, V: View> OrdMap<K, V> {
    /// The entries, each as the views of its key and value.
    pub open spec fn entry_views(&self) -> Seq<(K::V, V::V)> {
        self.entries@.map_values(|e: (K, V)| (e.0@, e.1@))
    }

    /// The map of the entries.
    pub open spec fn map(&self) -> Map<K::V, V::V> {
        entries_map(self.entry_views())
    }

    /// The keys are strictly ascending.
    pub open spec fn wf(&self) -> bool {
        strictly_sorted::<K, V::V>(self.entry_views())
    }

    pub fn new() -> (r: Self)
        ensures
            r.wf(),
            r.entry_views() == Seq::<(K::V, V::V)>::empty(),
            r.map() == Map::<K::V, V::V>::empty(),
    {
        let r = OrdMap { entries: Vec::new() };
        assert(r.entry_views() =~= Seq::<(K::V, V::V)>::empty());
        assert(r.map() =~= Map::<K::V, V::V>::empty());
        r
    }

    pub fn len(&self) -> (r: usize)
        ensures
            r == self.entry_views().len(),
    {
        self.entries.len()
    }

    /// The place of the first entry whose key is not before `k`.
    fn position(&self, k: &K) -> (r: usize)
        requires
            self.wf(),
        ensures
            r <= self.entry_views().len(),
            forall|i: int| 0 <= i < r ==> K::precedes(#[trigger] self.entry_views()[i].0, k@),
            r < self.entry_views().len() ==> !K::precedes(self.entry_views()[r as int].0, k@),
    {
        let mut i: usize = 0;
        while i < self.entries.len()
            invariant
                i <= self.entry_views().len(),
                self.entry_views().len() == self.entries@.len(),
                forall|j: int| 0 <= j < i ==> K::precedes(#[trigger] self.entry_views()[j].0, k@),
            decreases self.entries@.len() - i,
        {
            assert(self.entry_views()[i as int].0 == self.entries@[i as int].0@);
            match self.entries[i].0.rank(k) {
                Rank::Before => {},
                _ => {
                    return i;
                },
            }
            i = i + 1;
        }
        i
    }

    /// The value of key `k`.
    pub fn get(&self, k: &K) -> (r: Option<&V>)
        requires
            self.wf(),
        ensures
            r is Some <==> self.map().contains_key(k@),
            r matches Some(v) ==> v@ == self.map()[k@],
    {
        let p = self.position(k);
        if p < self.entries.len() {
            assert(self.entry_views()[p as int].0 == self.entries@[p as int].0@);
            match self.entries[p].0.rank(k) {
                Rank::Same => {
                    proof {
                        lemma_entries_map_at::<K, V::V>(self.entry_views(), p as int);
                    }
                    return Some(&self.entries[p].1);
                },
                _ => {},
            }
        }
        proof {
            if self.map().contains_key(k@) {
                let j = choose|j: int|
                    0 <= j < self.entry_views().len() && #[trigger] self.entry_views()[j].0 == k@;
                if j < p {
                    K::lemma_irreflexive(k@);
                } else if j > p {
                    assert(K::precedes(self.entry_views()[p as int].0, k@));
                }
            }
        }
        None
    }

    /// Sets the value of key `k` to `v`, in place of any earlier value.
    pub fn insert(&mut self, k: K, v: V)
        requires
            old(self).wf(),
        ensures
            final(self).wf(),
            final(self).map() == old(self).map().insert(k@, v@),
    {
        let p = self.position(&k);
        let ghost es = self.entry_views();
        let ghost kv = k@;
        let ghost vv = v@;
        proof {
            lemma_put_entry::<K, V::V>(es, p as int, kv, vv);
        }
        let mut replace = false;
        if p < self.entries.len() {
            assert(self.entry_views()[p as int].0 == self.entries@[p as int].0@);
            match self.entries[p].0.rank(&k) {
                Rank::Same => {
                    replace = true;
                },
                _ => {},
            }
        }
        if replace {
            self.entries.set(p, (k, v));
            assert(self.entry_views() =~= put_entry::<K, V::V>(es, p as int, kv, vv));
        } else {
            self.entries.insert(p, (k, v));
            assert(self.entry_views() =~= put_entry::<K, V::V>(es, p as int, kv, vv));
        }
    }
}

} // verus!
