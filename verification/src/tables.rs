//! Picking values out of the game's tables.
use vstd::prelude::*;

verus! {

/// The values of column `b` in the rows whose column `a` holds `value`,
/// in row order.
pub open spec fn spec_column_where(b: Seq<Option<String>>, a: Seq<Option<String>>, value: Seq<char>) -> Seq<Seq<char>>
    decreases b.len(),
{
    if b.len() == 0 || a.len() == 0 {
        Seq::empty()
    } else {
        let rest = spec_column_where(b.drop_last(), a.drop_last(), value);
        if a.last() matches Some(x) && x@ == value {
            rest.push(b.last()->Some_0@)
        } else {
            rest
        }
    }
}

/// Row `i` of column `a` holds `value`.
pub open spec fn row_matches(a: Seq<Option<String>>, value: Seq<char>, i: int) -> bool {
    a[i] matches Some(x) && x@ == value
}

/// How many of the first `n` rows of column `a` hold `value`.
pub open spec fn matching_rows(a: Seq<Option<String>>, value: Seq<char>, n: int) -> nat
    decreases n,
{
    if n <= 0 {
        0
    } else {
        matching_rows(a, value, n - 1) + if row_matches(a, value, n - 1) {
            1nat
        } else {
            0nat
        }
    }
}

/// Counting matching rows looks at those rows only.
proof fn lemma_matching_rows_prefix(a: Seq<Option<String>>, a2: Seq<Option<String>>, value: Seq<char>, n: int)
    requires
        0 <= n <= a.len(),
        n <= a2.len(),
        forall|i: int| 0 <= i < n ==> a[i] == a2[i],
    ensures
        matching_rows(a, value, n) == matching_rows(a2, value, n),
    decreases n,
{
    if n > 0 {
        lemma_matching_rows_prefix(a, a2, value, n - 1);
    }
}

/// A matching row comes before the count at any later row.
proof fn lemma_matching_rows_grow(a: Seq<Option<String>>, value: Seq<char>, i: int, n: int)
    requires
        0 <= i < n,
        row_matches(a, value, i),
    ensures
        matching_rows(a, value, i) + 1 <= matching_rows(a, value, n),
    decreases n,
{
    if n > i + 1 {
        lemma_matching_rows_grow(a, value, i, n - 1);
    }
}

/// The values picked are those of exactly the rows whose column `a` holds
/// `value`, every one of them (the last row too), in row order: the value
/// of the `k`-th matching row comes `k`-th.
pub proof fn lemma_column_where_rows(b: Seq<Option<String>>, a: Seq<Option<String>>, value: Seq<char>)
    requires
        a.len() == b.len(),
    ensures
        spec_column_where(b, a, value).len() == matching_rows(a, value, a.len() as int),
        forall|i: int|
            0 <= i < a.len() && #[trigger] row_matches(a, value, i) ==> spec_column_where(b, a, value)[matching_rows(
                a,
                value,
                i,
            ) as int] == b[i]->Some_0@,
    decreases a.len(),
{
    if a.len() > 0 {
        let a0 = a.drop_last();
        let b0 = b.drop_last();
        let n = a.len() - 1;
        lemma_column_where_rows(b0, a0, value);
        lemma_matching_rows_prefix(a0, a, value, n);
        assert forall|i: int| 0 <= i < n implies #[trigger] matching_rows(a0, value, i) == matching_rows(a, value, i) by {
            lemma_matching_rows_prefix(a0, a, value, i);
        }
        assert(a.last() == a[n]);
        let rest = spec_column_where(b0, a0, value);
        assert forall|i: int|
            0 <= i < a.len() && #[trigger] row_matches(a, value, i) implies spec_column_where(b, a, value)[matching_rows(
            a,
            value,
            i,
        ) as int] == b[i]->Some_0@ by {
            if i < n {
                assert(a0[i] == a[i] && b0[i] == b[i]);
                assert(row_matches(a0, value, i));
                lemma_matching_rows_grow(a0, value, i, n);
            }
        }
    }
}

/// The values of column `b` in the rows whose column `a` holds `value`.
/// Empty cells of `a` match nothing; a matching row must have a value in
/// `b`.
pub fn column_a_where_column_b_is(b: &Vec<Option<String>>, a: &Vec<Option<String>>, value: &str) -> (r: Vec<String>)
    requires
        a.len() == b.len(),
        forall|i: int| 0 <= i < a.len() && (a@[i] matches Some(x) && x@ == value@) ==> #[trigger] b@[i] is Some,
    ensures
        r@.map_values(|s: String| s@) == spec_column_where(b@, a@, value@),
{
    let target = String::from_str(value);
    let mut r: Vec<String> = Vec::new();
    let mut i: usize = 0;
    while i < a.len()
        invariant
            i <= a.len() == b.len(),
            target@ == value@,
            forall|k: int| 0 <= k < a.len() && (a@[k] matches Some(x) && x@ == value@) ==> #[trigger] b@[k] is Some,
            r@.map_values(|s: String| s@) == spec_column_where(b@.take(i as int), a@.take(i as int), value@),
        decreases a.len() - i,
    {
        assert(b@.take(i + 1).drop_last() =~= b@.take(i as int));
        assert(a@.take(i + 1).drop_last() =~= a@.take(i as int));
        assert(a@.take(i + 1).last() == a@[i as int]);
        assert(b@.take(i + 1).last() == b@[i as int]);
        let ghost before = r@;
        match &a[i] {
            Some(x) => {
                if *x == target {
                    assert(b@[i as int] is Some);
                    match &b[i] {
                        Some(v) => {
                            r.push(v.clone());
                            assert(r@.map_values(|s: String| s@) =~= before.map_values(|s: String| s@).push(v@));
                        },
                        None => {},
                    }
                }
            },
            None => {},
        }
        i = i + 1;
    }
    assert(a@.take(i as int) =~= a@);
    assert(b@.take(i as int) =~= b@);
    r
}

} // verus!
