use vstd::prelude::*;

verus! {

/// The map that the rows of a table stand for: row `i` binds `keys[i]` to
/// `vals[i]`.
pub open spec fn table_map<K, V>(keys: Seq<K>, vals: Seq<V>) -> Map<K, V> {
    Map::new(|k: K| keys.contains(k), |k: K| vals[keys.index_of(k)])
}

/// Row `i` of a table without repeated keys is what the map holds under its key.
pub proof fn lemma_table_row<K, V>(keys: Seq<K>, vals: Seq<V>, i: int)
    requires
        keys.no_duplicates(),
        keys.len() == vals.len(),
        0 <= i < keys.len(),
    ensures
        table_map(keys, vals).dom().contains(keys[i]),
        table_map(keys, vals)[keys[i]] == vals[i],
{
    assert(keys.contains(keys[i]));
    let j = keys.index_of(keys[i]);
    assert(0 <= j < keys.len() && keys[j] == keys[i]);
}

/// Every key of the map is the key of some row.
pub proof fn lemma_table_key<K, V>(keys: Seq<K>, vals: Seq<V>, k: K) -> (i: int)
    requires
        keys.no_duplicates(),
        keys.len() == vals.len(),
        table_map(keys, vals).dom().contains(k),
    ensures
        0 <= i < keys.len(),
        keys[i] == k,
        table_map(keys, vals)[k] == vals[i],
{
    assert(keys.contains(k));
    let i = keys.index_of(k);
    lemma_table_row(keys, vals, i);
    i
}

/// A new row under a fresh key, at any position, adds one binding.
pub proof fn lemma_table_insert<K, V>(keys: Seq<K>, vals: Seq<V>, at: int, k: K, v: V)
    requires
        keys.no_duplicates(),
        keys.len() == vals.len(),
        0 <= at <= keys.len(),
        !keys.contains(k),
    ensures
        keys.insert(at, k).no_duplicates(),
        table_map(keys.insert(at, k), vals.insert(at, v)) == table_map(keys, vals).insert(k, v),
{
    let keys2 = keys.insert(at, k);
    let vals2 = vals.insert(at, v);
    assert forall|i: int, j: int| 0 <= i < keys2.len() && 0 <= j < keys2.len() && i != j implies keys2[i]
        != keys2[j] by {
        let oi = if i < at { i } else { i - 1 };
        let oj = if j < at { j } else { j - 1 };
        if i == at {
            assert(keys[oj] == keys2[j]);
        } else if j == at {
            assert(keys[oi] == keys2[i]);
        } else {
            assert(keys[oi] == keys2[i] && keys[oj] == keys2[j]);
        }
    }
    let before = table_map(keys, vals).insert(k, v);
    let after = table_map(keys2, vals2);
    assert forall|x: K| #[trigger] before.dom().contains(x) implies after.dom().contains(x) && after[x]
        == before[x] by {
        if x == k {
            assert(keys2[at] == k);
            lemma_table_row(keys2, vals2, at);
        } else {
            let i = lemma_table_key(keys, vals, x);
            let i2 = if i < at { i } else { i + 1 };
            assert(keys2[i2] == x);
            lemma_table_row(keys2, vals2, i2);
        }
    }
    assert forall|x: K| #[trigger] after.dom().contains(x) implies before.dom().contains(x) by {
        let i2 = lemma_table_key(keys2, vals2, x);
        if i2 != at {
            let i = if i2 < at { i2 } else { i2 - 1 };
            assert(keys[i] == x);
            assert(keys.contains(x));
        }
    }
    assert(after.dom() =~= before.dom());
    assert(after =~= before);
}

/// Taking row `at` out removes its binding and no other.
pub proof fn lemma_table_remove<K, V>(keys: Seq<K>, vals: Seq<V>, at: int)
    requires
        keys.no_duplicates(),
        keys.len() == vals.len(),
        0 <= at < keys.len(),
    ensures
        keys.remove(at).no_duplicates(),
        !keys.remove(at).contains(keys[at]),
        table_map(keys.remove(at), vals.remove(at)) == table_map(keys, vals).remove(keys[at]),
{
    let keys2 = keys.remove(at);
    let vals2 = vals.remove(at);
    assert forall|i: int| 0 <= i < keys2.len() implies keys2[i] == keys[if i < at { i } else { i + 1 }] by {}
    assert forall|i: int, j: int| 0 <= i < keys2.len() && 0 <= j < keys2.len() && i != j implies keys2[i]
        != keys2[j] by {
        let oi = if i < at { i } else { i + 1 };
        let oj = if j < at { j } else { j + 1 };
        assert(keys[oi] == keys2[i] && keys[oj] == keys2[j]);
    }
    if keys2.contains(keys[at]) {
        let i = keys2.index_of(keys[at]);
        let oi = if i < at { i } else { i + 1 };
        assert(keys[oi] == keys[at]);
    }
    let before = table_map(keys, vals).remove(keys[at]);
    let after = table_map(keys2, vals2);
    assert forall|x: K| #[trigger] before.dom().contains(x) implies after.dom().contains(x) && after[x]
        == before[x] by {
        let i = lemma_table_key(keys, vals, x);
        let i2 = if i < at { i } else { i - 1 };
        assert(keys2[i2] == x);
        lemma_table_row(keys2, vals2, i2);
    }
    assert forall|x: K| #[trigger] after.dom().contains(x) implies before.dom().contains(x) by {
        let i2 = lemma_table_key(keys2, vals2, x);
        let i = if i2 < at { i2 } else { i2 + 1 };
        assert(keys[i] == x);
        assert(keys.contains(x));
    }
    assert(after.dom() =~= before.dom());
    assert(after =~= before);
}

/// A new value in row `at` rebinds its key and no other.
pub proof fn lemma_table_update<K, V>(keys: Seq<K>, vals: Seq<V>, at: int, v: V)
    requires
        keys.no_duplicates(),
        keys.len() == vals.len(),
        0 <= at < keys.len(),
    ensures
        table_map(keys, vals.update(at, v)) == table_map(keys, vals).insert(keys[at], v),
{
    let vals2 = vals.update(at, v);
    let before = table_map(keys, vals).insert(keys[at], v);
    let after = table_map(keys, vals2);
    assert(keys.contains(keys[at]));
    assert forall|x: K| #[trigger] after.dom().contains(x) implies after[x] == before[x] by {
        let i = lemma_table_key(keys, vals2, x);
        if i != at {
            lemma_table_row(keys, vals, i);
        }
    }
    assert(after =~= before);
}

/// The keys of a run of rows, in order.
pub open spec fn row_keys<R, K>(rows: Seq<R>, key: spec_fn(R) -> K) -> Seq<K> {
    Seq::new(rows.len(), |i: int| key(rows[i]))
}

/// The values of a run of rows, in order.
pub open spec fn row_vals<R, V>(rows: Seq<R>, val: spec_fn(R) -> V) -> Seq<V> {
    Seq::new(rows.len(), |i: int| val(rows[i]))
}

/// The map that a run of rows stands for, each row read by `key` and `val`.
pub open spec fn rows_map<R, K, V>(rows: Seq<R>, key: spec_fn(R) -> K, val: spec_fn(R) -> V) -> Map<
    K,
    V,
> {
    table_map(row_keys(rows, key), row_vals(rows, val))
}

/// No two rows share a key.
pub open spec fn distinct_keys<R, K>(rows: Seq<R>, key: spec_fn(R) -> K) -> bool {
    forall|i: int, j: int|
        0 <= i < rows.len() && 0 <= j < rows.len() && i != j ==> key(rows[i]) != key(rows[j])
}

/// No rows, no bindings.
pub proof fn lemma_rows_empty<R, K, V>(key: spec_fn(R) -> K, val: spec_fn(R) -> V)
    ensures
        rows_map(Seq::<R>::empty(), key, val) == Map::<K, V>::empty(),
        distinct_keys(Seq::<R>::empty(), key),
{
    assert(rows_map(Seq::<R>::empty(), key, val) =~= Map::<K, V>::empty());
}

/// Each row is bound in the map under its key.
pub proof fn lemma_rows_row<R, K, V>(
    rows: Seq<R>,
    key: spec_fn(R) -> K,
    val: spec_fn(R) -> V,
    i: int,
)
    requires
        distinct_keys(rows, key),
        0 <= i < rows.len(),
    ensures
        rows_map(rows, key, val).dom().contains(key(rows[i])),
        rows_map(rows, key, val)[key(rows[i])] == val(rows[i]),
{
    lemma_table_row(row_keys(rows, key), row_vals(rows, val), i);
}

/// Each binding of the map comes from a row.
pub proof fn lemma_rows_key<R, K, V>(
    rows: Seq<R>,
    key: spec_fn(R) -> K,
    val: spec_fn(R) -> V,
    k: K,
) -> (i: int)
    requires
        distinct_keys(rows, key),
        rows_map(rows, key, val).dom().contains(k),
    ensures
        0 <= i < rows.len(),
        key(rows[i]) == k,
        rows_map(rows, key, val)[k] == val(rows[i]),
{
    lemma_table_key(row_keys(rows, key), row_vals(rows, val), k)
}

/// A key that no row has is not bound.
pub proof fn lemma_rows_absent<R, K, V>(
    rows: Seq<R>,
    key: spec_fn(R) -> K,
    val: spec_fn(R) -> V,
    k: K,
)
    requires
        forall|i: int| 0 <= i < rows.len() ==> key(#[trigger] rows[i]) != k,
    ensures
        !rows_map(rows, key, val).dom().contains(k),
{
    let keys = row_keys(rows, key);
    if keys.contains(k) {
        let i = keys.index_of(k);
        assert(key(rows[i]) == k);
    }
}

/// A row with a fresh key, put in at any position, adds one binding.
pub proof fn lemma_rows_insert<R, K, V>(
    rows: Seq<R>,
    key: spec_fn(R) -> K,
    val: spec_fn(R) -> V,
    at: int,
    row: R,
)
    requires
        distinct_keys(rows, key),
        0 <= at <= rows.len(),
        forall|i: int| 0 <= i < rows.len() ==> key(#[trigger] rows[i]) != key(row),
    ensures
        distinct_keys(rows.insert(at, row), key),
        rows_map(rows.insert(at, row), key, val) == rows_map(rows, key, val).insert(
            key(row),
            val(row),
        ),
{
    let keys = row_keys(rows, key);
    let vals = row_vals(rows, val);
    if keys.contains(key(row)) {
        let i = keys.index_of(key(row));
        assert(key(rows[i]) == key(row));
    }
    lemma_table_insert(keys, vals, at, key(row), val(row));
    let rows2 = rows.insert(at, row);
    assert(row_keys(rows2, key) =~= keys.insert(at, key(row)));
    assert(row_vals(rows2, val) =~= vals.insert(at, val(row)));
    assert forall|i: int, j: int|
        0 <= i < rows2.len() && 0 <= j < rows2.len() && i != j implies key(rows2[i]) != key(
        rows2[j],
    ) by {
        assert(row_keys(rows2, key)[i] != row_keys(rows2, key)[j]);
    }
}

/// Taking a row out removes its binding and no other.
pub proof fn lemma_rows_remove<R, K, V>(
    rows: Seq<R>,
    key: spec_fn(R) -> K,
    val: spec_fn(R) -> V,
    at: int,
)
    requires
        distinct_keys(rows, key),
        0 <= at < rows.len(),
    ensures
        distinct_keys(rows.remove(at), key),
        rows_map(rows.remove(at), key, val) == rows_map(rows, key, val).remove(key(rows[at])),
{
    let keys = row_keys(rows, key);
    let vals = row_vals(rows, val);
    lemma_table_remove(keys, vals, at);
    let rows2 = rows.remove(at);
    assert(row_keys(rows2, key) =~= keys.remove(at));
    assert(row_vals(rows2, val) =~= vals.remove(at));
    assert forall|i: int, j: int|
        0 <= i < rows2.len() && 0 <= j < rows2.len() && i != j implies key(rows2[i]) != key(
        rows2[j],
    ) by {
        assert(row_keys(rows2, key)[i] != row_keys(rows2, key)[j]);
    }
}

/// Replacing a row by one with the same key rebinds that key and no other.
pub proof fn lemma_rows_update<R, K, V>(
    rows: Seq<R>,
    key: spec_fn(R) -> K,
    val: spec_fn(R) -> V,
    at: int,
    row: R,
)
    requires
        distinct_keys(rows, key),
        0 <= at < rows.len(),
        key(row) == key(rows[at]),
    ensures
        distinct_keys(rows.update(at, row), key),
        rows_map(rows.update(at, row), key, val) == rows_map(rows, key, val).insert(
            key(row),
            val(row),
        ),
{
    let keys = row_keys(rows, key);
    let vals = row_vals(rows, val);
    lemma_table_update(keys, vals, at, val(row));
    let rows2 = rows.update(at, row);
    assert(row_keys(rows2, key) =~= keys);
    assert(row_vals(rows2, val) =~= vals.update(at, val(row)));
    assert forall|i: int, j: int|
        0 <= i < rows2.len() && 0 <= j < rows2.len() && i != j implies key(rows2[i]) != key(
        rows2[j],
    ) by {
        assert(key(rows2[i]) == key(rows[i]) && key(rows2[j]) == key(rows[j]));
    }
}

/// Rows with distinct keys stand for as many bindings as there are rows.
pub proof fn lemma_rows_count<R, K, V>(rows: Seq<R>, key: spec_fn(R) -> K, val: spec_fn(R) -> V)
    requires
        distinct_keys(rows, key),
    ensures
        rows_map(rows, key, val).dom().finite(),
        rows_map(rows, key, val).dom().len() == rows.len(),
    decreases rows.len(),
{
    if rows.len() == 0 {
        assert(rows =~= Seq::<R>::empty());
        lemma_rows_empty::<R, K, V>(key, val);
    } else {
        let init = rows.drop_last();
        let last = rows.last();
        assert forall|i: int, j: int|
            0 <= i < init.len() && 0 <= j < init.len() && i != j implies key(init[i]) != key(
            init[j],
        ) by {
            assert(init[i] == rows[i] && init[j] == rows[j]);
        }
        assert forall|i: int| 0 <= i < init.len() implies key(#[trigger] init[i]) != key(last) by {
            assert(init[i] == rows[i] && last == rows[rows.len() - 1]);
        }
        lemma_rows_count(init, key, val);
        lemma_rows_absent(init, key, val, key(last));
        lemma_rows_insert(init, key, val, init.len() as int, last);
        assert(init.insert(init.len() as int, last) =~= rows);
    }
}

} // verus!
