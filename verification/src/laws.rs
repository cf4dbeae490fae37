//! Laws of the table operations, proved from the model.
//!
//! Each proof function here states a property that holds of every table, in
//! terms of the same spec functions the operations' contracts use.
use crate::model::{
    col_data, filter_by, first_match, key_used, lemma_compact_identity,
    lemma_compact_index, lemma_compact_len, lemma_filter_by_all_true, lemma_filter_by_element,
    lemma_first_match_none, lemma_new_key_le, lemma_new_key_surjective, new_key, pick_data,
    pick_row,
};
use crate::table::{consolidation_of, Table};
use vstd::prelude::*;

verus! {

/// Picking a single column yields, at position 0, exactly the data that was
/// reachable through that column before, in the same row order: what
/// `pick` then shows at column 0 is what `get_col` showed at position `p`.
pub proof fn lemma_pick_single_column<T>(data: Seq<Seq<T>>, p: usize)
    requires
        forall|r: int| 0 <= r < data.len() ==> p < (#[trigger] data[r]).len(),
    ensures
        col_data(pick_data(data, seq![p]), 0) == col_data(data, p as int),
{
    assert forall|r: int| 0 <= r < data.len() implies #[trigger] col_data(pick_data(data, seq![p]), 0)[r]
        == col_data(data, p as int)[r] by {
        assert(pick_data(data, seq![p])[r] == pick_row(data[r], seq![p]));
        assert(seq![p][0] == p);
        assert(pick_row(data[r], seq![p])[0] == data[r][p as int]);
    }
    assert(col_data(pick_data(data, seq![p]), 0) =~= col_data(data, p as int));
}

/// Retaining every row is the identity on row content and order: a table
/// that `filter_rows` built from all-true decisions shows the same grid.
pub proof fn lemma_filter_rows_all_true<T>(t: Table<T>, u: Table<T>, keep: Seq<bool>)
    requires
        keep.len() == t.nrows(),
        forall|i: int| 0 <= i < keep.len() ==> keep[i] == true,
        u.names() == t.names(),
        u.data() == filter_by(t.data(), keep),
    ensures
        u.data() == t.data(),
        u.names() == t.names(),
{
    lemma_filter_by_all_true(t.data(), keep);
}

/// Retaining every column is the identity on column content and order: a
/// table that `filter_cols` built from all-true decisions shows the same
/// header and the same grid.
pub proof fn lemma_filter_cols_all_true<T>(t: Table<T>, u: Table<T>, keep: Seq<bool>)
    requires
        keep.len() == t.ncols(),
        forall|i: int| 0 <= i < keep.len() ==> keep[i] == true,
        t.wf(),
        u.nrows() == t.nrows(),
        u.names() == filter_by(t.names(), keep),
        forall|r: int|
            0 <= r < t.nrows() ==> #[trigger] u.data()[r] == filter_by(t.data()[r], keep),
    ensures
        u.names() == t.names(),
        u.data() == t.data(),
{
    lemma_filter_by_all_true(t.names(), keep);
    assert forall|r: int| 0 <= r < t.nrows() implies #[trigger] u.data()[r] == t.data()[r] by {
        assert(t.data()[r].len() == t.ncols());
        lemma_filter_by_all_true(t.data()[r], keep);
    }
    assert(u.data() =~= t.data());
}

/// Consolidating twice in a row yields the same observable table as
/// consolidating once: the second pass drops no cell and renumbers no key.
pub proof fn lemma_consolidate_idempotent<T>(t: Table<T>, u: Table<T>, v: Table<T>)
    requires
        t.wf(),
        t.store_len() <= usize::MAX,
        consolidation_of(u, t),
        consolidation_of(v, u),
    ensures
        v.store() == u.store(),
        v.keys() == u.keys(),
        v.names() == u.names(),
        v.data() == u.data(),
{
    let n = t.store_len() as int;
    lemma_compact_len(t.store(), t.keys(), n);
    assert(u.store_len() == new_key(t.keys(), n));
    // every key of `u` is in range: it is the new position of a referenced
    // key of `t`
    assert forall|r: int, c: int|
        0 <= r < u.keys().len() && 0 <= c < u.keys()[r].len() implies (#[trigger] u.keys()[r][c])
        < u.store_len() by {
        let k0 = t.keys()[r][c];
        assert(key_used(t.keys(), k0));
        lemma_compact_index(t.store(), t.keys(), k0 as int, n);
    }
    // every cell of `u` is still referenced
    assert forall|k: usize| k < u.store_len() implies key_used(u.keys(), k) by {
        lemma_new_key_surjective(t.keys(), n, k as int);
        let k0 = choose|k0: int|
            0 <= k0 < n && key_used(t.keys(), k0 as usize) && new_key(t.keys(), k0) == k as int;
        let (r, c) = choose|r: int, c: int|
            0 <= r < t.keys().len() && 0 <= c < t.keys()[r].len() && (#[trigger] t.keys()[r][c])
                == k0 as usize;
        assert(u.keys()[r][c] == k);
    }
    let n2 = u.store_len() as int;
    lemma_new_key_le(t.keys(), n);
    lemma_compact_identity(u.store(), u.keys(), n2);
    assert(v.store() == u.store().take(n2));
    assert(u.store().take(n2) =~= u.store());
    assert forall|r: int, c: int|
        0 <= r < u.keys().len() && 0 <= c < u.keys()[r].len() implies (#[trigger] v.keys()[r][c])
        == u.keys()[r][c] by {
        assert(new_key(u.keys(), u.keys()[r][c] as int) == u.keys()[r][c] as int);
    }
    assert(v.keys() =~~= u.keys());
}

/// A name borne by no retained column can no longer be resolved: after a
/// column filter that dropped every column of that name, a lookup through
/// the new header finds nothing, so `get` on any row fails.
pub proof fn lemma_removed_column_unresolvable(names: Seq<String>, keep: Seq<bool>, name: Seq<char>)
    requires
        keep.len() == names.len(),
        forall|i: int| 0 <= i < names.len() && (#[trigger] names[i])@ == name ==> keep[i] == false,
    ensures
        first_match(filter_by(names, keep).map_values(|s: String| s@), name) is None,
{
    let kept = filter_by(names, keep);
    let header = kept.map_values(|s: String| s@);
    assert forall|j: int| 0 <= j < header.len() implies header[j] != name by {
        lemma_filter_by_element(names, keep, j);
        let i = choose|i: int| 0 <= i < names.len() && kept[j] == names[i] && keep[i] == true;
        assert(header[j] == names[i]@);
    }
    lemma_first_match_none(header, name);
}

} // verus!
