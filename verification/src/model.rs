//! The mathematical model of a table.
//!
//! A table owns a flat store of cells; each row is a sequence of keys into
//! that store, one per column. The functions here describe, at the
//! specification level, how the observable grid of cell values is derived
//! from the store and the key sequences, how a column reference resolves
//! against a header, and what the compaction pass (consolidation) computes.
use vstd::prelude::*;

verus! {

/// The key sequences are well formed: every row has one key per column and
/// every key is a valid index into the cell store.
pub open spec fn keys_wf(keys: Seq<Seq<usize>>, ncols: nat, nstore: nat) -> bool {
    &&& forall|r: int| 0 <= r < keys.len() ==> (#[trigger] keys[r]).len() == ncols
    &&& forall|r: int, c: int|
        0 <= r < keys.len() && 0 <= c < keys[r].len() ==> (#[trigger] keys[r][c]) < nstore
}

/// The observable grid: each key replaced by the cell it addresses.
pub open spec fn grid<T>(store: Seq<T>, keys: Seq<Seq<usize>>) -> Seq<Seq<T>> {
    keys.map_values(|row: Seq<usize>| row.map_values(|k: usize| store[k as int]))
}

/// One column of a grid.
pub open spec fn col_data<T>(data: Seq<Seq<T>>, c: int) -> Seq<T> {
    data.map_values(|row: Seq<T>| row[c])
}

/// The rows of a grid rearranged so that position `k` holds what stood at
/// position `inds[k]`.
pub open spec fn pick_row<A>(row: Seq<A>, inds: Seq<usize>) -> Seq<A> {
    inds.map_values(|i: usize| row[i as int])
}

/// Every row of the grid rearranged by `inds`.
pub open spec fn pick_data<T>(data: Seq<Seq<T>>, inds: Seq<usize>) -> Seq<Seq<T>> {
    data.map_values(|row: Seq<T>| pick_row(row, inds))
}

/// The subsequence of `s` at the positions where `keep` is true.
pub open spec fn filter_by<A>(s: Seq<A>, keep: Seq<bool>) -> Seq<A>
    decreases s.len(),
{
    if s.len() == 0 {
        Seq::empty()
    } else {
        (if keep[0] {
            seq![s[0]]
        } else {
            Seq::empty()
        }) + filter_by(s.drop_first(), keep.drop_first())
    }
}

/// Position of the first column whose name equals `name`, if any.
pub open spec fn first_match(header: Seq<Seq<char>>, name: Seq<char>) -> Option<int>
    decreases header.len(),
{
    if header.len() == 0 {
        None
    } else if header[0] == name {
        Some(0int)
    } else {
        match first_match(header.drop_first(), name) {
            Some(i) => Some(i + 1),
            None => None,
        }
    }
}

/// The column positions not picked, in their original relative order: what
/// a trailing pick appends after the explicit selection.
pub open spec fn trail_inds(picked: Seq<usize>, ncols: nat) -> Seq<usize> {
    filter_by(
        Seq::new(ncols, |i: int| i as usize),
        Seq::new(ncols, |i: int| !picked.contains(i as usize)),
    )
}

/// Renaming positions left to right: each pair overwrites the name at its
/// position, so a later pair naming the same position wins.
pub open spec fn apply_renames(names: Seq<String>, inds: Seq<usize>, news: Seq<String>) -> Seq<
    String,
>
    decreases inds.len(),
{
    if inds.len() == 0 {
        names
    } else {
        apply_renames(
            names.update(inds[0] as int, news[0]),
            inds.drop_first(),
            news.drop_first(),
        )
    }
}

/// Extending a rename list by one pair renames as before and then
/// overwrites that pair's position.
pub proof fn lemma_apply_renames_take(names: Seq<String>, inds: Seq<usize>, news: Seq<String>, k: int)
    requires
        0 <= k < inds.len(),
        k < news.len(),
        forall|j: int| 0 <= j < inds.len() ==> (#[trigger] inds[j]) < names.len(),
    ensures
        apply_renames(names, inds.take(k + 1), news.take(k + 1)) == apply_renames(
            names,
            inds.take(k),
            news.take(k),
        ).update(inds[k] as int, news[k]),
    decreases k,
{
    if k == 0 {
        let n2 = names.update(inds[0] as int, news[0]);
        assert(inds.take(1)[0] == inds[0] && news.take(1)[0] == news[0]);
        assert(inds.take(1).drop_first() =~= Seq::<usize>::empty());
        assert(news.take(1).drop_first() =~= Seq::<String>::empty());
        assert(apply_renames(names, inds.take(1), news.take(1)) == apply_renames(
            n2,
            inds.take(1).drop_first(),
            news.take(1).drop_first(),
        ));
        assert(apply_renames(n2, Seq::<usize>::empty(), Seq::<String>::empty()) == n2);
        assert(inds.take(0).len() == 0);
        assert(apply_renames(names, inds.take(0), news.take(0)) == names);
    } else {
        let names2 = names.update(inds[0] as int, news[0]);
        assert(names2.len() == names.len());
        assert forall|j: int| 0 <= j < inds.drop_first().len() implies (#[trigger] inds.drop_first()[
            j]) < names2.len() by {
            assert(inds.drop_first()[j] == inds[j + 1]);
        }
        lemma_apply_renames_take(names2, inds.drop_first(), news.drop_first(), k - 1);
        assert(inds.take(k + 1).drop_first() =~= inds.drop_first().take(k));
        assert(news.take(k + 1).drop_first() =~= news.drop_first().take(k));
        assert(inds.take(k).drop_first() =~= inds.drop_first().take(k - 1));
        assert(news.take(k).drop_first() =~= news.drop_first().take(k - 1));
        assert(inds.take(k + 1)[0] == inds[0] && news.take(k + 1)[0] == news[0]);
        assert(inds.take(k)[0] == inds[0] && news.take(k)[0] == news[0]);
        assert(inds.drop_first().take(k)[k - 1] == inds[k]);
        assert(news.drop_first().take(k)[k - 1] == news[k]);
        assert(apply_renames(names, inds.take(k + 1), news.take(k + 1)) == apply_renames(
            names2,
            inds.drop_first().take(k),
            news.drop_first().take(k),
        ));
        assert(apply_renames(names, inds.take(k), news.take(k)) == apply_renames(
            names2,
            inds.drop_first().take(k - 1),
            news.drop_first().take(k - 1),
        ));
    }
}

/// Key `k` is referenced by some row.
pub open spec fn key_used(keys: Seq<Seq<usize>>, k: usize) -> bool {
    exists|r: int, c: int|
        0 <= r < keys.len() && 0 <= c < keys[r].len() && (#[trigger] keys[r][c]) == k
}

/// The first `n` cells of the store with the unreferenced ones dropped.
pub open spec fn compact_store<T>(store: Seq<T>, keys: Seq<Seq<usize>>, n: int) -> Seq<T>
    decreases n,
{
    if n <= 0 {
        Seq::empty()
    } else {
        compact_store(store, keys, n - 1) + (if key_used(keys, (n - 1) as usize) {
            seq![store[n - 1]]
        } else {
            Seq::empty()
        })
    }
}

/// Where key `k` lands after compaction: the number of referenced keys
/// strictly below it.
pub open spec fn new_key(keys: Seq<Seq<usize>>, k: int) -> int
    decreases k,
{
    if k <= 0 {
        0
    } else {
        new_key(keys, k - 1) + (if key_used(keys, (k - 1) as usize) {
            1int
        } else {
            0int
        })
    }
}

/// If position `i` holds the name and no earlier position does, the first
/// match is `i`.
pub proof fn lemma_first_match_is(header: Seq<Seq<char>>, name: Seq<char>, i: int)
    requires
        0 <= i < header.len(),
        header[i] == name,
        forall|j: int| 0 <= j < i ==> header[j] != name,
    ensures
        first_match(header, name) == Some(i),
    decreases header.len(),
{
    if i > 0 {
        assert(header[0] != name);
        lemma_first_match_is(header.drop_first(), name, i - 1);
    }
}

/// If no position holds the name, there is no first match. In particular a
/// column that has been removed from the header can no longer be resolved.
pub proof fn lemma_first_match_none(header: Seq<Seq<char>>, name: Seq<char>)
    requires
        forall|j: int| 0 <= j < header.len() ==> header[j] != name,
    ensures
        first_match(header, name) is None,
    decreases header.len(),
{
    if header.len() > 0 {
        lemma_first_match_none(header.drop_first(), name);
    }
}

/// Appending one decision to a filter: the filtered prefix grows by the new
/// element exactly when its decision is true.
pub proof fn lemma_filter_by_take<A>(s: Seq<A>, keep: Seq<bool>, i: int)
    requires
        0 <= i < s.len(),
        i < keep.len(),
    ensures
        filter_by(s.take(i + 1), keep.take(i + 1)) == filter_by(s.take(i), keep.take(i)) + (
        if keep[i] {
            seq![s[i]]
        } else {
            Seq::<A>::empty()
        }),
    decreases i,
{
    let st = s.take(i + 1);
    let kt = keep.take(i + 1);
    if i == 0 {
        assert(st.drop_first().len() == 0);
        assert(filter_by(st.drop_first(), kt.drop_first()) =~= Seq::<A>::empty());
        assert(st[0] == s[0] && kt[0] == keep[0]);
        assert(filter_by(st, kt) =~= (if keep[0] {
            seq![s[0]]
        } else {
            Seq::<A>::empty()
        }));
        assert(s.take(0).len() == 0);
        assert(filter_by(s.take(0), keep.take(0)) =~= Seq::<A>::empty());
    } else {
        lemma_filter_by_take(s.drop_first(), keep.drop_first(), i - 1);
        assert(st.drop_first() =~= s.drop_first().take(i));
        assert(kt.drop_first() =~= keep.drop_first().take(i));
        assert(s.take(i).drop_first() =~= s.drop_first().take(i - 1));
        assert(keep.take(i).drop_first() =~= keep.drop_first().take(i - 1));
        assert(s.drop_first().take(i)[i - 1] == s[i]);
        assert(filter_by(st, kt) == (if kt[0] {
            seq![st[0]]
        } else {
            Seq::<A>::empty()
        }) + filter_by(s.drop_first().take(i), keep.drop_first().take(i)));
    }
}

/// Filtering with every decision true keeps every element in place: such a
/// filter is the identity on content and order.
pub proof fn lemma_filter_by_all_true<A>(s: Seq<A>, keep: Seq<bool>)
    requires
        keep.len() >= s.len(),
        forall|i: int| 0 <= i < s.len() ==> keep[i] == true,
    ensures
        filter_by(s, keep) == s,
    decreases s.len(),
{
    if s.len() > 0 {
        lemma_filter_by_all_true(s.drop_first(), keep.drop_first());
        assert(filter_by(s, keep) =~= seq![s[0]] + s.drop_first());
        assert(seq![s[0]] + s.drop_first() =~= s);
    }
}

/// A filtered sequence is never longer than the original.
pub proof fn lemma_filter_by_len<A>(s: Seq<A>, keep: Seq<bool>)
    ensures
        filter_by(s, keep).len() <= s.len(),
    decreases s.len(),
{
    if s.len() > 0 {
        lemma_filter_by_len(s.drop_first(), keep.drop_first());
    }
}

/// Every element of a filtered sequence is an element of the original,
/// standing at a position whose decision was true.
pub proof fn lemma_filter_by_element<A>(s: Seq<A>, keep: Seq<bool>, j: int)
    requires
        0 <= j < filter_by(s, keep).len(),
        s.len() <= keep.len(),
    ensures
        exists|i: int|
            0 <= i < s.len() && filter_by(s, keep)[j] == s[i] && keep[i] == true,
    decreases s.len(),
{
    let head = (if keep[0] {
        seq![s[0]]
    } else {
        Seq::<A>::empty()
    });
    let rest = filter_by(s.drop_first(), keep.drop_first());
    assert(filter_by(s, keep) == head + rest);
    if j < head.len() {
        assert(0 <= 0 < s.len() && filter_by(s, keep)[j] == s[0] && keep[0] == true);
    } else {
        lemma_filter_by_element(s.drop_first(), keep.drop_first(), j - head.len());
        let i0 = choose|i0: int|
            0 <= i0 < s.drop_first().len() && rest[j - head.len()] == s.drop_first()[i0]
                && keep.drop_first()[i0] == true;
        assert(s.drop_first()[i0] == s[i0 + 1]);
        assert(keep.drop_first()[i0] == keep[i0 + 1]);
        assert(0 <= i0 + 1 < s.len() && filter_by(s, keep)[j] == s[i0 + 1] && keep[i0 + 1]
            == true);
    }
}

/// The position the `j`-th retained element was filtered from.
pub open spec fn kept_pos(keep: Seq<bool>, j: int) -> int
    decreases keep.len(),
{
    if keep.len() == 0 {
        0
    } else if keep[0] {
        if j == 0 {
            0
        } else {
            1 + kept_pos(keep.drop_first(), j - 1)
        }
    } else {
        1 + kept_pos(keep.drop_first(), j)
    }
}

/// The `j`-th retained element stands at `kept_pos(keep, j)` in the
/// original, a position whose decision was true.
pub proof fn lemma_filter_by_kept_pos<A>(s: Seq<A>, keep: Seq<bool>, j: int)
    requires
        0 <= j < filter_by(s, keep).len(),
        s.len() <= keep.len(),
    ensures
        0 <= kept_pos(keep, j) < s.len(),
        keep[kept_pos(keep, j)] == true,
        filter_by(s, keep)[j] == s[kept_pos(keep, j)],
    decreases s.len(),
{
    let head = (if keep[0] {
        seq![s[0]]
    } else {
        Seq::<A>::empty()
    });
    let rest = filter_by(s.drop_first(), keep.drop_first());
    assert(filter_by(s, keep) == head + rest);
    if keep[0] && j == 0 {
        assert(filter_by(s, keep)[0] == s[0]);
    } else {
        let j2 = j - head.len();
        lemma_filter_by_kept_pos(s.drop_first(), keep.drop_first(), j2);
        let p2 = kept_pos(keep.drop_first(), j2);
        assert(kept_pos(keep, j) == 1 + p2);
        assert(keep.drop_first()[p2] == keep[1 + p2]);
        assert(s.drop_first()[p2] == s[1 + p2]);
        assert(filter_by(s, keep)[j] == rest[j2]);
    }
}

/// Retained positions come out in strictly increasing original order.
pub proof fn lemma_kept_pos_strict<A>(s: Seq<A>, keep: Seq<bool>, j1: int, j2: int)
    requires
        0 <= j1 < j2 < filter_by(s, keep).len(),
        s.len() <= keep.len(),
    ensures
        kept_pos(keep, j1) < kept_pos(keep, j2),
    decreases s.len(),
{
    let head = (if keep[0] {
        seq![s[0]]
    } else {
        Seq::<A>::empty()
    });
    let rest = filter_by(s.drop_first(), keep.drop_first());
    assert(filter_by(s, keep) == head + rest);
    if keep[0] {
        if j1 == 0 {
            lemma_filter_by_kept_pos(s.drop_first(), keep.drop_first(), j2 - 1);
            assert(kept_pos(keep, j2) == 1 + kept_pos(keep.drop_first(), j2 - 1));
        } else {
            lemma_kept_pos_strict(s.drop_first(), keep.drop_first(), j1 - 1, j2 - 1);
        }
    } else {
        lemma_kept_pos_strict(s.drop_first(), keep.drop_first(), j1, j2);
    }
}

/// Only the first `s.len()` decisions matter: truncating `keep` at or past
/// them leaves the filter unchanged.
pub proof fn lemma_filter_by_prefix<A>(s: Seq<A>, keep: Seq<bool>, m: int)
    requires
        s.len() <= m <= keep.len(),
    ensures
        filter_by(s, keep.take(m)) == filter_by(s, keep),
    decreases s.len(),
{
    if s.len() > 0 {
        lemma_filter_by_prefix(s.drop_first(), keep.drop_first(), m - 1);
        assert(keep.take(m).drop_first() =~= keep.drop_first().take(m - 1));
        assert(keep.take(m)[0] == keep[0]);
    }
}

/// Sequences of one length are filtered to one length.
pub proof fn lemma_filter_by_len_eq<A, B>(s1: Seq<A>, s2: Seq<B>, keep: Seq<bool>)
    requires
        s1.len() == s2.len(),
    ensures
        filter_by(s1, keep).len() == filter_by(s2, keep).len(),
    decreases s1.len(),
{
    if s1.len() > 0 {
        lemma_filter_by_len_eq(s1.drop_first(), s2.drop_first(), keep.drop_first());
    }
}

/// Filtering commutes with mapping a function over the elements.
pub proof fn lemma_filter_by_map_values<A, B>(s: Seq<A>, keep: Seq<bool>, f: spec_fn(A) -> B)
    ensures
        filter_by(s, keep).map_values(f) == filter_by(s.map_values(f), keep),
    decreases s.len(),
{
    if s.len() == 0 {
        assert(filter_by(s, keep).map_values(f) =~= filter_by(s.map_values(f), keep));
    } else {
        lemma_filter_by_map_values(s.drop_first(), keep.drop_first(), f);
        assert(s.map_values(f).drop_first() =~= s.drop_first().map_values(f));
        assert(filter_by(s, keep).map_values(f) =~= filter_by(s.map_values(f), keep));
    }
}

/// Compaction never moves a key up: its new position is at most the old one.
pub proof fn lemma_new_key_le(keys: Seq<Seq<usize>>, k: int)
    requires
        k >= 0,
    ensures
        0 <= new_key(keys, k) <= k,
    decreases k,
{
    if k > 0 {
        lemma_new_key_le(keys, k - 1);
    }
}

/// The compacted store holds exactly one cell per referenced key below `n`.
pub proof fn lemma_compact_len<T>(store: Seq<T>, keys: Seq<Seq<usize>>, n: int)
    requires
        n >= 0,
    ensures
        compact_store(store, keys, n).len() == new_key(keys, n),
    decreases n,
{
    if n > 0 {
        lemma_compact_len(store, keys, n - 1);
    }
}

/// A referenced key's cell survives compaction and lands at its new
/// position.
pub proof fn lemma_compact_index<T>(store: Seq<T>, keys: Seq<Seq<usize>>, k: int, n: int)
    requires
        0 <= k < n,
        key_used(keys, k as usize),
    ensures
        new_key(keys, k) < new_key(keys, n),
        new_key(keys, n) == compact_store(store, keys, n).len(),
        compact_store(store, keys, n)[new_key(keys, k)] == store[k],
    decreases n,
{
    lemma_compact_len(store, keys, n);
    lemma_compact_len(store, keys, n - 1);
    if k == n - 1 {
        lemma_new_key_le(keys, k);
        assert(compact_store(store, keys, n) == compact_store(store, keys, n - 1)
            + seq![store[n - 1]]);
        assert(new_key(keys, n) == new_key(keys, n - 1) + 1);
        assert(compact_store(store, keys, n)[new_key(keys, k)] == store[k]);
    } else {
        lemma_compact_index(store, keys, k, n - 1);
        lemma_new_key_le(keys, k);
        let a = compact_store(store, keys, n - 1);
        let b = (if key_used(keys, (n - 1) as usize) {
            seq![store[n - 1]]
        } else {
            Seq::<T>::empty()
        });
        assert(new_key(keys, k) < a.len());
        assert(compact_store(store, keys, n) == a + b);
        assert((a + b)[new_key(keys, k)] == a[new_key(keys, k)]);
    }
}

/// Every position of the compacted store is the new position of some
/// referenced key.
pub proof fn lemma_new_key_surjective(keys: Seq<Seq<usize>>, n: int, k2: int)
    requires
        0 <= k2 < new_key(keys, n),
    ensures
        exists|k: int| 0 <= k < n && key_used(keys, k as usize) && new_key(keys, k) == k2,
    decreases n,
{
    if n > 0 {
        if k2 < new_key(keys, n - 1) {
            lemma_new_key_surjective(keys, n - 1, k2);
            let k = choose|k: int|
                0 <= k < n - 1 && key_used(keys, k as usize) && new_key(keys, k) == k2;
            assert(0 <= k < n && key_used(keys, k as usize) && new_key(keys, k) == k2);
        } else {
            assert(key_used(keys, (n - 1) as usize) && new_key(keys, n - 1) == k2);
        }
    }
}

/// When every key below `n` is referenced, compaction keeps the first `n`
/// cells as they are and renumbers no key: a second pass changes nothing.
pub proof fn lemma_compact_identity<T>(store: Seq<T>, keys: Seq<Seq<usize>>, n: int)
    requires
        0 <= n <= store.len(),
        n <= usize::MAX,
        forall|k: int| 0 <= k < n ==> #[trigger] key_used(keys, k as usize),
    ensures
        compact_store(store, keys, n) == store.take(n),
        forall|k: int| 0 <= k <= n ==> #[trigger] new_key(keys, k) == k,
    decreases n,
{
    if n == 0 {
        assert(compact_store(store, keys, 0) =~= store.take(0));
    } else {
        lemma_compact_identity(store, keys, n - 1);
        assert(key_used(keys, (n - 1) as usize));
        assert(new_key(keys, n) == new_key(keys, n - 1) + 1);
        assert(compact_store(store, keys, n) =~= store.take(n));
    }
}

/// The referenced keys below `n`, as a set.
pub open spec fn used_below(keys: Seq<Seq<usize>>, n: int) -> Set<usize> {
    Set::new(|k: usize| (k as int) < n && key_used(keys, k))
}

/// `new_key(keys, n)` counts exactly the referenced keys below `n`.
pub proof fn lemma_new_key_card(keys: Seq<Seq<usize>>, n: int)
    requires
        0 <= n <= usize::MAX + 1,
    ensures
        used_below(keys, n).finite(),
        used_below(keys, n).len() == new_key(keys, n),
    decreases n,
{
    if n == 0 {
        assert(used_below(keys, 0) =~= Set::empty());
    } else {
        lemma_new_key_card(keys, n - 1);
        let prev = used_below(keys, n - 1);
        if key_used(keys, (n - 1) as usize) {
            assert(used_below(keys, n) =~= prev.insert((n - 1) as usize));
            assert(!prev.contains((n - 1) as usize));
        } else {
            assert(used_below(keys, n) =~= prev);
        }
    }
}

/// A key referenced at row `r`, column `c` occurs in the flattened key
/// sequences.
pub proof fn lemma_flatten_member(keys: Seq<Seq<usize>>, r: int, c: int)
    requires
        0 <= r < keys.len(),
        0 <= c < keys[r].len(),
    ensures
        keys.flatten().contains(keys[r][c]),
    decreases r,
{
    if r == 0 {
        assert(keys.flatten() == keys.first() + keys.drop_first().flatten());
        assert(keys.flatten()[c] == keys[0][c]);
    } else {
        let rest = keys.drop_first();
        lemma_flatten_member(rest, r - 1, c);
        let i = choose|i: int|
            0 <= i < rest.flatten().len() && rest.flatten()[i] == rest[r - 1][c];
        assert(keys.flatten() == keys.first() + rest.flatten());
        assert(keys.flatten()[keys.first().len() + i] == rest.flatten()[i]);
        assert(rest[r - 1] == keys[r]);
    }
}

/// The compacted store is no larger than one cell per row and column slot.
pub proof fn lemma_store_bound(keys: Seq<Seq<usize>>, ncols: nat, n: int)
    requires
        0 <= n <= usize::MAX + 1,
        forall|r: int| 0 <= r < keys.len() ==> (#[trigger] keys[r]).len() == ncols,
    ensures
        new_key(keys, n) <= keys.len() * ncols,
{
    lemma_new_key_card(keys, n);
    let below = used_below(keys, n);
    let all = keys.flatten().to_set();
    assert forall|k: usize| below.contains(k) implies all.contains(k) by {
        assert(key_used(keys, k));
        let (r, c) = choose|r: int, c: int|
            0 <= r < keys.len() && 0 <= c < keys[r].len() && (#[trigger] keys[r][c]) == k;
        lemma_flatten_member(keys, r, c);
    }
    assert(below.subset_of(all));
    keys.flatten().lemma_cardinality_of_set();
    vstd::set_lib::lemma_len_subset(below, all);
    keys.lemma_flatten_and_flatten_alt_are_equivalent();
    keys.lemma_flatten_length_le_mul(ncols as int);
    assert(keys.flatten().len() == keys.flatten_alt().len());
}

} // verus!
