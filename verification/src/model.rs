//! The mathematical model of the index: association sequences keyed by
//! character sequences, the table and index builders, and the search results.
use vstd::prelude::*;
use crate::text::{lower_of, split_ws, strict_prefix_match};

verus! {

/// The model of one language table: keyword to glyph list, in storage order.
pub type TableModel = Seq<(Seq<char>, Seq<Seq<char>>)>;

/// The model of the whole index: language id to table, in storage order.
pub type IndexModel = Seq<(Seq<char>, TableModel)>;

/// The value stored under the first entry with key `k`, if any.
pub open spec fn assoc_get<V>(t: Seq<(Seq<char>, V)>, k: Seq<char>) -> Option<V>
    decreases t.len(),
{
    if t.len() == 0 {
        None
    } else if t[0].0 == k {
        Some(t[0].1)
    } else {
        assoc_get(t.drop_first(), k)
    }
}

/// Whether some entry has key `k`.
pub open spec fn assoc_has<V>(t: Seq<(Seq<char>, V)>, k: Seq<char>) -> bool {
    assoc_get(t, k) is Some
}

/// Bind `k` to `v`: overwrite the first entry with key `k` in place, or
/// append a new entry at the end.
pub open spec fn assoc_set<V>(t: Seq<(Seq<char>, V)>, k: Seq<char>, v: V) -> Seq<(Seq<char>, V)>
    decreases t.len(),
{
    if t.len() == 0 {
        seq![(k, v)]
    } else if t[0].0 == k {
        seq![(k, v)] + t.drop_first()
    } else {
        seq![t[0]] + assoc_set(t.drop_first(), k, v)
    }
}

/// Drop the first entry with key `k`, if any.
pub open spec fn assoc_del<V>(t: Seq<(Seq<char>, V)>, k: Seq<char>) -> Seq<(Seq<char>, V)>
    decreases t.len(),
{
    if t.len() == 0 {
        t
    } else if t[0].0 == k {
        t.drop_first()
    } else {
        seq![t[0]] + assoc_del(t.drop_first(), k)
    }
}

/// The keys of the entries, in order.
pub open spec fn assoc_keys<V>(t: Seq<(Seq<char>, V)>) -> Seq<Seq<char>> {
    t.map_values(|e: (Seq<char>, V)| e.0)
}

/// No two entries share a key.
pub open spec fn distinct_keys<V>(t: Seq<(Seq<char>, V)>) -> bool {
    forall|i: int, j: int| 0 <= i < j < t.len() ==> t[i].0 != t[j].0
}

/// A key as the lowercasing step leaves it: the lowercase form of some text.
pub open spec fn is_lowered(k: Seq<char>) -> bool {
    exists|s: Seq<char>| lower_of(s) == k
}

/// A well-formed table: keywords distinct and lowercase, every glyph list
/// non-empty.
pub open spec fn table_wf(t: TableModel) -> bool {
    &&& distinct_keys(t)
    &&& forall|i: int| 0 <= i < t.len() ==> #[trigger] t[i].1.len() > 0
    &&& forall|i: int| 0 <= i < t.len() ==> is_lowered(#[trigger] t[i].0)
}

/// A well-formed index: language ids distinct and lowercase, every table
/// well-formed.
pub open spec fn index_wf(m: IndexModel) -> bool {
    &&& distinct_keys(m)
    &&& forall|i: int| 0 <= i < m.len() ==> table_wf(#[trigger] m[i].1)
    &&& forall|i: int| 0 <= i < m.len() ==> is_lowered(#[trigger] m[i].0)
}

/// The table built from raw keyword/glyph-text pairs, taken in order: the
/// keyword is lowercased, the glyph text split on whitespace, and a pair with
/// no glyph tokens is ignored.
pub open spec fn build_table(pairs: Seq<(Seq<char>, Seq<char>)>) -> TableModel
    decreases pairs.len(),
{
    if pairs.len() == 0 {
        Seq::empty()
    } else {
        let rest = build_table(pairs.drop_last());
        let k = lower_of(pairs.last().0);
        let toks = split_ws(pairs.last().1);
        if toks.len() == 0 {
            rest
        } else {
            assoc_set(rest, k, toks)
        }
    }
}

/// The index built from a whole dataset, taken in order: each language id is
/// lowercased and bound to the table built from its pairs.
pub open spec fn build_index(data: Seq<(Seq<char>, Seq<(Seq<char>, Seq<char>)>)>) -> IndexModel
    decreases data.len(),
{
    if data.len() == 0 {
        Seq::empty()
    } else {
        let rest = build_index(data.drop_last());
        assoc_set(rest, lower_of(data.last().0), build_table(data.last().1))
    }
}

/// The strict-prefix filter for query `q`.
pub open spec fn prefix_pred(q: Seq<char>) -> spec_fn((Seq<char>, Seq<Seq<char>>)) -> bool {
    |e: (Seq<char>, Seq<Seq<char>>)| strict_prefix_match(q, e.0)
}

/// The matches of `q` in one table: the exact match first, if any, then every
/// strict-prefix match in the table's storage order.
pub open spec fn table_matches(t: TableModel, q: Seq<char>) -> TableModel {
    let prefixes = t.filter(prefix_pred(q));
    match assoc_get(t, q) {
        Some(g) => seq![(q, g)] + prefixes,
        None => prefixes,
    }
}

/// What a single-language search returns, given the already lowercased query
/// and language id: empty for an unknown language.
pub open spec fn search_model(m: IndexModel, q: Seq<char>, lang: Seq<char>) -> TableModel {
    match assoc_get(m, lang) {
        Some(t) => table_matches(t, q),
        None => Seq::empty(),
    }
}

/// Whether a keyword already occurs in an accumulated result sequence.
pub open spec fn seen(rs: TableModel, k: Seq<char>) -> bool {
    exists|i: int| 0 <= i < rs.len() && rs[i].0 == k
}

/// The strict-prefix filter for `q` that also drops keywords already in `acc`.
pub open spec fn unseen_prefix_pred(q: Seq<char>, acc: TableModel) -> spec_fn(
    (Seq<char>, Seq<Seq<char>>),
) -> bool {
    |e: (Seq<char>, Seq<Seq<char>>)| strict_prefix_match(q, e.0) && !seen(acc, e.0)
}

/// One language's contribution to a multi-language search: the exact match if
/// present and not yet seen, then the unseen strict-prefix matches.
pub open spec fn multi_step(m: IndexModel, q: Seq<char>, lang: Seq<char>, acc: TableModel)
    -> TableModel {
    match assoc_get(m, lang) {
        None => acc,
        Some(t) => {
            let acc1 = match assoc_get(t, q) {
                Some(g) => if !seen(acc, q) {
                    acc.push((q, g))
                } else {
                    acc
                },
                None => acc,
            };
            acc1 + t.filter(unseen_prefix_pred(q, acc1))
        },
    }
}

/// What a multi-language search returns: the languages are taken in the given
/// order, each id lowercased, and every keyword is emitted at most once.
pub open spec fn multi_from(m: IndexModel, q: Seq<char>, langs: Seq<Seq<char>>, acc: TableModel)
    -> TableModel
    decreases langs.len(),
{
    if langs.len() == 0 {
        acc
    } else {
        multi_from(m, q, langs.drop_first(), multi_step(m, q, lower_of(langs[0]), acc))
    }
}

/// The multi-language search result, starting from an empty accumulator.
pub open spec fn search_multi_model(m: IndexModel, q: Seq<char>, langs: Seq<Seq<char>>)
    -> TableModel {
    multi_from(m, q, langs, Seq::empty())
}

/// A lookup that stops at the first entry with key `k` reads `assoc_get`.
pub proof fn lemma_assoc_get_found<V>(t: Seq<(Seq<char>, V)>, k: Seq<char>, j: int)
    requires
        0 <= j < t.len(),
        t[j].0 == k,
        forall|i: int| 0 <= i < j ==> t[i].0 != k,
    ensures
        assoc_get(t, k) == Some(t[j].1),
    decreases t.len(),
{
    if j > 0 {
        lemma_assoc_get_found(t.drop_first(), k, j - 1);
    }
}

/// A lookup over entries none of which has key `k` reads `assoc_get` as None.
pub proof fn lemma_assoc_get_absent<V>(t: Seq<(Seq<char>, V)>, k: Seq<char>)
    requires
        forall|i: int| 0 <= i < t.len() ==> t[i].0 != k,
    ensures
        assoc_get(t, k) is None,
    decreases t.len(),
{
    if t.len() > 0 {
        lemma_assoc_get_absent(t.drop_first(), k);
    }
}

/// Overwriting the first entry with key `k` in place computes `assoc_set`.
pub proof fn lemma_assoc_set_found<V>(t: Seq<(Seq<char>, V)>, k: Seq<char>, v: V, j: int)
    requires
        0 <= j < t.len(),
        t[j].0 == k,
        forall|i: int| 0 <= i < j ==> t[i].0 != k,
    ensures
        assoc_set(t, k, v) == t.update(j, (k, v)),
    decreases t.len(),
{
    if j == 0 {
        assert(assoc_set(t, k, v) =~= t.update(0, (k, v)));
    } else {
        lemma_assoc_set_found(t.drop_first(), k, v, j - 1);
        assert(assoc_set(t, k, v) =~= t.update(j, (k, v)));
    }
}

/// Appending a new entry at the end computes `assoc_set` when `k` is absent.
pub proof fn lemma_assoc_set_absent<V>(t: Seq<(Seq<char>, V)>, k: Seq<char>, v: V)
    requires
        forall|i: int| 0 <= i < t.len() ==> t[i].0 != k,
    ensures
        assoc_set(t, k, v) == t.push((k, v)),
    decreases t.len(),
{
    if t.len() == 0 {
        assert(assoc_set(t, k, v) =~= t.push((k, v)));
    } else {
        lemma_assoc_set_absent(t.drop_first(), k, v);
        assert(assoc_set(t, k, v) =~= t.push((k, v)));
    }
}

/// Removing the first entry with key `k` computes `assoc_del`.
pub proof fn lemma_assoc_del_found<V>(t: Seq<(Seq<char>, V)>, k: Seq<char>, j: int)
    requires
        0 <= j < t.len(),
        t[j].0 == k,
        forall|i: int| 0 <= i < j ==> t[i].0 != k,
    ensures
        assoc_del(t, k) == t.remove(j),
    decreases t.len(),
{
    if j == 0 {
        assert(assoc_del(t, k) =~= t.remove(0));
    } else {
        lemma_assoc_del_found(t.drop_first(), k, j - 1);
        assert(assoc_del(t, k) =~= t.remove(j));
    }
}

/// `assoc_del` of an absent key changes nothing.
pub proof fn lemma_assoc_del_absent<V>(t: Seq<(Seq<char>, V)>, k: Seq<char>)
    requires
        forall|i: int| 0 <= i < t.len() ==> t[i].0 != k,
    ensures
        assoc_del(t, k) == t,
    decreases t.len(),
{
    if t.len() > 0 {
        lemma_assoc_del_absent(t.drop_first(), k);
        assert(assoc_del(t, k) =~= t);
    }
}

/// `assoc_get` after `assoc_set`: the written key reads the written value,
/// every other key reads as before.
pub proof fn lemma_assoc_get_set<V>(t: Seq<(Seq<char>, V)>, k: Seq<char>, v: V, k2: Seq<char>)
    ensures
        assoc_get(assoc_set(t, k, v), k2) == if k2 == k {
            Some(v)
        } else {
            assoc_get(t, k2)
        },
    decreases t.len(),
{
    let s = assoc_set(t, k, v);
    if t.len() == 0 {
        assert(s[0] == (k, v));
        assert(s.drop_first() =~= t);
    } else if t[0].0 == k {
        assert(s[0] == (k, v));
        assert(s.drop_first() =~= t.drop_first());
    } else {
        lemma_assoc_get_set(t.drop_first(), k, v, k2);
        assert(s[0] == t[0]);
        assert(s.drop_first() =~= assoc_set(t.drop_first(), k, v));
    }
}

/// `assoc_get` after `assoc_del` under distinct keys: the removed key reads
/// None, every other key reads as before.
pub proof fn lemma_assoc_get_del<V>(t: Seq<(Seq<char>, V)>, k: Seq<char>, k2: Seq<char>)
    requires
        distinct_keys(t),
    ensures
        assoc_get(assoc_del(t, k), k2) == if k2 == k {
            None::<V>
        } else {
            assoc_get(t, k2)
        },
    decreases t.len(),
{
    if t.len() > 0 {
        if t[0].0 == k {
            if k2 == k {
                assert(forall|i: int| 0 <= i < t.drop_first().len()
                    ==> t.drop_first()[i].0 != k);
                lemma_assoc_get_absent(t.drop_first(), k);
            }
        } else {
            lemma_assoc_get_del(t.drop_first(), k, k2);
            assert(assoc_del(t, k).drop_first() =~= assoc_del(t.drop_first(), k));
        }
    }
}

/// `assoc_set` preserves distinctness of keys.
pub proof fn lemma_assoc_set_distinct<V>(t: Seq<(Seq<char>, V)>, k: Seq<char>, v: V)
    requires
        distinct_keys(t),
    ensures
        distinct_keys(assoc_set(t, k, v)),
        assoc_keys(assoc_set(t, k, v)) == if assoc_has(t, k) {
            assoc_keys(t)
        } else {
            assoc_keys(t).push(k)
        },
    decreases t.len(),
{
    if exists|j: int| 0 <= j < t.len() && t[j].0 == k {
        let j = choose|j: int|
            0 <= j < t.len() && t[j].0 == k && forall|i: int| 0 <= i < j ==> t[i].0 != k;
        assert(exists|j: int|
            0 <= j < t.len() && t[j].0 == k && (forall|i: int| 0 <= i < j ==> t[i].0 != k)) by {
            let j0 = choose|j0: int| 0 <= j0 < t.len() && t[j0].0 == k;
            lemma_first_occurrence(t, k, j0);
        }
        lemma_assoc_get_found(t, k, j);
        lemma_assoc_set_found(t, k, v, j);
        assert(assoc_keys(t.update(j, (k, v))) =~= assoc_keys(t));
    } else {
        lemma_assoc_get_absent(t, k);
        lemma_assoc_set_absent(t, k, v);
        assert(assoc_keys(t.push((k, v))) =~= assoc_keys(t).push(k));
    }
}

/// Among the indices carrying key `k` there is a first one.
pub proof fn lemma_first_occurrence<V>(t: Seq<(Seq<char>, V)>, k: Seq<char>, j0: int)
    requires
        0 <= j0 < t.len(),
        t[j0].0 == k,
    ensures
        exists|j: int|
            0 <= j < t.len() && t[j].0 == k && (forall|i: int| 0 <= i < j ==> t[i].0 != k),
    decreases j0,
{
    if forall|i: int| 0 <= i < j0 ==> t[i].0 != k {
        assert(0 <= j0 < t.len() && t[j0].0 == k && (forall|i: int| 0 <= i < j0
            ==> t[i].0 != k));
    } else {
        let j1 = choose|j1: int| 0 <= j1 < j0 && t[j1].0 == k;
        lemma_first_occurrence(t, k, j1);
    }
}

/// `assoc_del` preserves distinctness of keys.
pub proof fn lemma_assoc_del_distinct<V>(t: Seq<(Seq<char>, V)>, k: Seq<char>)
    requires
        distinct_keys(t),
    ensures
        distinct_keys(assoc_del(t, k)),
    decreases t.len(),
{
    if t.len() > 0 && t[0].0 != k {
        lemma_assoc_del_distinct(t.drop_first(), k);
        assert(assoc_del(t, k).drop_first() =~= assoc_del(t.drop_first(), k));
        let r = assoc_del(t, k);
        assert forall|i: int, j: int| 0 <= i < j < r.len() implies r[i].0 != r[j].0 by {
            if i > 0 {
                assert(r[i] == r.drop_first()[i - 1]);
                assert(r[j] == r.drop_first()[j - 1]);
            } else {
                assert(r[j] == r.drop_first()[j - 1]);
                assert(exists|x: int|
                    0 <= x < t.drop_first().len() && t.drop_first()[x]
                        == #[trigger] assoc_del(t.drop_first(), k)[j - 1]) by {
                    lemma_del_is_subseq(t.drop_first(), k, j - 1);
                }
            }
        }
    }
}

/// Every entry of `assoc_del(t, k)` is an entry of `t`.
pub proof fn lemma_del_is_subseq<V>(t: Seq<(Seq<char>, V)>, k: Seq<char>, j: int)
    requires
        0 <= j < assoc_del(t, k).len(),
    ensures
        exists|x: int| 0 <= x < t.len() && t[x] == #[trigger] assoc_del(t, k)[j],
    decreases t.len(),
{
    if t.len() > 0 {
        if t[0].0 == k {
            assert(t[j + 1] == assoc_del(t, k)[j]);
        } else if j == 0 {
            assert(t[0] == assoc_del(t, k)[0]);
        } else {
            lemma_del_is_subseq(t.drop_first(), k, j - 1);
            let x = choose|x: int|
                0 <= x < t.drop_first().len() && t.drop_first()[x] == assoc_del(
                    t.drop_first(),
                    k,
                )[j - 1];
            assert(assoc_del(t, k)[j] == assoc_del(t.drop_first(), k)[j - 1]);
            assert(t[x + 1] == assoc_del(t, k)[j]);
        }
    }
}

/// Filtering one more element extends the filtered sequence by that element
/// exactly when it satisfies the predicate.
pub proof fn lemma_filter_take_step<A>(s: Seq<A>, pred: spec_fn(A) -> bool, j: int)
    requires
        0 <= j < s.len(),
    ensures
        s.take(j + 1).filter(pred) == if pred(s[j]) {
            s.take(j).filter(pred).push(s[j])
        } else {
            s.take(j).filter(pred)
        },
{
    reveal(Seq::filter);
    assert(s.take(j + 1).drop_last() =~= s.take(j));
    assert(s.take(j + 1).last() == s[j]);
}

/// Every element of a filtered sequence is an element of the unfiltered one.
pub proof fn lemma_filter_elem<A>(s: Seq<A>, pred: spec_fn(A) -> bool, j: int)
    requires
        0 <= j < s.filter(pred).len(),
    ensures
        exists|x: int| 0 <= x < s.len() && s[x] == #[trigger] s.filter(pred)[j],
    decreases s.len(),
{
    reveal(Seq::filter);
    if s.len() > 0 {
        let sub = s.drop_last().filter(pred);
        if j < sub.len() {
            lemma_filter_elem(s.drop_last(), pred, j);
            let x = choose|x: int| 0 <= x < s.drop_last().len() && s.drop_last()[x] == sub[j];
            assert(s[x] == s.filter(pred)[j]);
        } else {
            assert(s[s.len() - 1] == s.filter(pred)[j]);
        }
    }
}

/// A value read by `assoc_get` stands in some entry of the sequence.
pub proof fn lemma_assoc_get_entry<V>(t: Seq<(Seq<char>, V)>, k: Seq<char>)
    requires
        assoc_get(t, k) is Some,
    ensures
        exists|i: int| 0 <= i < t.len() && #[trigger] t[i] == (k, assoc_get(t, k)->Some_0),
    decreases t.len(),
{
    if t.len() > 0 {
        if t[0].0 == k {
            assert(t[0] == (k, assoc_get(t, k)->Some_0));
        } else {
            lemma_assoc_get_entry(t.drop_first(), k);
            let i = choose|i: int|
                0 <= i < t.drop_first().len() && #[trigger] t.drop_first()[i] == (
                    k,
                    assoc_get(t.drop_first(), k)->Some_0,
                );
            assert(t[i + 1] == (k, assoc_get(t, k)->Some_0));
        }
    }
}

/// Every entry of `assoc_set(t, k, v)` is `(k, v)` or an entry of `t`.
pub proof fn lemma_assoc_set_entries<V>(t: Seq<(Seq<char>, V)>, k: Seq<char>, v: V, j: int)
    requires
        0 <= j < assoc_set(t, k, v).len(),
    ensures
        assoc_set(t, k, v)[j] == (k, v) || exists|x: int|
            0 <= x < t.len() && t[x] == #[trigger] assoc_set(t, k, v)[j],
    decreases t.len(),
{
    let s = assoc_set(t, k, v);
    if t.len() == 0 {
        assert(s[0] == (k, v));
    } else if t[0].0 == k {
        if j == 0 {
            assert(s[0] == (k, v));
        } else {
            assert(t[j] == s[j]);
        }
    } else {
        if j == 0 {
            assert(t[0] == s[0]);
        } else {
            assert(s[j] == assoc_set(t.drop_first(), k, v)[j - 1]);
            lemma_assoc_set_entries(t.drop_first(), k, v, j - 1);
            if assoc_set(t.drop_first(), k, v)[j - 1] != (k, v) {
                let x = choose|x: int|
                    0 <= x < t.drop_first().len() && t.drop_first()[x] == assoc_set(
                        t.drop_first(),
                        k,
                        v,
                    )[j - 1];
                assert(t[x + 1] == s[j]);
            }
        }
    }
}

/// The table built from any pairs is well-formed.
pub proof fn lemma_build_table_wf(pairs: Seq<(Seq<char>, Seq<char>)>)
    ensures
        table_wf(build_table(pairs)),
    decreases pairs.len(),
{
    if pairs.len() > 0 {
        lemma_build_table_wf(pairs.drop_last());
        let rest = build_table(pairs.drop_last());
        let k = lower_of(pairs.last().0);
        let toks = split_ws(pairs.last().1);
        if toks.len() > 0 {
            lemma_assoc_set_distinct(rest, k, toks);
            let s = assoc_set(rest, k, toks);
            assert(is_lowered(k)) by {
                assert(lower_of(pairs.last().0) == k);
            }
            assert forall|i: int| 0 <= i < s.len() implies #[trigger] s[i].1.len() > 0 by {
                lemma_assoc_set_entries(rest, k, toks, i);
            }
            assert forall|i: int| 0 <= i < s.len() implies is_lowered(#[trigger] s[i].0) by {
                lemma_assoc_set_entries(rest, k, toks, i);
                if s[i] != (k, toks) {
                    let x = choose|x: int| 0 <= x < rest.len() && rest[x] == s[i];
                    assert(is_lowered(rest[x].0));
                }
            }
        }
    }
}

/// The index built from any dataset is well-formed.
pub proof fn lemma_build_index_wf(data: Seq<(Seq<char>, Seq<(Seq<char>, Seq<char>)>)>)
    ensures
        index_wf(build_index(data)),
    decreases data.len(),
{
    if data.len() > 0 {
        lemma_build_index_wf(data.drop_last());
        let rest = build_index(data.drop_last());
        let k = lower_of(data.last().0);
        let tb = build_table(data.last().1);
        lemma_build_table_wf(data.last().1);
        assert(is_lowered(k)) by {
            assert(lower_of(data.last().0) == k);
        }
        lemma_index_set_wf(rest, k, tb);
    }
}

/// An `assoc_set` of a lowercase id and a well-formed table on a well-formed
/// index is well-formed.
pub proof fn lemma_index_set_wf(m: IndexModel, k: Seq<char>, t: TableModel)
    requires
        index_wf(m),
        table_wf(t),
        is_lowered(k),
    ensures
        index_wf(assoc_set(m, k, t)),
{
    lemma_assoc_set_distinct(m, k, t);
    let s = assoc_set(m, k, t);
    assert forall|i: int| 0 <= i < s.len() implies table_wf(#[trigger] s[i].1) by {
        lemma_assoc_set_entries(m, k, t, i);
        if s[i] != (k, t) {
            let x = choose|x: int| 0 <= x < m.len() && m[x] == s[i];
            assert(table_wf(m[x].1));
        }
    }
    assert forall|i: int| 0 <= i < s.len() implies is_lowered(#[trigger] s[i].0) by {
        lemma_assoc_set_entries(m, k, t, i);
        if s[i] != (k, t) {
            let x = choose|x: int| 0 <= x < m.len() && m[x] == s[i];
            assert(is_lowered(m[x].0));
        }
    }
}

/// An `assoc_del` on a well-formed index is well-formed.
pub proof fn lemma_index_del_wf(m: IndexModel, k: Seq<char>)
    requires
        index_wf(m),
    ensures
        index_wf(assoc_del(m, k)),
{
    lemma_assoc_del_distinct(m, k);
    let s = assoc_del(m, k);
    assert forall|i: int| 0 <= i < s.len() implies table_wf(#[trigger] s[i].1) by {
        lemma_del_is_subseq(m, k, i);
        let x = choose|x: int| 0 <= x < m.len() && m[x] == s[i];
        assert(table_wf(m[x].1));
    }
    assert forall|i: int| 0 <= i < s.len() implies is_lowered(#[trigger] s[i].0) by {
        lemma_del_is_subseq(m, k, i);
        let x = choose|x: int| 0 <= x < m.len() && m[x] == s[i];
        assert(is_lowered(m[x].0));
    }
}

/// The stored language ids, in storage order.
pub open spec fn ids_of(m: IndexModel) -> Seq<Seq<char>> {
    assoc_keys(m)
}

/// One (language id, keyword count) pair per stored language, in storage order.
pub open spec fn stats_of(m: IndexModel) -> Seq<(Seq<char>, usize)> {
    m.map_values(|e: (Seq<char>, TableModel)| (e.0, e.1.len() as usize))
}

} // verus!
