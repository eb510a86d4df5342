//! The library's stated laws: idempotent initialization, case-insensitive
//! search, exact-before-prefix ordering, no duplicated keywords, and the
//! effects of removal, proved over the index model.
use vstd::prelude::*;
use crate::model::{
    assoc_del, assoc_get, assoc_has, assoc_set, build_index, distinct_keys, index_wf,
    lemma_assoc_get_del, lemma_assoc_get_entry, lemma_assoc_get_set, lemma_filter_elem, ids_of,
    multi_from, multi_step, search_model, search_multi_model, seen, table_wf, unseen_prefix_pred,
    IndexModel, TableModel,
};
use crate::text::lower_of;

verus! {

/// Initializing is idempotent: the state an initialization leaves behind is a
/// function of the dataset alone, never of the state it found, so a second
/// initialization with the same dataset leaves exactly the state of the
/// first.
pub proof fn lemma_initialize_idempotent(
    after_once: IndexModel,
    after_twice: IndexModel,
    d: Seq<(Seq<char>, Seq<(Seq<char>, Seq<char>)>)>,
)
    requires
        after_once == build_index(d),
        after_twice == build_index(d),
    ensures
        after_twice == after_once,
{
}

/// Search is case-insensitive: two queries with the same lowercase form, and
/// likewise two spellings of the language id, yield identical results.
pub proof fn lemma_search_case_insensitive(
    m: IndexModel,
    q1: Seq<char>,
    q2: Seq<char>,
    lang1: Seq<char>,
    lang2: Seq<char>,
)
    requires
        lower_of(q1) == lower_of(q2),
        lower_of(lang1) == lower_of(lang2),
    ensures
        search_model(m, lower_of(q1), lower_of(lang1)) == search_model(
            m,
            lower_of(q2),
            lower_of(lang2),
        ),
{
}

/// The exact match always comes first: when the query is a stored keyword of
/// the searched language, it occupies position 0 of the result, with its own
/// glyphs.
pub proof fn lemma_exact_match_first(m: IndexModel, q: Seq<char>, lang: Seq<char>)
    requires
        assoc_get(m, lang) is Some,
        assoc_has(assoc_get(m, lang)->Some_0, q),
    ensures
        search_model(m, q, lang).len() > 0,
        search_model(m, q, lang)[0] == (
            q,
            assoc_get(assoc_get(m, lang)->Some_0, q)->Some_0,
        ),
{
    let t = assoc_get(m, lang)->Some_0;
    let g = assoc_get(t, q)->Some_0;
    assert(search_model(m, q, lang)[0] == (seq![(q, g)] + t.filter(
        crate::model::prefix_pred(q),
    ))[0]);
}

/// The exact-match keyword never also appears in the prefix portion: past
/// position 0 no result entry carries the query as its keyword, and when the
/// query is not a stored keyword no entry at all does.
pub proof fn lemma_no_self_duplication(m: IndexModel, q: Seq<char>, lang: Seq<char>)
    ensures
        forall|i: int|
            1 <= i < search_model(m, q, lang).len() ==> (#[trigger] search_model(
                m,
                q,
                lang,
            )[i]).0 != q,
        (assoc_get(m, lang) matches Some(t) && !assoc_has(t, q)) ==> forall|i: int|
            0 <= i < search_model(m, q, lang).len() ==> (#[trigger] search_model(
                m,
                q,
                lang,
            )[i]).0 != q,
{
    let rs = search_model(m, q, lang);
    match assoc_get(m, lang) {
        Some(t) => {
            let f = t.filter(crate::model::prefix_pred(q));
            match assoc_get(t, q) {
                Some(g) => {
                    assert forall|i: int| 1 <= i < rs.len() implies (#[trigger] rs[i]).0
                        != q by {
                        assert(rs[i] == f[i - 1]);
                        Seq::lemma_filter_pred(t, crate::model::prefix_pred(q), i - 1);
                    }
                },
                None => {
                    assert forall|i: int| 0 <= i < rs.len() implies (#[trigger] rs[i]).0
                        != q by {
                        assert(rs[i] == f[i]);
                        Seq::lemma_filter_pred(t, crate::model::prefix_pred(q), i);
                    }
                },
            }
        },
        None => {},
    }
}

/// Updating one language leaves all other languages untouched: after a
/// language's table is inserted or replaced, searching any other language
/// reads exactly what it read before.
pub proof fn lemma_update_preserves_others(
    m: IndexModel,
    k: Seq<char>,
    t: TableModel,
    q: Seq<char>,
    other: Seq<char>,
)
    requires
        other != k,
    ensures
        search_model(assoc_set(m, k, t), q, other) == search_model(m, q, other),
{
    lemma_assoc_get_set(m, k, t, other);
}

/// Searching an unknown language yields the empty result, never an error.
pub proof fn lemma_unknown_language_empty(m: IndexModel, q: Seq<char>, lang: Seq<char>)
    requires
        !assoc_has(m, lang),
    ensures
        search_model(m, q, lang) == Seq::<(Seq<char>, Seq<Seq<char>>)>::empty(),
{
}

/// An `assoc_get` that reads None finds the key in no entry.
proof fn lemma_assoc_get_none_key<V>(t: Seq<(Seq<char>, V)>, k: Seq<char>)
    requires
        assoc_get(t, k) is None,
    ensures
        forall|i: int| 0 <= i < t.len() ==> (#[trigger] t[i]).0 != k,
    decreases t.len(),
{
    if t.len() > 0 {
        lemma_assoc_get_none_key(t.drop_first(), k);
        assert forall|i: int| 0 <= i < t.len() implies (#[trigger] t[i]).0 != k by {
            if i > 0 {
                assert(t[i] == t.drop_first()[i - 1]);
            }
        }
    }
}

/// After removing a language, searching it yields the empty result and its id
/// is gone from the listed languages.
pub proof fn lemma_removal(m: IndexModel, x: Seq<char>, q: Seq<char>)
    requires
        distinct_keys(m),
    ensures
        search_model(assoc_del(m, x), q, x) == Seq::<(Seq<char>, Seq<Seq<char>>)>::empty(),
        forall|i: int|
            0 <= i < ids_of(assoc_del(m, x)).len() ==> #[trigger] ids_of(assoc_del(m, x))[i]
                != x,
{
    lemma_assoc_get_del(m, x, x);
    lemma_assoc_get_none_key(assoc_del(m, x), x);
    assert forall|i: int| 0 <= i < ids_of(assoc_del(m, x)).len() implies #[trigger] ids_of(
        assoc_del(m, x),
    )[i] != x by {
        assert(ids_of(assoc_del(m, x))[i] == assoc_del(m, x)[i].0);
    }
}

/// A filtered well-formed table keeps its keywords distinct.
proof fn lemma_filter_distinct(
    t: TableModel,
    p: spec_fn((Seq<char>, Seq<Seq<char>>)) -> bool,
)
    requires
        distinct_keys(t),
    ensures
        distinct_keys(t.filter(p)),
    decreases t.len(),
{
    reveal(Seq::filter);
    if t.len() > 0 {
        lemma_filter_distinct(t.drop_last(), p);
        let sub = t.drop_last().filter(p);
        let f = t.filter(p);
        assert forall|i: int, j: int| 0 <= i < j < f.len() implies f[i].0 != f[j].0 by {
            if j < sub.len() {
                assert(f[i] == sub[i] && f[j] == sub[j]);
            } else {
                assert(f[j] == t.last());
                assert(f[i] == sub[i]);
                lemma_filter_elem(t.drop_last(), p, i);
                let y = choose|y: int|
                    0 <= y < t.drop_last().len() && t.drop_last()[y] == sub[i];
                assert(t[y] == sub[i]);
                assert(t[y].0 != t[t.len() - 1].0);
            }
        }
    }
}

/// One step of a multi-language search keeps the accumulated keywords
/// distinct.
proof fn lemma_multi_step_distinct(m: IndexModel, q: Seq<char>, lang: Seq<char>, acc: TableModel)
    requires
        index_wf(m),
        distinct_keys(acc),
    ensures
        distinct_keys(multi_step(m, q, lang, acc)),
{
    match assoc_get(m, lang) {
        None => {},
        Some(t) => {
            lemma_assoc_get_entry(m, lang);
            let w = choose|w: int| 0 <= w < m.len() && #[trigger] m[w] == (lang, t);
            assert(table_wf(m[w].1));
            let acc1 = match assoc_get(t, q) {
                Some(g) => if !seen(acc, q) {
                    acc.push((q, g))
                } else {
                    acc
                },
                None => acc,
            };
            assert(distinct_keys(acc1)) by {
                if assoc_get(t, q) is Some && !seen(acc, q) {
                    assert forall|i: int, j: int|
                        0 <= i < j < acc1.len() implies acc1[i].0 != acc1[j].0 by {
                        if j == acc1.len() - 1 {
                            assert(acc1[i] == acc[i]);
                            assert(!(exists|x: int| 0 <= x < acc.len() && acc[x].0 == q));
                        }
                    }
                }
            }
            let p = unseen_prefix_pred(q, acc1);
            let f = t.filter(p);
            lemma_filter_distinct(t, p);
            let r = acc1 + f;
            assert forall|i: int, j: int| 0 <= i < j < r.len() implies r[i].0 != r[j].0 by {
                if i < acc1.len() && j >= acc1.len() {
                    assert(r[j] == f[j - acc1.len()]);
                    Seq::lemma_filter_pred(t, p, j - acc1.len());
                    assert(!seen(acc1, f[j - acc1.len()].0));
                    assert(r[i] == acc1[i]);
                } else if i >= acc1.len() {
                    assert(r[i] == f[i - acc1.len()] && r[j] == f[j - acc1.len()]);
                } else {
                    assert(r[i] == acc1[i] && r[j] == acc1[j]);
                }
            }
        },
    }
}

/// A multi-language search from a distinct accumulator stays distinct.
proof fn lemma_multi_from_distinct(
    m: IndexModel,
    q: Seq<char>,
    langs: Seq<Seq<char>>,
    acc: TableModel,
)
    requires
        index_wf(m),
        distinct_keys(acc),
    ensures
        distinct_keys(multi_from(m, q, langs, acc)),
    decreases langs.len(),
{
    if langs.len() > 0 {
        lemma_multi_step_distinct(m, q, lower_of(langs[0]), acc);
        lemma_multi_from_distinct(
            m,
            q,
            langs.drop_first(),
            multi_step(m, q, lower_of(langs[0]), acc),
        );
    }
}

/// A multi-language search never emits the same keyword twice: every keyword
/// appears in at most one result entry, so a keyword matched by several of
/// the listed languages is taken only from the earliest.
pub proof fn lemma_multi_no_duplicates(m: IndexModel, q: Seq<char>, langs: Seq<Seq<char>>)
    requires
        index_wf(m),
    ensures
        distinct_keys(search_multi_model(m, q, langs)),
{
    lemma_multi_from_distinct(m, q, langs, Seq::empty());
}

} // verus!
