//! The index itself: per-language keyword tables with case-insensitive
//! exact and prefix search, whole loads, single-language updates and removal.
use vstd::prelude::*;
use crate::model::{
    assoc_del, assoc_get, assoc_set, build_index, build_table, index_wf, lemma_assoc_del_absent,
    lemma_assoc_del_found, lemma_assoc_get_absent, lemma_assoc_get_entry, lemma_assoc_get_found,
    lemma_assoc_set_absent, lemma_assoc_set_found, lemma_build_index_wf, lemma_build_table_wf,
    lemma_filter_elem, lemma_filter_take_step, lemma_index_del_wf, lemma_index_set_wf, ids_of,
    multi_from, multi_step, prefix_pred, search_model, search_multi_model, seen, stats_of,
    table_wf, unseen_prefix_pred, IndexModel, TableModel,
};
use crate::jsonio::{
    encode_id_list, encode_results, encode_stats, encoded_id_list, encoded_results, encoded_stats,
    parse_dataset, parse_id_list, parse_table, parsed_dataset, parsed_id_list, parsed_table,
};
use crate::text::{lower_of, split_whitespace_tokens, str_eq, str_strict_prefix};

verus! {

/// The one error a load or update can raise: the supplied payload does not
/// have the expected shape.
#[derive(Clone, Copy, PartialEq, Eq, Structural, Debug)]
pub enum IndexError {
    MalformedInput,
}

/// One language's stored table: lowercased keyword to glyph list.
pub type KeywordTable = Vec<(String, Vec<String>)>;

/// The keyword-to-emoji index over any number of languages.
///
/// Each language table keeps its entries in the order the keywords first
/// entered its data, so prefix results come out in one fixed, deterministic
/// order; a dataset parsed from JSON arrives with its keys in sorted order,
/// and loads it that way.
pub struct EmojiSearch {
    languages: Vec<(String, KeywordTable)>,
}

impl View for EmojiSearch {
    type V = IndexModel;

    closed spec fn view(&self) -> IndexModel {
        self.languages.deep_view()
    }
}

/// Clone a glyph list, keeping its contents.
fn clone_glyphs(v: &Vec<String>) -> (r: Vec<String>)
    ensures
        r@ == v@,
{
    let mut r: Vec<String> = Vec::new();
    let mut i: usize = 0;
    while i < v.len()
        invariant
            i <= v@.len(),
            r@ =~= v@.take(i as int),
        decreases v@.len() - i,
    {
        r.push(v[i].clone());
        i += 1;
    }
    proof {
        assert(r@ =~= v@);
    }
    r
}

/// Find the glyph list stored under keyword `k`, if any.
fn table_find<'a>(t: &'a KeywordTable, k: &str) -> (r: Option<&'a Vec<String>>)
    ensures
        match r {
            Some(g) => assoc_get(t.deep_view(), k@) == Some(g.deep_view()),
            None => assoc_get(t.deep_view(), k@) is None,
        },
{
    let mut j: usize = 0;
    while j < t.len()
        invariant
            j <= t@.len(),
            forall|i: int| 0 <= i < j ==> t.deep_view()[i].0 != k@,
        decreases t@.len() - j,
    {
        if str_eq(t[j].0.as_str(), k) {
            proof {
                lemma_assoc_get_found(t.deep_view(), k@, j as int);
            }
            return Some(&t[j].1);
        }
        j += 1;
    }
    proof {
        lemma_assoc_get_absent(t.deep_view(), k@);
    }
    None
}

/// Bind keyword `k` to `v` in a table: overwrite in place or append.
fn table_set(t: &mut KeywordTable, k: String, v: Vec<String>)
    ensures
        final(t).deep_view() == assoc_set(old(t).deep_view(), k@, v.deep_view()),
{
    let mut j: usize = 0;
    while j < t.len()
        invariant
            j <= t@.len(),
            *t == *old(t),
            forall|i: int| 0 <= i < j ==> t.deep_view()[i].0 != k@,
        decreases t@.len() - j,
    {
        if str_eq(t[j].0.as_str(), k.as_str()) {
            proof {
                lemma_assoc_set_found(t.deep_view(), k@, v.deep_view(), j as int);
            }
            let ghost prev = t.deep_view();
            t.set(j, (k, v));
            proof {
                assert(t.deep_view() =~= assoc_set(prev, k@, v.deep_view()));
            }
            return ;
        }
        j += 1;
    }
    proof {
        lemma_assoc_set_absent(t.deep_view(), k@, v.deep_view());
    }
    let ghost prev = t.deep_view();
    t.push((k, v));
    proof {
        assert(t.deep_view() =~= assoc_set(prev, k@, v.deep_view()));
    }
}

/// Bind language id `k` to table `v` in the index storage.
fn langs_set(m: &mut Vec<(String, KeywordTable)>, k: String, v: KeywordTable)
    ensures
        final(m).deep_view() == assoc_set(old(m).deep_view(), k@, v.deep_view()),
{
    let mut j: usize = 0;
    while j < m.len()
        invariant
            j <= m@.len(),
            *m == *old(m),
            forall|i: int| 0 <= i < j ==> m.deep_view()[i].0 != k@,
        decreases m@.len() - j,
    {
        if str_eq(m[j].0.as_str(), k.as_str()) {
            proof {
                lemma_assoc_set_found(m.deep_view(), k@, v.deep_view(), j as int);
            }
            let ghost prev = m.deep_view();
            m.set(j, (k, v));
            proof {
                assert(m.deep_view() =~= assoc_set(prev, k@, v.deep_view()));
            }
            return ;
        }
        j += 1;
    }
    proof {
        lemma_assoc_set_absent(m.deep_view(), k@, v.deep_view());
    }
    let ghost prev = m.deep_view();
    m.push((k, v));
    proof {
        assert(m.deep_view() =~= assoc_set(prev, k@, v.deep_view()));
    }
}

/// Build one language's table from raw keyword/glyph-text pairs, in order:
/// keywords are lowercased, glyph text is split on whitespace, and a pair
/// whose glyph text holds no token is ignored.
fn build_table_exec(pairs: &Vec<(String, String)>) -> (r: KeywordTable)
    ensures
        r.deep_view() == build_table(pairs.deep_view()),
{
    let mut r: KeywordTable = Vec::new();
    let mut j: usize = 0;
    proof {
        assert(r.deep_view() =~= build_table(pairs.deep_view().take(0)));
    }
    while j < pairs.len()
        invariant
            j <= pairs@.len(),
            r.deep_view() == build_table(pairs.deep_view().take(j as int)),
        decreases pairs@.len() - j,
    {
        let kw = pairs[j].0.as_str().to_lowercase();
        let toks = split_whitespace_tokens(pairs[j].1.as_str());
        proof {
            assert(pairs.deep_view()[j as int] == (pairs@[j as int].0@, pairs@[j as int].1@));
            assert(pairs.deep_view().take(j + 1).drop_last() =~= pairs.deep_view().take(
                j as int,
            ));
            assert(pairs.deep_view().take(j + 1).last() == pairs.deep_view()[j as int]);
            assert(toks.deep_view().len() == toks@.len());
        }
        if toks.len() > 0 {
            table_set(&mut r, kw, toks);
        }
        j += 1;
    }
    proof {
        assert(pairs.deep_view().take(pairs@.len() as int) =~= pairs.deep_view());
    }
    r
}

/// Whether a result sequence already carries keyword `k`.
fn result_has_keyword(rs: &Vec<(String, Vec<String>)>, k: &str) -> (r: bool)
    ensures
        r == seen(rs.deep_view(), k@),
{
    let mut j: usize = 0;
    while j < rs.len()
        invariant
            j <= rs@.len(),
            forall|i: int| 0 <= i < j ==> rs.deep_view()[i].0 != k@,
        decreases rs@.len() - j,
    {
        if str_eq(rs[j].0.as_str(), k) {
            proof {
                assert(rs.deep_view()[j as int].0 == k@);
            }
            return true;
        }
        j += 1;
    }
    proof {
        assert(!seen(rs.deep_view(), k@));
    }
    false
}

impl EmojiSearch {
    /// The index invariant: distinct lowercased language ids, and in every
    /// table distinct keywords, each with a non-empty glyph list.
    pub open spec fn wf(&self) -> bool {
        index_wf(self@)
    }

    /// An empty index: no languages, so every search is empty.
    pub fn new() -> (r: Self)
        ensures
            r@ == Seq::<(Seq<char>, TableModel)>::empty(),
            r.wf(),
    {
        let r = EmojiSearch { languages: Vec::new() };
        proof {
            assert(r@ =~= Seq::<(Seq<char>, TableModel)>::empty());
        }
        r
    }

    /// Find the stored table of a language id, if any.
    fn find_language<'a>(&'a self, lang: &str) -> (r: Option<&'a KeywordTable>)
        ensures
            match r {
                Some(t) => assoc_get(self@, lang@) == Some(t.deep_view()),
                None => assoc_get(self@, lang@) is None,
            },
    {
        let mut j: usize = 0;
        while j < self.languages.len()
            invariant
                j <= self.languages@.len(),
                forall|i: int| 0 <= i < j ==> self@[i].0 != lang@,
            decreases self.languages@.len() - j,
        {
            if str_eq(self.languages[j].0.as_str(), lang) {
                proof {
                    lemma_assoc_get_found(self@, lang@, j as int);
                }
                return Some(&self.languages[j].1);
            }
            j += 1;
        }
        proof {
            lemma_assoc_get_absent(self@, lang@);
        }
        None
    }

    /// Replace the whole index with the given dataset: for each language, in
    /// order, the id is lowercased and bound to the table built from its
    /// keyword/glyph-text pairs. Nothing of the old state survives.
    pub fn load_dataset(&mut self, data: &Vec<(String, Vec<(String, String)>)>)
        ensures
            final(self)@ == build_index(data.deep_view()),
            final(self).wf(),
    {
        let mut out: Vec<(String, KeywordTable)> = Vec::new();
        let mut j: usize = 0;
        proof {
            assert(out.deep_view() =~= build_index(data.deep_view().take(0)));
        }
        while j < data.len()
            invariant
                j <= data@.len(),
                out.deep_view() == build_index(data.deep_view().take(j as int)),
            decreases data@.len() - j,
        {
            let id = data[j].0.as_str().to_lowercase();
            let tb = build_table_exec(&data[j].1);
            proof {
                assert(data.deep_view()[j as int] == (
                    data@[j as int].0@,
                    data@[j as int].1.deep_view(),
                ));
                assert(data.deep_view().take(j + 1).drop_last() =~= data.deep_view().take(
                    j as int,
                ));
                assert(data.deep_view().take(j + 1).last() == data.deep_view()[j as int]);
            }
            langs_set(&mut out, id, tb);
            j += 1;
        }
        proof {
            assert(data.deep_view().take(data@.len() as int) =~= data.deep_view());
            lemma_build_index_wf(data.deep_view());
        }
        self.languages = out;
    }

    /// Insert or wholly replace one language's table, leaving all other
    /// languages untouched: the id is lowercased, the table built from the
    /// given keyword/glyph-text pairs.
    pub fn update_language_pairs(&mut self, language_code: &str, pairs: &Vec<(String, String)>)
        requires
            old(self).wf(),
        ensures
            final(self)@ == assoc_set(
                old(self)@,
                lower_of(language_code@),
                build_table(pairs.deep_view()),
            ),
            final(self).wf(),
    {
        let id = language_code.to_lowercase();
        let tb = build_table_exec(pairs);
        proof {
            lemma_build_table_wf(pairs.deep_view());
            assert(crate::model::is_lowered(id@)) by {
                assert(lower_of(language_code@) == id@);
            }
            lemma_index_set_wf(self@, id@, tb.deep_view());
        }
        langs_set(&mut self.languages, id, tb);
    }

    /// Remove one language's table entirely; removing an absent language
    /// changes nothing.
    pub fn remove_language(&mut self, language_code: &str)
        ensures
            final(self)@ == assoc_del(old(self)@, lower_of(language_code@)),
            old(self).wf() ==> final(self).wf(),
    {
        let lang = language_code.to_lowercase();
        let mut j: usize = 0;
        while j < self.languages.len()
            invariant
                j <= self.languages@.len(),
                *self == *old(self),
                lang@ == lower_of(language_code@),
                forall|i: int| 0 <= i < j ==> self@[i].0 != lang@,
            decreases self.languages@.len() - j,
        {
            if str_eq(self.languages[j].0.as_str(), lang.as_str()) {
                proof {
                    lemma_assoc_del_found(self@, lang@, j as int);
                    if old(self).wf() {
                        lemma_index_del_wf(self@, lang@);
                    }
                }
                let ghost prev = self@;
                self.languages.remove(j);
                proof {
                    assert(self@ =~= prev.remove(j as int));
                }
                return ;
            }
            j += 1;
        }
        proof {
            lemma_assoc_del_absent(self@, lang@);
            assert(self@ =~= assoc_del(self@, lang@));
        }
    }

    /// Search one language: the query and the language id are lowercased; an
    /// unknown language yields an empty result; otherwise the exact match
    /// comes first, if stored, then every strict-prefix match in the table's
    /// storage order.
    pub fn search_entries(&self, query: &str, language: &str) -> (r: Vec<(String, Vec<String>)>)
        ensures
            r.deep_view() == search_model(self@, lower_of(query@), lower_of(language@)),
    {
        let q = query.to_lowercase();
        let lang = language.to_lowercase();
        let mut r: Vec<(String, Vec<String>)> = Vec::new();
        let t_opt = self.find_language(lang.as_str());
        let t = match t_opt {
            None => {
                proof {
                    assert(r.deep_view() =~= search_model(self@, q@, lang@));
                }
                return r;
            },
            Some(t) => t,
        };
        let ghost tm = t.deep_view();
        match table_find(t, q.as_str()) {
            Some(g) => {
                let gg = clone_glyphs(g);
                proof {
                    assert(gg.deep_view() == g.deep_view());
                }
                r.push((q.clone(), gg));
                proof {
                    assert(r.deep_view() =~= seq![(q@, g.deep_view())]);
                }
            },
            None => {},
        }
        let ghost exact = r.deep_view();
        let mut j: usize = 0;
        proof {
            reveal(Seq::filter);
            assert(tm.take(0) =~= Seq::<(Seq<char>, Seq<Seq<char>>)>::empty());
            assert(r.deep_view() =~= exact + tm.take(0).filter(prefix_pred(q@)));
        }
        while j < t.len()
            invariant
                j <= t@.len(),
                tm == t.deep_view(),
                r.deep_view() == exact + tm.take(j as int).filter(prefix_pred(q@)),
            decreases t@.len() - j,
        {
            proof {
                assert(tm[j as int] == (t@[j as int].0@, t@[j as int].1.deep_view()));
                lemma_filter_take_step(tm, prefix_pred(q@), j as int);
            }
            if str_strict_prefix(q.as_str(), t[j].0.as_str()) {
                let kw = t[j].0.clone();
                let gg = clone_glyphs(&t[j].1);
                let ghost prevd = r.deep_view();
                let ghost prevv = r@;
                r.push((kw, gg));
                proof {
                    let goal = exact + tm.take(j + 1).filter(prefix_pred(q@));
                    assert(goal =~= prevd.push(tm[j as int]));
                    assert forall|i: int| 0 <= i < r.deep_view().len() implies r.deep_view()[i]
                        == prevd.push(tm[j as int])[i] by {
                        assert(r.deep_view()[i] == r@[i].deep_view());
                        if i < prevv.len() {
                            assert(r@[i] == prevv[i]);
                        } else {
                            assert(r@[i] == (kw, gg));
                            assert(kw@ == t@[j as int].0@);
                            assert(gg.deep_view() == t@[j as int].1.deep_view());
                        }
                    }
                    assert(r.deep_view() =~= prevd.push(tm[j as int]));
                }
            }
            j += 1;
        }
        proof {
            assert(tm.take(t@.len() as int) =~= tm);
            assert(r.deep_view() =~= search_model(self@, q@, lang@));
        }
        r
    }

    /// Search several languages in the given order, accumulating one shared
    /// result: within each language the exact match is tried first, then the
    /// strict-prefix matches in storage order, and a keyword already emitted
    /// for an earlier language is never emitted again. Unknown language ids
    /// contribute nothing.
    pub fn search_multiple_entries(&self, query: &str, languages: &Vec<String>) -> (r: Vec<
        (String, Vec<String>),
    >)
        requires
            self.wf(),
        ensures
            r.deep_view() == search_multi_model(self@, lower_of(query@), languages.deep_view()),
    {
        let q = query.to_lowercase();
        let ghost m = self@;
        let ghost qv = q@;
        let ghost langs_dv = languages.deep_view();
        let ghost goal = search_multi_model(m, qv, langs_dv);
        let mut r: Vec<(String, Vec<String>)> = Vec::new();
        let mut i: usize = 0;
        proof {
            assert(langs_dv.skip(0) =~= langs_dv);
            assert(r.deep_view() =~= Seq::<(Seq<char>, Seq<Seq<char>>)>::empty());
        }
        while i < languages.len()
            invariant
                i <= languages@.len(),
                m == self@,
                self.wf(),
                qv == q@,
                langs_dv == languages.deep_view(),
                goal == search_multi_model(m, qv, langs_dv),
                multi_from(m, qv, langs_dv.skip(i as int), r.deep_view()) == goal,
            decreases languages@.len() - i,
        {
            let ghost acc0 = r.deep_view();
            let lang_l = languages[i].as_str().to_lowercase();
            proof {
                assert(langs_dv[i as int] == languages@[i as int]@);
                assert(langs_dv.skip(i as int)[0] == langs_dv[i as int]);
                assert(langs_dv.skip(i as int).drop_first() =~= langs_dv.skip(i + 1));
            }
            match self.find_language(lang_l.as_str()) {
                None => {
                    proof {
                        assert(multi_step(m, qv, lang_l@, acc0) == acc0);
                    }
                },
                Some(t) => {
                    let ghost tm = t.deep_view();
                    proof {
                        lemma_assoc_get_entry(m, lang_l@);
                        let w = choose|w: int| 0 <= w < m.len() && #[trigger] m[w] == (
                            lang_l@,
                            tm,
                        );
                        assert(m[w].1 == tm);
                        assert(table_wf(m[w].1));
                        assert(table_wf(tm));
                    }
                    match table_find(t, q.as_str()) {
                        Some(g) => {
                            if !result_has_keyword(&r, q.as_str()) {
                                let gg = clone_glyphs(g);
                                proof {
                                    assert(gg.deep_view() == g.deep_view());
                                }
                                let ghost prevv = r@;
                                r.push((q.clone(), gg));
                                proof {
                                    assert forall|x: int|
                                        0 <= x < r.deep_view().len() implies r.deep_view()[x]
                                        == acc0.push((qv, g.deep_view()))[x] by {
                                        assert(r.deep_view()[x] == r@[x].deep_view());
                                        if x < prevv.len() {
                                            assert(r@[x] == prevv[x]);
                                        }
                                    }
                                    assert(r.deep_view() =~= acc0.push((qv, g.deep_view())));
                                }
                            }
                        },
                        None => {},
                    }
                    let ghost acc1 = r.deep_view();
                    let ghost pred2 = unseen_prefix_pred(qv, acc1);
                    let mut jj: usize = 0;
                    proof {
                        reveal(Seq::filter);
                        assert(tm.take(0) =~= Seq::<(Seq<char>, Seq<Seq<char>>)>::empty());
                        assert(r.deep_view() =~= acc1 + tm.take(0).filter(pred2));
                    }
                    while jj < t.len()
                        invariant
                            jj <= t@.len(),
                            tm == t.deep_view(),
                            table_wf(tm),
                            qv == q@,
                            pred2 == unseen_prefix_pred(qv, acc1),
                            r.deep_view() == acc1 + tm.take(jj as int).filter(pred2),
                        decreases t@.len() - jj,
                    {
                        proof {
                            assert(tm[jj as int] == (
                                t@[jj as int].0@,
                                t@[jj as int].1.deep_view(),
                            ));
                            lemma_filter_take_step(tm, pred2, jj as int);
                        }
                        let ghost k = tm[jj as int].0;
                        proof {
                            assert forall|x: int|
                                0 <= x < tm.take(jj as int).filter(pred2).len() implies (
                            #[trigger] tm.take(jj as int).filter(pred2)[x]).0 != k by {
                                lemma_filter_elem(tm.take(jj as int), pred2, x);
                                let y = choose|y: int|
                                    0 <= y < tm.take(jj as int).len() && tm.take(jj as int)[y]
                                        == tm.take(jj as int).filter(pred2)[x];
                                assert(tm.take(jj as int)[y] == tm[y]);
                                assert(tm[y].0 != tm[jj as int].0);
                            }
                            assert(seen(r.deep_view(), k) == seen(acc1, k)) by {
                                if seen(r.deep_view(), k) {
                                    let x = choose|x: int|
                                        0 <= x < r.deep_view().len() && r.deep_view()[x].0 == k;
                                    if x < acc1.len() {
                                        assert(acc1[x].0 == k);
                                    } else {
                                        assert(r.deep_view()[x] == tm.take(jj as int).filter(
                                            pred2,
                                        )[x - acc1.len()]);
                                    }
                                }
                                if seen(acc1, k) {
                                    let x = choose|x: int|
                                        0 <= x < acc1.len() && acc1[x].0 == k;
                                    assert(r.deep_view()[x].0 == k);
                                }
                            }
                        }
                        if str_strict_prefix(q.as_str(), t[jj].0.as_str()) {
                            if !result_has_keyword(&r, t[jj].0.as_str()) {
                                proof {
                                    assert(pred2(tm[jj as int]));
                                }
                                let kw = t[jj].0.clone();
                                let gg = clone_glyphs(&t[jj].1);
                                let ghost prevd = r.deep_view();
                                let ghost prevv = r@;
                                r.push((kw, gg));
                                proof {
                                    assert forall|x: int|
                                        0 <= x < r.deep_view().len() implies r.deep_view()[x]
                                        == prevd.push(tm[jj as int])[x] by {
                                        assert(r.deep_view()[x] == r@[x].deep_view());
                                        if x < prevv.len() {
                                            assert(r@[x] == prevv[x]);
                                        } else {
                                            assert(r@[x] == (kw, gg));
                                            assert(kw@ == t@[jj as int].0@);
                                            assert(gg.deep_view() == t@[jj as int].1.deep_view());
                                        }
                                    }
                                    assert(r.deep_view() =~= prevd.push(tm[jj as int]));
                                    assert(acc1 + tm.take(jj + 1).filter(pred2) =~= prevd.push(
                                        tm[jj as int],
                                    ));
                                }
                            } else {
                                proof {
                                    assert(!pred2(tm[jj as int]));
                                }
                            }
                        } else {
                            proof {
                                assert(!pred2(tm[jj as int]));
                            }
                        }
                        jj += 1;
                    }
                    proof {
                        assert(tm.take(t@.len() as int) =~= tm);
                        assert(r.deep_view() == multi_step(m, qv, lang_l@, acc0));
                    }
                },
            }
            proof {
                assert(multi_from(m, qv, langs_dv.skip(i + 1), r.deep_view()) == goal);
            }
            i += 1;
        }
        proof {
            assert(langs_dv.skip(languages@.len() as int) =~= Seq::<Seq<char>>::empty());
        }
        r
    }

    /// Replace the whole index from a JSON text shaped as an object of
    /// objects of strings. A malformed text is rejected and the prior state
    /// is left completely unchanged.
    pub fn initialize(&mut self, emoji_data_json: &str) -> (r: Result<(), IndexError>)
        ensures
            match r {
                Ok(_) => ({
                    &&& parsed_dataset(emoji_data_json@) matches Some(d)
                    &&& final(self)@ == build_index(d)
                    &&& final(self).wf()
                }),
                Err(e) => ({
                    &&& parsed_dataset(emoji_data_json@) is None
                    &&& e == IndexError::MalformedInput
                    &&& final(self)@ == old(self)@
                }),
            },
    {
        match parse_dataset(emoji_data_json) {
            Ok(v) => {
                self.load_dataset(&v);
                Ok(())
            },
            Err(_) => Err(IndexError::MalformedInput),
        }
    }

    /// Insert or wholly replace one language's table from a JSON text shaped
    /// as an object of strings. A malformed text is rejected and the targeted
    /// language's existing table, if any, is left unchanged.
    pub fn update_language(&mut self, language_code: &str, language_data_json: &str) -> (r:
        Result<(), IndexError>)
        requires
            old(self).wf(),
        ensures
            match r {
                Ok(_) => ({
                    &&& parsed_table(language_data_json@) matches Some(p)
                    &&& final(self)@ == assoc_set(
                        old(self)@,
                        lower_of(language_code@),
                        build_table(p),
                    )
                    &&& final(self).wf()
                }),
                Err(e) => ({
                    &&& parsed_table(language_data_json@) is None
                    &&& e == IndexError::MalformedInput
                    &&& final(self)@ == old(self)@
                }),
            },
    {
        match parse_table(language_data_json) {
            Ok(v) => {
                self.update_language_pairs(language_code, &v);
                Ok(())
            },
            Err(_) => Err(IndexError::MalformedInput),
        }
    }

    /// Search one language and encode the result as a JSON array of
    /// `[keyword, [glyph, ...]]` pairs.
    pub fn search(&self, query: &str, language: &str) -> (r: String)
        ensures
            r@ == encoded_results(search_model(self@, lower_of(query@), lower_of(language@))),
    {
        let pairs = self.search_entries(query, language);
        encode_results(&pairs).unwrap()
    }

    /// Search several languages, given as a JSON array of ids, and encode the
    /// deduplicated result as a JSON array; an unparseable language list
    /// degrades to the empty-array text.
    pub fn search_multiple(&self, query: &str, languages_json: &str) -> (r: String)
        requires
            self.wf(),
        ensures
            match parsed_id_list(languages_json@) {
                Some(ids) => r@ == encoded_results(
                    search_multi_model(self@, lower_of(query@), ids),
                ),
                None => r@ == "[]"@,
            },
    {
        let langs = match parse_id_list(languages_json) {
            Ok(v) => v,
            Err(_) => {
                return String::from_str("[]");
            },
        };
        let pairs = self.search_multiple_entries(query, &langs);
        encode_results(&pairs).unwrap()
    }

    /// The loaded language ids encoded as a JSON array of strings.
    pub fn get_languages(&self) -> (r: String)
        ensures
            r@ == encoded_id_list(ids_of(self@)),
    {
        let ids = self.language_list();
        encode_id_list(&ids).unwrap()
    }

    /// The per-language keyword counts encoded as a JSON object.
    pub fn get_stats(&self) -> (r: String)
        ensures
            r@ == encoded_stats(stats_of(self@)),
    {
        let st = self.stats_list();
        encode_stats(&st).unwrap()
    }

    /// Every loaded language id, in storage order.
    pub fn language_list(&self) -> (r: Vec<String>)
        ensures
            r.deep_view() == ids_of(self@),
    {
        let mut r: Vec<String> = Vec::new();
        let mut j: usize = 0;
        while j < self.languages.len()
            invariant
                j <= self.languages@.len(),
                r.deep_view() =~= ids_of(self@.take(j as int)),
            decreases self.languages@.len() - j,
        {
            proof {
                let a = r.deep_view();
                let b = ids_of(self@.take(j as int));
                assert(a.len() == b.len());
                assert(b.len() == j);
                assert(a.len() == r@.len());
            }
            let id = self.languages[j].0.clone();
            proof {
                assert(id@ == self.languages@[j as int].0@);
                assert(self@[j as int].0 == self.languages@[j as int].0@);
            }
            let ghost prevd = r.deep_view();
            let ghost prevv = r@;
            r.push(id);
            proof {
                let pre = self@.take(j + 1);
                let goal = ids_of(pre);
                assert forall|i: int| 0 <= i < goal.len() implies r.deep_view()[i] == goal[i] by {
                    assert(goal[i] == pre[i].0);
                    assert(pre[i] == self@[i]);
                    assert(r.deep_view()[i] == r@[i].deep_view());
                    if i < j {
                        assert(r@[i] == prevv[i]);
                        assert(prevd[i] == ids_of(self@.take(j as int))[i]);
                        assert(ids_of(self@.take(j as int))[i] == self@.take(j as int)[i].0);
                    } else {
                        assert(r@[i] == id);
                    }
                }
                assert(r.deep_view() =~= goal);
            }
            j += 1;
        }
        proof {
            assert(self@.take(self@.len() as int) =~= self@);
        }
        r
    }

    /// Every loaded language id with its count of distinct keywords, in
    /// storage order.
    pub fn stats_list(&self) -> (r: Vec<(String, usize)>)
        ensures
            r.deep_view() == stats_of(self@),
    {
        let mut r: Vec<(String, usize)> = Vec::new();
        let mut j: usize = 0;
        while j < self.languages.len()
            invariant
                j <= self.languages@.len(),
                r.deep_view() =~= stats_of(self@.take(j as int)),
            decreases self.languages@.len() - j,
        {
            proof {
                let a = r.deep_view();
                let b = stats_of(self@.take(j as int));
                assert(a.len() == b.len());
                assert(b.len() == j);
                assert(a.len() == r@.len());
            }
            let count = self.languages[j].1.len();
            let id = self.languages[j].0.clone();
            proof {
                assert(id@ == self.languages@[j as int].0@);
                assert(self@[j as int].0 == self.languages@[j as int].0@);
                assert(self@[j as int].1.len() == self.languages@[j as int].1.deep_view().len());
            }
            let ghost prevd = r.deep_view();
            let ghost prevv = r@;
            r.push((id, count));
            proof {
                let pre = self@.take(j + 1);
                let goal = stats_of(pre);
                assert forall|i: int| 0 <= i < goal.len() implies r.deep_view()[i] == goal[i] by {
                    assert(goal[i] == (pre[i].0, pre[i].1.len() as usize));
                    assert(pre[i] == self@[i]);
                    assert(r.deep_view()[i] == r@[i].deep_view());
                    if i < j {
                        assert(r@[i] == prevv[i]);
                        assert(prevd[i] == stats_of(self@.take(j as int))[i]);
                        assert(stats_of(self@.take(j as int))[i] == (
                            self@.take(j as int)[i].0,
                            self@.take(j as int)[i].1.len() as usize,
                        ));
                    } else {
                        assert(r@[i] == (id, count));
                    }
                }
                assert(r.deep_view() =~= goal);
            }
            j += 1;
        }
        proof {
            assert(self@.take(self@.len() as int) =~= self@);
        }
        r
    }
}

} // verus!
