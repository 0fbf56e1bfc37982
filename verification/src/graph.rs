//! Data sources for the line charts drawn from the per-language reports:
//! parameter numbering, orderings and the plotted series. Rendering and
//! file output are left to the callers.

use vstd::prelude::*;

use crate::collect::{params_model, samevalues_model, MyLanguage, MyLanguageModel, SameValueModel};
use crate::csvs::{Parameter, ParameterModel};
use crate::dict::{
    dict_contains, dict_get, dict_index_of, dict_insert, lemma_dict_index_of,
    lemma_dict_index_of_same_keys, Dict,
};
use crate::strings::{
    clone_strings, join_with, lemma_sort_strs_len, sort_strings, spec_dec_str, spec_join,
    spec_sort_strs, usize_to_string,
};
use crate::util::{sort_by_num, spec_sort_by_num, spec_transform, tdict_model, transform_ddict};
use vstd::string::StrSliceExecFns;
use vstd::string::StringExecFns;

verus! {

/// A choice of languages to draw, as the command line hands it over.
pub struct GraphLine {
    pub lang_ids: Vec<String>,
}

impl GraphLine {
    pub fn new(lang_ids: Vec<String>) -> (r: Self)
        ensures
            r.lang_ids == lang_ids,
    {
        GraphLine { lang_ids }
    }

    /// Sort the chosen language ids lexicographically.
    pub fn sort_lang_ids(&mut self)
        ensures
            final(self).lang_ids@.map(|i: int, s: String| s@) == spec_sort_strs(
                old(self).lang_ids@.map(|i: int, s: String| s@),
            ),
    {
        let mut tmp: Vec<String> = Vec::new();
        core::mem::swap(&mut self.lang_ids, &mut tmp);
        let sorted = sort_strings(tmp);
        self.lang_ids = sorted;
    }

    /// The chart's file stem: the sorted ids joined with underscores.
    pub fn filename_by_ids(&self) -> (r: String)
        ensures
            r@ == spec_join(
                spec_sort_strs(self.lang_ids@.map(|i: int, s: String| s@)),
                "_"@,
            ),
    {
        let ids = clone_strings(&self.lang_ids);
        let sorted = sort_strings(ids);
        join_with(&sorted, "_")
    }
}

/// The pixel size a chart is saved with.
#[derive(Debug, Clone, Copy)]
pub struct GraphSaveOption {
    pub width_px: u32,
    pub height_px: u32,
}

/// Assign numbers to parameters in order of first appearance: the forward
/// map grows by one pair per fresh parameter, the backward map mirrors it.
pub open spec fn add_numbering(
    acc: (Seq<(Seq<char>, usize)>, Seq<(usize, Seq<char>)>),
    pvs: Seq<(Seq<char>, SameValueModel)>,
) -> (Seq<(Seq<char>, usize)>, Seq<(usize, Seq<char>)>)
    decreases pvs.len(),
{
    if pvs.len() == 0 {
        acc
    } else {
        let prev = add_numbering(acc, pvs.drop_last());
        let pid = pvs.last().0;
        if dict_contains(prev.0, pid) {
            prev
        } else {
            (
                prev.0.push((pid, prev.0.len() as usize)),
                prev.1.push((prev.0.len() as usize, pid)),
            )
        }
    }
}

/// The parameter numbering the whole report list builds, language by
/// language in order.
pub open spec fn spec_param_numbers(mls: Seq<MyLanguageModel>) -> (
    Seq<(Seq<char>, usize)>,
    Seq<(usize, Seq<char>)>,
)
    decreases mls.len(),
{
    if mls.len() == 0 {
        (Seq::empty(), Seq::empty())
    } else {
        add_numbering(spec_param_numbers(mls.drop_last()), mls.last().param_values)
    }
}

/// One language's plotted pairs, by parameter number: profile entries
/// whose parameter has no number are left out.
pub open spec fn spec_gs_inner(
    idnum: Seq<(Seq<char>, usize)>,
    pvs: Seq<(Seq<char>, SameValueModel)>,
) -> Seq<(usize, usize)>
    decreases pvs.len(),
{
    if pvs.len() == 0 {
        Seq::empty()
    } else {
        let prev = spec_gs_inner(idnum, pvs.drop_last());
        if dict_contains(idnum, pvs.last().0) {
            dict_insert(prev, dict_get(idnum, pvs.last().0), pvs.last().1.value)
        } else {
            prev
        }
    }
}

/// Every language's plotted pairs, keyed by language id.
pub open spec fn spec_gs_langs(
    idnum: Seq<(Seq<char>, usize)>,
    mls: Seq<MyLanguageModel>,
) -> Seq<(Seq<char>, Seq<(usize, usize)>)>
    decreases mls.len(),
{
    if mls.len() == 0 {
        Seq::empty()
    } else {
        dict_insert(
            spec_gs_langs(idnum, mls.drop_last()),
            mls.last().language_id,
            spec_gs_inner(idnum, mls.last().param_values),
        )
    }
}

/// The pairs of a per-language value map keyed by parameter number.
pub open spec fn gs_langs_model(d: Dict<String, Dict<usize, usize>>) -> Seq<
    (Seq<char>, Seq<(usize, usize)>),
> {
    d.model().map(|i: int, e: (Seq<char>, Dict<usize, usize>)| (e.0, e.1.model()))
}

/// The pairs of the number-to-id map, as specification data.
pub open spec fn numid_model(d: Dict<usize, String>) -> Seq<(usize, Seq<char>)> {
    d.model().map(|i: int, e: (usize, String)| (e.0, e.1@))
}

/// A chart source keyed by parameter number.
pub struct GraphSource {
    pub lang_params_map: Dict<String, Dict<usize, usize>>,
    pub param_number_id_map: Dict<usize, String>,
}

impl GraphSource {
    /// Number the parameters in order of first appearance and key every
    /// language's recorded values by those numbers.
    pub fn from_my_languages(value: Vec<&MyLanguage>) -> (r: Self)
        ensures
            numid_model(r.param_number_id_map) == spec_param_numbers(
                value@.map(|i: int, m: &MyLanguage| m@),
            ).1,
            gs_langs_model(r.lang_params_map) == spec_gs_langs(
                spec_param_numbers(value@.map(|i: int, m: &MyLanguage| m@)).0,
                value@.map(|i: int, m: &MyLanguage| m@),
            ),
    {
        let ghost mls = value@.map(|i: int, m: &MyLanguage| m@);
        let mut id_number: Dict<String, usize> = Dict::new();
        let mut number_id: Dict<usize, String> = Dict::new();
        proof {
            assert(mls.take(0) =~= Seq::<MyLanguageModel>::empty());
        }
        let mut i: usize = 0;
        while i < value.len()
            invariant
                i <= mls.len(),
                mls == value@.map(|i: int, m: &MyLanguage| m@),
                (id_number.model(), numid_model(number_id)) == spec_param_numbers(
                    mls.take(i as int),
                ),
                id_number.model().len() == number_id.model().len(),
                forall|j: int|
                    0 <= j < number_id.model().len() ==> (#[trigger] number_id.model()[j]).0
                        == j,
            decreases mls.len() - i,
        {
            let m = value[i];
            let ghost pvs = mls[i as int].param_values;
            proof {
                assert(mls.take(i as int + 1).drop_last() =~= mls.take(i as int));
                assert(mls.take(i as int + 1).last() == mls[i as int]);
                assert(mls[i as int] == m@);
                assert(pvs == samevalues_model(m.param_values));
                assert(pvs.take(0) =~= Seq::<(Seq<char>, SameValueModel)>::empty());
            }
            let ghost base = spec_param_numbers(mls.take(i as int));
            let mut l: usize = 0;
            while l < m.param_values.len()
                invariant
                    l <= pvs.len(),
                    pvs == samevalues_model(m.param_values),
                    (id_number.model(), numid_model(number_id)) == add_numbering(
                        base,
                        pvs.take(l as int),
                    ),
                    id_number.model().len() == number_id.model().len(),
                    forall|j: int|
                        0 <= j < number_id.model().len() ==> (#[trigger] number_id.model()[
                            j
                        ]).0 == j,
                decreases pvs.len() - l,
            {
                let param = m.param_values.key_at(l);
                proof {
                    assert(pvs.take(l as int + 1).drop_last() =~= pvs.take(l as int));
                    assert(pvs.take(l as int + 1).last() == pvs[l as int]);
                    assert(pvs[l as int].0 == param@);
                }
                if !id_number.contains_key(param) {
                    let n = id_number.len();
                    let ghost nprev = numid_model(number_id);
                    proof {
                        assert forall|j: int|
                            0 <= j < number_id.model().len() implies (
                            #[trigger] number_id.model()[j]).0 != n by {}
                        lemma_dict_index_of(number_id.model(), n);
                    }
                    id_number.insert(param.clone(), n);
                    number_id.insert(n, param.clone());
                    proof {
                        assert(id_number.model() == add_numbering(
                            base,
                            pvs.take(l as int + 1),
                        ).0);
                        assert(numid_model(number_id) =~= nprev.push((n, param@)));
                    }
                }
                l += 1;
            }
            proof {
                assert(pvs.take(pvs.len() as int) =~= pvs);
            }
            i += 1;
        }
        proof {
            assert(mls.take(mls.len() as int) =~= mls);
        }
        let ghost idnum = id_number.model();
        let mut lang_params: Dict<String, Dict<usize, usize>> = Dict::new();
        proof {
            assert(gs_langs_model(lang_params) =~= Seq::<
                (Seq<char>, Seq<(usize, usize)>),
            >::empty());
            assert(mls.take(0) =~= Seq::<MyLanguageModel>::empty());
        }
        let mut i2: usize = 0;
        while i2 < value.len()
            invariant
                i2 <= mls.len(),
                mls == value@.map(|i: int, m: &MyLanguage| m@),
                idnum == id_number.model(),
                gs_langs_model(lang_params) == spec_gs_langs(idnum, mls.take(i2 as int)),
            decreases mls.len() - i2,
        {
            let m = value[i2];
            let ghost pvs = mls[i2 as int].param_values;
            proof {
                assert(mls.take(i2 as int + 1).drop_last() =~= mls.take(i2 as int));
                assert(mls.take(i2 as int + 1).last() == mls[i2 as int]);
                assert(mls[i2 as int] == m@);
                assert(pvs == samevalues_model(m.param_values));
                assert(pvs.take(0) =~= Seq::<(Seq<char>, SameValueModel)>::empty());
            }
            let mut inner: Dict<usize, usize> = Dict::new();
            proof {
                assert(inner.model() =~= spec_gs_inner(idnum, pvs.take(0)));
            }
            let mut l: usize = 0;
            while l < m.param_values.len()
                invariant
                    l <= pvs.len(),
                    pvs == samevalues_model(m.param_values),
                    idnum == id_number.model(),
                    inner.model() == spec_gs_inner(idnum, pvs.take(l as int)),
                decreases pvs.len() - l,
            {
                let param = m.param_values.key_at(l);
                let sv = m.param_values.value_at(l);
                proof {
                    assert(pvs.take(l as int + 1).drop_last() =~= pvs.take(l as int));
                    assert(pvs.take(l as int + 1).last() == pvs[l as int]);
                    assert(pvs[l as int] == (param@, sv@));
                }
                match id_number.get(param) {
                    Some(n) => {
                        inner.insert(*n, sv.value);
                    },
                    None => {},
                }
                l += 1;
            }
            proof {
                assert(pvs.take(pvs.len() as int) =~= pvs);
            }
            let ghost prev = gs_langs_model(lang_params);
            let ghost im = inner.model();
            proof {
                assert forall|j: int|
                    0 <= j < prev.len() implies prev[j].0 == lang_params.model()[j].0 by {}
                lemma_dict_index_of_same_keys(lang_params.model(), prev, m.language_id@);
            }
            let ghost pairs0 = lang_params.model();
            lang_params.insert(m.language_id.clone(), inner);
            proof {
                assert(dict_index_of(pairs0, m.language_id@) == dict_index_of(
                    prev,
                    m.language_id@,
                ));
                if dict_contains(prev, m.language_id@) {
                    let i0 = dict_index_of(prev, m.language_id@);
                    lemma_dict_index_of(prev, m.language_id@);
                    assert forall|j: int|
                        0 <= j < prev.len() implies gs_langs_model(lang_params)[j]
                        == dict_insert(prev, m.language_id@, im)[j] by {
                        if j != i0 {
                            assert(lang_params.model()[j] == pairs0[j]);
                        }
                    }
                }
                assert(gs_langs_model(lang_params) =~= dict_insert(prev, m.language_id@, im));
            }
            i2 += 1;
        }
        proof {
            assert(mls.take(mls.len() as int) =~= mls);
        }
        GraphSource { lang_params_map: lang_params, param_number_id_map: number_id }
    }
}

/// One language's profile pairs as plotted data, keyed by parameter id.
pub open spec fn spec_ags_inner(pvs: Seq<(Seq<char>, SameValueModel)>) -> Seq<(Seq<char>, usize)>
    decreases pvs.len(),
{
    if pvs.len() == 0 {
        Seq::empty()
    } else {
        dict_insert(spec_ags_inner(pvs.drop_last()), pvs.last().0, pvs.last().1.value)
    }
}

/// Every language's plotted pairs, keyed by language id then parameter id.
pub open spec fn spec_ags_langs(mls: Seq<MyLanguageModel>) -> Seq<
    (Seq<char>, Seq<(Seq<char>, usize)>),
>
    decreases mls.len(),
{
    if mls.len() == 0 {
        Seq::empty()
    } else {
        dict_insert(
            spec_ags_langs(mls.drop_last()),
            mls.last().language_id,
            spec_ags_inner(mls.last().param_values),
        )
    }
}

/// The pairs of a per-language value map keyed by parameter id.
pub open spec fn ags_langs_model(d: Dict<String, Dict<String, usize>>) -> Seq<
    (Seq<char>, Seq<(Seq<char>, usize)>),
> {
    d.model().map(|i: int, e: (Seq<char>, Dict<String, usize>)| (e.0, e.1.model()))
}

/// A chart source keyed by parameter id, renumbered only for drawing.
pub struct AnotherGraphSource {
    pub lang_params_map: Dict<String, Dict<String, usize>>,
    pub param_id_number_map: Dict<String, usize>,
}

impl AnotherGraphSource {
    /// Number the parameters in order of first appearance and keep every
    /// language's recorded values keyed by parameter id.
    pub fn from_my_languages(value: Vec<&MyLanguage>) -> (r: Self)
        ensures
            r.param_id_number_map.model() == spec_param_numbers(
                value@.map(|i: int, m: &MyLanguage| m@),
            ).0,
            ags_langs_model(r.lang_params_map) == spec_ags_langs(
                value@.map(|i: int, m: &MyLanguage| m@),
            ),
    {
        let ghost mls = value@.map(|i: int, m: &MyLanguage| m@);
        let mut id_number: Dict<String, usize> = Dict::new();
        let mut number_id: Dict<usize, String> = Dict::new();
        proof {
            assert(mls.take(0) =~= Seq::<MyLanguageModel>::empty());
        }
        let mut i: usize = 0;
        while i < value.len()
            invariant
                i <= mls.len(),
                mls == value@.map(|i: int, m: &MyLanguage| m@),
                (id_number.model(), numid_model(number_id)) == spec_param_numbers(
                    mls.take(i as int),
                ),
                id_number.model().len() == number_id.model().len(),
                forall|j: int|
                    0 <= j < number_id.model().len() ==> (#[trigger] number_id.model()[j]).0
                        == j,
            decreases mls.len() - i,
        {
            let m = value[i];
            let ghost pvs = mls[i as int].param_values;
            proof {
                assert(mls.take(i as int + 1).drop_last() =~= mls.take(i as int));
                assert(mls.take(i as int + 1).last() == mls[i as int]);
                assert(mls[i as int] == m@);
                assert(pvs == samevalues_model(m.param_values));
                assert(pvs.take(0) =~= Seq::<(Seq<char>, SameValueModel)>::empty());
            }
            let ghost base = spec_param_numbers(mls.take(i as int));
            let mut l: usize = 0;
            while l < m.param_values.len()
                invariant
                    l <= pvs.len(),
                    pvs == samevalues_model(m.param_values),
                    (id_number.model(), numid_model(number_id)) == add_numbering(
                        base,
                        pvs.take(l as int),
                    ),
                    id_number.model().len() == number_id.model().len(),
                    forall|j: int|
                        0 <= j < number_id.model().len() ==> (#[trigger] number_id.model()[
                            j
                        ]).0 == j,
                decreases pvs.len() - l,
            {
                let param = m.param_values.key_at(l);
                proof {
                    assert(pvs.take(l as int + 1).drop_last() =~= pvs.take(l as int));
                    assert(pvs.take(l as int + 1).last() == pvs[l as int]);
                    assert(pvs[l as int].0 == param@);
                }
                if !id_number.contains_key(param) {
                    let n = id_number.len();
                    let ghost nprev = numid_model(number_id);
                    proof {
                        assert forall|j: int|
                            0 <= j < number_id.model().len() implies (
                            #[trigger] number_id.model()[j]).0 != n by {}
                        lemma_dict_index_of(number_id.model(), n);
                    }
                    id_number.insert(param.clone(), n);
                    number_id.insert(n, param.clone());
                    proof {
                        assert(id_number.model() == add_numbering(
                            base,
                            pvs.take(l as int + 1),
                        ).0);
                        assert(numid_model(number_id) =~= nprev.push((n, param@)));
                    }
                }
                l += 1;
            }
            proof {
                assert(pvs.take(pvs.len() as int) =~= pvs);
            }
            i += 1;
        }
        proof {
            assert(mls.take(mls.len() as int) =~= mls);
        }
        let mut lang_params: Dict<String, Dict<String, usize>> = Dict::new();
        proof {
            assert(ags_langs_model(lang_params) =~= Seq::<
                (Seq<char>, Seq<(Seq<char>, usize)>),
            >::empty());
            assert(mls.take(0) =~= Seq::<MyLanguageModel>::empty());
        }
        let mut i2: usize = 0;
        while i2 < value.len()
            invariant
                i2 <= mls.len(),
                mls == value@.map(|i: int, m: &MyLanguage| m@),
                ags_langs_model(lang_params) == spec_ags_langs(mls.take(i2 as int)),
            decreases mls.len() - i2,
        {
            let m = value[i2];
            let ghost pvs = mls[i2 as int].param_values;
            proof {
                assert(mls.take(i2 as int + 1).drop_last() =~= mls.take(i2 as int));
                assert(mls.take(i2 as int + 1).last() == mls[i2 as int]);
                assert(mls[i2 as int] == m@);
                assert(pvs == samevalues_model(m.param_values));
                assert(pvs.take(0) =~= Seq::<(Seq<char>, SameValueModel)>::empty());
            }
            let mut inner: Dict<String, usize> = Dict::new();
            proof {
                assert(inner.model() =~= spec_ags_inner(pvs.take(0)));
            }
            let mut l: usize = 0;
            while l < m.param_values.len()
                invariant
                    l <= pvs.len(),
                    pvs == samevalues_model(m.param_values),
                    inner.model() == spec_ags_inner(pvs.take(l as int)),
                decreases pvs.len() - l,
            {
                let param = m.param_values.key_at(l);
                let sv = m.param_values.value_at(l);
                proof {
                    assert(pvs.take(l as int + 1).drop_last() =~= pvs.take(l as int));
                    assert(pvs.take(l as int + 1).last() == pvs[l as int]);
                    assert(pvs[l as int] == (param@, sv@));
                }
                inner.insert(param.clone(), sv.value);
                l += 1;
            }
            proof {
                assert(pvs.take(pvs.len() as int) =~= pvs);
            }
            let ghost prev = ags_langs_model(lang_params);
            let ghost im = inner.model();
            proof {
                assert forall|j: int|
                    0 <= j < prev.len() implies prev[j].0 == lang_params.model()[j].0 by {}
                lemma_dict_index_of_same_keys(lang_params.model(), prev, m.language_id@);
            }
            let ghost pairs0 = lang_params.model();
            lang_params.insert(m.language_id.clone(), inner);
            proof {
                assert(dict_index_of(pairs0, m.language_id@) == dict_index_of(
                    prev,
                    m.language_id@,
                ));
                if dict_contains(prev, m.language_id@) {
                    let i0 = dict_index_of(prev, m.language_id@);
                    lemma_dict_index_of(prev, m.language_id@);
                    assert forall|j: int|
                        0 <= j < prev.len() implies ags_langs_model(lang_params)[j]
                        == dict_insert(prev, m.language_id@, im)[j] by {
                        if j != i0 {
                            assert(lang_params.model()[j] == pairs0[j]);
                        }
                    }
                }
                assert(ags_langs_model(lang_params) =~= dict_insert(prev, m.language_id@, im));
            }
            i2 += 1;
        }
        proof {
            assert(mls.take(mls.len() as int) =~= mls);
        }
        AnotherGraphSource { lang_params_map: lang_params, param_id_number_map: id_number }
    }
}

/// The largest key among the pairs, zero when there are none.
pub open spec fn spec_max_key<V>(s: Seq<(usize, V)>) -> usize
    decreases s.len(),
{
    if s.len() == 0 {
        0
    } else {
        let m = spec_max_key(s.drop_last());
        if s.last().0 > m {
            s.last().0
        } else {
            m
        }
    }
}

/// Two pair sequences with the same keys have the same largest key.
proof fn lemma_max_key_same_keys<V1, V2>(s1: Seq<(usize, V1)>, s2: Seq<(usize, V2)>)
    requires
        s1.len() == s2.len(),
        forall|i: int| 0 <= i < s1.len() ==> (#[trigger] s1[i]).0 == s2[i].0,
    ensures
        spec_max_key(s1) == spec_max_key(s2),
    decreases s1.len(),
{
    if s1.len() > 0 {
        assert forall|i: int|
            0 <= i < s1.drop_last().len() implies (#[trigger] s1.drop_last()[i]).0
            == s2.drop_last()[i].0 by {
            assert(s1.drop_last()[i] == s1[i]);
            assert(s2.drop_last()[i] == s2[i]);
        }
        lemma_max_key_same_keys(s1.drop_last(), s2.drop_last());
    }
}

/// The largest key of the map, zero when it is empty.
fn max_num_key<V>(d: &Dict<usize, V>) -> (m: usize)
    ensures
        m == spec_max_key(d.model()),
{
    let ghost dm = d.model();
    let mut m: usize = 0;
    proof {
        assert(dm.take(0) =~= Seq::<(usize, V)>::empty());
    }
    let mut i: usize = 0;
    while i < d.len()
        invariant
            i <= dm.len(),
            dm == d.model(),
            m == spec_max_key(dm.take(i as int)),
        decreases dm.len() - i,
    {
        proof {
            assert(dm.take(i as int + 1).drop_last() =~= dm.take(i as int));
            assert(dm.take(i as int + 1).last() == dm[i as int]);
        }
        let k = d.key_at(i);
        if *k > m {
            m = *k;
        }
        i += 1;
    }
    proof {
        assert(dm.take(dm.len() as int) =~= dm);
    }
    m
}

/// The ordering key of one parameter: how many distinct values it shows,
/// weighted, plus its largest value code.
pub open spec fn spec_sort_key<L>(inner: Seq<(usize, L)>) -> u128 {
    (inner.len() * 100 + spec_max_key(inner)) as u128
}

/// The (ordering key, position) pairs of the pivoted map, one per
/// parameter that shows at least one value.
pub open spec fn spec_ps<L>(td: Seq<(Seq<char>, Seq<(usize, L)>)>) -> Seq<(u128, usize)>
    decreases td.len(),
{
    if td.len() == 0 {
        Seq::empty()
    } else {
        let prev = spec_ps(td.drop_last());
        if td.last().1.len() == 0 {
            prev
        } else {
            prev.push((spec_sort_key(td.last().1), (td.len() - 1) as usize))
        }
    }
}

/// Number the parameters by their place in the sorted order; a pair whose
/// position is stale is skipped.
pub open spec fn spec_renumber<L>(
    s: Seq<(u128, usize)>,
    td: Seq<(Seq<char>, Seq<(usize, L)>)>,
) -> Seq<(Seq<char>, usize)>
    decreases s.len(),
{
    if s.len() == 0 {
        Seq::empty()
    } else {
        let prev = spec_renumber(s.drop_last(), td);
        if s.last().1 < td.len() {
            dict_insert(prev, td[s.last().1 as int].0, (s.len() - 1) as usize)
        } else {
            prev
        }
    }
}

impl AnotherGraphSource {
    /// Renumber the parameters so that those with fewer distinct values and
    /// smaller value codes come first: the key is the count of distinct
    /// values, weighted, plus the largest value code, sorted ascending.
    pub fn sort_by_distinct_count_max_asc(self) -> (r: Self)
        ensures
            r.lang_params_map == self.lang_params_map,
            r.param_id_number_map.model() == spec_renumber(
                spec_sort_by_num(spec_ps(spec_transform(self.lang_params_map.raw_model()))),
                spec_transform(self.lang_params_map.raw_model()),
            ),
    {
        let t = transform_ddict(&self.lang_params_map);
        let ghost td = tdict_model(t);
        let mut kv: Vec<(u128, usize)> = Vec::new();
        proof {
            assert(td.take(0) =~= Seq::<(Seq<char>, Seq<(usize, Seq<String>)>)>::empty());
            assert(kv@ =~= spec_ps(td.take(0)));
        }
        let mut i: usize = 0;
        while i < t.len()
            invariant
                i <= td.len(),
                td == tdict_model(t),
                kv@ == spec_ps(td.take(i as int)),
            decreases td.len() - i,
        {
            let inner = t.value_at(i);
            proof {
                assert(td.take(i as int + 1).drop_last() =~= td.take(i as int));
                assert(td.take(i as int + 1).last() == td[i as int]);
                assert(td[i as int].1 == inner.model().map(
                    |l: int, f: (usize, Vec<String>)| (f.0, f.1@),
                ));
            }
            if inner.len() > 0 {
                let mx = max_num_key(inner);
                proof {
                    assert forall|j: int|
                        0 <= j < inner.model().len() implies (#[trigger] inner.model()[j]).0
                        == td[i as int].1[j].0 by {}
                    lemma_max_key_same_keys(inner.model(), td[i as int].1);
                }
                let key: u128 = (inner.len() as u128) * 100 + (mx as u128);
                proof {
                    assert(key == spec_sort_key(td[i as int].1));
                }
                kv.push((key, i));
                proof {
                    assert(kv@ =~= spec_ps(td.take(i as int)).push((key, i)));
                }
            }
            i += 1;
        }
        proof {
            assert(td.take(td.len() as int) =~= td);
        }
        let sorted = sort_by_num(kv);
        let mut map: Dict<String, usize> = Dict::new();
        proof {
            assert(sorted@.take(0) =~= Seq::<(u128, usize)>::empty());
            assert(map.model() =~= spec_renumber(sorted@.take(0), td));
        }
        let mut x: usize = 0;
        while x < sorted.len()
            invariant
                x <= sorted@.len(),
                td == tdict_model(t),
                map.model() == spec_renumber(sorted@.take(x as int), td),
            decreases sorted@.len() - x,
        {
            proof {
                assert(sorted@.take(x as int + 1).drop_last() =~= sorted@.take(x as int));
                assert(sorted@.take(x as int + 1).last() == sorted@[x as int]);
            }
            let e = sorted[x];
            let ti = e.1;
            if ti < t.len() {
                let pid = t.key_at(ti).clone();
                proof {
                    assert(pid@ == td[ti as int].0);
                }
                map.insert(pid, x);
            }
            x += 1;
        }
        proof {
            assert(sorted@.take(sorted@.len() as int) =~= sorted@);
        }
        AnotherGraphSource { lang_params_map: self.lang_params_map, param_id_number_map: map }
    }
}

/// The (number, position) pairs of the id-to-number map, ready for
/// sorting by number.
pub open spec fn spec_num_order(m: Seq<(Seq<char>, usize)>) -> Seq<(u128, usize)>
    decreases m.len(),
{
    if m.len() == 0 {
        Seq::empty()
    } else {
        spec_num_order(m.drop_last()).push((m.last().1 as u128, (m.len() - 1) as usize))
    }
}

/// The axis label of one parameter: its number, its id, and its name when
/// the metadata knows it.
pub open spec fn spec_axis_label(
    pid: Seq<char>,
    number: usize,
    params: Seq<(Seq<char>, ParameterModel)>,
) -> Seq<char> {
    let base = spec_dec_str(number as int) + ". "@ + pid;
    if dict_contains(params, pid) {
        base + " "@ + dict_get(params, pid).name
    } else {
        base
    }
}

/// The file line of one parameter: its number, then its name when the
/// metadata knows it.
pub open spec fn spec_param_line(
    pid: Seq<char>,
    number: usize,
    params: Seq<(Seq<char>, ParameterModel)>,
) -> Seq<char> {
    let base = spec_dec_str(number as int) + ". "@;
    if dict_contains(params, pid) {
        base + dict_get(params, pid).name
    } else {
        base
    }
}

/// The axis labels in number order; a pair whose position is stale is
/// skipped.
pub open spec fn spec_axis_labels(
    s: Seq<(u128, usize)>,
    m: Seq<(Seq<char>, usize)>,
    params: Seq<(Seq<char>, ParameterModel)>,
) -> Seq<(usize, Seq<char>)>
    decreases s.len(),
{
    if s.len() == 0 {
        Seq::empty()
    } else {
        let prev = spec_axis_labels(s.drop_last(), m, params);
        if s.last().1 < m.len() {
            prev.push(
                (m[s.last().1 as int].1, spec_axis_label(
                    m[s.last().1 as int].0,
                    m[s.last().1 as int].1,
                    params,
                )),
            )
        } else {
            prev
        }
    }
}

/// The file lines in number order; a pair whose position is stale is
/// skipped.
pub open spec fn spec_param_lines(
    s: Seq<(u128, usize)>,
    m: Seq<(Seq<char>, usize)>,
    params: Seq<(Seq<char>, ParameterModel)>,
) -> Seq<Seq<char>>
    decreases s.len(),
{
    if s.len() == 0 {
        Seq::empty()
    } else {
        let prev = spec_param_lines(s.drop_last(), m, params);
        if s.last().1 < m.len() {
            prev.push(
                spec_param_line(m[s.last().1 as int].0, m[s.last().1 as int].1, params),
            )
        } else {
            prev
        }
    }
}

/// One language's plotted points: its recorded values keyed by the drawing
/// number of their parameter; a parameter without a number is left out.
pub open spec fn spec_kvs(
    inner: Seq<(Seq<char>, usize)>,
    idnum: Seq<(Seq<char>, usize)>,
) -> Seq<(u128, (usize, usize))>
    decreases inner.len(),
{
    if inner.len() == 0 {
        Seq::empty()
    } else {
        let prev = spec_kvs(inner.drop_last(), idnum);
        if dict_contains(idnum, inner.last().0) {
            prev.push(
                ((dict_get(idnum, inner.last().0) as u128), (
                    dict_get(idnum, inner.last().0),
                    inner.last().1,
                )),
            )
        } else {
            prev
        }
    }
}

pub open spec fn spec_xs(s: Seq<(u128, (usize, usize))>) -> Seq<usize> {
    s.map(|i: int, e: (u128, (usize, usize))| e.1.0)
}

pub open spec fn spec_ys(s: Seq<(u128, (usize, usize))>) -> Seq<usize> {
    s.map(|i: int, e: (u128, (usize, usize))| e.1.1)
}

/// One plotted line per language, in lexicographic order of language id:
/// the caption, the x and y values sorted by parameter number, and the
/// point symbol of that position.
pub open spec fn spec_plot_series(
    m: Seq<(Seq<char>, Seq<(Seq<char>, usize)>)>,
    idnum: Seq<(Seq<char>, usize)>,
    ids: Seq<Seq<char>>,
    syms: Seq<char>,
) -> Seq<(Seq<char>, Seq<usize>, Seq<usize>, char)>
    decreases ids.len(),
{
    if ids.len() == 0 {
        Seq::empty()
    } else {
        let prev = spec_plot_series(m, idnum, ids.drop_last(), syms);
        let id = ids.last();
        if dict_contains(m, id) && ids.len() - 1 < syms.len() {
            let sorted = spec_sort_by_num(spec_kvs(dict_get(m, id), idnum));
            prev.push((id, spec_xs(sorted), spec_ys(sorted), syms[ids.len() - 1]))
        } else {
            prev
        }
    }
}

impl AnotherGraphSource {
    /// The axis labels of the drawing, one per numbered parameter, ordered
    /// by number: the number, the parameter id, and the parameter's name
    /// when the metadata knows it.
    pub fn axis_labels(&self, param_map: &Dict<String, Parameter>) -> (r: Vec<(usize, String)>)
        ensures
            r@.map(|i: int, e: (usize, String)| (e.0, e.1@)) == spec_axis_labels(
                spec_sort_by_num(spec_num_order(self.param_id_number_map.model())),
                self.param_id_number_map.model(),
                params_model(*param_map),
            ),
    {
        let ghost m = self.param_id_number_map.model();
        let ghost pms = params_model(*param_map);
        let mut kv: Vec<(u128, usize)> = Vec::new();
        proof {
            assert(m.take(0) =~= Seq::<(Seq<char>, usize)>::empty());
            assert(kv@ =~= spec_num_order(m.take(0)));
        }
        let mut i: usize = 0;
        while i < self.param_id_number_map.len()
            invariant
                i <= m.len(),
                m == self.param_id_number_map.model(),
                kv@ == spec_num_order(m.take(i as int)),
            decreases m.len() - i,
        {
            proof {
                assert(m.take(i as int + 1).drop_last() =~= m.take(i as int));
                assert(m.take(i as int + 1).last() == m[i as int]);
            }
            let n = self.param_id_number_map.value_at(i);
            kv.push(((*n as u128), i));
            i += 1;
        }
        proof {
            assert(m.take(m.len() as int) =~= m);
        }
        let sorted = sort_by_num(kv);
        let mut r: Vec<(usize, String)> = Vec::new();
        proof {
            assert(sorted@.take(0) =~= Seq::<(u128, usize)>::empty());
            assert(r@.map(|i: int, e: (usize, String)| (e.0, e.1@)) =~= spec_axis_labels(
                sorted@.take(0),
                m,
                pms,
            ));
        }
        let mut x: usize = 0;
        while x < sorted.len()
            invariant
                x <= sorted@.len(),
                m == self.param_id_number_map.model(),
                pms == params_model(*param_map),
                r@.map(|i: int, e: (usize, String)| (e.0, e.1@)) == spec_axis_labels(
                    sorted@.take(x as int),
                    m,
                    pms,
                ),
            decreases sorted@.len() - x,
        {
            proof {
                assert(sorted@.take(x as int + 1).drop_last() =~= sorted@.take(x as int));
                assert(sorted@.take(x as int + 1).last() == sorted@[x as int]);
            }
            let ghost prev = r@.map(|i: int, e: (usize, String)| (e.0, e.1@));
            let e = sorted[x];
            let ti = e.1;
            if ti < self.param_id_number_map.len() {
                let pid = self.param_id_number_map.key_at(ti);
                let number = self.param_id_number_map.value_at(ti);
                let mut label = usize_to_string(*number);
                label.append(". ");
                label.append(pid.as_str());
                proof {
                    assert forall|j: int|
                        0 <= j < pms.len() implies pms[j].0 == param_map.model()[j].0 && pms[
                        j
                    ].1 == param_map.model()[j].1@ by {}
                    lemma_dict_index_of_same_keys(param_map.model(), pms, pid@);
                }
                match param_map.get(pid) {
                    Some(p) => {
                        proof {
                            lemma_dict_index_of(pms, pid@);
                            assert(p@ == pms[dict_index_of(pms, pid@)].1);
                            assert(p@ == dict_get(pms, pid@));
                        }
                        label.append(" ");
                        label.append(p.name.as_str());
                    },
                    None => {},
                }
                proof {
                    assert(label@ =~= spec_axis_label(pid@, *number, pms));
                }
                r.push((*number, label));
                proof {
                    assert(r@.map(|i: int, e: (usize, String)| (e.0, e.1@)) =~= prev.push(
                        (m[ti as int].1, spec_axis_label(m[ti as int].0, m[ti as int].1, pms)),
                    ));
                }
            }
            x += 1;
        }
        proof {
            assert(sorted@.take(sorted@.len() as int) =~= sorted@);
        }
        r
    }

    /// The lines of the parameter listing written beside a chart, ordered
    /// by number: the number, then the parameter's name when the metadata
    /// knows it.
    pub fn param_label_lines(&self, param_map: &Dict<String, Parameter>) -> (r: Vec<String>)
        ensures
            r@.map(|i: int, s: String| s@) == spec_param_lines(
                spec_sort_by_num(spec_num_order(self.param_id_number_map.model())),
                self.param_id_number_map.model(),
                params_model(*param_map),
            ),
    {
        let ghost m = self.param_id_number_map.model();
        let ghost pms = params_model(*param_map);
        let mut kv: Vec<(u128, usize)> = Vec::new();
        proof {
            assert(m.take(0) =~= Seq::<(Seq<char>, usize)>::empty());
            assert(kv@ =~= spec_num_order(m.take(0)));
        }
        let mut i: usize = 0;
        while i < self.param_id_number_map.len()
            invariant
                i <= m.len(),
                m == self.param_id_number_map.model(),
                kv@ == spec_num_order(m.take(i as int)),
            decreases m.len() - i,
        {
            proof {
                assert(m.take(i as int + 1).drop_last() =~= m.take(i as int));
                assert(m.take(i as int + 1).last() == m[i as int]);
            }
            let n = self.param_id_number_map.value_at(i);
            kv.push(((*n as u128), i));
            i += 1;
        }
        proof {
            assert(m.take(m.len() as int) =~= m);
        }
        let sorted = sort_by_num(kv);
        let mut r: Vec<String> = Vec::new();
        proof {
            assert(sorted@.take(0) =~= Seq::<(u128, usize)>::empty());
            assert(r@.map(|i: int, s: String| s@) =~= spec_param_lines(
                sorted@.take(0),
                m,
                pms,
            ));
        }
        let mut x: usize = 0;
        while x < sorted.len()
            invariant
                x <= sorted@.len(),
                m == self.param_id_number_map.model(),
                pms == params_model(*param_map),
                r@.map(|i: int, s: String| s@) == spec_param_lines(
                    sorted@.take(x as int),
                    m,
                    pms,
                ),
            decreases sorted@.len() - x,
        {
            proof {
                assert(sorted@.take(x as int + 1).drop_last() =~= sorted@.take(x as int));
                assert(sorted@.take(x as int + 1).last() == sorted@[x as int]);
            }
            let ghost prev = r@.map(|i: int, s: String| s@);
            let e = sorted[x];
            let ti = e.1;
            if ti < self.param_id_number_map.len() {
                let pid = self.param_id_number_map.key_at(ti);
                let number = self.param_id_number_map.value_at(ti);
                let mut line = usize_to_string(*number);
                line.append(". ");
                proof {
                    assert forall|j: int|
                        0 <= j < pms.len() implies pms[j].0 == param_map.model()[j].0 && pms[
                        j
                    ].1 == param_map.model()[j].1@ by {}
                    lemma_dict_index_of_same_keys(param_map.model(), pms, pid@);
                }
                match param_map.get(pid) {
                    Some(p) => {
                        proof {
                            lemma_dict_index_of(pms, pid@);
                            assert(p@ == pms[dict_index_of(pms, pid@)].1);
                            assert(p@ == dict_get(pms, pid@));
                        }
                        line.append(p.name.as_str());
                    },
                    None => {},
                }
                proof {
                    assert(line@ =~= spec_param_line(pid@, *number, pms));
                }
                r.push(line);
                proof {
                    assert(r@.map(|i: int, s: String| s@) =~= prev.push(
                        spec_param_line(m[ti as int].0, m[ti as int].1, pms),
                    ));
                }
            }
            x += 1;
        }
        proof {
            assert(sorted@.take(sorted@.len() as int) =~= sorted@);
        }
        r
    }

    /// The plotted lines of the chart, one per language in lexicographic
    /// order: caption, x values, y values, and point symbol. At most seven
    /// languages can be drawn, one symbol each.
    pub fn plot_series(&self) -> (r: Vec<(String, Vec<usize>, Vec<usize>, char)>)
        requires
            self.lang_params_map.model().len() <= 7,
        ensures
            r@.map(
                |i: int, e: (String, Vec<usize>, Vec<usize>, char)| (e.0@, e.1@, e.2@, e.3),
            ) == spec_plot_series(
                ags_langs_model(self.lang_params_map),
                self.param_id_number_map.model(),
                spec_sort_strs(
                    self.lang_params_map.model().map(
                        |i: int, e: (Seq<char>, Dict<String, usize>)| e.0,
                    ),
                ),
                "+xtosdr"@,
            ),
    {
        let ghost am = ags_langs_model(self.lang_params_map);
        let ghost idnum = self.param_id_number_map.model();
        let ghost keysm = self.lang_params_map.model().map(
            |i: int, e: (Seq<char>, Dict<String, usize>)| e.0,
        );
        let mut keys: Vec<String> = Vec::new();
        proof {
            assert(keys@.map(|i: int, s: String| s@) =~= keysm.take(0));
        }
        let mut i: usize = 0;
        while i < self.lang_params_map.len()
            invariant
                i <= keysm.len(),
                keysm == self.lang_params_map.model().map(
                    |i: int, e: (Seq<char>, Dict<String, usize>)| e.0,
                ),
                keys@.map(|j: int, s: String| s@) == keysm.take(i as int),
            decreases keysm.len() - i,
        {
            let k = self.lang_params_map.key_at(i);
            let ghost kprev = keys@.map(|j: int, s: String| s@);
            keys.push(k.clone());
            proof {
                assert(keysm[i as int] == self.lang_params_map.model()[i as int].0);
                assert(k@ == keysm[i as int]);
                assert(keys@.map(|j: int, s: String| s@) =~= kprev.push(k@));
                assert(keysm.take(i as int + 1) =~= keysm.take(i as int).push(keysm[i as int]));
            }
            i += 1;
        }
        proof {
            assert(keysm.take(keysm.len() as int) =~= keysm);
        }
        let ids = sort_strings(keys);
        let ghost idsv = ids@.map(|i: int, s: String| s@);
        proof {
            lemma_sort_strs_len(keysm);
            assert(idsv.len() <= 7);
            assert(idsv.take(0) =~= Seq::<Seq<char>>::empty());
        }
        let syms = "+xtosdr";
        proof {
            reveal_strlit("+xtosdr");
        }
        let mut r: Vec<(String, Vec<usize>, Vec<usize>, char)> = Vec::new();
        proof {
            assert(r@.map(
                |i: int, e: (String, Vec<usize>, Vec<usize>, char)| (e.0@, e.1@, e.2@, e.3),
            ) =~= spec_plot_series(am, idnum, idsv.take(0), syms@));
        }
        let mut x: usize = 0;
        while x < ids.len()
            invariant
                x <= idsv.len(),
                idsv.len() <= 7,
                syms@ == "+xtosdr"@,
                syms@.len() == 7,
                idsv == ids@.map(|i: int, s: String| s@),
                am == ags_langs_model(self.lang_params_map),
                idnum == self.param_id_number_map.model(),
                r@.map(
                    |i: int, e: (String, Vec<usize>, Vec<usize>, char)| (e.0@, e.1@, e.2@, e.3),
                ) == spec_plot_series(am, idnum, idsv.take(x as int), syms@),
            decreases idsv.len() - x,
        {
            let id = &ids[x];
            let ghost prev = r@.map(
                |i: int, e: (String, Vec<usize>, Vec<usize>, char)| (e.0@, e.1@, e.2@, e.3),
            );
            proof {
                assert(idsv.take(x as int + 1).drop_last() =~= idsv.take(x as int));
                assert(idsv.take(x as int + 1).last() == idsv[x as int]);
                assert(idsv[x as int] == id@);
                assert forall|j: int|
                    0 <= j < am.len() implies am[j].0 == self.lang_params_map.model()[j].0 by {}
                lemma_dict_index_of_same_keys(self.lang_params_map.model(), am, id@);
            }
            match self.lang_params_map.get(id) {
                None => {
                    proof {
                        assert(!dict_contains(am, id@));
                    }
                },
                Some(inner) => {
                    let ghost im = inner.model();
                    proof {
                        lemma_dict_index_of(am, id@);
                        assert(im == am[dict_index_of(am, id@)].1);
                        assert(im == dict_get(am, id@));
                        assert(im.take(0) =~= Seq::<(Seq<char>, usize)>::empty());
                    }
                    let mut kvs: Vec<(u128, (usize, usize))> = Vec::new();
                    proof {
                        assert(kvs@ =~= spec_kvs(im.take(0), idnum));
                    }
                    let mut l: usize = 0;
                    while l < inner.len()
                        invariant
                            l <= im.len(),
                            im == inner.model(),
                            idnum == self.param_id_number_map.model(),
                            kvs@ == spec_kvs(im.take(l as int), idnum),
                        decreases im.len() - l,
                    {
                        proof {
                            assert(im.take(l as int + 1).drop_last() =~= im.take(l as int));
                            assert(im.take(l as int + 1).last() == im[l as int]);
                        }
                        let param = inner.key_at(l);
                        let v = inner.value_at(l);
                        match self.param_id_number_map.get(param) {
                            Some(n) => {
                                kvs.push(((*n as u128), (*n, *v)));
                            },
                            None => {},
                        }
                        l += 1;
                    }
                    proof {
                        assert(im.take(im.len() as int) =~= im);
                    }
                    let sorted = sort_by_num(kvs);
                    let mut xs: Vec<usize> = Vec::new();
                    let mut ys: Vec<usize> = Vec::new();
                    proof {
                        assert(xs@ =~= spec_xs(sorted@.take(0)));
                        assert(ys@ =~= spec_ys(sorted@.take(0)));
                    }
                    let mut j: usize = 0;
                    while j < sorted.len()
                        invariant
                            j <= sorted@.len(),
                            xs@ == spec_xs(sorted@.take(j as int)),
                            ys@ == spec_ys(sorted@.take(j as int)),
                        decreases sorted@.len() - j,
                    {
                        let p = sorted[j];
                        xs.push(p.1.0);
                        ys.push(p.1.1);
                        proof {
                            assert(xs@ =~= spec_xs(sorted@.take(j as int + 1)));
                            assert(ys@ =~= spec_ys(sorted@.take(j as int + 1)));
                        }
                        j += 1;
                    }
                    proof {
                        assert(sorted@.take(sorted@.len() as int) =~= sorted@);
                    }
                    let c = syms.get_char(x);
                    r.push((id.clone(), xs, ys, c));
                    proof {
                        assert(r@.map(
                            |i: int, e: (String, Vec<usize>, Vec<usize>, char)|
                                (e.0@, e.1@, e.2@, e.3),
                        ) =~= prev.push(
                            (
                                id@,
                                spec_xs(spec_sort_by_num(spec_kvs(dict_get(am, id@), idnum))),
                                spec_ys(spec_sort_by_num(spec_kvs(dict_get(am, id@), idnum))),
                                syms@[x as int],
                            ),
                        ));
                    }
                },
            }
            x += 1;
        }
        proof {
            assert(idsv.take(idsv.len() as int) =~= idsv);
        }
        r
    }
}

} // verus!
