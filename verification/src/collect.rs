//! The aggregation engine: inverted indices over the value records and the
//! per-language peer-group statistics derived from them.

use vstd::prelude::*;

use crate::csvs::{Chapter, ChapterModel, Parameter, ParameterModel, Value, ValueModel};
use crate::dict::{
    dict_contains, dict_get, dict_index_of, dict_insert, dict_wf, lemma_dict_index_of,
    lemma_dict_index_of_same_keys, Dict,
};
use crate::strings::{
    clone_strings, join_with, sanitize, sort_strings, spec_dec_str, spec_join, spec_sanitize,
    spec_sort_strs, usize_to_string,
};
use crate::strset::{
    distinct_strs, lemma_seq_without_len, lemma_seq_without_not_contains,
    lemma_set_push_distinct, seq_without, set_push, StrSet,
};

verus! {

/// For one parameter: value code to the languages that recorded it.
pub type ValueIndexModel = Seq<(usize, Seq<Seq<char>>)>;

/// Parameter to its value index.
pub type ParamIndexModel = Seq<(Seq<char>, ValueIndexModel)>;

/// Language to its profile of (parameter, value code) pairs.
pub type ProfilesModel = Seq<(Seq<char>, Seq<(Seq<char>, usize)>)>;

/// The pairs of a per-parameter value index, as specification data.
pub open spec fn value_index_model(d: Dict<usize, StrSet>) -> ValueIndexModel {
    d.model().map(|i: int, e: (usize, StrSet)| (e.0, e.1.model()))
}

/// The pairs of the full parameter index, as specification data.
pub open spec fn index_model(d: Dict<String, Dict<usize, StrSet>>) -> ParamIndexModel {
    d.model().map(|i: int, e: (Seq<char>, Dict<usize, StrSet>)| (e.0, value_index_model(e.1)))
}

/// The pairs of the language profiles, as specification data.
pub open spec fn profiles_model(d: Dict<String, Dict<String, usize>>) -> ProfilesModel {
    d.model().map(|i: int, e: (Seq<char>, Dict<String, usize>)| (e.0, e.1.model()))
}

/// Record one language under a value code of one parameter's value index.
pub open spec fn add_obs_value(
    vi: ValueIndexModel,
    value: usize,
    lang: Seq<char>,
) -> ValueIndexModel {
    if dict_contains(vi, value) {
        dict_insert(vi, value, set_push(dict_get(vi, value), lang))
    } else {
        vi.push((value, seq![lang]))
    }
}

/// Record one observation in the parameter index.
pub open spec fn add_obs(idx: ParamIndexModel, r: ValueModel) -> ParamIndexModel {
    let inner = if dict_contains(idx, r.parameter_id) {
        dict_get(idx, r.parameter_id)
    } else {
        Seq::<(usize, Seq<Seq<char>>)>::empty()
    };
    dict_insert(idx, r.parameter_id, add_obs_value(inner, r.value, r.language_id))
}

/// The parameter index that the record sequence builds, in order.
pub open spec fn spec_values_per_param(rs: Seq<ValueModel>) -> ParamIndexModel
    decreases rs.len(),
{
    if rs.len() == 0 {
        Seq::empty()
    } else {
        add_obs(spec_values_per_param(rs.drop_last()), rs.last())
    }
}

/// Record one observation in the language profiles; a repeated
/// (language, parameter) pair overwrites the stored value code.
pub open spec fn add_profile(ps: ProfilesModel, r: ValueModel) -> ProfilesModel {
    let inner = if dict_contains(ps, r.language_id) {
        dict_get(ps, r.language_id)
    } else {
        Seq::<(Seq<char>, usize)>::empty()
    };
    dict_insert(ps, r.language_id, dict_insert(inner, r.parameter_id, r.value))
}

/// The language profiles that the record sequence builds, in order.
pub open spec fn spec_values_per_language(rs: Seq<ValueModel>) -> ProfilesModel
    decreases rs.len(),
{
    if rs.len() == 0 {
        Seq::empty()
    } else {
        add_profile(spec_values_per_language(rs.drop_last()), rs.last())
    }
}

/// Well-formedness of a parameter index: unique keys at both levels and
/// no language listed twice in one peer set.
pub open spec fn pv_index_wf(idx: ParamIndexModel) -> bool {
    &&& dict_wf(idx)
    &&& forall|i: int| 0 <= i < idx.len() ==> dict_wf(#[trigger] idx[i].1)
    &&& forall|i: int, j: int|
        0 <= i < idx.len() && 0 <= j < idx[i].1.len() ==> distinct_strs(
            #[trigger] idx[i].1[j].1,
        )
}

/// Recording an observation keeps the parameter index well formed.
pub proof fn lemma_add_obs_wf(idx: ParamIndexModel, r: ValueModel)
    requires
        pv_index_wf(idx),
    ensures
        pv_index_wf(add_obs(idx, r)),
{
    lemma_dict_index_of(idx, r.parameter_id);
    let pi = dict_index_of(idx, r.parameter_id);
    let inner0 = if dict_contains(idx, r.parameter_id) {
        dict_get(idx, r.parameter_id)
    } else {
        Seq::<(usize, Seq<Seq<char>>)>::empty()
    };
    let inner1 = add_obs_value(inner0, r.value, r.language_id);
    lemma_dict_index_of(inner0, r.value);
    let vi = dict_index_of(inner0, r.value);
    assert(dict_wf(inner0));
    assert(forall|j: int| 0 <= j < inner0.len() ==> distinct_strs(#[trigger] inner0[j].1));
    if dict_contains(inner0, r.value) {
        lemma_set_push_distinct(inner0[vi].1, r.language_id);
        assert(dict_wf(inner1));
        assert forall|j: int| 0 <= j < inner1.len() implies distinct_strs(
            #[trigger] inner1[j].1,
        ) by {
            if j != vi {
                assert(inner1[j] == inner0[j]);
            }
        }
    } else {
        assert(distinct_strs(seq![r.language_id]));
        assert forall|i: int, j: int|
            0 <= i < j < inner1.len() implies inner1[i].0 != inner1[j].0 by {
            if j < inner0.len() {
                assert(inner1[i] == inner0[i]);
                assert(inner1[j] == inner0[j]);
            } else {
                assert(inner1[i] == inner0[i]);
                assert(inner0[i].0 != r.value);
            }
        }
        assert forall|j: int| 0 <= j < inner1.len() implies distinct_strs(
            #[trigger] inner1[j].1,
        ) by {
            if j < inner0.len() {
                assert(inner1[j] == inner0[j]);
            }
        }
    }
    let out = dict_insert(idx, r.parameter_id, inner1);
    if dict_contains(idx, r.parameter_id) {
        assert forall|i: int, j: int| 0 <= i < j < out.len() implies out[i].0 != out[j].0 by {
            if i != pi {
                assert(out[i] == idx[i]);
            }
            if j != pi {
                assert(out[j] == idx[j]);
            }
        }
        assert forall|i: int| 0 <= i < out.len() implies dict_wf(#[trigger] out[i].1) by {
            if i != pi {
                assert(out[i] == idx[i]);
            }
        }
        assert forall|i: int, j: int|
            0 <= i < out.len() && 0 <= j < out[i].1.len() implies distinct_strs(
            #[trigger] out[i].1[j].1,
        ) by {
            if i != pi {
                assert(out[i] == idx[i]);
            }
        }
    } else {
        assert forall|i: int, j: int| 0 <= i < j < out.len() implies out[i].0 != out[j].0 by {
            if j < idx.len() {
                assert(out[i] == idx[i]);
                assert(out[j] == idx[j]);
            } else {
                assert(out[i] == idx[i]);
                assert(idx[i].0 != r.parameter_id);
            }
        }
        assert forall|i: int| 0 <= i < out.len() implies dict_wf(#[trigger] out[i].1) by {
            if i < idx.len() {
                assert(out[i] == idx[i]);
            }
        }
        assert forall|i: int, j: int|
            0 <= i < out.len() && 0 <= j < out[i].1.len() implies distinct_strs(
            #[trigger] out[i].1[j].1,
        ) by {
            if i < idx.len() {
                assert(out[i] == idx[i]);
            }
        }
    }
}

/// The built parameter index is always well formed.
pub proof fn lemma_pv_index_wf(rs: Seq<ValueModel>)
    ensures
        pv_index_wf(spec_values_per_param(rs)),
    decreases rs.len(),
{
    if rs.len() > 0 {
        lemma_pv_index_wf(rs.drop_last());
        lemma_add_obs_wf(spec_values_per_param(rs.drop_last()), rs.last());
    }
}

/// Invert the records into, for every parameter, a mapping from value code
/// to the set of languages that recorded that value. No record is dropped;
/// a duplicated record adds nothing, since set membership is idempotent.
pub fn collect_values_per_param(values: &Vec<Value>) -> (r: Dict<String, Dict<usize, StrSet>>)
    ensures
        index_model(r) == spec_values_per_param(values@.map(|k: int, v: Value| v@)),
        pv_index_wf(index_model(r)),
{
    let ghost models = values@.map(|k: int, v: Value| v@);
    let mut outer: Dict<String, Dict<usize, StrSet>> = Dict::new();
    proof {
        assert(index_model(outer) =~= Seq::<(Seq<char>, ValueIndexModel)>::empty());
        assert(models.take(0) =~= Seq::<ValueModel>::empty());
    }
    let mut i: usize = 0;
    while i < values.len()
        invariant
            i <= values.len(),
            models == values@.map(|k: int, v: Value| v@),
            index_model(outer) == spec_values_per_param(models.take(i as int)),
        decreases values.len() - i,
    {
        let v = &values[i];
        let ghost prev = index_model(outer);
        proof {
            lemma_pv_index_wf(models.take(i as int));
            assert(models.take(i as int + 1).drop_last() =~= models.take(i as int));
            assert(models.take(i as int + 1).last() == models[i as int]);
            assert(models[i as int] == v@);
            assert forall|j: int| 0 <= j < prev.len() implies prev[j].0 == outer.model()[j].0
                && prev[j].1 == value_index_model(outer.model()[j].1) by {}
            lemma_dict_index_of_same_keys(outer.model(), prev, v.parameter_id@);
        }
        match outer.index_of_key(&v.parameter_id) {
            Some(pi) => {
                let ghost inner0_model = prev[pi as int].1;
                proof {
                    lemma_dict_index_of(prev, v.parameter_id@);
                    assert(dict_get(prev, v.parameter_id@) == inner0_model);
                }
                let mut inner = outer.replace_value_at(pi, Dict::new());
                proof {
                    assert(value_index_model(inner) == inner0_model);
                    assert forall|j: int|
                        0 <= j < inner0_model.len() implies inner0_model[j].0
                        == inner.model()[j].0 by {}
                    lemma_dict_index_of_same_keys(inner.model(), inner0_model, v.value);
                }
                match inner.index_of_key(&v.value) {
                    Some(vi) => {
                        let ghost langs0 = inner0_model[vi as int].1;
                        proof {
                            lemma_dict_index_of(inner0_model, v.value);
                            assert(dict_get(inner0_model, v.value) == langs0);
                            assert(distinct_strs(langs0));
                        }
                        let mut langs = inner.replace_value_at(vi, StrSet::new());
                        proof {
                            assert(langs.model() == langs0);
                        }
                        langs.insert(v.language_id.clone());
                        let ghost langs1 = langs.model();
                        let _swapped = inner.replace_value_at(vi, langs);
                        proof {
                            assert(value_index_model(inner) =~= dict_insert(
                                inner0_model,
                                v.value,
                                set_push(langs0, v.language_id@),
                            ));
                        }
                    },
                    None => {
                        inner.insert(v.value, StrSet::singleton(v.language_id.clone()));
                        proof {
                            assert(value_index_model(inner) =~= dict_insert(
                                inner0_model,
                                v.value,
                                seq![v.language_id@],
                            ));
                            assert(!dict_contains(inner0_model, v.value));
                            assert(dict_insert(
                                inner0_model,
                                v.value,
                                seq![v.language_id@],
                            ) == inner0_model.push((v.value, seq![v.language_id@])));
                        }
                    },
                }
                let ghost inner1_model = value_index_model(inner);
                proof {
                    assert(inner1_model == add_obs_value(
                        inner0_model,
                        v.value,
                        v.language_id@,
                    ));
                }
                let _swapped2 = outer.replace_value_at(pi, inner);
                proof {
                    assert(prev[pi as int].0 == v.parameter_id@);
                    assert(index_model(outer) =~= dict_insert(
                        prev,
                        v.parameter_id@,
                        inner1_model,
                    ));
                    assert(index_model(outer) == add_obs(prev, v@));
                }
            },
            None => {
                let mut inner: Dict<usize, StrSet> = Dict::new();
                inner.insert(v.value, StrSet::singleton(v.language_id.clone()));
                let ghost im = value_index_model(inner);
                proof {
                    assert(im =~= seq![(v.value, seq![v.language_id@])]);
                    assert(im =~= add_obs_value(
                        Seq::<(usize, Seq<Seq<char>>)>::empty(),
                        v.value,
                        v.language_id@,
                    ));
                }
                outer.insert(v.parameter_id.clone(), inner);
                proof {
                    assert(!dict_contains(prev, v.parameter_id@));
                    assert(index_model(outer) =~= prev.push((v.parameter_id@, im)));
                    assert(index_model(outer) == add_obs(prev, v@));
                }
            },
        }
        i += 1;
    }
    proof {
        assert(models.take(values@.len() as int) =~= models);
        lemma_pv_index_wf(models);
    }
    outer
}

/// Well-formedness of the language profiles: unique keys at both levels.
pub open spec fn profiles_wf(ps: ProfilesModel) -> bool {
    &&& dict_wf(ps)
    &&& forall|i: int| 0 <= i < ps.len() ==> dict_wf(#[trigger] ps[i].1)
}

/// Recording an observation keeps the profiles well formed.
pub proof fn lemma_add_profile_wf(ps: ProfilesModel, r: ValueModel)
    requires
        profiles_wf(ps),
    ensures
        profiles_wf(add_profile(ps, r)),
{
    lemma_dict_index_of(ps, r.language_id);
    let pi = dict_index_of(ps, r.language_id);
    let inner0 = if dict_contains(ps, r.language_id) {
        dict_get(ps, r.language_id)
    } else {
        Seq::<(Seq<char>, usize)>::empty()
    };
    lemma_dict_index_of(inner0, r.parameter_id);
    let inner1 = dict_insert(inner0, r.parameter_id, r.value);
    assert(dict_wf(inner0));
    if !dict_contains(inner0, r.parameter_id) {
        assert forall|i: int, j: int|
            0 <= i < j < inner1.len() implies inner1[i].0 != inner1[j].0 by {
            if j < inner0.len() {
                assert(inner1[i] == inner0[i]);
                assert(inner1[j] == inner0[j]);
            } else {
                assert(inner1[i] == inner0[i]);
                assert(inner0[i].0 != r.parameter_id);
            }
        }
    }
    let out = dict_insert(ps, r.language_id, inner1);
    if dict_contains(ps, r.language_id) {
        assert forall|i: int, j: int| 0 <= i < j < out.len() implies out[i].0 != out[j].0 by {
            if i != pi {
                assert(out[i] == ps[i]);
            }
            if j != pi {
                assert(out[j] == ps[j]);
            }
        }
        assert forall|i: int| 0 <= i < out.len() implies dict_wf(#[trigger] out[i].1) by {
            if i != pi {
                assert(out[i] == ps[i]);
            }
        }
    } else {
        assert forall|i: int, j: int| 0 <= i < j < out.len() implies out[i].0 != out[j].0 by {
            if j < ps.len() {
                assert(out[i] == ps[i]);
                assert(out[j] == ps[j]);
            } else {
                assert(out[i] == ps[i]);
                assert(ps[i].0 != r.language_id);
            }
        }
        assert forall|i: int| 0 <= i < out.len() implies dict_wf(#[trigger] out[i].1) by {
            if i < ps.len() {
                assert(out[i] == ps[i]);
            }
        }
    }
}

/// The built profiles are always well formed.
pub proof fn lemma_profiles_wf(rs: Seq<ValueModel>)
    ensures
        profiles_wf(spec_values_per_language(rs)),
    decreases rs.len(),
{
    if rs.len() > 0 {
        lemma_profiles_wf(rs.drop_last());
        lemma_add_profile_wf(spec_values_per_language(rs.drop_last()), rs.last());
    }
}

/// Invert the records into, for every language, a mapping from parameter to
/// the value code that language recorded; on duplicates the record processed
/// last wins.
pub fn collect_values_per_language(values: &Vec<Value>) -> (r: Dict<String, Dict<String, usize>>)
    ensures
        profiles_model(r) == spec_values_per_language(values@.map(|k: int, v: Value| v@)),
        profiles_wf(profiles_model(r)),
{
    let ghost models = values@.map(|k: int, v: Value| v@);
    let mut outer: Dict<String, Dict<String, usize>> = Dict::new();
    proof {
        assert(profiles_model(outer) =~= Seq::<(Seq<char>, Seq<(Seq<char>, usize)>)>::empty());
        assert(models.take(0) =~= Seq::<ValueModel>::empty());
    }
    let mut i: usize = 0;
    while i < values.len()
        invariant
            i <= values.len(),
            models == values@.map(|k: int, v: Value| v@),
            profiles_model(outer) == spec_values_per_language(models.take(i as int)),
        decreases values.len() - i,
    {
        let v = &values[i];
        let ghost prev = profiles_model(outer);
        proof {
            assert(models.take(i as int + 1).drop_last() =~= models.take(i as int));
            assert(models.take(i as int + 1).last() == models[i as int]);
            assert(models[i as int] == v@);
            assert forall|j: int| 0 <= j < prev.len() implies prev[j].0 == outer.model()[j].0
                && prev[j].1 == outer.model()[j].1.model() by {}
            lemma_dict_index_of_same_keys(outer.model(), prev, v.language_id@);
        }
        match outer.index_of_key(&v.language_id) {
            Some(pi) => {
                let ghost inner0_model = prev[pi as int].1;
                proof {
                    lemma_dict_index_of(prev, v.language_id@);
                    assert(dict_get(prev, v.language_id@) == inner0_model);
                }
                let mut inner = outer.replace_value_at(pi, Dict::new());
                proof {
                    assert(inner.model() == inner0_model);
                }
                inner.insert(v.parameter_id.clone(), v.value);
                let ghost inner1_model = inner.model();
                let _swapped = outer.replace_value_at(pi, inner);
                proof {
                    assert(prev[pi as int].0 == v.language_id@);
                    assert(profiles_model(outer) =~= dict_insert(
                        prev,
                        v.language_id@,
                        inner1_model,
                    ));
                    assert(profiles_model(outer) == add_profile(prev, v@));
                }
            },
            None => {
                let mut inner: Dict<String, usize> = Dict::new();
                proof {
                    assert(inner.model() =~= Seq::<(Seq<char>, usize)>::empty());
                }
                inner.insert(v.parameter_id.clone(), v.value);
                let ghost im = inner.model();
                outer.insert(v.language_id.clone(), inner);
                proof {
                    assert(!dict_contains(prev, v.language_id@));
                    assert(profiles_model(outer) =~= prev.push((v.language_id@, im)));
                    assert(profiles_model(outer) == add_profile(prev, v@));
                }
            },
        }
        i += 1;
    }
    proof {
        assert(models.take(values@.len() as int) =~= models);
        lemma_profiles_wf(models);
    }
    outer
}

/// Observations recorded in one parameter's value index.
pub open spec fn spec_value_observations(vi: ValueIndexModel) -> nat
    decreases vi.len(),
{
    if vi.len() == 0 {
        0
    } else {
        vi[0].1.len() + spec_value_observations(vi.drop_first())
    }
}

/// Observations recorded in the whole parameter index: the sum, over every
/// parameter and every value code, of the size of that value's language set.
pub open spec fn spec_total_observations(idx: ParamIndexModel) -> nat
    decreases idx.len(),
{
    if idx.len() == 0 {
        0
    } else {
        spec_value_observations(idx[0].1) + spec_total_observations(idx.drop_first())
    }
}

/// One value's language set counts into its parameter's observations.
pub proof fn lemma_value_member_le(vi: ValueIndexModel, value: usize)
    requires
        dict_contains(vi, value),
    ensures
        dict_get(vi, value).len() <= spec_value_observations(vi),
    decreases vi.len(),
{
    lemma_dict_index_of(vi, value);
    if vi[0].0 == value {
        assert(dict_index_of(vi, value) == 0);
    } else {
        let r = dict_index_of(vi.drop_first(), value);
        assert(r >= 0);
        lemma_dict_index_of(vi.drop_first(), value);
        lemma_value_member_le(vi.drop_first(), value);
        assert(vi[r + 1] == vi.drop_first()[r]);
    }
}

/// One parameter's observations count into the dataset-wide total.
pub proof fn lemma_param_member_le(idx: ParamIndexModel, param: Seq<char>)
    requires
        dict_contains(idx, param),
    ensures
        spec_value_observations(dict_get(idx, param)) <= spec_total_observations(idx),
    decreases idx.len(),
{
    lemma_dict_index_of(idx, param);
    if idx[0].0 == param {
        assert(dict_index_of(idx, param) == 0);
    } else {
        let r = dict_index_of(idx.drop_first(), param);
        assert(r >= 0);
        lemma_dict_index_of(idx.drop_first(), param);
        lemma_param_member_le(idx.drop_first(), param);
        assert(idx[r + 1] == idx.drop_first()[r]);
    }
}

/// Count every observation in the dataset: the one scalar used as the
/// normalization denominator of every statistic of a run.
pub fn total_observations(index: &Dict<String, Dict<usize, StrSet>>) -> (n: usize)
    requires
        spec_total_observations(index_model(*index)) <= usize::MAX,
    ensures
        n == spec_total_observations(index_model(*index)),
{
    let ghost idx = index_model(*index);
    let mut n: usize = 0;
    let mut i: usize = 0;
    proof {
        assert(idx.skip(0) =~= idx);
    }
    while i < index.len()
        invariant
            i <= idx.len(),
            idx == index_model(*index),
            spec_total_observations(idx) <= usize::MAX,
            n + spec_total_observations(idx.skip(i as int)) == spec_total_observations(idx),
        decreases idx.len() - i,
    {
        proof {
            assert(idx.skip(i as int).drop_first() =~= idx.skip(i as int + 1));
            assert(idx.skip(i as int)[0] == idx[i as int]);
        }
        let vd = index.value_at(i);
        let ghost vim = idx[i as int].1;
        proof {
            assert(vim == value_index_model(*vd));
            assert(vim.skip(0) =~= vim);
        }
        let mut j: usize = 0;
        while j < vd.len()
            invariant
                j <= vim.len(),
                vim == value_index_model(*vd),
                n + spec_value_observations(vim.skip(j as int)) + spec_total_observations(
                    idx.skip(i as int + 1),
                ) == spec_total_observations(idx),
                spec_total_observations(idx) <= usize::MAX,
            decreases vim.len() - j,
        {
            proof {
                assert(vim.skip(j as int).drop_first() =~= vim.skip(j as int + 1));
                assert(vim.skip(j as int)[0] == vim[j as int]);
            }
            let langs = vd.value_at(j);
            proof {
                assert(langs.model() == vim[j as int].1);
            }
            let c = langs.len();
            n = n + c;
            j += 1;
        }
        proof {
            assert(vim.skip(vim.len() as int) =~= Seq::<(usize, Seq<Seq<char>>)>::empty());
        }
        i += 1;
    }
    proof {
        assert(idx.skip(idx.len() as int) =~= Seq::<(Seq<char>, ValueIndexModel)>::empty());
    }
    n
}

/// One peer-group statistic, as specification data.
pub ghost struct SameValueModel {
    pub value: usize,
    pub peer_ids: Seq<Seq<char>>,
    pub peer_count: int,
    pub total: int,
}

/// One peer-group statistic: the value a language recorded for a parameter,
/// the other languages that recorded the same value, how many they are, and
/// the dataset-wide observation total. The ratio the report carries is the
/// exact quotient `value_language_count / language_count_total`, kept here
/// as its numerator and denominator; it is not computable when the
/// denominator is zero.
pub struct SameValue {
    pub value: usize,
    pub same_value_language_ids: Vec<String>,
    pub value_language_count: usize,
    pub language_count_total: usize,
}

impl View for SameValue {
    type V = SameValueModel;

    open spec fn view(&self) -> SameValueModel {
        SameValueModel {
            value: self.value,
            peer_ids: self.same_value_language_ids@.map(|i: int, s: String| s@),
            peer_count: self.value_language_count as int,
            total: self.language_count_total as int,
        }
    }
}

/// One language's report, as specification data.
pub ghost struct MyLanguageModel {
    pub language_id: Seq<char>,
    pub param_values: Seq<(Seq<char>, SameValueModel)>,
}

/// One language's report: a statistic for every parameter of its profile
/// that the parameter index also knows.
pub struct MyLanguage {
    pub language_id: String,
    pub param_values: Dict<String, SameValue>,
}

/// The pairs of a per-parameter statistics map, as specification data.
pub open spec fn samevalues_model(d: Dict<String, SameValue>) -> Seq<(Seq<char>, SameValueModel)> {
    d.model().map(|i: int, e: (Seq<char>, SameValue)| (e.0, e.1@))
}

impl View for MyLanguage {
    type V = MyLanguageModel;

    open spec fn view(&self) -> MyLanguageModel {
        MyLanguageModel {
            language_id: self.language_id@,
            param_values: samevalues_model(self.param_values),
        }
    }
}

/// The pairs of the full per-language report map, as specification data.
pub open spec fn mylangs_model(d: Dict<String, MyLanguage>) -> Seq<(Seq<char>, MyLanguageModel)> {
    d.model().map(|i: int, e: (Seq<char>, MyLanguage)| (e.0, e.1@))
}

/// The statistic for one (language, parameter, value) triple: every peer
/// of the value except the subject language, and the global denominator.
pub open spec fn spec_same_value(
    langs: Seq<Seq<char>>,
    lang: Seq<char>,
    value: usize,
    total: int,
) -> SameValueModel {
    SameValueModel {
        value,
        peer_ids: seq_without(langs, lang),
        peer_count: seq_without(langs, lang).len() as int,
        total,
    }
}

/// One language's statistics: for each profile entry whose parameter and
/// value the index knows, one statistic; entries the index does not know
/// are skipped without failing.
pub open spec fn spec_my_language(
    idx: ParamIndexModel,
    profile: Seq<(Seq<char>, usize)>,
    lang: Seq<char>,
    total: int,
) -> Seq<(Seq<char>, SameValueModel)>
    decreases profile.len(),
{
    if profile.len() == 0 {
        Seq::empty()
    } else {
        let prev = spec_my_language(idx, profile.drop_last(), lang, total);
        let param = profile.last().0;
        let value = profile.last().1;
        if dict_contains(idx, param) && dict_contains(dict_get(idx, param), value) {
            dict_insert(
                prev,
                param,
                spec_same_value(dict_get(dict_get(idx, param), value), lang, value, total),
            )
        } else {
            prev
        }
    }
}

/// The reports of every listed language that has a profile.
pub open spec fn spec_my_languages(
    idx: ParamIndexModel,
    profiles: ProfilesModel,
    langs: Seq<Seq<char>>,
    total: int,
) -> Seq<(Seq<char>, MyLanguageModel)>
    decreases langs.len(),
{
    if langs.len() == 0 {
        Seq::empty()
    } else {
        let prev = spec_my_languages(idx, profiles, langs.drop_last(), total);
        let lang = langs.last();
        if dict_contains(profiles, lang) {
            dict_insert(
                prev,
                lang,
                MyLanguageModel {
                    language_id: lang,
                    param_values: spec_my_language(idx, dict_get(profiles, lang), lang, total),
                },
            )
        } else {
            prev
        }
    }
}

/// For every language listed, look its profile up; for every profile entry,
/// look the peer set up in the parameter index, exclude the language itself,
/// and combine with the dataset-wide observation total into one statistic.
pub fn get_my_languages(
    collected_values_per_param: &Dict<String, Dict<usize, StrSet>>,
    collected_values_per_lang: &Dict<String, Dict<String, usize>>,
    languages: &Vec<String>,
) -> (r: Dict<String, MyLanguage>)
    requires
        spec_total_observations(index_model(*collected_values_per_param)) <= usize::MAX,
    ensures
        mylangs_model(r) == spec_my_languages(
            index_model(*collected_values_per_param),
            profiles_model(*collected_values_per_lang),
            languages@.map(|i: int, s: String| s@),
            spec_total_observations(index_model(*collected_values_per_param)) as int,
        ),
{
    let ghost idx = index_model(*collected_values_per_param);
    let ghost profs = profiles_model(*collected_values_per_lang);
    let ghost langs = languages@.map(|i: int, s: String| s@);
    let total = total_observations(collected_values_per_param);
    let ghost total_g = spec_total_observations(idx) as int;
    let mut out: Dict<String, MyLanguage> = Dict::new();
    proof {
        assert(mylangs_model(out) =~= Seq::<(Seq<char>, MyLanguageModel)>::empty());
        assert(langs.take(0) =~= Seq::<Seq<char>>::empty());
    }
    let mut li: usize = 0;
    while li < languages.len()
        invariant
            li <= langs.len(),
            idx == index_model(*collected_values_per_param),
            profs == profiles_model(*collected_values_per_lang),
            langs == languages@.map(|i: int, s: String| s@),
            total == spec_total_observations(idx),
            total_g == spec_total_observations(idx) as int,
            mylangs_model(out) == spec_my_languages(idx, profs, langs.take(li as int), total_g),
        decreases langs.len() - li,
    {
        let lang = &languages[li];
        let ghost out_prev = mylangs_model(out);
        proof {
            assert(langs.take(li as int + 1).drop_last() =~= langs.take(li as int));
            assert(langs.take(li as int + 1).last() == langs[li as int]);
            assert(langs[li as int] == lang@);
            assert forall|j: int|
                0 <= j < profs.len() implies profs[j].0
                == collected_values_per_lang.model()[j].0 && profs[j].1
                == collected_values_per_lang.model()[j].1.model() by {}
            lemma_dict_index_of_same_keys(collected_values_per_lang.model(), profs, lang@);
        }
        match collected_values_per_lang.get(lang) {
            None => {
                proof {
                    assert(!dict_contains(profs, lang@));
                }
            },
            Some(profile) => {
                proof {
                    lemma_dict_index_of(profs, lang@);
                    let gi = dict_index_of(profs, lang@);
                    assert(profile.model() == profs[gi].1);
                    assert(profile.model() == dict_get(profs, lang@));
                }
                let ghost pm = profile.model();
                let mut pvs: Dict<String, SameValue> = Dict::new();
                proof {
                    assert(samevalues_model(pvs) =~= Seq::<(Seq<char>, SameValueModel)>::empty());
                    assert(pm.take(0) =~= Seq::<(Seq<char>, usize)>::empty());
                }
                let mut pi: usize = 0;
                while pi < profile.len()
                    invariant
                        pi <= pm.len(),
                        pm == profile.model(),
                        idx == index_model(*collected_values_per_param),
                        total == spec_total_observations(idx),
                        total_g == spec_total_observations(idx) as int,
                        samevalues_model(pvs) == spec_my_language(
                            idx,
                            pm.take(pi as int),
                            lang@,
                            total_g,
                        ),
                    decreases pm.len() - pi,
                {
                    let param = profile.key_at(pi);
                    let value = profile.value_at(pi);
                    let ghost pvs_prev = samevalues_model(pvs);
                    proof {
                        assert(pm.take(pi as int + 1).drop_last() =~= pm.take(pi as int));
                        assert(pm.take(pi as int + 1).last() == pm[pi as int]);
                        assert(pm[pi as int] == (param@, *value));
                        assert forall|j: int|
                            0 <= j < idx.len() implies idx[j].0
                            == collected_values_per_param.model()[j].0 && idx[j].1
                            == value_index_model(
                            collected_values_per_param.model()[j].1,
                        ) by {}
                        lemma_dict_index_of_same_keys(
                            collected_values_per_param.model(),
                            idx,
                            param@,
                        );
                    }
                    match collected_values_per_param.get(param) {
                        None => {
                            proof {
                                assert(!dict_contains(idx, param@));
                            }
                        },
                        Some(vd) => {
                            let ghost vim = value_index_model(*vd);
                            proof {
                                lemma_dict_index_of(idx, param@);
                                let gi = dict_index_of(idx, param@);
                                assert(vim == idx[gi].1);
                                assert(vim == dict_get(idx, param@));
                                assert forall|j: int|
                                    0 <= j < vim.len() implies vim[j].0 == vd.model()[j].0
                                    && vim[j].1 == vd.model()[j].1.model() by {}
                                lemma_dict_index_of_same_keys(vd.model(), vim, *value);
                            }
                            match vd.get(value) {
                                None => {
                                    proof {
                                        assert(!dict_contains(vim, *value));
                                    }
                                },
                                Some(ls) => {
                                    let ghost lsm = ls.model();
                                    proof {
                                        lemma_dict_index_of(vim, *value);
                                        let gj = dict_index_of(vim, *value);
                                        assert(lsm == vim[gj].1);
                                        assert(lsm == dict_get(vim, *value));
                                    }
                                    let sames = ls.others_than(lang);
                                    let count = sames.len();
                                    let sv = SameValue {
                                        value: *value,
                                        same_value_language_ids: sames,
                                        value_language_count: count,
                                        language_count_total: total,
                                    };
                                    let ghost svm = sv@;
                                    proof {
                                        assert(svm == spec_same_value(lsm, lang@, *value, total_g));
                                        assert forall|j: int|
                                            0 <= j < pvs_prev.len() implies pvs_prev[j].0
                                            == pvs.model()[j].0 && pvs_prev[j].1
                                            == pvs.model()[j].1@ by {}
                                        lemma_dict_index_of_same_keys(
                                            pvs.model(),
                                            pvs_prev,
                                            param@,
                                        );
                                    }
                                    let ghost pairs0 = pvs.model();
                                    let k = param.clone();
                                    pvs.insert(k, sv);
                                    proof {
                                        assert(pvs.model() == dict_insert(pairs0, param@, sv));
                                        assert(dict_index_of(pairs0, param@) == dict_index_of(
                                            pvs_prev,
                                            param@,
                                        ));
                                        if dict_contains(pvs_prev, param@) {
                                            let i0 = dict_index_of(pvs_prev, param@);
                                            lemma_dict_index_of(pvs_prev, param@);
                                            assert(pvs.model() == pairs0.update(
                                                i0,
                                                (param@, sv),
                                            ));
                                            assert forall|j: int|
                                                0 <= j < pvs_prev.len() implies samevalues_model(
                                                pvs,
                                            )[j] == dict_insert(pvs_prev, param@, svm)[j] by {
                                                if j != i0 {
                                                    assert(pvs.model()[j] == pairs0[j]);
                                                }
                                            }
                                        } else {
                                            assert(pvs.model() == pairs0.push((param@, sv)));
                                        }
                                        assert(samevalues_model(pvs) =~= dict_insert(
                                            pvs_prev,
                                            param@,
                                            svm,
                                        ));
                                    }
                                },
                            }
                        },
                    }
                    pi += 1;
                }
                proof {
                    assert(pm.take(pm.len() as int) =~= pm);
                }
                let ml = MyLanguage { language_id: lang.clone(), param_values: pvs };
                let ghost mlm = ml@;
                proof {
                    assert forall|j: int|
                        0 <= j < out_prev.len() implies out_prev[j].0 == out.model()[j].0
                        && out_prev[j].1 == out.model()[j].1@ by {}
                    lemma_dict_index_of_same_keys(out.model(), out_prev, lang@);
                }
                let ghost pairs0 = out.model();
                out.insert(lang.clone(), ml);
                proof {
                    assert(out.model() == dict_insert(pairs0, lang@, ml));
                    assert(dict_index_of(pairs0, lang@) == dict_index_of(out_prev, lang@));
                    if dict_contains(out_prev, lang@) {
                        let i0 = dict_index_of(out_prev, lang@);
                        lemma_dict_index_of(out_prev, lang@);
                        assert(out.model() == pairs0.update(i0, (lang@, ml)));
                        assert forall|j: int|
                            0 <= j < out_prev.len() implies mylangs_model(out)[j] == dict_insert(
                            out_prev,
                            lang@,
                            mlm,
                        )[j] by {
                            if j != i0 {
                                assert(out.model()[j] == pairs0[j]);
                            }
                        }
                    } else {
                        assert(out.model() == pairs0.push((lang@, ml)));
                    }
                    assert(mylangs_model(out) =~= dict_insert(out_prev, lang@, mlm));
                }
            },
        }
        li += 1;
    }
    proof {
        assert(langs.take(langs.len() as int) =~= langs);
    }
    out
}

/// One formatted report row, as specification data.
pub ghost struct ReportRowModel {
    pub parameter_id: Seq<char>,
    pub parameter_name: Seq<char>,
    pub parameter_description: Seq<char>,
    pub chapter_id: usize,
    pub chapter_citation: Seq<char>,
    pub value: usize,
    pub same_value_language_ids: Seq<char>,
    pub value_language_count: int,
    pub language_count_total: int,
}

/// One row of a language's report, ready for delimited output: metadata
/// joined in, free-text fields sanitized, and the peer list sorted and
/// joined with spaces. The ratio column is the exact quotient
/// `value_language_count / language_count_total` and is appended by the
/// writer, which must guard a zero denominator.
pub struct ReportRow {
    pub parameter_id: String,
    pub parameter_name: String,
    pub parameter_description: String,
    pub chapter_id: usize,
    pub chapter_citation: String,
    pub value: usize,
    pub same_value_language_ids: String,
    pub value_language_count: usize,
    pub language_count_total: usize,
}

impl View for ReportRow {
    type V = ReportRowModel;

    open spec fn view(&self) -> ReportRowModel {
        ReportRowModel {
            parameter_id: self.parameter_id@,
            parameter_name: self.parameter_name@,
            parameter_description: self.parameter_description@,
            chapter_id: self.chapter_id,
            chapter_citation: self.chapter_citation@,
            value: self.value,
            same_value_language_ids: self.same_value_language_ids@,
            value_language_count: self.value_language_count as int,
            language_count_total: self.language_count_total as int,
        }
    }
}

/// The parameter metadata pairs, as specification data.
pub open spec fn params_model(d: Dict<String, Parameter>) -> Seq<(Seq<char>, ParameterModel)> {
    d.model().map(|i: int, e: (Seq<char>, Parameter)| (e.0, e.1@))
}

/// The chapter metadata pairs, as specification data.
pub open spec fn chapters_model(d: Dict<usize, Chapter>) -> Seq<(usize, ChapterModel)> {
    d.model().map(|i: int, e: (usize, Chapter)| (e.0, e.1@))
}

/// The row one statistic formats to, with its metadata joined in.
pub open spec fn spec_report_row(
    pid: Seq<char>,
    p: ParameterModel,
    ch: ChapterModel,
    sv: SameValueModel,
) -> ReportRowModel {
    ReportRowModel {
        parameter_id: pid,
        parameter_name: spec_sanitize(p.name),
        parameter_description: spec_sanitize(p.description),
        chapter_id: p.chapter_id,
        chapter_citation: spec_sanitize(ch.citation),
        value: sv.value,
        same_value_language_ids: spec_join(spec_sort_strs(sv.peer_ids), " "@),
        value_language_count: sv.peer_count,
        language_count_total: sv.total,
    }
}

/// The rows of one language's report: one per statistic whose parameter
/// and chapter metadata both exist; a statistic with a missing
/// cross-reference drops its row and nothing else.
pub open spec fn spec_rows(
    pvs: Seq<(Seq<char>, SameValueModel)>,
    params: Seq<(Seq<char>, ParameterModel)>,
    chaps: Seq<(usize, ChapterModel)>,
) -> Seq<ReportRowModel>
    decreases pvs.len(),
{
    if pvs.len() == 0 {
        Seq::empty()
    } else {
        let prev = spec_rows(pvs.drop_last(), params, chaps);
        let pid = pvs.last().0;
        let sv = pvs.last().1;
        if dict_contains(params, pid) && dict_contains(chaps, dict_get(params, pid).chapter_id) {
            prev.push(
                spec_report_row(
                    pid,
                    dict_get(params, pid),
                    dict_get(chaps, dict_get(params, pid).chapter_id),
                    sv,
                ),
            )
        } else {
            prev
        }
    }
}

impl MyLanguage {
    /// Format this language's statistics as report rows, joining parameter
    /// and chapter metadata; a statistic whose metadata is missing drops
    /// its row, the rest stay untouched.
    pub fn rows(&self, parameters: &Dict<String, Parameter>, chapters: &Dict<usize, Chapter>) -> (r:
        Vec<ReportRow>)
        ensures
            r@.map(|i: int, row: ReportRow| row@) == spec_rows(
                samevalues_model(self.param_values),
                params_model(*parameters),
                chapters_model(*chapters),
            ),
    {
        let ghost pvs = samevalues_model(self.param_values);
        let ghost pms = params_model(*parameters);
        let ghost chs = chapters_model(*chapters);
        let mut r: Vec<ReportRow> = Vec::new();
        proof {
            assert(pvs.take(0) =~= Seq::<(Seq<char>, SameValueModel)>::empty());
            assert(r@.map(|i: int, row: ReportRow| row@) =~= spec_rows(pvs.take(0), pms, chs));
        }
        let mut i: usize = 0;
        while i < self.param_values.len()
            invariant
                i <= pvs.len(),
                pvs == samevalues_model(self.param_values),
                pms == params_model(*parameters),
                chs == chapters_model(*chapters),
                r@.map(|j: int, row: ReportRow| row@) == spec_rows(pvs.take(i as int), pms, chs),
            decreases pvs.len() - i,
        {
            let pid = self.param_values.key_at(i);
            let sv = self.param_values.value_at(i);
            let ghost prev = r@.map(|j: int, row: ReportRow| row@);
            proof {
                assert(pvs.take(i as int + 1).drop_last() =~= pvs.take(i as int));
                assert(pvs.take(i as int + 1).last() == pvs[i as int]);
                assert(pvs[i as int] == (pid@, sv@));
                assert forall|j: int|
                    0 <= j < pms.len() implies pms[j].0 == parameters.model()[j].0 && pms[j].1
                    == parameters.model()[j].1@ by {}
                lemma_dict_index_of_same_keys(parameters.model(), pms, pid@);
            }
            match parameters.get(pid) {
                None => {
                    proof {
                        assert(!dict_contains(pms, pid@));
                    }
                },
                Some(p) => {
                    proof {
                        lemma_dict_index_of(pms, pid@);
                        let gi = dict_index_of(pms, pid@);
                        assert(p@ == pms[gi].1);
                        assert(p@ == dict_get(pms, pid@));
                        assert forall|j: int|
                            0 <= j < chs.len() implies chs[j].0 == chapters.model()[j].0
                            && chs[j].1 == chapters.model()[j].1@ by {}
                        lemma_dict_index_of_same_keys(chapters.model(), chs, p.chapter_id);
                    }
                    match chapters.get(&p.chapter_id) {
                        None => {
                            proof {
                                assert(!dict_contains(chs, p@.chapter_id));
                            }
                        },
                        Some(ch) => {
                            proof {
                                lemma_dict_index_of(chs, p.chapter_id);
                                let gj = dict_index_of(chs, p@.chapter_id);
                                assert(ch@ == chs[gj].1);
                                assert(ch@ == dict_get(chs, p@.chapter_id));
                            }
                            let sames = clone_strings(&sv.same_value_language_ids);
                            let sorted = sort_strings(sames);
                            let joined = join_with(&sorted, " ");
                            let row = ReportRow {
                                parameter_id: pid.clone(),
                                parameter_name: sanitize(p.name.as_str()),
                                parameter_description: sanitize(p.description.as_str()),
                                chapter_id: p.chapter_id,
                                chapter_citation: sanitize(ch.citation.as_str()),
                                value: sv.value,
                                same_value_language_ids: joined,
                                value_language_count: sv.value_language_count,
                                language_count_total: sv.language_count_total,
                            };
                            let ghost rm = row@;
                            proof {
                                assert(rm == spec_report_row(pid@, p@, ch@, sv@));
                            }
                            r.push(row);
                            proof {
                                assert(r@.map(|j: int, row: ReportRow| row@) =~= prev.push(rm));
                            }
                        },
                    }
                },
            }
            i += 1;
        }
        proof {
            assert(pvs.take(pvs.len() as int) =~= pvs);
        }
        r
    }

    /// The column names of a report file, in output order.
    pub fn columns() -> (r: Vec<&'static str>)
        ensures
            r@.len() == 10,
            r@.map(|i: int, s: &str| s@) == seq![
                "parameter_id"@,
                "parameter_name"@,
                "parameter_description"@,
                "chapter_id"@,
                "chapter_citation"@,
                "value"@,
                "same_value_language_ids"@,
                "value_language_count"@,
                "language_count_total"@,
                "count_ratio"@,
            ],
    {
        let mut r: Vec<&'static str> = Vec::new();
        r.push("parameter_id");
        r.push("parameter_name");
        r.push("parameter_description");
        r.push("chapter_id");
        r.push("chapter_citation");
        r.push("value");
        r.push("same_value_language_ids");
        r.push("value_language_count");
        r.push("language_count_total");
        r.push("count_ratio");
        proof {
            assert(r@.map(|i: int, s: &str| s@) =~= seq![
                "parameter_id"@,
                "parameter_name"@,
                "parameter_description"@,
                "chapter_id"@,
                "chapter_citation"@,
                "value"@,
                "same_value_language_ids"@,
                "value_language_count"@,
                "language_count_total"@,
                "count_ratio"@,
            ]);
        }
        r
    }
}

impl SameValue {
    /// The column names of the bare statistic fields, in output order.
    pub fn columns() -> (r: Vec<&'static str>)
        ensures
            r@.len() == 4,
            r@.map(|i: int, s: &str| s@) == seq![
                "value"@,
                "same_value_language_ids"@,
                "value_language_count"@,
                "language_count_total"@,
            ],
    {
        let mut r: Vec<&'static str> = Vec::new();
        r.push("value");
        r.push("same_value_language_ids");
        r.push("value_language_count");
        r.push("language_count_total");
        proof {
            assert(r@.map(|i: int, s: &str| s@) =~= seq![
                "value"@,
                "same_value_language_ids"@,
                "value_language_count"@,
                "language_count_total"@,
            ]);
        }
        r
    }
}

/// The nine verified fields of one row, as the strings a delimited file
/// carries, in column order; the tenth column, the ratio, is appended by
/// the writer.
pub open spec fn spec_row_fields(m: ReportRowModel) -> Seq<Seq<char>> {
    seq![
        m.parameter_id,
        m.parameter_name,
        m.parameter_description,
        spec_dec_str(m.chapter_id as int),
        m.chapter_citation,
        spec_dec_str(m.value as int),
        m.same_value_language_ids,
        spec_dec_str(m.value_language_count),
        spec_dec_str(m.language_count_total),
    ]
}

impl ReportRow {
    /// The row's fields as strings, in column order, without the ratio.
    pub fn fields(&self) -> (r: Vec<String>)
        ensures
            r@.map(|i: int, s: String| s@) == spec_row_fields(self@),
    {
        let mut r: Vec<String> = Vec::new();
        r.push(self.parameter_id.clone());
        r.push(self.parameter_name.clone());
        r.push(self.parameter_description.clone());
        r.push(usize_to_string(self.chapter_id));
        r.push(self.chapter_citation.clone());
        r.push(usize_to_string(self.value));
        r.push(self.same_value_language_ids.clone());
        r.push(usize_to_string(self.value_language_count));
        r.push(usize_to_string(self.language_count_total));
        proof {
            assert(r@.map(|i: int, s: String| s@) =~= spec_row_fields(self@));
        }
        r
    }

    /// The row joined with the output delimiter, without the ratio column.
    pub fn to_line(&self) -> (r: String)
        ensures
            r@ == spec_join(spec_row_fields(self@), ","@),
    {
        let fields = self.fields();
        join_with(&fields, ",")
    }
}

/// The facts that hold of every statistic a run emits: the subject is no
/// peer of itself, the stored count is the peer list's length, and the
/// stored denominator is the dataset-wide total, which the count never
/// exceeds.
pub open spec fn stat_ok(
    idx: ParamIndexModel,
    lang: Seq<char>,
    total: int,
    sv: SameValueModel,
) -> bool {
    &&& !sv.peer_ids.contains(lang)
    &&& sv.peer_count == sv.peer_ids.len()
    &&& sv.total == total
    &&& 0 <= sv.peer_count <= total
}

/// Every entry of one language's report satisfies [`stat_ok`].
proof fn lemma_my_language_facts(
    idx: ParamIndexModel,
    profile: Seq<(Seq<char>, usize)>,
    lang: Seq<char>,
    total: int,
)
    requires
        total == spec_total_observations(idx) as int,
    ensures
        forall|k: int|
            0 <= k < spec_my_language(idx, profile, lang, total).len() ==> stat_ok(
                idx,
                lang,
                total,
                (#[trigger] spec_my_language(idx, profile, lang, total)[k]).1,
            ),
    decreases profile.len(),
{
    if profile.len() > 0 {
        lemma_my_language_facts(idx, profile.drop_last(), lang, total);
        let prev = spec_my_language(idx, profile.drop_last(), lang, total);
        let param = profile.last().0;
        let value = profile.last().1;
        if dict_contains(idx, param) && dict_contains(dict_get(idx, param), value) {
            let langs = dict_get(dict_get(idx, param), value);
            let svm = spec_same_value(langs, lang, value, total);
            lemma_seq_without_not_contains(langs, lang);
            lemma_seq_without_len(langs, lang);
            lemma_value_member_le(dict_get(idx, param), value);
            lemma_param_member_le(idx, param);
            assert(stat_ok(idx, lang, total, svm));
            let out = dict_insert(prev, param, svm);
            lemma_dict_index_of(prev, param);
            assert forall|k: int| 0 <= k < out.len() implies stat_ok(
                idx,
                lang,
                total,
                (#[trigger] out[k]).1,
            ) by {
                if dict_contains(prev, param) {
                    if k != dict_index_of(prev, param) {
                        assert(out[k] == prev[k]);
                    }
                } else {
                    if k < prev.len() {
                        assert(out[k] == prev[k]);
                    }
                }
            }
        }
    }
}

/// A whole report entry is sound: it is keyed by its own language and all
/// its statistics satisfy [`stat_ok`].
pub open spec fn report_ok(
    idx: ParamIndexModel,
    total: int,
    entry: (Seq<char>, MyLanguageModel),
) -> bool {
    &&& entry.1.language_id == entry.0
    &&& forall|k: int|
        0 <= k < entry.1.param_values.len() ==> stat_ok(
            idx,
            entry.1.language_id,
            total,
            (#[trigger] entry.1.param_values[k]).1,
        )
}

/// Every report of a run is sound in the sense of [`report_ok`].
proof fn lemma_my_languages_facts(
    idx: ParamIndexModel,
    profiles: ProfilesModel,
    langs: Seq<Seq<char>>,
    total: int,
)
    requires
        total == spec_total_observations(idx) as int,
    ensures
        forall|i: int|
            0 <= i < spec_my_languages(idx, profiles, langs, total).len() ==> report_ok(
                idx,
                total,
                #[trigger] spec_my_languages(idx, profiles, langs, total)[i],
            ),
    decreases langs.len(),
{
    if langs.len() > 0 {
        lemma_my_languages_facts(idx, profiles, langs.drop_last(), total);
        let prev = spec_my_languages(idx, profiles, langs.drop_last(), total);
        let lang = langs.last();
        if dict_contains(profiles, lang) {
            let ml = MyLanguageModel {
                language_id: lang,
                param_values: spec_my_language(idx, dict_get(profiles, lang), lang, total),
            };
            lemma_my_language_facts(idx, dict_get(profiles, lang), lang, total);
            assert(report_ok(idx, total, (lang, ml)));
            let out = dict_insert(prev, lang, ml);
            lemma_dict_index_of(prev, lang);
            assert forall|i: int| 0 <= i < out.len() implies report_ok(
                idx,
                total,
                #[trigger] out[i],
            ) by {
                if dict_contains(prev, lang) {
                    if i != dict_index_of(prev, lang) {
                        assert(out[i] == prev[i]);
                    }
                } else {
                    if i < prev.len() {
                        assert(out[i] == prev[i]);
                    }
                }
            }
        }
    }
}

/// Law: no statistic of a run lists its subject language among its peers.
pub proof fn lemma_peers_exclude_subject(
    idx: ParamIndexModel,
    profiles: ProfilesModel,
    langs: Seq<Seq<char>>,
    total: int,
    i: int,
    k: int,
)
    requires
        total == spec_total_observations(idx) as int,
        0 <= i < spec_my_languages(idx, profiles, langs, total).len(),
        0 <= k < spec_my_languages(idx, profiles, langs, total)[i].1.param_values.len(),
    ensures
        !spec_my_languages(idx, profiles, langs, total)[i].1.param_values[k].1.peer_ids.contains(
            spec_my_languages(idx, profiles, langs, total)[i].1.language_id,
        ),
{
    lemma_my_languages_facts(idx, profiles, langs, total);
}

/// Law: every statistic's stored count is exactly the length of its peer
/// list, and it never exceeds the stored denominator; so the ratio
/// `peer_count / total` lies in the unit interval whenever the denominator
/// is positive, and is left uncomputed otherwise.
pub proof fn lemma_ratio_bounds(
    idx: ParamIndexModel,
    profiles: ProfilesModel,
    langs: Seq<Seq<char>>,
    total: int,
    i: int,
    k: int,
)
    requires
        total == spec_total_observations(idx) as int,
        0 <= i < spec_my_languages(idx, profiles, langs, total).len(),
        0 <= k < spec_my_languages(idx, profiles, langs, total)[i].1.param_values.len(),
    ensures
        spec_my_languages(idx, profiles, langs, total)[i].1.param_values[k].1.peer_count
            == spec_my_languages(
            idx,
            profiles,
            langs,
            total,
        )[i].1.param_values[k].1.peer_ids.len(),
        0 <= spec_my_languages(idx, profiles, langs, total)[i].1.param_values[k].1.peer_count
            <= spec_my_languages(idx, profiles, langs, total)[i].1.param_values[k].1.total,
{
    lemma_my_languages_facts(idx, profiles, langs, total);
}

/// Law: every statistic of one run carries one and the same denominator,
/// the dataset-wide observation total; it is not recomputed per parameter.
pub proof fn lemma_total_is_global(
    idx: ParamIndexModel,
    profiles: ProfilesModel,
    langs: Seq<Seq<char>>,
    total: int,
    i: int,
    k: int,
)
    requires
        total == spec_total_observations(idx) as int,
        0 <= i < spec_my_languages(idx, profiles, langs, total).len(),
        0 <= k < spec_my_languages(idx, profiles, langs, total)[i].1.param_values.len(),
    ensures
        spec_my_languages(idx, profiles, langs, total)[i].1.param_values[k].1.total
            == spec_total_observations(idx) as int,
{
    lemma_my_languages_facts(idx, profiles, langs, total);
}

/// Law: aggregation is a pure function of the index, the profiles and the
/// language list; two runs over the same immutable inputs agree exactly,
/// so rerunning the aggregator changes nothing.
pub proof fn lemma_aggregation_deterministic(
    idx: ParamIndexModel,
    profiles: ProfilesModel,
    langs: Seq<Seq<char>>,
    total: int,
    r1: Seq<(Seq<char>, MyLanguageModel)>,
    r2: Seq<(Seq<char>, MyLanguageModel)>,
)
    requires
        r1 == spec_my_languages(idx, profiles, langs, total),
        r2 == spec_my_languages(idx, profiles, langs, total),
    ensures
        r1 == r2,
{
}

} // verus!
