//! Small helpers over results and association maps.

use vstd::prelude::*;

use crate::dict::{
    dict_contains, dict_get, dict_insert, lemma_dict_index_of, lemma_dict_index_of_same_keys,
    Dict, DictKey,
};

verus! {

/// Collapse a nested result one level.
pub fn flatten<T, E>(result: Result<Result<T, E>, E>) -> (r: Result<T, E>)
    ensures
        r == match result {
            Ok(inner) => inner,
            Err(e) => Err::<T, E>(e),
        },
{
    match result {
        Ok(r) => r,
        Err(e) => Err(e),
    }
}

/// The collected values of a result sequence: all of them, or the first
/// error.
pub open spec fn spec_all_ok<T, E>(s: Seq<Result<T, E>>) -> Result<Seq<T>, E>
    decreases s.len(),
{
    if s.len() == 0 {
        Ok(Seq::empty())
    } else {
        match spec_all_ok(s.drop_last()) {
            Err(e) => Err(e),
            Ok(pre) => match s.last() {
                Ok(t) => Ok(pre.push(t)),
                Err(e) => Err(e),
            },
        }
    }
}

/// An early error stays the overall outcome.
proof fn lemma_all_ok_err<T, E>(s: Seq<Result<T, E>>, j: int, e: E)
    requires
        0 <= j <= s.len(),
        spec_all_ok(s.take(j)) == Err::<Seq<T>, E>(e),
    ensures
        spec_all_ok(s) == Err::<Seq<T>, E>(e),
    decreases s.len() - j,
{
    if j < s.len() {
        assert(s.take(j + 1).drop_last() =~= s.take(j));
        lemma_all_ok_err(s, j + 1, e);
    } else {
        assert(s.take(j) =~= s);
    }
}

/// Collect the values of the results, or hand back the first error.
pub fn all_ok<T, E>(results: Vec<Result<T, E>>) -> (r: Result<Vec<T>, E>)
    ensures
        match r {
            Ok(v) => spec_all_ok(results@) == Ok::<Seq<T>, E>(v@),
            Err(e) => spec_all_ok(results@) == Err::<Seq<T>, E>(e),
        },
{
    let mut rest = results;
    let ghost orig = rest@;
    let mut v: Vec<T> = Vec::new();
    let ghost mut done: int = 0;
    proof {
        assert(orig.take(0) =~= Seq::<Result<T, E>>::empty());
        assert(orig.skip(0) =~= orig);
    }
    while rest.len() > 0
        invariant
            0 <= done <= orig.len(),
            orig == results@,
            rest@ == orig.skip(done),
            spec_all_ok(orig.take(done)) == Ok::<Seq<T>, E>(v@),
        decreases rest@.len(),
    {
        proof {
            assert(orig.skip(done)[0] == orig[done]);
            assert(orig.skip(done).drop_first() =~= orig.skip(done + 1));
            assert(orig.take(done + 1).drop_last() =~= orig.take(done));
            assert(orig.take(done + 1).last() == orig[done]);
        }
        let x = rest.remove(0);
        match x {
            Ok(t) => {
                v.push(t);
            },
            Err(e) => {
                proof {
                    lemma_all_ok_err(orig, done + 1, e);
                }
                return Err(e);
            },
        }
        proof {
            done = done + 1;
        }
    }
    proof {
        assert(orig.take(done) =~= orig);
    }
    Ok(v)
}

/// Split the pairs into the sequence of keys and the sequence of values.
pub fn unzip_dict<K, V>(dict: Vec<(K, V)>) -> (r: (Vec<K>, Vec<V>))
    ensures
        r.0@ == dict@.map(|i: int, e: (K, V)| e.0),
        r.1@ == dict@.map(|i: int, e: (K, V)| e.1),
{
    let mut rest = dict;
    let ghost orig = rest@;
    let mut ks: Vec<K> = Vec::new();
    let mut vs: Vec<V> = Vec::new();
    let ghost mut done: int = 0;
    proof {
        assert(orig.skip(0) =~= orig);
        assert(ks@ =~= orig.take(0).map(|i: int, e: (K, V)| e.0));
        assert(vs@ =~= orig.take(0).map(|i: int, e: (K, V)| e.1));
    }
    while rest.len() > 0
        invariant
            0 <= done <= orig.len(),
            rest@ == orig.skip(done),
            ks@ == orig.take(done).map(|i: int, e: (K, V)| e.0),
            vs@ == orig.take(done).map(|i: int, e: (K, V)| e.1),
        decreases rest@.len(),
    {
        proof {
            assert(orig.skip(done)[0] == orig[done]);
            assert(orig.skip(done).drop_first() =~= orig.skip(done + 1));
        }
        let ghost ks_prev = ks@;
        let ghost vs_prev = vs@;
        let e = rest.remove(0);
        ks.push(e.0);
        vs.push(e.1);
        proof {
            done = done + 1;
            assert(orig.take(done).drop_last() =~= orig.take(done - 1));
            assert(ks@ =~= orig.take(done).map(|i: int, e: (K, V)| e.0));
            assert(vs@ =~= orig.take(done).map(|i: int, e: (K, V)| e.1));
        }
    }
    proof {
        assert(orig.take(done) =~= orig);
    }
    (ks, vs)
}

/// The pairs turned around, later pairs overwriting earlier equal values.
pub open spec fn spec_rev_dict<K: View, V: View>(s: Seq<(K, V)>) -> Seq<(<V as View>::V, K)>
    decreases s.len(),
{
    if s.len() == 0 {
        Seq::empty()
    } else {
        dict_insert(spec_rev_dict(s.drop_last()), s.last().1@, s.last().0)
    }
}

/// Turn the map around: value becomes key and key becomes value; of two
/// pairs with one value, the later wins.
pub fn rev_dict<K: DictKey, V: DictKey>(h: Dict<K, V>) -> (r: Dict<V, K>)
    ensures
        r.model() == spec_rev_dict(h.raw_model()),
{
    let ghost orig = h.raw_model();
    let mut rest = h.into_vec();
    let mut r: Dict<V, K> = Dict::new();
    let ghost mut done: int = 0;
    proof {
        assert(orig.take(0) =~= Seq::<(K, V)>::empty());
        assert(orig.skip(0) =~= orig);
    }
    while rest.len() > 0
        invariant
            0 <= done <= orig.len(),
            rest@ == orig.skip(done),
            r.model() == spec_rev_dict(orig.take(done)),
        decreases rest@.len(),
    {
        proof {
            assert(orig.skip(done)[0] == orig[done]);
            assert(orig.skip(done).drop_first() =~= orig.skip(done + 1));
            assert(orig.take(done + 1).drop_last() =~= orig.take(done));
            assert(orig.take(done + 1).last() == orig[done]);
        }
        let e = rest.remove(0);
        r.insert(e.1, e.0);
        proof {
            done = done + 1;
        }
    }
    proof {
        assert(orig.take(done) =~= orig);
    }
    r
}

/// The pairs of a nested grouping map, as specification data: outer key
/// view, then inner key view, then the members in arrival order.
pub open spec fn tdict_model<J, K: DictKey, V: DictKey>(d: Dict<K, Dict<V, Vec<J>>>) -> Seq<
    (<K as View>::V, Seq<(<V as View>::V, Seq<J>)>),
> {
    d.model().map(
        |i: int, e: (<K as View>::V, Dict<V, Vec<J>>)|
            (e.0, e.1.model().map(|l: int, f: (<V as View>::V, Vec<J>)| (f.0, f.1@))),
    )
}

/// File one member under (k, v), creating the levels on first use.
pub open spec fn spec_add_group<J, KV, VV>(
    acc: Seq<(KV, Seq<(VV, Seq<J>)>)>,
    k: KV,
    v: VV,
    j: J,
) -> Seq<(KV, Seq<(VV, Seq<J>)>)> {
    let inner = if dict_contains(acc, k) {
        dict_get(acc, k)
    } else {
        Seq::<(VV, Seq<J>)>::empty()
    };
    let js = if dict_contains(inner, v) {
        dict_get(inner, v).push(j)
    } else {
        seq![j]
    };
    dict_insert(acc, k, dict_insert(inner, v, js))
}

/// File one owner's whole inner map, pair by pair in order.
pub open spec fn spec_transform_entry<J, KV, V: View>(
    acc: Seq<(KV, Seq<(<V as View>::V, Seq<J>)>)>,
    j: J,
    kvs: Seq<(KV, V)>,
) -> Seq<(KV, Seq<(<V as View>::V, Seq<J>)>)>
    decreases kvs.len(),
{
    if kvs.len() == 0 {
        acc
    } else {
        spec_add_group(
            spec_transform_entry(acc, j, kvs.drop_last()),
            kvs.last().0,
            kvs.last().1@,
            j,
        )
    }
}

/// The grouping the whole map of maps folds to, owner by owner in order.
pub open spec fn spec_transform<J, K: DictKey, V: DictKey>(s: Seq<(J, Dict<K, V>)>) -> Seq<
    (<K as View>::V, Seq<(<V as View>::V, Seq<J>)>),
>
    decreases s.len(),
{
    if s.len() == 0 {
        Seq::empty()
    } else {
        spec_transform_entry(
            spec_transform(s.drop_last()),
            s.last().0,
            s.last().1.model(),
        )
    }
}

/// Pivot a map of maps: for every inner (key, value) pair, file the outer
/// owner under that key and value, keeping arrival order everywhere.
pub fn transform_ddict<J: DictKey, K: DictKey, V: DictKey>(h: &Dict<J, Dict<K, V>>) -> (r: Dict<
    K,
    Dict<V, Vec<J>>,
>)
    ensures
        tdict_model(r) == spec_transform(h.raw_model()),
{
    let ghost raw = h.raw_model();
    let mut t: Dict<K, Dict<V, Vec<J>>> = Dict::new();
    proof {
        assert(raw.take(0) =~= Seq::<(J, Dict<K, V>)>::empty());
        assert(tdict_model(t) =~= spec_transform(raw.take(0)));
    }
    let mut i: usize = 0;
    while i < h.len()
        invariant
            i <= raw.len(),
            raw == h.raw_model(),
            tdict_model(t) == spec_transform(raw.take(i as int)),
        decreases raw.len() - i,
    {
        let j_key = h.key_at(i);
        let inner = h.value_at(i);
        let ghost im = inner.model();
        proof {
            assert(raw.take(i as int + 1).drop_last() =~= raw.take(i as int));
            assert(raw.take(i as int + 1).last() == raw[i as int]);
            assert(im.take(0) =~= Seq::<(<K as View>::V, V)>::empty());
        }
        let ghost base = spec_transform(raw.take(i as int));
        let mut l: usize = 0;
        while l < inner.len()
            invariant
                l <= im.len(),
                im == inner.model(),
                *j_key == raw[i as int].0,
                tdict_model(t) == spec_transform_entry(base, raw[i as int].0, im.take(l as int)),
            decreases im.len() - l,
        {
            let k = inner.key_at(l);
            let v = inner.value_at(l);
            let ghost prev = tdict_model(t);
            proof {
                assert(im.take(l as int + 1).drop_last() =~= im.take(l as int));
                assert(im.take(l as int + 1).last() == im[l as int]);
                assert(im[l as int] == (k@, *v));
                assert forall|x: int|
                    0 <= x < prev.len() implies prev[x].0 == t.model()[x].0 by {}
                lemma_dict_index_of_same_keys(t.model(), prev, k@);
            }
            let jj = j_key.key_clone();
            match t.index_of_key(k) {
                Some(ti) => {
                    let ghost g0 = prev[ti as int].1;
                    proof {
                        lemma_dict_index_of(prev, k@);
                        assert(dict_get(prev, k@) == g0);
                    }
                    let mut g = t.replace_value_at(ti, Dict::new());
                    proof {
                        assert(g.model().map(|x: int, f: (<V as View>::V, Vec<J>)| (f.0, f.1@))
                            == g0);
                        assert forall|x: int|
                            0 <= x < g0.len() implies g0[x].0 == g.model()[x].0 by {}
                        lemma_dict_index_of_same_keys(g.model(), g0, v@);
                    }
                    match g.index_of_key(v) {
                        Some(gi) => {
                            let ghost js0 = g0[gi as int].1;
                            proof {
                                lemma_dict_index_of(g0, v@);
                                assert(dict_get(g0, v@) == js0);
                            }
                            let mut js = g.replace_value_at(gi, Vec::new());
                            proof {
                                assert(js@ == js0);
                            }
                            js.push(jj);
                            let _swapped = g.replace_value_at(gi, js);
                            proof {
                                assert(g.model().map(
                                    |x: int, f: (<V as View>::V, Vec<J>)| (f.0, f.1@),
                                ) =~= dict_insert(g0, v@, js0.push(raw[i as int].0)));
                            }
                        },
                        None => {
                            let mut js: Vec<J> = Vec::new();
                            js.push(jj);
                            proof {
                                assert(js@ =~= seq![raw[i as int].0]);
                            }
                            g.insert(v.key_clone(), js);
                            proof {
                                assert(g.model().map(
                                    |x: int, f: (<V as View>::V, Vec<J>)| (f.0, f.1@),
                                ) =~= dict_insert(g0, v@, seq![raw[i as int].0]));
                            }
                        },
                    }
                    let ghost g1 = g.model().map(|x: int, f: (<V as View>::V, Vec<J>)| (f.0, f.1@));
                    let _swapped2 = t.replace_value_at(ti, g);
                    proof {
                        assert(prev[ti as int].0 == k@);
                        assert(tdict_model(t) =~= dict_insert(prev, k@, g1));
                        assert(tdict_model(t) == spec_add_group(prev, k@, v@, raw[i as int].0));
                    }
                },
                None => {
                    let mut js: Vec<J> = Vec::new();
                    js.push(jj);
                    let mut g: Dict<V, Vec<J>> = Dict::new();
                    g.insert(v.key_clone(), js);
                    let ghost g1 = g.model().map(|x: int, f: (<V as View>::V, Vec<J>)| (f.0, f.1@));
                    proof {
                        assert(g1 =~= seq![(v@, seq![raw[i as int].0])]);
                    }
                    t.insert(k.key_clone(), g);
                    proof {
                        assert(!dict_contains(prev, k@));
                        assert(tdict_model(t) =~= prev.push((k@, g1)));
                        assert(tdict_model(t) == spec_add_group(prev, k@, v@, raw[i as int].0));
                    }
                },
            }
            l += 1;
        }
        proof {
            assert(im.take(im.len() as int) =~= im);
        }
        i += 1;
    }
    proof {
        assert(raw.take(raw.len() as int) =~= raw);
    }
    t
}

/// The map with each key swapped for what the mapper holds under it; a
/// key the mapper does not know drops its pair.
pub open spec fn spec_map_keys<KV, V, U: View>(
    s: Seq<(KV, V)>,
    m: Seq<(KV, U)>,
) -> Seq<(<U as View>::V, V)>
    decreases s.len(),
{
    if s.len() == 0 {
        Seq::empty()
    } else {
        let prev = spec_map_keys(s.drop_last(), m);
        if dict_contains(m, s.last().0) {
            dict_insert(prev, dict_get(m, s.last().0)@, s.last().1)
        } else {
            prev
        }
    }
}

/// Rekey the map through the mapper, dropping pairs whose key it lacks.
pub fn map_keys_dict<K: DictKey, V, U: DictKey>(h: Dict<K, V>, mapper: &Dict<K, U>) -> (r: Dict<
    U,
    V,
>)
    ensures
        r.model() == spec_map_keys(h.model(), mapper.model()),
{
    let ghost orig = h.raw_model();
    let ghost origm = h.model();
    let mut rest = h.into_vec();
    let mut r: Dict<U, V> = Dict::new();
    let ghost mut done: int = 0;
    proof {
        assert(origm.take(0) =~= Seq::<(<K as View>::V, V)>::empty());
        assert(orig.skip(0) =~= orig);
    }
    while rest.len() > 0
        invariant
            0 <= done <= orig.len(),
            origm == orig.map(|i: int, e: (K, V)| (e.0@, e.1)),
            rest@ == orig.skip(done),
            r.model() == spec_map_keys(origm.take(done), mapper.model()),
        decreases rest@.len(),
    {
        proof {
            assert(orig.skip(done)[0] == orig[done]);
            assert(orig.skip(done).drop_first() =~= orig.skip(done + 1));
            assert(origm.take(done + 1).drop_last() =~= origm.take(done));
            assert(origm.take(done + 1).last() == origm[done]);
            assert(origm[done] == (orig[done].0@, orig[done].1));
        }
        let e = rest.remove(0);
        match mapper.get(&e.0) {
            Some(u) => {
                let uk = u.key_clone();
                r.insert(uk, e.1);
            },
            None => {},
        }
        proof {
            done = done + 1;
        }
    }
    proof {
        assert(origm.take(done) =~= origm);
    }
    r
}

/// The map with each value swapped for what the lookup map holds under it;
/// a value the lookup map does not know drops its pair.
pub open spec fn spec_map_map<KV, V: View, U>(
    s: Seq<(KV, V)>,
    g: Seq<(<V as View>::V, U)>,
) -> Seq<(KV, U)>
    decreases s.len(),
{
    if s.len() == 0 {
        Seq::empty()
    } else {
        let prev = spec_map_map(s.drop_last(), g);
        if dict_contains(g, s.last().1@) {
            dict_insert(prev, s.last().0, dict_get(g, s.last().1@))
        } else {
            prev
        }
    }
}

/// Map the values through the lookup map, dropping pairs whose value it
/// lacks.
pub fn map_map_dict<K: DictKey, V: DictKey, U: DictKey>(h: Dict<K, V>, g: &Dict<V, U>) -> (r: Dict<
    K,
    U,
>)
    ensures
        r.model() == spec_map_map(h.model(), g.model()),
{
    let ghost orig = h.raw_model();
    let ghost origm = h.model();
    let mut rest = h.into_vec();
    let mut r: Dict<K, U> = Dict::new();
    let ghost mut done: int = 0;
    proof {
        assert(origm.take(0) =~= Seq::<(<K as View>::V, V)>::empty());
        assert(orig.skip(0) =~= orig);
    }
    while rest.len() > 0
        invariant
            0 <= done <= orig.len(),
            origm == orig.map(|i: int, e: (K, V)| (e.0@, e.1)),
            rest@ == orig.skip(done),
            r.model() == spec_map_map(origm.take(done), g.model()),
        decreases rest@.len(),
    {
        proof {
            assert(orig.skip(done)[0] == orig[done]);
            assert(orig.skip(done).drop_first() =~= orig.skip(done + 1));
            assert(origm.take(done + 1).drop_last() =~= origm.take(done));
            assert(origm.take(done + 1).last() == origm[done]);
            assert(origm[done] == (orig[done].0@, orig[done].1));
        }
        let e = rest.remove(0);
        match g.get(&e.1) {
            Some(u) => {
                let uk = u.key_clone();
                r.insert(e.0, uk);
            },
            None => {},
        }
        proof {
            done = done + 1;
        }
    }
    proof {
        assert(origm.take(done) =~= origm);
    }
    r
}

/// Insert a pair among pairs ordered by their numeric key, from the right,
/// after every pair with a key at most its own.
pub open spec fn num_insert<V>(s: Seq<(u128, V)>, x: (u128, V)) -> Seq<(u128, V)>
    decreases s.len(),
{
    if s.len() == 0 {
        seq![x]
    } else if s.last().0 <= x.0 {
        s.push(x)
    } else {
        num_insert(s.drop_last(), x).push(s.last())
    }
}

/// Insertion sort by numeric key, left to right: the stable sort.
pub open spec fn spec_sort_by_num<V>(s: Seq<(u128, V)>) -> Seq<(u128, V)>
    decreases s.len(),
{
    if s.len() == 0 {
        Seq::empty()
    } else {
        num_insert(spec_sort_by_num(s.drop_last()), s.last())
    }
}

/// Where the scan for the insertion point stops, that is what `num_insert`
/// produces.
proof fn lemma_num_insert_at<V>(s: Seq<(u128, V)>, x: (u128, V), p: int)
    requires
        0 <= p <= s.len(),
        forall|j: int| p <= j < s.len() ==> (#[trigger] s[j]).0 > x.0,
        p > 0 ==> s[p - 1].0 <= x.0,
    ensures
        num_insert(s, x) == s.take(p) + seq![x] + s.skip(p),
    decreases s.len(),
{
    if s.len() == 0 {
        assert(num_insert(s, x) =~= s.take(p) + seq![x] + s.skip(p));
    } else if s.last().0 <= x.0 {
        assert(p == s.len());
        assert(s.take(p) =~= s);
        assert(num_insert(s, x) =~= s.take(p) + seq![x] + s.skip(p));
    } else {
        assert(p < s.len());
        assert forall|j: int| p <= j < s.drop_last().len() implies (#[trigger] s.drop_last()[j]).0
            > x.0 by {
            assert(s.drop_last()[j] == s[j]);
        }
        if p > 0 {
            assert(s.drop_last()[p - 1] == s[p - 1]);
        }
        lemma_num_insert_at(s.drop_last(), x, p);
        assert(num_insert(s, x) =~= s.take(p) + seq![x] + s.skip(p));
    }
}

/// Insert a pair into a vector already sorted by numeric key.
fn insert_by_num<V>(out: &mut Vec<(u128, V)>, x: (u128, V))
    ensures
        final(out)@ == num_insert(old(out)@, x),
{
    let ghost m = out@;
    let ghost xkey = x.0;
    let mut p: usize = out.len();
    while p > 0 && out[p - 1].0 > x.0
        invariant
            p <= m.len(),
            m == out@,
            xkey == x.0,
            forall|j: int| p <= j < m.len() ==> (#[trigger] m[j]).0 > xkey,
        decreases p,
    {
        p -= 1;
    }
    proof {
        lemma_num_insert_at(m, x, p as int);
    }
    out.insert(p, x);
    proof {
        assert(out@ =~= m.take(p as int) + seq![x] + m.skip(p as int));
    }
}

/// Sort pairs by their numeric key, stably.
pub fn sort_by_num<V>(v: Vec<(u128, V)>) -> (r: Vec<(u128, V)>)
    ensures
        r@ == spec_sort_by_num(v@),
{
    let mut rest = v;
    let ghost orig = rest@;
    let mut out: Vec<(u128, V)> = Vec::new();
    let ghost mut done: int = 0;
    proof {
        assert(orig.take(0) =~= Seq::<(u128, V)>::empty());
        assert(orig.skip(0) =~= orig);
        assert(out@ =~= spec_sort_by_num(orig.take(0)));
    }
    while rest.len() > 0
        invariant
            0 <= done <= orig.len(),
            rest@ == orig.skip(done),
            out@ == spec_sort_by_num(orig.take(done)),
        decreases rest@.len(),
    {
        proof {
            assert(orig.skip(done)[0] == orig[done]);
            assert(orig.skip(done).drop_first() =~= orig.skip(done + 1));
            assert(orig.take(done + 1).drop_last() =~= orig.take(done));
            assert(orig.take(done + 1).last() == orig[done]);
        }
        let x = rest.remove(0);
        insert_by_num(&mut out, x);
        proof {
            done = done + 1;
        }
    }
    proof {
        assert(orig.take(done) =~= orig);
    }
    out
}

} // verus!
