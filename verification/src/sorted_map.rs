//! Maps keyed by strings, held as vectors of entries sorted by key (the
//! iteration order and uniqueness of keys of a `BTreeMap<String, _>`).
use crate::text::{lemma_seq_lt_total, lemma_seq_lt_transitive, seq_lt, str_equal, str_less};
use vstd::prelude::*;

verus! {

/// The keys of a sequence of entries, as character sequences.
pub open spec fn entry_keys<T>(s: Seq<(String, T)>) -> Seq<Seq<char>> {
    s.map_values(|e: (String, T)| e.0@)
}

/// Keys strictly increase: the entries are sorted and no key occurs twice.
pub open spec fn keys_sorted(keys: Seq<Seq<char>>) -> bool {
    forall|i: int, j: int| 0 <= i < j < keys.len() ==> seq_lt(keys[i], keys[j])
}

/// The keys of model-level entries.
pub open spec fn model_keys<S>(s: Seq<(Seq<char>, S)>) -> Seq<Seq<char>> {
    s.map_values(|e: (Seq<char>, S)| e.0)
}

/// `s` with `(k, v)` inserted at its place in key order, or with the value of
/// the entry whose key is `k` replaced by `v` (what `BTreeMap::insert` does).
pub open spec fn insert_entry<T>(s: Seq<(String, T)>, k: String, v: T) -> Seq<(String, T)>
    decreases s.len(),
{
    if s.len() == 0 {
        seq![(k, v)]
    } else if s[0].0@ == k@ {
        seq![(k, v)] + s.drop_first()
    } else if seq_lt(k@, s[0].0@) {
        seq![(k, v)] + s
    } else {
        seq![s[0]] + insert_entry(s.drop_first(), k, v)
    }
}

/// The sorted map built from `pairs` by inserting them in order, later keys
/// replacing earlier ones (what collecting into a `BTreeMap` does).
pub open spec fn collect_entries<T>(pairs: Seq<(String, T)>) -> Seq<(String, T)>
    decreases pairs.len(),
{
    if pairs.len() == 0 {
        Seq::empty()
    } else {
        insert_entry(collect_entries(pairs.drop_last()), pairs.last().0, pairs.last().1)
    }
}

/// Model-level counterpart of `insert_entry`.
pub open spec fn insert_model<S>(s: Seq<(Seq<char>, S)>, k: Seq<char>, v: S) -> Seq<
    (Seq<char>, S),
>
    decreases s.len(),
{
    if s.len() == 0 {
        seq![(k, v)]
    } else if s[0].0 == k {
        seq![(k, v)] + s.drop_first()
    } else if seq_lt(k, s[0].0) {
        seq![(k, v)] + s
    } else {
        seq![s[0]] + insert_model(s.drop_first(), k, v)
    }
}

/// Model-level counterpart of `collect_entries`.
pub open spec fn collect_model<S>(pairs: Seq<(Seq<char>, S)>) -> Seq<(Seq<char>, S)>
    decreases pairs.len(),
{
    if pairs.len() == 0 {
        Seq::empty()
    } else {
        insert_model(collect_model(pairs.drop_last()), pairs.last().0, pairs.last().1)
    }
}

/// Inserting keeps keys sorted, and the key set gains `k`.
pub proof fn lemma_insert_model<S>(s: Seq<(Seq<char>, S)>, k: Seq<char>, v: S)
    requires
        keys_sorted(model_keys(s)),
    ensures
        keys_sorted(model_keys(insert_model(s, k, v))),
        forall|key: Seq<char>|
            #[trigger] model_keys(insert_model(s, k, v)).contains(key) <==> (model_keys(s).contains(
                key,
            ) || key == k),
    decreases s.len(),
{
    let r = insert_model(s, k, v);
    if s.len() == 0 {
        assert(model_keys(r) =~= seq![k]);
        assert forall|key: Seq<char>| #[trigger]
            model_keys(r).contains(key) <==> (model_keys(s).contains(key) || key == k) by {
            if key == k {
                assert(model_keys(r)[0] == key);
            }
        }
    } else if s[0].0 == k {
        assert(model_keys(r) =~= model_keys(s));
        assert(model_keys(s)[0] == k);
    } else if seq_lt(k, s[0].0) {
        assert(model_keys(r) =~= seq![k] + model_keys(s));
        assert forall|key: Seq<char>| #[trigger]
            model_keys(r).contains(key) <==> (model_keys(s).contains(key) || key == k) by {
            if key == k {
                assert(model_keys(r)[0] == key);
            }
            if model_keys(s).contains(key) {
                let m = choose|m: int| 0 <= m < model_keys(s).len() && model_keys(s)[m] == key;
                assert(model_keys(r)[m + 1] == key);
            }
            if model_keys(r).contains(key) && key != k {
                let m = choose|m: int| 0 <= m < model_keys(r).len() && model_keys(r)[m] == key;
                assert(model_keys(s)[m - 1] == key);
            }
        }
        assert forall|i: int, j: int|
            0 <= i < j < model_keys(r).len() implies seq_lt(
            model_keys(r)[i],
            model_keys(r)[j],
        ) by {
            if i == 0 && j > 1 {
                assert(model_keys(s)[0] == s[0].0);
                assert(model_keys(s)[j - 1] == s[j - 1].0);
                lemma_seq_lt_transitive(k, s[0].0, s[j - 1].0);
            }
        }
    } else {
        let t = s.drop_first();
        assert(model_keys(t) =~= model_keys(s).drop_first());
        lemma_insert_model(t, k, v);
        lemma_seq_lt_total(k, s[0].0);
        let rt = insert_model(t, k, v);
        assert(model_keys(r) =~= seq![s[0].0] + model_keys(rt));
        assert forall|i: int, j: int|
            0 <= i < j < model_keys(r).len() implies seq_lt(
            model_keys(r)[i],
            model_keys(r)[j],
        ) by {
            assert(model_keys(r)[i] == if i == 0 {
                s[0].0
            } else {
                model_keys(rt)[i - 1]
            });
            assert(model_keys(r)[j] == model_keys(rt)[j - 1]);
            if i == 0 {
                let key = model_keys(rt)[j - 1];
                assert(model_keys(rt).contains(key));
                if key != k {
                    assert(model_keys(t).contains(key));
                    let m = choose|m: int| 0 <= m < model_keys(t).len() && model_keys(t)[m] == key;
                    assert(model_keys(s)[m + 1] == key);
                    assert(model_keys(s)[0] == s[0].0);
                }
            }
        }
        assert forall|key: Seq<char>| #[trigger]
            model_keys(r).contains(key) <==> (model_keys(s).contains(key) || key == k) by {
            if model_keys(s).contains(key) && key != s[0].0 {
                let m = choose|m: int| 0 <= m < model_keys(s).len() && model_keys(s)[m] == key;
                assert(model_keys(t)[m - 1] == key);
                assert(model_keys(t).contains(key));
                assert(model_keys(rt).contains(key));
                let q = choose|q: int| 0 <= q < model_keys(rt).len() && model_keys(rt)[q] == key;
                assert(model_keys(r)[q + 1] == key);
            }
            if key == k {
                assert(model_keys(rt).contains(key));
                let q = choose|q: int| 0 <= q < model_keys(rt).len() && model_keys(rt)[q] == key;
                assert(model_keys(r)[q + 1] == key);
            }
            if model_keys(r).contains(key) && key != s[0].0 {
                let m = choose|m: int| 0 <= m < model_keys(r).len() && model_keys(r)[m] == key;
                assert(model_keys(rt)[m - 1] == key);
                assert(model_keys(rt).contains(key));
                if key != k {
                    assert(model_keys(t).contains(key));
                    let q = choose|q: int| 0 <= q < model_keys(t).len() && model_keys(t)[q] == key;
                    assert(model_keys(s)[q + 1] == key);
                }
            }
            if key == s[0].0 {
                assert(model_keys(r)[0] == key);
                assert(model_keys(s)[0] == key);
            }
        }
    }
}

/// Inserting keeps keys sorted, and the key set gains `k`.
pub proof fn lemma_insert_entry<T>(s: Seq<(String, T)>, k: String, v: T)
    requires
        keys_sorted(entry_keys(s)),
    ensures
        keys_sorted(entry_keys(insert_entry(s, k, v))),
        forall|key: Seq<char>|
            #[trigger] entry_keys(insert_entry(s, k, v)).contains(key) <==> (entry_keys(s).contains(
                key,
            ) || key == k@),
{
    let f = |t: T| t;
    let ms = s.map_values(|e: (String, T)| (e.0@, f(e.1)));
    lemma_insert_entry_model(s, k, v, f);
    assert(model_keys(ms) =~= entry_keys(s));
    assert(model_keys(insert_entry(s, k, v).map_values(|e: (String, T)| (e.0@, f(e.1))))
        =~= entry_keys(insert_entry(s, k, v)));
    lemma_insert_model(ms, k@, f(v));
}

/// The map built by `collect_model` has sorted keys.
pub proof fn lemma_collect_model<S>(pairs: Seq<(Seq<char>, S)>)
    ensures
        keys_sorted(model_keys(collect_model(pairs))),
    decreases pairs.len(),
{
    if pairs.len() > 0 {
        lemma_collect_model(pairs.drop_last());
        lemma_insert_model(collect_model(pairs.drop_last()), pairs.last().0, pairs.last().1);
    } else {
        assert(model_keys(collect_model(pairs)) =~= Seq::<Seq<char>>::empty());
    }
}

/// The map built by `collect_model` has a key exactly when some pair has it.
pub proof fn lemma_collect_model_keys<S>(pairs: Seq<(Seq<char>, S)>, key: Seq<char>)
    ensures
        model_keys(collect_model(pairs)).contains(key) <==> model_keys(pairs).contains(key),
    decreases pairs.len(),
{
    if pairs.len() > 0 {
        let init = pairs.drop_last();
        lemma_collect_model_keys(init, key);
        lemma_collect_model(init);
        lemma_insert_model(collect_model(init), pairs.last().0, pairs.last().1);
        assert(collect_model(pairs) == insert_model(collect_model(init), pairs.last().0, pairs.last().1));
        assert(model_keys(insert_model(collect_model(init), pairs.last().0, pairs.last().1)).contains(key)
            <==> (model_keys(collect_model(init)).contains(key) || key == pairs.last().0));
        let mk = model_keys(init);
        let kp = model_keys(pairs);
        assert(kp =~= mk.push(pairs.last().0));
        if kp.contains(key) {
            let i = choose|i: int| 0 <= i < kp.len() && kp[i] == key;
            if i < mk.len() {
                assert(mk[i] == key);
            }
        }
        if mk.contains(key) {
            let i = choose|i: int| 0 <= i < mk.len() && mk[i] == key;
            assert(kp[i] == key);
        }
        assert(kp[kp.len() - 1] == pairs.last().0);
    } else {
        assert(model_keys(collect_model(pairs)) =~= Seq::<Seq<char>>::empty());
        assert(model_keys(pairs) =~= Seq::<Seq<char>>::empty());
    }
}

/// The map built by `collect_entries` has sorted keys.
pub proof fn lemma_collect_entries<T>(pairs: Seq<(String, T)>)
    ensures
        keys_sorted(entry_keys(collect_entries(pairs))),
    decreases pairs.len(),
{
    if pairs.len() > 0 {
        lemma_collect_entries(pairs.drop_last());
        lemma_insert_entry(collect_entries(pairs.drop_last()), pairs.last().0, pairs.last().1);
    } else {
        assert(entry_keys(collect_entries(pairs)) =~= Seq::<Seq<char>>::empty());
    }
}

/// Mapping entries to models commutes with insertion.
pub proof fn lemma_insert_entry_model<T, S>(
    s: Seq<(String, T)>,
    k: String,
    v: T,
    f: spec_fn(T) -> S,
)
    ensures
        insert_entry(s, k, v).map_values(|e: (String, T)| (e.0@, f(e.1))) == insert_model(
            s.map_values(|e: (String, T)| (e.0@, f(e.1))),
            k@,
            f(v),
        ),
    decreases s.len(),
{
    let g = |e: (String, T)| (e.0@, f(e.1));
    let ms = s.map_values(g);
    if s.len() == 0 {
        assert(insert_entry(s, k, v).map_values(g) =~= insert_model(ms, k@, f(v)));
    } else if s[0].0@ == k@ {
        assert(ms.drop_first() =~= s.drop_first().map_values(g));
        assert(insert_entry(s, k, v).map_values(g) =~= insert_model(ms, k@, f(v)));
    } else if seq_lt(k@, s[0].0@) {
        assert(insert_entry(s, k, v).map_values(g) =~= insert_model(ms, k@, f(v)));
    } else {
        lemma_insert_entry_model(s.drop_first(), k, v, f);
        assert(ms.drop_first() =~= s.drop_first().map_values(g));
        assert(insert_entry(s, k, v).map_values(g) =~= insert_model(ms, k@, f(v)));
    }
}

/// Mapping entries to models commutes with collecting.
pub proof fn lemma_collect_entries_model<T, S>(pairs: Seq<(String, T)>, f: spec_fn(T) -> S)
    ensures
        collect_entries(pairs).map_values(|e: (String, T)| (e.0@, f(e.1))) == collect_model(
            pairs.map_values(|e: (String, T)| (e.0@, f(e.1))),
        ),
    decreases pairs.len(),
{
    let g = |e: (String, T)| (e.0@, f(e.1));
    if pairs.len() == 0 {
        assert(collect_entries(pairs).map_values(g) =~= collect_model(pairs.map_values(g)));
    } else {
        lemma_collect_entries_model(pairs.drop_last(), f);
        lemma_insert_entry_model(
            collect_entries(pairs.drop_last()),
            pairs.last().0,
            pairs.last().1,
            f,
        );
        assert(pairs.map_values(g).drop_last() =~= pairs.drop_last().map_values(g));
    }
}

/// Splitting `insert_entry` at the first key that is not smaller than `k`.
proof fn lemma_insert_entry_at<T>(s: Seq<(String, T)>, k: String, v: T, i: int)
    requires
        0 <= i <= s.len(),
        keys_sorted(entry_keys(s)),
        forall|j: int| 0 <= j < i ==> seq_lt(#[trigger] s[j].0@, k@),
        i < s.len() ==> !seq_lt(s[i].0@, k@),
    ensures
        i < s.len() && s[i].0@ == k@ ==> insert_entry(s, k, v) == s.take(i) + seq![(k, v)]
            + s.skip(i + 1),
        !(i < s.len() && s[i].0@ == k@) ==> insert_entry(s, k, v) == s.take(i) + seq![(k, v)]
            + s.skip(i),
    decreases i,
{
    if i == 0 {
        if s.len() > 0 {
            lemma_seq_lt_total(k@, s[0].0@);
            assert(s.skip(1) =~= s.drop_first());
        }
        assert(s.take(0) + seq![(k, v)] + s.skip(0) =~= seq![(k, v)] + s);
        assert(s.take(0) + seq![(k, v)] + s.skip(1) =~= seq![(k, v)] + s.skip(1));
    } else {
        let t = s.drop_first();
        assert(entry_keys(t) =~= entry_keys(s).drop_first());
        assert(seq_lt(s[0].0@, k@));
        lemma_seq_lt_total(s[0].0@, k@);
        assert forall|j: int| 0 <= j < i - 1 implies seq_lt(#[trigger] t[j].0@, k@) by {
            assert(t[j] == s[j + 1]);
        }
        lemma_insert_entry_at(t, k, v, i - 1);
        assert(t.take(i - 1) =~= s.take(i).drop_first());
        assert(t.skip(i - 1) =~= s.skip(i));
        if i < s.len() {
            assert(t.skip(i) =~= s.skip(i + 1));
        }
        assert(s.take(i) =~= seq![s[0]] + s.take(i).drop_first());
        assert(insert_entry(s, k, v) == seq![s[0]] + insert_entry(t, k, v));
        if i < s.len() && s[i].0@ == k@ {
            assert(insert_entry(s, k, v) =~= s.take(i) + seq![(k, v)] + s.skip(i + 1));
        } else {
            assert(insert_entry(s, k, v) =~= s.take(i) + seq![(k, v)] + s.skip(i));
        }
    }
}

/// Inserts `(key, value)` into a map held as entries sorted by key, replacing
/// the value of an entry with the same key.
pub fn insert_sorted<T>(entries: &mut Vec<(String, T)>, key: String, value: T)
    requires
        keys_sorted(entry_keys(old(entries)@)),
    ensures
        final(entries)@ == insert_entry(old(entries)@, key, value),
        keys_sorted(entry_keys(final(entries)@)),
{
    let ghost s = entries@;
    let n = entries.len();
    let mut i: usize = 0;
    while i < n && str_less(entries[i].0.as_str(), key.as_str())
        invariant
            n == entries.len(),
            entries@ == s,
            i <= n,
            keys_sorted(entry_keys(s)),
            forall|j: int| 0 <= j < i ==> seq_lt(#[trigger] s[j].0@, key@),
        decreases n - i,
    {
        i += 1;
    }
    proof {
        lemma_insert_entry(s, key, value);
        lemma_insert_entry_at(s, key, value, i as int);
    }
    if i < n && str_equal(entries[i].0.as_str(), key.as_str()) {
        entries.set(i, (key, value));
        assert(entries@ =~= s.take(i as int) + seq![(key, value)] + s.skip(i + 1));
    } else {
        entries.insert(i, (key, value));
        assert(entries@ =~= s.take(i as int) + seq![(key, value)] + s.skip(i as int));
    }
}

/// Index of the entry whose key is `key`.
pub fn find_key<T>(entries: &Vec<(String, T)>, key: &str) -> (r: Option<usize>)
    ensures
        match r {
            Some(i) => i < entries@.len() && entries@[i as int].0@ == key@,
            None => !entry_keys(entries@).contains(key@),
        },
{
    let n = entries.len();
    let mut i: usize = 0;
    while i < n
        invariant
            n == entries.len(),
            i <= n,
            forall|j: int| 0 <= j < i ==> entries@[j].0@ != key@,
        decreases n - i,
    {
        if str_equal(entries[i].0.as_str(), key) {
            return Some(i);
        }
        i += 1;
    }
    proof {
        if entry_keys(entries@).contains(key@) {
            let m = choose|m: int| 0 <= m < entry_keys(entries@).len() && entry_keys(entries@)[m] == key@;
            assert(entries@[m].0@ == key@);
        }
    }
    None
}

} // verus!
