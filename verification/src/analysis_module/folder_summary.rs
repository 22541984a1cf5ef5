//! What an analysis says of every folder in it: the folder reached by the
//! names of its entries carries the summary of the metric values of the
//! files below it, and its entries are sorted by name.
use crate::analysis_module::analysis::{
    HNode, TNode, aggregate_with_first, law_summary_keeps_every_metric, analysis_model, chain_model, combine_metrics_model,
    combine_model, empty_folder, file_metrics, file_model, fold_model, has_key, merge_model,
    metric_scores, metrics_summary, missing_from, renamed_from_root, renamed_under_root,
    root_file_name, top_entries_model, top_model,
};
use crate::paths::{
    components_after, is_name, join_components, lemma_components_after_first,
    lemma_join_components, path_components, path_file_name,
};
use crate::metrics::metric::IMetricValue;
use crate::sorted_map::{
    collect_model, keys_sorted, lemma_collect_model, lemma_collect_model_keys, model_keys,
};
use crate::text::{lemma_seq_lt_irreflexive, lemma_seq_lt_total, lemma_seq_lt_transitive, seq_lt};
use vstd::prelude::*;

verus! {

/// The entry of `c` named `k` (the last one, should there be several).
pub open spec fn lookup<M>(c: Seq<(Seq<char>, HNode<M>)>, k: Seq<char>) -> Option<HNode<M>>
    decreases c.len(),
{
    if c.len() == 0 {
        None
    } else if c.last().0 == k {
        Some(c.last().1)
    } else {
        lookup(c.drop_last(), k)
    }
}

/// The item reached from `h` by following the entry names `p`.
pub open spec fn node_at<M>(h: HNode<M>, p: Seq<Seq<char>>) -> Option<HNode<M>>
    decreases p.len(),
{
    if p.len() == 0 {
        Some(h)
    } else {
        match h.content {
            None => None,
            Some(c) => match lookup(c, p[0]) {
                None => None,
                Some(x) => node_at(x, p.drop_first()),
            },
        }
    }
}

/// A well-formed analysis: in every folder the entries are sorted by name,
/// no name occurs twice, and each entry is named as the item it holds.
pub open spec fn wf_node<M>(h: HNode<M>) -> bool
    decreases h,
{
    match h.content {
        None => true,
        Some(c) => keys_sorted(model_keys(c)) && wf_entries(c),
    }
}

pub open spec fn wf_entries<M>(c: Seq<(Seq<char>, HNode<M>)>) -> bool
    decreases c,
{
    if c.len() == 0 {
        true
    } else {
        wf_entries(c.drop_last()) && c.last().1.name == c.last().0 && wf_node(c.last().1)
    }
}

proof fn lemma_sorted_drop_last<M>(c: Seq<(Seq<char>, HNode<M>)>)
    requires
        c.len() > 0,
        keys_sorted(model_keys(c)),
    ensures
        keys_sorted(model_keys(c.drop_last())),
        forall|i: int| 0 <= i < c.len() - 1 ==> seq_lt(#[trigger] c[i].0, c.last().0),
{
    assert(model_keys(c.drop_last()) =~= model_keys(c).drop_last());
    assert forall|i: int| 0 <= i < c.len() - 1 implies seq_lt(#[trigger] c[i].0, c.last().0) by {
        assert(model_keys(c)[i] == c[i].0);
        assert(model_keys(c)[c.len() - 1] == c.last().0);
    }
}

/// No entry is named `k` when every name is below `k`.
proof fn lemma_lookup_below<M>(c: Seq<(Seq<char>, HNode<M>)>, k: Seq<char>)
    requires
        forall|i: int| 0 <= i < c.len() ==> seq_lt(#[trigger] c[i].0, k),
    ensures
        lookup(c, k) is None,
    decreases c.len(),
{
    if c.len() > 0 {
        lemma_seq_lt_irreflexive(k);
        assert(c[c.len() - 1] == c.last());
        assert forall|i: int| 0 <= i < c.drop_last().len() implies seq_lt(
            #[trigger] c.drop_last()[i].0,
            k,
        ) by {
            assert(c.drop_last()[i] == c[i]);
        }
        lemma_lookup_below(c.drop_last(), k);
    }
}

/// The entry found by name in a well-formed list is well formed and bears
/// that name.
proof fn lemma_lookup_wf<M>(c: Seq<(Seq<char>, HNode<M>)>, k: Seq<char>)
    requires
        wf_entries(c),
    ensures
        lookup(c, k) matches Some(x) ==> x.name == k && wf_node(x),
    decreases c.len(),
{
    if c.len() > 0 && c.last().0 != k {
        lemma_lookup_wf(c.drop_last(), k);
    }
}

/// `lookup` on a list with one more entry at its end.
proof fn lemma_lookup_push<M>(c: Seq<(Seq<char>, HNode<M>)>, e: (Seq<char>, HNode<M>), k: Seq<char>)
    ensures
        lookup(c.push(e), k) == if e.0 == k {
            Some(e.1)
        } else {
            lookup(c, k)
        },
{
    assert(c.push(e).drop_last() =~= c);
}

/// The names of a merge are those of its two lists, sorted.
/// Merging two sorted lists of entries gives a sorted list holding the keys
/// of both.
pub proof fn lemma_merge_keys<V: IMetricValue>(
    a: Seq<(Seq<char>, HNode<V::Model>)>,
    b: Seq<(Seq<char>, HNode<V::Model>)>,
)
    requires
        keys_sorted(model_keys(a)),
        keys_sorted(model_keys(b)),
    ensures
        keys_sorted(model_keys(merge_model::<V>(a, b))),
        forall|k: Seq<char>|
            #[trigger] model_keys(merge_model::<V>(a, b)).contains(k) <==> (model_keys(a).contains(k)
                || model_keys(b).contains(k)),
    decreases a.len() + b.len(),
{
    let m = merge_model::<V>(a, b);
    if a.len() == 0 {
    } else if b.len() == 0 {
    } else {
        lemma_sorted_drop_last(a);
        lemma_sorted_drop_last(b);
        let ka = a.last().0;
        let kb = b.last().0;
        let (rest, top): (Seq<(Seq<char>, HNode<V::Model>)>, Seq<char>) = if ka == kb {
            lemma_merge_keys::<V>(a.drop_last(), b.drop_last());
            (merge_model::<V>(a.drop_last(), b.drop_last()), ka)
        } else if seq_lt(kb, ka) {
            lemma_merge_keys::<V>(a.drop_last(), b);
            (merge_model::<V>(a.drop_last(), b), ka)
        } else {
            lemma_seq_lt_total(ka, kb);
            lemma_merge_keys::<V>(a, b.drop_last());
            (merge_model::<V>(a, b.drop_last()), kb)
        };
        assert(m.drop_last() =~= rest);
        assert(m.last().0 == top);
        assert(model_keys(m) =~= model_keys(rest).push(top));
        assert(model_keys(a) =~= model_keys(a.drop_last()).push(ka));
        assert(model_keys(b) =~= model_keys(b.drop_last()).push(kb));
        // every name of `rest` is below `top`
        assert forall|i: int| 0 <= i < model_keys(rest).len() implies seq_lt(
            #[trigger] model_keys(rest)[i],
            top,
        ) by {
            let k = model_keys(rest)[i];
            assert(model_keys(rest).contains(k));
            if model_keys(a.drop_last()).contains(k) {
                let j = choose|j: int| 0 <= j < model_keys(a.drop_last()).len() && model_keys(a.drop_last())[j] == k;
                assert(a[j].0 == k);
                if ka != top {
                    lemma_seq_lt_total(ka, kb);
                    lemma_seq_lt_transitive(k, ka, kb);
                }
            } else if model_keys(b.drop_last()).contains(k) {
                let j = choose|j: int| 0 <= j < model_keys(b.drop_last()).len() && model_keys(b.drop_last())[j] == k;
                assert(b[j].0 == k);
                if kb != top {
                    lemma_seq_lt_transitive(k, kb, ka);
                }
            } else if model_keys(a).contains(k) {
                let j = choose|j: int| 0 <= j < model_keys(a).len() && model_keys(a)[j] == k;
                if j < a.len() - 1 {
                    assert(model_keys(a.drop_last())[j] == k);
                }
                assert(k == ka);
                lemma_seq_lt_total(ka, kb);
            } else {
                assert(model_keys(b).contains(k));
                let j = choose|j: int| 0 <= j < model_keys(b).len() && model_keys(b)[j] == k;
                if j < b.len() - 1 {
                    assert(model_keys(b.drop_last())[j] == k);
                }
                assert(k == kb);
            }
        }
        assert forall|i: int, j: int| 0 <= i < j < model_keys(m).len() implies seq_lt(
            model_keys(m)[i],
            model_keys(m)[j],
        ) by {
            if j == model_keys(m).len() - 1 {
                assert(model_keys(m)[i] == model_keys(rest)[i]);
            } else {
                assert(model_keys(m)[i] == model_keys(rest)[i]);
                assert(model_keys(m)[j] == model_keys(rest)[j]);
            }
        }
        assert forall|k: Seq<char>|
            #[trigger] model_keys(m).contains(k) <==> (model_keys(a).contains(k)
                || model_keys(b).contains(k)) by {
            if model_keys(m).contains(k) {
                let j = choose|j: int| 0 <= j < model_keys(m).len() && model_keys(m)[j] == k;
                if j < model_keys(rest).len() {
                    assert(model_keys(rest)[j] == k);
                    assert(model_keys(rest).contains(k));
                    if model_keys(a.drop_last()).contains(k) {
                        let t = choose|t: int| 0 <= t < model_keys(a.drop_last()).len() && model_keys(a.drop_last())[t] == k;
                        assert(model_keys(a)[t] == k);
                    }
                    if model_keys(b.drop_last()).contains(k) {
                        let t = choose|t: int| 0 <= t < model_keys(b.drop_last()).len() && model_keys(b.drop_last())[t] == k;
                        assert(model_keys(b)[t] == k);
                    }
                } else {
                    assert(k == top);
                    assert(model_keys(a)[a.len() - 1] == ka);
                    assert(model_keys(b)[b.len() - 1] == kb);
                }
            }
            if model_keys(a).contains(k) || model_keys(b).contains(k) {
                if k == top {
                    assert(model_keys(m)[model_keys(m).len() - 1] == k);
                } else {
                    if model_keys(a).contains(k) {
                        let t = choose|t: int| 0 <= t < model_keys(a).len() && model_keys(a)[t] == k;
                        if t < a.len() - 1 {
                            assert(model_keys(a.drop_last())[t] == k);
                        }
                    }
                    if model_keys(b).contains(k) {
                        let t = choose|t: int| 0 <= t < model_keys(b).len() && model_keys(b)[t] == k;
                        if t < b.len() - 1 {
                            assert(model_keys(b.drop_last())[t] == k);
                        }
                    }
                    assert(model_keys(rest).contains(k));
                    let t = choose|t: int| 0 <= t < model_keys(rest).len() && model_keys(rest)[t] == k;
                    assert(model_keys(m)[t] == k);
                }
            }
        }
    }
}

/// The item two folders combine into for an entry name: the two items
/// combined when both folders have one, the one that exists otherwise.
pub open spec fn merged_entry<V: IMetricValue>(
    x: Option<HNode<V::Model>>,
    y: Option<HNode<V::Model>>,
) -> Option<HNode<V::Model>> {
    match (x, y) {
        (Some(x), Some(y)) => Some(combine_model::<V>(x, y)),
        (Some(x), None) => Some(x),
        (None, Some(y)) => Some(y),
        (None, None) => None,
    }
}

/// Every name of a sorted list is below a name above its last one.
proof fn lemma_all_below<M>(c: Seq<(Seq<char>, HNode<M>)>, k: Seq<char>)
    requires
        c.len() > 0,
        keys_sorted(model_keys(c)),
        seq_lt(c.last().0, k),
    ensures
        forall|i: int| 0 <= i < c.len() ==> seq_lt(#[trigger] c[i].0, k),
{
    lemma_sorted_drop_last(c);
    assert forall|i: int| 0 <= i < c.len() implies seq_lt(#[trigger] c[i].0, k) by {
        if i < c.len() - 1 {
            lemma_seq_lt_transitive(c[i].0, c.last().0, k);
        }
    }
}

/// Finding an entry by name in a merge.
proof fn lemma_merge_lookup<V: IMetricValue>(
    a: Seq<(Seq<char>, HNode<V::Model>)>,
    b: Seq<(Seq<char>, HNode<V::Model>)>,
    k: Seq<char>,
)
    requires
        keys_sorted(model_keys(a)),
        keys_sorted(model_keys(b)),
    ensures
        lookup(merge_model::<V>(a, b), k) == merged_entry::<V>(lookup(a, k), lookup(b, k)),
    decreases a.len() + b.len(),
{
    if a.len() > 0 && b.len() > 0 {
        lemma_sorted_drop_last(a);
        lemma_sorted_drop_last(b);
        let ka = a.last().0;
        let kb = b.last().0;
        if ka == kb {
            lemma_merge_lookup::<V>(a.drop_last(), b.drop_last(), k);
            lemma_lookup_push(
                merge_model::<V>(a.drop_last(), b.drop_last()),
                (ka, combine_model::<V>(a.last().1, b.last().1)),
                k,
            );
        } else if seq_lt(kb, ka) {
            lemma_merge_lookup::<V>(a.drop_last(), b, k);
            lemma_lookup_push(merge_model::<V>(a.drop_last(), b), a.last(), k);
            if k == ka {
                lemma_all_below(b, k);
                lemma_lookup_below(b, k);
            }
        } else {
            lemma_seq_lt_total(ka, kb);
            lemma_merge_lookup::<V>(a, b.drop_last(), k);
            lemma_lookup_push(merge_model::<V>(a, b.drop_last()), b.last(), k);
            if k == kb {
                lemma_all_below(a, k);
                lemma_lookup_below(a, k);
            }
        }
    }
}

/// Combining keeps an analysis well formed.
proof fn lemma_combine_wf<V: IMetricValue>(a: HNode<V::Model>, b: HNode<V::Model>)
    requires
        wf_node(a),
        wf_node(b),
    ensures
        wf_node(combine_model::<V>(a, b)),
    decreases a, b,
{
    match (a.content, b.content) {
        (None, _) => {
            assert(model_keys(Seq::<(Seq<char>, HNode<V::Model>)>::empty()) =~= Seq::<Seq<char>>::empty());
        },
        (Some(ca), None) => {},
        (Some(ca), Some(cb)) => {
            assert(decreases_to!(a => a.content));
            lemma_merge_keys::<V>(ca, cb);
            lemma_merge_wf::<V>(ca, cb);
        },
    }
}

/// Merging keeps entries well formed.
proof fn lemma_merge_wf<V: IMetricValue>(
    a: Seq<(Seq<char>, HNode<V::Model>)>,
    b: Seq<(Seq<char>, HNode<V::Model>)>,
)
    requires
        keys_sorted(model_keys(a)),
        keys_sorted(model_keys(b)),
        wf_entries(a),
        wf_entries(b),
    ensures
        wf_entries(merge_model::<V>(a, b)),
    decreases a, b,
{
    if a.len() > 0 && b.len() > 0 {
        lemma_sorted_drop_last(a);
        lemma_sorted_drop_last(b);
        let ka = a.last().0;
        let kb = b.last().0;
        let m = merge_model::<V>(a, b);
        if ka == kb {
            lemma_merge_wf::<V>(a.drop_last(), b.drop_last());
            lemma_combine_wf::<V>(a.last().1, b.last().1);
            assert(m.drop_last() =~= merge_model::<V>(a.drop_last(), b.drop_last()));
        } else if seq_lt(kb, ka) {
            lemma_merge_wf::<V>(a.drop_last(), b);
            assert(m.drop_last() =~= merge_model::<V>(a.drop_last(), b));
        } else {
            lemma_merge_wf::<V>(a, b.drop_last());
            assert(m.drop_last() =~= merge_model::<V>(a, b.drop_last()));
        }
    }
}

/// No item strictly above `p` on the way to it from `h` is a file.
pub open spec fn no_file_above<M>(h: HNode<M>, p: Seq<Seq<char>>) -> bool {
    forall|j: int|
        0 <= j < p.len() ==> match #[trigger] node_at(h, p.take(j)) {
            Some(x) => x.content is Some,
            None => true,
        }
}

/// Following a path one entry down.
proof fn lemma_node_at_step<M>(h: HNode<M>, p: Seq<Seq<char>>, j: int)
    requires
        p.len() > 0,
        1 <= j <= p.len(),
        h.content is Some,
    ensures
        node_at(h, p.take(j)) == match lookup(h.content->0, p[0]) {
            None => None,
            Some(x) => node_at(x, p.drop_first().take(j - 1)),
        },
{
    let t = p.take(j);
    assert(t[0] == p[0]);
    assert(t.drop_first() =~= p.drop_first().take(j - 1));
}

/// `no_file_above` one entry down.
proof fn lemma_no_file_above_step<M>(h: HNode<M>, p: Seq<Seq<char>>)
    requires
        p.len() > 0,
        h.content is Some,
    ensures
        lookup(h.content->0, p[0]) matches Some(x) ==> (no_file_above(h, p) <==> no_file_above(
            x,
            p.drop_first(),
        )),
        lookup(h.content->0, p[0]) is None ==> no_file_above(h, p),
{
    let q = p.drop_first();
    assert(p.take(0) =~= Seq::<Seq<char>>::empty());
    match lookup(h.content->0, p[0]) {
        Some(x) => {
            if no_file_above(h, p) {
                assert forall|j: int| 0 <= j < q.len() implies match #[trigger] node_at(
                    x,
                    q.take(j),
                ) {
                    Some(y) => y.content is Some,
                    None => true,
                } by {
                    lemma_node_at_step(h, p, j + 1);
                    assert(node_at(h, p.take(j + 1)) == node_at(x, q.take(j)));
                }
            }
            if no_file_above(x, q) {
                assert forall|j: int| 0 <= j < p.len() implies match #[trigger] node_at(
                    h,
                    p.take(j),
                ) {
                    Some(y) => y.content is Some,
                    None => true,
                } by {
                    if j > 0 {
                        lemma_node_at_step(h, p, j);
                        assert(node_at(x, q.take(j - 1)) == node_at(h, p.take(j)));
                    }
                }
            }
        },
        None => {
            assert forall|j: int| 0 <= j < p.len() implies match #[trigger] node_at(
                h,
                p.take(j),
            ) {
                Some(y) => y.content is Some,
                None => true,
            } by {
                if j > 0 {
                    lemma_node_at_step(h, p, j);
                }
            }
        },
    }
}

/// What a path reaches in two combined analyses: the combination of what it
/// reaches in each, except that what only the second one has is lost when
/// the first one has a file above it.
pub proof fn lemma_node_at_combine<V: IMetricValue>(
    a: HNode<V::Model>,
    b: HNode<V::Model>,
    p: Seq<Seq<char>>,
)
    requires
        wf_node(a),
        wf_node(b),
    ensures
        node_at(combine_model::<V>(a, b), p) == if node_at(a, p) is None && node_at(b, p) is Some
            && !no_file_above(a, p) {
            None
        } else {
            merged_entry::<V>(node_at(a, p), node_at(b, p))
        },
    decreases p.len(),
{
    if p.len() > 0 {
        let k = p[0];
        let q = p.drop_first();
        let c = combine_model::<V>(a, b);
        match (a.content, b.content) {
            (None, _) => {
                assert(p.take(0) =~= Seq::<Seq<char>>::empty());
                assert(node_at(a, p.take(0)) == Some(a));
            },
            (Some(ca), None) => {},
            (Some(ca), Some(cb)) => {
                lemma_merge_lookup::<V>(ca, cb, k);
                lemma_lookup_wf(ca, k);
                lemma_lookup_wf(cb, k);
                lemma_no_file_above_step(a, p);
                match (lookup(ca, k), lookup(cb, k)) {
                    (Some(x), Some(y)) => {
                        lemma_node_at_combine::<V>(x, y, q);
                    },
                    _ => {},
                }
            },
        }
    }
}

/// The entry names on the way to a file below the analysed folder: the
/// components of its path after the first, without a last `..`.
pub open spec fn file_keys(path: Seq<char>) -> Seq<Seq<char>> {
    let c = path_components(path);
    if c.len() >= 2 {
        if c.last() == seq!['.', '.'] {
            c.drop_last().skip(1)
        } else {
            c.skip(1)
        }
    } else {
        Seq::empty()
    }
}

/// The entry names below the top of a chain of folders.
spec fn chain_keys(c: Seq<Seq<char>>) -> Seq<Seq<char>>
    decreases c.len(),
{
    if c.len() <= 1 {
        Seq::empty()
    } else if c.len() == 2 && c[1] == seq!['.', '.'] {
        Seq::empty()
    } else {
        seq![c[1]] + chain_keys(c.drop_first())
    }
}

proof fn lemma_chain_keys(c: Seq<Seq<char>>)
    requires
        c.len() >= 2,
    ensures
        chain_keys(c) == if c.last() == seq!['.', '.'] {
            c.drop_last().skip(1)
        } else {
            c.skip(1)
        },
    decreases c.len(),
{
    if c.len() == 2 {
        assert(c.drop_last().skip(1) =~= Seq::<Seq<char>>::empty());
        assert(c.skip(1) =~= seq![c[1]]);
        assert(chain_keys(c.drop_first()) =~= Seq::<Seq<char>>::empty());
    } else {
        let d = c.drop_first();
        lemma_chain_keys(d);
        assert(d.last() == c.last());
        assert(d.drop_last().skip(1) =~= c.drop_last().skip(2));
        assert(c.drop_last().skip(1) =~= seq![c[1]] + c.drop_last().skip(2));
        assert(d.skip(1) =~= c.skip(2));
        assert(c.skip(1) =~= seq![c[1]] + c.skip(2));
    }
}

/// A chain of folders holding one file: its items are those on the way to
/// the file, each with the file's values, and only the last is a file.
proof fn lemma_chain<M>(c: Seq<Seq<char>>, m: Seq<M>, p: Seq<Seq<char>>)
    requires
        c.len() >= 1,
    ensures
        wf_node(chain_model(c, m)),
        node_at(chain_model(c, m), p) is Some <==> p.is_prefix_of(chain_keys(c)),
        node_at(chain_model(c, m), p) matches Some(n) ==> n.metrics == m && (n.content is None
            <==> p == chain_keys(c)),
    decreases c.len(),
{
    let k = chain_keys(c);
    if c.len() <= 1 || (c.len() == 2 && c[1] == seq!['.', '.']) {
        if p.len() == 0 {
            assert(p =~= k);
        }
    } else {
        let d = c.drop_first();
        let ch = chain_model(d, m);
        let entries = seq![(c[1], ch)];
        lemma_chain(d, m, Seq::empty());
        assert(entries.drop_last() =~= Seq::<(Seq<char>, HNode<M>)>::empty());
        assert(model_keys(entries) =~= seq![c[1]]);
        assert(entries.last() == (c[1], ch));
        assert(d[0] == c[1]);
        assert(ch.name == d[0]);
        assert(wf_entries(entries.drop_last()));
        assert(wf_entries(entries));
        assert(lookup(entries.drop_last(), p[0]) is None);
        if p.len() == 0 {
            assert(p.is_prefix_of(k));
        } else {
            let q = p.drop_first();
            lemma_chain(d, m, q);
            assert(lookup(entries, p[0]) == if p[0] == c[1] {
                Some(ch)
            } else {
                None::<HNode<M>>
            });
            if p[0] == c[1] {
                if q.is_prefix_of(chain_keys(d)) {
                    assert(p =~= seq![c[1]] + q);
                    assert(p.is_prefix_of(k));
                }
                if p.is_prefix_of(k) {
                    assert(q =~= k.subrange(0, p.len() as int).drop_first());
                    assert(q.is_prefix_of(chain_keys(d)));
                }
                if p == k {
                    assert(q =~= chain_keys(d));
                }
                if q == chain_keys(d) {
                    assert(p =~= k);
                }
            } else {
                assert(k[0] == c[1]);
                if p.is_prefix_of(k) {
                    assert(p[0] == k.subrange(0, p.len() as int)[0]);
                }
            }
        }
    }
}

/// The analysis of one file: its items are those on the way to it below
/// the top, each with the file's values, and only the last is a file.
proof fn lemma_file_model<M>(path: Seq<char>, m: Seq<M>, p: Seq<Seq<char>>)
    ensures
        wf_node(file_model(path, m)),
        node_at(file_model(path, m), p) is Some <==> p.is_prefix_of(file_keys(path)),
        node_at(file_model(path, m), p) matches Some(n) ==> n.metrics == m && (n.content is None
            <==> p == file_keys(path)),
{
    let c = path_components(path);
    if c.len() >= 2 {
        lemma_chain(c, m, p);
        lemma_chain_keys(c);
    } else {
        if p.len() == 0 {
            assert(p =~= file_keys(path));
        }
    }
}

/// Whether a file's entry names begin with `p`.
pub open spec fn is_below<M>(p: Seq<Seq<char>>) -> spec_fn((Seq<char>, Seq<M>)) -> bool {
    |f: (Seq<char>, Seq<M>)| p.is_prefix_of(file_keys(f.0))
}

/// The files of `fas` whose entry names begin with `p`, in order.
pub open spec fn files_below<M>(fas: Seq<(Seq<char>, Seq<M>)>, p: Seq<Seq<char>>) -> Seq<
    (Seq<char>, Seq<M>),
> {
    fas.filter(is_below::<M>(p))
}

/// No file lies inside another: when the entry names of one file begin
/// those of another, they are the same (as on a disk, where a file is no
/// folder).
pub open spec fn no_file_inside_another<M>(fas: Seq<(Seq<char>, Seq<M>)>) -> bool {
    forall|i: int, j: int|
        #![trigger file_keys(fas[i].0), file_keys(fas[j].0)]
        0 <= i < fas.len() && 0 <= j < fas.len() && file_keys(fas[i].0).is_prefix_of(
            file_keys(fas[j].0),
        ) ==> file_keys(fas[i].0) == file_keys(fas[j].0)
}

proof fn lemma_files_below_push<M>(
    fas: Seq<(Seq<char>, Seq<M>)>,
    f: (Seq<char>, Seq<M>),
    p: Seq<Seq<char>>,
)
    ensures
        files_below(fas.push(f), p) == if p.is_prefix_of(file_keys(f.0)) {
            files_below(fas, p).push(f)
        } else {
            files_below(fas, p)
        },
{
    reveal_with_fuel(Seq::filter, 1);
    assert(fas.push(f).drop_last() =~= fas);
}

proof fn lemma_files_below_none<M>(fas: Seq<(Seq<char>, Seq<M>)>, p: Seq<Seq<char>>)
    requires
        forall|i: int| 0 <= i < fas.len() ==> !p.is_prefix_of(#[trigger] file_keys(fas[i].0)),
    ensures
        files_below(fas, p).len() == 0,
    decreases fas.len(),
{
    if fas.len() > 0 {
        assert forall|i: int| 0 <= i < fas.drop_last().len() implies !p.is_prefix_of(
            #[trigger] file_keys(fas.drop_last()[i].0),
        ) by {
            assert(fas.drop_last()[i] == fas[i]);
        }
        lemma_files_below_none(fas.drop_last(), p);
        assert(fas.drop_last().push(fas.last()) =~= fas);
        lemma_files_below_push(fas.drop_last(), fas.last(), p);
        assert(!p.is_prefix_of(file_keys(fas[fas.len() - 1].0)));
    }
}

/// The summary of one file's values is those values.
proof fn lemma_summary_single<V: IMetricValue>(m: Seq<V::Model>)
    ensures
        metrics_summary::<V>(seq![m]) == m,
{
    let none = Seq::<V::Model>::empty();
    assert(seq![m].drop_last() =~= Seq::<Seq<V::Model>>::empty());
    assert(metrics_summary::<V>(seq![m].drop_last()) == none);
    assert forall|o: V::Model| #[trigger] missing_from::<V>(none)(o) by {
        if has_key::<V>(none, V::key_of(o)) {
            let i = choose|i: int| 0 <= i < none.len() && V::key_of(none[i]) == V::key_of(o);
        }
    }
    lemma_filter_all(m, missing_from::<V>(none));
    assert(none.map_values(aggregate_with_first::<V>(m)) =~= none);
    assert(combine_metrics_model::<V>(none, m) =~= m);
}

proof fn lemma_filter_all<A>(s: Seq<A>, pred: spec_fn(A) -> bool)
    requires
        forall|x: A| #[trigger] pred(x),
    ensures
        s.filter(pred) == s,
    decreases s.len(),
{
    reveal_with_fuel(Seq::filter, 1);
    if s.len() > 0 {
        lemma_filter_all(s.drop_last(), pred);
        assert(pred(s.last()));
        assert(s.drop_last().push(s.last()) =~= s);
    } else {
        assert(s.filter(pred) =~= s);
    }
}

/// The summary of the files below `p` once one more file is analysed.
proof fn lemma_summary_push<V: IMetricValue>(
    fas: Seq<(Seq<char>, Seq<V::Model>)>,
    f: (Seq<char>, Seq<V::Model>),
    p: Seq<Seq<char>>,
)
    ensures
        metrics_summary::<V>(file_metrics(files_below(fas.push(f), p))) == if p.is_prefix_of(
            file_keys(f.0),
        ) {
            combine_metrics_model::<V>(
                metrics_summary::<V>(file_metrics(files_below(fas, p))),
                f.1,
            )
        } else {
            metrics_summary::<V>(file_metrics(files_below(fas, p)))
        },
{
    lemma_files_below_push(fas, f, p);
    if p.is_prefix_of(file_keys(f.0)) {
        let b = files_below(fas, p);
        assert(file_metrics(b.push(f)) =~= file_metrics(b).push(f.1));
        assert(file_metrics(b.push(f)).drop_last() =~= file_metrics(b));
    }
}

/// What an analysis of the files `fs` shows: it is well formed; every item
/// in it carries the summary of the files below it; every item on the way
/// to a file is in it; every file in it is where some file is; and every
/// item below the top is on the way to some file.
spec fn represents<V: IMetricValue>(h: HNode<V::Model>, fs: Seq<(Seq<char>, Seq<V::Model>)>) -> bool {
    &&& wf_node(h)
    &&& forall|p: Seq<Seq<char>>|
        #[trigger] node_at(h, p) matches Some(n) ==> n.metrics == metrics_summary::<V>(
            file_metrics(files_below(fs, p)),
        )
    &&& forall|i: int, p: Seq<Seq<char>>|
        #![trigger node_at(h, p), file_keys(fs[i].0)]
        0 <= i < fs.len() && p.is_prefix_of(file_keys(fs[i].0)) ==> node_at(h, p) is Some
    &&& forall|p: Seq<Seq<char>>|
        #[trigger] node_at(h, p) matches Some(n) && n.content is None ==> exists|i: int|
            0 <= i < fs.len() && file_keys(fs[i].0) == p
    &&& forall|p: Seq<Seq<char>>|
        #[trigger] node_at(h, p) is Some && p.len() > 0 ==> exists|i: int|
            0 <= i < fs.len() && p.is_prefix_of(file_keys(fs[i].0))
}

proof fn lemma_fold_represents<V: IMetricValue>(
    name: Seq<char>,
    fs: Seq<(Seq<char>, Seq<V::Model>)>,
)
    requires
        no_file_inside_another(fs),
    ensures
        represents::<V>(fold_model::<V>(empty_folder(name), fs), fs),
    decreases fs.len(),
{
    let t = fold_model::<V>(empty_folder(name), fs);
    if fs.len() == 0 {
        let e = empty_folder::<V::Model>(name);
        assert(model_keys(Seq::<(Seq<char>, HNode<V::Model>)>::empty()) =~= Seq::<Seq<char>>::empty());
        assert(wf_node(e));
        assert forall|p: Seq<Seq<char>>| #[trigger] node_at(e, p) is Some implies node_at(e, p)->0.metrics
            == metrics_summary::<V>(file_metrics(files_below(fs, p))) && node_at(e, p)->0.content is Some
            && p.len() == 0 by {
            lemma_files_below_none(fs, p);
            assert(file_metrics(files_below(fs, p)) =~= Seq::<Seq<V::Model>>::empty());
            if p.len() > 0 {
                assert(lookup(Seq::<(Seq<char>, HNode<V::Model>)>::empty(), p[0]) is None);
            }
        }
    } else {
        let prev = fs.drop_last();
        let f = fs.last();
        assert(prev.push(f) =~= fs);
        assert(no_file_inside_another(prev)) by {
            assert forall|i: int, j: int|
                #![trigger file_keys(prev[i].0), file_keys(prev[j].0)]
                0 <= i < prev.len() && 0 <= j < prev.len() && file_keys(prev[i].0).is_prefix_of(
                    file_keys(prev[j].0),
                ) implies file_keys(prev[i].0) == file_keys(prev[j].0) by {
                assert(prev[i] == fs[i] && prev[j] == fs[j]);
                assert(file_keys(fs[i].0) == file_keys(fs[j].0));
            }
        }
        lemma_fold_represents::<V>(name, prev);
        let a = fold_model::<V>(empty_folder(name), prev);
        let b = file_model(f.0, f.1);
        assert(t == combine_model::<V>(a, b));
        lemma_file_model(f.0, f.1, Seq::empty());
        lemma_combine_wf::<V>(a, b);
        // every item carries the summary of the files below it
        assert forall|p: Seq<Seq<char>>| #[trigger] node_at(t, p) is Some implies node_at(t, p)->0.metrics
            == metrics_summary::<V>(file_metrics(files_below(fs, p))) by {
            lemma_node_at_combine::<V>(a, b, p);
            lemma_file_model(f.0, f.1, p);
            lemma_summary_push::<V>(prev, f, p);
            if node_at(a, p) is None && node_at(b, p) is Some {
                assert forall|i: int| 0 <= i < prev.len() implies !p.is_prefix_of(
                    #[trigger] file_keys(prev[i].0),
                ) by {
                    if p.is_prefix_of(file_keys(prev[i].0)) {
                        assert(node_at(a, p) is Some);
                    }
                }
                lemma_files_below_none(prev, p);
                assert(file_metrics(files_below(prev, p)) =~= Seq::<Seq<V::Model>>::empty());
                lemma_summary_single::<V>(f.1);
                assert(seq![f.1].drop_last() =~= Seq::<Seq<V::Model>>::empty());
            }
        }
        // every item on the way to a file is there
        assert forall|i: int, p: Seq<Seq<char>>|
            #![trigger node_at(t, p), file_keys(fs[i].0)]
            0 <= i < fs.len() && p.is_prefix_of(file_keys(fs[i].0)) implies node_at(t, p) is Some by {
            lemma_node_at_combine::<V>(a, b, p);
            lemma_file_model(f.0, f.1, p);
            if i < prev.len() {
                assert(prev[i] == fs[i]);
                assert(node_at(a, p) is Some);
            } else {
                assert(fs[i] == f);
                if node_at(a, p) is None {
                    assert forall|j: int| 0 <= j < p.len() implies match #[trigger] node_at(
                        a,
                        p.take(j),
                    ) {
                        Some(x) => x.content is Some,
                        None => true,
                    } by {
                        if let Some(x) = node_at(a, p.take(j)) {
                            if x.content is None {
                                let i2 = choose|i2: int|
                                    0 <= i2 < prev.len() && file_keys(prev[i2].0) == p.take(j);
                                assert(prev[i2] == fs[i2]);
                                let kf = file_keys(fs[i].0);
                                assert(p.take(j) =~= kf.subrange(0, j));
                                assert(file_keys(fs[i2].0).is_prefix_of(kf));
                                assert(file_keys(fs[i2].0) == kf);
                            }
                        }
                    }
                }
            }
        }
        // every file in it is where some file is
        assert forall|p: Seq<Seq<char>>|
            #[trigger] node_at(t, p) is Some && node_at(t, p)->0.content is None implies exists|i: int|
                0 <= i < fs.len() && file_keys(fs[i].0) == p by {
            lemma_node_at_combine::<V>(a, b, p);
            lemma_file_model(f.0, f.1, p);
            if node_at(a, p) is Some && node_at(b, p) is None {
                let i = choose|i: int| 0 <= i < prev.len() && file_keys(prev[i].0) == p;
                assert(prev[i] == fs[i]);
            } else if node_at(a, p) is None {
                assert(fs[fs.len() - 1] == f);
            }
        }
        // every item below the top is on the way to some file
        assert forall|p: Seq<Seq<char>>|
            #[trigger] node_at(t, p) is Some && p.len() > 0 implies exists|i: int|
                0 <= i < fs.len() && p.is_prefix_of(file_keys(fs[i].0)) by {
            lemma_node_at_combine::<V>(a, b, p);
            lemma_file_model(f.0, f.1, p);
            if node_at(a, p) is Some {
                let i = choose|i: int| 0 <= i < prev.len() && p.is_prefix_of(file_keys(prev[i].0));
                assert(prev[i] == fs[i]);
            } else {
                assert(fs[fs.len() - 1] == f);
            }
        }
    }
}

/// The entry of `c` named `k` (the last one, should there be several).
pub open spec fn top_lookup(c: Seq<(Seq<char>, TNode)>, k: Seq<char>) -> Option<TNode>
    decreases c.len(),
{
    if c.len() == 0 {
        None
    } else if c.last().0 == k {
        Some(c.last().1)
    } else {
        top_lookup(c.drop_last(), k)
    }
}

/// The item of an analysis reached by following the entry names `p`.
pub open spec fn top_node_at(t: TNode, p: Seq<Seq<char>>) -> Option<TNode>
    decreases p.len(),
{
    if p.len() == 0 {
        Some(t)
    } else {
        match t.content {
            None => None,
            Some(c) => match top_lookup(c, p[0]) {
                None => None,
                Some(x) => top_node_at(x, p.drop_first()),
            },
        }
    }
}

/// Whether every item of `t` lists its metrics sorted by name, each name
/// once, and every folder of it its entries.
pub open spec fn top_sorted(t: TNode) -> bool {
    forall|p: Seq<Seq<char>>|
        #![trigger top_node_at(t, p)]
        match top_node_at(t, p) {
            Some(n) => (n.content matches Some(c) ==> keys_sorted(model_keys(c))) && keys_sorted(
                model_keys(n.metrics),
            ),
            None => true,
        }
}

proof fn lemma_top_lookup<V: IMetricValue>(c: Seq<(Seq<char>, HNode<V::Model>)>, k: Seq<char>)
    ensures
        top_lookup(top_entries_model::<V>(c), k) == match lookup(c, k) {
            Some(x) => Some(top_model::<V>(x)),
            None => None,
        },
        model_keys(top_entries_model::<V>(c)) == model_keys(c),
    decreases c.len(),
{
    if c.len() > 0 {
        lemma_top_lookup::<V>(c.drop_last(), k);
        let t = top_entries_model::<V>(c);
        assert(t.drop_last() =~= top_entries_model::<V>(c.drop_last()));
        assert(model_keys(t) =~= model_keys(t.drop_last()).push(c.last().0));
        assert(model_keys(c) =~= model_keys(c.drop_last()).push(c.last().0));
    } else {
        assert(model_keys(top_entries_model::<V>(c)) =~= model_keys(c));
    }
}

proof fn lemma_top_node_at<V: IMetricValue>(h: HNode<V::Model>, p: Seq<Seq<char>>)
    ensures
        top_node_at(top_model::<V>(h), p) == match node_at(h, p) {
            Some(x) => Some(top_model::<V>(x)),
            None => None,
        },
    decreases p.len(),
{
    if p.len() > 0 {
        match h.content {
            None => {},
            Some(c) => {
                lemma_top_lookup::<V>(c, p[0]);
                match lookup(c, p[0]) {
                    None => {},
                    Some(x) => {
                        lemma_top_node_at::<V>(x, p.drop_first());
                    },
                }
            },
        }
    }
}

/// An empty folder is well formed.
pub proof fn lemma_empty_folder_wf<M>(name: Seq<char>)
    ensures
        wf_node(empty_folder::<M>(name)),
{
    assert(model_keys(Seq::<(Seq<char>, HNode<M>)>::empty()) =~= Seq::<Seq<char>>::empty());
}

/// Combining the analyses of files into a well-formed analysis keeps it well
/// formed.
pub proof fn lemma_fold_wf<V: IMetricValue>(h: HNode<V::Model>, fs: Seq<(Seq<char>, Seq<V::Model>)>)
    requires
        wf_node(h),
    ensures
        wf_node(fold_model::<V>(h, fs)),
    decreases fs.len(),
{
    if fs.len() > 0 {
        lemma_fold_wf::<V>(h, fs.drop_last());
        lemma_file_model(fs.last().0, fs.last().1, Seq::empty());
        lemma_combine_wf::<V>(
            fold_model::<V>(h, fs.drop_last()),
            file_model(fs.last().0, fs.last().1),
        );
    }
}

/// In a well-formed analysis the item reached by `p` is well formed and
/// named as the last entry followed.
proof fn lemma_wf_node_at<M>(h: HNode<M>, p: Seq<Seq<char>>)
    requires
        wf_node(h),
    ensures
        node_at(h, p) matches Some(n) ==> wf_node(n) && (p.len() > 0 ==> n.name == p.last()),
    decreases p.len(),
{
    if p.len() > 0 {
        if let Some(c) = h.content {
            lemma_lookup_wf(c, p[0]);
            if let Some(x) = lookup(c, p[0]) {
                lemma_wf_node_at(x, p.drop_first());
                if p.len() > 1 {
                    assert(p.drop_first().last() == p.last());
                }
            }
        }
    }
}

/// Every folder of an analysis carries the summary of the metric values of
/// the files below it: the item reached from the analysed folder by the
/// entry names `p` shows the scores of the summary of the values of the
/// files (under the analysed folder) whose entry names begin with `p`, and
/// such an item is there whenever one such file is. This holds when no file
/// lies inside another, as on a disk.
pub proof fn law_every_folder_summarises_its_files<V: IMetricValue>(
    root: Seq<char>,
    fas: Seq<(Seq<char>, Seq<V::Model>)>,
    p: Seq<Seq<char>>,
)
    requires
        no_file_inside_another(renamed_under_root(fas, root)),
    ensures
        match top_node_at(analysis_model::<V>(root, fas), p) {
            Some(t) => t.metrics == collect_model(
                metric_scores::<V>(
                    metrics_summary::<V>(file_metrics(files_below(renamed_under_root(fas, root), p))),
                ),
            ),
            None => files_below(renamed_under_root(fas, root), p).len() == 0,
        },
{
    let fs = renamed_under_root(fas, root);
    let h = fold_model::<V>(empty_folder(root_file_name(root)), fs);
    lemma_fold_represents::<V>(root_file_name(root), fs);
    lemma_top_node_at::<V>(h, p);
    assert(node_at(h, p) matches Some(n) ==> n.metrics == metrics_summary::<V>(
        file_metrics(files_below(fs, p)),
    ));
    if node_at(h, p) is None && files_below(fs, p).len() > 0 {
        let below = files_below(fs, p);
        fs.lemma_filter_pred(is_below::<V::Model>(p), 0);
        fs.lemma_filter_contains_rev(is_below::<V::Model>(p), below[0]);
        let i = choose|i: int| 0 <= i < fs.len() && fs[i] == below[0];
        assert(p.is_prefix_of(file_keys(fs[i].0)));
        assert(node_at(h, p) is Some);
    }
}

/// Every folder of an analysis lists its entries sorted by name, each name
/// once, every item is named as the entry that holds it, and every item
/// lists its metrics sorted by name, each name once.
pub proof fn law_folders_are_sorted_and_named<V: IMetricValue>(
    root: Seq<char>,
    fas: Seq<(Seq<char>, Seq<V::Model>)>,
    p: Seq<Seq<char>>,
)
    ensures
        match top_node_at(analysis_model::<V>(root, fas), p) {
            Some(t) => (p.len() > 0 ==> t.name == p.last()) && (t.content matches Some(c)
                ==> keys_sorted(model_keys(c))) && keys_sorted(model_keys(t.metrics)),
            None => true,
        },
{
    let fs = renamed_under_root(fas, root);
    let h = fold_model::<V>(empty_folder(root_file_name(root)), fs);
    lemma_empty_folder_wf::<V::Model>(root_file_name(root));
    lemma_fold_wf::<V>(empty_folder(root_file_name(root)), fs);
    lemma_top_node_at::<V>(h, p);
    lemma_wf_node_at(h, p);
    if let Some(n) = node_at(h, p) {
        lemma_collect_model(metric_scores::<V>(n.metrics));
        if let Some(c) = n.content {
            lemma_top_lookup::<V>(c, Seq::empty());
        }
    }
}

/// A file that lies alone at its place, below the top, is in the analysis
/// there as the file itself: an item with no content and the file's values.
proof fn lemma_fold_file_leaf<V: IMetricValue>(
    name: Seq<char>,
    fs: Seq<(Seq<char>, Seq<V::Model>)>,
    i: int,
)
    requires
        no_file_inside_another(fs),
        0 <= i < fs.len(),
        file_keys(fs[i].0).len() > 0,
        forall|j: int| 0 <= j < fs.len() && j != i ==> #[trigger] file_keys(fs[j].0) != file_keys(fs[i].0),
    ensures
        node_at(fold_model::<V>(empty_folder(name), fs), file_keys(fs[i].0)) matches Some(n) && n.content
            is None && n.metrics == fs[i].1,
    decreases fs.len(),
{
    let k = file_keys(fs[i].0);
    let prev = fs.drop_last();
    let f = fs.last();
    assert(prev.push(f) =~= fs);
    assert(no_file_inside_another(prev)) by {
        assert forall|x: int, y: int|
            #![trigger file_keys(prev[x].0), file_keys(prev[y].0)]
            0 <= x < prev.len() && 0 <= y < prev.len() && file_keys(prev[x].0).is_prefix_of(
                file_keys(prev[y].0),
            ) implies file_keys(prev[x].0) == file_keys(prev[y].0) by {
            assert(prev[x] == fs[x] && prev[y] == fs[y]);
            assert(file_keys(fs[x].0) == file_keys(fs[y].0));
        }
    }
    let a = fold_model::<V>(empty_folder(name), prev);
    let b = file_model(f.0, f.1);
    lemma_fold_represents::<V>(name, prev);
    lemma_file_model(f.0, f.1, Seq::empty());
    lemma_node_at_combine::<V>(a, b, k);
    lemma_file_model(f.0, f.1, k);
    if i == fs.len() - 1 {
        assert(fs[i] == f);
        if node_at(a, k) is Some {
            let j = choose|j: int| 0 <= j < prev.len() && k.is_prefix_of(file_keys(prev[j].0));
            assert(prev[j] == fs[j]);
            assert(file_keys(fs[i].0) == file_keys(fs[j].0));
        }
        assert forall|j: int| 0 <= j < k.len() implies match #[trigger] node_at(a, k.take(j)) {
            Some(x) => x.content is Some,
            None => true,
        } by {
            if let Some(x) = node_at(a, k.take(j)) {
                if x.content is None {
                    let j2 = choose|j2: int| 0 <= j2 < prev.len() && file_keys(prev[j2].0) == k.take(j);
                    assert(prev[j2] == fs[j2]);
                    assert(k.take(j) =~= k.subrange(0, j));
                    assert(file_keys(fs[j2].0).is_prefix_of(k));
                    assert(file_keys(fs[j2].0) == k);
                }
            }
        }
    } else {
        assert(prev[i] == fs[i]);
        assert forall|j: int| 0 <= j < prev.len() && j != i implies #[trigger] file_keys(prev[j].0)
            != file_keys(prev[i].0) by {
            assert(prev[j] == fs[j]);
        }
        lemma_fold_file_leaf::<V>(name, prev, i);
        assert(fs[fs.len() - 1] == f);
        if k.is_prefix_of(file_keys(f.0)) {
            assert(file_keys(fs[i].0) == file_keys(fs[fs.len() - 1].0));
        }
    }
}

/// Every file lies in the analysis at its place below the analysed folder as
/// a file: an item with no content that shows the scores of the file's own
/// values. This holds when no other file lies at the same place and no file
/// lies inside another, as on a disk.
pub proof fn law_files_show_their_own_values<V: IMetricValue>(
    root: Seq<char>,
    fas: Seq<(Seq<char>, Seq<V::Model>)>,
    i: int,
)
    requires
        no_file_inside_another(renamed_under_root(fas, root)),
        0 <= i < renamed_under_root(fas, root).len(),
        file_keys(renamed_under_root(fas, root)[i].0).len() > 0,
        forall|j: int|
            0 <= j < renamed_under_root(fas, root).len() && j != i ==> #[trigger] file_keys(
                renamed_under_root(fas, root)[j].0,
            ) != file_keys(renamed_under_root(fas, root)[i].0),
    ensures
        top_node_at(
            analysis_model::<V>(root, fas),
            file_keys(renamed_under_root(fas, root)[i].0),
        ) matches Some(t) && t.content is None && t.metrics == collect_model(
            metric_scores::<V>(renamed_under_root(fas, root)[i].1),
        ),
{
    let fs = renamed_under_root(fas, root);
    let h = fold_model::<V>(empty_folder(root_file_name(root)), fs);
    lemma_fold_file_leaf::<V>(root_file_name(root), fs, i);
    lemma_top_node_at::<V>(h, file_keys(fs[i].0));
}

/// A list of components without a last `..`.
pub open spec fn without_last_parent(c: Seq<Seq<char>>) -> Seq<Seq<char>> {
    if c.len() > 0 && c.last() == seq!['.', '.'] {
        c.drop_last()
    } else {
        c
    }
}

/// Every file below the analysed folder is placed in the analysis by the
/// components of its path after those of the folder (`Path::strip_prefix`),
/// a last `..` left out, when the folder's path has a component: these are
/// the entry names that the laws above speak of.
pub proof fn law_files_are_placed_by_their_components<M>(
    root: Seq<char>,
    f: (Seq<char>, Seq<M>),
)
    requires
        path_components(root).len() > 0,
        components_after(f.0, root) is Some,
    ensures
        file_keys(renamed_from_root::<M>(root)(f).0) == without_last_parent(
            components_after(f.0, root)->0,
        ),
{
    let b = path_components(root);
    let fc = path_components(f.0);
    let rest = components_after(f.0, root)->0;
    assert(rest == fc.skip(b.len() as int));
    lemma_components_after_first(f.0);
    lemma_components_after_first(root);
    let name = root_file_name(root);
    if let Some(n) = path_file_name(root) {
        assert(n == b[b.len() - 1]);
        assert(is_name(n));
    }
    let c = seq![name] + rest;
    assert forall|i: int| 1 <= i < c.len() implies {
        let x = #[trigger] c[i];
        x.len() > 0 && x != seq!['.'] && !x.contains('/')
    } by {
        assert(c[i] == fc[b.len() + i - 1]);
    }
    assert(c[0] == name);
    lemma_join_components(c);
    let comps = path_components(join_components(c));
    assert(c.drop_first() =~= rest);
    if rest.len() > 0 {
        assert(comps.len() == 1 + rest.len());
        assert(comps.last() == rest.last());
        assert(comps.drop_last().skip(1) =~= rest.drop_last());
        assert(comps.skip(1) =~= rest);
    } else {
        assert(comps.len() <= 1);
    }
}

/// Every folder of an analysis shows a score of a metric exactly when some
/// file below it (under the analysed folder) has a value of that metric,
/// whatever metrics the other files have. This holds when no file lies
/// inside another, as on a disk.
pub proof fn law_folders_show_every_metric_of_their_files<V: IMetricValue>(
    root: Seq<char>,
    fas: Seq<(Seq<char>, Seq<V::Model>)>,
    p: Seq<Seq<char>>,
    key: Seq<char>,
)
    requires
        no_file_inside_another(renamed_under_root(fas, root)),
    ensures
        top_node_at(analysis_model::<V>(root, fas), p) matches Some(t) ==> (model_keys(
            t.metrics,
        ).contains(key) <==> exists|i: int|
            0 <= i < files_below(renamed_under_root(fas, root), p).len() && #[trigger] has_key::<V>(
                files_below(renamed_under_root(fas, root), p)[i].1,
                key,
            )),
{
    let fb = files_below(renamed_under_root(fas, root), p);
    law_every_folder_summarises_its_files::<V>(root, fas, p);
    if let Some(t) = top_node_at(analysis_model::<V>(root, fas), p) {
        let ms = metrics_summary::<V>(file_metrics(fb));
        lemma_collect_model_keys(metric_scores::<V>(ms), key);
        assert(model_keys(metric_scores::<V>(ms)).contains(key) <==> has_key::<V>(ms, key)) by {
            if model_keys(metric_scores::<V>(ms)).contains(key) {
                let i = choose|i: int| 0 <= i < model_keys(metric_scores::<V>(ms)).len() && model_keys(metric_scores::<V>(ms))[i] == key;
                assert(V::key_of(ms[i]) == key);
            }
            if has_key::<V>(ms, key) {
                let i = choose|i: int| 0 <= i < ms.len() && V::key_of(ms[i]) == key;
                assert(model_keys(metric_scores::<V>(ms))[i] == key);
            }
        }
        law_summary_keeps_every_metric::<V>(file_metrics(fb), key);
        assert forall|i: int| 0 <= i < fb.len() implies #[trigger] file_metrics(fb)[i] == fb[i].1 by {}
        if exists|i: int| 0 <= i < fb.len() && #[trigger] has_key::<V>(fb[i].1, key) {
            let i = choose|i: int| 0 <= i < fb.len() && #[trigger] has_key::<V>(fb[i].1, key);
            assert(has_key::<V>(file_metrics(fb)[i], key));
        }
        if exists|i: int| 0 <= i < file_metrics(fb).len() && #[trigger] has_key::<V>(file_metrics(fb)[i], key) {
            let i = choose|i: int| 0 <= i < file_metrics(fb).len() && #[trigger] has_key::<V>(file_metrics(fb)[i], key);
            assert(has_key::<V>(fb[i].1, key));
        }
    }
}

} // verus!
