//! Facts about sequences that are filtered and mapped.

use vstd::prelude::*;
use vstd::set_lib::{lemma_int_range, set_int_range};

verus! {

/// The numbers from zero up to `n`, `n` itself left out.
pub open spec fn count_up(n: nat) -> Seq<int> {
    Seq::new(n, |i: int| i)
}

/// Filtering and mapping one element more of a sequence adds the image of that
/// element where the filter lets it pass, and nothing where it does not.
pub proof fn lemma_filter_map_next<A, B>(
    s: Seq<A>,
    i: int,
    pred: spec_fn(A) -> bool,
    f: spec_fn(A) -> B,
)
    requires
        0 <= i < s.len(),
    ensures
        s.take(i + 1).filter(pred).map_values(f) == if pred(s[i]) {
            s.take(i).filter(pred).map_values(f).push(f(s[i]))
        } else {
            s.take(i).filter(pred).map_values(f)
        },
{
    assert(s.take(i + 1) =~= s.take(i).push(s[i]));
    s.take(i).lemma_filter_push(s[i], pred);
    if pred(s[i]) {
        s.take(i).filter(pred).lemma_push_map_commute(f, s[i]);
    }
}

/// Filtering one element more of a sequence adds that element where the filter
/// lets it pass, and nothing where it does not.
pub proof fn lemma_filter_next<A>(s: Seq<A>, i: int, pred: spec_fn(A) -> bool)
    requires
        0 <= i < s.len(),
    ensures
        s.take(i + 1).filter(pred) == if pred(s[i]) {
            s.take(i).filter(pred).push(s[i])
        } else {
            s.take(i).filter(pred)
        },
{
    assert(s.take(i + 1) =~= s.take(i).push(s[i]));
    s.take(i).lemma_filter_push(s[i], pred);
}

/// A filter keeps a sequence free of duplicates.
pub proof fn lemma_filter_no_duplicates<A>(s: Seq<A>, pred: spec_fn(A) -> bool)
    requires
        s.no_duplicates(),
    ensures
        s.filter(pred).no_duplicates(),
    decreases s.len(),
{
    reveal(Seq::filter);
    if s.len() > 0 {
        let head = s.drop_last();
        lemma_filter_no_duplicates(head, pred);
        assert(s =~= head.push(s.last()));
        head.lemma_filter_push(s.last(), pred);
        if pred(s.last()) {
            let kept = head.filter(pred);
            assert forall|k: int| 0 <= k < kept.len() implies kept[k] != s.last() by {
                if kept[k] == s.last() {
                    assert(kept.contains(s.last()));
                    head.lemma_filter_contains_rev(pred, s.last());
                    let w = choose|w: int| 0 <= w < head.len() && head[w] == s.last();
                    assert(s[w] == s[s.len() - 1]);
                }
            }
        }
    }
}

/// What a filter keeps and what its opposite keeps make up the whole sequence.
pub proof fn lemma_filter_split_len<A>(
    s: Seq<A>,
    pred: spec_fn(A) -> bool,
    opposite: spec_fn(A) -> bool,
)
    requires
        forall|x: A| #[trigger] opposite(x) == !pred(x),
    ensures
        s.filter(pred).len() + s.filter(opposite).len() == s.len(),
    decreases s.len(),
{
    reveal(Seq::filter);
    if s.len() > 0 {
        let head = s.drop_last();
        lemma_filter_split_len(head, pred, opposite);
        assert(s =~= head.push(s.last()));
        head.lemma_filter_push(s.last(), pred);
        head.lemma_filter_push(s.last(), opposite);
    }
}

/// What a filter keeps of the numbers below `n`: numbers below `n` that pass
/// the filter, each once, and all of them.
pub proof fn lemma_filter_count_up(n: nat, pred: spec_fn(int) -> bool)
    ensures
        count_up(n).filter(pred).no_duplicates(),
        forall|k: int|
            0 <= k < count_up(n).filter(pred).len() ==> 0 <= (#[trigger] count_up(n).filter(
                pred,
            )[k]) < n && pred(count_up(n).filter(pred)[k]),
        forall|i: int|
            0 <= i < n && pred(i) ==> #[trigger] count_up(n).filter(pred).contains(i),
{
    let all = count_up(n);
    let kept = all.filter(pred);
    lemma_filter_no_duplicates(all, pred);
    assert forall|k: int| 0 <= k < kept.len() implies 0 <= (#[trigger] kept[k]) < n && pred(
        kept[k],
    ) by {
        all.lemma_filter_pred(pred, k);
        assert(kept.contains(kept[k]));
        all.lemma_filter_contains_rev(pred, kept[k]);
    }
    assert forall|i: int| 0 <= i < n && pred(i) implies kept.contains(i) by {
        assert(all[i] == i);
        all.lemma_filter_contains(pred, i);
    }
}

/// `order` lists the numbers below `n`, each of them once.
pub open spec fn is_ordering(order: Seq<int>, n: nat) -> bool {
    &&& order.len() == n
    &&& order.no_duplicates()
    &&& forall|k: int| 0 <= k < order.len() ==> 0 <= (#[trigger] order[k]) < n
    &&& forall|i: int| 0 <= i < n ==> order.contains(i)
}

/// A sequence without duplicates that holds the numbers below `n` and nothing
/// else has `n` entries.
pub proof fn lemma_ordering_len(order: Seq<int>, n: nat)
    requires
        order.no_duplicates(),
        forall|k: int| 0 <= k < order.len() ==> 0 <= (#[trigger] order[k]) < n,
        forall|i: int| 0 <= i < n ==> order.contains(i),
    ensures
        is_ordering(order, n),
{
    order.unique_seq_to_set();
    lemma_int_range(0, n as int);
    assert(order.to_set() =~= set_int_range(0, n as int)) by {
        assert forall|i: int| order.to_set().contains(i) <==> set_int_range(
            0,
            n as int,
        ).contains(i) by {
            if order.to_set().contains(i) {
                assert(order.contains(i));
                let w = choose|w: int| 0 <= w < order.len() && order[w] == i;
                assert(0 <= order[w] < n);
            }
        }
    }
}

/// `out` holds the entries of `items` in another order: entry `k` of `out` is
/// entry `order[k]` of `items`, for an `order` that lists every place once.
pub open spec fn is_rearrangement<A>(out: Seq<A>, items: Seq<A>) -> bool {
    exists|order: Seq<int>| arranges(order, out, items)
}

/// Entry `k` of `out` is entry `order[k]` of `items`, and `order` lists every
/// place of `items` once.
pub open spec fn arranges<A>(order: Seq<int>, out: Seq<A>, items: Seq<A>) -> bool {
    &&& is_ordering(order, items.len())
    &&& out.len() == items.len()
    &&& forall|k: int| 0 <= k < out.len() ==> (#[trigger] out[k]) == items[order[k]]
}

/// A rearrangement is as long as what it rearranges, holds the same entries,
/// and holds none twice unless the other does.
pub proof fn lemma_rearrangement_keeps<A>(out: Seq<A>, items: Seq<A>)
    requires
        is_rearrangement(out, items),
    ensures
        out.len() == items.len(),
        forall|x: A| out.contains(x) <==> items.contains(x),
        items.no_duplicates() ==> out.no_duplicates(),
{
    let order = choose|order: Seq<int>| arranges(order, out, items);
    assert forall|x: A| out.contains(x) <==> items.contains(x) by {
        if out.contains(x) {
            let k = choose|k: int| 0 <= k < out.len() && out[k] == x;
            assert(items[order[k]] == x);
        }
        if items.contains(x) {
            let i = choose|i: int| 0 <= i < items.len() && items[i] == x;
            assert(order.contains(i));
            let k = choose|k: int| 0 <= k < order.len() && order[k] == i;
            assert(out[k] == x);
        }
    }
    if items.no_duplicates() {
        assert forall|k: int, l: int| 0 <= k < out.len() && 0 <= l < out.len() && k != l implies out[k]
            != out[l] by {
            assert(order[k] != order[l]);
            assert(out[k] == items[order[k]]);
            assert(out[l] == items[order[l]]);
        }
    }
}

/// A filter keeps the order of a sequence: of two entries that it keeps, the
/// earlier one stood earlier in the sequence.
pub proof fn lemma_filter_keeps_order<A>(s: Seq<A>, pred: spec_fn(A) -> bool, i: int, j: int)
    requires
        0 <= i < j < s.filter(pred).len(),
    ensures
        exists|a: int, b: int|
            0 <= a < b < s.len() && s[a] == s.filter(pred)[i] && s[b] == s.filter(pred)[j],
    decreases s.len(),
{
    reveal(Seq::filter);
    let kept = s.filter(pred);
    if s.len() > 0 {
        let head = s.drop_last();
        assert(s =~= head.push(s.last()));
        head.lemma_filter_push(s.last(), pred);
        if j < head.filter(pred).len() {
            lemma_filter_keeps_order(head, pred, i, j);
            let (a, b) = choose|a: int, b: int|
                0 <= a < b < head.len() && head[a] == head.filter(pred)[i] && head[b]
                    == head.filter(pred)[j];
            assert(s[a] == kept[i] && s[b] == kept[j]);
        } else {
            let first = head.filter(pred)[i];
            assert(head.filter(pred).contains(first));
            head.lemma_filter_contains_rev(pred, first);
            let a = choose|a: int| 0 <= a < head.len() && head[a] == first;
            assert(s[a] == kept[i] && s[s.len() - 1] == kept[j]);
        }
    }
}

} // verus!
