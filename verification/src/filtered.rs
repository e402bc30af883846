//! Facts about sequences from which a filter has taken items.

use vstd::prelude::*;

verus! {

/// Of a sequence of one item, a filter keeps the item or nothing.
pub proof fn lemma_filter_one<A>(item: A, keep: spec_fn(A) -> bool)
    ensures
        seq![item].filter(keep) == if keep(item) {
            seq![item]
        } else {
            Seq::empty()
        },
{
    reveal_with_fuel(Seq::filter, 2);
    assert(seq![item].drop_last() == Seq::<A>::empty());
}

/// Of a sequence with one item more at its end, a filter keeps what it
/// kept of the sequence, and the item where it keeps that.
pub proof fn lemma_filter_step<A>(s: Seq<A>, i: int, keep: spec_fn(A) -> bool)
    requires
        0 <= i < s.len(),
    ensures
        s.take(i + 1).filter(keep) == if keep(s[i]) {
            s.take(i).filter(keep).push(s[i])
        } else {
            s.take(i).filter(keep)
        },
{
    assert(s.take(i + 1) == s.take(i) + seq![s[i]]);
    Seq::filter_distributes_over_add(s.take(i), seq![s[i]], keep);
    lemma_filter_one(s[i], keep);
}

/// A filter keeps exactly the items of the sequence that it accepts.
pub proof fn lemma_filter_member<A>(s: Seq<A>, keep: spec_fn(A) -> bool, item: A)
    ensures
        s.filter(keep).contains(item) <==> s.contains(item) && keep(item),
{
    let kept = s.filter(keep);
    if kept.contains(item) {
        s.lemma_filter_contains_rev(keep, item);
        let i = choose|i: int| 0 <= i < kept.len() && kept[i] == item;
        s.lemma_filter_pred(keep, i);
    }
    if s.contains(item) && keep(item) {
        let i = choose|i: int| 0 <= i < s.len() && s[i] == item;
        s.lemma_filter_contains(keep, i);
    }
}

/// A filter brings no item in twice that was there once.
pub proof fn lemma_filter_no_duplicates<A>(s: Seq<A>, keep: spec_fn(A) -> bool)
    requires
        s.no_duplicates(),
    ensures
        s.filter(keep).no_duplicates(),
    decreases s.len(),
{
    reveal(Seq::filter);
    if s.len() > 0 {
        let init = s.drop_last();
        let last = s.last();
        assert forall|i: int, j: int| 0 <= i < j < init.len() implies init[i] != init[j] by {
            assert(s[i] != s[j]);
        }
        lemma_filter_no_duplicates(init, keep);
        if keep(last) {
            let kept = init.filter(keep);
            assert forall|i: int| 0 <= i < kept.len() implies kept[i] != last by {
                if kept[i] == last {
                    assert(kept.contains(last));
                    lemma_filter_member(init, keep, last);
                    let k = choose|k: int| 0 <= k < init.len() && init[k] == last;
                    assert(s[k] == s[s.len() - 1]);
                }
            }
            assert(s.filter(keep) == kept.push(last));
        }
    }
}

} // verus!
