//! What is kept of a list when only some of its items are.
use vstd::prelude::*;

verus! {

/// The items of `kept` stand at `places` in `all`, in the same order.
pub open spec fn comes_from<T>(all: Seq<T>, kept: Seq<T>, places: Seq<int>) -> bool {
    &&& places.len() == kept.len()
    &&& forall|i: int|
        0 <= i < places.len() ==> 0 <= #[trigger] places[i] < all.len() && all[places[i]]
            == kept[i]
    &&& forall|i: int, j: int|
        0 <= i < j < places.len() ==> #[trigger] places[i] < #[trigger] places[j]
}

/// Filtering keeps exactly the items that pass, in their order, each as often as
/// it is there.
pub proof fn law_filter<T>(all: Seq<T>, pass: spec_fn(T) -> bool) -> (places: Seq<int>)
    ensures
        comes_from(all, all.filter(pass), places),
        forall|i: int|
            0 <= i < all.len() ==> (pass(#[trigger] all[i]) <==> places.contains(i)),
    decreases all.len(),
{
    reveal(Seq::filter);
    if all.len() == 0 {
        Seq::empty()
    } else {
        let rest = all.drop_last();
        let last = all.len() - 1;
        let before = law_filter(rest, pass);
        let places = if pass(all.last()) {
            before.push(last)
        } else {
            before
        };
        assert forall|i: int| 0 <= i < all.len() implies (pass(#[trigger] all[i])
            <==> places.contains(i)) by {
            if i < last {
                assert(rest[i] == all[i]);
                if before.contains(i) {
                    let k = choose|k: int| 0 <= k < before.len() && before[k] == i;
                    assert(places[k] == i);
                }
                if places.contains(i) {
                    let k = choose|k: int| 0 <= k < places.len() && places[k] == i;
                    assert(before[k] == i);
                }
            } else {
                if pass(all[i]) {
                    assert(places[before.len() as int] == i);
                }
                if places.contains(i) && !pass(all[i]) {
                    let k = choose|k: int| 0 <= k < places.len() && places[k] == i;
                    assert(before[k] < rest.len());
                }
            }
        }
        places
    }
}

/// An item is kept exactly if it is there and passes.
pub proof fn law_filter_contains<T>(all: Seq<T>, pass: spec_fn(T) -> bool, item: T)
    ensures
        all.filter(pass).contains(item) <==> all.contains(item) && pass(item),
{
    let kept = all.filter(pass);
    let places = law_filter(all, pass);
    if kept.contains(item) {
        let k = choose|k: int| 0 <= k < kept.len() && kept[k] == item;
        assert(all[places[k]] == item);
        assert(places.contains(places[k]));
    }
    if all.contains(item) && pass(item) {
        let i = choose|i: int| 0 <= i < all.len() && all[i] == item;
        assert(places.contains(i));
        let k = choose|k: int| 0 <= k < places.len() && places[k] == i;
        assert(kept[k] == item);
    }
}

} // verus!
