//! Small helpers on vectors.

use vstd::prelude::*;

verus! {

/// The items of `items` in the opposite order.
pub fn reversed<T>(items: Vec<T>) -> (turned: Vec<T>)
    ensures
        turned@ == items@.reverse(),
{
    let mut items = items;
    let ghost all = items@;
    let mut turned: Vec<T> = Vec::new();
    while items.len() > 0
        invariant
            turned@.len() + items@.len() == all.len(),
            items@ == all.take(items@.len() as int),
            forall|i: int| 0 <= i < turned@.len() ==> turned@[i] == all[all.len() - 1 - i],
        decreases items@.len(),
    {
        let last = items.pop();
        match last {
            Some(item) => {
                turned.push(item);
                assert(items@ =~= all.take(items@.len() as int));
            },
            None => {},
        }
    }
    assert(turned@ =~= all.reverse());
    turned
}

} // verus!
