//! Lists of values that can only be moved.

use vstd::prelude::*;

verus! {

/// The list from its end to its start.
pub fn reversed<T>(list: Vec<T>) -> (r: Vec<T>)
    ensures
        r@ == list@.reverse(),
{
    let ghost all = list@;
    let mut rest = list;
    let mut out: Vec<T> = Vec::with_capacity(rest.len());
    loop
        invariant
            rest@.len() + out@.len() == all.len(),
            rest@ == all.take(rest@.len() as int),
            out@ == all.skip(rest@.len() as int).reverse(),
        ensures
            rest@.len() == 0,
        decreases rest@.len(),
    {
        match rest.pop() {
            Some(item) => {
                out.push(item);
                let ghost n = rest@.len() as int;
                assert(all.skip(n).reverse() == all.skip(n + 1).reverse().push(item));
            },
            None => {
                break;
            },
        }
    }
    assert(all.skip(0) == all);
    out
}

}
