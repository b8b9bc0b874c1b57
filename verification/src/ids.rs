//! Looking image ids up in lists.

use vstd::prelude::*;

verus! {

/// `i` is where `id` first stands in `ids`.
pub open spec fn is_first_of(ids: Seq<u32>, id: u32, i: int) -> bool {
    &&& 0 <= i < ids.len()
    &&& ids[i] == id
    &&& forall|j: int| 0 <= j < i ==> #[trigger] ids[j] != id
}

/// Where `id` first stands in `ids`.
pub fn find_id(ids: &[u32], id: u32) -> (r: Option<usize>)
    ensures
        match r {
            Some(i) => is_first_of(ids@, id, i as int),
            None => !ids@.contains(id),
        },
{
    let mut i: usize = 0;
    while i < ids.len()
        invariant
            i <= ids@.len(),
            forall|j: int| 0 <= j < i ==> #[trigger] ids@[j] != id,
        decreases ids@.len() - i,
    {
        if ids[i] == id {
            return Some(i);
        }
        i = i + 1;
    }
    None
}

} // verus!
