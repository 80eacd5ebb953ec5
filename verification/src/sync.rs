use vstd::prelude::*;

verus! {

/// The entries of `ids` that `other` does not hold, in order.
pub open spec fn missing(ids: Seq<u64>, other: Seq<u64>) -> Seq<u64>
    decreases ids.len(),
{
    if ids.len() == 0 {
        Seq::empty()
    } else {
        let rest = missing(ids.drop_last(), other);
        if other.contains(ids.last()) {
            rest
        } else {
            rest.push(ids.last())
        }
    }
}

/// The ids of `ids` that `other` lacks, in order. A client reconciles its
/// scene with a snapshot through this: entities whose id the snapshot no
/// longer lists are removed, and snapshot entries with no entity are added.
pub fn ids_missing_from(ids: &Vec<u64>, other: &Vec<u64>) -> (r: Vec<u64>)
    ensures
        r@ == missing(ids@, other@),
{
    let mut r: Vec<u64> = Vec::new();
    let mut i: usize = 0;
    while i < ids.len()
        invariant
            0 <= i <= ids@.len(),
            r@ == missing(ids@.take(i as int), other@),
        decreases ids@.len() - i,
    {
        let id = ids[i];
        let mut present: bool = false;
        let mut j: usize = 0;
        while j < other.len()
            invariant
                0 <= j <= other@.len(),
                present == exists|k: int| 0 <= k < j && other@[k] == id,
            decreases other@.len() - j,
        {
            if other[j] == id {
                present = true;
            }
            j = j + 1;
        }
        proof {
            assert(ids@.take(i + 1).drop_last() == ids@.take(i as int));
            assert(ids@.take(i + 1).last() == id);
            assert(present == other@.contains(id));
        }
        if !present {
            r.push(id);
        }
        i = i + 1;
    }
    proof {
        assert(ids@.take(ids@.len() as int) == ids@);
    }
    r
}

/// An id is missing exactly when `ids` holds it and `other` does not.
pub proof fn lemma_missing_members(ids: Seq<u64>, other: Seq<u64>, id: u64)
    ensures
        missing(ids, other).contains(id) <==> ids.contains(id) && !other.contains(id),
    decreases ids.len(),
{
    if ids.len() > 0 {
        let front = ids.drop_last();
        lemma_missing_members(front, other, id);
        let rest = missing(front, other);
        if ids.contains(id) && id != ids.last() {
            let k = choose|k: int| 0 <= k < ids.len() && ids[k] == id;
            assert(front[k] == id);
        }
        if front.contains(id) {
            let k = choose|k: int| 0 <= k < front.len() && front[k] == id;
            assert(ids[k] == id);
        }
        if !other.contains(ids.last()) {
            assert(rest.push(ids.last())[rest.len() as int] == ids.last());
            if rest.push(ids.last()).contains(id) && id != ids.last() {
                let k = choose|k: int| 0 <= k < rest.len() + 1 && rest.push(ids.last())[k] == id;
                assert(rest[k] == id);
            }
            if rest.contains(id) {
                let k = choose|k: int| 0 <= k < rest.len() && rest[k] == id;
                assert(rest.push(ids.last())[k] == id);
            }
        }
        assert(ids.last() == ids[ids.len() - 1]);
    }
}

} // verus!
