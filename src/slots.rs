//! Spec helpers for sequences of child slots that may have been cleared.
use vstd::prelude::*;

verus! {

pub open spec fn slot_view<T: View>(o: Option<T>) -> Option<T::V> {
    match o {
        Some(x) => Some(x@),
        None => None,
    }
}

/// The views of the children, slot by slot.
pub open spec fn slots_view<T: View>(v: Seq<Option<T>>) -> Seq<Option<T::V>> {
    v.map_values(|o: Option<T>| slot_view(o))
}

pub proof fn lemma_slots_view<T: View>(v: Seq<Option<T>>)
    ensures
        slots_view(v).len() == v.len(),
        forall|i: int| 0 <= i < v.len() ==> #[trigger] slots_view(v)[i] == slot_view(v[i]),
        forall|i: int| 0 <= i < v.len() ==> (slots_view(v)[i] is Some <==> (#[trigger] v[i]) is Some),
{
}

/// As many slots as `s`, all absent.
pub open spec fn absent_slots<V>(s: Seq<Option<V>>) -> Seq<Option<V>> {
    Seq::new(s.len(), |i: int| None)
}

/// Every slot is absent.
pub open spec fn all_absent<V>(s: Seq<Option<V>>) -> bool {
    forall|i: int| 0 <= i < s.len() ==> (#[trigger] s[i]) is None
}

/// `r` lists, in increasing order, exactly the indices of the slots of `s` that hold a child.
pub open spec fn lists_present<V>(s: Seq<Option<V>>, r: Seq<usize>) -> bool {
    &&& forall|k: int| 0 <= k < r.len() ==> r[k] < s.len() && (#[trigger] s[r[k] as int]) is Some
    &&& forall|k: int, l: int| 0 <= k < l < r.len() ==> r[k] < r[l]
    &&& forall|i: int| 0 <= i < s.len() && (#[trigger] s[i]) is Some ==> exists|k: int|
        0 <= k < r.len() && r[k] == i
}

/// Where iteration from `cursor` stops next: the first index at or after it that holds a
/// child, if any.
pub open spec fn next_present<V>(s: Seq<Option<V>>, cursor: int, j: int) -> bool {
    &&& cursor <= j < s.len()
    &&& s[j] is Some
    &&& forall|k: int| cursor <= k < j ==> (#[trigger] s[k]) is None
}

} // verus!

verus! {

/// Sets every slot to absent, keeping the length.
pub fn clear_slots<T>(v: &mut Vec<Option<T>>)
    ensures
        final(v)@.len() == old(v)@.len(),
        all_absent(final(v)@),
{
    let mut i: usize = 0;
    while i < v.len()
        invariant
            i <= v@.len() == old(v)@.len(),
            forall|k: int| 0 <= k < i ==> (#[trigger] v@[k]) is None,
        decreases old(v)@.len() - i,
    {
        v[i] = None;
        i = i + 1;
    }
}

/// The indices of the slots that hold a child, in increasing order.
pub fn present_indices<T>(v: &Vec<Option<T>>) -> (r: Vec<usize>)
    ensures
        lists_present(v@, r@),
{
    let mut r: Vec<usize> = Vec::new();
    let mut i: usize = 0;
    while i < v.len()
        invariant
            i <= v@.len(),
            forall|k: int| 0 <= k < r@.len() ==> r@[k] < i && (#[trigger] v@[r@[k] as int]) is Some,
            forall|k: int, l: int| 0 <= k < l < r@.len() ==> r@[k] < r@[l],
            forall|j: int| 0 <= j < i && (#[trigger] v@[j]) is Some ==> exists|k: int|
                0 <= k < r@.len() && r@[k] == j,
        decreases v@.len() - i,
    {
        let ghost before = r@;
        if v[i].is_some() {
            r.push(i);
            proof {
                assert(r@ == before.push(i));
                assert forall|k: int| 0 <= k < before.len() implies before[k] < i by {
                    assert(v@[before[k] as int] is Some);
                }
                assert forall|j: int| 0 <= j < i + 1 && (#[trigger] v@[j]) is Some implies exists|
                    k: int,
                | 0 <= k < r@.len() && r@[k] == j by {
                    if j == i {
                        assert(r@[r@.len() - 1] == j);
                    } else {
                        let k = choose|k: int| 0 <= k < before.len() && before[k] == j;
                        assert(r@[k] == j);
                    }
                }
            }
        }
        i = i + 1;
    }
    r
}

/// The first index at or after `cursor` whose slot holds a child.
pub fn find_present<T>(v: &Vec<Option<T>>, cursor: usize) -> (r: Option<usize>)
    ensures
        match r {
            Some(j) => next_present(v@, cursor as int, j as int),
            None => forall|k: int| cursor <= k < v@.len() ==> (#[trigger] v@[k]) is None,
        },
{
    let mut j: usize = cursor;
    while j < v.len()
        invariant
            cursor <= j,
            forall|k: int| cursor <= k < j && k < v@.len() ==> (#[trigger] v@[k]) is None,
        decreases v@.len() - j,
    {
        if v[j].is_some() {
            return Some(j);
        }
        j = j + 1;
    }
    None
}

} // verus!
