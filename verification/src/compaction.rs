//! Removal of chosen positions from a buffer in place, by shifting what
//! follows them to the left.

use vstd::prelude::*;

verus! {

/// `<[T]>::swap` of the standard library: the elements at `a` and `b` change
/// places and every other element stays. It panics when an index is out of
/// bounds, which the `requires` rules out.
pub assume_specification<T>[ <[T]>::swap ](slice: &mut [T], a: usize, b: usize)
    requires
        a < old(slice)@.len(),
        b < old(slice)@.len(),
    ensures
        final(slice)@ == old(slice)@.update(a as int, old(slice)@[b as int]).update(
            b as int,
            old(slice)@[a as int],
        ),
;

/// The positions that a list of indices names.
pub open spec fn positions(to_remove: Seq<usize>) -> Set<int> {
    Set::new(|i: int| exists|k: int| 0 <= k < to_remove.len() && #[trigger] to_remove[k] == i)
}

/// Whether every index is greater than all that come before it.
pub open spec fn strictly_increasing(indices: Seq<usize>) -> bool {
    forall|i: int, j: int| 0 <= i < j < indices.len() ==> indices[i] < indices[j]
}

/// The elements of `s` whose position is not in `removed`, in their order.
pub open spec fn without<A>(s: Seq<A>, removed: Set<int>) -> Seq<A>
    decreases s.len(),
{
    if s.len() == 0 {
        Seq::empty()
    } else {
        let rest = without(s.drop_last(), removed);
        if removed.contains(s.len() - 1) {
            rest
        } else {
            rest.push(s.last())
        }
    }
}

/// How many of the strictly increasing indices `to_remove`, none of them
/// greater than `len`, are positions of a buffer of length `len`.
pub open spec fn removed_count(to_remove: Seq<usize>, len: int) -> int {
    if to_remove.len() > 0 && to_remove.last() == len {
        to_remove.len() - 1
    } else {
        to_remove.len() as int
    }
}

/// The buffer `current` is compacted up to position `front`: `count` positions
/// before `front` were removed, what survives of them stands at the start, and
/// from `front` on nothing has moved.
spec fn compacted_up_to<A>(
    current: Seq<A>,
    before: Seq<A>,
    removed: Set<int>,
    front: int,
    count: int,
) -> bool {
    &&& current.len() == before.len()
    &&& 0 <= count <= front <= before.len()
    &&& current.subrange(0, front - count) == without(before.subrange(0, front), removed)
    &&& forall|i: int| front <= i < before.len() ==> current[i] == before[i]
}

/// Taking one more position into account either appends its element or, where
/// the position is removed, changes nothing.
proof fn lemma_without_step<A>(s: Seq<A>, removed: Set<int>, j: int)
    requires
        0 <= j < s.len(),
    ensures
        without(s.subrange(0, j + 1), removed) == if removed.contains(j) {
            without(s.subrange(0, j), removed)
        } else {
            without(s.subrange(0, j), removed).push(s[j])
        },
{
    assert(s.subrange(0, j + 1).drop_last() == s.subrange(0, j));
}

/// Where no position before `j` is removed, the first `j` elements survive
/// as they are.
proof fn lemma_without_untouched<A>(s: Seq<A>, removed: Set<int>, j: int)
    requires
        0 <= j <= s.len(),
        forall|i: int| 0 <= i < j ==> !removed.contains(i),
    ensures
        without(s.subrange(0, j), removed) == s.subrange(0, j),
    decreases j,
{
    if j > 0 {
        lemma_without_untouched(s, removed, j - 1);
        lemma_without_step(s, removed, j - 1);
        assert(s.subrange(0, j - 1).push(s[j - 1]) == s.subrange(0, j));
    } else {
        assert(s.subrange(0, 0) == Seq::<A>::empty());
    }
}

/// Narrows a buffer to the pixels of a `width` x `height` image.
pub fn subset_by_width_and_height<A>(slice: &mut [A], width: usize, height: usize) -> (subset:
    &mut [A])
    requires
        width * height <= old(slice)@.len(),
    ensures
        subset@ == old(slice)@.subrange(0, width * height),
        final(slice)@ == final(subset)@ + old(slice)@.subrange(
            width * height,
            old(slice)@.len() as int,
        ),
{
    assert(slice.len() == slice@.len());
    let (image, _rest) = slice.split_at_mut(width * height);
    image
}

/// Removes the positions `to_remove` from `slice`: every element behind a
/// removed position moves left by the number of removed positions before it.
/// The surviving elements then stand at the start of `slice` in their old
/// order; what follows them is of no use. `to_remove` must be sorted, and
/// only its last index may be the length of `slice`.
pub fn lazy_remove_indexes_of<A: Clone>(slice: &mut [A], to_remove: &Vec<usize>)
    requires
        strictly_increasing(to_remove@),
        forall|k: int| 0 <= k < to_remove@.len() ==> to_remove@[k] <= old(slice)@.len(),
    ensures
        final(slice)@.len() == old(slice)@.len(),
        without(old(slice)@, positions(to_remove@)).len() == old(slice)@.len() - removed_count(
            to_remove@,
            old(slice)@.len() as int,
        ),
        final(slice)@.subrange(0, old(slice)@.len() - removed_count(to_remove@, old(slice)@.len() as int))
            == without(old(slice)@, positions(to_remove@)),
{
    let len: usize = slice.len();
    let count: usize = to_remove.len();
    let ghost before = slice@;
    let ghost removed = positions(to_remove@);
    assert(before.subrange(0, len as int) == before);
    if count == 0 {
        proof {
            lemma_without_untouched(before, removed, len as int);
        }
        return ;
    }
    proof {
        assert forall|i: int| 0 <= i < to_remove@[0] implies !removed.contains(i) by {
            if removed.contains(i) {
                let k = choose|k: int| 0 <= k < to_remove@.len() && #[trigger] to_remove@[k] == i;
                assert(k == 0 || to_remove@[0] < to_remove@[k]);
            }
        }
        lemma_without_untouched(before, removed, to_remove@[0] as int);
    }
    let mut offset: usize = 0;
    while offset < count
        invariant
            count == to_remove@.len(),
            count > 0,
            len == before.len(),
            slice@.len() == len,
            removed == positions(to_remove@),
            strictly_increasing(to_remove@),
            forall|k: int| 0 <= k < to_remove@.len() ==> to_remove@[k] <= len,
            offset <= count,
            offset < count ==> compacted_up_to(
                slice@,
                before,
                removed,
                to_remove@[offset as int] as int,
                offset as int,
            ),
            offset == count ==> compacted_up_to(
                slice@,
                before,
                removed,
                len as int,
                removed_count(to_remove@, len as int),
            ),
        decreases count - offset,
    {
        let start: usize = to_remove[offset];
        let finish: usize = if offset < count - 1 {
            to_remove[offset + 1]
        } else {
            len
        };
        if start < finish {
            proof {
                assert(removed.contains(start as int));
                lemma_without_step(before, removed, start as int);
            }
            let mut idx: usize = start + 1;
            while idx < finish
                invariant
                    count == to_remove@.len(),
                    offset < count,
                    len == before.len(),
                    slice@.len() == len,
                    removed == positions(to_remove@),
                    strictly_increasing(to_remove@),
                    start == to_remove@[offset as int],
                    finish == if offset < count - 1 {
                        to_remove@[offset + 1]
                    } else {
                        len
                    },
                    start < idx <= finish <= len,
                    compacted_up_to(slice@, before, removed, idx as int, offset + 1),
                decreases finish - idx,
            {
                proof {
                    if removed.contains(idx as int) {
                        let k = choose|k: int|
                            0 <= k < to_remove@.len() && #[trigger] to_remove@[k] == idx;
                        if k < offset {
                            assert(to_remove@[k] < to_remove@[offset as int]);
                        } else if k > offset + 1 {
                            assert(to_remove@[offset + 1] < to_remove@[k]);
                        }
                        assert(false);
                    }
                    lemma_without_step(before, removed, idx as int);
                }
                let ghost shifted = slice@;
                let src: usize = idx;
                let dst: usize = idx - offset - 1;
                slice.swap(src, dst);
                assert(slice@.subrange(0, idx - offset) == shifted.subrange(0, idx - offset - 1).push(
                    before[idx as int],
                ));
                idx += 1;
            }
            proof {
                if offset + 1 == count {
                    assert(to_remove@.last() == start);
                }
            }
        } else {
            proof {
                if offset + 1 < count {
                    assert(to_remove@[offset as int] < to_remove@[offset + 1]);
                }
                assert(to_remove@.last() == len);
            }
        }
        offset += 1;
    }
}

} // verus!
