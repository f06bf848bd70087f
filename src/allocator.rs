use vstd::prelude::*;

use crate::free_list::{blocks_fit, blocks_map, carve, sorted_by_start, FreeList};
use crate::heap::{align_up, is_first_fit, no_fit, Heap};
use crate::layout::{laid_out, lemma_allocation_laid_out};
use crate::mem::{Memory, Status};
use crate::object::{object_size, Object, ObjectAddress, ObjectTrait};

verus! {

/// First-fit allocator over a heap's free list.
#[derive(Debug, Default)]
pub struct Allocator {}

#[derive(Debug, PartialEq, Eq, Structural, Clone, Copy)]
pub enum AllocatorError {
    FailedToAllocated,
}

impl Allocator {
    pub fn new() -> (r: Self) {
        Allocator {  }
    }

    /// Places `object` in the first free block whose aligned start leaves
    /// room for it: the object, unchanged, joins the live table at that start
    /// (and the roots when `is_root`), and its cells are marked allocated.
    /// `FailedToAllocated`, with nothing changed, when no block has room.
    pub fn allocate(&mut self, heap: &mut Heap, object: Object, is_root: bool) -> (r: Result<
        ObjectAddress,
        AllocatorError,
    >)
        requires
            old(heap).wf(),
            0 < object_size(object) <= usize::MAX,
        ensures
            final(heap).wf(),
            final(heap).alignment == old(heap).alignment,
            r is Err <==> no_fit(
                old(heap).free_list.inner@,
                object_size(object),
                old(heap).alignment as int,
            ),
            r is Err ==> *final(heap) == *old(heap),
            r matches Ok(a) ==> {
                let n = object_size(object);
                let s = old(heap).free_list.inner@;
                &&& exists|i: int|
                    is_first_fit(s, n, old(heap).alignment as int, i) && a == align_up(
                        s[i].0 as int,
                        old(heap).alignment as int,
                    ) && final(heap).free_list.inner@ == carve(s, i, a as int, a + n)
                &&& final(heap).objects@.dom() == old(heap).objects@.dom().insert(a)
                &&& forall|k: ObjectAddress|
                    k != a && #[trigger] old(heap).objects@.contains_key(k) ==> final(heap).objects@[k]
                        == old(heap).objects@[k]
                &&& final(heap).objects@[a] == object
                &&& final(heap).roots@ == (if is_root {
                    old(heap).roots@.insert(a)
                } else {
                    old(heap).roots@
                })
                &&& final(heap).memory@.len() == old(heap).memory@.len()
                &&& forall|x: int|
                    0 <= x < old(heap).memory@.len() ==> final(heap).memory@[x] == (if a <= x < a + n {
                        Memory { status: Status::Allocated }
                    } else {
                        old(heap).memory@[x]
                    })
            },
            r matches Ok(a) ==> old(heap).alignment > 0 ==> a % old(heap).alignment == 0,
            laid_out(*old(heap)) ==> laid_out(*final(heap)),
    {
        let ghost h0 = *heap;
        let size = object.size();
        match self.find_free_block(heap, size) {
            Some(start) => {
                let ghost before = heap.objects@;
                heap.objects.insert(start, object);
                if is_root {
                    heap.roots.insert(start);
                }
                let ghost cells = heap.memory@;
                let ghost h = *heap;
                let mut i: usize = start;
                while i < start + size
                    invariant
                        start <= i <= start + size,
                        start + size <= usize::MAX,
                        heap.memory@.len() == cells.len(),
                        forall|x: int|
                            0 <= x < cells.len() ==> heap.memory@[x] == (if start <= x < i {
                                Memory { status: Status::Allocated }
                            } else {
                                cells[x]
                            }),
                        heap.objects == h.objects,
                        heap.roots == h.roots,
                        heap.free_list == h.free_list,
                        heap.alignment == h.alignment,
                    decreases start + size - i,
                {
                    if i < heap.memory.len() {
                        heap.memory.set(i, Memory { status: Status::Allocated });
                    }
                    i = i + 1;
                }
                proof {
                    assert forall|k: usize| #[trigger] heap.objects@.contains_key(k) implies k
                        + object_size(heap.objects@[k]) <= usize::MAX by {
                        if k != start {
                            assert(before.contains_key(k));
                        }
                    }
                    if laid_out(h0) {
                        let s = h0.free_list.inner@;
                        let i = choose|i: int|
                            is_first_fit(s, size as int, h0.alignment as int, i) && start == align_up(
                                s[i].0 as int,
                                h0.alignment as int,
                            ) && heap.free_list.inner@ == carve(s, i, start as int, start + size);
                        if h0.alignment > 0 {
                            crate::heap::lemma_align_up(s[i].0 as int, h0.alignment as int);
                        }
                        assert(heap.objects@.dom() =~= h0.objects@.dom().insert(start));
                        lemma_allocation_laid_out(h0, *heap, i, start, size as int);
                    }
                }
                Ok(start)
            },
            None => Err(AllocatorError::FailedToAllocated),
        }
    }

    /// First fit with alignment: finds the first free block whose aligned
    /// start leaves room for `size` cells, splits it (the runs before the
    /// aligned start and after the taken cells stay free) and returns the
    /// aligned start. `None`, with nothing changed, when no block has room.
    pub fn find_free_block(&mut self, heap: &mut Heap, size: usize) -> (r: Option<ObjectAddress>)
        requires
            old(heap).wf(),
            size > 0,
        ensures
            final(heap).wf(),
            r is None <==> no_fit(old(heap).free_list.inner@, size as int, old(heap).alignment as int),
            r is None ==> *final(heap) == *old(heap),
            r matches Some(a) ==> exists|i: int|
                is_first_fit(
                    old(heap).free_list.inner@,
                    size as int,
                    old(heap).alignment as int,
                    i,
                ) && a == align_up(old(heap).free_list.inner@[i].0 as int, old(heap).alignment as int)
                    && final(heap).free_list.inner@ == carve(
                    old(heap).free_list.inner@,
                    i,
                    a as int,
                    a + size,
                ),
            r matches Some(a) ==> a + size <= usize::MAX,
            r matches Some(a) ==> old(heap).alignment > 0 ==> a % old(heap).alignment == 0,
            final(heap).objects == old(heap).objects,
            final(heap).roots == old(heap).roots,
            final(heap).memory == old(heap).memory,
            final(heap).alignment == old(heap).alignment,
    {
        let mut i: usize = 0;
        while i < heap.free_list.inner.len()
            invariant
                i <= heap.free_list.inner.len(),
                heap.wf(),
                *heap == *old(heap),
                size > 0,
                forall|j: int|
                    0 <= j < i ==> !crate::heap::block_fits(
                        heap.free_list.inner@[j],
                        size as int,
                        heap.alignment as int,
                    ),
            decreases heap.free_list.inner.len() - i,
        {
            let (block_start, block_size) = heap.free_list.inner[i];
            let aligned_start = heap.aligned_position_in(block_start, block_size);
            if let Some(aligned_start) = aligned_start {
                if size <= block_start + block_size - aligned_start {
                    let block_end = aligned_start + size;
                    proof {
                        if heap.alignment > 0 {
                            crate::heap::lemma_align_up(block_start as int, heap.alignment as int);
                        }
                    }
                    let ghost s = heap.free_list.inner@;
                    assert(s[i as int] == (block_start, block_size));
                    assert(is_first_fit(s, size as int, heap.alignment as int, i as int));
                    self.split_block(heap, block_start, block_size, aligned_start, block_end);
                    assert(heap.free_list.inner@ == carve(s, i as int, aligned_start as int, block_end as int));
                    return Some(aligned_start);
                }
            }
            i = i + 1;
        }
        None
    }

    /// Replaces the free block `(block_start, block_size)` by the runs of it
    /// before `aligned_start` and after `block_end`, each kept only when
    /// non-empty.
    pub fn split_block(
        &mut self,
        heap: &mut Heap,
        block_start: ObjectAddress,
        block_size: usize,
        aligned_start: ObjectAddress,
        block_end: ObjectAddress,
    )
        requires
            old(heap).wf(),
            old(heap).free_list.inner@.contains((block_start, block_size)),
            block_start <= aligned_start < block_end <= block_start + block_size,
        ensures
            final(heap).wf(),
            forall|i: int|
                0 <= i < old(heap).free_list.inner@.len() && old(heap).free_list.inner@[i] == (
                block_start,
                block_size,
                ) ==> final(heap).free_list.inner@ == carve(
                    old(heap).free_list.inner@,
                    i,
                    aligned_start as int,
                    block_end as int,
                ),
            final(heap).objects == old(heap).objects,
            final(heap).roots == old(heap).roots,
            final(heap).memory == old(heap).memory,
            final(heap).alignment == old(heap).alignment,
    {
        let ghost s = heap.free_list.inner@;
        let i = heap.free_list.find_slot(block_start);
        proof {
            let j = s.index_of((block_start, block_size));
            if j < i {
                assert(s[j].0 < block_start);
            } else if j > i {
                assert(s[i as int].0 <= s[j].0);
                assert(s[i as int].0 >= block_start);
            }
            assert forall|k: int| 0 <= k < s.len() && s[k] == (block_start, block_size) implies k == i by {
                if k < i {
                } else if k > i {
                }
            }
        }
        heap.free_list.carve(i, aligned_start, block_end);
    }
}

/// A heap of ten free cells whose free list holds `free_list` (ordered by
/// start, the last block kept where several share a start).
pub fn create_free_list_heap(alignment: usize, free_list: Vec<(ObjectAddress, usize)>) -> (r: Heap)
    requires
        blocks_fit(free_list@),
    ensures
        r.alignment == alignment,
        r.memory@.len() == 10,
        forall|x: int| 0 <= x < 10 ==> r.memory@[x].status == Status::Free,
        r.free_list.wf(),
        blocks_map(r.free_list.inner@) == blocks_map(free_list@),
        sorted_by_start(free_list@) ==> r.free_list.inner@ == free_list@,
        r.objects@ == Map::<ObjectAddress, Object>::empty(),
        r.roots@ == Set::<ObjectAddress>::empty(),
{
    let mut memory: Vec<Memory> = Vec::new();
    let mut i: usize = 0;
    while i < 10
        invariant
            i <= 10,
            memory@.len() == i,
            forall|x: int| 0 <= x < i ==> memory@[x].status == Status::Free,
        decreases 10 - i,
    {
        memory.push(Memory::new(Status::Free));
        i = i + 1;
    }
    Heap {
        roots: std::collections::BTreeSet::new(),
        objects: std::collections::BTreeMap::new(),
        free_list: FreeList::new(free_list),
        memory,
        alignment,
    }
}

} // verus!
