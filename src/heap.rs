use std::collections::{BTreeMap, BTreeSet};

use vstd::prelude::*;
use vstd::std_specs::cmp::OrdSpec;
use vstd::std_specs::iter::IteratorSpec;

use crate::free_list::{carve, coalesced, separated, total_length, with_block, FreeList};
use crate::mem::{Memory, Status};
use crate::object::{object_size, Address, Field, Object, ObjectAddress, ObjectHeader, ObjectTrait, ObjectView};
use crate::gc::TriColor;
use crate::layout::{laid_out, lemma_allocation_laid_out, lemma_fresh_laid_out, lemma_release_laid_out};

verus! {

/// Keys in strictly increasing order.
pub open spec fn increasing(s: Seq<usize>) -> bool {
    forall|i: int, j: int| 0 <= i < j < s.len() ==> s[i] < s[j]
}

/// `s` lists the keys of `m`, in increasing order.
pub open spec fn lists_keys<V>(s: Seq<usize>, m: Map<usize, V>) -> bool {
    &&& increasing(s)
    &&& forall|i: int| 0 <= i < s.len() ==> #[trigger] m.contains_key(s[i])
    &&& forall|k: usize| #[trigger] m.contains_key(k) ==> s.contains(k)
}

/// The keys of an object table, in increasing order.
pub fn object_keys(objects: &BTreeMap<ObjectAddress, Object>) -> (r: Vec<ObjectAddress>)
    ensures
        lists_keys(r@, objects@),
{
    let mut r: Vec<ObjectAddress> = Vec::new();
    let ghost ks = vstd::std_specs::btree::spec_keys_iter(objects).remaining();
    proof {
        broadcast use vstd::laws_cmp::group_laws_cmp;
    }
    for k in it: objects.keys()
        invariant
            it.seq() == ks,
            r@ == it.seq().take(it.index()).map_values(|k: &usize| *k),
    {
        r.push(*k);
    }
    proof {
        broadcast use vstd::laws_cmp::group_laws_cmp;
        vstd::std_specs::btree::axiom_spec_keys_iter(objects);
        vstd::std_specs::btree::axiom_increasing_seq_meaning(ks);
        assert(r@.len() == ks.len());
        assert(vstd::std_specs::btree::increasing_seq(ks));
        assert(forall|i: int, j: int|
            0 <= i < j < ks.len() ==> <&usize as OrdSpec>::cmp_spec(&ks[i], &ks[j]) is Less);
        assert(r@ =~= ks.map_values(|k: &usize| *k));
        assert(increasing(r@)) by {
            assert forall|i: int, j: int| 0 <= i < j < r@.len() implies r@[i] < r@[j] by {
                assert(<&usize as OrdSpec>::cmp_spec(&ks[i], &ks[j]) is Less);
            }
        }
        assert forall|i: int| 0 <= i < r@.len() implies #[trigger] objects@.contains_key(r@[i]) by {
            assert(ks.unref().to_set().contains(ks.unref()[i]));
        }
        assert forall|k: usize| #[trigger] objects@.contains_key(k) implies r@.contains(k) by {
            assert(ks.unref().to_set().contains(k));
            let i = choose|i: int| 0 <= i < ks.unref().len() && ks.unref()[i] == k;
            assert(r@[i] == k);
        }
    }
    r
}

/// Smallest multiple of `a` at or above `p`; `p` itself when `a` is zero.
pub open spec fn align_up(p: int, a: int) -> int {
    if a == 0 || p % a == 0 {
        p
    } else {
        p + (a - p % a)
    }
}

pub proof fn lemma_align_up(p: int, a: int)
    requires
        p >= 0,
        a > 0,
    ensures
        align_up(p, a) % a == 0,
        p <= align_up(p, a) < p + a,
{
    let q = p / a;
    let r = p % a;
    assert(p == a * q + r && 0 <= r < a) by (nonlinear_arith)
        requires
            a > 0,
            q == p / a,
            r == p % a,
    ;
    if r != 0 {
        assert((a * (q + 1)) % a == 0) by (nonlinear_arith)
            requires
                a > 0,
        ;
        assert(p + (a - r) == a * (q + 1)) by (nonlinear_arith)
            requires
                p == a * q + r,
        ;
    }
}

/// The aligned start of block `b` leaves room for `size` cells inside it.
pub open spec fn block_fits(b: (usize, usize), size: int, a: int) -> bool {
    align_up(b.0 as int, a) + size <= b.0 + b.1
}

/// Block `i` is the first block of `s` that can take `size` cells.
pub open spec fn is_first_fit(s: Seq<(usize, usize)>, size: int, a: int, i: int) -> bool {
    &&& 0 <= i < s.len()
    &&& block_fits(s[i], size, a)
    &&& forall|j: int| 0 <= j < i ==> !block_fits(s[j], size, a)
}

/// No block of `s` can take `size` cells.
pub open spec fn no_fit(s: Seq<(usize, usize)>, size: int, a: int) -> bool {
    forall|j: int| 0 <= j < s.len() ==> !block_fits(s[j], size, a)
}

/// The object registered at `k` spans cell `x`.
pub open spec fn covers(k: usize, o: Object, x: int) -> bool {
    k <= x < k + object_size(o)
}

/// Some live object spans cell `x`.
pub open spec fn covered(objects: Map<ObjectAddress, Object>, x: int) -> bool {
    exists|k: usize| #[trigger] objects.contains_key(k) && covers(k, objects[k], x)
}

/// The cells as a refresh leaves them: allocated exactly where a live
/// object lies, free elsewhere.
pub open spec fn refreshed_cells(n: nat, objects: Map<ObjectAddress, Object>) -> Seq<Memory> {
    Seq::new(
        n,
        |x: int|
            Memory { status: if covered(objects, x) { Status::Allocated } else { Status::Free } },
    )
}

/// Every live object's span ends inside the address range.
pub open spec fn spans_fit(objects: Map<ObjectAddress, Object>) -> bool {
    forall|k: usize| #[trigger] objects.contains_key(k) ==> k + object_size(objects[k]) <= usize::MAX
}

/// What a lookup of cell `x` inside the object `o` at offset `off` yields.
pub open spec fn field_lookup(o: Object, off: int) -> Result<ObjectAddress, HeapError> {
    if 0 <= off < o.fields@.len() && o.fields@[off] is Ref && o.fields@[off]->Ref_0 is Ptr {
        Ok(o.fields@[off]->Ref_0->Ptr_0)
    } else {
        Err(HeapError::SegmentFault)
    }
}

/// `k` is the lowest live address whose object spans cell `x`.
pub open spec fn first_cover(objects: Map<ObjectAddress, Object>, x: int, k: usize) -> bool {
    &&& objects.contains_key(k)
    &&& covers(k, objects[k], x)
    &&& forall|k2: usize| #[trigger] objects.contains_key(k2) && k2 < k ==> !covers(k2, objects[k2], x)
}

/// Another live object overlaps the `size` cells from `to`.
pub open spec fn overlaps_other(
    objects: Map<ObjectAddress, Object>,
    from: ObjectAddress,
    to: int,
    size: int,
) -> bool {
    exists|k: usize|
        #[trigger] objects.contains_key(k) && k != from && k < to + size && to < k + object_size(
            objects[k],
        )
}

/// Refreshing is idempotent: the cells a refresh leaves depend only on
/// their number and on the live table, both of which it keeps, so a second
/// refresh leaves the same cells.
pub proof fn lemma_refresh_idempotent(n: nat, objects: Map<ObjectAddress, Object>)
    ensures
        refreshed_cells(refreshed_cells(n, objects).len(), objects) == refreshed_cells(n, objects),
{
}

proof fn lemma_chain_separated(s: Seq<(usize, usize)>, i: int, j: int)
    requires
        forall|k: int| 0 <= k < s.len() - 1 ==> #[trigger] s[k].0 + s[k].1 < s[k + 1].0,
        0 <= i < j < s.len(),
    ensures
        s[i].0 + s[i].1 < s[j].0,
    decreases j - i,
{
    if j > i + 1 {
        lemma_chain_separated(s, i, j - 1);
        assert(s[j - 1].0 + s[j - 1].1 < s[j].0);
    }
}

#[derive(Debug, PartialEq, Eq, Structural, Clone, Copy)]
pub enum HeapError {
    OutOfMemory,
    FailedToFreed,
    FailedToAllocated,
    CannotMoveObject,
    ObjectNotFound,
    SegmentFault,
}

/// A linear heap: its cells, its free list, the live objects by address,
/// the root addresses and the alignment of allocations.
#[derive(Debug, PartialEq, Clone, Default)]
pub struct Heap {
    pub roots: BTreeSet<ObjectAddress>,
    pub objects: BTreeMap<ObjectAddress, Object>,
    pub free_list: FreeList,
    pub memory: Vec<Memory>,
    pub alignment: usize,
}

impl Heap {
    /// The free list is ordered and coalesced, and every live object's span
    /// fits the address range.
    pub open spec fn wf(&self) -> bool {
        &&& self.free_list.wf()
        &&& separated(self.free_list.inner@)
        &&& spans_fit(self.objects@)
    }

    /// A heap of `size` free cells, all of it one free block.
    pub fn new(size: usize, alignment: usize) -> (r: Self)
        ensures
            r.wf(),
            r.memory@.len() == size,
            forall|x: int| 0 <= x < size ==> r.memory@[x].status == Status::Free,
            r.free_list.inner@ == seq![(0usize, size)],
            r.objects@ == Map::<ObjectAddress, Object>::empty(),
            r.roots@ == Set::<ObjectAddress>::empty(),
            r.alignment == alignment,
            size > 0 ==> laid_out(r),
    {
        let mut memory: Vec<Memory> = Vec::new();
        let mut i: usize = 0;
        while i < size
            invariant
                i <= size,
                memory@.len() == i,
                forall|x: int| 0 <= x < i ==> memory@[x].status == Status::Free,
            decreases size - i,
        {
            memory.push(Memory::free());
            i = i + 1;
        }
        let blocks = vec![(0usize, size)];
        assert(blocks@ =~= seq![(0usize, size)]);
        let r = Self {
            roots: BTreeSet::new(),
            objects: BTreeMap::new(),
            free_list: FreeList::new(blocks),
            memory,
            alignment,
        };
        proof {
            if size > 0 {
                lemma_fresh_laid_out(r, size);
            }
        }
        r
    }

    /// Smallest multiple of the alignment at or above `pos`; `pos` itself
    /// when the alignment is zero.
    pub fn aligned_position(&self, pos: usize) -> (r: usize)
        requires
            align_up(pos as int, self.alignment as int) <= usize::MAX,
        ensures
            r == align_up(pos as int, self.alignment as int),
            self.alignment > 0 ==> r % self.alignment == 0 && pos <= r < pos + self.alignment,
    {
        proof {
            if self.alignment > 0 {
                lemma_align_up(pos as int, self.alignment as int);
            }
        }
        let a = self.alignment;
        if a == 0 || pos % a == 0 {
            pos
        } else {
            pos + (a - pos % a)
        }
    }

    /// The aligned start inside block `b`, when `size` cells fit there.
    fn fit_in_block(&self, b: (usize, usize), size: usize) -> (r: Option<usize>)
        requires
            b.0 + b.1 <= usize::MAX,
        ensures
            r is Some <==> block_fits(b, size as int, self.alignment as int),
            r is Some ==> r->0 == align_up(b.0 as int, self.alignment as int),
    {
        let a = self.alignment;
        let end = b.0 + b.1;
        if a == 0 || b.0 % a == 0 {
            if size <= b.1 {
                Some(b.0)
            } else {
                None
            }
        } else {
            let pad = a - b.0 % a;
            if pad > b.1 {
                None
            } else {
                let start = b.0 + pad;
                if size <= end - start {
                    Some(start)
                } else {
                    None
                }
            }
        }
    }

    /// First fit: the index and aligned start of the first free block that
    /// can take `size` cells.
    fn first_fit(&self, size: usize) -> (r: Option<(usize, usize)>)
        requires
            self.free_list.wf(),
        ensures
            r is None ==> no_fit(self.free_list.inner@, size as int, self.alignment as int),
            r matches Some(p) ==> is_first_fit(
                self.free_list.inner@,
                size as int,
                self.alignment as int,
                p.0 as int,
            ) && p.1 == align_up(
                self.free_list.inner@[p.0 as int].0 as int,
                self.alignment as int,
            ),
    {
        let mut i: usize = 0;
        while i < self.free_list.inner.len()
            invariant
                i <= self.free_list.inner.len(),
                self.free_list.wf(),
                forall|j: int|
                    0 <= j < i ==> !block_fits(
                        self.free_list.inner@[j],
                        size as int,
                        self.alignment as int,
                    ),
            decreases self.free_list.inner.len() - i,
        {
            let b = self.free_list.inner[i];
            match self.fit_in_block(b, size) {
                Some(start) => {
                    return Some((i, start));
                },
                None => {},
            }
            i = i + 1;
        }
        None
    }

    /// The aligned start of the first free block that can take `size`
    /// cells, or `OutOfMemory`.
    pub fn find_free_block(&self, size: usize) -> (r: Result<ObjectAddress, HeapError>)
        requires
            self.free_list.wf(),
        ensures
            r == Err::<ObjectAddress, HeapError>(HeapError::OutOfMemory) <==> no_fit(
                self.free_list.inner@,
                size as int,
                self.alignment as int,
            ),
            r is Ok <==> !no_fit(self.free_list.inner@, size as int, self.alignment as int),
            r matches Ok(a) ==> exists|i: int|
                is_first_fit(self.free_list.inner@, size as int, self.alignment as int, i) && a
                    == align_up(self.free_list.inner@[i].0 as int, self.alignment as int),
    {
        match self.first_fit(size) {
            Some(p) => Ok(p.1),
            None => Err(HeapError::OutOfMemory),
        }
    }

    /// Sets the status of the cells `start..start + size` that exist.
    fn update_memory_status(&mut self, start: usize, size: usize, status: Status)
        requires
            start + size <= usize::MAX,
        ensures
            final(self).memory@.len() == old(self).memory@.len(),
            forall|x: int|
                0 <= x < old(self).memory@.len() ==> final(self).memory@[x] == (if start <= x < start
                    + size {
                    Memory { status }
                } else {
                    old(self).memory@[x]
                }),
            final(self).objects == old(self).objects,
            final(self).roots == old(self).roots,
            final(self).free_list == old(self).free_list,
            final(self).alignment == old(self).alignment,
    {
        let ghost before = self.memory@;
        let mut offset: usize = 0;
        while offset < size
            invariant
                offset <= size,
                start + size <= usize::MAX,
                self.memory@.len() == before.len(),
                forall|x: int|
                    0 <= x < before.len() ==> self.memory@[x] == (if start <= x < start + offset {
                        Memory { status }
                    } else {
                        before[x]
                    }),
                self.objects == old(self).objects,
                self.roots == old(self).roots,
                self.free_list == old(self).free_list,
                self.alignment == old(self).alignment,
            decreases size - offset,
        {
            if start + offset < self.memory.len() {
                self.memory.set(start + offset, Memory { status });
            }
            offset = offset + 1;
        }
    }

    /// Sum of the free block lengths.
    pub fn calculate_free_memory(&self) -> (r: usize)
        requires
            total_length(self.free_list.inner@) <= usize::MAX,
        ensures
            r == total_length(self.free_list.inner@),
    {
        let ghost s = self.free_list.inner@;
        let mut sum: usize = 0;
        let mut i: usize = 0;
        while i < self.free_list.inner.len()
            invariant
                i <= s.len(),
                s == self.free_list.inner@,
                total_length(s) <= usize::MAX,
                sum == total_length(s.subrange(0, i as int)),
            decreases s.len() - i,
        {
            proof {
                crate::free_list::lemma_total_length_prefix(s, i + 1);
                assert(s.subrange(0, i + 1).drop_last() =~= s.subrange(0, i as int));
            }
            sum = sum + self.free_list.inner[i].1;
            i = i + 1;
        }
        assert(s.subrange(0, i as int) =~= s);
        sum
    }


    /// Allocates an object of `size` cells rounded up to the alignment: the
    /// first free block whose aligned start leaves room for it gives up
    /// those cells (the runs before and after them stay free), an empty
    /// object of that size is registered at the aligned start and its cells
    /// are marked allocated. `OutOfMemory`, with nothing changed, when no
    /// block has room.
    pub fn allocate_object(&mut self, size: usize) -> (r: Result<ObjectAddress, HeapError>)
        requires
            old(self).wf(),
            size > 0,
            align_up(size as int, old(self).alignment as int) <= usize::MAX,
        ensures
            final(self).wf(),
            final(self).alignment == old(self).alignment,
            final(self).roots == old(self).roots,
            r is Err <==> no_fit(
                old(self).free_list.inner@,
                align_up(size as int, old(self).alignment as int),
                old(self).alignment as int,
            ),
            r is Err ==> r == Err::<ObjectAddress, HeapError>(HeapError::OutOfMemory) && final(self).free_list
                == old(self).free_list && final(self).objects == old(self).objects && final(self).memory
                == old(self).memory,
            r matches Ok(a) ==> {
                let n = align_up(size as int, old(self).alignment as int);
                let s = old(self).free_list.inner@;
                &&& exists|i: int|
                    is_first_fit(s, n, old(self).alignment as int, i) && a == align_up(
                        s[i].0 as int,
                        old(self).alignment as int,
                    ) && final(self).free_list.inner@ == carve(s, i, a as int, a + n)
                &&& total_length(final(self).free_list.inner@) == total_length(s) - n
                &&& final(self).objects@.dom() == old(self).objects@.dom().insert(a)
                &&& forall|k: ObjectAddress|
                    k != a && #[trigger] old(self).objects@.contains_key(k) ==> final(self).objects@[k]
                        == old(self).objects@[k]
                &&& final(self).objects@[a]@ == (ObjectView {
                    ident: Seq::<char>::empty(),
                    value: None,
                    header: ObjectHeader {
                        size: n as usize,
                        next: None,
                        marked: TriColor::White,
                    },
                    addr: a,
                    references: Set::<ObjectAddress>::empty(),
                    fields: Seq::<Field>::empty(),
                })
                &&& final(self).memory@.len() == old(self).memory@.len()
                &&& forall|x: int|
                    0 <= x < old(self).memory@.len() ==> final(self).memory@[x] == (if a <= x < a + n {
                        Memory { status: Status::Allocated }
                    } else {
                        old(self).memory@[x]
                    })
            },
            r matches Ok(a) ==> old(self).alignment > 0 ==> a % old(self).alignment == 0,
            laid_out(*old(self)) ==> laid_out(*final(self)),
    {
        let ghost h0 = *self;
        let aligned_size = self.aligned_position(size);
        let (i, address) = match self.first_fit(aligned_size) {
            Some(p) => p,
            None => {
                return Err(HeapError::OutOfMemory);
            },
        };
        proof {
            if self.alignment > 0 {
                lemma_align_up(self.free_list.inner@[i as int].0 as int, self.alignment as int);
            }
        }
        let ghost old_objects = self.objects@;
        self.free_list.carve(i, address, address + aligned_size);
        let object = Object {
            ident: String::new(),
            value: None,
            header: ObjectHeader { size: aligned_size, next: None, marked: TriColor::White },
            addr: address,
            references: BTreeSet::new(),
            fields: Vec::new(),
        };
        self.objects.insert(address, object);
        self.update_memory_status(address, aligned_size, Status::Allocated);
        proof {
            assert(self.objects@ == old_objects.insert(address, self.objects@[address]));
            assert forall|k: usize| #[trigger] self.objects@.contains_key(k) implies k + object_size(
                self.objects@[k],
            ) <= usize::MAX by {
                if k != address {
                    assert(old_objects.contains_key(k));
                }
            }
            if laid_out(h0) {
                lemma_allocation_laid_out(h0, *self, i as int, address, aligned_size as int);
            }
        }
        Ok(address)
    }

    /// Reads the field at `address` of the live object (lowest address
    /// first) whose span holds `address`: the target of a non-null
    /// reference field; `SegmentFault` for any other field or no field;
    /// `ObjectNotFound` when no live object spans `address`.
    pub fn lookup(&self, address: usize) -> (r: Result<ObjectAddress, HeapError>)
        requires
            self.wf(),
        ensures
            !covered(self.objects@, address as int) ==> r == Err::<ObjectAddress, HeapError>(
                HeapError::ObjectNotFound,
            ),
            forall|k: usize|
                first_cover(self.objects@, address as int, k) ==> r == field_lookup(
                    self.objects@[k],
                    address - k,
                ),
    {
        let keys = object_keys(&self.objects);
        let mut i: usize = 0;
        while i < keys.len()
            invariant
                i <= keys.len(),
                lists_keys(keys@, self.objects@),
                self.wf(),
                forall|j: int|
                    0 <= j < i ==> !covers(keys@[j], self.objects@[keys@[j]], address as int),
            decreases keys.len() - i,
        {
            let k = keys[i];
            assert(self.objects@.contains_key(k));
            let obj = self.objects.get(&k).unwrap();
            let size = obj.size();
            if k <= address && address < k + size {
                proof {
                    assert forall|k2: usize|
                        #[trigger] self.objects@.contains_key(k2) && k2 < k implies !covers(
                        k2,
                        self.objects@[k2],
                        address as int,
                    ) by {
                        let j = keys@.index_of(k2);
                        if j >= i {
                            assert(keys@[j] >= keys@[i as int]) by {
                                if j > i {
                                }
                            }
                        }
                    }
                    assert forall|k3: usize| first_cover(self.objects@, address as int, k3) implies k3
                        == k by {
                        if k3 < k {
                        } else if k < k3 {
                        }
                    }
                }
                let offset = address - k;
                if offset < obj.fields.len() {
                    match obj.fields[offset] {
                        Field::Ref(Address::Ptr(a)) => {
                            return Ok(a);
                        },
                        _ => {
                            return Err(HeapError::SegmentFault);
                        },
                    }
                }
                return Err(HeapError::SegmentFault);
            }
            i = i + 1;
        }
        proof {
            assert forall|k: usize| #[trigger] self.objects@.contains_key(k) implies !covers(
                k,
                self.objects@[k],
                address as int,
            ) by {
                let j = keys@.index_of(k);
            }
        }
        Err(HeapError::ObjectNotFound)
    }


    /// Gives the span of the live object at `addr` back to the free list
    /// (coalescing) and drops it from the live table and the roots.
    pub(crate) fn release(&mut self, addr: ObjectAddress) -> (size: usize)
        requires
            old(self).wf(),
            old(self).objects@.contains_key(addr),
        ensures
            final(self).wf(),
            size == object_size(old(self).objects@[addr]),
            final(self).free_list.inner@ == coalesced(
                with_block(old(self).free_list.inner@, addr, size),
            ),
            final(self).roots@ == old(self).roots@.remove(addr),
            final(self).objects@ == old(self).objects@.remove(addr),
            final(self).memory == old(self).memory,
            final(self).alignment == old(self).alignment,
            laid_out(*old(self)) ==> laid_out(*final(self)),
    {
        let ghost h0 = *self;
        let size = self.objects.get(&addr).unwrap().size();
        self.free_list.insert(addr, size);
        self.roots.remove(&addr);
        self.objects.remove(&addr);
        proof {
            if laid_out(h0) {
                lemma_release_laid_out(h0, *self, addr);
            }
        }
        size
    }

    /// Frees `obj`, found by its address: its span goes back to the free
    /// list (coalescing), and it leaves the live table and the roots.
    /// `FailedToFreed`, with nothing changed, when no live object has that
    /// address.
    pub fn free_object(&mut self, obj: Object) -> (r: Result<(), HeapError>)
        requires
            old(self).wf(),
        ensures
            final(self).wf(),
            r is Ok <==> old(self).objects@.contains_key(obj.addr),
            r is Err ==> r == Err::<(), HeapError>(HeapError::FailedToFreed) && final(self).free_list
                == old(self).free_list && final(self).objects == old(self).objects && final(self).roots
                == old(self).roots,
            r is Ok ==> final(self).free_list.inner@ == coalesced(
                with_block(
                    old(self).free_list.inner@,
                    obj.addr,
                    object_size(old(self).objects@[obj.addr]) as usize,
                ),
            ) && final(self).roots@ == old(self).roots@.remove(obj.addr) && final(self).objects@
                == old(self).objects@.remove(obj.addr),
            final(self).memory == old(self).memory,
            final(self).alignment == old(self).alignment,
            laid_out(*old(self)) ==> laid_out(*final(self)),
    {
        let addr = obj.get_address();
        if self.objects.contains_key(&addr) {
            self.release(addr);
            Ok(())
        } else {
            Err(HeapError::FailedToFreed)
        }
    }

    /// Whether a live object other than the one at `from` overlaps the
    /// `size` cells from `to`.
    fn overlaps_other_object(&self, from: ObjectAddress, to: usize, size: usize) -> (r: bool)
        requires
            self.wf(),
            to + size <= usize::MAX,
        ensures
            r == overlaps_other(self.objects@, from, to as int, size as int),
    {
        let keys = object_keys(&self.objects);
        let mut i: usize = 0;
        while i < keys.len()
            invariant
                i <= keys.len(),
                lists_keys(keys@, self.objects@),
                self.wf(),
                to + size <= usize::MAX,
                forall|j: int|
                    0 <= j < i ==> !(keys@[j] != from && keys@[j] < to + size && to < keys@[j]
                        + object_size(self.objects@[keys@[j]])),
            decreases keys.len() - i,
        {
            let k = keys[i];
            assert(self.objects@.contains_key(k));
            let other = self.objects.get(&k).unwrap().size();
            if k != from && k < to + size && to < k + other {
                return true;
            }
            i = i + 1;
        }
        proof {
            if overlaps_other(self.objects@, from, to as int, size as int) {
                let k = choose|k: usize|
                    #[trigger] self.objects@.contains_key(k) && k != from && k < to + size && to < k
                        + object_size(self.objects@[k]);
                let j = keys@.index_of(k);
            }
        }
        false
    }

    /// Moves the live object at `from` to `to`: `from` is freed (its span
    /// goes back to the free list, coalescing, and it leaves the live table
    /// and the roots), root membership carries over to `to`, the record is
    /// registered unchanged at `to`, and the old span is given to the free
    /// list once more. `SegmentFault` when nothing lives at `from`;
    /// `CannotMoveObject` when the span at `to` would leave the address
    /// range or overlap another live object; otherwise the move succeeds.
    /// Nothing changes on an error.
    pub fn move_object(&mut self, from: usize, to: usize) -> (r: Result<(), HeapError>)
        requires
            old(self).wf(),
        ensures
            final(self).wf(),
            !old(self).objects@.contains_key(from) ==> r == Err::<(), HeapError>(
                HeapError::SegmentFault,
            ),
            old(self).objects@.contains_key(from) ==> {
                let size = object_size(old(self).objects@[from]);
                &&& (r == Err::<(), HeapError>(HeapError::CannotMoveObject) <==> (to + size
                    > usize::MAX || overlaps_other(old(self).objects@, from, to as int, size)))
                &&& (r is Ok <==> (to + size <= usize::MAX && !overlaps_other(
                    old(self).objects@,
                    from,
                    to as int,
                    size,
                )))
            },
            r is Err ==> final(self).free_list == old(self).free_list && final(self).objects
                == old(self).objects && final(self).roots == old(self).roots,
            r is Ok ==> {
                let o = old(self).objects@[from];
                let size = object_size(o) as usize;
                let once = coalesced(with_block(old(self).free_list.inner@, from, size));
                &&& final(self).free_list.inner@ == coalesced(with_block(once, from, size))
                &&& final(self).roots@ == (if old(self).roots@.contains(from) {
                    old(self).roots@.remove(from).insert(to)
                } else {
                    old(self).roots@.remove(from)
                })
                &&& final(self).objects@ == old(self).objects@.remove(from).insert(to, o)
            },
            final(self).memory == old(self).memory,
            final(self).alignment == old(self).alignment,
    {
        if !self.objects.contains_key(&from) {
            return Err(HeapError::SegmentFault);
        }
        let size = self.objects.get(&from).unwrap().size();
        if to > usize::MAX - size || self.overlaps_other_object(from, to, size) {
            return Err(HeapError::CannotMoveObject);
        }
        let is_root = self.roots.contains(&from);
        let ghost o = self.objects@[from];
        let obj = self.objects.remove(&from).unwrap();
        self.free_list.insert(from, size);
        self.roots.remove(&from);
        if is_root {
            self.roots.insert(to);
        }
        let ghost before_insert = self.objects@;
        self.objects.insert(to, obj);
        self.free_list.insert(from, size);
        proof {
            assert forall|k: usize| #[trigger] self.objects@.contains_key(k) implies k + object_size(
                self.objects@[k],
            ) <= usize::MAX by {
                if k != to {
                    assert(before_insert.contains_key(k));
                }
            }
        }
        Ok(())
    }

    /// Every live object's span lies inside the cells.
    fn spans_within_memory(&self) -> (r: bool)
        requires
            self.wf(),
        ensures
            r == forall|k: usize| #[trigger]
                self.objects@.contains_key(k) ==> k + object_size(self.objects@[k])
                    <= self.memory@.len(),
    {
        let keys = object_keys(&self.objects);
        let mut i: usize = 0;
        while i < keys.len()
            invariant
                i <= keys.len(),
                lists_keys(keys@, self.objects@),
                self.wf(),
                forall|j: int|
                    0 <= j < i ==> keys@[j] + object_size(self.objects@[keys@[j]])
                        <= self.memory@.len(),
            decreases keys.len() - i,
        {
            let k = keys[i];
            assert(self.objects@.contains_key(k));
            let size = self.objects.get(&k).unwrap().size();
            if k + size > self.memory.len() {
                return false;
            }
            i = i + 1;
        }
        proof {
            assert forall|k: usize| #[trigger] self.objects@.contains_key(k) implies k + object_size(
                self.objects@[k],
            ) <= self.memory@.len() by {
                let j = keys@.index_of(k);
            }
        }
        true
    }

    /// Sets every cell free.
    fn reset_memory(&mut self) -> (r: Result<(), HeapError>)
        ensures
            r is Ok,
            final(self).memory@.len() == old(self).memory@.len(),
            forall|x: int| 0 <= x < final(self).memory@.len() ==> final(self).memory@[x].status == Status::Free,
            final(self).objects == old(self).objects,
            final(self).roots == old(self).roots,
            final(self).free_list == old(self).free_list,
            final(self).alignment == old(self).alignment,
    {
        let mut i: usize = 0;
        while i < self.memory.len()
            invariant
                i <= self.memory@.len(),
                self.memory@.len() == old(self).memory@.len(),
                forall|x: int| 0 <= x < i ==> self.memory@[x].status == Status::Free,
                self.objects == old(self).objects,
                self.roots == old(self).roots,
                self.free_list == old(self).free_list,
                self.alignment == old(self).alignment,
            decreases self.memory@.len() - i,
        {
            self.memory.set(i, Memory::free());
            i = i + 1;
        }
        Ok(())
    }

    /// Marks the span of every live object allocated; `FailedToAllocated`
    /// when a span runs past the cells, the spans before it (by address)
    /// marked already.
    fn set_memory_cell_allocated(&mut self) -> (r: Result<(), HeapError>)
        requires
            old(self).wf(),
        ensures
            final(self).memory@.len() == old(self).memory@.len(),
            final(self).objects == old(self).objects,
            final(self).roots == old(self).roots,
            final(self).free_list == old(self).free_list,
            final(self).alignment == old(self).alignment,
            r is Ok <==> forall|k: usize| #[trigger]
                old(self).objects@.contains_key(k) ==> k + object_size(old(self).objects@[k])
                    <= old(self).memory@.len(),
            r is Err ==> r == Err::<(), HeapError>(HeapError::FailedToAllocated),
            r is Ok ==> forall|x: int|
                0 <= x < final(self).memory@.len() ==> final(self).memory@[x] == (if covered(
                    old(self).objects@,
                    x,
                ) {
                    Memory { status: Status::Allocated }
                } else {
                    old(self).memory@[x]
                }),
    {
        if !self.spans_within_memory() {
            return Err(HeapError::FailedToAllocated);
        }
        let keys = object_keys(&self.objects);
        let ghost before = self.memory@;
        let mut i: usize = 0;
        while i < keys.len()
            invariant
                i <= keys.len(),
                lists_keys(keys@, self.objects@),
                self.wf(),
                forall|k: usize| #[trigger]
                    self.objects@.contains_key(k) ==> k + object_size(self.objects@[k])
                        <= self.memory@.len(),
                self.memory@.len() == before.len(),
                self.objects == old(self).objects,
                self.roots == old(self).roots,
                self.free_list == old(self).free_list,
                self.alignment == old(self).alignment,
                forall|x: int|
                    0 <= x < before.len() ==> self.memory@[x] == (if exists|j: int|
                        0 <= j < i && #[trigger] covers(keys@[j], self.objects@[keys@[j]], x) {
                        Memory { status: Status::Allocated }
                    } else {
                        before[x]
                    }),
            decreases keys.len() - i,
        {
            let k = keys[i];
            assert(self.objects@.contains_key(k));
            let size = self.objects.get(&k).unwrap().size();
            let ghost mid = self.memory@;
            let mut offset: usize = 0;
            while offset < size
                invariant
                    offset <= size,
                    k + size <= mid.len(),
                    k + size <= usize::MAX,
                    size == object_size(self.objects@[k]),
                    self.memory@.len() == mid.len(),
                    forall|x: int|
                        0 <= x < mid.len() ==> self.memory@[x] == (if k <= x < k + offset {
                            Memory { status: Status::Allocated }
                        } else {
                            mid[x]
                        }),
                    self.objects == old(self).objects,
                    self.roots == old(self).roots,
                    self.free_list == old(self).free_list,
                    self.alignment == old(self).alignment,
                decreases size - offset,
            {
                self.memory.set(k + offset, Memory { status: Status::Allocated });
                offset = offset + 1;
            }
            proof {
                assert forall|x: int| 0 <= x < before.len() implies self.memory@[x] == (if exists|j: int|
                    0 <= j < i + 1 && #[trigger] covers(keys@[j], self.objects@[keys@[j]], x) {
                    Memory { status: Status::Allocated }
                } else {
                    before[x]
                }) by {
                    if covers(keys@[i as int], self.objects@[keys@[i as int]], x) {
                    } else {
                        if exists|j: int|
                            0 <= j < i + 1 && #[trigger] covers(keys@[j], self.objects@[keys@[j]], x) {
                            let j = choose|j: int|
                                0 <= j < i + 1 && #[trigger] covers(keys@[j], self.objects@[keys@[j]], x);
                            assert(j < i);
                        }
                    }
                }
            }
            i = i + 1;
        }
        proof {
            assert forall|x: int| 0 <= x < before.len() implies (exists|j: int|
                0 <= j < keys@.len() && #[trigger] covers(keys@[j], self.objects@[keys@[j]], x))
                == covered(self.objects@, x) by {
                if covered(self.objects@, x) {
                    let k = choose|k: usize| #[trigger] self.objects@.contains_key(k) && covers(k, self.objects@[k], x);
                    let j = keys@.index_of(k);
                    assert(covers(keys@[j], self.objects@[keys@[j]], x));
                }
                if exists|j: int| 0 <= j < keys@.len() && #[trigger] covers(keys@[j], self.objects@[keys@[j]], x) {
                    let j = choose|j: int| 0 <= j < keys@.len() && #[trigger] covers(keys@[j], self.objects@[keys@[j]], x);
                    assert(self.objects@.contains_key(keys@[j]));
                }
            }
        }
        Ok(())
    }

    /// Rebuilds the cell states from the live table: every cell free, then
    /// every live object's span allocated. `FailedToAllocated`, with
    /// nothing changed, when a span runs past the cells.
    pub fn refresh(&mut self) -> (r: Result<(), HeapError>)
        requires
            old(self).wf(),
        ensures
            final(self).objects == old(self).objects,
            final(self).roots == old(self).roots,
            final(self).free_list == old(self).free_list,
            final(self).alignment == old(self).alignment,
            r is Ok <==> forall|k: usize| #[trigger]
                old(self).objects@.contains_key(k) ==> k + object_size(old(self).objects@[k])
                    <= old(self).memory@.len(),
            r is Err ==> r == Err::<(), HeapError>(HeapError::FailedToAllocated) && final(self).memory
                == old(self).memory,
            r is Ok ==> final(self).memory@ == refreshed_cells(
                old(self).memory@.len(),
                old(self).objects@,
            ),
    {
        if !self.spans_within_memory() {
            return Err(HeapError::FailedToAllocated);
        }
        let _ = self.reset_memory();
        let _ = self.set_memory_cell_allocated();
        assert(self.memory@ =~= refreshed_cells(old(self).memory@.len(), old(self).objects@));
        Ok(())
    }


    /// The live object with the highest address, if any.
    pub fn last_object(&self) -> (r: Option<&Object>)
        ensures
            r is None <==> self.objects@.dom().is_empty(),
            r matches Some(o) ==> exists|k: usize|
                #[trigger] self.objects@.contains_key(k) && *o == self.objects@[k] && forall|k2: usize|
                    #[trigger] self.objects@.contains_key(k2) ==> k2 <= k,
    {
        let keys = object_keys(&self.objects);
        if keys.len() == 0 {
            proof {
                if !self.objects@.dom().is_empty() {
                    let k = self.objects@.dom().choose();
                    assert(keys@.contains(k));
                }
            }
            return None;
        }
        let k = keys[keys.len() - 1];
        assert(self.objects@.contains_key(k));
        proof {
            assert forall|k2: usize| #[trigger] self.objects@.contains_key(k2) implies k2 <= k by {
                let j = keys@.index_of(k2);
                if j < keys.len() - 1 {
                }
            }
        }
        self.objects.get(&k)
    }

    /// The first live object (by address) whose own address is above
    /// `addr`, if any.
    pub fn next_object(&self, addr: usize) -> (r: Option<&Object>)
        ensures
            r is None <==> forall|k: usize| #[trigger]
                self.objects@.contains_key(k) ==> self.objects@[k].addr <= addr,
            r matches Some(o) ==> exists|k: usize|
                #[trigger] self.objects@.contains_key(k) && *o == self.objects@[k] && o.addr > addr
                    && forall|k2: usize| #[trigger]
                    self.objects@.contains_key(k2) && k2 < k ==> self.objects@[k2].addr <= addr,
    {
        let keys = object_keys(&self.objects);
        let mut i: usize = 0;
        while i < keys.len()
            invariant
                i <= keys.len(),
                lists_keys(keys@, self.objects@),
                forall|j: int| 0 <= j < i ==> self.objects@[keys@[j]].addr <= addr,
            decreases keys.len() - i,
        {
            let k = keys[i];
            assert(self.objects@.contains_key(k));
            let obj = self.objects.get(&k).unwrap();
            if obj.addr > addr {
                proof {
                    assert forall|k2: usize| #[trigger]
                        self.objects@.contains_key(k2) && k2 < k implies self.objects@[k2].addr
                        <= addr by {
                        let j = keys@.index_of(k2);
                        if j >= i {
                            if j > i {
                            }
                        }
                    }
                }
                return Some(obj);
            }
            i = i + 1;
        }
        proof {
            assert forall|k: usize| #[trigger] self.objects@.contains_key(k) implies self.objects@[k].addr
                <= addr by {
                let j = keys@.index_of(k);
            }
        }
        None
    }

    /// The last live object (by address) whose own address is below `addr`,
    /// if any.
    pub fn prev_object(&self, addr: usize) -> (r: Option<&Object>)
        ensures
            r is None <==> forall|k: usize| #[trigger]
                self.objects@.contains_key(k) ==> self.objects@[k].addr >= addr,
            r matches Some(o) ==> exists|k: usize|
                #[trigger] self.objects@.contains_key(k) && *o == self.objects@[k] && o.addr < addr
                    && forall|k2: usize| #[trigger]
                    self.objects@.contains_key(k2) && k2 > k ==> self.objects@[k2].addr >= addr,
    {
        let keys = object_keys(&self.objects);
        let mut i: usize = keys.len();
        while i > 0
            invariant
                i <= keys.len(),
                lists_keys(keys@, self.objects@),
                forall|j: int| i <= j < keys.len() ==> self.objects@[keys@[j]].addr >= addr,
            decreases i,
        {
            let k = keys[i - 1];
            assert(self.objects@.contains_key(k));
            let obj = self.objects.get(&k).unwrap();
            if obj.addr < addr {
                proof {
                    assert forall|k2: usize| #[trigger]
                        self.objects@.contains_key(k2) && k2 > k implies self.objects@[k2].addr
                        >= addr by {
                        let j = keys@.index_of(k2);
                        if j <= i - 1 {
                            if j < i - 1 {
                            }
                        }
                    }
                }
                return Some(obj);
            }
            i = i - 1;
        }
        proof {
            assert forall|k: usize| #[trigger] self.objects@.contains_key(k) implies self.objects@[k].addr
                >= addr by {
                let j = keys@.index_of(k);
            }
        }
        None
    }


    /// The aligned start of the block `(start, len)` when it lies inside
    /// the block, `None` otherwise.
    pub fn aligned_position_in(&self, start: usize, len: usize) -> (r: Option<usize>)
        requires
            start + len <= usize::MAX,
        ensures
            r is Some <==> align_up(start as int, self.alignment as int) <= start + len,
            r matches Some(p) ==> p == align_up(start as int, self.alignment as int),
    {
        let a = self.alignment;
        if a == 0 || start % a == 0 {
            Some(start)
        } else {
            let pad = a - start % a;
            if pad > len {
                None
            } else {
                Some(start + pad)
            }
        }
    }


    /// Whether the heap is well formed: the free list ordered, coalesced and
    /// inside the address range, every live object's span inside it too.
    /// Callers outside the verified code test this before the operations
    /// that require it.
    pub fn is_well_formed(&self) -> (r: bool)
        ensures
            r == self.wf(),
    {
        let n = self.free_list.inner.len();
        let mut i: usize = 0;
        while i < n
            invariant
                i <= n,
                n == self.free_list.inner@.len(),
                forall|k: int| 0 <= k < i ==> #[trigger] self.free_list.inner@[k].0 + self.free_list.inner@[k].1 <= usize::MAX,
                forall|k: int|
                    0 <= k < i - 1 ==> #[trigger] self.free_list.inner@[k].0 + self.free_list.inner@[k].1
                        < self.free_list.inner@[k + 1].0,
            decreases n - i,
        {
            let b = self.free_list.inner[i];
            if b.1 > usize::MAX - b.0 {
                return false;
            }
            if i > 0 {
                let p = self.free_list.inner[i - 1];
                if p.0 + p.1 >= b.0 {
                    assert(!separated(self.free_list.inner@)) by {
                        assert(self.free_list.inner@[i - 1].0 + self.free_list.inner@[i - 1].1 >= self.free_list.inner@[i as int].0);
                    }
                    return false;
                }
            }
            i = i + 1;
        }
        proof {
            let s = self.free_list.inner@;
            assert forall|a: int, b: int| 0 <= a < b < s.len() implies s[a].0 + s[a].1 < s[b].0 by {
                lemma_chain_separated(s, a, b);
            }
            assert forall|a: int, b: int| 0 <= a < b < s.len() implies s[a].0 < s[b].0 by {
                lemma_chain_separated(s, a, b);
            }
        }
        let keys = object_keys(&self.objects);
        let mut j: usize = 0;
        while j < keys.len()
            invariant
                j <= keys.len(),
                lists_keys(keys@, self.objects@),
                forall|m: int|
                    0 <= m < j ==> keys@[m] + object_size(self.objects@[keys@[m]]) <= usize::MAX,
            decreases keys.len() - j,
        {
            let k = keys[j];
            assert(self.objects@.contains_key(k));
            let o = self.objects.get(&k).unwrap();
            let fits = match o.fields.len().checked_mul(8) {
                Some(words) => match words.checked_add(o.header.size) {
                    Some(size) => size <= usize::MAX - k,
                    None => false,
                },
                None => false,
            };
            if !fits {
                return false;
            }
            j = j + 1;
        }
        proof {
            assert forall|k: usize| #[trigger] self.objects@.contains_key(k) implies k + object_size(
                self.objects@[k],
            ) <= usize::MAX by {
                let m = keys@.index_of(k);
            }
        }
        true
    }

    /// Coalesces the free list.
    pub fn merge_free_ranges(&mut self) -> (r: Result<(), HeapError>)
        requires
            old(self).free_list.wf(),
        ensures
            r is Ok,
            final(self).free_list.wf(),
            final(self).free_list.inner@ == coalesced(old(self).free_list.inner@),
            final(self).objects == old(self).objects,
            final(self).roots == old(self).roots,
            final(self).memory == old(self).memory,
            final(self).alignment == old(self).alignment,
    {
        self.free_list.merge_adjacent_block();
        Ok(())
    }
}

} // verus!
