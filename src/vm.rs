use vstd::prelude::*;

use crate::gc::{
    color_of, has_dangling, paint_white, reachable_set, recolor, same_but_colors, set_color, swept,
    targets_of, GarbageCollector, TriColor,
};
use crate::heap::{Heap, HeapError};
use crate::mem::Status;
use crate::object::{object_size, points_to, Object, ObjectAddress, ObjectTrait, TypeValue};

verus! {

#[derive(Debug, PartialEq, Eq, Structural, Clone, Copy)]
pub enum VMError {
    StackOverflow,
    StackUnderflow,
    InvalidRangeOfThreshold,
    AllocationFailed,
}

/// An entry of the machine's journal.
#[derive(Debug, PartialEq, Eq, Structural, Clone, Copy, Default)]
pub enum OpCode {
    #[default]
    Halt,
    Pop,
    Push(TypeValue),
    /// Address and size of an object that was scanned.
    Mark(usize, usize),
    Sweep,
}

/// A ratio `numerator / denominator`.
#[derive(Debug, PartialEq, Eq, Structural, Clone, Copy)]
pub struct Fraction {
    pub numerator: u64,
    pub denominator: u64,
}

impl Fraction {
    pub fn new(numerator: u64, denominator: u64) -> (r: Self)
        ensures
            r.numerator == numerator,
            r.denominator == denominator,
    {
        Fraction { numerator, denominator }
    }
}

/// The fraction lies strictly between 0 and 100.
pub open spec fn threshold_in_range(f: Fraction) -> bool {
    f.denominator > 0 && 0 < f.numerator && f.numerator < 100 * f.denominator
}

/// `max_stack_size × fraction`, rounded down, at most the largest `usize`.
pub open spec fn threshold_cells(max_stack_size: int, f: Fraction) -> int {
    let t = max_stack_size * f.numerator / f.denominator as int;
    if t > usize::MAX {
        usize::MAX as int
    } else {
        t
    }
}

/// A stack machine whose objects live in a heap managed by a collector.
#[derive(Debug, PartialEq)]
pub struct VirtualMachine {
    pub heap: Heap,
    pub stack: Vec<Object>,
    pub op_codes: Vec<OpCode>,
    pub max_stack_size: usize,
    pub threshold: usize,
    pub num_objects: usize,
    pub first_object: Option<Object>,
    pub gc: GarbageCollector,
}

/// `first` is the first object of the stack, copied.
pub open spec fn first_of(stack: Seq<Object>, first: Option<Object>) -> bool {
    if stack.len() == 0 {
        first is None
    } else {
        first matches Some(o) && o@ == stack[0]@
    }
}

/// `after` holds the objects of `before`, copied.
pub open spec fn same_objects(before: Seq<Object>, after: Seq<Object>) -> bool {
    &&& after.len() == before.len()
    &&& forall|i: int| 0 <= i < before.len() ==> #[trigger] after[i]@ == before[i]@
}

impl VirtualMachine {
    /// A machine with an empty stack of at most `max_stack_size` objects, a
    /// collection threshold of `max_stack_size × threshold` (rounded down),
    /// and a fresh heap of `heap_size` cells. `InvalidRangeOfThreshold` when
    /// the fraction is not strictly between 0 and 100.
    pub fn new(max_stack_size: usize, threshold: Fraction, heap_size: usize, alignment: usize) -> (r:
        Result<Self, VMError>)
        ensures
            r is Err <==> !threshold_in_range(threshold),
            r is Err ==> r == Err::<Self, VMError>(VMError::InvalidRangeOfThreshold),
            r matches Ok(vm) ==> {
                &&& vm.max_stack_size == max_stack_size
                &&& vm.threshold == threshold_cells(max_stack_size as int, threshold)
                &&& vm.stack@.len() == 0
                &&& vm.op_codes@.len() == 0
                &&& vm.num_objects == 0
                &&& vm.first_object is None
                &&& vm.heap.wf()
                &&& vm.heap.memory@.len() == heap_size
                &&& forall|x: int| 0 <= x < heap_size ==> #[trigger] vm.heap.memory@[x].status == Status::Free
                &&& vm.heap.free_list.inner@ == seq![(0usize, heap_size)]
                &&& vm.heap.objects@.dom().is_empty()
                &&& vm.heap.roots@.is_empty()
                &&& vm.heap.alignment == alignment
                &&& vm.gc == GarbageCollector::default_spec()
            },
    {
        let num = threshold.numerator as u128;
        let den = threshold.denominator as u128;
        if den == 0 || num == 0 || num >= 100 * den {
            return Err(VMError::InvalidRangeOfThreshold);
        }
        let max = max_stack_size as u128;
        assert(max * num <= 0xffff_ffff_ffff_ffff * 0xffff_ffff_ffff_ffff) by (nonlinear_arith)
            requires
                max <= 0xffff_ffff_ffff_ffff,
                num <= 0xffff_ffff_ffff_ffff,
        ;
        let cells = max * num / den;
        let threshold_cells = if cells > usize::MAX as u128 {
            usize::MAX
        } else {
            cells as usize
        };
        Ok(VirtualMachine {
            heap: Heap::new(heap_size, alignment),
            stack: Vec::new(),
            op_codes: Vec::new(),
            max_stack_size,
            threshold: threshold_cells,
            num_objects: 0,
            first_object: None,
            gc: GarbageCollector::default(),
        })
    }

    /// Pushes `obj` and journals `Push` with its value; returns the new
    /// stack length. On a full stack journals `Halt` and fails with
    /// `StackOverflow`, the stack unchanged.
    pub fn push(&mut self, obj: Object) -> (r: Result<usize, VMError>)
        requires
            obj.value is Some,
        ensures
            r is Err <==> old(self).stack@.len() >= old(self).max_stack_size,
            r is Err ==> r == Err::<usize, VMError>(VMError::StackOverflow) && final(self).op_codes@
                == old(self).op_codes@.push(OpCode::Halt) && final(self).stack@ == old(self).stack@
                && final(self).first_object == old(self).first_object && final(self).num_objects
                == old(self).num_objects,
            r matches Ok(n) ==> {
                &&& n == old(self).stack@.len() + 1
                &&& final(self).stack@.len() == n
                &&& same_objects(old(self).stack@, final(self).stack@.drop_last())
                &&& final(self).stack@.last()@ == obj@
                &&& final(self).op_codes@ == old(self).op_codes@.push(OpCode::Push(obj.value->0))
                &&& first_of(final(self).stack@, final(self).first_object)
                &&& final(self).num_objects == n
            },
            final(self).heap == old(self).heap,
            final(self).max_stack_size == old(self).max_stack_size,
            final(self).threshold == old(self).threshold,
            final(self).gc == old(self).gc,
    {
        if self.len() >= self.max_stack_size {
            self.op_codes.push(OpCode::Halt);
            return Err(VMError::StackOverflow);
        }
        let value = obj.value.unwrap();
        let ghost before = self.stack@;
        self.stack.push(obj.clone());
        self.op_codes.push(OpCode::Push(value));
        self.update_first_object();
        self.update_num_object();
        proof {
            assert(self.stack@.drop_last() =~= before);
        }
        Ok(self.len())
    }

    /// Drops the top object and journals `Pop`; returns the new stack
    /// length. On an empty stack journals `Halt` and fails with
    /// `StackUnderflow`.
    pub fn pop(&mut self) -> (r: Result<usize, VMError>)
        ensures
            r is Err <==> old(self).stack@.len() == 0,
            r is Err ==> r == Err::<usize, VMError>(VMError::StackUnderflow) && final(self).op_codes@
                == old(self).op_codes@.push(OpCode::Halt) && final(self).stack@ == old(self).stack@
                && final(self).first_object == old(self).first_object && final(self).num_objects
                == old(self).num_objects,
            r matches Ok(n) ==> {
                &&& n + 1 == old(self).stack@.len()
                &&& final(self).stack@ == old(self).stack@.drop_last()
                &&& final(self).op_codes@ == old(self).op_codes@.push(OpCode::Pop)
                &&& first_of(final(self).stack@, final(self).first_object)
                &&& final(self).num_objects == n
            },
            final(self).heap == old(self).heap,
            final(self).max_stack_size == old(self).max_stack_size,
            final(self).threshold == old(self).threshold,
            final(self).gc == old(self).gc,
    {
        if self.is_empty() {
            self.op_codes.push(OpCode::Halt);
            return Err(VMError::StackUnderflow);
        }
        let _obj = self.stack.pop();
        self.op_codes.push(OpCode::Pop);
        self.update_first_object();
        self.update_num_object();
        Ok(self.len())
    }

    /// Number of objects on the stack.
    pub fn len(&self) -> (r: usize)
        ensures
            r == self.stack@.len(),
    {
        if self.is_empty() {
            return 0;
        }
        self.stack.len()
    }

    pub fn is_empty(&self) -> (r: bool)
        ensures
            r == (self.stack@.len() == 0),
    {
        self.stack.len() == 0
    }

    fn update_num_object(&mut self) -> (r: usize)
        ensures
            final(self).num_objects == final(self).stack@.len(),
            r == final(self).num_objects,
            final(self).stack == old(self).stack,
            final(self).op_codes == old(self).op_codes,
            final(self).first_object == old(self).first_object,
            final(self).heap == old(self).heap,
            final(self).max_stack_size == old(self).max_stack_size,
            final(self).threshold == old(self).threshold,
            final(self).gc == old(self).gc,
    {
        self.num_objects = self.stack.len();
        self.num_objects
    }

    fn update_first_object(&mut self) -> (r: bool)
        ensures
            first_of(final(self).stack@, final(self).first_object),
            r == (final(self).stack@.len() > 0),
            final(self).stack == old(self).stack,
            final(self).op_codes == old(self).op_codes,
            final(self).num_objects == old(self).num_objects,
            final(self).heap == old(self).heap,
            final(self).max_stack_size == old(self).max_stack_size,
            final(self).threshold == old(self).threshold,
            final(self).gc == old(self).gc,
    {
        if self.stack.len() > 0 {
            self.first_object = Some(self.stack[0].clone());
        } else {
            self.first_object = None;
        }
        self.first_object.is_some()
    }


    /// Paints every live object white.
    pub fn init_object(&mut self) -> (r: Option<bool>)
        requires
            old(self).heap.wf(),
        ensures
            r == Some(true),
            final(self).heap.wf(),
            same_but_colors(old(self).heap.objects@, final(self).heap.objects@),
            forall|k: ObjectAddress| #[trigger]
                final(self).heap.objects@.contains_key(k) ==> color_of(final(self).heap.objects@, k)
                    == TriColor::White,
            final(self).heap.roots == old(self).heap.roots,
            final(self).heap.free_list == old(self).heap.free_list,
            final(self).heap.memory == old(self).heap.memory,
            final(self).stack == old(self).stack,
            final(self).op_codes == old(self).op_codes,
    {
        paint_white(&mut self.heap);
        Some(true)
    }

    /// Paints every live root gray; the other objects keep their colors.
    pub fn process_roots(&mut self)
        requires
            old(self).heap.wf(),
        ensures
            final(self).heap.wf(),
            same_but_colors(old(self).heap.objects@, final(self).heap.objects@),
            forall|k: ObjectAddress| #[trigger]
                final(self).heap.objects@.contains_key(k) ==> color_of(final(self).heap.objects@, k)
                    == (if old(self).heap.roots@.contains(k) {
                    TriColor::Gray
                } else {
                    color_of(old(self).heap.objects@, k)
                }),
            final(self).heap.roots == old(self).heap.roots,
            final(self).heap.free_list == old(self).heap.free_list,
            final(self).heap.memory == old(self).heap.memory,
            final(self).stack == old(self).stack,
            final(self).op_codes == old(self).op_codes,
    {
        let mut gc = self.gc;
        gc.mark_roots(&mut self.heap);
    }

    /// Moves the live object at `addr` one color darker. A white one turns
    /// gray and joins `grays`; a gray one turns black, is journaled as
    /// `Mark(addr, size)`, and every white object it refers to turns gray
    /// and joins `grays`; a black one stays, and `true` is returned.
    /// `ObjectNotFound` when the gray object refers to an address where no
    /// object lives, the scan being abandoned. Nothing happens when no
    /// object lives at `addr`.
    pub fn process_object(&mut self, addr: ObjectAddress, grays: &mut Vec<ObjectAddress>) -> (r:
        Result<bool, HeapError>)
        requires
            old(self).heap.wf(),
        ensures
            final(self).heap.wf(),
            same_but_colors(old(self).heap.objects@, final(self).heap.objects@),
            final(self).heap.roots == old(self).heap.roots,
            final(self).heap.free_list == old(self).heap.free_list,
            final(self).heap.memory == old(self).heap.memory,
            final(self).stack == old(self).stack,
            !old(self).heap.objects@.contains_key(addr) ==> r == Ok::<bool, HeapError>(false)
                && final(self).heap.objects@ == old(self).heap.objects@ && final(grays)@ == old(
                grays,
            )@ && final(self).op_codes == old(self).op_codes,
            old(self).heap.objects@.contains_key(addr) && color_of(old(self).heap.objects@, addr)
                == TriColor::Black ==> r == Ok::<bool, HeapError>(true) && final(self).heap.objects@
                == old(self).heap.objects@ && final(grays)@ == old(grays)@ && final(self).op_codes
                == old(self).op_codes,
            old(self).heap.objects@.contains_key(addr) && color_of(old(self).heap.objects@, addr)
                == TriColor::White ==> r == Ok::<bool, HeapError>(false) && final(self).heap.objects@
                == old(self).heap.objects@.insert(
                addr,
                recolor(old(self).heap.objects@[addr], TriColor::Gray),
            ) && final(grays)@ == old(grays)@.push(addr) && final(self).op_codes == old(
                self,
            ).op_codes,
            old(self).heap.objects@.contains_key(addr) && color_of(old(self).heap.objects@, addr)
                == TriColor::Gray ==> {
                let o = old(self).heap.objects@[addr];
                let objs = old(self).heap.objects@;
                &&& (r is Err <==> exists|b: ObjectAddress|
                    #[trigger] points_to(o, b) && !objs.contains_key(b))
                &&& r is Err ==> r == Err::<bool, HeapError>(HeapError::ObjectNotFound)
                &&& r is Ok ==> {
                    &&& r == Ok::<bool, HeapError>(false)
                    &&& final(self).op_codes@ == old(self).op_codes@.push(
                        OpCode::Mark(addr, object_size(o) as usize),
                    )
                    &&& color_of(final(self).heap.objects@, addr) == TriColor::Black
                    &&& forall|k: ObjectAddress| #[trigger]
                        objs.contains_key(k) && k != addr ==> color_of(final(self).heap.objects@, k)
                            == (if points_to(o, k) && color_of(objs, k) == TriColor::White {
                            TriColor::Gray
                        } else {
                            color_of(objs, k)
                        })
                    &&& final(grays)@.subrange(0, old(grays)@.len() as int) == old(grays)@
                    &&& forall|x: ObjectAddress|
                        #[trigger] final(grays)@.contains(x) <==> (old(grays)@.contains(x) || (x
                            != addr && points_to(o, x) && color_of(objs, x) == TriColor::White))
                }
            },
    {
        if !self.heap.objects.contains_key(&addr) {
            return Ok(false);
        }
        let ghost o0 = self.heap.objects@;
        let ghost g0 = grays@;
        let color = self.heap.objects.get(&addr).unwrap().header.marked;
        match color {
            TriColor::Black => Ok(true),
            TriColor::White => {
                set_color(&mut self.heap, addr, TriColor::Gray);
                grays.push(addr);
                proof {
                    assert forall|k: ObjectAddress| #[trigger] self.heap.objects@.contains_key(k) implies k
                        + object_size(self.heap.objects@[k]) <= usize::MAX by {
                        assert(o0.contains_key(k));
                    }
                    assert(self.heap.objects@.dom() =~= o0.dom());
                }
                Ok(false)
            },
            TriColor::Gray => {
                let size = self.heap.objects.get(&addr).unwrap().size();
                let ts = targets_of(self.heap.objects.get(&addr).unwrap());
                set_color(&mut self.heap, addr, TriColor::Black);
                proof {
                    assert(self.heap.objects@.dom() =~= o0.dom());
                    assert forall|k: ObjectAddress| #[trigger] self.heap.objects@.contains_key(k) implies k
                        + object_size(self.heap.objects@[k]) <= usize::MAX by {
                        assert(o0.contains_key(k));
                    }
                }
                self.op_codes.push(OpCode::Mark(addr, size));
                let mut j: usize = 0;
                while j < ts.len()
                    invariant
                        j <= ts.len(),
                        o0 == old(self).heap.objects@,
                        g0 == old(grays)@,
                        o0.contains_key(addr),
                        color_of(o0, addr) == TriColor::Gray,
                        forall|b: ObjectAddress| ts@.contains(b) <==> points_to(o0[addr], b),
                        self.heap.wf(),
                        same_but_colors(o0, self.heap.objects@),
                        self.heap.roots == old(self).heap.roots,
                        self.heap.free_list == old(self).heap.free_list,
                        self.heap.memory == old(self).heap.memory,
                        self.stack == old(self).stack,
                        self.op_codes@ == old(self).op_codes@.push(
                            OpCode::Mark(addr, object_size(o0[addr]) as usize),
                        ),
                        color_of(self.heap.objects@, addr) == TriColor::Black,
                        forall|m: int| 0 <= m < j ==> #[trigger] o0.contains_key(ts@[m]),
                        forall|k: ObjectAddress| #[trigger]
                            o0.contains_key(k) && k != addr ==> color_of(self.heap.objects@, k) == (
                            if ts@.subrange(0, j as int).contains(k) && color_of(o0, k)
                                == TriColor::White {
                                TriColor::Gray
                            } else {
                                color_of(o0, k)
                            }),
                        grays@.subrange(0, g0.len() as int) == g0,
                        grays@.len() >= g0.len(),
                        forall|x: ObjectAddress|
                            #[trigger] grays@.contains(x) <==> (g0.contains(x) || (x != addr
                                && ts@.subrange(0, j as int).contains(x) && color_of(o0, x)
                                == TriColor::White)),
                    decreases ts.len() - j,
                {
                    let b = ts[j];
                    let ghost pre = ts@.subrange(0, j as int);
                    let ghost post = ts@.subrange(0, j + 1);
                    proof {
                        assert(post =~= pre.push(b));
                        assert forall|x: ObjectAddress| post.contains(x) <==> (pre.contains(x) || x == b) by {
                            if post.contains(x) && x != b {
                                let q = post.index_of(x);
                                assert(pre[q] == x);
                            }
                            if pre.contains(x) {
                                let q = pre.index_of(x);
                                assert(post[q] == x);
                            }
                            if x == b {
                                assert(post[j as int] == x);
                            }
                        }
                    }
                    if !self.heap.objects.contains_key(&b) {
                        proof {
                            assert(ts@.contains(b));
                        }
                        return Err(HeapError::ObjectNotFound);
                    }
                    let ghost before = self.heap.objects@;
                    let ghost gb = grays@;
                    if self.heap.objects.get(&b).unwrap().header.marked == TriColor::White {
                        set_color(&mut self.heap, b, TriColor::Gray);
                        grays.push(b);
                        proof {
                            assert(b != addr);
                            assert(!pre.contains(b) || color_of(o0, b) != TriColor::White);
                            assert(grays@.subrange(0, g0.len() as int) =~= gb.subrange(0, g0.len() as int));
                            assert forall|x: ObjectAddress| #[trigger] grays@.contains(x) <==> (gb.contains(x) || x == b) by {
                                if grays@.contains(x) && x != b {
                                    let q = grays@.index_of(x);
                                    assert(gb[q] == x);
                                }
                                if gb.contains(x) {
                                    let q = gb.index_of(x);
                                    assert(grays@[q] == x);
                                }
                                if x == b {
                                    assert(grays@[gb.len() as int] == x);
                                }
                            }
                        }
                    }
                    proof {
                        assert(self.heap.objects@.dom() =~= o0.dom());
                        assert forall|k: ObjectAddress| #[trigger] self.heap.objects@.contains_key(k) implies k
                            + object_size(self.heap.objects@[k]) <= usize::MAX by {
                            assert(before.contains_key(k));
                        }
                    }
                    j = j + 1;
                }
                proof {
                    assert(ts@.subrange(0, j as int) =~= ts@);
                    assert forall|b: ObjectAddress| #[trigger] points_to(o0[addr], b) implies o0.contains_key(b) by {
                        assert(ts@.contains(b));
                        let m = ts@.index_of(b);
                    }
                }
                Ok(false)
            },
        }
    }

    /// Runs a full collection cycle on the heap and journals `Sweep` when it
    /// completes; see `GarbageCollector::collect`.
    pub fn force_collect(&mut self) -> (r: Result<(), HeapError>)
        requires
            old(self).heap.wf(),
        ensures
            final(self).heap.wf(),
            r is Ok <==> !has_dangling(old(self).heap.objects@, old(self).heap.roots@),
            r is Err ==> r == Err::<(), HeapError>(HeapError::ObjectNotFound) && final(self).op_codes
                == old(self).op_codes,
            r is Ok ==> swept(
                old(self).heap.objects@,
                old(self).heap.roots@,
                reachable_set(old(self).heap.objects@, old(self).heap.roots@),
                final(self).heap.objects@,
                final(self).heap.roots@,
            ) && final(self).op_codes@ == old(self).op_codes@.push(OpCode::Sweep),
            final(self).stack == old(self).stack,
    {
        let r = self.gc.collect(&mut self.heap);
        if r.is_ok() {
            self.op_codes.push(OpCode::Sweep);
        }
        r
    }

    /// Replaces the heap by a fresh one of `size` cells with the same
    /// alignment.
    pub fn reset_heap(&mut self, size: usize) -> (r: Option<bool>)
        ensures
            r == Some(true),
            final(self).heap.wf(),
            final(self).heap.memory@.len() == size,
            forall|x: int| 0 <= x < size ==> #[trigger] final(self).heap.memory@[x].status == Status::Free,
            final(self).heap.free_list.inner@ == seq![(0usize, size)],
            final(self).heap.objects@.dom().is_empty(),
            final(self).heap.roots@.is_empty(),
            final(self).heap.alignment == old(self).heap.alignment,
            final(self).stack == old(self).stack,
            final(self).op_codes == old(self).op_codes,
    {
        self.heap = Heap::new(size, self.heap.alignment);
        Some(true)
    }
}

} // verus!
