use vstd::prelude::*;
use vstd::set_lib::{lemma_int_range, lemma_set_disjoint_lens, set_int_range};

use crate::free_list::{blocks_fit, carve, coalesced, is_slot, lemma_coalesced, separated, slot, sorted_by_start, total_length, with_block};
use crate::heap::{covered, covers, lists_keys, Heap};
use crate::object::{object_size, Object, ObjectAddress};

verus! {

/// Cell `x` lies in block `b`.
pub open spec fn in_block(b: (usize, usize), x: int) -> bool {
    b.0 <= x < b.0 + b.1
}

/// The cells of the free blocks.
pub open spec fn free_cells(s: Seq<(usize, usize)>) -> Set<int> {
    Set::new(|x: int| exists|i: int| 0 <= i < s.len() && #[trigger] in_block(s[i], x))
}

/// The cells of the live objects.
pub open spec fn live_cells(objects: Map<ObjectAddress, Object>) -> Set<int> {
    Set::new(|x: int| covered(objects, x))
}

/// No two live objects share a cell.
pub open spec fn spans_disjoint(objects: Map<ObjectAddress, Object>) -> bool {
    forall|a: ObjectAddress, b: ObjectAddress, x: int|
        objects.contains_key(a) && objects.contains_key(b) && a != b ==> !(#[trigger] covers(
            a,
            objects[a],
            x,
        ) && #[trigger] covers(b, objects[b], x))
}

/// The free blocks and the live objects tile the cells: every cell is in
/// exactly one of them, and nothing lies outside the cells.
pub open spec fn laid_out(h: Heap) -> bool {
    &&& h.wf()
    &&& forall|i: int| 0 <= i < h.free_list.inner@.len() ==> #[trigger] h.free_list.inner@[i].1 > 0
    &&& spans_disjoint(h.objects@)
    &&& forall|k: ObjectAddress| #[trigger] h.objects@.contains_key(k) ==> object_size(h.objects@[k]) > 0
    &&& free_cells(h.free_list.inner@).disjoint(live_cells(h.objects@))
    &&& free_cells(h.free_list.inner@) + live_cells(h.objects@) == set_int_range(
        0,
        h.memory@.len() as int,
    )
}

/// Sum of the sizes of the objects at the addresses `ks`.
pub open spec fn sizes_total(objects: Map<ObjectAddress, Object>, ks: Seq<ObjectAddress>) -> int
    decreases ks.len(),
{
    if ks.len() == 0 {
        0
    } else {
        sizes_total(objects, ks.drop_last()) + object_size(objects[ks.last()])
    }
}

proof fn lemma_free_cells_count(s: Seq<(usize, usize)>)
    requires
        separated(s),
    ensures
        free_cells(s).finite(),
        free_cells(s).len() == total_length(s),
    decreases s.len(),
{
    if s.len() == 0 {
        assert(free_cells(s) =~= Set::<int>::empty());
    } else {
        let r = s.drop_last();
        let b = s.last();
        assert(separated(r)) by {
            assert forall|i: int, j: int| 0 <= i < j < r.len() implies r[i].0 + r[i].1 < r[j].0 by {
                assert(r[i] == s[i] && r[j] == s[j]);
            }
        }
        lemma_free_cells_count(r);
        let range = set_int_range(b.0 as int, b.0 + b.1);
        lemma_int_range(b.0 as int, b.0 + b.1);
        assert forall|x: int| #[trigger] free_cells(s).contains(x) <==> (free_cells(r) + range).contains(x) by {
            if free_cells(s).contains(x) {
                let i = choose|i: int| 0 <= i < s.len() && #[trigger] in_block(s[i], x);
                if i < r.len() {
                    assert(in_block(r[i], x));
                }
            }
            if free_cells(r).contains(x) {
                let i = choose|i: int| 0 <= i < r.len() && #[trigger] in_block(r[i], x);
                assert(in_block(s[i], x));
            }
            if range.contains(x) {
                assert(in_block(s[s.len() - 1], x));
            }
        }
        assert(free_cells(s) =~= free_cells(r) + range);
        assert(free_cells(r).disjoint(range)) by {
            assert forall|x: int| free_cells(r).contains(x) implies !range.contains(x) by {
                let i = choose|i: int| 0 <= i < r.len() && #[trigger] in_block(r[i], x);
                assert(s[i].0 + s[i].1 < s[s.len() - 1].0);
            }
        }
        lemma_set_disjoint_lens(free_cells(r), range);
    }
}

/// The cells of the objects at the addresses `ks`.
pub open spec fn cells_of(objects: Map<ObjectAddress, Object>, ks: Seq<ObjectAddress>) -> Set<int> {
    Set::new(
        |x: int| exists|j: int| 0 <= j < ks.len() && #[trigger] covers(ks[j], objects[ks[j]], x),
    )
}

proof fn lemma_cells_of_count(objects: Map<ObjectAddress, Object>, ks: Seq<ObjectAddress>)
    requires
        spans_disjoint(objects),
        ks.no_duplicates(),
        forall|j: int| 0 <= j < ks.len() ==> #[trigger] objects.contains_key(ks[j]),
    ensures
        cells_of(objects, ks).finite(),
        cells_of(objects, ks).len() == sizes_total(objects, ks),
    decreases ks.len(),
{
    if ks.len() == 0 {
        assert(cells_of(objects, ks) =~= Set::<int>::empty());
    } else {
        let r = ks.drop_last();
        let k = ks.last();
        assert forall|j: int| 0 <= j < r.len() implies #[trigger] objects.contains_key(r[j]) by {
            assert(r[j] == ks[j]);
        }
        assert(r.no_duplicates()) by {
            assert forall|i: int, j: int| 0 <= i < r.len() && 0 <= j < r.len() && i != j implies r[i]
                != r[j] by {
                assert(r[i] == ks[i] && r[j] == ks[j]);
            }
        }
        lemma_cells_of_count(objects, r);
        assert(objects.contains_key(ks[ks.len() - 1]));
        let range = set_int_range(k as int, k + object_size(objects[k]));
        lemma_int_range(k as int, k + object_size(objects[k]));
        assert forall|x: int| #[trigger] cells_of(objects, ks).contains(x) <==> (cells_of(objects, r)
            + range).contains(x) by {
            if cells_of(objects, ks).contains(x) {
                let j = choose|j: int| 0 <= j < ks.len() && #[trigger] covers(ks[j], objects[ks[j]], x);
                if j < r.len() {
                    assert(r[j] == ks[j]);
                    assert(covers(r[j], objects[r[j]], x));
                }
            }
            if cells_of(objects, r).contains(x) {
                let j = choose|j: int| 0 <= j < r.len() && #[trigger] covers(r[j], objects[r[j]], x);
                assert(ks[j] == r[j]);
                assert(covers(ks[j], objects[ks[j]], x));
            }
            if range.contains(x) {
                assert(covers(ks[ks.len() - 1], objects[ks[ks.len() - 1]], x));
            }
        }
        assert(cells_of(objects, ks) =~= cells_of(objects, r) + range);
        assert(cells_of(objects, r).disjoint(range)) by {
            assert forall|x: int| cells_of(objects, r).contains(x) implies !range.contains(x) by {
                let j = choose|j: int| 0 <= j < r.len() && #[trigger] covers(r[j], objects[r[j]], x);
                assert(r[j] == ks[j]);
                assert(ks[j] != ks[ks.len() - 1]);
                assert(objects.contains_key(r[j]));
                if range.contains(x) {
                    assert(covers(k, objects[k], x));
                }
            }
        }
        lemma_set_disjoint_lens(cells_of(objects, r), range);
    }
}

/// Conservation: on a heap whose free blocks and live objects tile the
/// cells, the free memory and the sizes of the live objects (listed by
/// address in `ks`) add up to the number of cells.
pub proof fn lemma_conservation(h: Heap, ks: Seq<ObjectAddress>)
    requires
        laid_out(h),
        lists_keys(ks, h.objects@),
    ensures
        total_length(h.free_list.inner@) + sizes_total(h.objects@, ks) == h.memory@.len(),
{
    let objects = h.objects@;
    assert(ks.no_duplicates()) by {
        assert forall|i: int, j: int| 0 <= i < ks.len() && 0 <= j < ks.len() && i != j implies ks[i]
            != ks[j] by {
            if i < j {
                assert(ks[i] < ks[j]);
            } else {
                assert(ks[j] < ks[i]);
            }
        }
    }
    lemma_cells_of_count(objects, ks);
    lemma_free_cells_count(h.free_list.inner@);
    assert forall|x: int| #[trigger] cells_of(objects, ks).contains(x) <==> live_cells(objects).contains(x) by {
        if live_cells(objects).contains(x) {
            let k = choose|k: ObjectAddress| #[trigger] objects.contains_key(k) && covers(k, objects[k], x);
            let j = ks.index_of(k);
            assert(covers(ks[j], objects[ks[j]], x));
        }
        if cells_of(objects, ks).contains(x) {
            let j = choose|j: int| 0 <= j < ks.len() && #[trigger] covers(ks[j], objects[ks[j]], x);
            assert(objects.contains_key(ks[j]));
        }
    }
    assert(cells_of(objects, ks) =~= live_cells(objects));
    lemma_int_range(0, h.memory@.len() as int);
    lemma_set_disjoint_lens(free_cells(h.free_list.inner@), live_cells(objects));
}

/// A heap whose only free block spans all of its cells, with no live
/// object, is laid out.
pub proof fn lemma_fresh_laid_out(h: Heap, n: usize)
    requires
        h.wf(),
        h.memory@.len() == n,
        n > 0,
        h.free_list.inner@ == seq![(0usize, n)],
        h.objects@.dom().is_empty(),
    ensures
        laid_out(h),
{
    let s = h.free_list.inner@;
    assert forall|x: int| #[trigger] free_cells(s).contains(x) <==> set_int_range(0, h.memory@.len() as int).contains(x) by {
        if set_int_range(0, h.memory@.len() as int).contains(x) {
            assert(in_block(s[0], x));
        }
    }
    assert(live_cells(h.objects@) =~= Set::<int>::empty());
    assert(free_cells(s) + live_cells(h.objects@) =~= set_int_range(0, h.memory@.len() as int));
}

/// Taking `a..a + n` out of free block `i` for a new object of `n` cells at
/// `a` keeps a heap laid out.
pub proof fn lemma_allocation_laid_out(h: Heap, h2: Heap, i: int, a: ObjectAddress, n: int)
    requires
        laid_out(h),
        h2.wf(),
        0 <= i < h.free_list.inner@.len(),
        h.free_list.inner@[i].0 <= a,
        a + n <= h.free_list.inner@[i].0 + h.free_list.inner@[i].1,
        n > 0,
        h2.free_list.inner@ == carve(h.free_list.inner@, i, a as int, a + n),
        h2.objects@.dom() == h.objects@.dom().insert(a),
        forall|k: ObjectAddress| k != a && #[trigger] h.objects@.contains_key(k) ==> h2.objects@[k] == h.objects@[k],
        object_size(h2.objects@[a]) == n,
        h2.memory@.len() == h.memory@.len(),
    ensures
        laid_out(h2),
{
    let s = h.free_list.inner@;
    let t = h2.free_list.inner@;
    let o = h.objects@;
    let o2 = h2.objects@;
    let b = s[i];
    let taken = set_int_range(a as int, a + n);
    let left = s.subrange(0, i);
    let right = s.subrange(i + 1, s.len() as int);
    assert forall|x: int| #[trigger] free_cells(t).contains(x) <==> (free_cells(s).contains(x) && !taken.contains(x)) by {
        let pre_len: int = if a > b.0 { 1 } else { 0 };
        let post_len: int = if a + n < b.0 + b.1 { 1 } else { 0 };
        if free_cells(t).contains(x) {
            let j = choose|j: int| 0 <= j < t.len() && #[trigger] in_block(t[j], x);
            if j < i {
                assert(t[j] == s[j]);
                assert(in_block(s[j], x));
                assert(s[j].0 + s[j].1 < s[i].0);
            } else if j < i + pre_len + post_len {
                assert(in_block(s[i], x));
            } else {
                let m = j - pre_len - post_len + 1;
                assert(t[j] == s[m]);
                assert(in_block(s[m], x));
                assert(s[i].0 + s[i].1 < s[m].0);
            }
        }
        if free_cells(s).contains(x) && !taken.contains(x) {
            let j = choose|j: int| 0 <= j < s.len() && #[trigger] in_block(s[j], x);
            if j < i {
                assert(t[j] == s[j]);
                assert(in_block(t[j], x));
            } else if j == i {
                if x < a {
                    assert(in_block(t[i], x));
                } else {
                    assert(in_block(t[i + pre_len], x));
                }
            } else {
                let m = j + pre_len + post_len - 1;
                assert(t[m] == s[j]);
                assert(in_block(t[m], x));
            }
        }
    }
    // the new object's cells were free, so no live object lay there
    assert forall|x: int| taken.contains(x) implies free_cells(s).contains(x) by {
        assert(in_block(s[i], x));
    }
    assert forall|k: ObjectAddress, x: int| #[trigger] o.contains_key(k) && #[trigger] covers(k, o[k], x) implies !taken.contains(x) by {
        assert(live_cells(o).contains(x));
    }
    assert forall|x: int| #[trigger] live_cells(o2).contains(x) <==> (live_cells(o).contains(x) || taken.contains(x)) by {
        if live_cells(o2).contains(x) {
            let k = choose|k: ObjectAddress| #[trigger] o2.contains_key(k) && covers(k, o2[k], x);
            if k != a {
                assert(o.contains_key(k));
                assert(covers(k, o[k], x));
            }
        }
        if live_cells(o).contains(x) {
            let k = choose|k: ObjectAddress| #[trigger] o.contains_key(k) && covers(k, o[k], x);
            if k == a {
                assert(covers(a, o[a], a as int)) by {
                    assert(object_size(o[a]) > 0);
                }
                assert(taken.contains(a as int));
            }
            assert(o2.contains_key(k));
            assert(covers(k, o2[k], x));
        }
        if taken.contains(x) {
            assert(o2.contains_key(a));
            assert(covers(a, o2[a], x));
        }
    }
    assert forall|j: int| 0 <= j < t.len() implies #[trigger] t[j].1 > 0 by {
        let pre_len: int = if a > b.0 { 1 } else { 0 };
        let post_len: int = if a + n < b.0 + b.1 { 1 } else { 0 };
        if j < i {
            assert(t[j] == s[j]);
        } else if j < i + pre_len + post_len {
        } else {
            assert(t[j] == s[j - pre_len - post_len + 1]);
        }
    }
    assert(free_cells(t) =~= free_cells(s).difference(taken));
    assert(live_cells(o2) =~= live_cells(o) + taken);
    assert(free_cells(t) + live_cells(o2) =~= free_cells(s) + live_cells(o));
    assert forall|k1: ObjectAddress, k2: ObjectAddress, x: int|
        o2.contains_key(k1) && o2.contains_key(k2) && k1 != k2 implies !(#[trigger] covers(k1, o2[k1], x)
        && #[trigger] covers(k2, o2[k2], x)) by {
        if covers(k1, o2[k1], x) && covers(k2, o2[k2], x) {
            if k1 == a {
                assert(o.contains_key(k2) && covers(k2, o[k2], x));
            } else if k2 == a {
                assert(o.contains_key(k1) && covers(k1, o[k1], x));
            } else {
                assert(covers(k1, o[k1], x) && covers(k2, o[k2], x));
            }
        }
    }
}

/// Every block holds at least one cell.
pub open spec fn positive_lengths(s: Seq<(usize, usize)>) -> bool {
    forall|i: int| 0 <= i < s.len() ==> #[trigger] s[i].1 > 0
}

/// Blocks may touch but do not overlap.
pub open spec fn non_overlapping(s: Seq<(usize, usize)>) -> bool {
    forall|i: int, j: int| 0 <= i < j < s.len() ==> s[i].0 + s[i].1 <= s[j].0
}

/// Coalescing blocks that do not overlap keeps exactly their cells.
proof fn lemma_coalesced_cells(s: Seq<(usize, usize)>)
    requires
        sorted_by_start(s),
        blocks_fit(s),
        non_overlapping(s),
        positive_lengths(s),
    ensures
        free_cells(coalesced(s)) == free_cells(s),
        positive_lengths(coalesced(s)),
    decreases s.len(),
{
    if s.len() <= 1 {
    } else if s[1].0 <= s[0].0 + s[0].1 {
        let fused = (s[0].0, (s[0].1 + s[1].1 + s[1].0 - (s[0].0 + s[0].1)) as usize);
        let t = seq![fused] + s.subrange(2, s.len() as int);
        assert(forall|k: int| 1 <= k < t.len() ==> t[k] == s[k + 1]);
        assert(sorted_by_start(t)) by {
            assert forall|i: int, j: int| 0 <= i < j < t.len() implies t[i].0 < t[j].0 by {
                if i == 0 {
                    assert(s[0].0 < s[j + 1].0);
                } else {
                    assert(s[i + 1].0 < s[j + 1].0);
                }
            }
        }
        assert(non_overlapping(t)) by {
            assert forall|i: int, j: int| 0 <= i < j < t.len() implies t[i].0 + t[i].1 <= t[j].0 by {
                if i == 0 {
                    assert(s[1].0 + s[1].1 <= s[j + 1].0);
                } else {
                    assert(s[i + 1].0 + s[i + 1].1 <= s[j + 1].0);
                }
            }
        }
        assert(free_cells(t) =~= free_cells(s)) by {
            assert forall|x: int| #[trigger] free_cells(t).contains(x) <==> free_cells(s).contains(x) by {
                if free_cells(t).contains(x) {
                    let j = choose|j: int| 0 <= j < t.len() && #[trigger] in_block(t[j], x);
                    if j == 0 {
                        if x < s[1].0 {
                            assert(in_block(s[0], x));
                        } else {
                            assert(in_block(s[1], x));
                        }
                    } else {
                        assert(in_block(s[j + 1], x));
                    }
                }
                if free_cells(s).contains(x) {
                    let j = choose|j: int| 0 <= j < s.len() && #[trigger] in_block(s[j], x);
                    if j <= 1 {
                        assert(in_block(t[0], x));
                    } else {
                        assert(in_block(t[j - 1], x));
                    }
                }
            }
        }
        lemma_coalesced_cells(t);
    } else {
        let r = s.subrange(1, s.len() as int);
        lemma_coalesced_cells(r);
        let c = coalesced(r);
        assert(coalesced(s) == seq![s[0]] + c);
        assert forall|x: int| #[trigger] free_cells(coalesced(s)).contains(x) <==> free_cells(s).contains(x) by {
            if free_cells(coalesced(s)).contains(x) {
                let j = choose|j: int| 0 <= j < coalesced(s).len() && #[trigger] in_block(coalesced(s)[j], x);
                if j == 0 {
                    assert(in_block(s[0], x));
                } else {
                    assert(in_block(c[j - 1], x));
                    assert(free_cells(c).contains(x));
                    assert(free_cells(r).contains(x));
                    let m = choose|m: int| 0 <= m < r.len() && #[trigger] in_block(r[m], x);
                    assert(in_block(s[m + 1], x));
                }
            }
            if free_cells(s).contains(x) {
                let j = choose|j: int| 0 <= j < s.len() && #[trigger] in_block(s[j], x);
                if j == 0 {
                    assert(in_block(coalesced(s)[0], x));
                } else {
                    assert(in_block(r[j - 1], x));
                    assert(free_cells(r).contains(x));
                    assert(free_cells(c).contains(x));
                    let m = choose|m: int| 0 <= m < c.len() && #[trigger] in_block(c[m], x);
                    assert(in_block(coalesced(s)[m + 1], x));
                }
            }
        }
        assert(free_cells(coalesced(s)) =~= free_cells(s));
        assert forall|i: int| 0 <= i < coalesced(s).len() implies #[trigger] coalesced(s)[i].1 > 0 by {
            if i > 0 {
                assert(coalesced(s)[i] == c[i - 1]);
            }
        }
    }
}

/// Giving back the cells `a..a + size`, none of them free, to a coalesced
/// free list of non-empty blocks adds exactly those cells.
proof fn lemma_give_back(s: Seq<(usize, usize)>, a: usize, size: usize)
    requires
        sorted_by_start(s),
        blocks_fit(s),
        separated(s),
        positive_lengths(s),
        size > 0,
        a + size <= usize::MAX,
        forall|x: int| a <= x < a + size ==> !#[trigger] free_cells(s).contains(x),
    ensures
        free_cells(coalesced(with_block(s, a, size))) == free_cells(s) + set_int_range(a as int, a + size),
        positive_lengths(coalesced(with_block(s, a, size))),
        separated(coalesced(with_block(s, a, size))),
        sorted_by_start(coalesced(with_block(s, a, size))),
        blocks_fit(coalesced(with_block(s, a, size))),
{
    lemma_slot_exists(s, a);
    let i = slot(s, a);
    assert(is_slot(s, a, i));
    let b = (a, size);
    assert(free_cells(s).contains(a as int) == false);
    if i < s.len() && s[i].0 == a {
        assert(in_block(s[i], a as int));
    }
    let t = s.insert(i, b);
    assert(with_block(s, a, size) == t);
    if i > 0 {
        if s[i - 1].0 + s[i - 1].1 > a {
            assert(in_block(s[i - 1], a as int));
        }
    }
    if i < s.len() {
        if s[i].0 < a + size {
            assert(in_block(s[i], s[i].0 as int));
            assert(free_cells(s).contains(s[i].0 as int));
        }
    }
    assert forall|x: int, y: int| 0 <= x < y < t.len() implies t[x].0 + t[x].1 <= t[y].0 && t[x].0
        < t[y].0 by {
        if y < i {
            assert(t[x] == s[x] && t[y] == s[y]);
        } else if y == i {
            assert(t[x] == s[x]);
            if x < i - 1 {
                assert(s[x].0 + s[x].1 < s[i - 1].0);
            }
        } else if x == i {
            assert(t[y] == s[y - 1]);
            if y - 1 > i {
                assert(s[i].0 < s[y - 1].0);
            }
        } else if x < i {
            assert(t[x] == s[x] && t[y] == s[y - 1]);
            assert(s[x].0 + s[x].1 < s[y - 1].0);
        } else {
            assert(t[x] == s[x - 1] && t[y] == s[y - 1]);
            assert(s[x - 1].0 + s[x - 1].1 < s[y - 1].0);
        }
    }
    assert(sorted_by_start(t));
    assert(non_overlapping(t));
    assert forall|x: int| 0 <= x < t.len() implies #[trigger] t[x].0 + t[x].1 <= usize::MAX by {
        if x < i {
            assert(t[x] == s[x]);
        } else if x > i {
            assert(t[x] == s[x - 1]);
        }
    }
    assert forall|x: int| 0 <= x < t.len() implies #[trigger] t[x].1 > 0 by {
        if x < i {
            assert(t[x] == s[x]);
        } else if x > i {
            assert(t[x] == s[x - 1]);
        }
    }
    let range = set_int_range(a as int, a + size);
    assert forall|x: int| #[trigger] free_cells(t).contains(x) <==> (free_cells(s) + range).contains(x) by {
        if free_cells(t).contains(x) {
            let j = choose|j: int| 0 <= j < t.len() && #[trigger] in_block(t[j], x);
            if j < i {
                assert(in_block(s[j], x));
            } else if j > i {
                assert(in_block(s[j - 1], x));
            }
        }
        if free_cells(s).contains(x) {
            let j = choose|j: int| 0 <= j < s.len() && #[trigger] in_block(s[j], x);
            if j < i {
                assert(in_block(t[j], x));
            } else {
                assert(in_block(t[j + 1], x));
            }
        }
        if range.contains(x) {
            assert(in_block(t[i], x));
        }
    }
    assert(free_cells(t) =~= free_cells(s) + range);
    lemma_coalesced_cells(t);
    lemma_coalesced(t);
}

proof fn lemma_slot_exists(s: Seq<(usize, usize)>, a: usize)
    requires
        sorted_by_start(s),
    ensures
        exists|i: int| is_slot(s, a, i),
    decreases s.len(),
{
    if s.len() == 0 {
        assert(is_slot(s, a, 0));
    } else {
        let r = s.drop_last();
        assert(sorted_by_start(r)) by {
            assert forall|i: int, j: int| 0 <= i < j < r.len() implies r[i].0 < r[j].0 by {
                assert(r[i] == s[i] && r[j] == s[j]);
            }
        }
        lemma_slot_exists(r, a);
        let i = choose|i: int| is_slot(r, a, i);
        if s.last().0 < a {
            assert forall|j: int| 0 <= j < s.len() implies s[j].0 < a by {
                if j < s.len() - 1 {
                    assert(s[j].0 < s[s.len() - 1].0);
                }
            }
            assert(is_slot(s, a, s.len() as int));
        } else {
            assert forall|j: int| 0 <= j < i implies s[j].0 < a by {
                assert(r[j] == s[j]);
            }
            if i < r.len() {
                assert(r[i] == s[i]);
            }
            assert(is_slot(s, a, i));
        }
    }
}

/// Freeing the live object at `a` (its span back to the free list, the
/// object out of the table) keeps a heap laid out.
pub proof fn lemma_release_laid_out(h: Heap, h2: Heap, a: ObjectAddress)
    requires
        laid_out(h),
        h.objects@.contains_key(a),
        h2.free_list.inner@ == coalesced(
            with_block(h.free_list.inner@, a, object_size(h.objects@[a]) as usize),
        ),
        h2.objects@ == h.objects@.remove(a),
        h2.memory@.len() == h.memory@.len(),
    ensures
        laid_out(h2),
{
    let s = h.free_list.inner@;
    let o = h.objects@;
    let size = object_size(o[a]) as usize;
    let range = set_int_range(a as int, a + size);
    assert forall|x: int| a <= x < a + size implies !#[trigger] free_cells(s).contains(x) by {
        assert(covers(a, o[a], x));
        assert(live_cells(o).contains(x));
    }
    assert forall|i: int| 0 <= i < s.len() implies #[trigger] s[i].1 > 0 by {
        assert(h.free_list.inner@[i].1 > 0);
    }
    lemma_give_back(s, a, size);
    let o2 = h2.objects@;
    assert forall|x: int| #[trigger] live_cells(o2).contains(x) <==> (live_cells(o).contains(x) && !range.contains(x)) by {
        if live_cells(o2).contains(x) {
            let k = choose|k: ObjectAddress| #[trigger] o2.contains_key(k) && covers(k, o2[k], x);
            assert(o.contains_key(k) && covers(k, o[k], x));
            if range.contains(x) {
                assert(covers(a, o[a], x));
            }
        }
        if live_cells(o).contains(x) && !range.contains(x) {
            let k = choose|k: ObjectAddress| #[trigger] o.contains_key(k) && covers(k, o[k], x);
            assert(k != a);
            assert(o2.contains_key(k) && covers(k, o2[k], x));
        }
    }
    assert forall|x: int| range.contains(x) implies #[trigger] live_cells(o).contains(x) by {
        assert(covers(a, o[a], x));
    }
    assert(live_cells(o2) =~= live_cells(o).difference(range));
    assert(free_cells(h2.free_list.inner@) =~= free_cells(s) + range);
    assert(free_cells(h2.free_list.inner@) + live_cells(o2) =~= free_cells(s) + live_cells(o));
    assert forall|k1: ObjectAddress, k2: ObjectAddress, x: int|
        o2.contains_key(k1) && o2.contains_key(k2) && k1 != k2 implies !(#[trigger] covers(k1, o2[k1], x)
        && #[trigger] covers(k2, o2[k2], x)) by {
        assert(o.contains_key(k1) && o.contains_key(k2));
    }
    assert(h2.free_list.wf());
}

/// Repainting objects keeps a heap laid out.
pub proof fn lemma_recolor_laid_out(h: Heap, h2: Heap)
    requires
        laid_out(h),
        h2.free_list == h.free_list,
        h2.memory@.len() == h.memory@.len(),
        h2.objects@.dom() == h.objects@.dom(),
        forall|k: ObjectAddress| #[trigger]
            h.objects@.contains_key(k) ==> h2.objects@[k].fields@.len() == h.objects@[k].fields@.len()
                && h2.objects@[k].header.size == h.objects@[k].header.size,
    ensures
        laid_out(h2),
{
    let o = h.objects@;
    let o2 = h2.objects@;
    assert forall|k: ObjectAddress, x: int| o.contains_key(k) implies (#[trigger] covers(k, o2[k], x) <==> covers(k, o[k], x)) by {}
    assert(live_cells(o2) =~= live_cells(o)) by {
        assert forall|x: int| #[trigger] live_cells(o2).contains(x) <==> live_cells(o).contains(x) by {
            if live_cells(o2).contains(x) {
                let k = choose|k: ObjectAddress| #[trigger] o2.contains_key(k) && covers(k, o2[k], x);
                assert(o.contains_key(k) && covers(k, o[k], x));
            }
            if live_cells(o).contains(x) {
                let k = choose|k: ObjectAddress| #[trigger] o.contains_key(k) && covers(k, o[k], x);
                assert(o2.contains_key(k) && covers(k, o2[k], x));
            }
        }
    }
    assert forall|k1: ObjectAddress, k2: ObjectAddress, x: int|
        o2.contains_key(k1) && o2.contains_key(k2) && k1 != k2 implies !(#[trigger] covers(k1, o2[k1], x)
        && #[trigger] covers(k2, o2[k2], x)) by {
        assert(o.contains_key(k1) && o.contains_key(k2));
        assert(covers(k1, o2[k1], x) == covers(k1, o[k1], x));
        assert(covers(k2, o2[k2], x) == covers(k2, o[k2], x));
    }
    assert forall|k: ObjectAddress| #[trigger] o2.contains_key(k) implies k + object_size(o2[k]) <= usize::MAX by {
        assert(o.contains_key(k));
    }
}

/// Between two laid-out heaps over the same cells, where the second keeps
/// only cells the first had live, the free cells grow by exactly the live
/// cells that were dropped.
pub proof fn lemma_free_cells_after_release(h: Heap, h2: Heap)
    requires
        laid_out(h),
        laid_out(h2),
        h2.memory@.len() == h.memory@.len(),
        live_cells(h2.objects@).subset_of(live_cells(h.objects@)),
    ensures
        free_cells(h2.free_list.inner@) == free_cells(h.free_list.inner@) + live_cells(
            h.objects@,
        ).difference(live_cells(h2.objects@)),
{
    let f = free_cells(h.free_list.inner@);
    let f2 = free_cells(h2.free_list.inner@);
    let l = live_cells(h.objects@);
    let l2 = live_cells(h2.objects@);
    let n = h.memory@.len() as int;
    assert forall|x: int| #[trigger] f2.contains(x) <==> (f + l.difference(l2)).contains(x) by {
        assert((f + l).contains(x) == set_int_range(0, n).contains(x));
        assert((f2 + l2).contains(x) == set_int_range(0, n).contains(x));
    }
    assert(f2 =~= f + l.difference(l2));
}
} // verus!
