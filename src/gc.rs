use std::collections::BTreeSet;

use vstd::prelude::*;
use vstd::std_specs::iter::IteratorSpec;

use crate::free_list::{coalesced, with_block};
use crate::heap::{covers, object_keys, lists_keys, Heap, HeapError};
use crate::layout::{free_cells, laid_out, lemma_free_cells_after_release, lemma_recolor_laid_out, live_cells};
use crate::object::{object_size, points_to, Address, Field, Object, ObjectAddress, ObjectHeader, ObjectTrait};
use crate::vm::VirtualMachine;

verus! {

/// Marking state of an object during a collection cycle.
#[derive(Debug, PartialEq, Eq, Structural, Clone, Copy, Default)]
pub enum TriColor {
    /// Not discovered yet.
    #[default]
    White,
    /// Discovered, not scanned yet.
    Gray,
    /// Scanned.
    Black,
}

/// A color on its own.
pub struct TriColorGC {
    pub color: TriColor,
}

/// The collection strategy.
#[derive(Debug, PartialEq, Eq, Structural, Clone, Copy, Default)]
pub enum GCType {
    #[default]
    MarkAndSweep,
}

/// Where the collector stands in its cycle.
#[derive(Debug, PartialEq, Eq, Structural, Clone, Copy, Default)]
pub enum GCStatus {
    #[default]
    Idle,
    Marking,
    Sweeping,
}

/// A stop-the-world tri-color mark-and-sweep collector.
#[derive(Debug, PartialEq, Eq, Structural, Clone, Copy)]
pub struct GarbageCollector {
    pub gc_typ: GCType,
    pub gc_status: GCStatus,
}

/// The color of the live object at `k`.
pub open spec fn color_of(objects: Map<ObjectAddress, Object>, k: ObjectAddress) -> TriColor {
    objects[k].header.marked
}

/// `o` painted `c`, nothing else changed.
pub open spec fn recolor(o: Object, c: TriColor) -> Object {
    Object { header: ObjectHeader { marked: c, ..o.header }, ..o }
}

/// `after` holds the objects of `before`, only their colors may differ.
pub open spec fn same_but_colors(
    before: Map<ObjectAddress, Object>,
    after: Map<ObjectAddress, Object>,
) -> bool {
    &&& after.dom() == before.dom()
    &&& forall|k: ObjectAddress| #[trigger]
        before.contains_key(k) ==> after[k] == recolor(before[k], after[k].header.marked)
}

/// `p` is a path of live objects starting at a root, each referring to the
/// next.
pub open spec fn is_path(
    objects: Map<ObjectAddress, Object>,
    roots: Set<ObjectAddress>,
    p: Seq<ObjectAddress>,
) -> bool {
    &&& p.len() > 0
    &&& roots.contains(p[0])
    &&& forall|i: int| 0 <= i < p.len() ==> #[trigger] objects.contains_key(p[i])
    &&& forall|i: int| 0 <= i < p.len() - 1 ==> #[trigger] points_to(objects[p[i]], p[i + 1])
}

/// The live object `b` is reached from a live root along references.
pub open spec fn reachable(
    objects: Map<ObjectAddress, Object>,
    roots: Set<ObjectAddress>,
    b: ObjectAddress,
) -> bool {
    exists|p: Seq<ObjectAddress>| #[trigger] is_path(objects, roots, p) && p.last() == b
}

proof fn lemma_path_extend(
    objects: Map<ObjectAddress, Object>,
    roots: Set<ObjectAddress>,
    a: ObjectAddress,
    b: ObjectAddress,
)
    requires
        reachable(objects, roots, a),
        objects.contains_key(b),
        points_to(objects[a], b),
    ensures
        reachable(objects, roots, b),
{
    let p = choose|p: Seq<ObjectAddress>| #[trigger] is_path(objects, roots, p) && p.last() == a;
    let q = p.push(b);
    assert forall|i: int| 0 <= i < q.len() implies #[trigger] objects.contains_key(q[i]) by {
        if i < p.len() {
            assert(q[i] == p[i]);
        }
    }
    assert forall|i: int| 0 <= i < q.len() - 1 implies #[trigger] points_to(objects[q[i]], q[i + 1]) by {
        if i < p.len() - 1 {
            assert(q[i] == p[i] && q[i + 1] == p[i + 1]);
        } else {
            assert(q[i] == a);
        }
    }
    assert(is_path(objects, roots, q));
}

proof fn lemma_root_reachable(
    objects: Map<ObjectAddress, Object>,
    roots: Set<ObjectAddress>,
    r: ObjectAddress,
)
    requires
        roots.contains(r),
        objects.contains_key(r),
    ensures
        reachable(objects, roots, r),
{
    let p = seq![r];
    assert(is_path(objects, roots, p));
}

/// Some reachable object refers to an address where no object lives.
pub open spec fn has_dangling(
    objects: Map<ObjectAddress, Object>,
    roots: Set<ObjectAddress>,
) -> bool {
    exists|a: ObjectAddress, b: ObjectAddress|
        #[trigger] reachable(objects, roots, a) && #[trigger] points_to(objects[a], b)
            && !objects.contains_key(b)
}

/// Every live object is white, but live roots, which may be gray.
pub open spec fn fresh_marking(
    objects: Map<ObjectAddress, Object>,
    roots: Set<ObjectAddress>,
) -> bool {
    forall|k: ObjectAddress| #[trigger]
        objects.contains_key(k) ==> color_of(objects, k) == TriColor::White || (color_of(objects, k)
            == TriColor::Gray && roots.contains(k))
}

/// What a finished mark phase leaves: the objects of `before`, black where
/// reachable, white elsewhere.
pub open spec fn marked_by_reachability(
    before: Map<ObjectAddress, Object>,
    roots: Set<ObjectAddress>,
    after: Map<ObjectAddress, Object>,
) -> bool {
    &&& same_but_colors(before, after)
    &&& forall|k: ObjectAddress| #[trigger]
        before.contains_key(k) ==> color_of(after, k) == (if reachable(before, roots, k) {
            TriColor::Black
        } else {
            TriColor::White
        })
}

/// Invariant of the tracing loop over the snapshot `g`: colors only
/// changed; gray objects are exactly those on the work list; colored
/// objects are reachable; live roots are colored; black objects (but
/// `busy`, the one being scanned) refer only to live colored objects.
pub open spec fn trace_inv(
    g: Map<ObjectAddress, Object>,
    roots: Set<ObjectAddress>,
    objects: Map<ObjectAddress, Object>,
    work: Seq<ObjectAddress>,
    busy: Option<ObjectAddress>,
) -> bool {
    &&& same_but_colors(g, objects)
    &&& work.no_duplicates()
    &&& forall|i: int| 0 <= i < work.len() ==> #[trigger] objects.contains_key(work[i])
    &&& forall|k: ObjectAddress| #[trigger]
        objects.contains_key(k) ==> (color_of(objects, k) == TriColor::Gray <==> work.contains(k))
    &&& forall|k: ObjectAddress| #[trigger]
        objects.contains_key(k) && color_of(objects, k) != TriColor::White ==> reachable(g, roots, k)
    &&& forall|k: ObjectAddress| #[trigger]
        objects.contains_key(k) && roots.contains(k) ==> color_of(objects, k) != TriColor::White
    &&& forall|a: ObjectAddress, b: ObjectAddress|
        #[trigger] objects.contains_key(a) && color_of(objects, a) == TriColor::Black && busy != Some(a)
            && #[trigger] points_to(g[a], b) ==> objects.contains_key(b) && color_of(objects, b)
            != TriColor::White
}


proof fn lemma_same_but_colors_trans(
    a: Map<ObjectAddress, Object>,
    b: Map<ObjectAddress, Object>,
    c: Map<ObjectAddress, Object>,
)
    requires
        same_but_colors(a, b),
        same_but_colors(b, c),
    ensures
        same_but_colors(a, c),
{
}

/// Reachability only looks at references, which recoloring keeps.
proof fn lemma_reachable_rebase(
    a: Map<ObjectAddress, Object>,
    b: Map<ObjectAddress, Object>,
    roots: Set<ObjectAddress>,
    k: ObjectAddress,
)
    requires
        same_but_colors(a, b),
    ensures
        reachable(a, roots, k) <==> reachable(b, roots, k),
{
    if reachable(a, roots, k) {
        let p = choose|p: Seq<ObjectAddress>| #[trigger] is_path(a, roots, p) && p.last() == k;
        assert forall|i: int| 0 <= i < p.len() - 1 implies #[trigger] points_to(b[p[i]], p[i + 1]) by {
            assert(a.contains_key(p[i]));
            assert(points_to(a[p[i]], p[i + 1]));
        }
        assert(is_path(b, roots, p));
    }
    if reachable(b, roots, k) {
        let p = choose|p: Seq<ObjectAddress>| #[trigger] is_path(b, roots, p) && p.last() == k;
        assert forall|i: int| 0 <= i < p.len() - 1 implies #[trigger] points_to(a[p[i]], p[i + 1]) by {
            assert(b.contains_key(p[i]));
            assert(points_to(b[p[i]], p[i + 1]));
        }
        assert(is_path(a, roots, p));
    }
}

/// The tracing invariant speaks of the same graph whichever coloring of it
/// serves as the snapshot.
proof fn lemma_trace_inv_rebase(
    w: Map<ObjectAddress, Object>,
    g: Map<ObjectAddress, Object>,
    roots: Set<ObjectAddress>,
    objects: Map<ObjectAddress, Object>,
    work: Seq<ObjectAddress>,
)
    requires
        same_but_colors(g, w),
        trace_inv(w, roots, objects, work, None),
    ensures
        trace_inv(g, roots, objects, work, None),
{
    assert forall|k: ObjectAddress| #[trigger] objects.contains_key(k) && color_of(objects, k)
        != TriColor::White implies reachable(g, roots, k) by {
        lemma_reachable_rebase(g, w, roots, k);
    }
    assert forall|a: ObjectAddress, b: ObjectAddress|
        #[trigger] objects.contains_key(a) && color_of(objects, a) == TriColor::Black && None::<
            ObjectAddress,
        > != Some(a) && #[trigger] points_to(g[a], b) implies objects.contains_key(b) && color_of(
        objects,
        b,
    ) != TriColor::White by {
        assert(points_to(w[a], b));
    }
    assert(same_but_colors(g, objects));
}


/// Giving spans back reads only the sizes, which recoloring keeps.
proof fn lemma_reclaimed_recolor(
    s: Seq<(usize, usize)>,
    a: Map<ObjectAddress, Object>,
    b: Map<ObjectAddress, Object>,
    keep: Set<ObjectAddress>,
    ks: Seq<ObjectAddress>,
)
    requires
        same_but_colors(a, b),
        forall|i: int| 0 <= i < ks.len() ==> #[trigger] a.contains_key(ks[i]),
    ensures
        reclaimed(s, a, keep, ks) == reclaimed(s, b, keep, ks),
    decreases ks.len(),
{
    if ks.len() > 0 {
        let r = ks.drop_last();
        assert forall|i: int| 0 <= i < r.len() implies #[trigger] a.contains_key(r[i]) by {
            assert(r[i] == ks[i]);
        }
        lemma_reclaimed_recolor(s, a, b, keep, r);
        assert(a.contains_key(ks[ks.len() - 1]));
        assert(b[ks.last()] == recolor(a[ks.last()], b[ks.last()].header.marked));
    }
}

/// The addresses a set holds, in increasing order.
fn set_elements(s: &BTreeSet<ObjectAddress>) -> (r: Vec<ObjectAddress>)
    ensures
        forall|x: ObjectAddress| r@.contains(x) <==> s@.contains(x),
        r@.no_duplicates(),
{
    let mut r: Vec<ObjectAddress> = Vec::new();
    let ghost xs = vstd::std_specs::btree::spec_btree_keys_iter(s).remaining();
    proof {
        broadcast use vstd::laws_cmp::group_laws_cmp;
    }
    for x in it: s.iter()
        invariant
            it.seq() == xs,
            r@ == it.seq().take(it.index()).map_values(|x: &usize| *x),
    {
        r.push(*x);
    }
    proof {
        vstd::std_specs::btree::axiom_spec_btree_keys_iter(s);
        assert(r@.len() == xs.len());
        assert(r@ =~= xs.unref());
        assert(r@.no_duplicates()) by {
            assert forall|i: int, j: int| 0 <= i < j < r@.len() implies r@[i] != r@[j] by {
                assert(xs[i] != xs[j]);
            }
        }
        assert forall|x: ObjectAddress| r@.contains(x) <==> s@.contains(x) by {
            if r@.contains(x) {
                let i = r@.index_of(x);
                assert(xs.unref().to_set().contains(xs.unref()[i]));
            }
            if s@.contains(x) {
                assert(xs.unref().to_set().contains(x));
            }
        }
    }
    r
}

/// The addresses `o` refers to: its reference set, then its non-null
/// reference fields.
pub(crate) fn targets_of(o: &Object) -> (r: Vec<ObjectAddress>)
    ensures
        forall|b: ObjectAddress| r@.contains(b) <==> points_to(*o, b),
{
    let mut r = set_elements(&o.references);
    let ghost refs = r@;
    let mut i: usize = 0;
    while i < o.fields.len()
        invariant
            i <= o.fields.len(),
            forall|b: ObjectAddress|
                #[trigger] r@.contains(b) <==> (refs.contains(b) || o.fields@.subrange(0, i as int).contains(
                    Field::Ref(Address::Ptr(b)),
                )),
            forall|b: ObjectAddress| refs.contains(b) <==> o.references@.contains(b),
        decreases o.fields.len() - i,
    {
        let ghost before = r@;
        let f = o.fields[i];
        match f {
            Field::Ref(Address::Ptr(a)) => {
                r.push(a);
            },
            _ => {},
        }
        proof {
            let pre = o.fields@.subrange(0, i as int);
            let post = o.fields@.subrange(0, i + 1);
            assert(post =~= pre.push(f));
            assert forall|b: ObjectAddress|
                #[trigger] r@.contains(b) <==> (refs.contains(b) || post.contains(Field::Ref(Address::Ptr(b)))) by {
                let x = Field::Ref(Address::Ptr(b));
                assert(before.contains(b) <==> (refs.contains(b) || pre.contains(x)));
                if post.contains(x) {
                    let j = post.index_of(x);
                    if j < i {
                        assert(pre[j] == x);
                        assert(pre.contains(x));
                        assert(before.contains(b));
                        let m = before.index_of(b);
                        assert(r@[m] == b);
                    } else {
                        assert(f == x);
                        assert(r@[r@.len() - 1] == b);
                    }
                }
                if pre.contains(x) {
                    let j = pre.index_of(x);
                    assert(post[j] == x);
                }
                if refs.contains(b) {
                    let m = before.index_of(b);
                    assert(r@[m] == b);
                }
                if r@.contains(b) {
                    let m = r@.index_of(b);
                    if m < before.len() {
                        assert(before[m] == b);
                    } else {
                        assert(f == x);
                        assert(post[i as int] == x);
                    }
                }
            }
        }
        i = i + 1;
    }
    assert(o.fields@.subrange(0, i as int) =~= o.fields@);
    r
}

/// Paints the live object at `a` with `c`.
pub(crate) fn set_color(heap: &mut Heap, a: ObjectAddress, c: TriColor)
    requires
        old(heap).objects@.contains_key(a),
    ensures
        final(heap).objects@ == old(heap).objects@.insert(a, recolor(old(heap).objects@[a], c)),
        final(heap).roots == old(heap).roots,
        final(heap).free_list == old(heap).free_list,
        final(heap).memory == old(heap).memory,
        final(heap).alignment == old(heap).alignment,
{
    let mut o = heap.objects.remove(&a).unwrap();
    o.header.marked = c;
    heap.objects.insert(a, o);
    assert(heap.objects@ =~= old(heap).objects@.insert(a, recolor(old(heap).objects@[a], c)));
}

proof fn lemma_same_but_colors_spans(before: Map<ObjectAddress, Object>, after: Map<ObjectAddress, Object>)
    requires
        same_but_colors(before, after),
    ensures
        forall|k: ObjectAddress| #[trigger]
            after.contains_key(k) ==> object_size(after[k]) == object_size(before[k]),
        forall|k: ObjectAddress, b: ObjectAddress|
            after.contains_key(k) ==> (#[trigger] points_to(after[k], b) <==> points_to(before[k], b)),
{
}

/// Paints every live object white.
pub fn paint_white(heap: &mut Heap)
    requires
        old(heap).wf(),
    ensures
        final(heap).wf(),
        same_but_colors(old(heap).objects@, final(heap).objects@),
        forall|k: ObjectAddress| #[trigger]
            final(heap).objects@.contains_key(k) ==> color_of(final(heap).objects@, k) == TriColor::White,
        final(heap).roots == old(heap).roots,
        final(heap).free_list == old(heap).free_list,
        final(heap).memory == old(heap).memory,
        final(heap).alignment == old(heap).alignment,
{
    let keys = object_keys(&heap.objects);
    let ghost g = heap.objects@;
    let mut i: usize = 0;
    while i < keys.len()
        invariant
            i <= keys.len(),
            lists_keys(keys@, g),
            same_but_colors(g, heap.objects@),
            forall|j: int| 0 <= j < i ==> color_of(heap.objects@, keys@[j]) == TriColor::White,
            heap.roots == old(heap).roots,
            heap.free_list == old(heap).free_list,
            heap.memory == old(heap).memory,
            heap.alignment == old(heap).alignment,
            g == old(heap).objects@,
        decreases keys.len() - i,
    {
        let k = keys[i];
        assert(heap.objects@.contains_key(k));
        set_color(heap, k, TriColor::White);
        proof {
            assert(heap.objects@.dom() =~= g.dom());
            assert forall|j: int| 0 <= j < i + 1 implies color_of(heap.objects@, keys@[j]) == TriColor::White by {
                if j < i {
                    assert(keys@[j] != k) by {
                        assert(keys@[j] < keys@[i as int]);
                    }
                }
            }
        }
        i = i + 1;
    }
    proof {
        lemma_same_but_colors_spans(g, heap.objects@);
        assert forall|k: ObjectAddress| #[trigger] heap.objects@.contains_key(k) implies color_of(
            heap.objects@,
            k,
        ) == TriColor::White by {
            let j = keys@.index_of(k);
        }
    }
}

/// Paints the live roots gray; returns the list of them.
fn gray_roots(heap: &mut Heap) -> (work: Vec<ObjectAddress>)
    requires
        old(heap).wf(),
        fresh_marking(old(heap).objects@, old(heap).roots@),
    ensures
        final(heap).wf(),
        trace_inv(old(heap).objects@, old(heap).roots@, final(heap).objects@, work@, None),
        forall|k: ObjectAddress| #[trigger]
            final(heap).objects@.contains_key(k) ==> color_of(final(heap).objects@, k) != TriColor::Black,
        final(heap).roots == old(heap).roots,
        final(heap).free_list == old(heap).free_list,
        final(heap).memory == old(heap).memory,
        final(heap).alignment == old(heap).alignment,
{
    let roots = set_elements(&heap.roots);
    let ghost g = heap.objects@;
    let ghost rs = heap.roots@;
    let mut work: Vec<ObjectAddress> = Vec::new();
    let mut i: usize = 0;
    while i < roots.len()
        invariant
            i <= roots.len(),
            forall|x: ObjectAddress| roots@.contains(x) <==> rs.contains(x),
            roots@.no_duplicates(),
            same_but_colors(g, heap.objects@),
            fresh_marking(g, rs),
            heap.roots@ == rs,
            g == old(heap).objects@,
            heap.roots == old(heap).roots,
            heap.free_list == old(heap).free_list,
            heap.memory == old(heap).memory,
            heap.alignment == old(heap).alignment,
            work@.no_duplicates(),
            forall|j: int| 0 <= j < work.len() ==> #[trigger] heap.objects@.contains_key(work@[j]),
            forall|j: int|
                0 <= j < work.len() ==> roots@.subrange(0, i as int).contains(#[trigger] work@[j]),
            forall|k: ObjectAddress| #[trigger]
                heap.objects@.contains_key(k) ==> (color_of(heap.objects@, k) == TriColor::Gray <==> (
                work@.contains(k) || (rs.contains(k) && !roots@.subrange(0, i as int).contains(k)
                    && color_of(g, k) == TriColor::Gray))) && color_of(heap.objects@, k)
                    != TriColor::Black && (color_of(heap.objects@, k) == TriColor::Gray ==> rs.contains(
                k,
            )),
            forall|k: ObjectAddress| #[trigger]
                heap.objects@.contains_key(k) && roots@.subrange(0, i as int).contains(k) ==> color_of(
                    heap.objects@,
                    k,
                ) == TriColor::Gray,
        decreases roots.len() - i,
    {
        let r = roots[i];
        let ghost pre = roots@.subrange(0, i as int);
        let ghost post = roots@.subrange(0, i + 1);
        proof {
            assert(post =~= pre.push(r));
            assert(!pre.contains(r)) by {
                if pre.contains(r) {
                    let j = pre.index_of(r);
                    assert(roots@[j] == roots@[i as int]);
                }
            }
            assert(!work@.contains(r));
            assert forall|x: ObjectAddress| post.contains(x) <==> (pre.contains(x) || x == r) by {
                if post.contains(x) && x != r {
                    let j = post.index_of(x);
                    assert(pre[j] == x);
                }
                if pre.contains(x) {
                    let j = pre.index_of(x);
                    assert(post[j] == x);
                }
                if x == r {
                    assert(post[i as int] == x);
                }
            }
        }
        if heap.objects.contains_key(&r) {
            let ghost w0 = work@;
            set_color(heap, r, TriColor::Gray);
            work.push(r);
            proof {
                assert forall|j: int| 0 <= j < work.len() implies post.contains(#[trigger] work@[j]) by {
                    if j < work.len() - 1 {
                    }
                }
                assert forall|x: ObjectAddress| work@.contains(x) <==> (x == r || w0.contains(x)) by {
                    if work@.contains(x) {
                        let j = work@.index_of(x);
                        if j < w0.len() {
                            assert(w0[j] == x);
                        }
                    }
                    if w0.contains(x) {
                        let j = w0.index_of(x);
                        assert(work@[j] == x);
                    }
                    if x == r {
                        assert(work@[w0.len() as int] == x);
                    }
                }
            }
        }
        assert(heap.objects@.dom() =~= g.dom());
        i = i + 1;
    }
    proof {
        assert forall|k: ObjectAddress| #[trigger] heap.objects@.contains_key(k) && color_of(
            heap.objects@,
            k,
        ) != TriColor::White implies reachable(g, rs, k) by {
            lemma_root_reachable(g, rs, k);
        }
        assert(roots@.subrange(0, i as int) =~= roots@);
        lemma_same_but_colors_spans(g, heap.objects@);
    }
    work
}


proof fn lemma_gray_push(
    g: Map<ObjectAddress, Object>,
    rs: Set<ObjectAddress>,
    objs: Map<ObjectAddress, Object>,
    work: Seq<ObjectAddress>,
    busy: Option<ObjectAddress>,
    b: ObjectAddress,
)
    requires
        trace_inv(g, rs, objs, work, busy),
        objs.contains_key(b),
        color_of(objs, b) == TriColor::White,
        reachable(g, rs, b),
    ensures
        trace_inv(g, rs, objs.insert(b, recolor(objs[b], TriColor::Gray)), work.push(b), busy),
{
    let o2 = objs.insert(b, recolor(objs[b], TriColor::Gray));
    let w2 = work.push(b);
    assert(!work.contains(b));
    assert(o2.dom() =~= objs.dom());
    assert forall|x: ObjectAddress| w2.contains(x) <==> (x == b || work.contains(x)) by {
        if w2.contains(x) {
            let j = w2.index_of(x);
            if j < work.len() {
                assert(work[j] == x);
            }
        }
        if work.contains(x) {
            let j = work.index_of(x);
            assert(w2[j] == x);
        }
        if x == b {
            assert(w2[work.len() as int] == x);
        }
    }
    assert(w2.no_duplicates());
    assert forall|i: int| 0 <= i < w2.len() implies #[trigger] o2.contains_key(w2[i]) by {
        if i < work.len() {
            assert(w2[i] == work[i]);
        }
    }
    assert(same_but_colors(g, o2)) by {
        assert forall|k: ObjectAddress| #[trigger] g.contains_key(k) implies o2[k] == recolor(
            g[k],
            o2[k].header.marked,
        ) by {
            if k == b {
                assert(objs[k] == recolor(g[k], objs[k].header.marked));
            }
        }
    }
}

proof fn lemma_pop_black(
    g: Map<ObjectAddress, Object>,
    rs: Set<ObjectAddress>,
    objs: Map<ObjectAddress, Object>,
    work: Seq<ObjectAddress>,
)
    requires
        trace_inv(g, rs, objs, work, None),
        work.len() > 0,
    ensures
        ({
            let a = work.last();
            &&& objs.contains_key(a)
            &&& color_of(objs, a) == TriColor::Gray
            &&& reachable(g, rs, a)
            &&& trace_inv(
                g,
                rs,
                objs.insert(a, recolor(objs[a], TriColor::Black)),
                work.drop_last(),
                Some(a),
            )
        }),
{
    let a = work.last();
    let w2 = work.drop_last();
    let o2 = objs.insert(a, recolor(objs[a], TriColor::Black));
    assert(objs.contains_key(work[work.len() - 1]));
    assert(work.contains(a));
    assert(o2.dom() =~= objs.dom());
    assert(!w2.contains(a)) by {
        if w2.contains(a) {
            let j = w2.index_of(a);
            assert(work[j] == work[work.len() - 1]);
        }
    }
    assert forall|x: ObjectAddress| work.contains(x) <==> (x == a || w2.contains(x)) by {
        if work.contains(x) {
            let j = work.index_of(x);
            if j < w2.len() {
                assert(w2[j] == x);
            }
        }
        if w2.contains(x) {
            let j = w2.index_of(x);
            assert(work[j] == x);
        }
    }
    assert forall|i: int| 0 <= i < w2.len() implies #[trigger] o2.contains_key(w2[i]) by {
        assert(w2[i] == work[i]);
    }
    assert(same_but_colors(g, o2)) by {
        assert forall|k: ObjectAddress| #[trigger] g.contains_key(k) implies o2[k] == recolor(
            g[k],
            o2[k].header.marked,
        ) by {
            if k == a {
                assert(objs[k] == recolor(g[k], objs[k].header.marked));
            }
        }
    }
}

proof fn lemma_finish_scan(
    g: Map<ObjectAddress, Object>,
    rs: Set<ObjectAddress>,
    objs: Map<ObjectAddress, Object>,
    work: Seq<ObjectAddress>,
    a: ObjectAddress,
)
    requires
        trace_inv(g, rs, objs, work, Some(a)),
        forall|b: ObjectAddress|
            points_to(g[a], b) ==> objs.contains_key(b) && color_of(objs, b) != TriColor::White,
    ensures
        trace_inv(g, rs, objs, work, None),
{
}

/// Once no gray object is left, every object on a path from a root is
/// black.
proof fn lemma_reach_black(
    g: Map<ObjectAddress, Object>,
    roots: Set<ObjectAddress>,
    objects: Map<ObjectAddress, Object>,
    p: Seq<ObjectAddress>,
)
    requires
        trace_inv(g, roots, objects, Seq::<ObjectAddress>::empty(), None),
        is_path(g, roots, p),
    ensures
        objects.contains_key(p.last()),
        color_of(objects, p.last()) == TriColor::Black,
    decreases p.len(),
{
    let k = p.last();
    assert(g.contains_key(p[p.len() - 1]));
    assert(!Seq::<ObjectAddress>::empty().contains(k));
    if p.len() == 1 {
        assert(roots.contains(k));
    } else {
        let q = p.drop_last();
        assert forall|i: int| 0 <= i < q.len() implies #[trigger] g.contains_key(q[i]) by {
            assert(q[i] == p[i]);
        }
        assert forall|i: int| 0 <= i < q.len() - 1 implies #[trigger] points_to(g[q[i]], q[i + 1]) by {
            assert(q[i] == p[i] && q[i + 1] == p[i + 1]);
        }
        lemma_reach_black(g, roots, objects, q);
        let i = p.len() - 2;
        assert(points_to(g[p[i]], p[i + 1]));
    }
}

proof fn lemma_trace_done(
    g: Map<ObjectAddress, Object>,
    roots: Set<ObjectAddress>,
    objects: Map<ObjectAddress, Object>,
)
    requires
        trace_inv(g, roots, objects, Seq::<ObjectAddress>::empty(), None),
    ensures
        marked_by_reachability(g, roots, objects),
        !has_dangling(g, roots),
{
    assert forall|k: ObjectAddress| #[trigger] g.contains_key(k) implies color_of(objects, k) == (if reachable(
        g,
        roots,
        k,
    ) {
        TriColor::Black
    } else {
        TriColor::White
    }) by {
        assert(!Seq::<ObjectAddress>::empty().contains(k));
        if reachable(g, roots, k) {
            let p = choose|p: Seq<ObjectAddress>| #[trigger] is_path(g, roots, p) && p.last() == k;
            lemma_reach_black(g, roots, objects, p);
        }
    }
    assert forall|a: ObjectAddress, b: ObjectAddress|
        #[trigger] reachable(g, roots, a) && #[trigger] points_to(g[a], b) implies g.contains_key(b) by {
        let p = choose|p: Seq<ObjectAddress>| #[trigger] is_path(g, roots, p) && p.last() == a;
        lemma_reach_black(g, roots, objects, p);
    }
}

/// Scans gray objects until none is left: each is painted black and every
/// white object it refers to is painted gray. Stops with `false` as soon as
/// a reference leads to an address where no object lives.
fn trace(heap: &mut Heap, work: Vec<ObjectAddress>, Ghost(g): Ghost<Map<ObjectAddress, Object>>) -> (ok: bool)
    requires
        old(heap).wf(),
        trace_inv(g, old(heap).roots@, old(heap).objects@, work@, None),
        forall|k: ObjectAddress| #[trigger]
            old(heap).objects@.contains_key(k) ==> color_of(old(heap).objects@, k) != TriColor::Black,
    ensures
        final(heap).wf(),
        same_but_colors(g, final(heap).objects@),
        ok ==> marked_by_reachability(g, old(heap).roots@, final(heap).objects@),
        ok <==> !has_dangling(g, old(heap).roots@),
        final(heap).roots == old(heap).roots,
        final(heap).free_list == old(heap).free_list,
        final(heap).memory == old(heap).memory,
        final(heap).alignment == old(heap).alignment,
{
    let ghost rs = heap.roots@;
    let mut work = work;
    let ghost mut blacks: Set<ObjectAddress> = Set::empty();
    proof {
        assert(old(heap).objects@.dom().finite());
        assert(g.dom() == heap.objects@.dom());
    }
    while work.len() > 0
        invariant
            heap.wf(),
            trace_inv(g, rs, heap.objects@, work@, None),
            heap.roots@ == rs,
            heap.roots == old(heap).roots,
            heap.free_list == old(heap).free_list,
            heap.memory == old(heap).memory,
            heap.alignment == old(heap).alignment,
            g.dom().finite(),
            blacks.finite(),
            blacks.subset_of(g.dom()),
            forall|k: ObjectAddress|
                blacks.contains(k) <==> (heap.objects@.contains_key(k) && #[trigger] color_of(
                    heap.objects@,
                    k,
                ) == TriColor::Black),
        decreases g.dom().len() - blacks.len(),
    {
        let ghost w0 = work@;
        let ghost o0 = heap.objects@;
        proof {
            lemma_pop_black(g, rs, o0, w0);
        }
        let a = work.pop().unwrap();
        assert(work@ =~= w0.drop_last());
        set_color(heap, a, TriColor::Black);
        proof {
            lemma_same_but_colors_spans(g, heap.objects@);
            vstd::set_lib::lemma_len_subset(blacks.insert(a), g.dom());
            blacks = blacks.insert(a);
        }
        let oa = heap.objects.get(&a).unwrap();
        assert(*oa == heap.objects@[a]);
        let ts = targets_of(oa);
        proof {
            assert forall|b: ObjectAddress| ts@.contains(b) <==> points_to(g[a], b) by {
                assert(points_to(heap.objects@[a], b) <==> points_to(g[a], b));
            }
        }
        let mut j: usize = 0;
        while j < ts.len()
            invariant
                j <= ts.len(),
                heap.wf(),
                trace_inv(g, rs, heap.objects@, work@, Some(a)),
                heap.objects@.contains_key(a),
                color_of(heap.objects@, a) == TriColor::Black,
                reachable(g, rs, a),
                forall|b: ObjectAddress| ts@.contains(b) <==> points_to(g[a], b),
                forall|m: int|
                    0 <= m < j ==> heap.objects@.contains_key(#[trigger] ts@[m]) && color_of(
                        heap.objects@,
                        ts@[m],
                    ) != TriColor::White,
                heap.roots@ == rs,
                heap.roots == old(heap).roots,
                heap.free_list == old(heap).free_list,
                heap.memory == old(heap).memory,
                heap.alignment == old(heap).alignment,
                g.dom().finite(),
                blacks.finite(),
                blacks.subset_of(g.dom()),
                forall|k: ObjectAddress|
                    blacks.contains(k) <==> (heap.objects@.contains_key(k) && #[trigger] color_of(
                        heap.objects@,
                        k,
                    ) == TriColor::Black),
            decreases ts.len() - j,
        {
            let b = ts[j];
            if !heap.objects.contains_key(&b) {
                proof {
                    assert(ts@.contains(b));
                    assert(points_to(g[a], b));
                    assert(!g.contains_key(b));
                }
                return false;
            }
            if heap.objects.get(&b).unwrap().header.marked == TriColor::White {
                proof {
                    assert(ts@.contains(b));
                    assert(points_to(g[a], b));
                    lemma_path_extend(g, rs, a, b);
                    lemma_gray_push(g, rs, heap.objects@, work@, Some(a), b);
                }
                set_color(heap, b, TriColor::Gray);
                work.push(b);
                proof {
                    lemma_same_but_colors_spans(g, heap.objects@);
                }
            }
            j = j + 1;
        }
        proof {
            assert forall|b: ObjectAddress| points_to(g[a], b) implies heap.objects@.contains_key(b)
                && color_of(heap.objects@, b) != TriColor::White by {
                assert(ts@.contains(b));
                let m = ts@.index_of(b);
            }
            lemma_finish_scan(g, rs, heap.objects@, work@, a);
        }
    }
    proof {
        assert(work@ =~= Seq::<ObjectAddress>::empty());
        lemma_trace_done(g, rs, heap.objects@);
    }
    true
}

/// The free list once the spans of the objects listed in `ks` and not in
/// `keep` have been given back to it one after another, in the order of
/// `ks`.
pub open spec fn reclaimed(
    s: Seq<(usize, usize)>,
    objects: Map<ObjectAddress, Object>,
    keep: Set<ObjectAddress>,
    ks: Seq<ObjectAddress>,
) -> Seq<(usize, usize)>
    decreases ks.len(),
{
    if ks.len() == 0 {
        s
    } else {
        let prev = reclaimed(s, objects, keep, ks.drop_last());
        let k = ks.last();
        if keep.contains(k) {
            prev
        } else {
            coalesced(with_block(prev, k, object_size(objects[k]) as usize))
        }
    }
}

/// The addresses of the black objects.
pub open spec fn black_set(objects: Map<ObjectAddress, Object>) -> Set<ObjectAddress> {
    Set::new(|k: ObjectAddress| objects.contains_key(k) && color_of(objects, k) == TriColor::Black)
}

/// The addresses reachable from the roots.
pub open spec fn reachable_set(
    objects: Map<ObjectAddress, Object>,
    roots: Set<ObjectAddress>,
) -> Set<ObjectAddress> {
    Set::new(|k: ObjectAddress| reachable(objects, roots, k))
}

/// A sweep only drops cells from the live set.
proof fn lemma_swept_live_subset(
    before: Map<ObjectAddress, Object>,
    roots_before: Set<ObjectAddress>,
    keep: Set<ObjectAddress>,
    after: Map<ObjectAddress, Object>,
    roots_after: Set<ObjectAddress>,
)
    requires
        swept(before, roots_before, keep, after, roots_after),
    ensures
        live_cells(after).subset_of(live_cells(before)),
{
    assert forall|x: int| live_cells(after).contains(x) implies live_cells(before).contains(x) by {
        let k = choose|k: ObjectAddress| #[trigger] after.contains_key(k) && covers(k, after[k], x);
        assert(before.contains_key(k) && covers(k, before[k], x));
    }
}

/// What a sweep leaves, given the objects and roots before it and the set
/// `keep` of addresses that survive: survivors painted white, the others
/// gone from the table and the roots.
pub open spec fn swept(
    before: Map<ObjectAddress, Object>,
    roots_before: Set<ObjectAddress>,
    keep: Set<ObjectAddress>,
    after: Map<ObjectAddress, Object>,
    roots_after: Set<ObjectAddress>,
) -> bool {
    &&& forall|k: ObjectAddress|
        #[trigger] after.contains_key(k) <==> before.contains_key(k) && keep.contains(k)
    &&& forall|k: ObjectAddress| #[trigger]
        after.contains_key(k) ==> after[k] == recolor(before[k], TriColor::White)
    &&& forall|r: ObjectAddress|
        #[trigger] roots_after.contains(r) <==> roots_before.contains(r) && !(before.contains_key(r)
            && !keep.contains(r))
}

impl GarbageCollector {
    /// An idle mark-and-sweep collector.
    pub open spec fn default_spec() -> Self {
        GarbageCollector { gc_typ: GCType::MarkAndSweep, gc_status: GCStatus::Idle }
    }
}

impl Default for GarbageCollector {
    /// An idle mark-and-sweep collector.
    fn default() -> (r: Self)
        ensures
            r == GarbageCollector::default_spec(),
    {
        GarbageCollector { gc_typ: GCType::MarkAndSweep, gc_status: GCStatus::Idle }
    }
}

impl GarbageCollector {
    /// Paints every live object of the machine's heap white.
    pub fn initialize_colors(&mut self, vm: &mut VirtualMachine)
        requires
            old(vm).heap.wf(),
        ensures
            final(vm).heap.wf(),
            same_but_colors(old(vm).heap.objects@, final(vm).heap.objects@),
            forall|k: ObjectAddress| #[trigger]
                final(vm).heap.objects@.contains_key(k) ==> color_of(final(vm).heap.objects@, k)
                    == TriColor::White,
            final(vm).heap.roots == old(vm).heap.roots,
            final(vm).heap.free_list == old(vm).heap.free_list,
            final(vm).heap.memory == old(vm).heap.memory,
            final(vm).stack == old(vm).stack,
            final(vm).op_codes == old(vm).op_codes,
    {
        paint_white(&mut vm.heap);
    }

    /// Paints the live object at `addr` of the machine's heap with
    /// `new_color`; nothing happens when no object lives there.
    pub fn update_color(&self, addr: ObjectAddress, new_color: TriColor, vm: &mut VirtualMachine)
        ensures
            old(vm).heap.objects@.contains_key(addr) ==> final(vm).heap.objects@ == old(
                vm,
            ).heap.objects@.insert(addr, recolor(old(vm).heap.objects@[addr], new_color)),
            !old(vm).heap.objects@.contains_key(addr) ==> final(vm).heap.objects@ == old(
                vm,
            ).heap.objects@,
            final(vm).heap.roots == old(vm).heap.roots,
            final(vm).heap.free_list == old(vm).heap.free_list,
            final(vm).heap.memory == old(vm).heap.memory,
            final(vm).stack == old(vm).stack,
            final(vm).op_codes == old(vm).op_codes,
    {
        if vm.heap.objects.contains_key(&addr) {
            set_color(&mut vm.heap, addr, new_color);
        }
    }

    /// Paints every live root gray; the other objects keep their colors.
    pub fn mark_roots(&mut self, heap: &mut Heap) -> (r: bool)
        requires
            old(heap).wf(),
        ensures
            r,
            final(heap).wf(),
            same_but_colors(old(heap).objects@, final(heap).objects@),
            forall|k: ObjectAddress| #[trigger]
                final(heap).objects@.contains_key(k) ==> color_of(final(heap).objects@, k) == (if old(
                    heap,
                ).roots@.contains(k) {
                    TriColor::Gray
                } else {
                    color_of(old(heap).objects@, k)
                }),
            final(heap).roots == old(heap).roots,
            final(heap).free_list == old(heap).free_list,
            final(heap).memory == old(heap).memory,
            final(heap).alignment == old(heap).alignment,
    {
        let roots = set_elements(&heap.roots);
        let ghost g = heap.objects@;
        let mut i: usize = 0;
        while i < roots.len()
            invariant
                i <= roots.len(),
                forall|x: ObjectAddress| roots@.contains(x) <==> heap.roots@.contains(x),
                same_but_colors(g, heap.objects@),
                g == old(heap).objects@,
                heap.roots == old(heap).roots,
                heap.free_list == old(heap).free_list,
                heap.memory == old(heap).memory,
                heap.alignment == old(heap).alignment,
                forall|k: ObjectAddress| #[trigger]
                    heap.objects@.contains_key(k) ==> color_of(heap.objects@, k) == (if roots@.subrange(
                        0,
                        i as int,
                    ).contains(k) {
                        TriColor::Gray
                    } else {
                        color_of(g, k)
                    }),
            decreases roots.len() - i,
        {
            let r = roots[i];
            let ghost pre = roots@.subrange(0, i as int);
            let ghost post = roots@.subrange(0, i + 1);
            proof {
                assert(post =~= pre.push(r));
                assert forall|x: ObjectAddress| post.contains(x) <==> (pre.contains(x) || x == r) by {
                    if post.contains(x) && x != r {
                        let j = post.index_of(x);
                        assert(pre[j] == x);
                    }
                    if pre.contains(x) {
                        let j = pre.index_of(x);
                        assert(post[j] == x);
                    }
                    if x == r {
                        assert(post[i as int] == x);
                    }
                }
            }
            if heap.objects.contains_key(&r) {
                set_color(heap, r, TriColor::Gray);
            }
            assert(heap.objects@.dom() =~= g.dom());
            i = i + 1;
        }
        proof {
            assert(roots@.subrange(0, i as int) =~= roots@);
            lemma_same_but_colors_spans(g, heap.objects@);
        }
        true
    }

    /// The mark phase, from a heap whose live objects are white but for
    /// roots, which may be gray already: paints the live roots gray, then
    /// scans gray objects until none is left. Returns the gray set left
    /// (empty) once every reachable object is black and every other one
    /// white; `None` when a reachable object refers to an address where no
    /// object lives, which aborts the phase.
    pub fn mark_phase(&self, heap: &mut Heap) -> (r: Option<BTreeSet<ObjectAddress>>)
        requires
            old(heap).wf(),
            fresh_marking(old(heap).objects@, old(heap).roots@),
        ensures
            final(heap).wf(),
            same_but_colors(old(heap).objects@, final(heap).objects@),
            r is Some <==> !has_dangling(old(heap).objects@, old(heap).roots@),
            r matches Some(grays) ==> grays@.is_empty() && marked_by_reachability(
                old(heap).objects@,
                old(heap).roots@,
                final(heap).objects@,
            ),
            final(heap).roots == old(heap).roots,
            final(heap).free_list == old(heap).free_list,
            final(heap).memory == old(heap).memory,
            final(heap).alignment == old(heap).alignment,
    {
        let ghost g = heap.objects@;
        let work = gray_roots(heap);
        if trace(heap, work, Ghost(g)) {
            Some(BTreeSet::new())
        } else {
            None
        }
    }

    /// Runs a full collection cycle (see `collect`): paint everything white,
    /// mark from the roots, sweep. Returns `Some(true)` once the live table
    /// holds exactly the objects reachable from the roots, every one of them
    /// white, the spans of the others back in the free list; `None` when a
    /// reachable object refers to an address where no object lives, the
    /// cycle being aborted before the sweep with every object repainted
    /// white and nothing else changed.
    pub fn start_gc(&mut self, heap: &mut Heap) -> (r: Option<bool>)
        requires
            old(heap).wf(),
        ensures
            final(heap).wf(),
            final(self).gc_typ == old(self).gc_typ,
            final(self).gc_status == GCStatus::Idle,
            r == Some(true) <==> !has_dangling(old(heap).objects@, old(heap).roots@),
            r is None ==> r == None::<bool> && same_but_colors(
                old(heap).objects@,
                final(heap).objects@,
            ) && (forall|k: ObjectAddress| #[trigger]
                final(heap).objects@.contains_key(k) ==> color_of(final(heap).objects@, k)
                    == TriColor::White) && final(heap).roots == old(heap).roots && final(heap).free_list
                == old(heap).free_list,
            r is Some ==> r == Some(true) && swept(
                old(heap).objects@,
                old(heap).roots@,
                reachable_set(old(heap).objects@, old(heap).roots@),
                final(heap).objects@,
                final(heap).roots@,
            ),
            r is Some ==> exists|ks: Seq<ObjectAddress>|
                lists_keys(ks, old(heap).objects@) && final(heap).free_list.inner@ == coalesced(
                    reclaimed(
                        old(heap).free_list.inner@,
                        old(heap).objects@,
                        reachable_set(old(heap).objects@, old(heap).roots@),
                        ks,
                    ),
                ),
            final(heap).memory == old(heap).memory,
            final(heap).alignment == old(heap).alignment,
            laid_out(*old(heap)) ==> laid_out(*final(heap)),
            r is Some && laid_out(*old(heap)) ==> free_cells(final(heap).free_list.inner@)
                == free_cells(old(heap).free_list.inner@) + live_cells(old(heap).objects@).difference(
                live_cells(final(heap).objects@),
            ),
    {
        match self.collect(heap) {
            Ok(()) => Some(true),
            Err(_) => None,
        }
    }


    /// The sweep: black objects are painted white and stay; every other
    /// object's span goes back to the free list (in order of address) and
    /// it leaves the live table and the roots; the free list is coalesced at
    /// the end.
    pub fn sweep(&mut self, heap: &mut Heap)
        requires
            old(heap).wf(),
        ensures
            final(heap).wf(),
            swept(
                old(heap).objects@,
                old(heap).roots@,
                black_set(old(heap).objects@),
                final(heap).objects@,
                final(heap).roots@,
            ),
            exists|ks: Seq<ObjectAddress>|
                lists_keys(ks, old(heap).objects@) && final(heap).free_list.inner@ == coalesced(
                    reclaimed(
                        old(heap).free_list.inner@,
                        old(heap).objects@,
                        black_set(old(heap).objects@),
                        ks,
                    ),
                ),
            final(heap).memory == old(heap).memory,
            final(heap).alignment == old(heap).alignment,
            laid_out(*old(heap)) ==> laid_out(*final(heap)),
    {
        let keys = object_keys(&heap.objects);
        let ghost o0 = heap.objects@;
        let ghost r0 = heap.roots@;
        let ghost f0 = heap.free_list.inner@;
        let ghost keep = black_set(o0);
        let mut i: usize = 0;
        while i < keys.len()
            invariant
                i <= keys.len(),
                heap.wf(),
                lists_keys(keys@, o0),
                o0 == old(heap).objects@,
                r0 == old(heap).roots@,
                f0 == old(heap).free_list.inner@,
                keep == black_set(o0),
                heap.free_list.inner@ == reclaimed(f0, o0, keep, keys@.subrange(0, i as int)),
                forall|k: ObjectAddress|
                    #[trigger] heap.objects@.contains_key(k) <==> o0.contains_key(k) && (keys@.subrange(
                        0,
                        i as int,
                    ).contains(k) ==> keep.contains(k)),
                forall|k: ObjectAddress| #[trigger]
                    heap.objects@.contains_key(k) ==> heap.objects@[k] == (if keys@.subrange(
                        0,
                        i as int,
                    ).contains(k) {
                        recolor(o0[k], TriColor::White)
                    } else {
                        o0[k]
                    }),
                forall|r: ObjectAddress|
                    #[trigger] heap.roots@.contains(r) <==> r0.contains(r) && !(keys@.subrange(
                        0,
                        i as int,
                    ).contains(r) && o0.contains_key(r) && !keep.contains(r)),
                heap.memory == old(heap).memory,
                heap.alignment == old(heap).alignment,
                laid_out(*old(heap)) ==> laid_out(*heap),
            decreases keys.len() - i,
        {
            let k = keys[i];
            let ghost pre = keys@.subrange(0, i as int);
            let ghost post = keys@.subrange(0, i + 1);
            proof {
                assert(post =~= pre.push(k));
                assert(post.drop_last() =~= pre);
                assert(!pre.contains(k)) by {
                    if pre.contains(k) {
                        let j = pre.index_of(k);
                        assert(keys@[j] < keys@[i as int]);
                    }
                }
                assert forall|x: ObjectAddress| post.contains(x) <==> (pre.contains(x) || x == k) by {
                    if post.contains(x) && x != k {
                        let j = post.index_of(x);
                        assert(pre[j] == x);
                    }
                    if pre.contains(x) {
                        let j = pre.index_of(x);
                        assert(post[j] == x);
                    }
                    if x == k {
                        assert(post[i as int] == x);
                    }
                }
                assert(o0.contains_key(k));
                assert(heap.objects@.contains_key(k));
            }
            let ghost before = heap.objects@;
            let ghost hb = *heap;
            let black = heap.objects.get(&k).unwrap().header.marked == TriColor::Black;
            if black {
                set_color(heap, k, TriColor::White);
                proof {
                    if laid_out(hb) {
                        assert(heap.objects@.dom() =~= hb.objects@.dom());
                        lemma_recolor_laid_out(hb, *heap);
                    }
                    assert(keep.contains(k));
                    assert forall|x: ObjectAddress| #[trigger] heap.objects@.contains_key(x) implies x
                        + object_size(heap.objects@[x]) <= usize::MAX by {
                        assert(before.contains_key(x));
                    }
                }
            } else {
                heap.release(k);
                proof {
                    assert(!keep.contains(k));
                }
            }
            i = i + 1;
        }
        proof {
            assert(keys@.subrange(0, i as int) =~= keys@);
        }
        heap.free_list.merge_adjacent_block();
    }


    /// A full collection cycle: paint everything white, mark from the roots,
    /// sweep. On success the live table holds exactly the objects that were
    /// reachable from the roots, every one of them white, and the spans of
    /// the others are back in the free list. When a reachable object refers
    /// to an address where no object lives the cycle is aborted before the
    /// sweep with `ObjectNotFound`, every object repainted white and nothing
    /// else changed.
    pub fn collect(&mut self, heap: &mut Heap) -> (r: Result<(), HeapError>)
        requires
            old(heap).wf(),
        ensures
            final(heap).wf(),
            final(self).gc_typ == old(self).gc_typ,
            final(self).gc_status == GCStatus::Idle,
            r is Ok <==> !has_dangling(old(heap).objects@, old(heap).roots@),
            r is Err ==> r == Err::<(), HeapError>(HeapError::ObjectNotFound) && same_but_colors(
                old(heap).objects@,
                final(heap).objects@,
            ) && (forall|k: ObjectAddress| #[trigger]
                final(heap).objects@.contains_key(k) ==> color_of(final(heap).objects@, k)
                    == TriColor::White) && final(heap).roots == old(heap).roots && final(heap).free_list
                == old(heap).free_list,
            r is Ok ==> swept(
                old(heap).objects@,
                old(heap).roots@,
                reachable_set(old(heap).objects@, old(heap).roots@),
                final(heap).objects@,
                final(heap).roots@,
            ),
            r is Ok ==> exists|ks: Seq<ObjectAddress>|
                lists_keys(ks, old(heap).objects@) && final(heap).free_list.inner@ == coalesced(
                    reclaimed(
                        old(heap).free_list.inner@,
                        old(heap).objects@,
                        reachable_set(old(heap).objects@, old(heap).roots@),
                        ks,
                    ),
                ),
            final(heap).memory == old(heap).memory,
            final(heap).alignment == old(heap).alignment,
            laid_out(*old(heap)) ==> laid_out(*final(heap)),
            r is Ok && laid_out(*old(heap)) ==> free_cells(final(heap).free_list.inner@) == free_cells(
                old(heap).free_list.inner@,
            ) + live_cells(old(heap).objects@).difference(live_cells(final(heap).objects@)),
    {
        let ghost o0 = heap.objects@;
        let ghost r0 = heap.roots@;
        let ghost h0 = *heap;
        self.gc_status = GCStatus::Marking;
        let ok = self.mark_white_heap(heap);
        proof {
            if laid_out(h0) {
                lemma_recolor_laid_out(h0, *heap);
            }
        }
        if !ok {
            self.gc_status = GCStatus::Idle;
            return Err(HeapError::ObjectNotFound);
        }
        let ghost m = heap.objects@;
        self.gc_status = GCStatus::Sweeping;
        self.sweep(heap);
        self.gc_status = GCStatus::Idle;
        proof {
            let keep = reachable_set(o0, r0);
            assert forall|k: ObjectAddress| black_set(m).contains(k) <==> keep.contains(k) by {
                if reachable(o0, r0, k) {
                    let p = choose|p: Seq<ObjectAddress>| #[trigger] is_path(o0, r0, p) && p.last() == k;
                    assert(o0.contains_key(p[p.len() - 1]));
                }
            }
            assert(black_set(m) =~= keep);
            assert forall|k: ObjectAddress| #[trigger] heap.objects@.contains_key(k) implies heap.objects@[k]
                == recolor(o0[k], TriColor::White) by {
                assert(m[k] == recolor(o0[k], m[k].header.marked));
            }
            let ks = choose|ks: Seq<ObjectAddress>|
                lists_keys(ks, m) && heap.free_list.inner@ == coalesced(
                    reclaimed(old(heap).free_list.inner@, m, black_set(m), ks),
                );
            lemma_reclaimed_recolor(old(heap).free_list.inner@, o0, m, keep, ks);
            assert(lists_keys(ks, o0));
            if laid_out(h0) {
                lemma_swept_live_subset(o0, r0, keep, heap.objects@, heap.roots@);
                lemma_free_cells_after_release(h0, *heap);
            }
        }
        Ok(())
    }

    /// Paints everything white and marks from the roots; on a dangling
    /// reference repaints everything white and answers `false`.
    fn mark_white_heap(&self, heap: &mut Heap) -> (ok: bool)
        requires
            old(heap).wf(),
        ensures
            final(heap).wf(),
            same_but_colors(old(heap).objects@, final(heap).objects@),
            ok <==> !has_dangling(old(heap).objects@, old(heap).roots@),
            !ok ==> forall|k: ObjectAddress| #[trigger]
                final(heap).objects@.contains_key(k) ==> color_of(final(heap).objects@, k)
                    == TriColor::White,
            ok ==> marked_by_reachability(
                old(heap).objects@,
                old(heap).roots@,
                final(heap).objects@,
            ),
            final(heap).roots == old(heap).roots,
            final(heap).free_list == old(heap).free_list,
            final(heap).memory == old(heap).memory,
            final(heap).alignment == old(heap).alignment,
    {
        let ghost g = heap.objects@;
        paint_white(heap);
        let ghost w = heap.objects@;
        let work = gray_roots(heap);
        let ghost m = heap.objects@;
        proof {
            lemma_same_but_colors_trans(g, w, m);
            lemma_trace_inv_rebase(w, g, heap.roots@, m, work@);
        }
        let ok = trace(heap, work, Ghost(g));
        proof {
            lemma_same_but_colors_trans(g, m, heap.objects@);
        }
        if !ok {
            let ghost h = heap.objects@;
            paint_white(heap);
            proof {
                lemma_same_but_colors_trans(g, h, heap.objects@);
            }
        }
        ok
    }
}

} // verus!
