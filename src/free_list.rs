use vstd::prelude::*;

verus! {

/// Starts strictly increase along the sequence.
pub open spec fn sorted_by_start(s: Seq<(usize, usize)>) -> bool {
    forall|i: int, j: int| 0 <= i < j < s.len() ==> s[i].0 < s[j].0
}

/// Every block ends inside the address range.
pub open spec fn blocks_fit(s: Seq<(usize, usize)>) -> bool {
    forall|i: int| 0 <= i < s.len() ==> s[i].0 + s[i].1 <= usize::MAX
}

/// Any two blocks are disjoint and do not touch: the earlier one ends
/// strictly before the later one starts.
pub open spec fn separated(s: Seq<(usize, usize)>) -> bool {
    forall|i: int, j: int| 0 <= i < j < s.len() ==> s[i].0 + s[i].1 < s[j].0
}

/// The coalescing walk: look at the first block and its successor; when the
/// successor starts at or before the first block's end, fuse them into one
/// block `(s, l + l' + s' - (s + l))` and look again from the fused block,
/// otherwise keep the first block and walk on from the successor.
pub open spec fn coalesced(s: Seq<(usize, usize)>) -> Seq<(usize, usize)>
    decreases s.len(),
{
    if s.len() <= 1 {
        s
    } else if s[1].0 <= s[0].0 + s[0].1 {
        let fused = (s[0].0, (s[0].1 + s[1].1 + s[1].0 - (s[0].0 + s[0].1)) as usize);
        coalesced(seq![fused] + s.subrange(2, s.len() as int))
    } else {
        seq![s[0]] + coalesced(s.subrange(1, s.len() as int))
    }
}

/// What coalescing keeps: the walk yields separated blocks, starting where
/// the input starts.
pub proof fn lemma_coalesced(s: Seq<(usize, usize)>)
    requires
        sorted_by_start(s),
        blocks_fit(s),
    ensures
        separated(coalesced(s)),
        sorted_by_start(coalesced(s)),
        blocks_fit(coalesced(s)),
        coalesced(s).len() <= s.len(),
        s.len() > 0 ==> coalesced(s).len() > 0 && coalesced(s)[0].0 == s[0].0,
    decreases s.len(),
{
    if s.len() <= 1 {
    } else if s[1].0 <= s[0].0 + s[0].1 {
        let fused = (s[0].0, (s[0].1 + s[1].1 + s[1].0 - (s[0].0 + s[0].1)) as usize);
        let t = seq![fused] + s.subrange(2, s.len() as int);
        assert(forall|k: int| 1 <= k < t.len() ==> t[k] == s[k + 1]);
        assert(sorted_by_start(t)) by {
            assert forall|i: int, j: int| 0 <= i < j < t.len() implies t[i].0 < t[j].0 by {
                if i == 0 {
                    assert(s[0].0 < s[j + 1].0);
                } else {
                    assert(s[i + 1].0 < s[j + 1].0);
                }
            }
        }
        lemma_coalesced(t);
    } else {
        let r = s.subrange(1, s.len() as int);
        lemma_coalesced(r);
        let c = coalesced(r);
        assert(coalesced(s) == seq![s[0]] + c);
        assert forall|i: int, j: int| 0 <= i < j < coalesced(s).len() implies coalesced(s)[i].0
            + coalesced(s)[i].1 < coalesced(s)[j].0 by {
            if i == 0 {
                if j > 1 {
                    assert(c[0].0 < c[j - 1].0);
                }
            }
        }
    }
}

/// A separated list is left as it is by coalescing.
pub proof fn lemma_coalesced_separated(s: Seq<(usize, usize)>)
    requires
        separated(s),
    ensures
        coalesced(s) == s,
    decreases s.len(),
{
    if s.len() > 1 {
        let r = s.subrange(1, s.len() as int);
        assert(separated(r)) by {
            assert forall|i: int, j: int| 0 <= i < j < r.len() implies r[i].0 + r[i].1 < r[j].0 by {
                assert(s[i + 1].0 + s[i + 1].1 < s[j + 1].0);
            }
        }
        lemma_coalesced_separated(r);
        assert(s[0].0 + s[0].1 < s[1].0);
        assert(seq![s[0]] + r =~= s);
    }
}


/// `i` is where a block starting at `start` belongs: every earlier block
/// starts before it, the block at `i` (if any) starts at or after it.
pub open spec fn is_slot(s: Seq<(usize, usize)>, start: usize, i: int) -> bool {
    &&& 0 <= i <= s.len()
    &&& forall|j: int| 0 <= j < i ==> s[j].0 < start
    &&& i < s.len() ==> s[i].0 >= start
}

pub open spec fn slot(s: Seq<(usize, usize)>, start: usize) -> int {
    choose|i: int| is_slot(s, start, i)
}

/// The list with `(start, size)` placed by start; a block already starting
/// there keeps the longer of the two lengths.
pub open spec fn with_block(s: Seq<(usize, usize)>, start: usize, size: usize) -> Seq<
    (usize, usize),
> {
    let i = slot(s, start);
    if i < s.len() && s[i].0 == start {
        s.update(i, (start, if s[i].1 >= size { s[i].1 } else { size }))
    } else {
        s.insert(i, (start, size))
    }
}

/// The map from start to length that a list of blocks describes, a later
/// block replacing an earlier one with the same start.
pub open spec fn blocks_map(s: Seq<(usize, usize)>) -> Map<usize, usize>
    decreases s.len(),
{
    if s.len() == 0 {
        Map::empty()
    } else {
        blocks_map(s.drop_last()).insert(s.last().0, s.last().1)
    }
}

/// Sum of the lengths.
pub open spec fn total_length(s: Seq<(usize, usize)>) -> int
    decreases s.len(),
{
    if s.len() == 0 {
        0
    } else {
        total_length(s.drop_last()) + s.last().1
    }
}

pub proof fn lemma_slot_unique(s: Seq<(usize, usize)>, start: usize, i: int)
    requires
        sorted_by_start(s),
        is_slot(s, start, i),
    ensures
        slot(s, start) == i,
{
    let k = slot(s, start);
    assert(is_slot(s, start, k));
    if k < i {
        assert(s[k].0 < start);
    } else if i < k {
        assert(s[i].0 < start);
    }
}

/// For a sorted list the map holds exactly its blocks.
pub proof fn lemma_blocks_map_sorted(s: Seq<(usize, usize)>)
    requires
        sorted_by_start(s),
    ensures
        forall|j: int|
            0 <= j < s.len() ==> #[trigger] blocks_map(s).contains_key(s[j].0) && blocks_map(s)[s[j].0]
                == s[j].1,
        forall|k: usize|
            #[trigger] blocks_map(s).contains_key(k) ==> exists|j: int| 0 <= j < s.len() && s[j].0 == k,
    decreases s.len(),
{
    if s.len() > 0 {
        let r = s.drop_last();
        lemma_blocks_map_sorted(r);
        assert(blocks_map(s) == blocks_map(r).insert(s.last().0, s.last().1));
        assert forall|j: int| 0 <= j < s.len() implies #[trigger] blocks_map(s).contains_key(s[j].0)
            && blocks_map(s)[s[j].0] == s[j].1 by {
            if j < s.len() - 1 {
                assert(r[j] == s[j]);
                assert(s[j].0 < s[s.len() - 1].0);
                assert(blocks_map(r).contains_key(r[j].0));
            }
        }
        assert forall|k: usize| #[trigger] blocks_map(s).contains_key(k) implies exists|j: int|
            0 <= j < s.len() && s[j].0 == k by {
            if k != s.last().0 {
                assert(blocks_map(r).contains_key(k));
                let j = choose|j: int| 0 <= j < r.len() && r[j].0 == k;
                assert(s[j].0 == k);
            } else {
                assert(s[s.len() - 1].0 == k);
            }
        }
    }
}

/// Placing a block into a sorted list, replacing the block with the same
/// start if there is one, changes its map by one entry.
#[verifier::rlimit(50)]
pub proof fn lemma_place_block(s: Seq<(usize, usize)>, b: (usize, usize), i: int)
    requires
        sorted_by_start(s),
        is_slot(s, b.0, i),
    ensures
        i < s.len() && s[i].0 == b.0 ==> sorted_by_start(s.update(i, b)) && blocks_map(
            s.update(i, b),
        ) == blocks_map(s).insert(b.0, b.1),
        !(i < s.len() && s[i].0 == b.0) ==> sorted_by_start(s.insert(i, b)) && blocks_map(
            s.insert(i, b),
        ) == blocks_map(s).insert(b.0, b.1),
{
    lemma_blocks_map_sorted(s);
    let t = if i < s.len() && s[i].0 == b.0 {
        s.update(i, b)
    } else {
        s.insert(i, b)
    };
    assert(sorted_by_start(t));
    lemma_blocks_map_sorted(t);
    let m = blocks_map(s).insert(b.0, b.1);
    assert forall|k: usize| #[trigger] blocks_map(t).contains_key(k) <==> m.contains_key(k) by {
        if blocks_map(t).contains_key(k) {
            let j = choose|j: int| 0 <= j < t.len() && t[j].0 == k;
            if k != b.0 {
                if i < s.len() && s[i].0 == b.0 {
                    assert(s[j].0 == k);
                } else if j < i {
                    assert(s[j].0 == k);
                } else {
                    assert(s[j - 1].0 == k);
                }
            }
        }
        if m.contains_key(k) {
            if k == b.0 {
                assert(t[i].0 == k);
            } else {
                let j = choose|j: int| 0 <= j < s.len() && s[j].0 == k;
                if i < s.len() && s[i].0 == b.0 {
                    assert(t[j].0 == k);
                } else if j < i {
                    assert(t[j].0 == k);
                } else {
                    assert(t[j + 1].0 == k);
                }
            }
        }
    }
    assert forall|k: usize| #[trigger] blocks_map(t).contains_key(k) implies blocks_map(t)[k]
        == m[k] by {
        let j = choose|j: int| 0 <= j < t.len() && t[j].0 == k;
        if k != b.0 {
            if i < s.len() && s[i].0 == b.0 {
                assert(s[j].0 == k);
            } else if j < i {
                assert(s[j].0 == k);
            } else {
                assert(s[j - 1].0 == k);
            }
        } else {
            assert(t[i].0 == k);
        }
    }
    assert(blocks_map(t) =~= m);
}

/// The list with block `i` replaced by what is left of it once `lo..hi` is
/// taken out: the run before `lo` and the run after `hi`, each kept only
/// when non-empty.
pub open spec fn carve(s: Seq<(usize, usize)>, i: int, lo: int, hi: int) -> Seq<(usize, usize)> {
    let b = s[i];
    let pre = if lo > b.0 {
        seq![(b.0, (lo - b.0) as usize)]
    } else {
        Seq::<(usize, usize)>::empty()
    };
    let post = if hi < b.0 + b.1 {
        seq![(hi as usize, (b.0 + b.1 - hi) as usize)]
    } else {
        Seq::<(usize, usize)>::empty()
    };
    s.subrange(0, i) + pre + post + s.subrange(i + 1, s.len() as int)
}

pub proof fn lemma_total_length_concat(a: Seq<(usize, usize)>, b: Seq<(usize, usize)>)
    ensures
        total_length(a + b) == total_length(a) + total_length(b),
    decreases b.len(),
{
    if b.len() > 0 {
        lemma_total_length_concat(a, b.drop_last());
        assert((a + b).drop_last() =~= a + b.drop_last());
    } else {
        assert(a + b =~= a);
    }
}

pub proof fn lemma_total_length_prefix(s: Seq<(usize, usize)>, i: int)
    requires
        0 <= i <= s.len(),
    ensures
        0 <= total_length(s.subrange(0, i)) <= total_length(s),
    decreases s.len() - i,
{
    if i < s.len() {
        lemma_total_length_prefix(s, i + 1);
        assert(s.subrange(0, i + 1).drop_last() =~= s.subrange(0, i));
    } else {
        assert(s.subrange(0, i) =~= s);
    }
    lemma_total_length_nonneg(s.subrange(0, i));
}

pub proof fn lemma_total_length_nonneg(s: Seq<(usize, usize)>)
    ensures
        total_length(s) >= 0,
    decreases s.len(),
{
    if s.len() > 0 {
        lemma_total_length_nonneg(s.drop_last());
    }
}

/// Carving keeps a separated list separated and takes `hi - lo` off its
/// total length.
#[verifier::rlimit(80)]
pub proof fn lemma_carve(s: Seq<(usize, usize)>, i: int, lo: int, hi: int)
    requires
        sorted_by_start(s),
        blocks_fit(s),
        separated(s),
        0 <= i < s.len(),
        s[i].0 <= lo < hi <= s[i].0 + s[i].1,
    ensures
        sorted_by_start(carve(s, i, lo, hi)),
        blocks_fit(carve(s, i, lo, hi)),
        separated(carve(s, i, lo, hi)),
        total_length(carve(s, i, lo, hi)) == total_length(s) - (hi - lo),
{
    let b = s[i];
    let pre = if lo > b.0 {
        seq![(b.0, (lo - b.0) as usize)]
    } else {
        Seq::<(usize, usize)>::empty()
    };
    let post = if hi < b.0 + b.1 {
        seq![(hi as usize, (b.0 + b.1 - hi) as usize)]
    } else {
        Seq::<(usize, usize)>::empty()
    };
    let left = s.subrange(0, i);
    let right = s.subrange(i + 1, s.len() as int);
    let mid = pre + post;
    let t = carve(s, i, lo, hi);
    assert(t =~= left + mid + right);
    assert(s =~= left + seq![b] + right);
    lemma_carve_total(left, right, b, pre, post, lo, hi);
    assert forall|x: int| 0 <= x < mid.len() implies b.0 <= (#[trigger] mid[x]).0 && mid[x].0
        + mid[x].1 <= b.0 + b.1 by {}
    assert forall|x: int, y: int| 0 <= x < y < mid.len() implies mid[x].0 + mid[x].1 < mid[y].0 by {}
    let l = left.len() as int;
    let m = mid.len() as int;
    assert forall|x: int, y: int| 0 <= x < y < t.len() implies t[x].0 + t[x].1 < t[y].0 by {
        if y < l {
            assert(t[x] == s[x] && t[y] == s[y]);
        } else if y < l + m {
            if x < l {
                assert(t[x] == s[x]);
                assert(s[x].0 + s[x].1 < s[i].0);
                assert(t[y] == mid[y - l]);
            } else {
                assert(t[x] == mid[x - l] && t[y] == mid[y - l]);
            }
        } else {
            assert(t[y] == s[y - m + 1]);
            if x < l {
                assert(t[x] == s[x]);
                assert(s[x].0 + s[x].1 < s[y - m + 1].0);
            } else if x < l + m {
                assert(t[x] == mid[x - l]);
                assert(s[i].0 + s[i].1 < s[y - m + 1].0);
            } else {
                assert(t[x] == s[x - m + 1]);
                assert(s[x - m + 1].0 + s[x - m + 1].1 < s[y - m + 1].0);
            }
        }
    }
    assert forall|x: int| 0 <= x < t.len() implies t[x].0 + t[x].1 <= usize::MAX by {
        if x < l {
            assert(t[x] == s[x]);
        } else if x < l + m {
            assert(t[x] == mid[x - l]);
        } else {
            assert(t[x] == s[x - m + 1]);
        }
    }
    assert forall|x: int, y: int| 0 <= x < y < t.len() implies t[x].0 < t[y].0 by {
        assert(t[x].0 + t[x].1 < t[y].0);
    }
}

proof fn lemma_single_total(b: (usize, usize))
    ensures
        total_length(seq![b]) == b.1,
{
    assert(seq![b].drop_last() =~= Seq::<(usize, usize)>::empty());
    assert(total_length(Seq::<(usize, usize)>::empty()) == 0);
}

proof fn lemma_carve_total(
    left: Seq<(usize, usize)>,
    right: Seq<(usize, usize)>,
    b: (usize, usize),
    pre: Seq<(usize, usize)>,
    post: Seq<(usize, usize)>,
    lo: int,
    hi: int,
)
    requires
        b.0 <= lo < hi <= b.0 + b.1,
        pre == (if lo > b.0 {
            seq![(b.0, (lo - b.0) as usize)]
        } else {
            Seq::<(usize, usize)>::empty()
        }),
        post == (if hi < b.0 + b.1 {
            seq![(hi as usize, (b.0 + b.1 - hi) as usize)]
        } else {
            Seq::<(usize, usize)>::empty()
        }),
    ensures
        total_length(left + (pre + post) + right) == total_length(left + seq![b] + right) - (hi
            - lo),
{
    let mid = pre + post;
    lemma_total_length_concat(left + mid, right);
    lemma_total_length_concat(left, mid);
    lemma_total_length_concat(pre, post);
    lemma_total_length_concat(left + seq![b], right);
    lemma_total_length_concat(left, seq![b]);
    lemma_single_total(b);
    assert(total_length(Seq::<(usize, usize)>::empty()) == 0);
    if lo > b.0 {
        lemma_single_total((b.0, (lo - b.0) as usize));
    }
    if hi < b.0 + b.1 {
        lemma_single_total((hi as usize, (b.0 + b.1 - hi) as usize));
    }
}

/// Free list: the free runs of a heap as `(start, length)` pairs, ordered by
/// start, each start present once.
#[derive(Debug, PartialEq, Clone, Default)]
pub struct FreeList {
    pub inner: Vec<(usize, usize)>,
}

impl FreeList {
    /// Ordered by start and every run ends inside the address range.
    pub open spec fn wf(&self) -> bool {
        sorted_by_start(self.inner@) && blocks_fit(self.inner@)
    }


    /// The list of `blocks`, ordered by start; where several blocks share a
    /// start the last one is kept. A list already ordered by start is kept
    /// as it is. No coalescing happens here.
    pub fn new(blocks: Vec<(usize, usize)>) -> (r: Self)
        requires
            blocks_fit(blocks@),
        ensures
            r.wf(),
            blocks_map(r.inner@) == blocks_map(blocks@),
            sorted_by_start(blocks@) ==> r.inner@ == blocks@,
    {
        let mut r = FreeList { inner: Vec::new() };
        let mut k: usize = 0;
        while k < blocks.len()
            invariant
                k <= blocks.len(),
                blocks_fit(blocks@),
                r.wf(),
                blocks_map(r.inner@) == blocks_map(blocks@.subrange(0, k as int)),
                sorted_by_start(blocks@) ==> r.inner@ == blocks@.subrange(0, k as int),
            decreases blocks.len() - k,
        {
            let b = blocks[k];
            let i = r.find_slot(b.0);
            proof {
                lemma_place_block(r.inner@, b, i as int);
                assert(blocks@.subrange(0, k + 1).drop_last() =~= blocks@.subrange(0, k as int));
                if sorted_by_start(blocks@) && i < r.inner.len() {
                    assert(r.inner@[i as int] == blocks@[i as int]);
                }
            }
            if i < r.inner.len() && r.inner[i].0 == b.0 {
                r.inner.set(i, b);
            } else {
                r.inner.insert(i, b);
            }
            assert(sorted_by_start(blocks@) ==> r.inner@ =~= blocks@.subrange(0, k + 1));
            k = k + 1;
        }
        assert(blocks@.subrange(0, blocks.len() as int) =~= blocks@);
        r
    }

    /// The index where a block starting at `start` belongs.
    pub fn find_slot(&self, start: usize) -> (i: usize)
        requires
            self.wf(),
        ensures
            is_slot(self.inner@, start, i as int),
            slot(self.inner@, start) == i,
    {
        let mut i: usize = 0;
        while i < self.inner.len() && self.inner[i].0 < start
            invariant
                i <= self.inner.len(),
                forall|j: int| 0 <= j < i ==> self.inner@[j].0 < start,
            decreases self.inner.len() - i,
        {
            i = i + 1;
        }
        proof {
            lemma_slot_unique(self.inner@, start, i as int);
        }
        i
    }

    /// The cursor over the blocks in order of start.
    pub fn iter(&self) -> (r: FreeListIter)
        ensures
            r.blocks@ == self.inner@,
            r.pos == 0,
    {
        FreeListIter { blocks: self.to_vec(), pos: 0 }
    }

    /// Places `(start, size)` (a block already starting there keeps the
    /// longer length), then coalesces.
    pub fn insert(&mut self, start: usize, size: usize)
        requires
            old(self).wf(),
            start + size <= usize::MAX,
        ensures
            final(self).wf(),
            separated(final(self).inner@),
            final(self).inner@ == coalesced(with_block(old(self).inner@, start, size)),
    {
        let i = self.find_slot(start);
        let ghost s = self.inner@;
        if i < self.inner.len() && self.inner[i].0 == start {
            let len = self.inner[i].1;
            let longer = if len >= size {
                len
            } else {
                size
            };
            proof {
                lemma_place_block(s, (start, longer), i as int);
            }
            self.inner.set(i, (start, longer));
        } else {
            proof {
                lemma_place_block(s, (start, size), i as int);
            }
            self.inner.insert(i, (start, size));
        }
        assert(self.inner@ == with_block(s, start, size));
        self.merge_adjacent_block();
    }

    /// Drops the block that starts at `start`, if there is one.
    pub fn remove(&mut self, start: usize)
        requires
            old(self).wf(),
        ensures
            final(self).wf(),
            forall|j: int|
                0 <= j < old(self).inner@.len() && old(self).inner@[j].0 == start ==> final(self).inner@ == old(self).inner@.remove(j),
            (forall|j: int|
                0 <= j < old(self).inner@.len() ==> old(self).inner@[j].0 != start) ==> final(self).inner@ == old(self).inner@,
            separated(old(self).inner@) ==> separated(final(self).inner@),
    {
        let i = self.find_slot(start);
        if i < self.inner.len() && self.inner[i].0 == start {
            let ghost s = self.inner@;
            self.inner.remove(i);
            assert forall|j: int| 0 <= j < s.len() && s[j].0 == start implies self.inner@ == s.remove(
                j,
            ) by {
                if j != i {
                    if j < i {
                        assert(s[j].0 < s[i as int].0);
                    } else {
                        assert(s[i as int].0 < s[j].0);
                    }
                }
            }
            assert(separated(s) ==> separated(self.inner@)) by {
                if separated(s) {
                    assert forall|a: int, b: int| 0 <= a < b < self.inner@.len() implies self.inner@[a].0
                        + self.inner@[a].1 < self.inner@[b].0 by {
                        let a2 = if a < i { a } else { a + 1 };
                        let b2 = if b < i { b } else { b + 1 };
                        assert(self.inner@[a] == s[a2]);
                        assert(self.inner@[b] == s[b2]);
                    }
                }
            }
        }
    }

    /// The length of the block starting at `start`, if there is one.
    pub fn get(&self, start: usize) -> (r: Option<usize>)
        requires
            self.wf(),
        ensures
            r == (if blocks_map(self.inner@).contains_key(start) {
                Some(blocks_map(self.inner@)[start])
            } else {
                None::<usize>
            }),
    {
        proof {
            lemma_blocks_map_sorted(self.inner@);
        }
        let i = self.find_slot(start);
        if i < self.inner.len() && self.inner[i].0 == start {
            Some(self.inner[i].1)
        } else {
            proof {
                if blocks_map(self.inner@).contains_key(start) {
                    let j = choose|j: int| 0 <= j < self.inner@.len() && self.inner@[j].0 == start;
                    if j < i {
                    } else {
                        assert(self.inner@[i as int].0 <= self.inner@[j].0);
                    }
                }
            }
            None
        }
    }

    /// The blocks in order of start.
    pub fn to_vec(&self) -> (r: Vec<(usize, usize)>)
        ensures
            r@ == self.inner@,
    {
        let mut r: Vec<(usize, usize)> = Vec::new();
        let mut i: usize = 0;
        while i < self.inner.len()
            invariant
                i <= self.inner.len(),
                r@ == self.inner@.subrange(0, i as int),
            decreases self.inner.len() - i,
        {
            r.push(self.inner[i]);
            i = i + 1;
            assert(r@ =~= self.inner@.subrange(0, i as int));
        }
        assert(self.inner@.subrange(0, i as int) =~= self.inner@);
        r
    }


    /// Takes `lo..hi` out of block `i`, keeping the non-empty runs on either
    /// side of it.
    pub fn carve(&mut self, i: usize, lo: usize, hi: usize)
        requires
            old(self).wf(),
            separated(old(self).inner@),
            i < old(self).inner@.len(),
            old(self).inner@[i as int].0 <= lo < hi,
            hi <= old(self).inner@[i as int].0 + old(self).inner@[i as int].1,
        ensures
            final(self).wf(),
            separated(final(self).inner@),
            final(self).inner@ == carve(old(self).inner@, i as int, lo as int, hi as int),
            total_length(final(self).inner@) == total_length(old(self).inner@) - (hi - lo),
    {
        let ghost s = self.inner@;
        let b = self.inner[i];
        self.inner.remove(i);
        if hi < b.0 + b.1 {
            self.inner.insert(i, (hi, b.0 + b.1 - hi));
        }
        if lo > b.0 {
            self.inner.insert(i, (b.0, lo - b.0));
        }
        proof {
            lemma_carve(s, i as int, lo as int, hi as int);
            assert(self.inner@ =~= carve(s, i as int, lo as int, hi as int));
        }
    }

    /// Coalesces the list.
    pub fn merge_adjacent_block(&mut self)
        requires
            old(self).wf(),
        ensures
            final(self).wf(),
            separated(final(self).inner@),
            final(self).inner@ == coalesced(old(self).inner@),
            separated(old(self).inner@) ==> final(self).inner@ == old(self).inner@,
    {
        proof {
            lemma_coalesced(self.inner@);
            if separated(self.inner@) {
                lemma_coalesced_separated(self.inner@);
            }
        }
        let n = self.inner.len();
        if n == 0 {
            return;
        }
        let mut out: Vec<(usize, usize)> = Vec::new();
        let mut cur: (usize, usize) = self.inner[0];
        let mut i: usize = 1;
        assert(seq![cur] + self.inner@.subrange(1, n as int) =~= self.inner@);
        while i < n
            invariant
                1 <= i <= n,
                n == self.inner.len(),
                self.wf(),
                cur.0 + cur.1 <= usize::MAX,
                forall|j: int| i <= j < n ==> cur.0 < self.inner@[j].0,
                coalesced(self.inner@) == out@ + coalesced(
                    seq![cur] + self.inner@.subrange(i as int, n as int),
                ),
            decreases n - i,
        {
            let next = self.inner[i];
            let ghost t = seq![cur] + self.inner@.subrange(i as int, n as int);
            assert(t[1] == next);
            if next.0 <= cur.0 + cur.1 {
                let fused = (cur.0, next.0 + next.1 - cur.0);
                assert(seq![fused] + t.subrange(2, t.len() as int) =~= seq![fused]
                    + self.inner@.subrange(i + 1, n as int));
                cur = fused;
            } else {
                assert(t.subrange(1, t.len() as int) =~= seq![next] + self.inner@.subrange(
                    i + 1,
                    n as int,
                ));
                assert(out@ + (seq![cur] + coalesced(t.subrange(1, t.len() as int)))
                    =~= out@.push(cur) + coalesced(t.subrange(1, t.len() as int)));
                out.push(cur);
                cur = next;
            }
            i = i + 1;
        }
        assert(seq![cur] + self.inner@.subrange(n as int, n as int) =~= seq![cur]);
        assert(out@ + seq![cur] =~= out@.push(cur));
        out.push(cur);
        self.inner = out;
    }
}

/// A cursor over a snapshot of the free list, in order of start.
pub struct FreeListIter {
    pub blocks: Vec<(usize, usize)>,
    pub pos: usize,
}

impl FreeListIter {
    /// The block under the cursor, then the cursor moves on; `None` once
    /// every block was handed out.
    pub fn next(&mut self) -> (r: Option<(usize, usize)>)
        ensures
            final(self).blocks@ == old(self).blocks@,
            old(self).pos < old(self).blocks@.len() ==> r == Some(old(self).blocks@[old(self).pos as int])
                && final(self).pos == old(self).pos + 1,
            old(self).pos >= old(self).blocks@.len() ==> r.is_none() && final(self).pos == old(self).pos,
    {
        if self.pos < self.blocks.len() {
            let b = self.blocks[self.pos];
            self.pos = self.pos + 1;
            Some(b)
        } else {
            None
        }
    }
}

} // verus!
