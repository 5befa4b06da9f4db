//! The open-addressing table itself: the backing array of optional entries,
//! the per-bucket offset counters, and the operations on them.

use vstd::prelude::*;
use vstd::pervasive::VecAdditionalExecFns;
use vstd::std_specs::cmp::PartialEqSpec;

verus! {

/// The key type of the table: a machine-word unsigned integer.
pub type Keytype = usize;

/// An owned key/value pair. An entry exists only while it sits in a slot of
/// the backing array; it is moved, never copied, during displacement and
/// rehashing.
pub struct Entry<T> {
    pub key: Keytype,
    pub value: T,
}

impl<T> Entry<T> {
    pub fn new(key: Keytype, value: T) -> (e: Entry<T>)
        ensures
            e.key == key,
            e.value == value,
    {
        Entry { key, value }
    }
}

/// Number of occupied slots in a backing array.
closed spec fn cnt<T>(s: Seq<Option<Entry<T>>>) -> int
    decreases s.len(),
{
    if s.len() == 0 {
        0
    } else {
        cnt(s.drop_last()) + if s.last() is Some {
            1int
        } else {
            0int
        }
    }
}

/// A map from integer keys to values of type `T`, stored open-addressed in a
/// flat array of `stride * stride` slots.
///
/// Bucket `h` (the primary hash, `key % stride`) owns a cyclically wrapping
/// region of the backing array that begins at slot
/// `(h * stride + offsets[h]) mod len` and runs up to the corresponding
/// start slot of bucket `h + 1`. The regions of distinct buckets never
/// overlap, and every live entry sits inside the region of its own bucket,
/// which is what makes the bounded scan of `find_pos` complete.
pub struct IntMap<T> {
    entries: Vec<Option<Entry<T>>>,
    offsets: Vec<usize>,
    stride: Keytype,
}

impl<T> View for IntMap<T> {
    type V = Map<Keytype, T>;

    closed spec fn view(&self) -> Map<Keytype, T> {
        Map::new(
            |k: Keytype| self.spec_contains(k),
            |k: Keytype| self.entries[self.slot_of(k)]->Some_0.value,
        )
    }
}

/// `x - n` if `x` lies past the end of an array of length `n`, for values in
/// `[0, 2n)`: the wrap of a cyclic index computation.
closed spec fn wrap1(x: int, n: int) -> int {
    if x < n {
        x
    } else {
        x - n
    }
}

impl<T> IntMap<T> {
    /// Number of slots in the backing array.
    pub closed spec fn spec_len(self) -> int {
        self.entries.len() as int
    }

    /// The bucket count.
    pub closed spec fn spec_stride(self) -> int {
        self.stride as int
    }

    /// Number of live entries.
    pub closed spec fn spec_count(self) -> int {
        cnt(self.entries@)
    }

    /// The bucket a key belongs to.
    pub closed spec fn spec_hash(self, key: Keytype) -> int {
        key as int % self.spec_stride()
    }

    /// The bucket following `h` in cyclic order.
    closed spec fn nxt(self, h: int) -> int {
        if h + 1 == self.spec_stride() {
            0
        } else {
            h + 1
        }
    }

    /// Start slot of bucket `h`'s region.
    closed spec fn start(self, h: int) -> int {
        wrap1(h * self.spec_stride() + self.offsets[h], self.spec_len())
    }

    /// Cyclic distance from slot `a` forward to slot `x`.
    closed spec fn dist0(self, a: int, x: int) -> int {
        if x >= a {
            x - a
        } else {
            x - a + self.spec_len()
        }
    }

    /// Length of bucket `h`'s region: the cyclic distance from its start
    /// slot to the next bucket's start slot, where coinciding starts mean
    /// the region is the whole array (the single-bucket table).
    closed spec fn gap(self, h: int) -> int {
        let d = self.dist0(self.start(h), self.start(self.nxt(h)));
        if d == 0 {
            self.spec_len()
        } else {
            d
        }
    }

    /// Slot `i` lies in the region of bucket `h`.
    closed spec fn in_region(self, h: int, i: int) -> bool {
        self.dist0(self.start(h), i) < self.gap(h)
    }

    /// The `jj`-th slot of bucket `h`'s region.
    closed spec fn slot_at(self, h: int, jj: int) -> int {
        wrap1(self.start(h) + jj, self.spec_len())
    }

    /// The regions of distinct buckets never overlap.
    closed spec fn disjoint(self) -> bool {
        forall|h1: int, h2: int, i: int|
            0 <= h1 < self.spec_stride() && 0 <= h2 < self.spec_stride() && 0 <= i
                < self.spec_len() && #[trigger] self.in_region(h1, i) && #[trigger] self.in_region(
                h2,
                i,
            ) ==> h1 == h2
    }

    /// Every live entry lies in the region of the bucket its key hashes to.
    closed spec fn placed(self) -> bool {
        forall|i: int|
            0 <= i < self.spec_len() && self.entries[i] is Some ==> self.in_region(
                self.spec_hash(#[trigger] self.entries[i]->Some_0.key),
                i,
            )
    }

    /// No key occurs in two distinct slots.
    closed spec fn unique_keys(self) -> bool {
        forall|i: int, j: int|
            0 <= i < self.spec_len() && 0 <= j < self.spec_len() && self.entries[i] is Some
                && self.entries[j] is Some && #[trigger] self.entries[i]->Some_0.key
                == #[trigger] self.entries[j]->Some_0.key ==> i == j
    }

    /// The structural part of well-formedness: array and offset lengths
    /// match the stride, offsets are kept normalized below the array length,
    /// and keys are unique. Rehashing needs no more than this of its source.
    closed spec fn wf_base(self) -> bool {
        &&& self.spec_stride() >= 1
        &&& self.offsets.len() == self.spec_stride()
        &&& self.spec_len() == self.spec_stride() * self.spec_stride()
        &&& forall|h: int| 0 <= h < self.spec_stride() ==> #[trigger] self.offsets[h] < self.spec_len()
        &&& self.unique_keys()
    }

    /// Full well-formedness; every public operation preserves this.
    pub closed spec fn wf(self) -> bool {
        &&& self.wf_base()
        &&& self.disjoint()
        &&& self.placed()
    }

    /// Whether some slot holds the key.
    pub closed spec fn spec_contains(self, key: Keytype) -> bool {
        exists|i: int|
            0 <= i < self.spec_len() && self.entries[i] is Some
                && (#[trigger] self.entries[i])->Some_0.key == key
    }

    /// The slot holding the key (meaningful only when `spec_contains`).
    closed spec fn slot_of(self, key: Keytype) -> int {
        choose|i: int|
            0 <= i < self.spec_len() && self.entries[i] is Some
                && (#[trigger] self.entries[i])->Some_0.key == key
    }

    /// Room for one insertion's worst-case growth: rebuilding at a stride of
    /// at most `stride + count + 1` must give a slot array whose size fits in
    /// a machine word. The first disjunct is the everyday case and needs only
    /// linear arithmetic of a caller; the second admits every table the
    /// machine itself could hold.
    pub open spec fn growth_headroom(self) -> bool {
        ||| self.spec_stride() + self.spec_count() <= 0xfffe
        ||| (self.spec_stride() + self.spec_count() + 1) * (self.spec_stride() + self.spec_count()
            + 1) <= usize::MAX
    }

    /// All offset counters are zero: every bucket's region is exactly its
    /// base block of `stride` slots, as in a freshly built table.
    pub closed spec fn offsets_zero(self) -> bool {
        forall|h: int| 0 <= h < self.spec_stride() ==> #[trigger] self.offsets[h] == 0
    }

    /// Region starts are in bounds, and region lengths are between 1 and the
    /// array length.
    proof fn lemma_start_bounds(self, h: int)
        requires
            self.wf_base(),
            0 <= h < self.spec_stride(),
        ensures
            h * self.spec_stride() + self.spec_stride() <= self.spec_len(),
            0 <= self.start(h) < self.spec_len(),
            0 <= self.start(self.nxt(h)) < self.spec_len(),
            1 <= self.gap(h) <= self.spec_len(),
    {
        let s = self.spec_stride();
        assert(h * s + s <= s * s) by (nonlinear_arith)
            requires
                0 <= h < s,
        ;
        assert(self.nxt(h) * s + s <= s * s) by (nonlinear_arith)
            requires
                0 <= self.nxt(h) < s,
        ;
        assert(0 <= h * s) by (nonlinear_arith)
            requires
                0 <= h && 0 <= s,
        ;
        assert(0 <= self.nxt(h) * s) by (nonlinear_arith)
            requires
                0 <= self.nxt(h) && 0 <= s,
        ;
    }

    /// The `jj`-th slot of bucket `h`'s region is a valid array index, lies
    /// in the region, and sits at cyclic distance `jj` from its start.
    proof fn lemma_slot_at(self, h: int, jj: int)
        requires
            self.wf_base(),
            0 <= h < self.spec_stride(),
            0 <= jj < self.gap(h),
        ensures
            0 <= self.slot_at(h, jj) < self.spec_len(),
            self.dist0(self.start(h), self.slot_at(h, jj)) == jj,
            self.in_region(h, self.slot_at(h, jj)),
    {
        self.lemma_start_bounds(h);
    }

    /// Conversely, every slot of a region is the `jj`-th slot for the cyclic
    /// distance `jj` from the region's start.
    proof fn lemma_region_index(self, h: int, i: int)
        requires
            self.wf_base(),
            0 <= h < self.spec_stride(),
            0 <= i < self.spec_len(),
            self.in_region(h, i),
        ensures
            0 <= self.dist0(self.start(h), i) < self.gap(h),
            i == self.slot_at(h, self.dist0(self.start(h), i)),
    {
        self.lemma_start_bounds(h);
    }

    /// In a table whose offset counters are all zero, bucket `h`'s region is
    /// exactly the plain block `[h * stride, (h + 1) * stride)`, and the
    /// regions are disjoint.
    proof fn lemma_offsets_zero_regions(self)
        requires
            self.wf_base(),
            self.offsets_zero(),
        ensures
            forall|h: int|
                0 <= h < self.spec_stride() ==> #[trigger] self.start(h) == h * self.spec_stride()
                    && self.gap(h) == self.spec_stride(),
            forall|h: int, i: int|
                0 <= h < self.spec_stride() && 0 <= i < self.spec_len() ==> (#[trigger] self.in_region(
                    h,
                    i,
                ) <==> h * self.spec_stride() <= i < h * self.spec_stride() + self.spec_stride()),
            self.disjoint(),
    {
        let s = self.spec_stride();
        let n = self.spec_len();
        assert forall|h: int| 0 <= h < s implies #[trigger] self.start(h) == h * s && self.gap(h)
            == s by {
            self.lemma_start_bounds(h);
            if h + 1 == s {
                assert((s - 1) * s + s == s * s) by (nonlinear_arith);
                assert(self.start(self.nxt(h)) == 0);
            } else {
                assert((h + 1) * s == h * s + s) by (nonlinear_arith);
            }
        }
        assert forall|h: int, i: int| 0 <= h < s && 0 <= i < n implies (#[trigger] self.in_region(
            h,
            i,
        ) <==> h * s <= i < h * s + s) by {
            self.lemma_start_bounds(h);
        }
        assert forall|h1: int, h2: int, i: int|
            0 <= h1 < s && 0 <= h2 < s && 0 <= i < n && #[trigger] self.in_region(h1, i)
                && #[trigger] self.in_region(h2, i) implies h1 == h2 by {
            self.lemma_start_bounds(h1);
            self.lemma_start_bounds(h2);
            assert(h1 * s <= i < h1 * s + s);
            assert(h2 * s <= i < h2 * s + s);
            assert(h1 == h2) by (nonlinear_arith)
                requires
                    h1 * s <= i < h1 * s + s && h2 * s <= i < h2 * s + s && s >= 1,
            ;
        }
    }

    /// What the abstract view says, slot by slot.
    proof fn lemma_view_chr(self, k: Keytype)
        requires
            self.unique_keys(),
        ensures
            self@.dom().contains(k) <==> self.spec_contains(k),
            self.spec_contains(k) ==> {
                &&& 0 <= self.slot_of(k) < self.spec_len()
                &&& self.entries[self.slot_of(k)] is Some
                &&& self.entries[self.slot_of(k)]->Some_0.key == k
                &&& self@[k] == self.entries[self.slot_of(k)]->Some_0.value
            },
            forall|i: int|
                0 <= i < self.spec_len() && self.entries[i] is Some
                    && (#[trigger] self.entries[i])->Some_0.key == k ==> self.slot_of(k) == i,
    {
        if self.spec_contains(k) {
            let i0 = self.slot_of(k);
            assert forall|i: int|
                0 <= i < self.spec_len() && self.entries[i] is Some
                    && (#[trigger] self.entries[i])->Some_0.key == k implies self.slot_of(k)
                == i by {
                assert(self.entries[i0] is Some && self.entries[i0]->Some_0.key == k);
            }
        }
    }
}

/// The count of occupied slots is between 0 and the array length.
proof fn lemma_cnt_bounds<T>(s: Seq<Option<Entry<T>>>)
    ensures
        0 <= cnt(s) <= s.len(),
    decreases s.len(),
{
    if s.len() > 0 {
        lemma_cnt_bounds(s.drop_last());
    }
}

/// Overwriting one slot changes the count by the difference of the old and
/// new slot states.
proof fn lemma_cnt_update<T>(s: Seq<Option<Entry<T>>>, i: int, v: Option<Entry<T>>)
    requires
        0 <= i < s.len(),
    ensures
        cnt(s.update(i, v)) == cnt(s) - (if s[i] is Some {
            1int
        } else {
            0int
        }) + (if v is Some {
            1int
        } else {
            0int
        }),
    decreases s.len(),
{
    let su = s.update(i, v);
    if i == s.len() - 1 {
        assert(su.drop_last() =~= s.drop_last());
    } else {
        assert(su.drop_last() =~= s.drop_last().update(i, v));
        lemma_cnt_update(s.drop_last(), i, v);
    }
}

/// A prefix never holds more occupied slots than the whole array.
proof fn lemma_cnt_take_le<T>(s: Seq<Option<Entry<T>>>, i: int)
    requires
        0 <= i <= s.len(),
    ensures
        cnt(s.take(i)) <= cnt(s),
    decreases s.len(),
{
    if i == s.len() {
        assert(s.take(i) =~= s);
    } else {
        assert(s.drop_last().take(i) =~= s.take(i));
        lemma_cnt_take_le(s.drop_last(), i);
    }
}

/// If every slot of `[lo, hi)` is occupied, at least `hi - lo` slots are
/// occupied overall.
proof fn lemma_cnt_atleast<T>(s: Seq<Option<Entry<T>>>, lo: int, hi: int)
    requires
        0 <= lo <= hi <= s.len(),
        forall|i: int| lo <= i < hi ==> s[i] is Some,
    ensures
        cnt(s) >= hi - lo,
    decreases s.len(),
{
    if s.len() > 0 {
        if hi == s.len() {
            if lo < hi {
                lemma_cnt_atleast(s.drop_last(), lo, hi - 1);
            } else {
                lemma_cnt_bounds(s);
            }
        } else {
            lemma_cnt_atleast(s.drop_last(), lo, hi);
        }
    }
}

impl<T> IntMap<T> {
    /// Creates an empty table with `stride` buckets: `stride * stride` empty
    /// slots and `stride` zero offsets. A zero stride is a precondition
    /// violation, not a recoverable error.
    pub fn new(stride: Keytype) -> (m: IntMap<T>)
        requires
            stride >= 1,
            stride * stride <= usize::MAX,
        ensures
            m.wf(),
            m@ == Map::<Keytype, T>::empty(),
            m.spec_count() == 0,
            m.spec_stride() == stride,
            m.offsets_zero(),
    {
        let total: usize = stride * stride;
        let mut entries: Vec<Option<Entry<T>>> = Vec::new();
        let mut i: usize = 0;
        while i < total
            invariant
                i <= total,
                entries.len() == i,
                forall|j: int| 0 <= j < i ==> entries[j] is None,
                cnt(entries@) == 0,
            decreases total - i,
        {
            let ghost pre = entries@;
            entries.push(None);
            proof {
                assert(entries@.drop_last() =~= pre);
            }
            i = i + 1;
        }
        let mut offsets: Vec<usize> = Vec::new();
        let mut h: usize = 0;
        while h < stride
            invariant
                h <= stride,
                offsets.len() == h,
                forall|j: int| 0 <= j < h ==> offsets[j] == 0,
            decreases stride - h,
        {
            offsets.push(0);
            h = h + 1;
        }
        let m = IntMap { entries, offsets, stride };
        proof {
            assert(stride * stride >= 1) by (nonlinear_arith)
                requires
                    stride >= 1,
            ;
            assert(m.wf_base());
            m.lemma_offsets_zero_regions();
            assert(m@ =~= Map::<Keytype, T>::empty());
        }
        m
    }

    /// The start slot of bucket `h`'s region, as stored in the offsets.
    fn start_slot(&self, h: usize) -> (r: usize)
        requires
            self.wf_base(),
            h < self.spec_stride(),
        ensures
            r == self.start(h as int),
    {
        proof {
            self.lemma_start_bounds(h as int);
        }
        let len = self.entries.len();
        let base: usize = h * self.stride;
        let off: usize = self.offsets[h];
        if off < len - base {
            base + off
        } else {
            off - (len - base)
        }
    }

    /// The start slot and length of bucket `h`'s region.
    fn region_bounds(&self, h: usize) -> (r: (usize, usize))
        requires
            self.wf_base(),
            h < self.spec_stride(),
        ensures
            r.0 == self.start(h as int),
            r.1 == self.gap(h as int),
            1 <= r.1 <= self.spec_len(),
            0 <= r.0 < self.spec_len(),
    {
        proof {
            self.lemma_start_bounds(h as int);
        }
        let len = self.entries.len();
        let st = self.start_slot(h);
        let hn: usize = if h + 1 == self.stride {
            0
        } else {
            h + 1
        };
        let sn = self.start_slot(hn);
        let d: usize = if sn >= st {
            sn - st
        } else {
            sn + (len - st)
        };
        let g: usize = if d == 0 {
            len
        } else {
            d
        };
        (st, g)
    }

    /// The bucket preceding `h` in cyclic order.
    closed spec fn prv(self, h: int) -> int {
        if h == 0 {
            self.spec_stride() - 1
        } else {
            h - 1
        }
    }

    /// Advances the start slot of bucket `m`'s region by one: the region of
    /// bucket `m` gives up its front slot, which becomes the last slot of
    /// the preceding bucket's region. The counter is kept normalized below
    /// the array length.
    fn inc_offset(&mut self, m: usize)
        requires
            old(self).wf_base(),
            old(self).disjoint(),
            m < old(self).spec_stride(),
            old(self).spec_stride() >= 2,
            old(self).gap(m as int) >= 2,
        ensures
            final(self).entries == old(self).entries,
            final(self).stride == old(self).stride,
            final(self).wf_base(),
            final(self).disjoint(),
            final(self).start(m as int) == wrap1(
                old(self).start(m as int) + 1,
                old(self).spec_len(),
            ),
            forall|h: int|
                0 <= h < old(self).spec_stride() && h != m ==> final(self).start(h) == old(
                    self,
                ).start(h),
            final(self).gap(m as int) == old(self).gap(m as int) - 1,
            final(self).gap(old(self).prv(m as int)) == old(self).gap(old(self).prv(m as int)) + 1,
            forall|h: int|
                0 <= h < old(self).spec_stride() && h != m && h != old(self).prv(m as int)
                    ==> final(self).gap(h) == old(self).gap(h),
            forall|i: int|
                0 <= i < old(self).spec_len() ==> (final(self).in_region(m as int, i) <==> old(
                    self,
                ).in_region(m as int, i) && i != old(self).start(m as int)),
            forall|i: int|
                0 <= i < old(self).spec_len() ==> (final(self).in_region(
                    old(self).prv(m as int),
                    i,
                ) <==> old(self).in_region(old(self).prv(m as int), i) || i == old(self).start(
                    m as int,
                )),
            forall|h: int, i: int|
                0 <= h < old(self).spec_stride() && h != m && h != old(self).prv(m as int) && 0 <= i
                    < old(self).spec_len() ==> (final(self).in_region(h, i) <==> old(
                    self,
                ).in_region(h, i)),
    {
        proof {
            self.lemma_start_bounds(m as int);
        }
        let len = self.entries.len();
        let o: usize = self.offsets[m];
        let no: usize = if o + 1 == len {
            0
        } else {
            o + 1
        };
        let ghost pre = *self;
        self.offsets.set(m, no);
        proof {
            let s = pre.spec_stride();
            let n = pre.spec_len();
            let mi = m as int;
            let pm = pre.prv(mi);
            let nm = pre.nxt(mi);
            let st_m = pre.start(mi);
            let st_m2 = wrap1(st_m + 1, n);
            pre.lemma_start_bounds(pm);
            pre.lemma_start_bounds(nm);
            assert(mi * s + s <= n && 0 <= mi * s) by (nonlinear_arith)
                requires
                    0 <= mi < s && n == s * s,
            ;
            // same offsets elsewhere, so same starts elsewhere
            assert forall|h: int| 0 <= h < s && h != mi implies self.start(h) == pre.start(h) by {}
            // the new start of bucket m is one slot further
            assert(self.start(mi) == st_m2);
            assert(self.wf_base());
            // m is its own neighbour only in a single-bucket table
            assert(pm != mi && nm != mi);
            let st_p = pre.start(pm);
            let st_n = pre.start(nm);
            // coinciding starts would put one region's start inside another
            assert(st_p != st_m) by {
                if st_p == st_m {
                    assert(pre.in_region(pm, st_p));
                    assert(pre.in_region(mi, st_m));
                }
            }
            assert(st_n != st_m) by {
                if st_n == st_m {
                    assert(pre.in_region(nm, st_n));
                    assert(pre.in_region(mi, st_m));
                }
            }
            // the slot one past m's start is still inside m's region
            assert(st_m2 != st_p) by {
                if st_m2 == st_p {
                    assert(pre.dist0(st_m, st_p) == 1);
                    assert(pre.in_region(mi, st_p));
                    assert(pre.in_region(pm, st_p));
                }
            }
            // gap changes
            assert(pre.gap(mi) == pre.dist0(st_m, st_n));
            assert(self.gap(mi) == pre.dist0(st_m, st_n) - 1);
            assert(pre.gap(pm) == pre.dist0(st_p, st_m));
            assert(self.gap(pm) == pre.dist0(st_p, st_m) + 1);
            assert forall|h: int|
                0 <= h < s && h != mi && h != pm implies self.gap(h) == pre.gap(h) by {}
            // membership changes
            assert forall|i: int| 0 <= i < n implies (self.in_region(mi, i) <==> pre.in_region(
                mi,
                i,
            ) && i != st_m) by {
                if i == st_m {
                    assert(self.dist0(st_m2, i) == n - 1);
                } else {
                    assert(self.dist0(st_m2, i) == pre.dist0(st_m, i) - 1);
                }
            }
            assert forall|i: int| 0 <= i < n implies (self.in_region(pm, i) <==> pre.in_region(
                pm,
                i,
            ) || i == st_m) by {
                assert(pre.dist0(st_p, i) == pre.dist0(st_p, st_m) <==> i == st_m);
            }
            assert forall|h: int, i: int|
                0 <= h < s && h != mi && h != pm && 0 <= i < n implies (self.in_region(h, i)
                <==> pre.in_region(h, i)) by {
                assert(pre.nxt(h) != mi);
                assert(self.start(h) == pre.start(h));
                assert(self.start(pre.nxt(h)) == pre.start(pre.nxt(h)));
            }
            // regions still never overlap
            assert forall|h1: int, h2: int, i: int|
                0 <= h1 < s && 0 <= h2 < s && 0 <= i < n && #[trigger] self.in_region(h1, i)
                    && #[trigger] self.in_region(h2, i) implies h1 == h2 by {
                if h1 != h2 {
                    if self.in_region(h1, i) && self.in_region(h2, i) {
                        if i == st_m {
                            assert(h1 == pm || pre.in_region(h1, i));
                            assert(h2 == pm || pre.in_region(h2, i));
                            assert(pre.in_region(mi, st_m));
                        } else {
                            assert(pre.in_region(h1, i));
                            assert(pre.in_region(h2, i));
                        }
                    }
                }
            }
        }
    }

    /// First free slot of bucket `h`'s region, scanned in region order.
    #[verifier::loop_isolation(false)]
    fn free_in_region(&self, h: usize) -> (r: Option<usize>)
        requires
            self.wf_base(),
            h < self.spec_stride(),
        ensures
            match r {
                Some(i) => 0 <= i < self.spec_len() && self.entries[i as int] is None
                    && self.in_region(h as int, i as int),
                None => forall|i: int|
                    0 <= i < self.spec_len() && self.in_region(h as int, i)
                        ==> self.entries[i] is Some,
            },
    {
        let (st, g) = self.region_bounds(h);
        let len = self.entries.len();
        let mut jj: usize = 0;
        while jj < g
            invariant
                jj <= g,
                forall|q: int| 0 <= q < jj ==> self.entries[self.slot_at(h as int, q)] is Some,
            decreases g - jj,
        {
            proof {
                self.lemma_slot_at(h as int, jj as int);
            }
            let idx: usize = if jj < len - st {
                st + jj
            } else {
                jj - (len - st)
            };
            if self.entries[idx].is_none() {
                return Some(idx);
            }
            jj = jj + 1;
        }
        proof {
            assert forall|i: int|
                0 <= i < self.spec_len() && self.in_region(h as int, i) implies self.entries[i]
                is Some by {
                self.lemma_region_index(h as int, i);
            }
        }
        None
    }

    /// Looks the key up inside its bucket's current region: computes the
    /// cyclic range from the bucket's start slot to the next bucket's start
    /// slot and scans it in array order for a slot holding the key. The
    /// bounded scan is complete because every live entry lies inside its own
    /// bucket's region.
    #[verifier::loop_isolation(false)]
    fn find_pos(&self, key: Keytype) -> (r: Option<usize>)
        requires
            self.wf(),
        ensures
            match r {
                Some(i) => 0 <= i < self.spec_len() && self.entries[i as int] is Some
                    && self.entries[i as int]->Some_0.key == key,
                None => !self.spec_contains(key),
            },
    {
        let h: usize = key % self.stride;
        let (st, g) = self.region_bounds(h);
        let len = self.entries.len();
        let mut jj: usize = 0;
        while jj < g
            invariant
                jj <= g,
                forall|q: int|
                    0 <= q < jj ==> !(self.entries[#[trigger] self.slot_at(h as int, q)] is Some
                        && self.entries[self.slot_at(h as int, q)]->Some_0.key == key),
            decreases g - jj,
        {
            proof {
                self.lemma_slot_at(h as int, jj as int);
            }
            let idx: usize = if jj < len - st {
                st + jj
            } else {
                jj - (len - st)
            };
            match &self.entries[idx] {
                Some(e) => {
                    if e.key == key {
                        return Some(idx);
                    }
                },
                None => {},
            }
            jj = jj + 1;
        }
        proof {
            if self.spec_contains(key) {
                self.lemma_view_chr(key);
                let i = self.slot_of(key);
                assert(self.in_region(h as int, i));
                self.lemma_region_index(h as int, i);
            }
        }
        None
    }

    /// Writing an entry for `key` into a suitable slot turns the view into
    /// `insert(key, value)`: either the slot already held the key, or it was
    /// free, lies in the key's bucket region, and the key was absent.
    proof fn lemma_write_slot(pre: Self, post: Self, i: int, key: Keytype, value: T)
        requires
            pre.wf(),
            0 <= i < pre.spec_len(),
            post.entries@ == pre.entries@.update(i, Some(Entry { key, value })),
            post.offsets == pre.offsets,
            post.stride == pre.stride,
            pre.entries[i] is Some ==> pre.entries[i]->Some_0.key == key,
            pre.entries[i] is None ==> pre.in_region(pre.spec_hash(key), i)
                && !pre.spec_contains(key),
        ensures
            post.wf(),
            post@ == pre@.insert(key, value),
            post.spec_count() == pre.spec_count() + (if pre.entries[i] is Some {
                0int
            } else {
                1int
            }),
            post.spec_contains(key),
    {
        let n = pre.spec_len();
        assert(post.spec_len() == n);
        assert forall|h: int, q: int| #![all_triggers] 0 <= h < pre.spec_stride() && 0 <= q
            < n implies (post.in_region(h, q) <==> pre.in_region(h, q)) by {}
        if pre.entries[i] is Some {
            pre.lemma_view_chr(key);
        }
        assert(post.unique_keys()) by {
            assert forall|a: int, b: int|
                0 <= a < n && 0 <= b < n && post.entries[a] is Some && post.entries[b] is Some
                    && #[trigger] post.entries[a]->Some_0.key
                    == #[trigger] post.entries[b]->Some_0.key implies a == b by {
                if a != b {
                    if a != i && b != i {
                        assert(pre.entries[a] == post.entries[a]);
                    } else {
                        let oth = if a == i {
                            b
                        } else {
                            a
                        };
                        assert(pre.entries[oth] is Some && pre.entries[oth]->Some_0.key == key);
                        assert(pre.spec_contains(key));
                        pre.lemma_view_chr(key);
                    }
                }
            }
        }
        assert(post.placed()) by {
            assert forall|q: int|
                0 <= q < n && post.entries[q] is Some implies post.in_region(
                post.spec_hash(#[trigger] post.entries[q]->Some_0.key),
                q,
            ) by {
                if q != i {
                    assert(pre.entries[q] == post.entries[q]);
                }
            }
        }
        assert forall|k: Keytype| true implies (post.spec_contains(k) <==> (pre.spec_contains(k)
            || k == key)) by {
            if post.spec_contains(k) {
                let w = choose|q: int|
                    0 <= q < n && post.entries[q] is Some && (#[trigger] post.entries[q])->Some_0.key
                        == k;
                if w != i {
                    assert(pre.entries[w] is Some && pre.entries[w]->Some_0.key == k);
                }
            }
            if pre.spec_contains(k) && k != key {
                let w = choose|q: int|
                    0 <= q < n && pre.entries[q] is Some && (#[trigger] pre.entries[q])->Some_0.key
                        == k;
                assert(w != i);
                assert(post.entries[w] is Some && post.entries[w]->Some_0.key == k);
            }
            if k == key {
                assert(post.entries[i] is Some && post.entries[i]->Some_0.key == key);
            }
        }
        assert(post@ =~= pre@.insert(key, value)) by {
            assert forall|k: Keytype| #[trigger] post@.dom().contains(k) implies post@[k] == pre@.insert(
                key,
                value,
            )[k] by {
                post.lemma_view_chr(k);
                if k == key {
                    assert(post.slot_of(key) == i);
                } else {
                    pre.lemma_view_chr(k);
                    assert(post.entries[pre.slot_of(k)] is Some
                        && post.entries[pre.slot_of(k)]->Some_0.key == k);
                    assert(post.slot_of(k) == pre.slot_of(k));
                }
            }
            assert forall|k: Keytype| true implies (post@.dom().contains(k) <==> pre@.insert(
                key,
                value,
            ).dom().contains(k)) by {
                post.lemma_view_chr(k);
                pre.lemma_view_chr(k);
            }
        }
        lemma_cnt_update(pre.entries@, i, Some(Entry { key, value }));
    }

    /// The bucket reached from `h` after `d` cyclic steps forward.
    closed spec fn bucket_at(self, h: int, d: int) -> int {
        wrap1(h + d, self.spec_stride())
    }

    /// A fully occupied bucket region in a table with zero offsets pins the
    /// total count at the stride or above.
    proof fn lemma_full_region_count(self, h: int)
        requires
            self.wf_base(),
            self.offsets_zero(),
            0 <= h < self.spec_stride(),
            forall|i: int|
                0 <= i < self.spec_len() && self.in_region(h, i) ==> self.entries[i] is Some,
        ensures
            self.spec_count() >= self.spec_stride(),
    {
        let s = self.spec_stride();
        self.lemma_offsets_zero_regions();
        self.lemma_start_bounds(h);
        assert forall|i: int| h * s <= i < h * s + s implies self.entries[i] is Some by {
            assert(self.in_region(h, i));
        }
        lemma_cnt_atleast(self.entries@, h * s, h * s + s);
    }

    /// Walks the chain of buckets from `h` forward, looking for the first
    /// one whose region still has a free slot. Returns that bucket, the free
    /// slot, and the number of steps taken; or nothing when every bucket has
    /// been tried or the next bucket's region is too small to give up a
    /// slot, in which case only a rehash can make room.
    #[verifier::loop_isolation(false)]
    fn chain_end(&self, h: usize) -> (r: Option<(usize, usize, usize)>)
        requires
            self.wf(),
            h < self.spec_stride(),
        ensures
            match r {
                Some(t) => {
                    &&& t.0 < self.spec_stride()
                    &&& 0 <= t.1 < self.spec_len()
                    &&& t.2 < self.spec_stride()
                    &&& t.0 == self.bucket_at(h as int, t.2 as int)
                    &&& self.entries[t.1 as int] is None
                    &&& self.in_region(t.0 as int, t.1 as int)
                    &&& forall|k: int|
                        1 <= k <= t.2 ==> self.gap(#[trigger] self.bucket_at(h as int, k)) >= 2
                },
                None => forall|i: int|
                    0 <= i < self.spec_len() && self.in_region(h as int, i)
                        ==> self.entries[i] is Some,
            },
            (self.offsets_zero() && self.spec_count() < self.spec_stride()) ==> (r is Some
                && r->Some_0.2 == 0),
    {
        let mut j: usize = h;
        let mut d: usize = 0;
        loop
            invariant
                d < self.spec_stride(),
                j < self.spec_stride(),
                j == self.bucket_at(h as int, d as int),
                forall|k: int|
                    1 <= k <= d ==> self.gap(#[trigger] self.bucket_at(h as int, k)) >= 2,
                d >= 1 ==> forall|i: int|
                    0 <= i < self.spec_len() && self.in_region(h as int, i)
                        ==> self.entries[i] is Some,
            decreases self.spec_stride() - d,
        {
            match self.free_in_region(j) {
                Some(i) => {
                    proof {
                        if self.offsets_zero() && self.spec_count() < self.spec_stride() && d >= 1 {
                            self.lemma_full_region_count(h as int);
                        }
                    }
                    return Some((j, i, d));
                },
                None => {
                    d = d + 1;
                    proof {
                        if self.offsets_zero() && self.spec_count() < self.spec_stride() {
                            self.lemma_full_region_count(h as int);
                        }
                    }
                    if d == self.stride {
                        return None;
                    }
                    let jn: usize = if j + 1 == self.stride {
                        0
                    } else {
                        j + 1
                    };
                    let (_, gn) = self.region_bounds(jn);
                    if gn < 2 {
                        return None;
                    }
                    j = jn;
                },
            }
        }
    }

    /// Swapping the contents of two slots permutes the entries: the view,
    /// the count, and key uniqueness are untouched.
    proof fn lemma_swap_view(pre: Self, post: Self, a: int, b: int)
        requires
            pre.unique_keys(),
            0 <= a < pre.spec_len(),
            0 <= b < pre.spec_len(),
            post.entries@ == pre.entries@.update(a, pre.entries@[b]).update(b, pre.entries@[a]),
            post.offsets == pre.offsets,
            post.stride == pre.stride,
        ensures
            post.unique_keys(),
            forall|k: Keytype| post.spec_contains(k) == pre.spec_contains(k),
            post@ == pre@,
            post.spec_count() == pre.spec_count(),
    {
        let n = pre.spec_len();
        let sigma = |x: int|
            if x == a {
                b
            } else if x == b {
                a
            } else {
                x
            };
        assert forall|x: int| 0 <= x < n implies post.entries[x] == pre.entries[sigma(x)] by {}
        assert(post.unique_keys()) by {
            assert forall|x: int, y: int|
                0 <= x < n && 0 <= y < n && post.entries[x] is Some && post.entries[y] is Some
                    && #[trigger] post.entries[x]->Some_0.key
                    == #[trigger] post.entries[y]->Some_0.key implies x == y by {
                assert(pre.entries[sigma(x)] is Some && pre.entries[sigma(y)] is Some);
                assert(pre.entries[sigma(x)]->Some_0.key == pre.entries[sigma(y)]->Some_0.key);
            }
        }
        assert forall|k: Keytype| true implies post.spec_contains(k) == pre.spec_contains(k) by {
            if pre.spec_contains(k) {
                let w = choose|q: int|
                    0 <= q < n && pre.entries[q] is Some && (#[trigger] pre.entries[q])->Some_0.key
                        == k;
                assert(post.entries[sigma(w)] == pre.entries[w]);
            }
            if post.spec_contains(k) {
                let w = choose|q: int|
                    0 <= q < n && post.entries[q] is Some && (#[trigger] post.entries[q])->Some_0.key
                        == k;
                assert(pre.entries[sigma(w)] == post.entries[w]);
            }
        }
        assert(post@ =~= pre@) by {
            assert forall|k: Keytype| #[trigger] post@.dom().contains(k) implies post@[k]
                == pre@[k] by {
                post.lemma_view_chr(k);
                pre.lemma_view_chr(k);
                let w = pre.slot_of(k);
                assert(post.entries[sigma(w)] == pre.entries[w]);
                assert(post.slot_of(k) == sigma(w));
            }
            assert forall|k: Keytype| true implies (post@.dom().contains(k) <==> pre@.dom().contains(
                k,
            )) by {
                post.lemma_view_chr(k);
                pre.lemma_view_chr(k);
            }
        }
        lemma_cnt_update(pre.entries@, a, pre.entries@[b]);
        lemma_cnt_update(pre.entries@.update(a, pre.entries@[b]), b, pre.entries@[a]);
    }

    /// The displacement algorithm: finds a free slot for an entry of bucket
    /// `h`, cascading one slot forward through the chain of successor
    /// buckets when `h`'s region is full. Each step hands the front slot of
    /// the successor's region over to its predecessor and moves the entry
    /// that lived there deeper into the chain, so every live entry stays in
    /// its own bucket's region. Returns nothing when no slot can be claimed
    /// this round; the table is then unchanged and only a rehash makes room.
    #[verifier::loop_isolation(false)]
    #[verifier::rlimit(100)]
    fn find_free(&mut self, h: usize) -> (r: Option<usize>)
        requires
            old(self).wf(),
            h < old(self).spec_stride(),
        ensures
            final(self).wf(),
            final(self).spec_stride() == old(self).spec_stride(),
            final(self).spec_len() == old(self).spec_len(),
            final(self).spec_count() == old(self).spec_count(),
            final(self)@ == old(self)@,
            match r {
                Some(i) => 0 <= i < final(self).spec_len() && final(self).entries[i as int] is None
                    && final(self).in_region(h as int, i as int),
                None => *final(self) == *old(self) && (forall|i: int|
                    0 <= i < old(self).spec_len() && old(self).in_region(h as int, i) ==> old(
                        self,
                    ).entries[i] is Some),
            },
            (old(self).offsets_zero() && old(self).spec_count() < old(self).spec_stride()) ==> (
            r is Some && *final(self) == *old(self)),
    {
        match self.chain_end(h) {
            None => None,
            Some((j, i, d)) => {
                if d == 0 {
                    return Some(i);
                }
                let mut m: usize = j;
                let mut free: usize = i;
                let mut steps: usize = d;
                while steps > 0
                    invariant
                        self.wf(),
                        self.spec_stride() == old(self).spec_stride(),
                        self.spec_len() == old(self).spec_len(),
                        self.spec_count() == old(self).spec_count(),
                        self@ == old(self)@,
                        self.spec_stride() >= 2,
                        steps <= d,
                        m < self.spec_stride(),
                        m == self.bucket_at(h as int, steps as int),
                        free < self.spec_len(),
                        self.entries[free as int] is None,
                        self.in_region(m as int, free as int),
                        forall|k: int|
                            1 <= k <= steps ==> self.gap(#[trigger] self.bucket_at(h as int, k))
                                >= 2,
                    decreases steps,
                {
                    let w = self.start_slot(m);
                    let ghost pre = *self;
                    proof {
                        pre.lemma_start_bounds(m as int);
                        assert(pre.gap(m as int) >= 2);
                        assert(pre.in_region(m as int, w as int));
                    }
                    self.inc_offset(m);
                    let ghost mid = *self;
                    proof {
                        // the predecessor of m in the chain coordinates
                        assert(pre.prv(m as int) == pre.bucket_at(h as int, steps as int - 1));
                    }
                    self.swap_slots(w, free);
                    proof {
                        let n = pre.spec_len();
                        let s = pre.spec_stride();
                        let mi = m as int;
                        let pm = pre.prv(mi);
                        let wi = w as int;
                        let fi = free as int;
                        assert(mid.entries == pre.entries);
                        Self::lemma_swap_view(mid, *self, wi, fi);
                        // membership is untouched by the slot swap
                        assert forall|hq: int, q: int| #![all_triggers] 0 <= hq < s && 0 <= q
                            < n implies (self.in_region(hq, q) <==> mid.in_region(hq, q)) by {}
                        // every entry still sits in its own bucket's region
                        assert(self.placed()) by {
                            assert forall|q: int|
                                0 <= q < n && self.entries[q] is Some implies self.in_region(
                                self.spec_hash(#[trigger] self.entries[q]->Some_0.key),
                                q,
                            ) by {
                                if q == fi && wi != fi {
                                    // the displaced entry came from m's old front slot
                                    assert(self.entries[q] == pre.entries[wi]);
                                    if pre.entries[wi] is Some {
                                        let key = pre.entries[wi]->Some_0.key;
                                        assert(pre.in_region(pre.spec_hash(key), wi));
                                        assert(pre.spec_hash(key) == mi);
                                        assert(mid.in_region(mi, fi));
                                    }
                                } else if q == wi {
                                    assert(self.entries[q] is None);
                                } else {
                                    assert(self.entries[q] == pre.entries[q]);
                                    let key = self.entries[q]->Some_0.key;
                                    assert(pre.in_region(pre.spec_hash(key), q));
                                    if pre.spec_hash(key) == mi {
                                        assert(q != pre.start(mi));
                                        assert(mid.in_region(mi, q));
                                    } else if pre.spec_hash(key) == pm {
                                        assert(mid.in_region(pm, q));
                                    } else {
                                        assert(mid.in_region(pre.spec_hash(key), q));
                                    }
                                }
                            }
                        }
                        assert(self.wf());
                        // the freed slot now lies in the predecessor's region
                        assert(mid.in_region(pm, wi));
                        // the chain's gap guarantees survive the boundary move
                        assert forall|k: int|
                            1 <= k <= steps as int - 1 implies self.gap(
                            #[trigger] self.bucket_at(h as int, k),
                        ) >= 2 by {
                            let bk = pre.bucket_at(h as int, k);
                            assert(bk != mi);
                            if bk == pm {
                                assert(self.gap(bk) == pre.gap(bk) + 1);
                            } else {
                                assert(self.gap(bk) == pre.gap(bk));
                            }
                        }
                    }
                    free = w;
                    m = if m == 0 {
                        self.stride - 1
                    } else {
                        m - 1
                    };
                    steps = steps - 1;
                }
                proof {
                    assert(self.bucket_at(h as int, 0) == h as int);
                    if old(self).offsets_zero() && old(self).spec_count() < old(
                        self,
                    ).spec_stride() {
                        assert(d == 0);
                    }
                }
                Some(free)
            },
        }
    }

    /// Rebuilds the whole table at a larger stride, moving every live entry
    /// into the new backing array; the new table then takes over the old
    /// one's identity. The stride grows by at least one and proportionally
    /// to the current load, and always enough that the rebuilt table keeps a
    /// free slot in every bucket's region.
    #[verifier::loop_isolation(false)]
    #[verifier::rlimit(100)]
    fn rehash(&mut self)
        requires
            old(self).wf(),
            (old(self).spec_stride() + old(self).spec_count() + 1) * (old(self).spec_stride()
                + old(self).spec_count() + 1) <= usize::MAX,
        ensures
            final(self).wf(),
            final(self)@ == old(self)@,
            final(self).spec_count() == old(self).spec_count(),
            final(self).spec_stride() > old(self).spec_stride(),
            final(self).spec_stride() <= old(self).spec_stride() + old(self).spec_count() + 1,
            final(self).offsets_zero(),
            final(self).spec_count() < final(self).spec_stride(),
    {
        let len = self.entries.len();
        let ghost orig = *self;
        let ghost b = old(self).spec_stride() + old(self).spec_count() + 1;
        proof {
            lemma_cnt_bounds(self.entries@);
            assert(b <= b * b) by (nonlinear_arith)
                requires
                    b >= 1,
            ;
        }
        // count the occupied slots to measure the load
        let mut filled: usize = 0;
        let mut i: usize = 0;
        while i < len
            invariant
                i <= len,
                filled == cnt(self.entries@.take(i as int)),
                0 <= filled <= i,
            decreases len - i,
        {
            proof {
                assert(self.entries@.take(i as int + 1).drop_last() =~= self.entries@.take(
                    i as int,
                ));
                lemma_cnt_bounds(self.entries@.take(i as int));
            }
            if self.entries[i].is_some() {
                filled = filled + 1;
            }
            i = i + 1;
        }
        proof {
            assert(self.entries@.take(len as int) =~= self.entries@);
            assert(filled == self.spec_count());
        }
        // the growth rule: at least one more bucket, proportionally to load,
        // and never so few that the rebuilt table could run out of room
        let s = self.stride;
        let load_inc: usize = filled / s;
        let inc: usize = if load_inc < 1 {
            1
        } else {
            load_inc
        };
        proof {
            assert(filled / s <= filled) by (nonlinear_arith)
                requires
                    s >= 1 && filled >= 0,
            ;
        }
        let s1: usize = s + inc;
        let t: usize = if s1 >= filled + 1 {
            s1
        } else {
            filled + 1
        };
        proof {
            assert(t * t <= b * b) by (nonlinear_arith)
                requires
                    1 <= t <= b,
            ;
        }
        let mut fresh: IntMap<T> = IntMap::new(t);
        proof {
            assert forall|k: Keytype| !fresh.spec_contains(k) by {
                fresh.lemma_view_chr(k);
            }
            assert(cnt(orig.entries@.take(0)) == 0);
        }
        let mut i: usize = 0;
        while i < len
            invariant
                i <= len,
                self.entries.len() == len,
                forall|q: int| i <= q < len ==> self.entries[q] == orig.entries[q],
                fresh.wf(),
                fresh.offsets_zero(),
                fresh.spec_stride() == t,
                fresh.spec_count() == cnt(orig.entries@.take(i as int)),
                forall|k: Keytype|
                    fresh.spec_contains(k) <==> exists|q: int|
                        0 <= q < i && orig.entries[q] is Some
                            && (#[trigger] orig.entries[q])->Some_0.key == k,
                forall|k: Keytype|
                    fresh.spec_contains(k) ==> orig.spec_contains(k) && #[trigger] fresh@[k]
                        == orig@[k],
            decreases len - i,
        {
            let ghost fpre = fresh;
            let mut tmp: Option<Entry<T>> = None;
            self.entries.set_and_swap(i, &mut tmp);
            proof {
                assert(orig.entries@.take(i as int + 1).drop_last() =~= orig.entries@.take(
                    i as int,
                ));
                lemma_cnt_bounds(orig.entries@.take(i as int));
                lemma_cnt_take_le(orig.entries@, i as int);
            }
            match tmp {
                None => {
                    proof {
                        assert(orig.entries[i as int] is None);
                        assert forall|k: Keytype| true implies (fresh.spec_contains(k) <==> exists|
                            q: int,
                        |
                            0 <= q < i + 1 && orig.entries[q] is Some && (
                            #[trigger] orig.entries[q])->Some_0.key == k) by {
                            if fresh.spec_contains(k) {
                                let q = choose|q: int|
                                    0 <= q < i && orig.entries[q] is Some && (
                                    #[trigger] orig.entries[q])->Some_0.key == k;
                                assert(0 <= q < i + 1 && orig.entries[q] is Some
                                    && orig.entries[q]->Some_0.key == k);
                            }
                            if exists|q: int|
                                0 <= q < i + 1 && orig.entries[q] is Some && (
                                #[trigger] orig.entries[q])->Some_0.key == k {
                                let q = choose|q: int|
                                    0 <= q < i + 1 && orig.entries[q] is Some && (
                                    #[trigger] orig.entries[q])->Some_0.key == k;
                                assert(q < i);
                            }
                        }
                    }
                },
                Some(e) => {
                    proof {
                        assert(tmp == orig.entries[i as int]);
                        assert(orig.entries[i as int] is Some && orig.entries[i as int]->Some_0.key
                            == e.key);
                        // the key cannot already be in the new table: keys are
                        // unique in the source
                        if fresh.spec_contains(e.key) {
                            let q = choose|q: int|
                                0 <= q < i && orig.entries[q] is Some && (
                                #[trigger] orig.entries[q])->Some_0.key == e.key;
                            assert(orig.entries[q] is Some && orig.entries[q]->Some_0.key
                                == e.key);
                            assert(false);
                        }
                        orig.lemma_view_chr(e.key);
                        assert(orig.spec_contains(e.key));
                        assert(orig.slot_of(e.key) == i as int);
                        assert(orig@[e.key] == e.value);
                    }
                    let hh: usize = e.key % fresh.stride;
                    match fresh.find_free(hh) {
                        Some(idx) => {
                            let ghost fmid = fresh;
                            let ghost ekey = e.key;
                            let ghost evalue = e.value;
                            fresh.entries.set(idx, Some(Entry { key: e.key, value: e.value }));
                            proof {
                                assert(!fmid.spec_contains(ekey)) by {
                                    fmid.lemma_view_chr(ekey);
                                    fpre.lemma_view_chr(ekey);
                                }
                                Self::lemma_write_slot(fmid, fresh, idx as int, ekey, evalue);
                                assert forall|k: Keytype| true implies (fresh.spec_contains(k)
                                    <==> exists|q: int|
                                    0 <= q < i + 1 && orig.entries[q] is Some && (
                                    #[trigger] orig.entries[q])->Some_0.key == k) by {
                                    fresh.lemma_view_chr(k);
                                    fmid.lemma_view_chr(k);
                                    fpre.lemma_view_chr(k);
                                    if fresh.spec_contains(k) {
                                        if k == ekey {
                                            assert(0 <= i < i + 1 && orig.entries[i as int]
                                                is Some && orig.entries[i as int]->Some_0.key
                                                == k);
                                        } else {
                                            assert(fpre.spec_contains(k));
                                            let q = choose|q: int|
                                                0 <= q < i && orig.entries[q] is Some && (
                                                #[trigger] orig.entries[q])->Some_0.key == k;
                                            assert(0 <= q < i + 1 && orig.entries[q] is Some
                                                && orig.entries[q]->Some_0.key == k);
                                        }
                                    }
                                    if exists|q: int|
                                        0 <= q < i + 1 && orig.entries[q] is Some && (
                                        #[trigger] orig.entries[q])->Some_0.key == k {
                                        let q = choose|q: int|
                                            0 <= q < i + 1 && orig.entries[q] is Some && (
                                            #[trigger] orig.entries[q])->Some_0.key == k;
                                        if q < i {
                                            assert(fpre.spec_contains(k));
                                            assert(fresh@.dom().contains(k));
                                        } else {
                                            assert(k == ekey);
                                            assert(fresh.spec_contains(k));
                                        }
                                    }
                                }
                                assert forall|k: Keytype| fresh.spec_contains(k) implies
                                    orig.spec_contains(k) && #[trigger] fresh@[k] == orig@[k] by {
                                    fresh.lemma_view_chr(k);
                                    fpre.lemma_view_chr(k);
                                    if k == ekey {
                                        assert(fresh@[k] == evalue);
                                    } else {
                                        assert(fresh@[k] == fpre@[k]);
                                    }
                                }
                            }
                        },
                        None => {
                            proof {
                                assert(false);
                            }
                        },
                    }
                },
            }
            i = i + 1;
        }
        proof {
            assert(orig.entries@.take(len as int) =~= orig.entries@);
            assert(fresh@ =~= orig@) by {
                assert forall|k: Keytype| true implies (fresh@.dom().contains(k)
                    <==> orig@.dom().contains(k)) by {
                    fresh.lemma_view_chr(k);
                    orig.lemma_view_chr(k);
                    if orig.spec_contains(k) {
                        let q = orig.slot_of(k);
                        assert(orig.entries[q] is Some && orig.entries[q]->Some_0.key == k);
                    }
                }
                assert forall|k: Keytype| #[trigger] fresh@.dom().contains(k) implies fresh@[k]
                    == orig@[k] by {
                    fresh.lemma_view_chr(k);
                }
            }
        }
        *self = fresh;
    }

    /// Inserts or updates: an existing key's value is overwritten in place;
    /// a new key gets a slot inside its bucket's region, displacing
    /// neighbouring buckets' entries forward as needed, and the whole table
    /// is rebuilt at a larger stride when no slot can be claimed.
    pub fn put(&mut self, key: Keytype, value: T)
        requires
            old(self).wf(),
            old(self).growth_headroom(),
        ensures
            final(self).wf(),
            final(self)@ == old(self)@.insert(key, value),
            final(self).spec_count() == old(self).spec_count() + (if old(self)@.dom().contains(key) {
                0int
            } else {
                1int
            }),
            old(self).spec_stride() <= final(self).spec_stride() <= old(self).spec_stride() + old(
                self,
            ).spec_count() + 1,
    {
        proof {
            old(self).lemma_view_chr(key);
            lemma_cnt_bounds(self.entries@);
        }
        match self.find_pos(key) {
            Some(i) => {
                let ghost pre = *self;
                self.entries.set(i, Some(Entry { key, value }));
                proof {
                    assert(pre.spec_contains(key));
                    Self::lemma_write_slot(pre, *self, i as int, key, value);
                }
            },
            None => {
                let h: usize = key % self.stride;
                match self.find_free(h) {
                    Some(idx) => {
                        let ghost pre = *self;
                        self.entries.set(idx, Some(Entry { key, value }));
                        proof {
                            pre.lemma_view_chr(key);
                            Self::lemma_write_slot(pre, *self, idx as int, key, value);
                        }
                    },
                    None => {
                        proof {
                            let b = self.spec_stride() + self.spec_count() + 1;
                            if self.spec_stride() + self.spec_count() <= 0xfffe {
                                assert(b * b <= 0xffff * 0xffff) by (nonlinear_arith)
                                    requires
                                        1 <= b <= 0xffff,
                                ;
                            }
                        }
                        self.rehash();
                        let h2: usize = key % self.stride;
                        match self.find_free(h2) {
                            Some(idx) => {
                                let ghost pre = *self;
                                self.entries.set(idx, Some(Entry { key, value }));
                                proof {
                                    pre.lemma_view_chr(key);
                                    Self::lemma_write_slot(pre, *self, idx as int, key, value);
                                }
                            },
                            None => {
                                proof {
                                    assert(false);
                                }
                            },
                        }
                    },
                }
            },
        }
    }

    /// Looks a key up, returning a reference to its value, or nothing when
    /// the key is absent.
    pub fn get(&self, key: Keytype) -> (r: Option<&T>)
        requires
            self.wf(),
        ensures
            match r {
                Some(v) => self@.dom().contains(key) && *v == self@[key],
                None => !self@.dom().contains(key),
            },
    {
        proof {
            self.lemma_view_chr(key);
        }
        match self.find_pos(key) {
            Some(i) => {
                match &self.entries[i] {
                    Some(e) => Some(&e.value),
                    None => None,
                }
            },
            None => None,
        }
    }

    /// Whether the key is present.
    pub fn contains_key(&mut self, key: Keytype) -> (r: bool)
        requires
            old(self).wf(),
        ensures
            *final(self) == *old(self),
            r == old(self)@.dom().contains(key),
    {
        let res = self.get(key);
        match res {
            Some(_) => true,
            None => false,
        }
    }

    /// Removes a key, returning its value, or nothing when the key is
    /// absent. The slot is simply cleared: it stays inside its bucket's
    /// claim region and is reused by later insertions into that bucket.
    pub fn remove(&mut self, key: Keytype) -> (r: Option<T>)
        requires
            old(self).wf(),
        ensures
            final(self).wf(),
            final(self)@ == old(self)@.remove(key),
            final(self).spec_stride() == old(self).spec_stride(),
            old(self)@.dom().contains(key) ==> r == Some(old(self)@[key])
                && final(self).spec_count() == old(self).spec_count() - 1,
            !old(self)@.dom().contains(key) ==> r is None && *final(self) == *old(self),
    {
        proof {
            old(self).lemma_view_chr(key);
        }
        match self.find_pos(key) {
            Some(i) => {
                let mut tmp: Option<Entry<T>> = None;
                self.entries.set_and_swap(i, &mut tmp);
                proof {
                    let pre = *old(self);
                    let post = *self;
                    let n = pre.spec_len();
                    assert(pre.slot_of(key) == i);
                    assert forall|h: int, q: int| #![all_triggers] 0 <= h < pre.spec_stride() && 0
                        <= q < n implies (post.in_region(h, q) <==> pre.in_region(h, q)) by {}
                    assert(post.unique_keys()) by {
                        assert forall|a: int, b: int|
                            0 <= a < n && 0 <= b < n && post.entries[a] is Some && post.entries[b]
                                is Some && #[trigger] post.entries[a]->Some_0.key
                                == #[trigger] post.entries[b]->Some_0.key implies a == b by {
                            assert(a != i && b != i);
                            assert(pre.entries[a] == post.entries[a]);
                            assert(pre.entries[b] == post.entries[b]);
                        }
                    }
                    assert(post.placed()) by {
                        assert forall|q: int|
                            0 <= q < n && post.entries[q] is Some implies post.in_region(
                            post.spec_hash(#[trigger] post.entries[q]->Some_0.key),
                            q,
                        ) by {
                            assert(pre.entries[q] == post.entries[q]);
                        }
                    }
                    assert forall|k: Keytype| true implies (post.spec_contains(k) <==> (
                    pre.spec_contains(k) && k != key)) by {
                        if post.spec_contains(k) {
                            let w = choose|q: int|
                                0 <= q < n && post.entries[q] is Some && (
                                #[trigger] post.entries[q])->Some_0.key == k;
                            assert(pre.entries[w] is Some && pre.entries[w]->Some_0.key == k);
                            pre.lemma_view_chr(k);
                        }
                        if pre.spec_contains(k) && k != key {
                            pre.lemma_view_chr(k);
                            let w = pre.slot_of(k);
                            assert(w != i);
                            assert(post.entries[w] is Some && post.entries[w]->Some_0.key == k);
                        }
                    }
                    assert(post@ =~= pre@.remove(key)) by {
                        assert forall|k: Keytype| #[trigger] post@.dom().contains(k) implies post@[k]
                            == pre@.remove(key)[k] by {
                            post.lemma_view_chr(k);
                            pre.lemma_view_chr(k);
                            assert(post.entries[pre.slot_of(k)] is Some
                                && post.entries[pre.slot_of(k)]->Some_0.key == k);
                            assert(post.slot_of(k) == pre.slot_of(k));
                        }
                        assert forall|k: Keytype| true implies (post@.dom().contains(k)
                            <==> pre@.remove(key).dom().contains(k)) by {
                            post.lemma_view_chr(k);
                            pre.lemma_view_chr(k);
                        }
                    }
                    lemma_cnt_update(pre.entries@, i as int, None);
                }
                match tmp {
                    Some(e) => Some(e.value),
                    None => {
                        proof {
                            assert(false);
                        }
                        None
                    },
                }
            },
            None => {
                proof {
                    assert(final(self)@ =~= old(self)@.remove(key)) by {
                        old(self).lemma_view_chr(key);
                    }
                }
                None
            },
        }
    }

    /// Swaps the contents of two slots of the backing array.
    fn swap_slots(&mut self, a: usize, b: usize)
        requires
            a < old(self).spec_len(),
            b < old(self).spec_len(),
        ensures
            final(self).entries@ == old(self).entries@.update(a as int, old(self).entries@[b as int]).update(
                b as int,
                old(self).entries@[a as int],
            ),
            final(self).offsets == old(self).offsets,
            final(self).stride == old(self).stride,
    {
        if a != b {
            let mut tmp: Option<Entry<T>> = None;
            self.entries.set_and_swap(a, &mut tmp);
            self.entries.set_and_swap(b, &mut tmp);
            self.entries.set_and_swap(a, &mut tmp);
        }
        proof {
            assert(self.entries@ =~= old(self).entries@.update(
                a as int,
                old(self).entries@[b as int],
            ).update(b as int, old(self).entries@[a as int]));
        }
    }
}

impl<T: PartialEq> IntMap<T> {
    /// Whether some live entry's value equals the given one: a plain linear
    /// scan over all slots. No index is maintained for this lookup.
    #[verifier::loop_isolation(false)]
    pub fn contains_value(&self, value: T) -> (r: bool)
        requires
            self.wf(),
        ensures
            T::obeys_eq_spec() ==> (r <==> exists|k: Keytype|
                #[trigger] self@.dom().contains(k) && self@[k].eq_spec(&value)),
    {
        let mut i: usize = 0;
        while i < self.entries.len()
            invariant
                i <= self.spec_len(),
                T::obeys_eq_spec() ==> forall|q: int|
                    0 <= q < i && self.entries[q] is Some ==> !(#[trigger] self.entries[q])->Some_0.value.eq_spec(
                        &value,
                    ),
            decreases self.spec_len() - i,
        {
            match &self.entries[i] {
                Some(e) => {
                    if e.value == value {
                        proof {
                            if T::obeys_eq_spec() {
                                let k = e.key;
                                assert(self.spec_contains(k));
                                self.lemma_view_chr(k);
                                assert(self.slot_of(k) == i as int);
                                assert(self@.dom().contains(k) && self@[k].eq_spec(&value));
                            }
                        }
                        return true;
                    }
                },
                None => {},
            }
            i = i + 1;
        }
        proof {
            if T::obeys_eq_spec() {
                assert forall|k: Keytype|
                    #[trigger] self@.dom().contains(k) implies !self@[k].eq_spec(&value) by {
                    self.lemma_view_chr(k);
                }
            }
        }
        false
    }
}

} // verus!
