//! Output-side model of physical memory: regions tagged with a usage kind,
//! an interval merge/split algebra over them, and the builder that coalesces
//! a stream of regions into one immutable memory map.

use vstd::prelude::*;

verus! {

/// Why a region is withheld from kernel use.
#[derive(Clone, Copy, Debug, PartialEq, Eq, Structural)]
pub enum ReservedMemoryKind {
    Unknown,
    ReservedByBootloader,
    ReservedByUefi(u32),
    ReservedByBios(u32),
}

/// What a kernel structure occupying a region is used for.
#[derive(Clone, Copy, Debug, PartialEq, Eq, Structural)]
pub enum MemoryPurpose {
    Unknown,
    KernelHeap,
    KernelPageTables,
}

/// Usage kind of a region in the final memory map.
#[derive(Clone, Copy, Debug, PartialEq, Eq, Structural)]
pub enum MemoryRegionKind {
    Usable,
    InUse(MemoryPurpose),
    Reserved(ReservedMemoryKind),
}

/// A half-open interval `[start, end)` of physical byte addresses with a
/// usage kind.
#[derive(Clone, Copy, Debug, PartialEq, Eq, Structural)]
pub struct MemoryRegion {
    pub start: u64,
    pub end: u64,
    pub kind: MemoryRegionKind,
}

/// `addr` lies inside the half-open interval of `r`.
pub open spec fn region_contains(r: MemoryRegion, addr: int) -> bool {
    r.start <= addr < r.end
}

impl MemoryRegion {
    pub fn new(start: u64, end: u64, kind: MemoryRegionKind) -> (r: Self)
        ensures
            r == (MemoryRegion { start, end, kind }),
    {
        Self { start, end, kind }
    }

    pub fn size(&self) -> (r: u64)
        requires
            self.start <= self.end,
        ensures
            r == self.end - self.start,
    {
        self.end - self.start
    }

    /// Extend `self` in place by an already emitted region that starts
    /// exactly where `self` ends and has the same kind.
    pub fn try_append(&mut self, other: &MemoryRegion) -> (merged: bool)
        ensures
            merged == (other.start == old(self).end && other.kind == old(self).kind),
            merged ==> *final(self) == (MemoryRegion {
                start: old(self).start,
                end: other.end,
                kind: old(self).kind,
            }),
            !merged ==> *final(self) == *old(self),
    {
        if other.start == self.end && other.kind == self.kind {
            self.end = other.end;
            true
        } else {
            false
        }
    }

    /// Merge an incoming region into the current accumulating region.
    ///
    /// The result is the new current region, then an optional fully formed
    /// next region, then an optional trailing remainder. Everything up to but
    /// excluding the last present piece may be emitted in order; the last
    /// present piece becomes the new accumulating region. The five outcomes:
    ///
    /// - disjoint: `other` begins strictly past `self`; `self` is complete
    ///   and `other` is staged;
    /// - coalesce: same kind and overlapping or touching; collapse into one
    ///   region covering both;
    /// - adjacent with a different kind: `self` is complete and `other` is
    ///   staged;
    /// - `other` starts strictly inside `self` with a different kind: a
    ///   leading piece of `self` is cut off, `other` is staged whole, and a
    ///   trailing remainder of `self` is staged if `other` ends early;
    /// - `other` starts where `self` starts with a different kind: `other`
    ///   itself is the new current region, with a trailing remainder of
    ///   `self` staged if `other` ends early.
    pub fn try_merge(self, other: MemoryRegion) -> (r: (
        MemoryRegion,
        Option<MemoryRegion>,
        Option<MemoryRegion>,
    ))
        requires
            self.start <= self.end,
            other.start <= other.end,
            other.start >= self.start,
        ensures
            other.start > self.end ==> r == (self, Some(other), None::<MemoryRegion>),
            other.start <= self.end && other.kind == self.kind ==> r == (
                (MemoryRegion {
                    start: self.start,
                    end: if self.end >= other.end { self.end } else { other.end },
                    kind: self.kind,
                }),
                None::<MemoryRegion>,
                None::<MemoryRegion>,
            ),
            other.start == self.end && other.kind != self.kind ==> r == (
                self,
                Some(other),
                None::<MemoryRegion>,
            ),
            other.start < self.end && other.kind != self.kind && other.start > self.start ==> r
                == (
                (MemoryRegion { start: self.start, end: other.start, kind: self.kind }),
                Some(other),
                if other.end < self.end {
                    Some((MemoryRegion { start: other.end, end: self.end, kind: self.kind }))
                } else {
                    None::<MemoryRegion>
                },
            ),
            other.start < self.end && other.kind != self.kind && other.start == self.start ==> r
                == (
                other,
                if other.end < self.end {
                    Some((MemoryRegion { start: other.end, end: self.end, kind: self.kind }))
                } else {
                    None::<MemoryRegion>
                },
                None::<MemoryRegion>,
            ),
            r.1 is None ==> r.2 is None,
    {
        if other.start > self.end {
            (self, Some(other), None)
        } else if other.kind == self.kind {
            (
                MemoryRegion::new(
                    self.start,
                    if self.end >= other.end {
                        self.end
                    } else {
                        other.end
                    },
                    self.kind,
                ),
                None,
                None,
            )
        } else if other.start == self.end {
            (self, Some(other), None)
        } else {
            if self.start < other.start {
                (
                    MemoryRegion::new(self.start, other.start, self.kind),
                    Some(MemoryRegion::new(other.start, other.end, other.kind)),
                    if other.end < self.end {
                        Some(MemoryRegion::new(other.end, self.end, self.kind))
                    } else {
                        None
                    },
                )
            } else {
                (
                    MemoryRegion::new(other.start, other.end, other.kind),
                    if other.end < self.end {
                        Some(MemoryRegion::new(other.end, self.end, self.kind))
                    } else {
                        None
                    },
                    None,
                )
            }
        }
    }
}

/// Well-formed output sequence: regions are non-empty, strictly ascending
/// and non-overlapping, and touching neighbours never share a kind (the
/// sequence is maximally coalesced).
pub open spec fn regions_wf(rs: Seq<MemoryRegion>) -> bool {
    &&& forall|i: int| 0 <= i < rs.len() ==> (#[trigger] rs[i]).start < rs[i].end
    &&& forall|i: int| 0 <= i < rs.len() - 1 ==> (#[trigger] rs[i]).end <= rs[i + 1].start
    &&& forall|i: int|
        0 <= i < rs.len() - 1 && (#[trigger] rs[i]).end == rs[i + 1].start ==> rs[i].kind != rs[
            i + 1
        ].kind
}

/// The regions tile `[lo, hi)` exactly: non-empty, gap-free, in order.
pub open spec fn is_partition(rs: Seq<MemoryRegion>, lo: int, hi: int) -> bool {
    &&& forall|i: int| 0 <= i < rs.len() ==> (#[trigger] rs[i]).start < rs[i].end
    &&& forall|i: int| 0 <= i < rs.len() - 1 ==> (#[trigger] rs[i]).end == rs[i + 1].start
    &&& rs.len() == 0 ==> lo == hi
    &&& rs.len() > 0 ==> rs[0].start == lo && rs[rs.len() - 1].end == hi
}

/// Total size in bytes of all regions.
pub open spec fn sum_sizes(rs: Seq<MemoryRegion>) -> int
    decreases rs.len(),
{
    if rs.len() == 0 {
        0
    } else {
        sum_sizes(rs.drop_last()) + (rs.last().end - rs.last().start)
    }
}

/// Total size in bytes of the regions that are not firmware/bootloader
/// reserved (in-use regions count as usable).
pub open spec fn sum_usable(rs: Seq<MemoryRegion>) -> int
    decreases rs.len(),
{
    if rs.len() == 0 {
        0
    } else {
        sum_usable(rs.drop_last()) + if rs.last().kind is Reserved {
            0
        } else {
            rs.last().end - rs.last().start
        }
    }
}

/// Total size in bytes of the reserved regions only.
pub open spec fn sum_reserved(rs: Seq<MemoryRegion>) -> int
    decreases rs.len(),
{
    if rs.len() == 0 {
        0
    } else {
        sum_reserved(rs.drop_last()) + if rs.last().kind is Reserved {
            rs.last().end - rs.last().start
        } else {
            0
        }
    }
}

/// Aggregate identity: every byte is either reserved or not, so the total
/// splits exactly into the usable and the reserved share.
pub proof fn lemma_sum_split(rs: Seq<MemoryRegion>)
    ensures
        sum_sizes(rs) == sum_usable(rs) + sum_reserved(rs),
    decreases rs.len(),
{
    if rs.len() > 0 {
        lemma_sum_split(rs.drop_last());
    }
}

/// With non-empty regions, all three sums are non-negative and the usable
/// and reserved shares never exceed the total.
pub proof fn lemma_sums_bounds(rs: Seq<MemoryRegion>)
    requires
        forall|i: int| 0 <= i < rs.len() ==> (#[trigger] rs[i]).start <= rs[i].end,
    ensures
        0 <= sum_usable(rs) <= sum_sizes(rs),
        0 <= sum_reserved(rs) <= sum_sizes(rs),
    decreases rs.len(),
{
    if rs.len() > 0 {
        lemma_sums_bounds(rs.drop_last());
    }
}

/// A partition of `[lo, hi)` accounts for every byte of the span: the sizes
/// sum exactly to its width.
pub proof fn lemma_partition_sum(rs: Seq<MemoryRegion>, lo: int, hi: int)
    requires
        is_partition(rs, lo, hi),
    ensures
        sum_sizes(rs) == hi - lo,
    decreases rs.len(),
{
    if rs.len() > 0 {
        if rs.len() == 1 {
            assert(sum_sizes(rs.drop_last()) == 0);
        } else {
            lemma_partition_sum(rs.drop_last(), lo, rs[rs.len() - 2].end as int);
        }
    }
}

/// Every region of a partition of `[lo, hi)` lies inside `[lo, hi)`.
pub proof fn lemma_partition_bounds(rs: Seq<MemoryRegion>, lo: int, hi: int, i: int)
    requires
        is_partition(rs, lo, hi),
        0 <= i < rs.len(),
    ensures
        lo <= rs[i].start,
        rs[i].end <= hi,
{
    lemma_partition_lower(rs, lo, hi, i);
    lemma_partition_upper(rs, lo, hi, i);
}

proof fn lemma_partition_lower(rs: Seq<MemoryRegion>, lo: int, hi: int, i: int)
    requires
        is_partition(rs, lo, hi),
        0 <= i < rs.len(),
    ensures
        lo <= rs[i].start,
    decreases i,
{
    if i > 0 {
        lemma_partition_lower(rs, lo, hi, i - 1);
        assert(rs[i - 1].end == rs[i].start);
    }
}

proof fn lemma_partition_upper(rs: Seq<MemoryRegion>, lo: int, hi: int, i: int)
    requires
        is_partition(rs, lo, hi),
        0 <= i < rs.len(),
    ensures
        rs[i].end <= hi,
    decreases rs.len() - i,
{
    if i < rs.len() - 1 {
        lemma_partition_upper(rs, lo, hi, i + 1);
        assert(rs[i].end == rs[i + 1].start);
    }
}

/// The immutable map of all physical memory, produced once by the builder.
pub struct MemoryMap {
    regions: Vec<MemoryRegion>,
    total_memory: u64,
    usable_memory: u64,
}

impl View for MemoryMap {
    type V = Seq<MemoryRegion>;

    closed spec fn view(&self) -> Seq<MemoryRegion> {
        self.regions@
    }
}

impl MemoryMap {
    /// Total bytes covered by the map.
    pub closed spec fn total_spec(self) -> u64 {
        self.total_memory
    }

    /// Bytes not reserved by firmware or bootloader.
    pub closed spec fn usable_spec(self) -> u64 {
        self.usable_memory
    }

    /// The regions are well formed and the cached totals agree with them.
    pub open spec fn wf(self) -> bool {
        &&& regions_wf(self@)
        &&& self.total_spec() == sum_sizes(self@)
        &&& self.usable_spec() == sum_usable(self@)
    }

    pub fn builder() -> (b: MemoryMapBuilder)
        ensures
            b@ == Seq::<MemoryRegion>::empty(),
            b.wf(),
    {
        MemoryMapBuilder(Vec::new())
    }

    fn new(regions: Vec<MemoryRegion>) -> (m: MemoryMap)
        requires
            regions_wf(regions@),
        ensures
            m@ == regions@,
            m.wf(),
    {
        let ghost rs = regions@;
        let n = regions.len();
        let mut total: u64 = 0;
        let mut usable: u64 = 0;
        let mut i: usize = 0;
        while i < n
            invariant
                regions@ == rs,
                regions_wf(rs),
                n == rs.len(),
                i <= n,
                total == sum_sizes(rs.take(i as int)),
                usable == sum_usable(rs.take(i as int)),
                usable <= total,
                i > 0 ==> total <= rs[i - 1].end - rs[0].start,
                i == 0 ==> total == 0,
            decreases n - i,
        {
            let r = regions[i];
            proof {
                assert(rs.take(i + 1).drop_last() =~= rs.take(i as int));
                assert(rs.take(i + 1).last() == rs[i as int]);
            }
            total = total + (r.end - r.start);
            if !matches!(r.kind, MemoryRegionKind::Reserved(_)) {
                usable = usable + (r.end - r.start);
            }
            i = i + 1;
        }
        proof {
            assert(rs.take(n as int) =~= rs);
        }
        MemoryMap { regions, total_memory: total, usable_memory: usable }
    }

    pub fn regions(&self) -> (r: &Vec<MemoryRegion>)
        ensures
            r@ == self@,
    {
        &self.regions
    }

    pub fn total_memory(&self) -> (r: u64)
        ensures
            r == self.total_spec(),
    {
        self.total_memory
    }

    pub fn usable_memory(&self) -> (r: u64)
        ensures
            r == self.usable_spec(),
    {
        self.usable_memory
    }

    pub fn reserved_memory(&self) -> (r: u64)
        requires
            self.wf(),
        ensures
            r == sum_reserved(self@),
            self.total_spec() == self.usable_spec() + r,
    {
        proof {
            lemma_sum_split(self@);
            lemma_sums_bounds(self@);
        }
        self.total_memory - self.usable_memory
    }
}

/// Aggregate identity: for every built map the total is exactly the usable
/// share plus the reserved share, and the reserved share counts the sizes
/// of reserved-kind regions only.
pub proof fn lemma_aggregate_identity(m: MemoryMap)
    requires
        m.wf(),
    ensures
        m.total_spec() == m.usable_spec() + sum_reserved(m@),
{
    lemma_sum_split(m@);
}

/// Accumulates output regions in ascending order, coalescing an added region
/// into the previous one when they touch and share a kind.
pub struct MemoryMapBuilder(Vec<MemoryRegion>);

impl View for MemoryMapBuilder {
    type V = Seq<MemoryRegion>;

    closed spec fn view(&self) -> Seq<MemoryRegion> {
        self.0@
    }
}

impl MemoryMapBuilder {
    pub open spec fn wf(self) -> bool {
        regions_wf(self@)
    }

    /// Append `region`, merging it into the accumulated last region when the
    /// two touch and share a kind.
    pub fn add_region(&mut self, region: MemoryRegion)
        requires
            old(self).wf(),
            region.start < region.end,
            old(self)@.len() > 0 ==> old(self)@.last().end <= region.start,
        ensures
            final(self).wf(),
            old(self)@.len() > 0 && old(self)@.last().end == region.start && old(self)@.last().kind
                == region.kind ==> final(self)@ == old(self)@.update(
                old(self)@.len() - 1,
                (MemoryRegion {
                    start: old(self)@.last().start,
                    end: region.end,
                    kind: region.kind,
                }),
            ),
            !(old(self)@.len() > 0 && old(self)@.last().end == region.start
                && old(self)@.last().kind == region.kind) ==> final(self)@ == old(self)@.push(
                region,
            ),
    {
        let ghost rs = self.0@;
        let n = self.0.len();
        if n > 0 {
            let mut prev = self.0.pop().unwrap();
            let ghost last = rs.last();
            if prev.try_append(&region) {
                self.0.push(prev);
                proof {
                    assert(self.0@ =~= rs.update(
                        rs.len() - 1,
                        (MemoryRegion { start: last.start, end: region.end, kind: region.kind }),
                    ));
                    assert forall|i: int| 0 <= i < self.0@.len() - 1 implies (
                    #[trigger] self.0@[i]).end <= self.0@[i + 1].start by {
                        assert(rs[i].end <= rs[i + 1].start);
                    }
                }
            } else {
                self.0.push(prev);
                self.0.push(region);
                proof {
                    assert(self.0@ =~= rs.push(region));
                    assert forall|i: int| 0 <= i < self.0@.len() - 1 implies (
                    #[trigger] self.0@[i]).end <= self.0@[i + 1].start by {
                        if i < rs.len() - 1 {
                            assert(rs[i].end <= rs[i + 1].start);
                        }
                    }
                }
            }
        } else {
            self.0.push(region);
        }
    }

    /// Finalize the accumulated regions into an immutable map, computing the
    /// derived totals in one pass.
    pub fn build(self) -> (m: MemoryMap)
        requires
            self.wf(),
        ensures
            m@ == self@,
            m.wf(),
    {
        MemoryMap::new(self.0)
    }
}

} // verus!
