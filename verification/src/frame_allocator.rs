//! Input-side model of physical memory and the boot-time frame allocator.
//!
//! A firmware-supplied catalog of raw regions feeds a bump allocator that
//! hands out ascending 4096-byte frames from the usable regions. Retiring
//! the allocator replays the issued frames through the interval algebra of
//! [`crate::memory_map`] to produce the final memory map.

use vstd::arithmetic::div_mod::lemma_div_by_multiple;
use vstd::arithmetic::div_mod::lemma_fundamental_div_mod;
use vstd::prelude::*;

use crate::memory_map::MemoryMap;
use crate::memory_map::MemoryPurpose;
use crate::memory_map::MemoryRegion;
use crate::memory_map::MemoryRegionKind;
use crate::memory_map::ReservedMemoryKind;
use crate::memory_map::is_partition;
use crate::memory_map::lemma_partition_bounds;
use crate::memory_map::lemma_partition_sum;
use crate::memory_map::region_contains;
use crate::memory_map::regions_wf;

verus! {

/// Size in bytes of one physical page frame.
pub const FRAME_SIZE: u64 = 4096;

/// Usage kind of a firmware-reported region, as the boot environment hands
/// it over: usable, withheld by the bootloader, carrying an unknown BIOS or
/// UEFI type code, or reserved for an unreported reason.
#[derive(Clone, Copy, Debug, PartialEq, Eq, Structural)]
pub enum RawRegionKind {
    Usable,
    Bootloader,
    UnknownBios(u32),
    UnknownUefi(u32),
    Unknown,
}

/// A firmware-reported region of physical memory: a half-open interval
/// `[start, end)` of byte addresses with its reported kind.
#[derive(Clone, Copy, Debug, PartialEq, Eq, Structural)]
pub struct RawRegion {
    pub start: u64,
    pub end: u64,
    pub kind: RawRegionKind,
}

/// How a raw usage kind appears in the final memory map: usable stays
/// usable, everything else becomes a reserved kind.
pub open spec fn raw_to_kind(k: RawRegionKind) -> MemoryRegionKind {
    match k {
        RawRegionKind::Usable => MemoryRegionKind::Usable,
        RawRegionKind::Bootloader => MemoryRegionKind::Reserved(
            ReservedMemoryKind::ReservedByBootloader,
        ),
        RawRegionKind::UnknownBios(code) => MemoryRegionKind::Reserved(
            ReservedMemoryKind::ReservedByBios(code),
        ),
        RawRegionKind::UnknownUefi(code) => MemoryRegionKind::Reserved(
            ReservedMemoryKind::ReservedByUefi(code),
        ),
        RawRegionKind::Unknown => MemoryRegionKind::Reserved(ReservedMemoryKind::Unknown),
    }
}

impl From<RawRegionKind> for MemoryRegionKind {
    fn from(value: RawRegionKind) -> (r: Self) {
        match value {
            RawRegionKind::Usable => MemoryRegionKind::Usable,
            RawRegionKind::Bootloader => MemoryRegionKind::Reserved(
                ReservedMemoryKind::ReservedByBootloader,
            ),
            RawRegionKind::UnknownBios(code) => MemoryRegionKind::Reserved(
                ReservedMemoryKind::ReservedByBios(code),
            ),
            RawRegionKind::UnknownUefi(code) => MemoryRegionKind::Reserved(
                ReservedMemoryKind::ReservedByUefi(code),
            ),
            RawRegionKind::Unknown => MemoryRegionKind::Reserved(ReservedMemoryKind::Unknown),
        }
    }
}

impl vstd::std_specs::convert::FromSpecImpl<RawRegionKind> for MemoryRegionKind {
    open spec fn obeys_from_spec() -> bool {
        true
    }

    open spec fn from_spec(v: RawRegionKind) -> MemoryRegionKind {
        raw_to_kind(v)
    }
}

/// `addr` lies inside the half-open interval of raw region `r`.
pub open spec fn raw_contains(r: RawRegion, addr: int) -> bool {
    r.start <= addr < r.end
}

/// The catalog covers one contiguous span: every region is non-empty and
/// each region begins exactly where the previous one ends. This implies
/// ascending order and mutual non-overlap.
pub open spec fn catalog_contiguous(c: Seq<RawRegion>) -> bool {
    &&& forall|i: int| 0 <= i < c.len() ==> (#[trigger] c[i]).start < c[i].end
    &&& forall|i: int| 0 <= i < c.len() - 1 ==> (#[trigger] c[i]).end == c[i + 1].start
}

/// Every region boundary in the catalog is page aligned.
pub open spec fn catalog_aligned(c: Seq<RawRegion>) -> bool {
    forall|i: int|
        0 <= i < c.len() ==> (#[trigger] c[i]).start % 4096 == 0 && c[i].end % 4096 == 0
}

/// The invariant assumed of the firmware-supplied catalog.
pub open spec fn catalog_wf(c: Seq<RawRegion>) -> bool {
    catalog_contiguous(c) && catalog_aligned(c)
}

/// Lowest address of the catalog's span.
pub open spec fn span_lo(c: Seq<RawRegion>) -> int {
    if c.len() == 0 {
        0
    } else {
        c[0].start as int
    }
}

/// One past the highest address of the catalog's span.
pub open spec fn span_hi(c: Seq<RawRegion>) -> int {
    if c.len() == 0 {
        0
    } else {
        c[c.len() - 1].end as int
    }
}

/// `addr` lies inside the frame that starts at `f`.
pub open spec fn frame_covers(f: u64, addr: int) -> bool {
    f <= addr < f + 4096
}

/// Some frame of `fs` covers `addr`.
pub open spec fn in_used_frames(fs: Seq<u64>, addr: int) -> bool {
    exists|m: int| 0 <= m < fs.len() && #[trigger] frame_covers(fs[m], addr)
}

/// The frame starting at `f` lies entirely inside one usable raw region.
pub open spec fn frame_in_usable(c: Seq<RawRegion>, f: u64) -> bool {
    exists|j: int|
        0 <= j < c.len() && (#[trigger] c[j]).kind is Usable && c[j].start <= f && f + 4096 <= c[
            j
        ].end
}

/// The frames are ascending and at least one frame size apart, so their
/// byte ranges never overlap.
pub open spec fn frames_separated(fs: Seq<u64>) -> bool {
    forall|m: int, n: int| 0 <= m < n < fs.len() ==> #[trigger] fs[m] + 4096 <= #[trigger] fs[n]
}

/// A used-frame sequence the builder loop accepts: ascending,
/// non-overlapping, and each frame wholly inside one usable raw region.
pub open spec fn frames_wf(c: Seq<RawRegion>, fs: Seq<u64>) -> bool {
    &&& frames_separated(fs)
    &&& forall|m: int| 0 <= m < fs.len() ==> frame_in_usable(c, #[trigger] fs[m])
}

/// An output region tags its bytes correctly: every byte of it covered by a
/// used frame means the whole region is in use by the kernel heap, and every
/// byte of it not covered keeps the (converted) kind of the raw region that
/// byte belongs to.
pub open spec fn piece_kind_ok(c: Seq<RawRegion>, fs: Seq<u64>, r: MemoryRegion) -> bool {
    &&& forall|addr: int|
        #[trigger] region_contains(r, addr) && in_used_frames(fs, addr) ==> r.kind
            == MemoryRegionKind::InUse(MemoryPurpose::KernelHeap)
    &&& forall|j: int, addr: int|
        0 <= j < c.len() && #[trigger] region_contains(r, addr) && #[trigger] raw_contains(
            c[j],
            addr,
        ) && !in_used_frames(fs, addr) ==> r.kind == raw_to_kind(c[j].kind)
}

/// The built map tags memory correctly: every byte covered by a used frame
/// is in use by the kernel heap, and every other byte keeps the (converted)
/// kind of the raw region it belongs to.
pub open spec fn kinds_match(c: Seq<RawRegion>, fs: Seq<u64>, rs: Seq<MemoryRegion>) -> bool {
    forall|i: int| 0 <= i < rs.len() ==> piece_kind_ok(c, fs, #[trigger] rs[i])
}

/// Number of whole frames a raw region contributes to the allocator.
pub open spec fn region_frame_count(r: RawRegion) -> int {
    if r.kind is Usable {
        (r.end - r.start) / 4096
    } else {
        0
    }
}

/// The ascending frame addresses a single usable raw region contributes.
pub open spec fn region_frames(r: RawRegion) -> Seq<u64> {
    Seq::new(region_frame_count(r) as nat, |i: int| (r.start + 4096 * i) as u64)
}

/// All frame addresses the catalog's usable regions contribute, in
/// ascending catalog order.
pub open spec fn usable_frame_seq(c: Seq<RawRegion>) -> Seq<u64>
    decreases c.len(),
{
    if c.len() == 0 {
        Seq::empty()
    } else {
        usable_frame_seq(c.drop_last()) + region_frames(c.last())
    }
}

/// Total number of usable frames the catalog offers.
pub open spec fn usable_frame_count(c: Seq<RawRegion>) -> int {
    usable_frame_seq(c).len() as int
}

/// In a contiguous catalog, an earlier region ends no later than a later
/// region starts.
pub proof fn lemma_catalog_order(c: Seq<RawRegion>, i: int, j: int)
    requires
        catalog_contiguous(c),
        0 <= i <= j < c.len(),
    ensures
        c[i].start <= c[j].start,
        i < j ==> c[i].end <= c[j].start,
    decreases j - i,
{
    if i < j {
        lemma_catalog_order(c, i, j - 1);
        assert(c[j - 1].end == c[j].start);
    }
}

/// In a contiguous catalog, each address belongs to at most one region.
pub proof fn lemma_catalog_region_unique(c: Seq<RawRegion>, i: int, j: int, addr: int)
    requires
        catalog_contiguous(c),
        0 <= i < c.len(),
        0 <= j < c.len(),
        raw_contains(c[i], addr),
        raw_contains(c[j], addr),
    ensures
        i == j,
{
    if i < j {
        lemma_catalog_order(c, i, j);
    } else if j < i {
        lemma_catalog_order(c, j, i);
    }
}

/// Taking one more catalog region appends exactly that region's frames.
pub proof fn lemma_usable_seq_take_succ(c: Seq<RawRegion>, i: int)
    requires
        0 <= i < c.len(),
    ensures
        usable_frame_seq(c.take(i + 1)) == usable_frame_seq(c.take(i)) + region_frames(c[i]),
{
    let s = c.take(i + 1);
    assert(s.drop_last() =~= c.take(i));
    assert(s.last() == c[i]);
}

/// Every frame of a region's contribution stays inside the region.
proof fn lemma_region_frames_bounds(r: RawRegion, t: int)
    requires
        r.start <= r.end,
        0 <= t < region_frame_count(r),
    ensures
        r.start <= region_frames(r)[t],
        region_frames(r)[t] + 4096 <= r.end,
        region_frames(r)[t] == r.start + 4096 * t,
{
    let count = region_frame_count(r);
    lemma_fundamental_div_mod(r.end - r.start, 4096);
    assert(4096 * count <= r.end - r.start);
    assert(4096 * (t + 1) <= 4096 * count);
    assert(r.start + 4096 * t + 4096 <= r.end);
}

/// The frames the catalog's usable regions contribute are ascending,
/// non-overlapping, each inside its usable region, and all bounded by the
/// last region's end.
pub proof fn lemma_usable_seq_props(c: Seq<RawRegion>)
    requires
        catalog_contiguous(c),
    ensures
        frames_wf(c, usable_frame_seq(c)),
        forall|m: int|
            0 <= m < usable_frame_seq(c).len() ==> c.len() > 0 && #[trigger] usable_frame_seq(c)[m]
                + 4096 <= c.last().end,
    decreases c.len(),
{
    if c.len() > 0 {
        let c0 = c.drop_last();
        let s0 = usable_frame_seq(c0);
        let rf = region_frames(c.last());
        let s = usable_frame_seq(c);
        assert(catalog_contiguous(c0));
        lemma_usable_seq_props(c0);
        assert forall|t: int| 0 <= t < rf.len() implies c.last().start <= #[trigger] rf[t] && rf[t]
            + 4096 <= c.last().end by {
            lemma_region_frames_bounds(c.last(), t);
        }
        // each old frame ends before the last region begins
        assert forall|m: int| 0 <= m < s0.len() implies #[trigger] s0[m] + 4096
            <= c.last().start by {
            if c0.len() > 0 {
                assert(s0[m] + 4096 <= c0.last().end);
                assert(c0.last() == c[c.len() - 2]);
                assert(c[c.len() - 2].end == c[c.len() - 1].start);
            }
        }
        assert forall|m: int, n: int| 0 <= m < n < s.len() implies #[trigger] s[m] + 4096
            <= #[trigger] s[n] by {
            if n < s0.len() {
                assert(s0[m] + 4096 <= s0[n]);
            } else if m < s0.len() {
                assert(s0[m] + 4096 <= c.last().start);
                assert(c.last().start <= rf[n - s0.len()]);
            } else {
                let tm = m - s0.len();
                let tn = n - s0.len();
                lemma_region_frames_bounds(c.last(), tm);
                lemma_region_frames_bounds(c.last(), tn);
            }
        }
        assert forall|m: int| 0 <= m < s.len() implies frame_in_usable(c, #[trigger] s[m]) by {
            if m < s0.len() {
                assert(frame_in_usable(c0, s0[m]));
                let j = choose|j: int|
                    0 <= j < c0.len() && (#[trigger] c0[j]).kind is Usable && c0[j].start <= s0[m]
                        && s0[m] + 4096 <= c0[j].end;
                assert(c[j] == c0[j]);
                assert(c[j].kind is Usable && c[j].start <= s[m] && s[m] + 4096 <= c[j].end);
            } else {
                let t = m - s0.len();
                lemma_region_frames_bounds(c.last(), t);
                assert(rf.len() > 0);
                assert(c.last().kind is Usable);
                let j = c.len() - 1;
                assert(c[j].kind is Usable && c[j].start <= s[m] && s[m] + 4096 <= c[j].end);
            }
        }
        assert forall|m: int| 0 <= m < s.len() implies #[trigger] s[m] + 4096 <= c.last().end by {
            if m < s0.len() {
                if c0.len() > 0 {
                    assert(c0.last().end == c.last().start);
                    assert(c.last().start < c.last().end);
                }
            } else {
                lemma_region_frames_bounds(c.last(), m - s0.len());
            }
        }
    }
}

/// Any prefix of a well-formed frame sequence is well formed.
pub proof fn lemma_frames_wf_prefix(c: Seq<RawRegion>, fs: Seq<u64>, k: int)
    requires
        frames_wf(c, fs),
        0 <= k <= fs.len(),
    ensures
        frames_wf(c, fs.take(k)),
{
    let p = fs.take(k);
    assert forall|m: int| 0 <= m < p.len() implies frame_in_usable(c, #[trigger] p[m]) by {
        assert(p[m] == fs[m]);
        assert(frame_in_usable(c, fs[m]));
    }
    assert forall|m: int, n: int| 0 <= m < n < p.len() implies #[trigger] p[m] + 4096
        <= #[trigger] p[n] by {
        assert(fs[m] + 4096 <= fs[n]);
    }
}

/// Allocation-free frame allocator for the heap-bootstrap window.
///
/// It owns the firmware region catalog and a cursor counting the frames
/// issued so far; the ascending usable-frame sequence is recomputed from the
/// immutable catalog on every call rather than cached, trading CPU for
/// simplicity during the narrow bootstrap window. The catalog must satisfy
/// [`catalog_wf`]: in particular every region reported usable must really be
/// unused.
pub struct BootInfoFrameAllocator {
    memory_map: Vec<RawRegion>,
    next: u64,
}

impl BootInfoFrameAllocator {
    /// The firmware region catalog the allocator draws from.
    pub closed spec fn catalog(self) -> Seq<RawRegion> {
        self.memory_map@
    }

    /// How many frames have been issued so far.
    pub closed spec fn cursor(self) -> u64 {
        self.next
    }

    pub open spec fn wf(self) -> bool {
        catalog_wf(self.catalog())
    }

    /// Create a frame allocator over the given catalog, with no frames
    /// issued yet.
    pub fn init(memory_map: Vec<RawRegion>) -> (a: Self)
        requires
            catalog_wf(memory_map@),
        ensures
            a.catalog() == memory_map@,
            a.cursor() == 0,
            a.wf(),
    {
        BootInfoFrameAllocator { memory_map, next: 0 }
    }

    /// List the usable frames specified in the catalog, in ascending order.
    pub fn usable_frames(&self) -> (frames: Vec<u64>)
        requires
            self.wf(),
        ensures
            frames@ == usable_frame_seq(self.catalog()),
    {
        let ghost cat = self.catalog();
        let mut frames: Vec<u64> = Vec::new();
        let n = self.memory_map.len();
        let mut i: usize = 0;
        proof {
            assert(cat.take(0) =~= Seq::<RawRegion>::empty());
        }
        while i < n
            invariant
                self.wf(),
                cat == self.catalog(),
                n == cat.len(),
                i <= n,
                frames@ == usable_frame_seq(cat.take(i as int)),
            decreases n - i,
        {
            let r = self.memory_map[i];
            let ghost prefix = usable_frame_seq(cat.take(i as int));
            if matches!(r.kind, RawRegionKind::Usable) {
                let ghost qs = (r.start as int) / 4096;
                let ghost qe = (r.end as int) / 4096;
                let ghost count = region_frame_count(r);
                proof {
                    lemma_fundamental_div_mod(r.start as int, 4096);
                    lemma_fundamental_div_mod(r.end as int, 4096);
                    assert(r.start == 4096 * qs);
                    assert(r.end == 4096 * qe);
                    assert(r.end - r.start == 4096 * (qe - qs)) by (nonlinear_arith)
                        requires
                            r.start == 4096 * qs,
                            r.end == 4096 * qe,
                    ;
                    lemma_div_by_multiple(qe - qs, 4096);
                    assert(count == qe - qs);
                }
                let mut addr = r.start;
                let ghost mut k: int = 0;
                while addr < r.end
                    invariant
                        0 <= k <= count,
                        count == region_frame_count(r),
                        r.kind is Usable,
                        r.start == 4096 * qs,
                        r.end == 4096 * qe,
                        count == qe - qs,
                        addr == r.start + 4096 * k,
                        frames@ == prefix + region_frames(r).take(k),
                    decreases r.end - addr,
                {
                    proof {
                        assert(k < count);
                        assert(region_frames(r)[k] == (r.start + 4096 * k) as u64);
                    }
                    frames.push(addr);
                    proof {
                        assert(region_frames(r).take(k + 1) =~= region_frames(r).take(k).push(
                            region_frames(r)[k],
                        ));
                        k = k + 1;
                        assert(addr + 4096 == r.start + 4096 * k);
                        assert(4096 * k <= 4096 * count);
                    }
                    addr = addr + 4096;
                }
                proof {
                    assert(k == count);
                    assert(region_frames(r).take(count) =~= region_frames(r));
                }
            } else {
                proof {
                    assert(region_frames(r) =~= Seq::<u64>::empty());
                }
            }
            proof {
                lemma_usable_seq_take_succ(cat, i as int);
                assert(frames@ =~= usable_frame_seq(cat.take(i + 1)));
            }
            i = i + 1;
        }
        proof {
            assert(cat.take(n as int) =~= cat);
        }
        frames
    }

    /// Issue the next usable frame in ascending order, advancing the
    /// cursor. Returns the out-of-memory condition once the cursor has
    /// passed the catalog's usable frames; the cursor advances regardless.
    pub fn allocate_frame(&mut self) -> (frame: Option<u64>)
        requires
            old(self).wf(),
            old(self).cursor() < u64::MAX,
        ensures
            final(self).catalog() == old(self).catalog(),
            final(self).cursor() == old(self).cursor() + 1,
            final(self).wf(),
            old(self).cursor() < usable_frame_count(old(self).catalog()) ==> frame == Some(
                usable_frame_seq(old(self).catalog())[old(self).cursor() as int],
            ),
            old(self).cursor() >= usable_frame_count(old(self).catalog()) ==> frame is None,
    {
        let frames = self.usable_frames();
        let frame = if self.next < frames.len() as u64 {
            Some(frames[self.next as usize])
        } else {
            None
        };
        self.next = self.next + 1;
        frame
    }

    /// How many frames this allocator has issued so far.
    pub fn frames_issued(&self) -> (r: u64)
        ensures
            r == self.cursor(),
    {
        self.next
    }

    /// The frames issued so far: the first `cursor` usable frames, or all of
    /// them once the cursor has run past the end.
    pub open spec fn used_prefix(self) -> Seq<u64> {
        if self.cursor() <= usable_frame_seq(self.catalog()).len() {
            usable_frame_seq(self.catalog()).take(self.cursor() as int)
        } else {
            usable_frame_seq(self.catalog())
        }
    }

    /// Consume the allocator and build the final memory map: re-derive the
    /// usable-frame sequence, take the first `cursor` frames — by
    /// construction exactly the frames previously issued, in the same order
    /// — and replay them against the original catalog. The allocator is
    /// gone afterwards; this transition cannot be undone.
    pub fn into_memory_map(self) -> (map: MemoryMap)
        requires
            self.wf(),
        ensures
            map.wf(),
            is_partition(map@, span_lo(self.catalog()), span_hi(self.catalog())),
            kinds_match(self.catalog(), self.used_prefix(), map@),
            map.total_spec() == span_hi(self.catalog()) - span_lo(self.catalog()),
    {
        let end = self.next;
        let mut used_frames = self.usable_frames();
        if end < used_frames.len() as u64 {
            used_frames.truncate(end as usize);
        }
        proof {
            let s = usable_frame_seq(self.catalog());
            lemma_usable_seq_props(self.catalog());
            assert(s.take(s.len() as int) =~= s);
            assert(used_frames@ == self.used_prefix());
            if self.cursor() <= s.len() {
                lemma_frames_wf_prefix(self.catalog(), s, self.cursor() as int);
            }
        }
        build_memory_map(&self.memory_map, &used_frames)
    }
}

/// No frame of `fs` reaches into `[lo, hi)`: the first `j` frames end at or
/// before `lo`, and the rest start at or after `hi`.
proof fn lemma_span_untouched(fs: Seq<u64>, j: int, lo: int, hi: int)
    requires
        frames_separated(fs),
        0 <= j <= fs.len(),
        forall|m: int| 0 <= m < j ==> (#[trigger] fs[m]) + 4096 <= lo,
        j < fs.len() ==> fs[j] >= hi,
    ensures
        forall|addr: int| lo <= addr < hi ==> !(#[trigger] in_used_frames(fs, addr)),
{
    assert forall|addr: int| lo <= addr < hi implies !(#[trigger] in_used_frames(fs, addr)) by {
        if in_used_frames(fs, addr) {
            let m = choose|m: int| 0 <= m < fs.len() && #[trigger] frame_covers(fs[m], addr);
            if m < j {
                assert(fs[m] + 4096 <= lo);
            } else {
                if m > j {
                    assert(fs[j] + 4096 <= fs[m]);
                }
                assert(fs[m] >= hi);
            }
        }
    }
}

/// A piece cut out of raw region `i`, keeping that region's converted kind,
/// is tagged correctly when no used frame reaches into it.
proof fn lemma_raw_piece_ok(c: Seq<RawRegion>, fs: Seq<u64>, r: MemoryRegion, i: int)
    requires
        catalog_contiguous(c),
        0 <= i < c.len(),
        c[i].start <= r.start,
        r.end <= c[i].end,
        r.kind == raw_to_kind(c[i].kind),
        forall|addr: int| r.start <= addr < r.end ==> !(#[trigger] in_used_frames(fs, addr)),
    ensures
        piece_kind_ok(c, fs, r),
{
    assert forall|addr: int| #[trigger] region_contains(r, addr) && in_used_frames(fs, addr)
        implies r.kind == MemoryRegionKind::InUse(MemoryPurpose::KernelHeap) by {
        assert(!in_used_frames(fs, addr));
    }
    assert forall|j: int, addr: int|
        0 <= j < c.len() && #[trigger] region_contains(r, addr) && #[trigger] raw_contains(
            c[j],
            addr,
        ) && !in_used_frames(fs, addr) implies r.kind == raw_to_kind(c[j].kind) by {
        assert(raw_contains(c[i], addr));
        lemma_catalog_region_unique(c, i, j, addr);
    }
}

/// The output region for one used frame is tagged correctly: every one of
/// its bytes is covered by that frame.
proof fn lemma_inuse_piece_ok(c: Seq<RawRegion>, fs: Seq<u64>, r: MemoryRegion, m: int)
    requires
        0 <= m < fs.len(),
        r.start == fs[m],
        r.end == fs[m] + 4096,
        r.kind == MemoryRegionKind::InUse(MemoryPurpose::KernelHeap),
    ensures
        piece_kind_ok(c, fs, r),
{
    assert forall|addr: int| #[trigger] region_contains(r, addr) implies in_used_frames(
        fs,
        addr,
    ) by {
        assert(frame_covers(fs[m], addr));
    }
}

/// Correct tagging is preserved when two touching pieces of the same kind
/// merge into one.
proof fn lemma_piece_merge(c: Seq<RawRegion>, fs: Seq<u64>, a: MemoryRegion, b: MemoryRegion)
    requires
        piece_kind_ok(c, fs, a),
        piece_kind_ok(c, fs, b),
        a.end == b.start,
        a.kind == b.kind,
    ensures
        piece_kind_ok(c, fs, (MemoryRegion { start: a.start, end: b.end, kind: a.kind })),
{
    let m = MemoryRegion { start: a.start, end: b.end, kind: a.kind };
    assert forall|addr: int| #[trigger] region_contains(m, addr) && in_used_frames(fs, addr)
        implies m.kind == MemoryRegionKind::InUse(MemoryPurpose::KernelHeap) by {
        if addr < a.end {
            assert(region_contains(a, addr));
        } else {
            assert(region_contains(b, addr));
        }
    }
    assert forall|j: int, addr: int|
        0 <= j < c.len() && #[trigger] region_contains(m, addr) && #[trigger] raw_contains(
            c[j],
            addr,
        ) && !in_used_frames(fs, addr) implies m.kind == raw_to_kind(c[j].kind) by {
        if addr < a.end {
            assert(region_contains(a, addr));
        } else {
            assert(region_contains(b, addr));
        }
    }
}

/// What `MemoryMapBuilder::add_region` did to the accumulated sequence:
/// either the added region merged into the last one, or it was appended.
spec fn add_region_outcome(
    old_rs: Seq<MemoryRegion>,
    new_rs: Seq<MemoryRegion>,
    region: MemoryRegion,
) -> bool {
    ||| (old_rs.len() > 0 && old_rs.last().end == region.start && old_rs.last().kind == region.kind
        && new_rs == old_rs.update(
        old_rs.len() - 1,
        (MemoryRegion { start: old_rs.last().start, end: region.end, kind: region.kind }),
    ))
    ||| new_rs == old_rs.push(region)
}

/// Pushing a region that begins exactly at the partition's current end
/// extends the partition to that region's end, whether or not the builder
/// merged it into the last piece.
proof fn lemma_partition_after_add(
    old_rs: Seq<MemoryRegion>,
    new_rs: Seq<MemoryRegion>,
    region: MemoryRegion,
    lo: int,
)
    requires
        is_partition(old_rs, lo, region.start as int),
        region.start < region.end,
        add_region_outcome(old_rs, new_rs, region),
    ensures
        is_partition(new_rs, lo, region.end as int),
{
    if old_rs.len() > 0 && old_rs.last().end == region.start && old_rs.last().kind == region.kind
        && new_rs == old_rs.update(
        old_rs.len() - 1,
        (MemoryRegion { start: old_rs.last().start, end: region.end, kind: region.kind }),
    ) {
        let k = old_rs.len() - 1;
        assert forall|i: int| 0 <= i < new_rs.len() implies (#[trigger] new_rs[i]).start < new_rs[
            i
        ].end by {
            if i < k {
                assert(new_rs[i] == old_rs[i]);
            }
        }
        assert forall|i: int| 0 <= i < new_rs.len() - 1 implies (#[trigger] new_rs[i]).end
            == new_rs[i + 1].start by {
            assert(old_rs[i].end == old_rs[i + 1].start);
        }
    } else {
        assert(new_rs == old_rs.push(region));
        assert forall|i: int| 0 <= i < new_rs.len() implies (#[trigger] new_rs[i]).start < new_rs[
            i
        ].end by {
            if i < old_rs.len() {
                assert(new_rs[i] == old_rs[i]);
            }
        }
        assert forall|i: int| 0 <= i < new_rs.len() - 1 implies (#[trigger] new_rs[i]).end
            == new_rs[i + 1].start by {
            if i < old_rs.len() - 1 {
                assert(old_rs[i].end == old_rs[i + 1].start);
            }
        }
    }
}

/// Correct tagging of the whole accumulated sequence is preserved by the
/// builder push, whether or not it merged.
proof fn lemma_kinds_after_add(
    c: Seq<RawRegion>,
    fs: Seq<u64>,
    old_rs: Seq<MemoryRegion>,
    new_rs: Seq<MemoryRegion>,
    region: MemoryRegion,
)
    requires
        kinds_match(c, fs, old_rs),
        piece_kind_ok(c, fs, region),
        add_region_outcome(old_rs, new_rs, region),
    ensures
        kinds_match(c, fs, new_rs),
{
    if old_rs.len() > 0 && old_rs.last().end == region.start && old_rs.last().kind == region.kind
        && new_rs == old_rs.update(
        old_rs.len() - 1,
        (MemoryRegion { start: old_rs.last().start, end: region.end, kind: region.kind }),
    ) {
        let k = old_rs.len() - 1;
        assert(piece_kind_ok(c, fs, old_rs[k]));
        lemma_piece_merge(c, fs, old_rs[k], region);
        assert forall|i: int| 0 <= i < new_rs.len() implies piece_kind_ok(
            c,
            fs,
            #[trigger] new_rs[i],
        ) by {
            if i < k {
                assert(new_rs[i] == old_rs[i]);
                assert(piece_kind_ok(c, fs, old_rs[i]));
            }
        }
    } else {
        assert(new_rs == old_rs.push(region));
        assert forall|i: int| 0 <= i < new_rs.len() implies piece_kind_ok(
            c,
            fs,
            #[trigger] new_rs[i],
        ) by {
            if i < old_rs.len() {
                assert(new_rs[i] == old_rs[i]);
                assert(piece_kind_ok(c, fs, old_rs[i]));
            }
        }
    }
}

/// Where the builder's partition must have advanced to after processing the
/// first `i` catalog regions.
spec fn cat_pos(c: Seq<RawRegion>, i: int) -> int {
    if 0 <= i < c.len() {
        c[i].start as int
    } else {
        span_hi(c)
    }
}

/// Replay an ascending used-frame sequence against the raw catalog and
/// produce the final memory map.
///
/// The catalog is walked in order; each raw region becomes the current
/// candidate output region. While the next used frame falls inside the
/// candidate, the frame's own region (tagged in use by the kernel heap) is
/// merged through the interval algebra: completed pieces go to the builder
/// at once and the staged remainder becomes the new candidate. After the
/// last frame inside the region, the final candidate is pushed.
///
/// The result tiles the catalog's span exactly, is maximally coalesced, and
/// tags a byte in use if and only if a used frame covers it.
pub fn build_memory_map(catalog: &Vec<RawRegion>, used_frames: &Vec<u64>) -> (map: MemoryMap)
    requires
        catalog_contiguous(catalog@),
        frames_wf(catalog@, used_frames@),
    ensures
        map.wf(),
        is_partition(map@, span_lo(catalog@), span_hi(catalog@)),
        kinds_match(catalog@, used_frames@, map@),
        map.total_spec() == span_hi(catalog@) - span_lo(catalog@),
{
    let ghost cat = catalog@;
    let ghost used = used_frames@;
    let mut map_builder = MemoryMap::builder();
    let n = catalog.len();
    let nf = used_frames.len();
    let mut j: usize = 0;
    let mut i: usize = 0;
    proof {
        if nf > 0 {
            assert(frame_in_usable(cat, used[0]));
            let jj = choose|jj: int|
                0 <= jj < cat.len() && (#[trigger] cat[jj]).kind is Usable && cat[jj].start
                    <= used[0] && used[0] + 4096 <= cat[jj].end;
            lemma_catalog_order(cat, 0, jj);
        }
    }
    while i < n
        invariant
            cat == catalog@,
            used == used_frames@,
            n == cat.len(),
            nf == used.len(),
            catalog_contiguous(cat),
            frames_wf(cat, used),
            i <= n,
            j <= nf,
            map_builder.wf(),
            is_partition(map_builder@, span_lo(cat), cat_pos(cat, i as int)),
            kinds_match(cat, used, map_builder@),
            forall|m: int| 0 <= m < j ==> (#[trigger] used[m]) + 4096 <= cat_pos(cat, i as int),
            j < nf ==> used[j as int] >= cat_pos(cat, i as int),
        decreases n - i,
    {
        let r = catalog[i];
        let converted = MemoryRegionKind::from(r.kind);
        let mut candidate = MemoryRegion::new(r.start, r.end, converted);
        while j < nf && used_frames[j] < candidate.end
            invariant
                cat == catalog@,
                used == used_frames@,
                n == cat.len(),
                nf == used.len(),
                catalog_contiguous(cat),
                frames_wf(cat, used),
                i < n,
                j <= nf,
                r == cat[i as int],
                candidate.end == r.end,
                r.start <= candidate.start,
                candidate.start < candidate.end,
                map_builder.wf(),
                is_partition(map_builder@, span_lo(cat), candidate.start as int),
                kinds_match(cat, used, map_builder@),
                j < nf ==> used[j as int] >= candidate.start,
                (candidate.kind == raw_to_kind(r.kind) && (forall|m: int|
                    0 <= m < j ==> (#[trigger] used[m]) + 4096 <= candidate.start)) || (
                candidate.kind == MemoryRegionKind::InUse(MemoryPurpose::KernelHeap) && 0 < j
                    && candidate.start == used[j - 1] && candidate.end == used[j - 1] + 4096 && (
                forall|m: int| 0 <= m < j - 1 ==> (#[trigger] used[m]) + 4096 <= candidate.start)),
            decreases nf - j,
        {
            proof {
                // an in-use candidate ends exactly at the previous frame, and
                // the next frame starts at least a frame later: the loop
                // condition rules that shape out here
                if candidate.kind is InUse {
                    assert(used[j - 1] + 4096 <= used[j as int]);
                    assert(false);
                }
                assert(candidate.kind == raw_to_kind(r.kind));
            }
            let f = used_frames[j];
            proof {
                // the frame lies in some usable region; by uniqueness that
                // region is the current one, so the frame ends inside it
                assert(frame_in_usable(cat, used[j as int]));
                let jj = choose|jj: int|
                    0 <= jj < cat.len() && (#[trigger] cat[jj]).kind is Usable && cat[jj].start
                        <= used[j as int] && used[j as int] + 4096 <= cat[jj].end;
                assert(raw_contains(cat[jj], f as int));
                assert(raw_contains(cat[i as int], f as int));
                lemma_catalog_region_unique(cat, i as int, jj, f as int);
                assert(f + 4096 <= r.end);
            }
            let frame_region = MemoryRegion::new(
                f,
                f + 4096,
                MemoryRegionKind::InUse(MemoryPurpose::KernelHeap),
            );
            let ghost prev = candidate;
            let ghost prev_out = map_builder@;
            let (current, staged, trailing) = candidate.try_merge(frame_region);
            match (staged, trailing) {
                (None, None) => {
                    // the frame filled the candidate exactly; it becomes the
                    // candidate itself, now tagged in use
                    proof {
                        assert(current == frame_region);
                    }
                    candidate = current;
                }
                (Some(next), None) => {
                    proof {
                        if prev.start < f {
                            // a leading piece of the candidate was cut off
                            lemma_span_untouched(used, j as int, prev.start as int, f as int);
                            lemma_raw_piece_ok(cat, used, current, i as int);
                        } else {
                            // the frame itself is complete; the remainder of
                            // the candidate follows it
                            lemma_inuse_piece_ok(cat, used, current, j as int);
                        }
                    }
                    let ghost before = map_builder@;
                    map_builder.add_region(current);
                    proof {
                        assert(add_region_outcome(before, map_builder@, current));
                        lemma_partition_after_add(before, map_builder@, current, span_lo(cat));
                        lemma_kinds_after_add(cat, used, before, map_builder@, current);
                    }
                    candidate = next;
                }
                (Some(next), Some(trail)) => {
                    // the frame starts strictly inside the candidate and ends
                    // before it does: leading piece, frame piece, remainder
                    proof {
                        lemma_span_untouched(used, j as int, prev.start as int, f as int);
                        lemma_raw_piece_ok(cat, used, current, i as int);
                    }
                    let ghost before = map_builder@;
                    map_builder.add_region(current);
                    proof {
                        assert(add_region_outcome(before, map_builder@, current));
                        lemma_partition_after_add(before, map_builder@, current, span_lo(cat));
                        lemma_kinds_after_add(cat, used, before, map_builder@, current);
                        lemma_inuse_piece_ok(cat, used, next, j as int);
                    }
                    let ghost before2 = map_builder@;
                    map_builder.add_region(next);
                    proof {
                        assert(add_region_outcome(before2, map_builder@, next));
                        lemma_partition_after_add(before2, map_builder@, next, span_lo(cat));
                        lemma_kinds_after_add(cat, used, before2, map_builder@, next);
                    }
                    candidate = trail;
                }
                (None, Some(_)) => {
                    vstd::pervasive::unreached()
                }
            }
            j = j + 1;
        }
        proof {
            if candidate.kind is InUse {
                lemma_inuse_piece_ok(cat, used, candidate, j - 1);
            } else {
                lemma_span_untouched(
                    used,
                    j as int,
                    candidate.start as int,
                    candidate.end as int,
                );
                lemma_raw_piece_ok(cat, used, candidate, i as int);
            }
        }
        let ghost before = map_builder@;
        map_builder.add_region(candidate);
        proof {
            assert(add_region_outcome(before, map_builder@, candidate));
            lemma_partition_after_add(before, map_builder@, candidate, span_lo(cat));
            lemma_kinds_after_add(cat, used, before, map_builder@, candidate);
        }
        i = i + 1;
    }
    let map = map_builder.build();
    proof {
        lemma_partition_sum(map@, span_lo(cat), span_hi(cat));
    }
    map
}

/// Every address of a contiguous catalog's span lies in one of its regions.
pub proof fn lemma_catalog_covers(c: Seq<RawRegion>, addr: int)
    requires
        catalog_contiguous(c),
        span_lo(c) <= addr < span_hi(c),
    ensures
        exists|j: int| 0 <= j < c.len() && #[trigger] raw_contains(c[j], addr),
    decreases c.len(),
{
    assert(c.len() > 0);
    if addr >= c.last().start {
        assert(raw_contains(c[c.len() - 1], addr));
    } else {
        let c0 = c.drop_last();
        assert(c.len() >= 2);
        assert(catalog_contiguous(c0));
        assert(span_hi(c0) == c[c.len() - 2].end);
        lemma_catalog_covers(c0, addr);
        let j = choose|j: int| 0 <= j < c0.len() && #[trigger] raw_contains(c0[j], addr);
        assert(raw_contains(c[j], addr));
    }
}

/// Allocation determinism: in a correctly tagged tiling of the catalog's
/// span, a region is in use by the kernel heap exactly when one of the used
/// frames covers its bytes. Retiring after `k` allocations therefore marks
/// exactly the first `k` usable frames in use, however the catalog is
/// fragmented.
pub proof fn lemma_in_use_iff_used_frame(
    c: Seq<RawRegion>,
    fs: Seq<u64>,
    rs: Seq<MemoryRegion>,
    i: int,
    addr: int,
)
    requires
        catalog_contiguous(c),
        is_partition(rs, span_lo(c), span_hi(c)),
        kinds_match(c, fs, rs),
        0 <= i < rs.len(),
        region_contains(rs[i], addr),
    ensures
        rs[i].kind == MemoryRegionKind::InUse(MemoryPurpose::KernelHeap) <==> in_used_frames(
            fs,
            addr,
        ),
{
    assert(piece_kind_ok(c, fs, rs[i]));
    lemma_partition_bounds(rs, span_lo(c), span_hi(c), i);
    lemma_catalog_covers(c, addr);
    if !in_used_frames(fs, addr) {
        let j = choose|j: int| 0 <= j < c.len() && #[trigger] raw_contains(c[j], addr);
        assert(rs[i].kind == raw_to_kind(c[j].kind));
        assert(!(raw_to_kind(c[j].kind) is InUse));
    }
}

/// Exhaustion is permanent: the cursor only ever advances and the catalog
/// never changes, so once the cursor has reached the catalog's usable-frame
/// count — the point where `allocate_frame` begins to fail — every later
/// allocator state fails as well.
pub proof fn lemma_exhaustion_is_permanent(a: BootInfoFrameAllocator, b: BootInfoFrameAllocator)
    requires
        a.cursor() >= usable_frame_count(a.catalog()),
        b.catalog() == a.catalog(),
        b.cursor() >= a.cursor(),
    ensures
        b.cursor() >= usable_frame_count(b.catalog()),
{
}

/// Two output regions that share an address have the same kind: the address
/// is either covered by a used frame (both in use) or it keeps the kind of
/// the one raw region holding it.
proof fn lemma_kind_agree(
    c: Seq<RawRegion>,
    fs: Seq<u64>,
    r1: MemoryRegion,
    r2: MemoryRegion,
    addr: int,
)
    requires
        catalog_contiguous(c),
        span_lo(c) <= addr < span_hi(c),
        piece_kind_ok(c, fs, r1),
        piece_kind_ok(c, fs, r2),
        region_contains(r1, addr),
        region_contains(r2, addr),
    ensures
        r1.kind == r2.kind,
{
    if !in_used_frames(fs, addr) {
        lemma_catalog_covers(c, addr);
        let j = choose|j: int| 0 <= j < c.len() && #[trigger] raw_contains(c[j], addr);
        assert(r1.kind == raw_to_kind(c[j].kind));
        assert(r2.kind == raw_to_kind(c[j].kind));
    }
}

/// The contract of `build_memory_map` determines its output uniquely: two
/// maximally coalesced tilings of the same tail of the catalog's span that
/// both tag memory correctly are the same sequence.
pub proof fn lemma_tagged_tiling_unique(
    c: Seq<RawRegion>,
    fs: Seq<u64>,
    rs1: Seq<MemoryRegion>,
    rs2: Seq<MemoryRegion>,
    lo: int,
)
    requires
        catalog_contiguous(c),
        span_lo(c) <= lo,
        is_partition(rs1, lo, span_hi(c)),
        is_partition(rs2, lo, span_hi(c)),
        regions_wf(rs1),
        regions_wf(rs2),
        kinds_match(c, fs, rs1),
        kinds_match(c, fs, rs2),
    ensures
        rs1 == rs2,
    decreases rs1.len(),
{
    let hi = span_hi(c);
    if rs1.len() == 0 {
        if rs2.len() > 0 {
            lemma_partition_bounds(rs2, lo, hi, 0);
            assert(false);
        }
        assert(rs1 =~= rs2);
    } else {
        lemma_partition_bounds(rs1, lo, hi, 0);
        if rs2.len() == 0 {
            assert(false);
        }
        lemma_partition_bounds(rs2, lo, hi, 0);
        // the heads start together and carry the same kind
        assert(region_contains(rs1[0], lo) && region_contains(rs2[0], lo));
        lemma_kind_agree(c, fs, rs1[0], rs2[0], lo);
        // the heads also end together: were one shorter, the other would
        // continue past the boundary with the same kind on both sides,
        // contradicting maximal coalescing
        if rs1[0].end < rs2[0].end {
            let addr = rs1[0].end as int;
            assert(rs1.len() >= 2);
            assert(region_contains(rs1[1], addr));
            assert(region_contains(rs2[0], addr));
            lemma_kind_agree(c, fs, rs1[1], rs2[0], addr);
            assert(false);
        }
        if rs2[0].end < rs1[0].end {
            let addr = rs2[0].end as int;
            assert(rs2.len() >= 2);
            assert(region_contains(rs2[1], addr));
            assert(region_contains(rs1[0], addr));
            lemma_kind_agree(c, fs, rs2[1], rs1[0], addr);
            assert(false);
        }
        assert(rs1[0] == rs2[0]);
        // the tails tile the rest of the span; recurse
        let rs1t = rs1.drop_first();
        let rs2t = rs2.drop_first();
        let lo2 = rs1[0].end as int;
        assert forall|i: int| 0 <= i < rs1t.len() implies (#[trigger] rs1t[i]) == rs1[i + 1] by {}
        assert forall|i: int| 0 <= i < rs2t.len() implies (#[trigger] rs2t[i]) == rs2[i + 1] by {}
        assert(is_partition(rs1t, lo2, hi));
        assert(is_partition(rs2t, lo2, hi));
        assert forall|i: int| 0 <= i < rs1t.len() implies piece_kind_ok(
            c,
            fs,
            #[trigger] rs1t[i],
        ) by {
            assert(piece_kind_ok(c, fs, rs1[i + 1]));
        }
        assert forall|i: int| 0 <= i < rs2t.len() implies piece_kind_ok(
            c,
            fs,
            #[trigger] rs2t[i],
        ) by {
            assert(piece_kind_ok(c, fs, rs2[i + 1]));
        }
        lemma_tagged_tiling_unique(c, fs, rs1t, rs2t, lo2);
        assert forall|i: int| 0 <= i < rs1.len() implies (#[trigger] rs1[i]) == rs2[i] by {
            if i > 0 {
                assert(rs1t[i - 1] == rs2t[i - 1]);
            }
        }
        assert(rs1 =~= rs2);
    }
}

/// The catalog converted region by region, keeping every boundary.
pub open spec fn converted_catalog(c: Seq<RawRegion>) -> Seq<MemoryRegion> {
    Seq::new(
        c.len(),
        |i: int|
            (MemoryRegion { start: c[i].start, end: c[i].end, kind: raw_to_kind(c[i].kind) }),
    )
}

/// An empty used-frame sequence reproduces the catalog's regions unchanged:
/// when no two neighbouring raw regions convert to the same kind (so the
/// adjacency coalescing that well-formed catalogs never trigger stays
/// idle), the converted catalog itself is the only coalesced, correctly
/// tagged tiling of the span.
pub proof fn lemma_empty_frames_reproduce_catalog(c: Seq<RawRegion>, rs: Seq<MemoryRegion>)
    requires
        catalog_contiguous(c),
        forall|i: int|
            0 <= i < c.len() - 1 ==> raw_to_kind((#[trigger] c[i]).kind) != raw_to_kind(
                c[i + 1].kind,
            ),
        is_partition(rs, span_lo(c), span_hi(c)),
        regions_wf(rs),
        kinds_match(c, Seq::<u64>::empty(), rs),
    ensures
        rs == converted_catalog(c),
{
    lemma_coalesce_identity_when_kinds_distinct(c);
    lemma_empty_frames_coalesce_catalog(c, rs);
}

/// When no two neighbouring raw regions convert to one kind, coalescing
/// never merges anything: the coalesced catalog is the converted catalog
/// unchanged.
proof fn lemma_coalesce_identity_when_kinds_distinct(c: Seq<RawRegion>)
    requires
        catalog_contiguous(c),
        forall|i: int|
            0 <= i < c.len() - 1 ==> raw_to_kind((#[trigger] c[i]).kind) != raw_to_kind(
                c[i + 1].kind,
            ),
    ensures
        coalesced_catalog(c) == converted_catalog(c),
    decreases c.len(),
{
    if c.len() == 0 {
        assert(coalesced_catalog(c) =~= converted_catalog(c));
    } else {
        let c0 = c.drop_last();
        assert(catalog_contiguous(c0));
        lemma_coalesce_identity_when_kinds_distinct(c0);
        if c.len() >= 2 {
            // the last two converted kinds differ, so the last region is
            // appended rather than merged
            assert(converted_catalog(c0).last() == (MemoryRegion {
                start: c[c.len() - 2].start,
                end: c[c.len() - 2].end,
                kind: raw_to_kind(c[c.len() - 2].kind),
            }));
            assert(raw_to_kind(c[c.len() - 2].kind) != raw_to_kind(c[c.len() - 1].kind));
        }
        assert(coalesced_catalog(c) =~= converted_catalog(c));
    }
}

/// The catalog converted region by region and maximally coalesced: touching
/// neighbours whose kinds convert alike merge into one region, exactly as
/// the builder would accumulate them.
pub open spec fn coalesced_catalog(c: Seq<RawRegion>) -> Seq<MemoryRegion>
    decreases c.len(),
{
    if c.len() == 0 {
        Seq::empty()
    } else {
        let rest = coalesced_catalog(c.drop_last());
        let r = MemoryRegion {
            start: c.last().start,
            end: c.last().end,
            kind: raw_to_kind(c.last().kind),
        };
        if rest.len() > 0 && rest.last().end == r.start && rest.last().kind == r.kind {
            rest.update(
                rest.len() - 1,
                (MemoryRegion { start: rest.last().start, end: r.end, kind: r.kind }),
            )
        } else {
            rest.push(r)
        }
    }
}

/// Accumulating one more correctly tagged region that begins at the current
/// end — merged into the last piece exactly when they touch with one kind —
/// keeps the sequence a maximally coalesced, correctly tagged partition.
proof fn lemma_accumulate_region(
    c: Seq<RawRegion>,
    fs: Seq<u64>,
    old_rs: Seq<MemoryRegion>,
    new_rs: Seq<MemoryRegion>,
    region: MemoryRegion,
    lo: int,
)
    requires
        regions_wf(old_rs),
        is_partition(old_rs, lo, region.start as int),
        kinds_match(c, fs, old_rs),
        piece_kind_ok(c, fs, region),
        region.start < region.end,
        new_rs == if old_rs.len() > 0 && old_rs.last().end == region.start && old_rs.last().kind
            == region.kind {
            old_rs.update(
                old_rs.len() - 1,
                (MemoryRegion { start: old_rs.last().start, end: region.end, kind: region.kind }),
            )
        } else {
            old_rs.push(region)
        },
    ensures
        regions_wf(new_rs),
        is_partition(new_rs, lo, region.end as int),
        kinds_match(c, fs, new_rs),
{
    assert(add_region_outcome(old_rs, new_rs, region));
    lemma_partition_after_add(old_rs, new_rs, region, lo);
    lemma_kinds_after_add(c, fs, old_rs, new_rs, region);
    if old_rs.len() > 0 && old_rs.last().end == region.start && old_rs.last().kind
        == region.kind {
        let k = old_rs.len() - 1;
        assert forall|i: int|
            0 <= i < new_rs.len() - 1 && (#[trigger] new_rs[i]).end == new_rs[i + 1].start
            implies new_rs[i].kind != new_rs[i + 1].kind by {
            assert(new_rs[i] == old_rs[i]);
            assert(old_rs[i].kind != old_rs[i + 1].kind || old_rs[i].end != old_rs[i + 1].start);
        }
    } else {
        assert(new_rs == old_rs.push(region));
        assert forall|i: int|
            0 <= i < new_rs.len() - 1 && (#[trigger] new_rs[i]).end == new_rs[i + 1].start
            implies new_rs[i].kind != new_rs[i + 1].kind by {
            if i < old_rs.len() - 1 {
                assert(new_rs[i] == old_rs[i]);
            } else {
                // pushed rather than merged while touching: the kinds differ
                assert(new_rs[i] == old_rs.last());
            }
        }
    }
}

/// The coalesced converted catalog tiles the catalog's span, is maximally
/// coalesced, and keeps every byte's converted raw kind, with no byte in
/// use.
pub proof fn lemma_coalesced_catalog_props(c: Seq<RawRegion>)
    requires
        catalog_contiguous(c),
    ensures
        is_partition(coalesced_catalog(c), span_lo(c), span_hi(c)),
        regions_wf(coalesced_catalog(c)),
        kinds_match(c, Seq::<u64>::empty(), coalesced_catalog(c)),
    decreases c.len(),
{
    let fs = Seq::<u64>::empty();
    if c.len() > 0 {
        let c0 = c.drop_last();
        assert(catalog_contiguous(c0));
        lemma_coalesced_catalog_props(c0);
        let rest = coalesced_catalog(c0);
        let r = MemoryRegion {
            start: c.last().start,
            end: c.last().end,
            kind: raw_to_kind(c.last().kind),
        };
        if c.len() >= 2 {
            assert(span_lo(c0) == span_lo(c));
            assert(span_hi(c0) == c[c.len() - 2].end);
        }
        // the accumulated pieces stay correctly tagged against the longer
        // catalog: they all end before its last region begins
        assert forall|i: int| 0 <= i < rest.len() implies piece_kind_ok(c, fs, #[trigger] rest[i]) by {
            lemma_partition_bounds(rest, span_lo(c0), span_hi(c0), i);
            assert(piece_kind_ok(c0, fs, rest[i]));
            assert forall|j: int, addr: int|
                0 <= j < c.len() && #[trigger] region_contains(rest[i], addr)
                    && #[trigger] raw_contains(c[j], addr) && !in_used_frames(fs, addr)
                implies rest[i].kind == raw_to_kind(c[j].kind) by {
                if j < c0.len() {
                    assert(raw_contains(c0[j], addr));
                } else {
                    assert(addr < span_hi(c0));
                    assert(false);
                }
            }
        }
        assert(kinds_match(c, fs, rest));
        // no frame covers anything: the used-frame sequence is empty
        assert forall|addr: int| r.start <= addr < r.end implies !(#[trigger] in_used_frames(
            fs,
            addr,
        )) by {
            if in_used_frames(fs, addr) {
                let m = choose|m: int| 0 <= m < fs.len() && #[trigger] frame_covers(fs[m], addr);
            }
        }
        lemma_raw_piece_ok(c, fs, r, c.len() - 1);
        lemma_accumulate_region(c, fs, rest, coalesced_catalog(c), r, span_lo(c));
    }
}

/// An empty used-frame sequence reproduces the raw catalog's regions after
/// only the adjacency coalescing: every maximally coalesced, correctly
/// tagged tiling of the span with no frame in use — what
/// `build_memory_map`'s contract yields for an empty used-frame sequence —
/// equals the coalesced converted catalog.
pub proof fn lemma_empty_frames_coalesce_catalog(c: Seq<RawRegion>, rs: Seq<MemoryRegion>)
    requires
        catalog_contiguous(c),
        is_partition(rs, span_lo(c), span_hi(c)),
        regions_wf(rs),
        kinds_match(c, Seq::<u64>::empty(), rs),
    ensures
        rs == coalesced_catalog(c),
{
    lemma_coalesced_catalog_props(c);
    lemma_tagged_tiling_unique(c, Seq::<u64>::empty(), rs, coalesced_catalog(c), span_lo(c));
}

} // verus!
