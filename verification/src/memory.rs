//! Physical memory: the frames of the machine's usable regions, handed out one
//! after the other and never taken back.
use vstd::prelude::*;

use x86_64::structures::paging::{PhysFrame, Size4KiB};
use x86_64::{PhysAddr, VirtAddr};

verus! {

/// A region of physical memory: its first address, the address behind its last,
/// and whether it may be used.
#[derive(Debug, Clone, Copy, PartialEq, Eq, Structural)]
pub struct MemoryRegion {
    pub start: u64,
    pub end: u64,
    pub usable: bool,
}

// ---------- Addresses ----------

/// A physical address has 52 bits.
pub open spec fn is_physical(addr: int) -> bool {
    0 <= addr < 0x10_0000_0000_0000
}

/// `PhysFrame::containing_address` over `PhysAddr::new`: the frame of four
/// kibibytes that an address lies in, by its first address. `PhysAddr::new` does
/// not take more than 52 bits.
#[verifier::external_body]
fn frame_start(addr: u64) -> (r: u64)
    requires
        is_physical(addr as int),
    ensures
        r == addr - addr % 4096,
{
    PhysFrame::<Size4KiB>::containing_address(PhysAddr::new(addr)).start_address().as_u64()
}

/// An address that can be made virtual: 48 bits, or the upper half of the address
/// space.
pub open spec fn is_virtual(addr: int) -> bool {
    0 <= addr < 0x1_0000_0000_0000 || 0xffff_8000_0000_0000 <= addr <= u64::MAX
}

/// The virtual address for such a number: bit 47 is repeated in all bits above.
pub open spec fn canonical(addr: int) -> int {
    if 0x8000_0000_0000 <= addr < 0x1_0000_0000_0000 {
        addr + 0xffff_0000_0000_0000
    } else {
        addr
    }
}

/// `VirtAddr::new` repeats bit 47 in the bits above it. It does not take an
/// address whose upper bits are anything but zeros or copies of that bit.
#[verifier::external_body]
fn virt_new(addr: u64) -> (r: u64)
    requires
        is_virtual(addr as int),
    ensures
        r == canonical(addr as int),
{
    VirtAddr::new(addr).as_u64()
}

/// `VirtAddr` plus a number, over `VirtAddr::new`: the sum, made virtual as
/// `VirtAddr::new` does. The sum must not overflow and must be one that can be
/// made virtual.
#[verifier::external_body]
fn virt_plus(base: u64, offset: u64) -> (r: u64)
    requires
        is_virtual(base as int),
        canonical(base as int) + offset <= u64::MAX,
        is_virtual(canonical(base as int) + offset),
    ensures
        r == canonical(canonical(base as int) + offset),
{
    (VirtAddr::new(base) + offset).as_u64()
}

// ---------- Frames ----------

/// How many frames begin in a region.
pub open spec fn region_count(r: MemoryRegion) -> nat {
    if r.usable && r.start < r.end {
        ((r.end - r.start - 1) / 4096 + 1) as nat
    } else {
        0
    }
}

/// The frames of a region, by their first addresses: one for every 4096 bytes
/// from its first address on.
pub open spec fn region_frames(r: MemoryRegion) -> Seq<int> {
    Seq::new(
        region_count(r),
        |i: int| {
            let addr = r.start + 4096 * i;
            addr - addr % 4096
        },
    )
}

/// The usable frames of a memory map, region by region.
pub open spec fn frames(map: Seq<MemoryRegion>) -> Seq<int>
    decreases map.len(),
{
    if map.len() == 0 {
        Seq::empty()
    } else {
        frames(map.drop_last()) + region_frames(map.last())
    }
}

/// Every usable region ends within the physical addresses.
pub open spec fn addressable(map: Seq<MemoryRegion>) -> bool {
    forall|i: int|
        0 <= i < map.len() && (#[trigger] map[i]).usable ==> map[i].end <= 0x10_0000_0000_0000
}

/// The bytes of the usable regions.
pub open spec fn usable_bytes(map: Seq<MemoryRegion>) -> int
    decreases map.len(),
{
    if map.len() == 0 {
        0
    } else {
        let last = map.last();
        usable_bytes(map.drop_last()) + if last.usable {
            last.end - last.start
        } else {
            0
        }
    }
}

/// Hands out the usable frames of a memory map in their order.
pub struct BootInfoFrameAllocator {
    memory_map: Vec<MemoryRegion>,
    next: usize,
}

/// What a frame allocator is: the map, and how many frames were asked for.
pub struct AllocatorModel {
    pub map: Seq<MemoryRegion>,
    pub next: nat,
}

impl View for BootInfoFrameAllocator {
    type V = AllocatorModel;

    closed spec fn view(&self) -> AllocatorModel {
        AllocatorModel { map: self.memory_map@, next: self.next as nat }
    }
}

fn count_of(r: &MemoryRegion) -> (n: u64)
    ensures
        n == region_count(*r),
{
    if r.usable && r.start < r.end {
        (r.end - r.start - 1) / 4096 + 1
    } else {
        0
    }
}

proof fn lemma_frames_prefix(map: Seq<MemoryRegion>, k: int)
    requires
        0 <= k <= map.len(),
    ensures
        frames(map.take(k)).len() <= frames(map).len(),
        frames(map).take(frames(map.take(k)).len() as int) == frames(map.take(k)),
    decreases map.len() - k,
{
    if k == map.len() {
        assert(map.take(k) =~= map);
        assert(frames(map).take(frames(map).len() as int) =~= frames(map));
    } else {
        lemma_frames_prefix(map, k + 1);
        assert(map.take(k + 1).drop_last() =~= map.take(k));
        assert(map.take(k + 1).last() == map[k]);
        let a = frames(map.take(k));
        let b = frames(map.take(k + 1));
        assert(b.take(a.len() as int) =~= a);
        assert(frames(map).take(a.len() as int) =~= frames(map).take(b.len() as int).take(
            a.len() as int,
        ));
    }
}

impl BootInfoFrameAllocator {
    /// An allocator over the map that has handed out nothing.
    pub fn init(memory_map: Vec<MemoryRegion>) -> (r: Self)
        ensures
            r@ == (AllocatorModel { map: memory_map@, next: 0 }),
    {
        BootInfoFrameAllocator { memory_map, next: 0 }
    }

    /// The usable frame with that number, if there is one.
    fn usable_frame(&self, n: usize) -> (r: Option<u64>)
        requires
            addressable(self@.map),
        ensures
            r matches Some(a) ==> n < frames(self@.map).len() && a == frames(self@.map)[n as int],
            r is None <==> n >= frames(self@.map).len(),
    {
        let ghost map = self.memory_map@;
        let mut left: u64 = n as u64;
        let mut k: usize = 0;
        assert(map.take(0) =~= Seq::empty());
        while k < self.memory_map.len()
            invariant
                k <= map.len(),
                map == self.memory_map@,
                addressable(map),
                left + frames(map.take(k as int)).len() == n,
            decreases self.memory_map.len() - k,
        {
            let region = self.memory_map[k];
            let count: u64 = count_of(&region);
            proof {
                assert(map.take(k + 1).drop_last() =~= map.take(k as int));
                assert(map.take(k + 1).last() == region);
                lemma_frames_prefix(map, k + 1);
            }
            if left < count {
                proof {
                    let before = frames(map.take(k as int));
                    let upto = frames(map.take(k + 1));
                    assert(upto[n as int] == region_frames(region)[left as int]);
                    assert(frames(map)[n as int] == frames(map).take(upto.len() as int)[n as int]);
                    assert(4096 * left <= region.end - region.start - 1);
                }
                return Some(frame_start(region.start + 4096 * left));
            }
            left -= count;
            k += 1;
        }
        assert(map.take(map.len() as int) =~= map);
        None
    }

    /// How many frames are left to hand out.
    pub fn remaining_frames(&self) -> (r: usize)
        requires
            frames(self@.map).len() <= usize::MAX,
        ensures
            r == if self@.next < frames(self@.map).len() {
                frames(self@.map).len() - self@.next
            } else {
                0
            },
    {
        let ghost map = self.memory_map@;
        let mut total: usize = 0;
        let mut k: usize = 0;
        assert(map.take(0) =~= Seq::empty());
        while k < self.memory_map.len()
            invariant
                k <= map.len(),
                map == self.memory_map@,
                frames(map).len() <= usize::MAX,
                total == frames(map.take(k as int)).len(),
            decreases self.memory_map.len() - k,
        {
            proof {
                assert(map.take(k + 1).drop_last() =~= map.take(k as int));
                assert(map.take(k + 1).last() == map[k as int]);
                lemma_frames_prefix(map, k + 1);
            }
            let count: u64 = count_of(&self.memory_map[k]);
            total += count as usize;
            k += 1;
        }
        assert(map.take(map.len() as int) =~= map);
        if self.next < total {
            total - self.next
        } else {
            0
        }
    }

    /// The bytes of the usable regions.
    pub fn total_usable_bytes(&self) -> (r: u64)
        requires
            forall|i: int|
                0 <= i < self@.map.len() && (#[trigger] self@.map[i]).usable ==> self@.map[i].start
                    <= self@.map[i].end,
            usable_bytes(self@.map) <= u64::MAX,
        ensures
            r == usable_bytes(self@.map),
    {
        let ghost map = self.memory_map@;
        let mut total: u64 = 0;
        let mut k: usize = 0;
        assert(map.take(0) =~= Seq::empty());
        while k < self.memory_map.len()
            invariant
                k <= map.len(),
                map == self.memory_map@,
                forall|i: int|
                    0 <= i < map.len() && (#[trigger] map[i]).usable ==> map[i].start <= map[i].end,
                usable_bytes(map) <= u64::MAX,
                total == usable_bytes(map.take(k as int)),
            decreases self.memory_map.len() - k,
        {
            let region = self.memory_map[k];
            proof {
                assert(map.take(k + 1).drop_last() =~= map.take(k as int));
                assert(map.take(k + 1).last() == map[k as int]);
                lemma_bytes_grow(map, k + 1);
            }
            if region.usable {
                total += region.end - region.start;
            }
            k += 1;
        }
        assert(map.take(map.len() as int) =~= map);
        total
    }

    /// Hands out the next frame, by its first address, or nothing once all were.
    pub fn allocate_frame(&mut self) -> (r: Option<u64>)
        requires
            addressable(old(self)@.map),
            old(self)@.next < usize::MAX,
        ensures
            final(self)@ == (AllocatorModel { next: old(self)@.next + 1, ..old(self)@ }),
            r matches Some(a) ==> old(self)@.next < frames(old(self)@.map).len() && a == frames(
                old(self)@.map,
            )[old(self)@.next as int],
            r is None <==> old(self)@.next >= frames(old(self)@.map).len(),
    {
        let frame = self.usable_frame(self.next);
        self.next += 1;
        frame
    }
}

proof fn lemma_bytes_grow(map: Seq<MemoryRegion>, k: int)
    requires
        0 <= k <= map.len(),
        forall|i: int|
            0 <= i < map.len() && (#[trigger] map[i]).usable ==> map[i].start <= map[i].end,
    ensures
        usable_bytes(map.take(k)) <= usable_bytes(map),
    decreases map.len() - k,
{
    if k == map.len() {
        assert(map.take(k) =~= map);
    } else {
        lemma_bytes_grow(map, k + 1);
        assert(map.take(k + 1).drop_last() =~= map.take(k));
        assert(map.take(k + 1).last() == map[k]);
    }
}

/// Keeps the number of usable bytes for later.
pub fn record_stats(allocator: &BootInfoFrameAllocator, total: &mut u64)
    requires
        forall|i: int|
            0 <= i < allocator@.map.len() && (#[trigger] allocator@.map[i]).usable
                ==> allocator@.map[i].start <= allocator@.map[i].end,
        usable_bytes(allocator@.map) <= u64::MAX,
    ensures
        *final(total) == usable_bytes(allocator@.map),
{
    *total = allocator.total_usable_bytes();
}

// ---------- Runs of frames ----------

/// Where frames for devices come from: an allocator, and the address at which
/// physical memory is mapped, once they are known.
pub struct DmaPool {
    allocator: Option<BootInfoFrameAllocator>,
    offset: Option<u64>,
}

/// What a pool is.
pub struct DmaModel {
    pub allocator: Option<AllocatorModel>,
    pub offset: Option<u64>,
}

impl View for DmaPool {
    type V = DmaModel;

    closed spec fn view(&self) -> DmaModel {
        DmaModel {
            allocator: match self.allocator {
                Some(a) => Some(a@),
                None => None,
            },
            offset: self.offset,
        }
    }
}

impl DmaPool {
    /// A pool in which nothing was installed.
    pub fn new() -> (r: DmaPool)
        ensures
            r@ == (DmaModel { allocator: None, offset: None }),
    {
        DmaPool { allocator: None, offset: None }
    }
}

/// Gives the pool its allocator and the address at which physical memory is
/// mapped.
pub fn install_dma_allocator(pool: &mut DmaPool, allocator: BootInfoFrameAllocator, offset: u64)
    ensures
        final(pool)@ == (DmaModel { allocator: Some(allocator@), offset: Some(offset) }),
{
    pool.offset = Some(offset);
    pool.allocator = Some(allocator);
}

/// The virtual address of physical address zero, once it is known.
pub fn phys_offset(pool: &DmaPool) -> (r: Option<u64>)
    requires
        pool@.offset matches Some(offset) ==> is_virtual(offset as int),
    ensures
        r == match pool@.offset {
            None => None::<u64>,
            Some(offset) => Some(canonical(offset as int) as u64),
        },
{
    match pool.offset {
        None => None,
        Some(offset) => Some(virt_new(offset)),
    }
}

/// How many frames in a row, from the one with number `n` on, follow each other
/// without a gap, up to `count` of them. `k` of them are known to.
pub open spec fn run_length(fs: Seq<int>, n: int, k: int, count: int) -> int
    decreases count - k,
{
    if k >= count || n + k >= fs.len() || fs[n + k] != fs[n + k - 1] + 4096 {
        k
    } else {
        run_length(fs, n, k + 1, count)
    }
}

/// What asking for `count` frames in a row comes to: the first of them, or why
/// there are none.
pub open spec fn run_of(m: DmaModel, count: int) -> Result<int, Seq<char>> {
    if m.offset is None {
        Err("phys offset not installed"@)
    } else {
        match m.allocator {
            None => Err("dma allocator not installed"@),
            Some(a) => {
                let fs = frames(a.map);
                let n = a.next as int;
                if n >= fs.len() {
                    Err("out of physical frames"@)
                } else {
                    let k = run_length(fs, n, 1, count);
                    if k >= count {
                        Ok(fs[n])
                    } else if n + k >= fs.len() {
                        Err("out of physical frames"@)
                    } else {
                        Err("frame allocator returned a non-contiguous run"@)
                    }
                }
            },
        }
    }
}

/// How many frames are taken from the allocator on the way: those of the run, and
/// the one that broke it.
pub open spec fn run_taken(a: AllocatorModel, count: int) -> int {
    let fs = frames(a.map);
    let n = a.next as int;
    if n >= fs.len() {
        1
    } else {
        let k = run_length(fs, n, 1, count);
        if k >= count {
            k
        } else {
            k + 1
        }
    }
}

/// The pool after asking for `count` frames in a row.
pub open spec fn run_left(m: DmaModel, count: int) -> DmaModel {
    match m.allocator {
        Some(a) if m.offset is Some => DmaModel {
            allocator: Some(AllocatorModel { next: (a.next + run_taken(a, count)) as nat, ..a }),
            ..m
        },
        _ => m,
    }
}

/// Every frame of the map that is not yet handed out has a virtual address.
pub open spec fn mapped(m: DmaModel) -> bool {
    &&& m.offset matches Some(offset) ==> is_virtual(offset as int)
    &&& m.allocator matches Some(a) ==> addressable(a.map)
    &&& m.offset is Some && m.allocator is Some ==> {
        let a = m.allocator->0;
        forall|i: int|
            a.next <= i < frames(a.map).len() ==> {
                let virt = canonical(m.offset->0 as int) + #[trigger] frames(a.map)[i];
                virt <= u64::MAX && is_virtual(virt)
            }
    }
}

/// Hands out `count` frames that follow each other in physical memory, by their
/// virtual and their physical address. Frames that were taken on the way stay
/// taken where the run is broken.
pub fn alloc_contiguous_frames(pool: &mut DmaPool, count: usize) -> (r: Result<
    (u64, u64),
    &'static str,
>)
    requires
        mapped(old(pool)@),
        old(pool)@.allocator matches Some(a) ==> a.next + count < usize::MAX,
    ensures
        final(pool)@ == run_left(old(pool)@, count as int),
        match run_of(old(pool)@, count as int) {
            Ok(phys) => r matches Ok(t) && t.1 == phys && t.0 == canonical(
                canonical(old(pool)@.offset->0 as int) + phys,
            ),
            Err(text) => r matches Err(e) && e@ == text,
        },
{
    let base: u64 = match phys_offset(pool) {
        Some(b) => b,
        None => return Err("phys offset not installed"),
    };
    match &mut pool.allocator {
        None => Err("dma allocator not installed"),
        Some(allocator) => match allocator.allocate_run(count) {
            Ok(first) => {
                let virt: u64 = virt_plus(base, first);
                Ok((virt, first))
            },
            Err(e) => Err(e),
        },
    }
}

impl BootInfoFrameAllocator {
    /// Hands out `count` frames in a row, by the first address of the first.
    fn allocate_run(&mut self, count: usize) -> (r: Result<u64, &'static str>)
        requires
            addressable(old(self)@.map),
            old(self)@.next + count < usize::MAX,
        ensures
            final(self)@ == (AllocatorModel {
                next: (old(self)@.next + run_taken(old(self)@, count as int)) as nat,
                ..old(self)@
            }),
            ({
                let fs = frames(old(self)@.map);
                let n = old(self)@.next as int;
                if n >= fs.len() {
                    r matches Err(e) && e@ == "out of physical frames"@
                } else {
                    let k = run_length(fs, n, 1, count as int);
                    if k >= count {
                        r matches Ok(first) && first == fs[n]
                    } else if n + k >= fs.len() {
                        r matches Err(e) && e@ == "out of physical frames"@
                    } else {
                        r matches Err(e) && e@
                            == "frame allocator returned a non-contiguous run"@
                    }
                }
            }),
    {
        let ghost a0 = self@;
        let ghost fs = frames(a0.map);
        let ghost n = a0.next as int;
        let first: u64 = match self.allocate_frame() {
            Some(f) => f,
            None => return Err("out of physical frames"),
        };
        let mut prev: u64 = first;
        let mut i: usize = 1;
        proof {
            lemma_frames_physical(a0.map, n);
        }
        while i < count
            invariant
                1 <= i,
                i <= count || i == 1,
                a0 == old(self)@,
                a0.next + count < usize::MAX,
                n == a0.next,
                fs == frames(a0.map),
                addressable(a0.map),
                n + i <= fs.len(),
                prev == fs[n + i - 1],
                prev < 0x10_0000_0000_0000,
                self@ == (AllocatorModel { next: (n + i) as nat, ..a0 }),
                run_length(fs, n, 1, count as int) == run_length(fs, n, i as int, count as int),
            decreases count - i,
        {
            let frame: u64 = match self.allocate_frame() {
                Some(f) => f,
                None => return Err("out of physical frames"),
            };
            proof {
                lemma_frames_physical(a0.map, n + i);
            }
            if frame != prev + 4096 {
                return Err("frame allocator returned a non-contiguous run");
            }
            prev = frame;
            i += 1;
        }
        Ok(first)
    }
}

pub proof fn lemma_frames_physical(map: Seq<MemoryRegion>, i: int)
    requires
        addressable(map),
        0 <= i < frames(map).len(),
    ensures
        is_physical(frames(map)[i]),
        frames(map)[i] % 4096 == 0,
        exists|k: int| 0 <= k < map.len() && #[trigger] covers(map[k], frames(map)[i]),
    decreases map.len(),
{
    let init = map.drop_last();
    let before = frames(init);
    let last = map.last();
    if i < before.len() {
        assert forall|k: int| 0 <= k < init.len() && (#[trigger] init[k]).usable implies init[k].end
            <= 0x10_0000_0000_0000 by {
            assert(init[k] == map[k]);
        }
        lemma_frames_physical(init, i);
        let k = choose|k: int| 0 <= k < init.len() && #[trigger] covers(init[k], before[i]);
        assert(covers(map[k], frames(map)[i]));
    } else {
        let j = i - before.len();
        let addr = last.start + 4096 * j;
        assert(frames(map)[i] == addr - addr % 4096);
        assert(4096 * j <= last.end - last.start - 1);
        assert(map[map.len() - 1].usable);
        assert(covers(map[map.len() - 1], frames(map)[i]));
    }
}

/// The frame at `frame` begins in the usable region, or is the one that the
/// region's first address lies in.
pub open spec fn covers(r: MemoryRegion, frame: int) -> bool {
    r.usable && r.start - r.start % 4096 <= frame < r.end
}

// ---------- Laws ----------

/// Every frame that is handed out is aligned and lies in a usable region.
pub proof fn law_frames_usable(map: Seq<MemoryRegion>, i: int)
    requires
        addressable(map),
        0 <= i < frames(map).len(),
    ensures
        frames(map)[i] % 4096 == 0,
        exists|k: int| 0 <= k < map.len() && #[trigger] covers(map[k], frames(map)[i]),
{
    lemma_frames_physical(map, i);
}

/// The usable regions begin at frames and do not overlap.
pub open spec fn tidy(map: Seq<MemoryRegion>) -> bool {
    &&& forall|k: int| 0 <= k < map.len() ==> (#[trigger] map[k]).start % 4096 == 0
    &&& forall|j: int, k: int|
        0 <= j < map.len() && 0 <= k < map.len() && j != k && (#[trigger] map[j]).usable && (
        #[trigger] map[k]).usable ==> map[j].end <= map[k].start || map[k].end <= map[j].start
}

/// No frame is handed out twice.
pub proof fn law_frames_distinct(map: Seq<MemoryRegion>, i: int, j: int)
    requires
        addressable(map),
        tidy(map),
        0 <= i < j < frames(map).len(),
    ensures
        frames(map)[i] != frames(map)[j],
    decreases map.len(),
{
    let init = map.drop_last();
    let before = frames(init);
    let last = map.last();
    assert forall|k: int| 0 <= k < init.len() implies (#[trigger] init[k]) == map[k] by {}
    assert(addressable(init)) by {
        assert forall|k: int| 0 <= k < init.len() && (#[trigger] init[k]).usable implies init[k].end
            <= 0x10_0000_0000_0000 by {
            assert(init[k] == map[k]);
        }
    }
    if j < before.len() {
        assert(tidy(init));
        law_frames_distinct(init, i, j);
    } else if i < before.len() {
        lemma_frames_physical(init, i);
        let k = choose|k: int| 0 <= k < init.len() && #[trigger] covers(init[k], before[i]);
        let y = j - before.len();
        let addr = last.start + 4096 * y;
        assert(4096 * y <= last.end - last.start - 1);
        assert(map[k].usable && map[map.len() - 1].usable);
        assert(map[map.len() - 1].start % 4096 == 0);
        assert(map[k].start % 4096 == 0);
        assert(addr % 4096 == 0);
        assert(frames(map)[j] == addr);
        assert(frames(map)[i] == before[i]);
    } else {
        let x = i - before.len();
        let y = j - before.len();
        assert(map[map.len() - 1].start % 4096 == 0);
        assert((last.start + 4096 * x) % 4096 == 0);
        assert((last.start + 4096 * y) % 4096 == 0);
    }
}

/// A run that is handed out has no gaps: each of its frames begins where the one
/// before ends.
pub proof fn law_run_contiguous(m: DmaModel, count: int, i: int)
    requires
        run_of(m, count) is Ok,
        0 <= i < count,
    ensures
        ({
            let a = m.allocator->0;
            &&& a.next + i < frames(a.map).len()
            &&& frames(a.map)[a.next + i] == run_of(m, count)->Ok_0 + 4096 * i
        }),
{
    let a = m.allocator->0;
    lemma_run(frames(a.map), a.next as int, 1, count);
    lemma_run_frames(frames(a.map), a.next as int, count, i);
}

/// A run that is handed out takes just its own frames.
pub proof fn lemma_run_whole(m: DmaModel, count: int)
    requires
        run_of(m, count) is Ok,
        1 <= count,
    ensures
        run_taken(m.allocator->0, count) == count,
{
    let a = m.allocator->0;
    lemma_run(frames(a.map), a.next as int, 1, count);
    lemma_run_bound(frames(a.map), a.next as int, 1, count);
}

proof fn lemma_run_bound(fs: Seq<int>, n: int, k: int, count: int)
    requires
        k <= count,
    ensures
        run_length(fs, n, k, count) <= count,
    decreases count - k,
{
    if k >= count || n + k >= fs.len() || fs[n + k] != fs[n + k - 1] + 4096 {
    } else {
        lemma_run_bound(fs, n, k + 1, count);
    }
}

proof fn lemma_run(fs: Seq<int>, n: int, k: int, count: int)
    requires
        0 <= n,
        1 <= k,
        n + k <= fs.len(),
    ensures
        k <= run_length(fs, n, k, count),
        n + run_length(fs, n, k, count) <= fs.len(),
        forall|j: int|
            k <= j < run_length(fs, n, k, count) ==> #[trigger] fs[n + j] == fs[n + j - 1] + 4096,
    decreases count - k,
{
    if k >= count || n + k >= fs.len() || fs[n + k] != fs[n + k - 1] + 4096 {
    } else {
        lemma_run(fs, n, k + 1, count);
    }
}

proof fn lemma_run_frames(fs: Seq<int>, n: int, count: int, i: int)
    requires
        0 <= n < fs.len(),
        run_length(fs, n, 1, count) >= count,
        0 <= i < count,
    ensures
        n + i < fs.len(),
        fs[n + i] == fs[n] + 4096 * i,
    decreases i,
{
    lemma_run(fs, n, 1, count);
    if i > 0 {
        lemma_run_frames(fs, n, count, i - 1);
        assert(fs[n + i] == fs[n + i - 1] + 4096);
    }
}

/// Every frame of a usable region is handed out at some point.
pub proof fn law_frames_complete(map: Seq<MemoryRegion>, k: int, frame: int)
    requires
        tidy(map),
        0 <= k < map.len(),
        map[k].usable,
        map[k].start <= frame < map[k].end,
        frame % 4096 == 0,
    ensures
        exists|i: int| 0 <= i < frames(map).len() && #[trigger] frames(map)[i] == frame,
    decreases map.len(),
{
    let init = map.drop_last();
    let before = frames(init);
    let last = map.last();
    if k < init.len() {
        assert forall|j: int| 0 <= j < init.len() implies (#[trigger] init[j]) == map[j] by {}
        assert(tidy(init));
        law_frames_complete(init, k, frame);
        let i = choose|i: int| 0 <= i < before.len() && #[trigger] before[i] == frame;
        assert(frames(map)[i] == frame);
    } else {
        assert(map[map.len() - 1].start % 4096 == 0);
        let j = (frame - last.start) / 4096;
        assert((frame - last.start) % 4096 == 0);
        assert(frame == last.start + 4096 * j);
        assert(j < region_count(last));
        assert(region_frames(last)[j] == frame);
        assert(frames(map)[before.len() + j] == frame);
    }
}

/// Frames are handed out region by region in the order of the map, and from the
/// lowest up in each.
pub proof fn law_frames_in_order(map: Seq<MemoryRegion>, region: MemoryRegion, i: int)
    requires
        region.start % 4096 == 0,
        0 <= i,
    ensures
        ({
            let all = frames(map.push(region));
            let n = frames(map).len() as int;
            &&& i < n ==> all[i] == frames(map)[i]
            &&& region.usable && region.start + 4096 * i < region.end ==> n + i < all.len() && all[n
                + i] == region.start + 4096 * i
            &&& !region.usable || region.end <= region.start ==> all.len() == n
            &&& region.usable && region.start + 4096 * i >= region.end && region.start
                <= region.end ==> all.len() <= n + i
        }),
{
    assert(map.push(region).drop_last() =~= map);
    assert((region.start + 4096 * i) % 4096 == 0);
}

/// The bytes of the usable regions are those of their frames.
pub proof fn law_bytes_of_frames(map: Seq<MemoryRegion>)
    requires
        forall|k: int|
            0 <= k < map.len() && (#[trigger] map[k]).usable ==> map[k].start <= map[k].end && (
            map[k].end - map[k].start) % 4096 == 0,
    ensures
        usable_bytes(map) == 4096 * frames(map).len(),
    decreases map.len(),
{
    if map.len() > 0 {
        let init = map.drop_last();
        assert forall|k: int| 0 <= k < init.len() && (#[trigger] init[k]).usable implies init[k].start
            <= init[k].end && (init[k].end - init[k].start) % 4096 == 0 by {
            assert(init[k] == map[k]);
        }
        law_bytes_of_frames(init);
        let last = map[map.len() - 1];
        assert(last.usable ==> (last.end - last.start) % 4096 == 0);
    }
}

/// A run is handed out whenever the next frames follow each other, from a pool that
/// has an allocator and knows where physical memory is mapped.
pub proof fn law_run_found(m: DmaModel, count: int)
    requires
        m.offset is Some,
        m.allocator is Some,
        1 <= count,
        m.allocator->0.next + count <= frames(m.allocator->0.map).len(),
        forall|i: int|
            1 <= i < count ==> #[trigger] frames(m.allocator->0.map)[m.allocator->0.next + i]
                == frames(m.allocator->0.map)[m.allocator->0.next as int] + 4096 * i,
    ensures
        run_of(m, count) == Ok::<int, Seq<char>>(
            frames(m.allocator->0.map)[m.allocator->0.next as int],
        ),
        run_left(m, count).allocator->0.next == m.allocator->0.next + count,
        run_left(m, count).allocator->0.map == m.allocator->0.map,
        run_left(m, count).offset == m.offset,
{
    let a = m.allocator->0;
    lemma_run_reaches(frames(a.map), a.next as int, 1, count);
}

proof fn lemma_run_reaches(fs: Seq<int>, n: int, k: int, count: int)
    requires
        0 <= n,
        1 <= k <= count,
        n + count <= fs.len(),
        forall|i: int| 1 <= i < count ==> #[trigger] fs[n + i] == fs[n] + 4096 * i,
    ensures
        run_length(fs, n, k, count) == count,
    decreases count - k,
{
    if k < count {
        assert(fs[n + k] == fs[n] + 4096 * k);
        if k > 1 {
            assert(fs[n + (k - 1)] == fs[n] + 4096 * (k - 1));
        }
        lemma_run_reaches(fs, n, k + 1, count);
    }
}

} // verus!
