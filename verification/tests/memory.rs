use aioc::drivers::pci::PciDevice;
use aioc::drivers::rtl8139::{CardRequest, CardStart, Rtl8139, RESET_TRIES, TSD_OWN};
use aioc::memory::{
    alloc_contiguous_frames, install_dma_allocator, phys_offset, record_stats,
    BootInfoFrameAllocator, DmaPool, MemoryRegion,
};

const OFFSET: u64 = 0x180_0000_0000;

fn region(start: u64, end: u64, usable: bool) -> MemoryRegion {
    MemoryRegion { start, end, usable }
}

fn map() -> Vec<MemoryRegion> {
    vec![
        region(0x1000, 0x3000, true),
        region(0x3000, 0x8000, false),
        region(0x8000, 0xB000, true),
        region(0xB000, 0xB000, true),
        region(0x10_0000, 0x10_1800, true),
    ]
}

fn pool(map: Vec<MemoryRegion>) -> DmaPool {
    let mut pool = DmaPool::new();
    install_dma_allocator(&mut pool, BootInfoFrameAllocator::init(map), OFFSET);
    pool
}

#[test]
fn frames_come_region_by_region() {
    let mut a = BootInfoFrameAllocator::init(map());
    assert_eq!(a.remaining_frames(), 7);
    let frames: Vec<u64> = (0..7).map(|_| a.allocate_frame().unwrap()).collect();
    assert_eq!(
        frames,
        vec![0x1000, 0x2000, 0x8000, 0x9000, 0xA000, 0x10_0000, 0x10_1000]
    );
    assert_eq!(a.remaining_frames(), 0);
    assert_eq!(a.allocate_frame(), None);
    assert_eq!(a.remaining_frames(), 0);
}

#[test]
fn frames_are_aligned_and_distinct() {
    let mut a = BootInfoFrameAllocator::init(vec![region(0x1234, 0x4000, true)]);
    let frames: Vec<u64> = std::iter::from_fn(|| a.allocate_frame()).collect();
    assert_eq!(frames, vec![0x1000, 0x2000, 0x3000]);
}

#[test]
fn usable_bytes() {
    let a = BootInfoFrameAllocator::init(map());
    assert_eq!(a.total_usable_bytes(), 0x2000 + 0x3000 + 0x1800);
    let mut total = 0;
    record_stats(&a, &mut total);
    assert_eq!(total, 0x6800);
}

#[test]
fn where_physical_memory_is() {
    assert_eq!(phys_offset(&DmaPool::new()), None);
    assert_eq!(phys_offset(&pool(map())), Some(OFFSET));
    let mut high = DmaPool::new();
    install_dma_allocator(&mut high, BootInfoFrameAllocator::init(map()), 0x8000_0000_0000);
    assert_eq!(phys_offset(&high), Some(0xFFFF_8000_0000_0000));
}

#[test]
fn runs_of_frames() {
    let mut p = pool(map());
    assert_eq!(alloc_contiguous_frames(&mut p, 2), Ok((OFFSET + 0x1000, 0x1000)));
    assert_eq!(alloc_contiguous_frames(&mut p, 3), Ok((OFFSET + 0x8000, 0x8000)));
    assert_eq!(alloc_contiguous_frames(&mut p, 3), Err("out of physical frames"));
    assert_eq!(alloc_contiguous_frames(&mut p, 1), Err("out of physical frames"));
}

#[test]
fn a_run_over_a_gap_is_refused_and_its_frames_are_gone() {
    let mut p = pool(map());
    let gap = "frame allocator returned a non-contiguous run";
    assert_eq!(alloc_contiguous_frames(&mut p, 3), Err(gap));
    assert_eq!(alloc_contiguous_frames(&mut p, 2), Ok((OFFSET + 0x9000, 0x9000)));
}

#[test]
fn a_pool_without_an_allocator() {
    let mut p = DmaPool::new();
    assert_eq!(alloc_contiguous_frames(&mut p, 1), Err("phys offset not installed"));
}

#[test]
fn physical_memory_that_is_mapped_at_zero() {
    let mut p = DmaPool::new();
    install_dma_allocator(&mut p, BootInfoFrameAllocator::init(map()), 0);
    assert_eq!(phys_offset(&p), Some(0));
    assert_eq!(alloc_contiguous_frames(&mut p, 2), Ok((0x1000, 0x1000)));
}

// ---------- The network card ----------

const CARD: PciDevice = PciDevice {
    bus: 0,
    device: 3,
    function: 0,
    vendor_id: 0x10EC,
    device_id: 0x8139,
    io_base: 0xC000,
    irq_line: 11,
};

fn start() -> CardStart {
    let mut p = pool(vec![region(0x1_0000, 0x2_0000, true)]);
    Rtl8139::init(&CARD, &mut p).unwrap_or_else(|e| panic!("{e}"))
}

fn card() -> Rtl8139 {
    let mut s = start();
    let mut writes = 0;
    while s.request() != CardRequest::Done {
        let reply = match s.request() {
            CardRequest::Read8(port) if port == 0xC037 => 0,
            CardRequest::Read8(port) => 0x50 + (port - 0xC000) as u8,
            _ => {
                writes += 1;
                0
            }
        };
        s.answer(reply);
    }
    assert_eq!(writes, 7);
    s.finish().unwrap_or_else(|e| panic!("{e}"))
}

#[test]
fn a_card_is_programmed() {
    let mut s = start();
    assert_eq!((s.rx_phys, s.tx_phys), (0x1_0000, 0x1_3000));
    assert_eq!((s.rx_virt, s.tx_virt), (OFFSET + 0x1_0000, OFFSET + 0x1_3000));
    let mut seen = Vec::new();
    let mut looks = 0;
    loop {
        let request = s.request();
        if request == CardRequest::Done {
            break;
        }
        let mut reply = 0;
        if let CardRequest::Read8(port) = request {
            if port == 0xC037 {
                looks += 1;
                reply = if looks < 4 { 0x10 } else { 0x00 };
            } else {
                reply = port as u8 + 1;
            }
        }
        if seen.last() != Some(&request) {
            seen.push(request);
        }
        s.answer(reply);
    }
    assert_eq!(looks, 4);
    assert_eq!(
        seen[..8],
        [
            CardRequest::Write8(0xC052, 0),
            CardRequest::Write8(0xC037, 0x10),
            CardRequest::Read8(0xC037),
            CardRequest::Write32(0xC030, 0x1_0000),
            CardRequest::Write16(0xC03C, 0),
            CardRequest::Write32(0xC044, 0x8F),
            CardRequest::Write32(0xC040, 0x0300_0700),
            CardRequest::Write8(0xC037, 0x0C),
        ]
    );
    assert_eq!(seen.len(), 14);
    let card = s.finish().unwrap_or_else(|e| panic!("{e}"));
    assert_eq!(card.mac(), [1, 2, 3, 4, 5, 6]);
}

#[test]
fn a_card_that_never_resets() {
    let mut s = start();
    let mut answers = 0u32;
    while s.request() != CardRequest::Done {
        s.answer(0xFF);
        answers += 1;
    }
    assert_eq!(answers, RESET_TRIES + 2);
    s.answer(0);
    assert_eq!(s.request(), CardRequest::Done);
    assert_eq!(s.finish().err(), Some("rtl8139 did not reset"));
}

#[test]
fn a_card_that_resets_at_the_last_look() {
    let mut s = start();
    for _ in 0..RESET_TRIES + 1 {
        s.answer(0x10);
    }
    assert_eq!(s.request(), CardRequest::Read8(0xC037));
    s.answer(0x00);
    assert_eq!(s.request(), CardRequest::Write32(0xC030, 0x1_0000));
    while s.request() != CardRequest::Done {
        s.answer(0xFF);
    }
    assert_eq!(s.finish().map(|card| card.mac()).ok(), Some([0xFF; 6]));
}

#[test]
fn a_start_up_that_is_not_over() {
    assert_eq!(start().finish().err(), Some("rtl8139 start-up not over"));
}

#[test]
fn a_card_without_memory() {
    let mut none = DmaPool::new();
    assert_eq!(Rtl8139::init(&CARD, &mut none).err(), Some("phys offset not installed"));
    let mut small = pool(vec![region(0x1_0000, 0x1_4000, true)]);
    assert_eq!(Rtl8139::init(&CARD, &mut small).err(), Some("out of physical frames"));
}

fn put(ring: &mut [u8], at: usize, frame: &[u8]) {
    let total = frame.len() + 4;
    let mut bytes = vec![0x01, 0x20, total as u8, (total >> 8) as u8];
    bytes.extend_from_slice(frame);
    bytes.extend_from_slice(&[0xCC; 4]);
    for (i, b) in bytes.iter().enumerate() {
        ring[at + i] = *b;
    }
}

#[test]
fn frames_are_received_in_turn() {
    let mut nic = card();
    let mut ring = vec![0u8; 9708];
    let first: Vec<u8> = (0..61).collect();
    let second: Vec<u8> = (0..200).map(|i| (i * 7) as u8).collect();
    put(&mut ring, 0, &first);
    put(&mut ring, 72, &second);
    assert_eq!(nic.cr_port(), 0xC037);
    let r = nic.receive(0x0C, &ring);
    assert_eq!(r.frame, Some(first));
    assert_eq!(r.capr, Some((0xC038, 72 - 16)));
    let r = nic.receive(0x0C, &ring);
    assert_eq!(r.frame, Some(second));
    assert_eq!(r.capr, Some((0xC038, 72 + 208 - 16)));
    let r = nic.receive(0x0D, &ring);
    assert_eq!((r.frame, r.capr), (None, None));
}

#[test]
fn a_frame_over_the_end_of_the_ring() {
    let mut nic = card();
    let mut ring = vec![0u8; 9708];
    let long = vec![0xAA; 8172];
    put(&mut ring, 0, &long);
    assert_eq!(nic.receive(0, &ring).frame, Some(long));
    let frame: Vec<u8> = (0..100).collect();
    put(&mut ring, 8180, &frame);
    let r = nic.receive(0, &ring);
    assert_eq!(r.frame, Some(frame));
    assert_eq!(r.capr, Some((0xC038, (8180 + 108 - 8192) - 16)));
    assert_eq!(ring[..4], [0x01, 0x20, 0xF0, 0x1F]);
    let next = vec![0x55; 61];
    put(&mut ring, 96, &next);
    assert_eq!(nic.receive(0, &ring).frame, Some(next));
}

#[test]
fn a_frame_to_the_end_of_the_region() {
    let mut nic = card();
    let mut ring = vec![0u8; 9708];
    put(&mut ring, 0, &vec![0xAA; 8176]);
    assert!(nic.receive(0, &ring).frame.is_some());
    for (i, b) in ring[8188..].iter_mut().enumerate() {
        *b = (i * 3) as u8;
    }
    ring[8184..8188].copy_from_slice(&[0x01, 0, 0xF4, 0x05]);
    let r = nic.receive(0, &ring);
    assert_eq!(r.frame, Some(ring[8188..9708].to_vec()));
    assert_eq!(r.capr, Some((0xC038, (8184 + 1528 - 8192) - 16)));
}

#[test]
fn a_frame_over_the_end_of_the_region_is_refused() {
    let mut nic = card();
    let mut ring = vec![0u8; 9708];
    put(&mut ring, 0, &vec![0xAA; 8176]);
    assert!(nic.receive(0, &ring).frame.is_some());
    ring[8184..8188].copy_from_slice(&[0x01, 0, 0xF5, 0x05]);
    let r = nic.receive(0, &ring);
    assert_eq!((r.frame, r.capr), (None, Some((0xC038, 0xFFF0))));
}

#[test]
fn a_header_that_makes_no_sense_resets_the_ring() {
    for header in [[0x00, 0, 60, 0], [0x01, 0, 3, 0], [0x01, 0, 0x01, 0x20]] {
        let mut nic = card();
        let mut ring = vec![0u8; 9708];
        put(&mut ring, 0, &[7; 40]);
        assert!(nic.receive(0, &ring).frame.is_some());
        ring[48..52].copy_from_slice(&header);
        let r = nic.receive(0, &ring);
        assert_eq!((r.frame, r.capr), (None, Some((0xC038, 0xFFF0))));
        assert_eq!(nic.receive(0, &ring).frame, Some(vec![7; 40]));
    }
}

#[test]
fn frames_are_sent_from_four_buffers_in_turn() {
    let mut nic = card();
    for n in 0..9u32 {
        let slot = n % 4;
        assert_eq!(nic.tsd_port() as u32, 0xC010 + 4 * slot);
        let frame = vec![n as u8 + 1; 100];
        let t = nic.transmit(&frame, TSD_OWN).unwrap();
        assert_eq!(t.bytes, frame);
        assert_eq!(t.offset as u32, slot * 2048);
        assert_eq!(t.address, (0xC020 + 4 * slot as u16, 0x1_3000 + slot * 2048));
        assert_eq!(t.start, (0xC010 + 4 * slot as u16, 100));
    }
}

#[test]
fn short_frames_are_padded_with_zeros() {
    let mut nic = card();
    let t = nic.transmit(&[9, 8, 7], 0xFFFF_FFFF).unwrap();
    assert_eq!(t.bytes[..3], [9, 8, 7]);
    assert_eq!(t.bytes[3..], [0; 57]);
    assert_eq!(t.start.1, 60);
}

#[test]
fn frames_that_are_not_sent() {
    let mut nic = card();
    assert_eq!(nic.transmit(&[0; 2049], TSD_OWN), None);
    assert_eq!(nic.transmit(&[0; 60], !TSD_OWN), None);
    assert_eq!(nic.tsd_port(), 0xC010);
    assert_eq!(nic.transmit(&[1; 2048], TSD_OWN).map(|t| t.start.1), Some(2048));
}
