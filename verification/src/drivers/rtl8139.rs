//! The RTL8139 network card, driven by polling.
//!
//! The card is programmed through ports above a base. It writes the frames it
//! receives into a ring in memory, each behind a header, and sends frames from
//! four buffers that are used in turn. What is here decides what to write to the
//! ports and to the buffers, from what was read of them.
use vstd::prelude::*;

use crate::drivers::pci::PciDevice;
use crate::memory::{alloc_contiguous_frames, DmaModel, DmaPool};
use crate::text::copy_range;

verus! {

pub const REG_MAC0: u16 = 0x00;

pub const REG_TSD0: u16 = 0x10;

pub const REG_TSAD0: u16 = 0x20;

pub const REG_RBSTART: u16 = 0x30;

pub const REG_CR: u16 = 0x37;

pub const REG_CAPR: u16 = 0x38;

pub const REG_IMR: u16 = 0x3C;

pub const REG_TCR: u16 = 0x40;

pub const REG_RCR: u16 = 0x44;

pub const REG_CONFIG1: u16 = 0x52;

pub const CR_RESET: u8 = 0x10;

/// Receive and transmit, both on.
pub const CR_ENABLE: u8 = 0x0C;

pub const CR_BUFE: u8 = 0x01;

pub const TSD_OWN: u32 = 0x2000;

/// All frames for this card, for groups and for everyone, and those for others
/// too; a frame that does not fit before the end of the ring is written on behind
/// it.
pub const RCR_VALUE: u32 = 0x8F;

pub const TCR_VALUE: u32 = 0x0300_0700;

/// The ring.
pub const RX_BUF_LEN: usize = 8192;

/// The ring, the room that the card wants behind it, and room for the frame that
/// is written on over its end.
pub const RX_REGION_LEN: usize = 9708;

pub const TX_SLOTS: usize = 4;

pub const TX_BUF_LEN: usize = 2048;

/// The shortest frame on the wire.
pub const TX_MIN_LEN: usize = 60;

/// How often the card is looked at while it resets.
pub const RESET_TRIES: u32 = 1_000_000;

/// The card after its start-up.
pub struct Rtl8139 {
    io_base: u16,
    mac: [u8; 6],
    rx_read: usize,
    tx_phys: u64,
    tx_next: usize,
}

/// What the card's driver remembers: where its ports are, the card's address,
/// where in the ring the next frame begins, the physical address of the first of
/// the four buffers, and which buffer is next.
pub struct CardModel {
    pub io_base: int,
    pub mac: Seq<u8>,
    pub rx_read: int,
    pub tx_phys: int,
    pub tx_next: int,
}

impl CardModel {
    /// The ports exist, the place in the ring is in the ring and at a multiple of
    /// four, and the buffers have physical addresses.
    pub open spec fn wf(self) -> bool {
        &&& 0 <= self.io_base
        &&& self.io_base + REG_CONFIG1 <= 0xFFFF
        &&& self.mac.len() == 6
        &&& 0 <= self.rx_read < RX_BUF_LEN
        &&& self.rx_read % 4 == 0
        &&& 0 <= self.tx_phys
        &&& self.tx_phys + 4 * TX_BUF_LEN <= 0x10_0000_0000_0000
        &&& 0 <= self.tx_next < TX_SLOTS
    }
}

impl View for Rtl8139 {
    type V = CardModel;

    closed spec fn view(&self) -> CardModel {
        CardModel {
            io_base: self.io_base as int,
            mac: self.mac@,
            rx_read: self.rx_read as int,
            tx_phys: self.tx_phys as int,
            tx_next: self.tx_next as int,
        }
    }
}

// ---------- Start-up ----------

/// What the start-up does next.
#[derive(Debug, Clone, Copy, PartialEq, Eq, Structural)]
pub enum CardRequest {
    Write8(u16, u8),
    Write16(u16, u16),
    Write32(u16, u32),
    Read8(u16),
    Done,
}

/// The start-up of a card: its ports, where its buffers are, the step it is at,
/// how often it may still look whether the reset is over, and the card's address
/// as far as it was read.
pub struct CardStart {
    pub io_base: u16,
    pub rx_virt: u64,
    pub rx_phys: u64,
    pub tx_virt: u64,
    pub tx_phys: u64,
    pub step: u8,
    pub tries: u32,
    pub mac: [u8; 6],
}

/// Where the ring and the sending buffers lie in physical memory: three frames in
/// a row and two in a row behind them, or why they cannot be had.
pub open spec fn buffers(m: DmaModel) -> Result<(int, int), Seq<char>> {
    match crate::memory::run_of(m, 3) {
        Err(e) => Err(e),
        Ok(rx) => match crate::memory::run_of(crate::memory::run_left(m, 3), 2) {
            Err(e) => Err(e),
            Ok(tx) => Ok((rx, tx)),
        },
    }
}

/// The pool after the buffers were asked for.
pub open spec fn buffers_left(m: DmaModel) -> DmaModel {
    match crate::memory::run_of(m, 3) {
        Err(_) => crate::memory::run_left(m, 3),
        Ok(_) => crate::memory::run_left(crate::memory::run_left(m, 3), 2),
    }
}

/// The virtual address of a physical one, in a pool that has an offset.
pub open spec fn virt_of(m: DmaModel, phys: int) -> int {
    crate::memory::canonical(crate::memory::canonical(m.offset->0 as int) + phys)
}

impl CardStart {
    /// The ports exist, the buffers have physical addresses, and there is a look
    /// left.
    pub open spec fn wf(self) -> bool {
        &&& self.io_base + REG_CONFIG1 <= 0xFFFF
        &&& self.tx_phys + 4 * TX_BUF_LEN <= 0x10_0000_0000_0000
        &&& self.step <= 15
        &&& 0 < self.tries <= RESET_TRIES
    }

    /// What the start-up does next: power on, reset, wait, say where the ring is,
    /// all interrupts off, say what to receive and how to send, both on; then read
    /// the card's address. Step 14 is its end, step 15 that of a card that did not
    /// reset.
    pub open spec fn wants(self) -> CardRequest {
        let io = self.io_base;
        if self.step == 0 {
            CardRequest::Write8((io + REG_CONFIG1) as u16, 0)
        } else if self.step == 1 {
            CardRequest::Write8((io + REG_CR) as u16, CR_RESET)
        } else if self.step == 2 {
            CardRequest::Read8((io + REG_CR) as u16)
        } else if self.step == 3 {
            CardRequest::Write32(
                (io + REG_RBSTART) as u16,
                (self.rx_phys as int % 0x1_0000_0000) as u32,
            )
        } else if self.step == 4 {
            CardRequest::Write16((io + REG_IMR) as u16, 0)
        } else if self.step == 5 {
            CardRequest::Write32((io + REG_RCR) as u16, RCR_VALUE)
        } else if self.step == 6 {
            CardRequest::Write32((io + REG_TCR) as u16, TCR_VALUE)
        } else if self.step == 7 {
            CardRequest::Write8((io + REG_CR) as u16, CR_ENABLE)
        } else if self.step < 14 {
            CardRequest::Read8((io + REG_MAC0 + (self.step - 8)) as u16)
        } else {
            CardRequest::Done
        }
    }

    /// What the start-up does next.
    pub fn request(&self) -> (r: CardRequest)
        requires
            self.wf(),
        ensures
            r == self.wants(),
    {
        let io: u16 = self.io_base;
        match self.step {
            0 => CardRequest::Write8(io + REG_CONFIG1, 0),
            1 => CardRequest::Write8(io + REG_CR, CR_RESET),
            2 => CardRequest::Read8(io + REG_CR),
            3 => CardRequest::Write32(
                io + REG_RBSTART,
                (self.rx_phys % 0x1_0000_0000) as u32,
            ),
            4 => CardRequest::Write16(io + REG_IMR, 0),
            5 => CardRequest::Write32(io + REG_RCR, RCR_VALUE),
            6 => CardRequest::Write32(io + REG_TCR, TCR_VALUE),
            7 => CardRequest::Write8(io + REG_CR, CR_ENABLE),
            14 | 15 => CardRequest::Done,
            s => CardRequest::Read8(io + REG_MAC0 + (s as u16 - 8)),
        }
    }

    /// The step after an answer. The wait for the reset is over when the card says
    /// so; the start-up has failed when the last look shows it still resetting.
    pub open spec fn step_after(self, reply: u8) -> int {
        if self.step == 2 && reply & CR_RESET != 0 {
            if self.tries > 1 {
                2
            } else {
                15
            }
        } else if self.step < 14 {
            self.step + 1
        } else {
            self.step as int
        }
    }

    /// How often the reset may still be looked at after an answer.
    pub open spec fn tries_after(self, reply: u8) -> int {
        if self.step == 2 && self.step_after(reply) == 2 {
            self.tries - 1
        } else {
            self.tries as int
        }
    }

    /// How many answers the start-up takes at most.
    pub open spec fn answers_left(step: int, tries: int) -> int {
        if step <= 2 {
            13 - step + tries
        } else if step < 14 {
            14 - step
        } else {
            0
        }
    }

    /// The start-up after an answer: the last six are the bytes of the card's
    /// address.
    pub open spec fn answered(self, reply: u8) -> CardStart {
        CardStart {
            step: self.step_after(reply) as u8,
            tries: self.tries_after(reply) as u32,
            mac: if 8 <= self.step < 14 {
                vstd::array::spec_array_update(self.mac, self.step - 8, reply)
            } else {
                self.mac
            },
            ..self
        }
    }

    /// Takes the answer to the request: the byte that was read, or anything after
    /// a write.
    pub fn answer(&mut self, reply: u8)
        requires
            old(self).wf(),
        ensures
            final(self).wf(),
            *final(self) == old(self).answered(reply),
            final(self).mac@ == if 8 <= old(self).step < 14 {
                old(self).mac@.update(old(self).step - 8, reply)
            } else {
                old(self).mac@
            },
    {
        if self.step == 2 && reply & CR_RESET != 0 {
            if self.tries > 1 {
                self.tries -= 1;
            } else {
                self.step = 15;
            }
            return;
        }
        if self.step >= 14 {
            return;
        }
        if self.step >= 8 {
            let i: usize = (self.step - 8) as usize;
            self.mac[i] = reply;
        }
        self.step += 1;
    }

    /// The card, once the start-up is over, or why there is none.
    pub fn finish(self) -> (r: Result<Rtl8139, &'static str>)
        requires
            self.wf(),
        ensures
            match r {
                Ok(card) => self.step == 14 && card@.wf() && card@ == (CardModel {
                    io_base: self.io_base as int,
                    mac: self.mac@,
                    rx_read: 0,
                    tx_phys: self.tx_phys as int,
                    tx_next: 0,
                }),
                Err(e) => self.step != 14 && e@ == if self.step == 15 {
                    "rtl8139 did not reset"@
                } else {
                    "rtl8139 start-up not over"@
                },
            },
    {
        if self.step == 14 {
            Ok(
                Rtl8139 {
                    io_base: self.io_base,
                    mac: self.mac,
                    rx_read: 0,
                    tx_phys: self.tx_phys,
                    tx_next: 0,
                },
            )
        } else if self.step == 15 {
            Err("rtl8139 did not reset")
        } else {
            Err("rtl8139 start-up not over")
        }
    }
}

// ---------- Receiving ----------

/// The length in the header of the frame at a place in the ring, with the
/// checksum.
pub open spec fn length_at(ring: Seq<u8>, at: int) -> int {
    ring[at + 2] + 256 * ring[at + 3]
}

/// Whether the header at a place in the ring is that of a frame that was received
/// well, fits into the ring, and ends within the region.
pub open spec fn header_good(ring: Seq<u8>, at: int) -> bool {
    &&& ring[at] % 2 == 1
    &&& 4 <= length_at(ring, at) <= RX_BUF_LEN
    &&& at + length_at(ring, at) <= RX_REGION_LEN
}

/// The frame at a place in the ring, without its header and its checksum: the
/// bytes behind the header, on over the end of the ring.
pub open spec fn frame_at(ring: Seq<u8>, at: int) -> Seq<u8> {
    ring.subrange(at + 4, at + length_at(ring, at))
}

/// Where the frame behind the one at a place in the ring begins: behind header,
/// frame and checksum, at a multiple of four.
pub open spec fn next_at(ring: Seq<u8>, at: int) -> int {
    (at + (length_at(ring, at) + 7) / 4 * 4) % 8192
}

/// What the card is told of where the next frame begins: sixteen less.
pub open spec fn capr_of(at: int) -> int {
    (at + 0xFFF0) % 0x1_0000
}

/// What receiving came to: the frame, and what to write to the card's register
/// for the place in the ring, at that port.
#[derive(Debug, PartialEq, Eq)]
pub struct Received {
    pub frame: Option<Vec<u8>>,
    pub capr: Option<(u16, u16)>,
}

// ---------- Sending ----------

/// What sending a frame takes, in this order: the bytes, the place in the sending
/// buffers that they go to, the port and the value for the address, and the port
/// and the value for the length, which starts the transfer.
#[derive(Debug, PartialEq, Eq)]
pub struct Transmit {
    pub bytes: Vec<u8>,
    pub offset: usize,
    pub address: (u16, u32),
    pub start: (u16, u32),
}

/// The frame with zeros behind it up to the shortest length on the wire.
pub open spec fn padded(frame: Seq<u8>) -> Seq<u8> {
    if frame.len() >= TX_MIN_LEN {
        frame
    } else {
        frame + Seq::new((TX_MIN_LEN - frame.len()) as nat, |i: int| 0u8)
    }
}

impl Rtl8139 {
    /// The card's address.
    pub fn mac(&self) -> (r: [u8; 6])
        ensures
            r@ == self@.mac,
    {
        self.mac
    }

    /// The port of the command register.
    pub fn cr_port(&self) -> (r: u16)
        requires
            self@.wf(),
        ensures
            r == self@.io_base + REG_CR,
    {
        self.io_base + REG_CR
    }

    /// The port of the status of the buffer that is next.
    pub fn tsd_port(&self) -> (r: u16)
        requires
            self@.wf(),
        ensures
            r == self@.io_base + REG_TSD0 + 4 * self@.tx_next,
    {
        self.io_base + REG_TSD0 + 4 * (self.tx_next as u16)
    }

    /// Gets the buffers for a card and the start-up at its first step.
    pub fn init(dev: &PciDevice, pool: &mut DmaPool) -> (r: Result<CardStart, &'static str>)
        requires
            dev.io_base + REG_CONFIG1 <= 0xFFFF,
            crate::memory::mapped(old(pool)@),
            old(pool)@.allocator matches Some(a) ==> a.next + 6 < usize::MAX,
        ensures
            final(pool)@ == buffers_left(old(pool)@),
            match buffers(old(pool)@) {
                Ok((rx, tx)) => r matches Ok(s) && s.wf() && s.io_base == dev.io_base && s.rx_phys
                    == rx && s.tx_phys == tx && s.rx_virt == virt_of(old(pool)@, rx) && s.tx_virt
                    == virt_of(old(pool)@, tx) && s.step == 0 && s.tries == RESET_TRIES && s.mac@
                    == seq![0u8, 0u8, 0u8, 0u8, 0u8, 0u8],
                Err(text) => r matches Err(e) && e@ == text,
            },
    {
        let ghost m = pool@;
        let (rx_virt, rx_phys): (u64, u64) = match alloc_contiguous_frames(pool, 3) {
            Ok(t) => t,
            Err(e) => return Err(e),
        };
        proof {
            crate::memory::lemma_run_whole(m, 3);
        }
        let ghost m1 = pool@;
        let (tx_virt, tx_phys): (u64, u64) = match alloc_contiguous_frames(pool, 2) {
            Ok(t) => t,
            Err(e) => return Err(e),
        };
        proof {
            crate::memory::law_run_contiguous(m1, 2, 1);
            let a = m1.allocator->0;
            crate::memory::lemma_frames_physical(a.map, a.next as int + 1);
        }
        Ok(
            CardStart {
                io_base: dev.io_base,
                rx_virt,
                rx_phys,
                tx_virt,
                tx_phys,
                step: 0,
                tries: RESET_TRIES,
                mac: [0, 0, 0, 0, 0, 0],
            },
        )
    }

    /// Takes the next frame out of the region of the ring, if there is one, given
    /// the command register. After a header that makes no sense the place in the
    /// ring is reset.
    pub fn receive(&mut self, cr: u8, ring: &[u8]) -> (r: Received)
        requires
            old(self)@.wf(),
            ring@.len() >= RX_REGION_LEN,
        ensures
            final(self)@.wf(),
            ({
                let at = old(self)@.rx_read;
                let port = old(self)@.io_base + REG_CAPR;
                if cr & CR_BUFE != 0 {
                    r.frame is None && r.capr is None && final(self)@ == old(self)@
                } else if !header_good(ring@, at) {
                    &&& r.frame is None
                    &&& r.capr matches Some(w) && w.0 == port && w.1 == capr_of(0)
                    &&& final(self)@ == (CardModel { rx_read: 0, ..old(self)@ })
                } else {
                    &&& r.frame matches Some(f) && f@ == frame_at(ring@, at)
                    &&& r.capr matches Some(w) && w.0 == port && w.1 == capr_of(
                        next_at(ring@, at),
                    )
                    &&& final(self)@ == (CardModel { rx_read: next_at(ring@, at), ..old(self)@ })
                }
            }),
    {
        if cr & CR_BUFE != 0 {
            return Received { frame: None, capr: None };
        }
        let off: usize = self.rx_read;
        let lo: u8 = ring[off];
        let low: usize = ring[off + 2] as usize;
        let high: usize = ring[off + 3] as usize;
        let total: usize = low + 256 * high;
        assert(lo & 1 == lo % 2) by (bit_vector);
        if lo & 1 == 0 || total < 4 || total > RX_BUF_LEN || off + total > RX_REGION_LEN {
            self.rx_read = 0;
            return Received { frame: None, capr: Some((self.io_base + REG_CAPR, 0xFFF0)) };
        }
        let out = copy_range(ring, off + 4, off + total);
        let consumed: usize = (total + 7) / 4 * 4;
        self.rx_read = (off + consumed) % RX_BUF_LEN;
        let place: u16 = self.rx_read as u16;
        Received { frame: Some(out), capr: Some((self.io_base + REG_CAPR, place.wrapping_sub(16))) }
    }

    /// What sending a frame takes, given the status of the buffer that is next:
    /// nothing can be sent while the card still has that buffer, and no frame that
    /// is larger than a buffer.
    pub fn transmit(&mut self, frame: &[u8], status: u32) -> (r: Option<Transmit>)
        requires
            old(self)@.wf(),
        ensures
            final(self)@.wf(),
            r is None <==> frame@.len() > TX_BUF_LEN || status & TSD_OWN == 0,
            r is None ==> final(self)@ == old(self)@,
            r matches Some(t) ==> {
                let slot = old(self)@.tx_next;
                let io = old(self)@.io_base;
                &&& t.bytes@ == padded(frame@)
                &&& t.offset == slot * TX_BUF_LEN
                &&& t.address.0 == io + REG_TSAD0 + 4 * slot
                &&& t.address.1 == (old(self)@.tx_phys + slot * TX_BUF_LEN) % 0x1_0000_0000
                &&& t.start.0 == io + REG_TSD0 + 4 * slot
                &&& t.start.1 == padded(frame@).len()
                &&& old(self)@.tx_phys + 8192 <= 0x1_0000_0000 ==> t.address.1 == old(self)@.tx_phys
                    + t.offset
                &&& t.bytes@.take(frame@.len() as int) == frame@
                &&& final(self)@ == (CardModel { tx_next: (slot + 1) % 4, ..old(self)@ })
            },
    {
        if frame.len() > TX_BUF_LEN {
            return None;
        }
        let slot: usize = self.tx_next;
        if status & TSD_OWN == 0 {
            return None;
        }
        let mut bytes: Vec<u8> = Vec::new();
        bytes.extend_from_slice(frame);
        assert(bytes@ =~= frame@);
        while bytes.len() < TX_MIN_LEN
            invariant
                frame@.len() <= bytes@.len() <= TX_BUF_LEN,
                bytes@.len() <= TX_MIN_LEN || bytes@ == frame@,
                bytes@ == frame@ + Seq::new((bytes@.len() - frame@.len()) as nat, |i: int| 0u8),
            decreases TX_MIN_LEN - bytes.len(),
        {
            bytes.push(0);
        }
        assert(bytes@ =~= padded(frame@));
        assert(bytes@.take(frame@.len() as int) =~= frame@);
        let place: u16 = slot as u16;
        let phys: u64 = self.tx_phys + (slot * TX_BUF_LEN) as u64;
        let length: u32 = bytes.len() as u32;
        assert(length & 0x1FFF == length) by (bit_vector)
            requires
                length <= 2048,
        ;
        let job = Transmit {
            bytes,
            offset: slot * TX_BUF_LEN,
            address: (self.io_base + REG_TSAD0 + 4 * place, (phys % 0x1_0000_0000) as u32),
            start: (self.io_base + REG_TSD0 + 4 * place, length & 0x1FFF),
        };
        self.tx_next = (slot + 1) % TX_SLOTS;
        Some(job)
    }
}

// ---------- Laws ----------

/// The start-up ends, whatever the card answers: every answer leaves fewer to
/// come, and at its first step no more than 1000013 are.
pub proof fn law_start_ends(s: CardStart, reply: u8)
    requires
        s.wf(),
        s.step < 14,
    ensures
        0 <= CardStart::answers_left(s.step_after(reply), s.tries_after(reply))
            < CardStart::answers_left(s.step as int, s.tries as int) <= 1_000_013,
{
}

impl CardStart {
    /// The start-up after a row of answers.
    pub open spec fn after(self, replies: Seq<u8>) -> CardStart
        decreases replies.len(),
    {
        if replies.len() == 0 {
            self
        } else {
            self.after(replies.drop_last()).answered(replies.last())
        }
    }
}

/// A card that shows itself resetting at every look never starts: no row of
/// answers gets past the wait, and once it was looked at often enough the start-up
/// has failed for good.
pub proof fn law_no_card_without_reset(s: CardStart, replies: Seq<u8>)
    requires
        s.wf(),
        s.step == 0,
        s.tries == RESET_TRIES,
        forall|i: int| 0 <= i < replies.len() ==> #[trigger] replies[i] & CR_RESET != 0,
    ensures
        s.after(replies).step == if replies.len() <= 2 {
            replies.len() as int
        } else if replies.len() < 2 + RESET_TRIES {
            2
        } else {
            15
        },
        3 <= replies.len() < 2 + RESET_TRIES ==> s.after(replies).tries == RESET_TRIES + 2
            - replies.len(),
        replies.len() <= 2 ==> s.after(replies).tries == RESET_TRIES,
    decreases replies.len(),
{
    if replies.len() > 0 {
        law_no_card_without_reset(s, replies.drop_last());
        assert(replies.last() & CR_RESET != 0);
    }
}

/// The answers after the card was switched on are the bytes of its address, in
/// their order; the sixth ends the start-up.
pub proof fn law_address_of_answers(s: CardStart, replies: Seq<u8>)
    requires
        s.wf(),
        s.step == 8,
        replies.len() <= 6,
    ensures
        s.after(replies).step == 8 + replies.len(),
        s.after(replies).mac@ == replies + s.mac@.skip(replies.len() as int),
    decreases replies.len(),
{
    if replies.len() == 0 {
        assert(s.mac@ =~= replies + s.mac@.skip(0));
    } else {
        let init = replies.drop_last();
        law_address_of_answers(s, init);
        let mac = s.after(init).mac@;
        assert(mac.update(init.len() as int, replies.last()) =~= replies + s.mac@.skip(
            replies.len() as int,
        ));
    }
}

/// The ring and the sending buffers have no byte of physical memory in common,
/// and each lies in its frames.
pub proof fn law_buffers_apart(m: DmaModel)
    requires
        buffers(m) is Ok,
        crate::memory::addressable((m.allocator->0).map),
        crate::memory::tidy((m.allocator->0).map),
    ensures
        ({
            let (rx, tx) = buffers(m)->Ok_0;
            rx + 3 * 4096 <= tx || tx + 2 * 4096 <= rx
        }),
        RX_REGION_LEN <= 3 * 4096,
        TX_SLOTS * TX_BUF_LEN <= 2 * 4096,
{
    let (rx, tx) = buffers(m)->Ok_0;
    let a = m.allocator->0;
    let m1 = crate::memory::run_left(m, 3);
    let fs = crate::memory::frames(a.map);
    let n = a.next as int;
    crate::memory::law_run_contiguous(m, 3, 0);
    crate::memory::law_run_contiguous(m, 3, 1);
    crate::memory::law_run_contiguous(m, 3, 2);
    crate::memory::law_run_contiguous(m1, 2, 0);
    crate::memory::law_run_contiguous(m1, 2, 1);
    crate::memory::lemma_run_whole(m, 3);
    crate::memory::law_frames_distinct(a.map, n, n + 3);
    crate::memory::law_frames_distinct(a.map, n, n + 4);
    crate::memory::law_frames_distinct(a.map, n + 1, n + 3);
    crate::memory::law_frames_distinct(a.map, n + 1, n + 4);
    crate::memory::law_frames_distinct(a.map, n + 2, n + 3);
    crate::memory::law_frames_distinct(a.map, n + 2, n + 4);
    crate::memory::law_frames_usable(a.map, n);
    crate::memory::law_frames_usable(a.map, n + 3);
}

/// The card has put a frame into the ring at a place: a header that says it was
/// received well and how long it is with its checksum, then the frame, on over the
/// end of the ring where it does not fit before it.
pub open spec fn delivered(ring: Seq<u8>, at: int, frame: Seq<u8>) -> bool {
    &&& ring[at] % 2 == 1
    &&& length_at(ring, at) == frame.len() + 4
    &&& forall|i: int| 0 <= i < frame.len() ==> ring[at + 4 + i] == #[trigger] frame[i]
}

/// A frame that the card has put into the ring is received as it is, wherever in
/// the ring it begins, over the ring's end too, and the next is looked for behind
/// it and its checksum.
pub proof fn law_receive_what_was_delivered(ring: Seq<u8>, at: int, frame: Seq<u8>)
    requires
        ring.len() >= RX_REGION_LEN,
        0 <= at < RX_BUF_LEN,
        at % 4 == 0,
        frame.len() + 4 <= RX_BUF_LEN,
        at + 4 + frame.len() <= RX_REGION_LEN,
        delivered(ring, at, frame),
    ensures
        header_good(ring, at),
        frame_at(ring, at) == frame,
        next_at(ring, at) % 4 == 0,
        exists|gap: int|
            0 <= gap < 4 && next_at(ring, at) == #[trigger] ((at + 4 + frame.len() + 4 + gap)
                % 8192),
{
    assert(frame_at(ring, at) =~= frame) by {
        assert forall|i: int| 0 <= i < frame.len() implies frame_at(ring, at)[i]
            == #[trigger] frame[i] by {}
    }
    let total = frame.len() + 4;
    let gap = (total + 7) / 4 * 4 - 4 - total;
    assert(next_at(ring, at) == (at + 4 + frame.len() + 4 + gap) % 8192);
}

/// What is sent of a frame begins with the frame, is never shorter than the
/// shortest frame on the wire, and is zero behind the frame.
pub proof fn law_padding(frame: Seq<u8>)
    requires
        frame.len() <= TX_BUF_LEN,
    ensures
        padded(frame).take(frame.len() as int) == frame,
        TX_MIN_LEN <= padded(frame).len() <= TX_BUF_LEN,
        forall|i: int| frame.len() <= i < padded(frame).len() ==> padded(frame)[i] == 0,
{
    assert(padded(frame).take(frame.len() as int) =~= frame);
}

/// The four buffers are used in turn, and no two of them overlap: a frame is
/// written over only by the fourth frame after it.
pub proof fn law_buffers_in_turn(slot: int, later: int)
    requires
        0 <= slot < TX_SLOTS,
        1 <= later <= 3,
    ensures
        ({
            let other = (slot + later) % 4;
            &&& slot * TX_BUF_LEN + TX_BUF_LEN <= other * TX_BUF_LEN || other * TX_BUF_LEN
                + TX_BUF_LEN <= slot * TX_BUF_LEN
            &&& (slot + 4) % 4 == slot
        }),
{
}

/// The card is told of a place in the ring by a number that is sixteen less, as it
/// counts in sixteen bits.
pub proof fn law_place_told(at: int)
    requires
        0 <= at < RX_BUF_LEN,
    ensures
        0 <= capr_of(at) < 65536,
        (capr_of(at) + 16) % 65536 == at,
{
}

/// A frame that the card marks as bad, one without room for its checksum, and one
/// that is longer than the ring or ends behind the region is not received.
pub proof fn law_bad_headers(ring: Seq<u8>, at: int)
    requires
        ring.len() >= RX_REGION_LEN,
        0 <= at < RX_BUF_LEN,
        at % 4 == 0,
    ensures
        ({
            let length = ring[at + 2] + 256 * ring[at + 3];
            header_good(ring, at) <==> (ring[at] % 2 == 1 && 4 <= length <= 8192 && at + length
                <= 9708)
        }),
{
}

/// The start-up tells the card where the ring is, wherever below four gibibytes that
/// may be, and reads the six bytes of the address from the first six ports.
pub proof fn law_start_up_requests(s: CardStart)
    requires
        s.wf(),
    ensures
        s.step == 1 ==> s.wants() == CardRequest::Write8((s.io_base + 0x37) as u16, 0x10),
        s.step == 2 ==> s.wants() == CardRequest::Read8((s.io_base + 0x37) as u16),
        s.step == 3 && s.rx_phys < 0x1_0000_0000 ==> s.wants() == CardRequest::Write32(
            (s.io_base + 0x30) as u16,
            s.rx_phys as u32,
        ),
        8 <= s.step < 14 ==> s.wants() == CardRequest::Read8((s.io_base + (s.step - 8)) as u16),
        s.wants() is Done <==> s.step >= 14,
{
}

} // verus!
