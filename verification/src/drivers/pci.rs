//! A scan of the first PCI bus for an RTL8139 network card.
//!
//! Configuration space is read and written in 32-bit words through an address
//! port and a data port. The scan says which word it wants next.
use vstd::prelude::*;

verus! {

pub const VENDOR_RTL: u16 = 0x10EC;

pub const DEVICE_RTL8139: u16 = 0x8139;

/// A device of the bus.
#[derive(Debug, Clone, Copy, PartialEq, Eq, Structural)]
pub struct PciDevice {
    pub bus: u8,
    pub device: u8,
    pub function: u8,
    pub vendor_id: u16,
    pub device_id: u16,
    /// The first I/O port of the device.
    pub io_base: u16,
    /// The interrupt line of the device.
    pub irq_line: u8,
}

// ---------- Words of configuration space ----------

/// The number to write to the address port for a word of configuration space.
pub open spec fn config_address(bus: u8, device: u8, function: u8, offset: u8) -> u32 {
    0x8000_0000u32 | ((bus as u32) << 16u32) | ((device as u32) << 11u32) | ((function as u32)
        << 8u32) | ((offset as u32) & 0xFC)
}

/// The number to write to the address port for a word of configuration space.
pub fn address(bus: u8, device: u8, function: u8, offset: u8) -> (r: u32)
    ensures
        r == config_address(bus, device, function, offset),
{
    0x8000_0000u32 | ((bus as u32) << 16u32) | ((device as u32) << 11u32) | ((function as u32)
        << 8u32) | ((offset as u32) & 0xFC)
}

/// Every word of configuration space has an address of its own.
pub proof fn law_addresses_distinct(
    d1: u8,
    f1: u8,
    o1: u8,
    d2: u8,
    f2: u8,
    o2: u8,
)
    requires
        d1 < 32,
        d2 < 32,
        f1 < 8,
        f2 < 8,
        config_address(0, d1, f1, o1) == config_address(0, d2, f2, o2),
    ensures
        d1 == d2,
        f1 == f2,
        o1 / 4 == o2 / 4,
{
    assert(d1 == d2 && f1 == f2 && o1 / 4 == o2 / 4) by (bit_vector)
        requires
            d1 < 32,
            d2 < 32,
            f1 < 8,
            f2 < 8,
            (0x8000_0000u32 | ((0u8 as u32) << 16u32) | ((d1 as u32) << 11u32) | ((f1 as u32)
                << 8u32) | ((o1 as u32) & 0xFC)) == (0x8000_0000u32 | ((0u8 as u32) << 16u32) | ((
            d2 as u32) << 11u32) | ((f2 as u32) << 8u32) | ((o2 as u32) & 0xFC)),
    ;
}

/// The 16 bits of a word that begin at the offset.
pub open spec fn half_of(word: u32, offset: u8) -> u16 {
    if offset & 2 != 0 {
        (word / 0x1_0000) as u16
    } else {
        (word % 0x1_0000) as u16
    }
}

/// The 16 bits of a word that begin at the offset.
pub fn read_u16(word: u32, offset: u8) -> (r: u16)
    ensures
        r == half_of(word, offset),
{
    assert(offset & 2 == 0 || offset & 2 == 2) by (bit_vector);
    let shift: u8 = (offset & 2) * 8;
    assert((word >> 0u8) & 0xFFFF == word % 0x1_0000) by (bit_vector);
    assert((word >> 16u8) & 0xFFFF == word / 0x1_0000) by (bit_vector);
    ((word >> shift) & 0xFFFF) as u16
}

/// The byte of a word that stands at the offset.
pub open spec fn byte_of(word: u32, offset: u8) -> u8 {
    if offset & 3 == 0 {
        (word % 0x100) as u8
    } else if offset & 3 == 1 {
        (word / 0x100 % 0x100) as u8
    } else if offset & 3 == 2 {
        (word / 0x1_0000 % 0x100) as u8
    } else {
        (word / 0x100_0000) as u8
    }
}

/// The byte of a word that stands at the offset.
pub fn read_u8(word: u32, offset: u8) -> (r: u8)
    ensures
        r == byte_of(word, offset),
{
    assert(offset & 3 < 4) by (bit_vector);
    let shift: u8 = (offset & 3) * 8;
    assert((word >> 0u8) & 0xFF == word % 0x100) by (bit_vector);
    assert((word >> 8u8) & 0xFF == word / 0x100 % 0x100) by (bit_vector);
    assert((word >> 16u8) & 0xFF == word / 0x1_0000 % 0x100) by (bit_vector);
    assert((word >> 24u8) & 0xFF == word / 0x100_0000) by (bit_vector);
    ((word >> shift) & 0xFF) as u8
}

// ---------- The scan ----------

/// What the scan wants next.
#[derive(Debug, Clone, Copy, PartialEq, Eq, Structural)]
pub enum PciRequest {
    /// The word at an address.
    Read(u32),
    /// A word written to an address.
    Write(u32, u32),
}

/// What the scan is about to learn of a function.
#[derive(Debug, Clone, Copy, PartialEq, Eq, Structural)]
pub enum Stage {
    Vendor,
    DeviceId,
    Bar,
    Irq,
    Command,
    Enable,
}

/// A scan: the function that it looks at, and what it knows of it.
#[derive(Debug, Clone, Copy, PartialEq, Eq, Structural)]
pub struct PciScan {
    pub device: u8,
    pub function: u8,
    pub stage: Stage,
    pub vendor: u16,
    pub io_base: u16,
    pub irq_line: u8,
    pub command: u32,
}

/// What a scan has come to.
#[derive(Debug, Clone, Copy, PartialEq, Eq, Structural)]
pub enum Scan {
    /// It goes on.
    Running(PciScan),
    /// It is over: the card that was found, if one was.
    Over(Option<PciDevice>),
}

impl PciScan {
    /// The scan looks at one of the 256 functions of the bus.
    pub open spec fn wf(self) -> bool {
        self.device < 32 && self.function < 8
    }

    /// A scan that begins with the first function.
    pub open spec fn start() -> PciScan {
        PciScan {
            device: 0,
            function: 0,
            stage: Stage::Vendor,
            vendor: 0,
            io_base: 0,
            irq_line: 0,
            command: 0,
        }
    }

    /// A scan that begins with the first function.
    pub fn new() -> (r: PciScan)
        ensures
            r == PciScan::start(),
            r.wf(),
    {
        PciScan {
            device: 0,
            function: 0,
            stage: Stage::Vendor,
            vendor: 0,
            io_base: 0,
            irq_line: 0,
            command: 0,
        }
    }

    /// What the scan wants next.
    pub open spec fn wants(self) -> PciRequest {
        match self.stage {
            Stage::Vendor => PciRequest::Read(config_address(0, self.device, self.function, 0x00)),
            Stage::DeviceId => PciRequest::Read(
                config_address(0, self.device, self.function, 0x00),
            ),
            Stage::Bar => PciRequest::Read(config_address(0, self.device, self.function, 0x10)),
            Stage::Irq => PciRequest::Read(config_address(0, self.device, self.function, 0x3C)),
            Stage::Command => PciRequest::Read(config_address(0, self.device, self.function, 0x04)),
            Stage::Enable => PciRequest::Write(
                config_address(0, self.device, self.function, 0x04),
                self.command | 0x0007,
            ),
        }
    }

    /// What the scan wants next.
    pub fn request(&self) -> (r: PciRequest)
        ensures
            r == self.wants(),
    {
        match self.stage {
            Stage::Vendor => PciRequest::Read(address(0, self.device, self.function, 0x00)),
            Stage::DeviceId => PciRequest::Read(address(0, self.device, self.function, 0x00)),
            Stage::Bar => PciRequest::Read(address(0, self.device, self.function, 0x10)),
            Stage::Irq => PciRequest::Read(address(0, self.device, self.function, 0x3C)),
            Stage::Command => PciRequest::Read(address(0, self.device, self.function, 0x04)),
            Stage::Enable => PciRequest::Write(
                address(0, self.device, self.function, 0x04),
                self.command | 0x0007,
            ),
        }
    }

    /// The scan at the next function.
    pub open spec fn moved_on(self) -> Scan {
        if self.function < 7 {
            Scan::Running(
                PciScan {
                    function: (self.function + 1) as u8,
                    stage: Stage::Vendor,
                    ..self
                },
            )
        } else if self.device < 31 {
            Scan::Running(
                PciScan {
                    device: (self.device + 1) as u8,
                    function: 0,
                    stage: Stage::Vendor,
                    ..self
                },
            )
        } else {
            Scan::Over(None)
        }
    }

    /// The card at the function that the scan looks at.
    pub open spec fn found(self) -> PciDevice {
        PciDevice {
            bus: 0,
            device: self.device,
            function: self.function,
            vendor_id: VENDOR_RTL,
            device_id: DEVICE_RTL8139,
            io_base: self.io_base,
            irq_line: self.irq_line,
        }
    }

    /// What the scan comes to once its request was answered. Only functions with
    /// the vendor and the device of the card are looked at further; the card's
    /// I/O ports and bus mastering are switched on where they are not.
    pub open spec fn answered(self, reply: u32) -> Scan {
        match self.stage {
            Stage::Vendor => if half_of(reply, 0x00) == 0xFFFF || half_of(reply, 0x00) == 0 {
                self.moved_on()
            } else {
                Scan::Running(
                    PciScan { stage: Stage::DeviceId, vendor: half_of(reply, 0x00), ..self },
                )
            },
            Stage::DeviceId => if self.vendor == VENDOR_RTL && half_of(reply, 0x02)
                == DEVICE_RTL8139 {
                Scan::Running(PciScan { stage: Stage::Bar, ..self })
            } else {
                self.moved_on()
            },
            Stage::Bar => Scan::Running(
                PciScan {
                    stage: Stage::Irq,
                    io_base: ((reply % 0x1_0000) / 4 * 4) as u16,
                    ..self
                },
            ),
            Stage::Irq => Scan::Running(
                PciScan { stage: Stage::Command, irq_line: byte_of(reply, 0x3C), ..self },
            ),
            Stage::Command => if reply | 0x0007 != reply {
                Scan::Running(PciScan { stage: Stage::Enable, command: reply, ..self })
            } else {
                Scan::Over(Some(self.found()))
            },
            Stage::Enable => Scan::Over(Some(self.found())),
        }
    }
}

fn move_on(scan: PciScan) -> (r: Scan)
    requires
        scan.wf(),
    ensures
        r == scan.moved_on(),
{
    if scan.function < 7 {
        Scan::Running(PciScan { function: scan.function + 1, stage: Stage::Vendor, ..scan })
    } else if scan.device < 31 {
        Scan::Running(
            PciScan { device: scan.device + 1, function: 0, stage: Stage::Vendor, ..scan },
        )
    } else {
        Scan::Over(None)
    }
}

fn found_device(scan: PciScan) -> (r: PciDevice)
    ensures
        r == scan.found(),
{
    PciDevice {
        bus: 0,
        device: scan.device,
        function: scan.function,
        vendor_id: VENDOR_RTL,
        device_id: DEVICE_RTL8139,
        io_base: scan.io_base,
        irq_line: scan.irq_line,
    }
}

/// Takes the answer to the scan's request: the word that was read, or anything
/// after a write.
pub fn find_rtl8139(scan: PciScan, reply: u32) -> (r: Scan)
    requires
        scan.wf(),
    ensures
        r == scan.answered(reply),
        r matches Scan::Running(next) ==> next.wf(),
{
    match scan.stage {
        Stage::Vendor => {
            let vendor: u16 = read_u16(reply, 0x00);
            if vendor == 0xFFFF || vendor == 0x0000 {
                move_on(scan)
            } else {
                Scan::Running(PciScan { stage: Stage::DeviceId, vendor, ..scan })
            }
        },
        Stage::DeviceId => {
            let device_id: u16 = read_u16(reply, 0x02);
            if scan.vendor == VENDOR_RTL && device_id == DEVICE_RTL8139 {
                Scan::Running(PciScan { stage: Stage::Bar, ..scan })
            } else {
                move_on(scan)
            }
        },
        Stage::Bar => {
            assert((reply & 0xFFFF_FFFC) as u16 == (reply % 0x1_0000) / 4 * 4) by (bit_vector);
            let io_base: u16 = (reply & 0xFFFF_FFFC) as u16;
            Scan::Running(PciScan { stage: Stage::Irq, io_base, ..scan })
        },
        Stage::Irq => {
            let irq_line: u8 = read_u8(reply, 0x3C);
            Scan::Running(PciScan { stage: Stage::Command, irq_line, ..scan })
        },
        Stage::Command => {
            let new_command: u32 = reply | 0x0007;
            if new_command != reply {
                Scan::Running(PciScan { stage: Stage::Enable, command: reply, ..scan })
            } else {
                Scan::Over(Some(found_device(scan)))
            }
        },
        Stage::Enable => Scan::Over(Some(found_device(scan))),
    }
}

// ---------- Laws ----------

/// The word of configuration space at an offset of a function.
pub open spec fn word_at(config: spec_fn(u32) -> u32, device: u8, function: u8, offset: u8) -> u32 {
    config(config_address(0, device, function, offset))
}

/// The function is the card.
pub open spec fn is_card(config: spec_fn(u32) -> u32, device: u8, function: u8) -> bool {
    let word = word_at(config, device, function, 0x00);
    half_of(word, 0x00) == VENDOR_RTL && half_of(word, 0x02) == DEVICE_RTL8139
}

/// The number of a function in the order of the scan.
pub open spec fn place(device: u8, function: u8) -> int {
    device * 8 + function
}

/// What a scan has come to after `n` answers from configuration space.
pub open spec fn scanned(config: spec_fn(u32) -> u32, n: nat) -> Scan
    decreases n,
{
    if n == 0 {
        Scan::Running(PciScan::start())
    } else {
        match scanned(config, (n - 1) as nat) {
            Scan::Running(s) => s.answered(
                match s.wants() {
                    PciRequest::Read(a) => config(a),
                    PciRequest::Write(_, _) => 0,
                },
            ),
            over => over,
        }
    }
}

/// What is known of a scan on the way: no function before the one that it looks
/// at is the card, and what it has noted of that function is true.
spec fn so_far(config: spec_fn(u32) -> u32, s: PciScan) -> bool {
    &&& s.wf()
    &&& forall|d: u8, f: u8|
        d < 32 && f < 8 && place(d, f) < place(s.device, s.function) ==> !#[trigger] is_card(
            config,
            d,
            f,
        )
    &&& s.stage is DeviceId ==> s.vendor == half_of(
        word_at(config, s.device, s.function, 0x00),
        0x00,
    )
    &&& !(s.stage is Vendor || s.stage is DeviceId) ==> is_card(config, s.device, s.function)
    &&& (s.stage is Irq || s.stage is Command || s.stage is Enable) ==> s.io_base == (word_at(
        config,
        s.device,
        s.function,
        0x10,
    ) % 0x1_0000) / 4 * 4
    &&& (s.stage is Command || s.stage is Enable) ==> s.irq_line == byte_of(
        word_at(config, s.device, s.function, 0x3C),
        0x3C,
    )
}

/// A scan that is over has found the first function that is the card, with its
/// I/O ports and its interrupt line as configuration space has them, or there is
/// none.
pub open spec fn right_answer(config: spec_fn(u32) -> u32, r: Option<PciDevice>) -> bool {
    match r {
        Some(dev) => {
            &&& dev.bus == 0
            &&& dev.device < 32
            &&& dev.function < 8
            &&& is_card(config, dev.device, dev.function)
            &&& forall|d: u8, f: u8|
                d < 32 && f < 8 && place(d, f) < place(dev.device, dev.function)
                    ==> !#[trigger] is_card(config, d, f)
            &&& dev.vendor_id == VENDOR_RTL
            &&& dev.device_id == DEVICE_RTL8139
            &&& dev.io_base == (word_at(config, dev.device, dev.function, 0x10) % 0x1_0000) / 4 * 4
            &&& dev.irq_line == byte_of(word_at(config, dev.device, dev.function, 0x3C), 0x3C)
        },
        None => forall|d: u8, f: u8| d < 32 && f < 8 ==> !#[trigger] is_card(config, d, f),
    }
}

/// How many answers a scan takes at most from here on.
spec fn steps_left(s: PciScan) -> int {
    2 * (256 - place(s.device, s.function)) + 4 - match s.stage {
        Stage::Vendor => 0int,
        Stage::DeviceId => 1int,
        Stage::Bar => 2int,
        Stage::Irq => 3int,
        Stage::Command => 4int,
        Stage::Enable => 5int,
    }
}

/// Over a configuration space that does not change while it is read, the scan is
/// over after at most 516 answers, and finds the first card of the bus if and
/// only if there is one.
pub proof fn law_finds_first_card(config: spec_fn(u32) -> u32, n: nat)
    ensures
        scanned(config, n) matches Scan::Over(r) ==> right_answer(config, r),
        n >= 516 ==> scanned(config, n) is Over,
{
    lemma_scanned(config, n);
}

proof fn lemma_scanned(config: spec_fn(u32) -> u32, n: nat)
    ensures
        match scanned(config, n) {
            Scan::Running(s) => so_far(config, s) && n + steps_left(s) <= 516 && steps_left(s) > 0,
            Scan::Over(r) => right_answer(config, r),
        },
    decreases n,
{
    if n > 0 {
        lemma_scanned(config, (n - 1) as nat);
        if let Scan::Running(s) = scanned(config, (n - 1) as nat) {
            let reply = match s.wants() {
                PciRequest::Read(a) => config(a),
                PciRequest::Write(_, _) => 0,
            };
            if s.stage is Vendor || s.stage is DeviceId {
                lemma_move_on(config, s, reply);
            }
        }
    }
}

proof fn lemma_move_on(config: spec_fn(u32) -> u32, s: PciScan, reply: u32)
    requires
        so_far(config, s),
        s.stage is Vendor || s.stage is DeviceId,
        reply == word_at(config, s.device, s.function, 0x00),
    ensures
        match s.answered(reply) {
            Scan::Running(t) => so_far(config, t) && steps_left(t) < steps_left(s) && steps_left(t)
                > 0,
            Scan::Over(r) => right_answer(config, r),
        },
{
    if s.answered(reply) == s.moved_on() {
        assert(!is_card(config, s.device, s.function));
        assert forall|d: u8, f: u8|
            d < 32 && f < 8 && place(d, f) < place(s.device, s.function) + 1 implies !#[trigger] is_card(
            config,
            d,
            f,
        ) by {
            if place(d, f) == place(s.device, s.function) {
                assert(d == s.device && f == s.function);
            }
        }
        if let Scan::Running(t) = s.moved_on() {
            assert(place(t.device, t.function) == place(s.device, s.function) + 1);
        }
    }
}

/// The number for a word of configuration space has the enable bit on top, then the
/// bus, the device, the function, and the place of the word in bytes.
pub proof fn law_address_parts(bus: u8, device: u8, function: u8, offset: u8)
    requires
        device < 32,
        function < 8,
    ensures
        config_address(bus, device, function, offset) == 0x8000_0000 + 65536 * bus + 2048 * device
            + 256 * function + offset / 4 * 4,
{
    assert((0x8000_0000u32 | ((bus as u32) << 16u32) | ((device as u32) << 11u32) | ((
    function as u32) << 8u32) | ((offset as u32) & 0xFC)) == 0x8000_0000 + 65536 * bus + 2048
        * device + 256 * function + offset / 4 * 4) by (bit_vector)
        requires
            device < 32,
            function < 8,
    ;
}

/// The parts of a word are found by their place: the lower half first, and the bytes
/// from the lowest up.
pub proof fn law_word_parts(a: u8, b: u8, c: u8, d: u8, offset: u8)
    ensures
        ({
            let word = (a + 256 * b + 65536 * c + 16777216 * d) as u32;
            &&& half_of(word, offset) == if offset / 2 % 2 == 0 {
                a + 256 * b
            } else {
                c + 256 * d
            }
            &&& byte_of(word, offset) == if offset % 4 == 0 {
                a
            } else if offset % 4 == 1 {
                b
            } else if offset % 4 == 2 {
                c
            } else {
                d
            }
        }),
{
    assert((offset & 2 != 0 <==> offset / 2 % 2 != 0) && offset & 3 == offset % 4) by (bit_vector);
    let word = (a + 256 * b + 65536 * c + 16777216 * d) as u32;
    assert(word % 0x1_0000 == a + 256 * b);
    assert(word / 0x1_0000 == c + 256 * d);
    assert(word / 0x100 % 0x100 == b);
    assert(word / 0x1_0000 % 0x100 == c);
    assert(word / 0x100_0000 == d);
}

/// A card that was found has its I/O ports, its memory and bus mastering on: they
/// were, or the last thing that the scan does is to switch them on, and to leave
/// everything else of the register as it was.
pub proof fn law_card_enabled(s: PciScan, reply: u32)
    requires
        s.stage is Command,
    ensures
        match s.answered(reply) {
            Scan::Over(_) => reply % 8 == 7,
            Scan::Running(t) => {
                &&& t.wants() matches PciRequest::Write(at, value)
                &&& at == config_address(0, s.device, s.function, 4)
                &&& value % 8 == 7
                &&& value / 8 == reply / 8
                &&& t.answered(0) == Scan::Over(Some(s.found()))
            },
        },
{
    assert((reply | 7) % 8 == 7 && (reply | 7) / 8 == reply / 8) by (bit_vector);
}

/// The first I/O port of a card is what its register holds above the two lowest bits,
/// which say what kind of register it is.
pub proof fn law_ports(s: PciScan, port: int, kind: int, upper: int)
    requires
        s.stage is Bar,
        0 <= port < 65536,
        port % 4 == 0,
        0 <= kind < 4,
        0 <= upper < 65536,
    ensures
        s.answered((65536 * upper + port + kind) as u32) matches Scan::Running(t) && t.io_base
            == port && t.stage is Irq,
{
    let word = (65536 * upper + port + kind) as u32;
    assert(word % 65536 == port + kind);
}

} // verus!
