use aioc::drivers::mouse::{self, MouseInit, MouseRequest, ACK, TRIES};
use aioc::drivers::pci::{
    address, find_rtl8139, read_u16, read_u8, PciDevice, PciRequest, PciScan, Scan,
};
use aioc::drivers::pit::set_frequency;
use aioc::interrupts::{init_idt, timer_tick, Clock, Handler, InterruptIndex};
use aioc::task::tick::SecondStream;

// ---------- The bus ----------

#[test]
fn addresses_on_the_bus() {
    assert_eq!(address(0, 0, 0, 0), 0x8000_0000);
    assert_eq!(address(1, 2, 3, 0x3F), 0x8001_133C);
    assert_eq!(address(255, 31, 7, 0xFF), 0x80FF_FFFC);
    assert_ne!(address(0, 3, 0, 0x10), address(0, 3, 1, 0x10));
}

#[test]
fn parts_of_a_word() {
    assert_eq!(read_u16(0x8139_10EC, 0x00), 0x10EC);
    assert_eq!(read_u16(0x8139_10EC, 0x02), 0x8139);
    assert_eq!(read_u8(0x0403_0201, 0x3C), 0x01);
    assert_eq!(read_u8(0x0403_0201, 0x3F), 0x04);
}

struct Bus {
    cards: Vec<(u8, u8, u32)>,
    command: u32,
    writes: Vec<(u32, u32)>,
}

impl Bus {
    fn read(&self, at: u32) -> u32 {
        let offset = at & 0xFC;
        for &(device, function, id) in &self.cards {
            if at & !0xFF == address(0, device, function, 0) {
                return match offset {
                    0x00 => id,
                    0x04 => self.command,
                    0x10 => 0xC001,
                    0x3C => 0x010B,
                    _ => 0,
                };
            }
        }
        0xFFFF_FFFF
    }

    fn scan(&mut self) -> (Option<PciDevice>, u32) {
        let mut scan = PciScan::new();
        let mut answers = 0;
        loop {
            answers += 1;
            let reply = match scan.request() {
                PciRequest::Read(at) => self.read(at),
                PciRequest::Write(at, value) => {
                    self.writes.push((at, value));
                    0
                }
            };
            match find_rtl8139(scan, reply) {
                Scan::Running(next) => scan = next,
                Scan::Over(found) => return (found, answers),
            }
        }
    }
}

#[test]
fn the_first_card_is_found() {
    let mut bus = Bus {
        cards: vec![(0, 0, 0x1237_8086), (3, 1, 0x8139_10EC), (4, 0, 0x8139_10EC)],
        command: 0x0103,
        writes: Vec::new(),
    };
    let (found, answers) = bus.scan();
    let card = PciDevice {
        bus: 0,
        device: 3,
        function: 1,
        vendor_id: 0x10EC,
        device_id: 0x8139,
        io_base: 0xC000,
        irq_line: 0x0B,
    };
    assert_eq!(found, Some(card));
    assert_eq!(bus.writes, vec![(address(0, 3, 1, 4), 0x0107)]);
    assert!(answers <= 516);
}

#[test]
fn a_card_that_is_switched_on_is_left_alone() {
    let mut bus = Bus { cards: vec![(31, 7, 0x8139_10EC)], command: 0x0007, writes: Vec::new() };
    let (found, _) = bus.scan();
    assert_eq!(found.map(|c| (c.device, c.function)), Some((31, 7)));
    assert_eq!(bus.writes, Vec::new());
}

#[test]
fn no_card_is_found() {
    let mut bus = Bus {
        cards: vec![(1, 0, 0x0000_0000), (2, 0, 0x8168_10EC), (5, 5, 0x8139_8086)],
        command: 0,
        writes: Vec::new(),
    };
    let (found, answers) = bus.scan();
    assert_eq!(found, None);
    assert_eq!(bus.writes, Vec::new());
    assert!((256..=516).contains(&answers));
}

// ---------- The mouse controller ----------

struct Controller {
    config: u8,
    busy: bool,
    silent: bool,
    log: Vec<MouseRequest>,
    status_reads: u32,
}

impl Controller {
    fn start(&mut self) {
        let mut m = MouseInit::new();
        loop {
            let reply = match m.request() {
                MouseRequest::ReadStatus => {
                    self.status_reads += 1;
                    let full = if self.silent { 0 } else { 1 };
                    let busy = if self.busy { 2 } else { 0 };
                    full | busy
                }
                MouseRequest::ReadData => {
                    self.log.push(MouseRequest::ReadData);
                    if self.log.contains(&MouseRequest::WriteCommand(0xD4)) {
                        ACK
                    } else {
                        self.config
                    }
                }
                MouseRequest::Done => return,
                write => {
                    self.log.push(write);
                    0
                }
            };
            m = mouse::init(m, reply);
        }
    }

    fn writes(&self) -> Vec<MouseRequest> {
        self.log.iter().copied().filter(|&r| r != MouseRequest::ReadData).collect()
    }
}

fn script(config: u8) -> Vec<MouseRequest> {
    vec![
        MouseRequest::WriteCommand(0xAD),
        MouseRequest::WriteCommand(0xA7),
        MouseRequest::WriteCommand(0x20),
        MouseRequest::WriteCommand(0x60),
        MouseRequest::WriteData(config),
        MouseRequest::WriteCommand(0xAE),
        MouseRequest::WriteCommand(0xA8),
        MouseRequest::WriteCommand(0xD4),
        MouseRequest::WriteData(0xF6),
        MouseRequest::WriteCommand(0xD4),
        MouseRequest::WriteData(0xF4),
    ]
}

#[test]
fn a_mouse_is_started() {
    let mut c = Controller {
        config: 0x71,
        busy: false,
        silent: false,
        log: Vec::new(),
        status_reads: 0,
    };
    c.start();
    assert_eq!(c.writes(), script(0x53));
    assert_eq!(c.log.iter().filter(|&&r| r == MouseRequest::ReadData).count(), 4);
    assert_eq!(c.status_reads, 15);
}

#[test]
fn a_controller_that_says_nothing_is_not_waited_for_for_ever() {
    let mut c =
        Controller { config: 0, busy: true, silent: true, log: Vec::new(), status_reads: 0 };
    c.start();
    assert_eq!(c.writes(), script(0x02));
    assert_eq!(c.log.len(), 11);
    assert_eq!(c.status_reads, 14 * TRIES + 1);
}

// ---------- The timer ----------

#[test]
fn divisors() {
    let s = set_frequency(11932);
    assert_eq!((s.divisor, s.command, s.low, s.high), (11932, 0x36, 0x9C, 0x2E));
    assert_eq!(set_frequency(0).divisor, 1);
    assert_eq!(set_frequency(65535).divisor, 65535);
    let most = set_frequency(u32::MAX);
    assert_eq!((most.divisor, most.low, most.high), (65535, 0xFF, 0xFF));
}

#[test]
fn a_hundred_hertz() {
    let raw = 1_193_181.666f64 / 100.0 + 0.5;
    assert_eq!(set_frequency(raw as u32).divisor, 11932);
}

#[test]
fn the_timer_counts() {
    let mut clock = Clock::new();
    let mut stream = Some(SecondStream::new());
    let woken = (0..250).filter(|_| timer_tick(&mut clock, &mut stream)).count();
    assert_eq!(woken, 2);
    assert_eq!(clock, Clock { ticks: 250, subtick: 50, now_ms: 2500 });
    let seconds = stream.as_mut().unwrap();
    assert_eq!(seconds.next(), Some(()));
    assert_eq!(seconds.next(), Some(()));
    assert_eq!(seconds.next(), None);
    let mut last = Clock { ticks: u64::MAX, subtick: 3, now_ms: u64::MAX - 4 };
    assert!(!timer_tick(&mut last, &mut stream));
    assert_eq!(last, Clock { ticks: 0, subtick: 4, now_ms: 5 });
}

// ---------- The interrupt table ----------

#[test]
fn vectors_of_the_hardware() {
    assert_eq!(InterruptIndex::Timer.as_u8(), 32);
    assert_eq!(InterruptIndex::Keyboard.as_u8(), 33);
    assert_eq!(InterruptIndex::Mouse.as_u8(), 44);
    assert_eq!(InterruptIndex::Mouse.as_usize(), 44);
}

#[test]
fn the_interrupt_table() {
    let table: Vec<(u8, Handler, Option<u16>)> =
        init_idt().into_iter().map(|g| (g.vector, g.handler, g.stack)).collect();
    assert_eq!(
        table,
        vec![
            (3, Handler::Breakpoint, None),
            (8, Handler::DoubleFault, Some(0)),
            (14, Handler::PageFault, None),
            (32, Handler::Hardware(InterruptIndex::Timer), None),
            (33, Handler::Hardware(InterruptIndex::Keyboard), None),
            (44, Handler::Hardware(InterruptIndex::Mouse), None),
        ]
    );
}
