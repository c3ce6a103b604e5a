use aioc::browser::Browser;
use aioc::desktop::{self, delay_ms, paint_clock, paint_status_bar, paint_tray, run_splash};
use aioc::drivers::rtc::DateTime;
use aioc::start_menu::{self, MenuState};
use aioc::task::mouse::{
    apply_packet, dispatch_click, lift_cursor, redraw_cursor_at, restore_cursor, CursorState,
    Packet, PacketAssembler,
};
use aioc::vfs::Fs;
use aioc::vga_buffer::{Buffer, Color, ColorCode, Writer};
use volatile::Volatile;

fn writer() -> Writer {
    let buffer: Box<Buffer> =
        Box::new(std::array::from_fn(|_| std::array::from_fn(|_| Volatile::new(0x0720u16))));
    Writer::new(buffer)
}

fn row(w: &Writer, row: usize) -> Vec<u8> {
    (0..80).map(|c| w.read_cell(row, c).0).collect()
}

fn text(w: &Writer, r: usize, from: usize, to: usize) -> String {
    row(w, r)[from..to].iter().map(|&b| b as char).collect()
}

fn snapshot(w: &Writer) -> Vec<(u8, ColorCode)> {
    (0..25).flat_map(|r| (0..80).map(move |c| (r, c))).map(|(r, c)| w.read_cell(r, c)).collect()
}

const NOON: DateTime =
    DateTime { year: 2026, month: 11, day: 15, hour: 12, minute: 5, second: 9 };

// ---------- The desktop ----------

#[test]
fn the_desktop_is_painted() {
    let mut w = writer();
    desktop::paint(&mut w, &Fs::new(), 5 * 1024 + 7, &NOON);
    assert_eq!(w.read_cell(0, 1), (0xFE, ColorCode::new(Color::LightCyan, Color::DarkGray)));
    assert_eq!(w.read_cell(0, 3).0, 0x07);
    assert_eq!(w.read_cell(0, 79), (b' ', ColorCode::new(Color::LightGray, Color::DarkGray)));
    let frame = ColorCode::new(Color::Cyan, Color::Black);
    assert_eq!(w.read_cell(1, 0), (0xDA, frame));
    assert_eq!(w.read_cell(1, 40), (0xC4, frame));
    assert_eq!(w.read_cell(1, 79), (0xBF, frame));
    assert_eq!(w.read_cell(2, 0), (0xB3, frame));
    assert_eq!(text(&w, 2, 4, 11), "Console");
    assert_eq!(text(&w, 2, 75, 78), "[x]");
    assert_eq!(w.read_cell(2, 76).1, ColorCode::new(Color::LightRed, Color::Black));
    assert_eq!((w.read_cell(3, 0).0, w.read_cell(3, 5).0, w.read_cell(3, 79).0), (0xC3, 0xC4, 0xB4));
    assert_eq!(w.read_cell(10, 10), (b' ', ColorCode::new(Color::LightGray, Color::Black)));
    assert_eq!((w.read_cell(23, 0).0, w.read_cell(23, 79).0), (0xC0, 0xD9));
    assert_eq!(w.read_cell(24, 1), (0xFE, ColorCode::new(Color::Black, Color::Cyan)));
    assert_eq!(w.read_cell(24, 6), (b' ', ColorCode::new(Color::Black, Color::Cyan)));
    assert_eq!(w.read_cell(24, 7), (b' ', ColorCode::new(Color::LightGray, Color::Black)));
    assert_eq!(w.read_cell(24, 8).0, 0xB3);
    assert_eq!(text(&w, 24, 10, 32), " > Console            ");
    assert_eq!(text(&w, 22, 4, 9), "ready");
    assert_eq!(text(&w, 22, 13, 20), "cwd: / ");
    assert_eq!(text(&w, 24, 40, 43), "5K ");
    assert_eq!(text(&w, 24, 52, 56), "RTC\u{b3}");
    assert_eq!(w.read_cell(24, 36).0, 0xB3);
    assert_eq!(text(&w, 24, 70, 80), "12:05:09  ");
    assert_eq!(w.read_cell(24, 68).0, 0xF8);
}

#[test]
fn the_desktop_covers_what_was_there() {
    let mut clean = writer();
    let mut dirty = writer();
    dirty.fill_rect(0, 0, 25, 80, b'#', Color::Red, Color::Green);
    for w in [&mut clean, &mut dirty] {
        desktop::paint(w, &Fs::new(), 77, &NOON);
    }
    assert_eq!(snapshot(&clean), snapshot(&dirty));
}

#[test]
fn the_slots_of_the_desktop_do_not_disturb_each_other() {
    let mut w = writer();
    let fs = Fs::new();
    desktop::paint(&mut w, &fs, 0, &NOON);
    let before = snapshot(&w);
    paint_clock(&mut w, &NOON);
    paint_tray(&mut w, 0);
    paint_status_bar(&mut w, &fs);
    assert_eq!(snapshot(&w), before);
    paint_tray(&mut w, 1234 * 1024);
    assert_eq!(text(&w, 24, 40, 46), "1234K ");
    assert_eq!(text(&w, 24, 70, 78), "12:05:09");
    let mut after = snapshot(&w);
    paint_tray(&mut w, usize::MAX);
    assert_eq!(text(&w, 24, 40, 56), "1801439850\u{f8}4RTC\u{b3}");
    let taskbar = 24 * 80;
    let tray = taskbar + 36..taskbar + 56;
    after[tray.clone()].copy_from_slice(&snapshot(&w)[tray]);
    assert_eq!(snapshot(&w), after);
}

#[test]
fn the_status_bar_shows_the_directory() {
    let mut w = writer();
    let mut fs = Fs::new();
    w.put_cell(22, 79, 0xB3, Color::Cyan, Color::Black);
    fs.chdir("/home").unwrap();
    paint_status_bar(&mut w, &fs);
    assert_eq!(text(&w, 22, 18, 25), "/home  ");
    assert_eq!(w.read_cell(22, 18).1, ColorCode::new(Color::LightGray, Color::DarkGray));
    assert_eq!(w.read_cell(22, 13).1, ColorCode::new(Color::LightCyan, Color::DarkGray));
    assert_eq!(w.read_cell(22, 0).0, b' ');
    let long = "x".repeat(100);
    fs.mkdir(&long).unwrap();
    fs.chdir(&long).unwrap();
    paint_status_bar(&mut w, &fs);
    assert_eq!(text(&w, 22, 18, 79), format!("/home/{}", "x".repeat(55)));
    assert_eq!(w.read_cell(22, 79), (0xB3, ColorCode::new(Color::Cyan, Color::Black)));
    let broken = format!("/{}\u{e9}", "y".repeat(62));
    fs.mkdir(&broken).unwrap();
    fs.chdir(&broken).unwrap();
    paint_status_bar(&mut w, &fs);
    assert_eq!(text(&w, 22, 18, 20), "? ");
}

#[test]
fn the_splash_has_twenty_four_steps() {
    let mut w = writer();
    assert_eq!(run_splash(&mut w, 0, 1200), Some(50));
    assert_eq!(w.read_cell(7, 30), (0xDB, ColorCode::new(Color::LightCyan, Color::Black)));
    assert_eq!(w.read_cell(8, 31).0, b' ');
    assert_eq!(text(&w, 13, 20, 59), "an experiment in writing your own world");
    assert_eq!(w.read_cell(16, 20).1, ColorCode::new(Color::Cyan, Color::DarkGray));
    for f in 1..=24u64 {
        let next = run_splash(&mut w, f, 1200);
        assert_eq!(next, if f < 24 { Some(50) } else { None });
        let fraction = f as f32 / 24.0;
        let filled = ((fraction * 40.0) as usize).min(40);
        let percent = format!("{}%", (fraction * 100.0) as usize);
        for c in 0..40 {
            let full = ColorCode::new(Color::Black, Color::LightCyan);
            assert_eq!(w.read_cell(16, 20 + c).1 == full, c < filled, "frame {f} column {c}");
        }
        assert_eq!(text(&w, 17, 60 - percent.len(), 60), percent);
        assert_eq!(w.read_cell(17, 59 - percent.len()).0, b' ');
    }
}

#[test]
fn delays() {
    assert!(delay_ms(100, 100, 0));
    assert!(!delay_ms(100, 104, 50));
    assert!(delay_ms(100, 105, 50));
    assert!(!delay_ms(100, 105, 51));
    assert!(delay_ms(100, 106, 51));
    assert!(!delay_ms(u64::MAX, 3, 50));
    assert!(delay_ms(u64::MAX, 4, 50));
}

// ---------- The mouse ----------

#[test]
fn bytes_become_packets() {
    let mut a = PacketAssembler::new();
    assert_eq!((a.feed(0x09), a.feed(5)), (None, None));
    assert_eq!(a.feed(3), Some(Packet { dx: 5, dy: -3, buttons: 1 }));
    assert_eq!((a.feed(0x38), a.feed(0xFE)), (None, None));
    assert_eq!(a.feed(0xFF), Some(Packet { dx: -2, dy: 1, buttons: 0 }));
}

#[test]
fn bytes_out_of_step_are_dropped() {
    let mut a = PacketAssembler::new();
    for b in [0x00, 0x07, 0xF0] {
        assert_eq!(a.feed(b), None);
    }
    assert_eq!((a.feed(0x08), a.feed(1)), (None, None));
    assert_eq!(a.feed(0), Some(Packet { dx: 1, dy: 0, buttons: 0 }));
}

#[test]
fn the_cursor_leaves_the_screen_as_it_was() {
    let mut w = writer();
    desktop::paint(&mut w, &Fs::new(), 0, &NOON);
    let before = snapshot(&w);
    let mut cur = CursorState::new();
    redraw_cursor_at(&mut cur, &mut w, 40, 12);
    assert_eq!(w.read_cell(12, 40).1, before[12 * 80 + 40].1.invert());
    for (dx, dy) in [(3, -4), (-100, 0), (0, 100), (1000, -1000), (i32::MIN / 2, i32::MAX / 2)] {
        assert_eq!(apply_packet(&mut cur, &mut w, dx, dy, 0), None);
    }
    assert_eq!((cur.x, cur.y), (0, 24));
    let changed = snapshot(&w).iter().zip(&before).filter(|(a, b)| a != b).count();
    assert_eq!(changed, 1);
    lift_cursor(&mut cur, &mut w);
    assert_eq!(snapshot(&w), before);
    restore_cursor(&mut cur, &mut w);
    assert_ne!(snapshot(&w), before);
    lift_cursor(&mut cur, &mut w);
    lift_cursor(&mut cur, &mut w);
    assert_eq!(snapshot(&w), before);
}

#[test]
fn a_click_is_the_left_button_going_down() {
    let mut w = writer();
    let mut cur = CursorState::new();
    assert_eq!(apply_packet(&mut cur, &mut w, 1, 1, 1), Some((41, 13)));
    assert_eq!(w.read_cell(13, 41).1, ColorCode::new(Color::White, Color::Red));
    assert_eq!(apply_packet(&mut cur, &mut w, 0, 0, 1), None);
    assert_eq!(apply_packet(&mut cur, &mut w, 0, 0, 2), None);
    assert_eq!(w.read_cell(13, 41).1, ColorCode::new(Color::White, Color::Red));
    assert_eq!(apply_packet(&mut cur, &mut w, 0, 0, 0), None);
    assert_eq!(w.read_cell(13, 41).1, ColorCode::from_raw(0x70));
    assert_eq!(apply_packet(&mut cur, &mut w, 0, 0, 5), Some((41, 13)));
}

// ---------- The start menu ----------

struct Desk {
    w: Writer,
    cur: CursorState,
    menu: MenuState,
    browser: Browser,
}

fn desk() -> Desk {
    let mut w = writer();
    desktop::paint(&mut w, &Fs::new(), 0, &NOON);
    w.set_region(4, 1, 78, 18);
    let mut cur = CursorState::new();
    redraw_cursor_at(&mut cur, &mut w, 5, 20);
    Desk { w, cur, menu: MenuState::new(), browser: Browser::new() }
}

impl Desk {
    fn click(&mut self, x: u8, y: u8) {
        dispatch_click(
            &mut self.menu,
            &mut self.cur,
            &mut self.w,
            &mut self.browser,
            &None,
            x,
            y,
        );
    }
}

#[test]
fn the_menu_opens_and_closes() {
    let mut d = desk();
    let before = snapshot(&d.w);
    assert!(!start_menu::is_open(&d.menu));
    start_menu::toggle(&mut d.menu, &mut d.cur, &mut d.w);
    assert!(start_menu::is_open(&d.menu));
    assert_eq!(text(&d.w, 14, 3, 9), "system");
    assert_eq!(text(&d.w, 18, 4, 11), "Console");
    assert_eq!(text(&d.w, 18, 18, 25), "Browser");
    assert_eq!(text(&d.w, 22, 2, 24), "click outside to close");
    assert_eq!(d.w.read_cell(23, 29).0, 0xD9);
    assert_eq!(d.w.read_cell(14, 30), before[14 * 80 + 30]);
    start_menu::toggle(&mut d.menu, &mut d.cur, &mut d.w);
    assert!(!start_menu::is_open(&d.menu));
    assert_eq!(snapshot(&d.w), before);
    start_menu::close(&mut d.menu, &mut d.cur, &mut d.w);
    assert_eq!(snapshot(&d.w), before);
}

#[test]
fn closing_a_menu_that_is_not_open_does_nothing() {
    let mut d = desk();
    d.cur = CursorState::new();
    d.cur.buttons = 1;
    let before = snapshot(&d.w);
    start_menu::close(&mut d.menu, &mut d.cur, &mut d.w);
    assert_eq!(snapshot(&d.w), before);
    assert!(!d.cur.has_saved);
    assert_eq!(d.cur.buttons, 1);
}

#[test]
fn opening_the_menu_leaves_the_cursor_where_it_is() {
    let mut d = desk();
    d.cur.buttons = 1;
    d.click(0, 24);
    assert!(start_menu::is_open(&d.menu));
    assert_eq!((d.cur.x, d.cur.y, d.cur.buttons), (5, 20, 1));
}

#[test]
fn clicks_on_the_taskbar_open_the_menu() {
    let mut d = desk();
    d.click(7, 24);
    d.click(6, 23);
    assert!(!start_menu::is_open(&d.menu));
    d.click(6, 24);
    assert!(start_menu::is_open(&d.menu));
}

#[test]
fn a_click_beside_the_menu_closes_it() {
    let mut d = desk();
    let before = snapshot(&d.w);
    d.click(0, 24);
    let consumed = start_menu::handle_click(
        &mut d.menu,
        &mut d.cur,
        &mut d.w,
        &mut d.browser,
        &None,
        30,
        14,
    );
    assert!(!consumed);
    assert!(!start_menu::is_open(&d.menu));
    assert_eq!(snapshot(&d.w), before);
}

#[test]
fn a_click_between_the_tiles_does_nothing() {
    let mut d = desk();
    d.click(0, 24);
    let open = snapshot(&d.w);
    d.click(15, 17);
    d.click(3, 14);
    assert!(start_menu::is_open(&d.menu));
    assert_eq!(snapshot(&d.w), open);
}

#[test]
fn tiles() {
    let cases = [
        (2u8, 16u8, "[menu] focusing console"),
        (13, 21, "[menu] `Info` is not yet wired"),
        (27, 19, "[menu] `Power` is not yet wired"),
    ];
    for (x, y, said) in cases {
        let mut d = desk();
        d.click(0, 24);
        d.click(x, y);
        assert!(!start_menu::is_open(&d.menu));
        assert_eq!(text(&d.w, 5, 1, 1 + said.len()), said);
        assert!(!aioc::browser::is_open(&d.browser));
    }
}

#[test]
fn the_browser_tile_opens_the_browser() {
    let mut d = desk();
    d.click(0, 24);
    d.click(16, 18);
    assert!(aioc::browser::is_open(&d.browser));
    assert!(!start_menu::is_open(&d.menu));
    assert_eq!(text(&d.w, 4, 1, 36), " URL http://10.0.2.2:8080/hello.txt");
}
