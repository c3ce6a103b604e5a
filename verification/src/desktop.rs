//! The desktop: the wallpaper strip, the terminal window around the shell, the
//! taskbar, and the splash screen at boot.
use vstd::prelude::*;
use vstd::utf8::{decode_utf8_encode_utf8, encode_utf8, valid_utf8};

use crate::drivers::rtc::{clock_text, DateTime};
use crate::text::{
    copy_range, decimal, lemma_decimal_ascii, lemma_decimal_len, pow10, push_decimal, utf8_text,
};
use crate::vfs::{path_text, Fs};
use crate::vga_buffer::{dotted, filled, glyph, lettered, on_screen, Color, ScreenChar, Writer};

verus! {

pub const WINDOW_TOP: usize = 1;

pub const WINDOW_HEIGHT: usize = 23;

pub const WINDOW_LEFT: usize = 0;

pub const WINDOW_WIDTH: usize = 80;

pub const TITLE_ROW: usize = 2;

pub const SEPARATOR_ROW: usize = 3;

pub const STATUS_ROW: usize = 22;

pub const BOTTOM_ROW: usize = 23;

pub const CONTENT_TOP: usize = 4;

pub const CONTENT_LEFT: usize = 1;

pub const CONTENT_HEIGHT: usize = 18;

pub const CONTENT_WIDTH: usize = 78;

pub const TASKBAR_ROW: usize = 24;

pub const DESKTOP_ROW: usize = 0;

pub const START_BTN_LEFT: usize = 0;

pub const START_BTN_RIGHT: usize = 6;

pub const BX_TL: u8 = 0xDA;

pub const BX_TR: u8 = 0xBF;

pub const BX_BL: u8 = 0xC0;

pub const BX_BR: u8 = 0xD9;

pub const BX_H: u8 = 0xC4;

pub const BX_V: u8 = 0xB3;

pub const BX_LSEP: u8 = 0xC3;

pub const BX_RSEP: u8 = 0xB4;

// ---------- The static chrome ----------

/// The wallpaper strip with its mark.
pub open spec fn wallpaper_cell(before: ScreenChar, r: int, c: int) -> ScreenChar {
    let strip = filled(before, r, c, 0, 0, 1, 80, glyph(0x20, Color::LightGray, Color::DarkGray));
    let a = dotted(strip, r, c, 0, 1, glyph(0xFE, Color::LightCyan, Color::DarkGray));
    let b = dotted(a, r, c, 0, 3, glyph(0x07, Color::LightCyan, Color::DarkGray));
    dotted(b, r, c, 0, 5, glyph(0xFE, Color::LightCyan, Color::DarkGray))
}

/// The window: its background, its border, the line under the title bar, the
/// title and the close button.
pub open spec fn window_cell(before: ScreenChar, r: int, c: int) -> ScreenChar {
    let line = glyph(BX_H, Color::Cyan, Color::Black);
    let side = glyph(BX_V, Color::Cyan, Color::Black);
    let back = filled(before, r, c, 1, 0, 23, 80, glyph(0x20, Color::LightGray, Color::Black));
    let top = filled(back, r, c, 1, 0, 1, 80, line);
    let bottom = filled(top, r, c, 23, 0, 1, 80, line);
    let left = filled(bottom, r, c, 2, 0, 21, 1, side);
    let right = filled(left, r, c, 2, 79, 21, 1, side);
    let tl = dotted(right, r, c, 1, 0, glyph(BX_TL, Color::Cyan, Color::Black));
    let tr = dotted(tl, r, c, 1, 79, glyph(BX_TR, Color::Cyan, Color::Black));
    let bl = dotted(tr, r, c, 23, 0, glyph(BX_BL, Color::Cyan, Color::Black));
    let br = dotted(bl, r, c, 23, 79, glyph(BX_BR, Color::Cyan, Color::Black));
    let mid = filled(br, r, c, 3, 0, 1, 80, line);
    let lsep = dotted(mid, r, c, 3, 0, glyph(BX_LSEP, Color::Cyan, Color::Black));
    let rsep = dotted(lsep, r, c, 3, 79, glyph(BX_RSEP, Color::Cyan, Color::Black));
    let dot = dotted(rsep, r, c, 2, 2, glyph(0x07, Color::LightCyan, Color::Black));
    let title = lettered(dot, r, c, 2, 4, encode_utf8("Console"@), Color::White, Color::Black);
    let open = lettered(title, r, c, 2, 75, encode_utf8("["@), Color::White, Color::Black);
    let cross = dotted(open, r, c, 2, 76, glyph(0x78, Color::LightRed, Color::Black));
    lettered(cross, r, c, 2, 77, encode_utf8("]"@), Color::White, Color::Black)
}

/// The taskbar: the start button and the button of the active task.
pub open spec fn taskbar_cell(before: ScreenChar, r: int, c: int) -> ScreenChar {
    let bar = filled(before, r, c, 24, 0, 1, 80, glyph(0x20, Color::LightGray, Color::Black));
    let start = filled(bar, r, c, 24, 0, 1, 7, glyph(0x20, Color::Black, Color::Cyan));
    let a = dotted(start, r, c, 24, 1, glyph(0xFE, Color::Black, Color::Cyan));
    let b = dotted(a, r, c, 24, 3, glyph(0x3d, Color::Black, Color::Cyan));
    let d = dotted(b, r, c, 24, 5, glyph(0xFE, Color::Black, Color::Cyan));
    let spacer = dotted(d, r, c, 24, 8, glyph(0xB3, Color::DarkGray, Color::Black));
    let task = filled(spacer, r, c, 24, 10, 1, 22, glyph(0x20, Color::White, Color::DarkGray));
    lettered(task, r, c, 24, 11, encode_utf8("> Console"@), Color::White, Color::DarkGray)
}

/// All that does not change while the desktop runs.
pub open spec fn chrome_cell(before: ScreenChar, r: int, c: int) -> ScreenChar {
    taskbar_cell(window_cell(wallpaper_cell(before, r, c), r, c), r, c)
}

fn paint_wallpaper(w: &mut Writer)
    ensures
        final(w)@.painted(old(w)@),
        forall|r: int, c: int| #![trigger final(w).at(r, c)]
            on_screen(r, c) ==> final(w).at(r, c) == wallpaper_cell(old(w).at(r, c), r, c),
{
    w.fill_rect(DESKTOP_ROW, 0, 1, 80, 0x20, Color::LightGray, Color::DarkGray);
    w.put_cell(DESKTOP_ROW, 1, 0xFE, Color::LightCyan, Color::DarkGray);
    w.put_cell(DESKTOP_ROW, 3, 0x07, Color::LightCyan, Color::DarkGray);
    w.put_cell(DESKTOP_ROW, 5, 0xFE, Color::LightCyan, Color::DarkGray);
}

fn paint_window(w: &mut Writer)
    ensures
        final(w)@.painted(old(w)@),
        forall|r: int, c: int| #![trigger final(w).at(r, c)]
            on_screen(r, c) ==> final(w).at(r, c) == window_cell(old(w).at(r, c), r, c),
{
    w.fill_rect(
        WINDOW_TOP,
        WINDOW_LEFT,
        WINDOW_HEIGHT,
        WINDOW_WIDTH,
        0x20,
        Color::LightGray,
        Color::Black,
    );
    w.fill_rect(WINDOW_TOP, WINDOW_LEFT, 1, WINDOW_WIDTH, BX_H, Color::Cyan, Color::Black);
    w.fill_rect(BOTTOM_ROW, WINDOW_LEFT, 1, WINDOW_WIDTH, BX_H, Color::Cyan, Color::Black);
    w.fill_rect(TITLE_ROW, WINDOW_LEFT, 21, 1, BX_V, Color::Cyan, Color::Black);
    w.fill_rect(TITLE_ROW, WINDOW_WIDTH - 1, 21, 1, BX_V, Color::Cyan, Color::Black);
    w.put_cell(WINDOW_TOP, WINDOW_LEFT, BX_TL, Color::Cyan, Color::Black);
    w.put_cell(WINDOW_TOP, WINDOW_WIDTH - 1, BX_TR, Color::Cyan, Color::Black);
    w.put_cell(BOTTOM_ROW, WINDOW_LEFT, BX_BL, Color::Cyan, Color::Black);
    w.put_cell(BOTTOM_ROW, WINDOW_WIDTH - 1, BX_BR, Color::Cyan, Color::Black);
    w.fill_rect(SEPARATOR_ROW, WINDOW_LEFT, 1, WINDOW_WIDTH, BX_H, Color::Cyan, Color::Black);
    w.put_cell(SEPARATOR_ROW, WINDOW_LEFT, BX_LSEP, Color::Cyan, Color::Black);
    w.put_cell(SEPARATOR_ROW, WINDOW_WIDTH - 1, BX_RSEP, Color::Cyan, Color::Black);
    w.put_cell(TITLE_ROW, WINDOW_LEFT + 2, 0x07, Color::LightCyan, Color::Black);
    w.write_at(TITLE_ROW, WINDOW_LEFT + 4, "Console", Color::White, Color::Black);
    w.write_at(TITLE_ROW, WINDOW_WIDTH - 5, "[", Color::White, Color::Black);
    w.put_cell(TITLE_ROW, WINDOW_WIDTH - 4, 0x78, Color::LightRed, Color::Black);
    w.write_at(TITLE_ROW, WINDOW_WIDTH - 3, "]", Color::White, Color::Black);
}

fn paint_taskbar(w: &mut Writer)
    ensures
        final(w)@.painted(old(w)@),
        forall|r: int, c: int| #![trigger final(w).at(r, c)]
            on_screen(r, c) ==> final(w).at(r, c) == taskbar_cell(old(w).at(r, c), r, c),
{
    w.fill_rect(TASKBAR_ROW, 0, 1, 80, 0x20, Color::LightGray, Color::Black);
    w.fill_rect(TASKBAR_ROW, START_BTN_LEFT, 1, 7, 0x20, Color::Black, Color::Cyan);
    w.put_cell(TASKBAR_ROW, 1, 0xFE, Color::Black, Color::Cyan);
    w.put_cell(TASKBAR_ROW, 3, 0x3d, Color::Black, Color::Cyan);
    w.put_cell(TASKBAR_ROW, 5, 0xFE, Color::Black, Color::Cyan);
    w.put_cell(TASKBAR_ROW, 8, 0xB3, Color::DarkGray, Color::Black);
    w.fill_rect(TASKBAR_ROW, 10, 1, 22, 0x20, Color::White, Color::DarkGray);
    w.write_at(TASKBAR_ROW, 11, "> Console", Color::White, Color::DarkGray);
}

// ---------- What changes ----------

/// The clock at the right end of the taskbar, with a mark in front of it.
pub open spec fn clock_cell(before: ScreenChar, r: int, c: int, now: DateTime) -> ScreenChar {
    let bytes = encode_utf8(clock_text(now));
    let col = 78 - bytes.len();
    let a = filled(before, r, c, 24, 56, 1, 22, glyph(0x20, Color::LightGray, Color::Black));
    let b = lettered(a, r, c, 24, col, bytes, Color::LightCyan, Color::Black);
    dotted(b, r, c, 24, col - 2, glyph(0xF8, Color::LightCyan, Color::Black))
}

/// The time of day is ASCII and has between 8 and 11 characters.
proof fn lemma_clock_len(now: DateTime)
    ensures
        8 <= encode_utf8(clock_text(now)).len() <= 11,
{
    reveal_with_fuel(pow10, 4);
    lemma_decimal_len(now.hour as nat, 3);
    lemma_decimal_len(now.minute as nat, 3);
    lemma_decimal_len(now.second as nat, 3);
    lemma_decimal_ascii(now.hour as nat);
    lemma_decimal_ascii(now.minute as nat);
    lemma_decimal_ascii(now.second as nat);
    let text = clock_text(now);
    assert(vstd::utf8::is_ascii_chars(text));
    vstd::utf8::is_ascii_chars_encode_utf8(text);
}

/// Repaints the clock.
pub fn paint_clock(w: &mut Writer, now: &DateTime)
    ensures
        final(w)@.painted(old(w)@),
        forall|r: int, c: int| #![trigger final(w).at(r, c)]
            on_screen(r, c) ==> final(w).at(r, c) == clock_cell(old(w).at(r, c), r, c, *now),
{
    let s = fmt_clock(now);
    proof {
        lemma_clock_len(*now);
    }
    let col: usize = 80 - s.as_str().as_bytes().len() - 2;
    w.fill_rect(TASKBAR_ROW, 56, 1, 22, 0x20, Color::LightGray, Color::Black);
    w.write_at(TASKBAR_ROW, col, s.as_str(), Color::LightCyan, Color::Black);
    w.put_cell(TASKBAR_ROW, col - 2, 0xF8, Color::LightCyan, Color::Black);
}

/// The time of day, two digits each for hours, minutes and seconds.
fn fmt_clock(now: &DateTime) -> (r: String)
    ensures
        r@ == clock_text(*now),
{
    now.clock()
}

/// The first `n` bytes, or all of them where there are fewer.
pub open spec fn clipped(bytes: Seq<u8>, n: int) -> Seq<u8> {
    if bytes.len() > n {
        bytes.take(n)
    } else {
        bytes
    }
}

fn clip(bytes: &[u8], n: usize) -> (r: Vec<u8>)
    ensures
        r@ == clipped(bytes@, n as int),
{
    let to: usize = if bytes.len() > n {
        n
    } else {
        bytes.len()
    };
    let r = copy_range(bytes, 0, to);
    assert(r@ =~= clipped(bytes@, n as int));
    r
}

/// The text of the memory in use, in kibibytes.
pub open spec fn tray_text(used: nat) -> Seq<char> {
    decimal(used / 1024).push('K')
}

fn fmt_tray(used_kib: usize) -> (r: String)
    ensures
        r@ == decimal(used_kib as nat).push('K'),
{
    let mut s = String::new();
    push_decimal(&mut s, used_kib as u64);
    s.push('K');
    assert(s@ =~= decimal(used_kib as nat).push('K'));
    s
}

/// The tray between the task button and the clock, with `used` bytes of the heap
/// in use. The number is clipped at the end of the tray.
pub open spec fn tray_cell(before: ScreenChar, r: int, c: int, used: nat) -> ScreenChar {
    let back = filled(before, r, c, 24, 36, 1, 20, glyph(0x20, Color::LightGray, Color::Black));
    let left = dotted(back, r, c, 24, 36, glyph(0xB3, Color::DarkGray, Color::Black));
    let mem = dotted(left, r, c, 24, 38, glyph(0xFE, Color::LightGray, Color::Black));
    let text = lettered(
        mem,
        r,
        c,
        24,
        40,
        clipped(encode_utf8(tray_text(used)), 16),
        Color::LightGray,
        Color::Black,
    );
    let rtc = dotted(text, r, c, 24, 50, glyph(0xF8, Color::LightGray, Color::Black));
    let name = lettered(rtc, r, c, 24, 52, encode_utf8("RTC"@), Color::LightGray, Color::Black);
    dotted(name, r, c, 24, 55, glyph(0xB3, Color::DarkGray, Color::Black))
}

/// Repaints the tray, with `used` bytes of the heap in use.
pub fn paint_tray(w: &mut Writer, used: usize)
    ensures
        final(w)@.painted(old(w)@),
        forall|r: int, c: int| #![trigger final(w).at(r, c)]
            on_screen(r, c) ==> final(w).at(r, c) == tray_cell(
                old(w).at(r, c),
                r,
                c,
                used as nat,
            ),
{
    let s = fmt_tray(used / 1024);
    let number = clip(s.as_str().as_bytes(), 16);
    w.fill_rect(TASKBAR_ROW, 36, 1, 20, 0x20, Color::LightGray, Color::Black);
    w.put_cell(TASKBAR_ROW, 36, 0xB3, Color::DarkGray, Color::Black);
    w.put_cell(TASKBAR_ROW, 38, 0xFE, Color::LightGray, Color::Black);
    w.write_bytes_at(TASKBAR_ROW, 40, number.as_slice(), Color::LightGray, Color::Black);
    w.put_cell(TASKBAR_ROW, 50, 0xF8, Color::LightGray, Color::Black);
    w.write_at(TASKBAR_ROW, 52, "RTC", Color::LightGray, Color::Black);
    w.put_cell(TASKBAR_ROW, 55, 0xB3, Color::DarkGray, Color::Black);
}

/// The text of the working directory: its first 64 bytes, or a question mark where
/// those end in the middle of a character.
pub open spec fn cwd_bytes(path: Seq<char>) -> Seq<u8> {
    let cut = clipped(encode_utf8(path), 64);
    if valid_utf8(cut) {
        cut
    } else {
        encode_utf8("?"@)
    }
}

/// The status bar of the window, with the text of the working directory, clipped
/// in front of the window's right border.
pub open spec fn status_bar_cell(
    before: ScreenChar,
    r: int,
    c: int,
    path: Seq<char>,
) -> ScreenChar {
    let back = filled(
        before,
        r,
        c,
        22,
        1,
        1,
        78,
        glyph(0x20, Color::LightGray, Color::DarkGray),
    );
    let dot = dotted(back, r, c, 22, 2, glyph(0x07, Color::LightCyan, Color::DarkGray));
    let ready = lettered(
        dot,
        r,
        c,
        22,
        4,
        encode_utf8("ready"@),
        Color::LightGray,
        Color::DarkGray,
    );
    let bar = dotted(ready, r, c, 22, 11, glyph(BX_V, Color::DarkGray, Color::DarkGray));
    let label = lettered(
        bar,
        r,
        c,
        22,
        13,
        encode_utf8("cwd:"@),
        Color::LightCyan,
        Color::DarkGray,
    );
    lettered(
        label,
        r,
        c,
        22,
        18,
        clipped(cwd_bytes(path), 61),
        Color::LightGray,
        Color::DarkGray,
    )
}

/// Repaints the status bar with the working directory of the filesystem.
pub fn paint_status_bar(w: &mut Writer, fs: &Fs)
    ensures
        final(w)@.painted(old(w)@),
        forall|r: int, c: int| #![trigger final(w).at(r, c)]
            on_screen(r, c) ==> final(w).at(r, c) == status_bar_cell(
                old(w).at(r, c),
                r,
                c,
                path_text(fs@.cwd),
            ),
{
    let cwd = fs.pwd();
    w.fill_rect(
        STATUS_ROW,
        WINDOW_LEFT + 1,
        1,
        WINDOW_WIDTH - 2,
        0x20,
        Color::LightGray,
        Color::DarkGray,
    );
    w.put_cell(STATUS_ROW, WINDOW_LEFT + 2, 0x07, Color::LightCyan, Color::DarkGray);
    w.write_at(STATUS_ROW, WINDOW_LEFT + 4, "ready", Color::LightGray, Color::DarkGray);
    w.put_cell(STATUS_ROW, WINDOW_LEFT + 11, BX_V, Color::DarkGray, Color::DarkGray);
    w.write_at(STATUS_ROW, WINDOW_LEFT + 13, "cwd:", Color::LightCyan, Color::DarkGray);
    let cut = clip(cwd.as_str().as_bytes(), 64);
    let text = match utf8_text(cut.as_slice()) {
        Some(text) => {
            proof {
                decode_utf8_encode_utf8(cut@);
            }
            text
        },
        None => "?".to_owned(),
    };
    let shown = clip(text.as_str().as_bytes(), 61);
    w.write_bytes_at(
        STATUS_ROW,
        WINDOW_LEFT + 18,
        shown.as_slice(),
        Color::LightGray,
        Color::DarkGray,
    );
}

/// The whole desktop.
pub open spec fn desktop_cell(
    before: ScreenChar,
    r: int,
    c: int,
    path: Seq<char>,
    used: nat,
    now: DateTime,
) -> ScreenChar {
    let a = chrome_cell(before, r, c);
    let b = status_bar_cell(a, r, c, path);
    let d = tray_cell(b, r, c, used);
    clock_cell(d, r, c, now)
}

/// Paints the whole desktop.
pub fn paint(w: &mut Writer, fs: &Fs, used: usize, now: &DateTime)
    ensures
        final(w)@.painted(old(w)@),
        forall|r: int, c: int| #![trigger final(w).at(r, c)]
            on_screen(r, c) ==> final(w).at(r, c) == desktop_cell(
                old(w).at(r, c),
                r,
                c,
                path_text(fs@.cwd),
                used as nat,
                *now,
            ),
{
    paint_wallpaper(w);
    paint_window(w);
    paint_taskbar(w);
    paint_status_bar(w, fs);
    paint_tray(w, used);
    paint_clock(w, now);
}

// ---------- The splash screen ----------

/// The splash screen before anything is loaded: nested squares, a line of text,
/// and an empty bar.
pub open spec fn splash_cell(before: ScreenChar, r: int, c: int) -> ScreenChar {
    let block = glyph(0xDB, Color::LightCyan, Color::Black);
    let back = filled(before, r, c, 0, 0, 25, 80, glyph(0x20, Color::LightGray, Color::Black));
    let top = filled(back, r, c, 7, 30, 1, 27, block);
    let bottom = filled(top, r, c, 11, 30, 1, 27, block);
    let left = filled(bottom, r, c, 8, 30, 3, 1, block);
    let right = filled(left, r, c, 8, 56, 3, 1, block);
    let inner = filled(right, r, c, 9, 36, 1, 15, block);
    let text = lettered(
        inner,
        r,
        c,
        13,
        20,
        encode_utf8("an experiment in writing your own world"@),
        Color::DarkGray,
        Color::Black,
    );
    filled(text, r, c, 16, 20, 1, 40, glyph(0x20, Color::Cyan, Color::DarkGray))
}

fn paint_splash_static(w: &mut Writer)
    ensures
        final(w)@.painted(old(w)@),
        forall|r: int, c: int| #![trigger final(w).at(r, c)]
            on_screen(r, c) ==> final(w).at(r, c) == splash_cell(old(w).at(r, c), r, c),
{
    w.fill_rect(0, 0, 25, 80, 0x20, Color::LightGray, Color::Black);
    w.fill_rect(7, 30, 1, 27, 0xDB, Color::LightCyan, Color::Black);
    w.fill_rect(11, 30, 1, 27, 0xDB, Color::LightCyan, Color::Black);
    w.fill_rect(8, 30, 3, 1, 0xDB, Color::LightCyan, Color::Black);
    w.fill_rect(8, 56, 3, 1, 0xDB, Color::LightCyan, Color::Black);
    w.fill_rect(9, 36, 1, 15, 0xDB, Color::LightCyan, Color::Black);
    w.write_at(
        13,
        20,
        "an experiment in writing your own world",
        Color::DarkGray,
        Color::Black,
    );
    w.fill_rect(16, 20, 1, 40, 0x20, Color::Cyan, Color::DarkGray);
}

/// The bar and the percentage after `frame` of 24 steps.
pub open spec fn progress_cell(before: ScreenChar, r: int, c: int, frame: nat) -> ScreenChar {
    let bar = filled(
        before,
        r,
        c,
        16,
        20,
        1,
        (40 * frame / 24) as int,
        glyph(0x20, Color::Black, Color::LightCyan),
    );
    let bytes = encode_utf8(decimal(100 * frame / 24).push('%'));
    let back = filled(bar, r, c, 17, 20, 1, 40, glyph(0x20, Color::DarkGray, Color::Black));
    lettered(back, r, c, 17, 60 - bytes.len(), bytes, Color::LightCyan, Color::Black)
}

fn paint_splash_progress(w: &mut Writer, frame: u64)
    requires
        frame <= 24,
    ensures
        final(w)@.painted(old(w)@),
        forall|r: int, c: int| #![trigger final(w).at(r, c)]
            on_screen(r, c) ==> final(w).at(r, c) == progress_cell(
                old(w).at(r, c),
                r,
                c,
                frame as nat,
            ),
{
    let bar: usize = (40 * frame / 24) as usize;
    w.fill_rect(16, 20, 1, bar, 0x20, Color::Black, Color::LightCyan);
    let mut s = String::new();
    push_decimal(&mut s, 100 * frame / 24);
    s.push('%');
    proof {
        let pct = (100 * frame / 24) as nat;
        assert(s@ =~= decimal(pct).push('%'));
        reveal_with_fuel(pow10, 4);
        lemma_decimal_len(pct, 3);
        lemma_decimal_ascii(pct);
        assert(vstd::utf8::is_ascii_chars(s@));
        vstd::utf8::is_ascii_chars_encode_utf8(s@);
    }
    w.fill_rect(17, 20, 1, 40, 0x20, Color::DarkGray, Color::Black);
    w.write_at(
        17,
        60 - s.as_str().as_bytes().len(),
        s.as_str(),
        Color::LightCyan,
        Color::Black,
    );
}

/// Paints one frame of the splash screen: frame 0 is the screen without
/// progress, frames 1 to 24 move the bar. Returns how many milliseconds to wait
/// before the next frame, or nothing after the last.
pub fn run_splash(w: &mut Writer, frame: u64, total_ms: u64) -> (r: Option<u64>)
    requires
        frame <= 24,
    ensures
        final(w)@.painted(old(w)@),
        forall|r: int, c: int| #![trigger final(w).at(r, c)]
            on_screen(r, c) ==> final(w).at(r, c) == if frame == 0 {
                splash_cell(old(w).at(r, c), r, c)
            } else {
                progress_cell(old(w).at(r, c), r, c, frame as nat)
            },
        r == if frame < 24 {
            Some((total_ms / 24) as u64)
        } else {
            None::<u64>
        },
{
    if frame == 0 {
        paint_splash_static(w);
    } else {
        paint_splash_progress(w, frame);
    }
    if frame < 24 {
        Some(total_ms / 24)
    } else {
        None
    }
}

/// Whether a delay of `ms` milliseconds that began at tick `start` is over at
/// tick `now`. A tick is ten milliseconds, and the count of ticks wraps around.
pub fn delay_ms(start: u64, now: u64, ms: u64) -> (r: bool)
    requires
        ms + 9 <= u64::MAX,
    ensures
        r == ((now - start) % 0x1_0000_0000_0000_0000 >= (ms + 9) / 10),
        now >= start ==> r == (10 * (now - start) >= ms),
{
    let target_ticks: u64 = (ms + 9) / 10;
    !(now.wrapping_sub(start) < target_ticks)
}

// ---------- Laws ----------

/// The status bar, the tray and the clock each stay within their own slot, and no
/// two of the slots overlap: a repaint of one leaves every cell outside of it as
/// it was.
pub proof fn law_slots_apart(
    before: ScreenChar,
    r: int,
    c: int,
    path: Seq<char>,
    used: nat,
    now: DateTime,
)
    requires
        on_screen(r, c),
    ensures
        !(r == 22 && 1 <= c <= 78) ==> status_bar_cell(before, r, c, path) == before,
        !(r == 24 && 36 <= c <= 55) ==> tray_cell(before, r, c, used) == before,
        !(r == 24 && 56 <= c <= 77) ==> clock_cell(before, r, c, now) == before,
{
    reveal_strlit("ready");
    reveal_strlit("cwd:");
    reveal_strlit("RTC");
    vstd::utf8::is_ascii_chars_encode_utf8("ready"@);
    vstd::utf8::is_ascii_chars_encode_utf8("cwd:"@);
    vstd::utf8::is_ascii_chars_encode_utf8("RTC"@);
    lemma_clock_len(now);
}

/// The desktop leaves nothing of what was on the screen before: it paints every
/// cell.
pub proof fn law_desktop_covers(
    a: ScreenChar,
    b: ScreenChar,
    r: int,
    c: int,
    path: Seq<char>,
    used: nat,
    now: DateTime,
)
    requires
        on_screen(r, c),
    ensures
        desktop_cell(a, r, c, path, used, now) == desktop_cell(b, r, c, path, used, now),
{
}

/// The clock shows the time of day in the eight cells that end two in front of the
/// screen's right edge.
pub proof fn law_clock_shown(before: ScreenChar, now: DateTime, i: int)
    requires
        now.hour < 24,
        now.minute < 60,
        now.second < 60,
        0 <= i < 8,
    ensures
        clock_cell(before, 24, 70 + i, now).ascii_character as int == clock_text(now)[i] as int,
        clock_cell(before, 24, 78, now) == before,
        clock_cell(before, 23, 70 + i, now) == before,
{
    crate::drivers::rtc::law_clock_read_back(now);
    let text = clock_text(now);
    assert(vstd::utf8::is_ascii_chars(text)) by {
        assert forall|k: int| 0 <= k < text.len() implies 0 <= #[trigger] text[k] as nat && (
        text[k] as nat) < 128 by {
            if k != 2 && k != 5 {
                assert('0' <= text[k] <= '9');
            }
        }
    }
    vstd::utf8::is_ascii_chars_encode_utf8(text);
    if i != 2 && i != 5 {
        assert('0' <= text[i] <= '9');
    }
}

/// The tray shows the kibibytes in use with a `K` behind them, where there are fewer
/// than a thousand million.
pub proof fn law_tray_shown(before: ScreenChar, used: nat, i: int)
    requires
        used < 1024 * 1_000_000_000,
        0 <= i < decimal(used / 1024).len(),
    ensures
        tray_cell(before, 24, 40 + i, used).ascii_character as int == decimal(used / 1024)[i] as int,
        tray_cell(before, 24, 40 + decimal(used / 1024).len() as int, used).ascii_character as int
            == 'K' as int,
        tray_cell(before, 24, 41 + decimal(used / 1024).len() as int, used).ascii_character == if decimal(
            used / 1024,
        ).len() < 9 {
            0x20u8
        } else {
            0xF8u8
        },
{
    let digits = decimal(used / 1024);
    let text = tray_text(used);
    reveal_with_fuel(pow10, 10);
    lemma_decimal_len(used / 1024, 9);
    lemma_decimal_ascii(used / 1024);
    assert('0' <= digits[i] <= '9');
    assert(vstd::utf8::is_ascii_chars(text));
    vstd::utf8::is_ascii_chars_encode_utf8(text);
    assert(text[i] == digits[i]);
    assert(text[digits.len() as int] == 'K');
    reveal_strlit("RTC");
    vstd::utf8::is_ascii_chars_encode_utf8("RTC"@);
}

/// The status bar shows the text of the working directory, as much of it as there is
/// room for, from column 18 on.
pub proof fn law_directory_shown(before: ScreenChar, path: Seq<char>, i: int)
    requires
        forall|k: int| 0 <= k < path.len() ==> ' ' <= #[trigger] path[k] <= '~',
        0 <= i < 61,
    ensures
        i < path.len() ==> status_bar_cell(before, 22, 18 + i, path).ascii_character as int
            == path[i] as int,
        i >= path.len() ==> status_bar_cell(before, 22, 18 + i, path).ascii_character == 0x20,
{
    assert(vstd::utf8::is_ascii_chars(path)) by {
        assert forall|k: int| 0 <= k < path.len() implies 0 <= #[trigger] path[k] as nat && (
        path[k] as nat) < 128 by {
            assert(' ' <= path[k] <= '~');
        }
    }
    let bytes = encode_utf8(path);
    vstd::utf8::is_ascii_chars_encode_utf8(path);
    let cut = clipped(bytes, 64);
    let start = if path.len() > 64 {
        path.take(64)
    } else {
        path
    };
    assert(vstd::utf8::is_ascii_chars(start)) by {
        assert forall|k: int| 0 <= k < start.len() implies 0 <= #[trigger] start[k] as nat && (
        start[k] as nat) < 128 by {
            assert(start[k] == path[k]);
        }
    }
    vstd::utf8::is_ascii_chars_encode_utf8(start);
    assert(encode_utf8(start) =~= cut);
    vstd::utf8::encode_utf8_valid_utf8(start);
    if i < path.len() {
        assert(' ' <= path[i] <= '~');
        assert(cut[i] as int == path[i] as int);
    }
    reveal_strlit("ready");
    reveal_strlit("cwd:");
    vstd::utf8::is_ascii_chars_encode_utf8("ready"@);
    vstd::utf8::is_ascii_chars_encode_utf8("cwd:"@);
}

/// After `frame` of 24 steps as much of the bar is filled as of the work is done, in
/// whole cells: none at first, all forty at the end. Below it stands the percentage,
/// in whole percents.
pub proof fn law_progress(before: ScreenChar, frame: nat, i: int)
    requires
        frame <= 24,
        0 <= i < 40,
    ensures
        ({
            let full = glyph(0x20, Color::Black, Color::LightCyan);
            &&& 24 * (i + 1) <= 40 * frame ==> progress_cell(before, 16, 20 + i, frame) == full
            &&& 24 * (i + 1) > 40 * frame ==> progress_cell(before, 16, 20 + i, frame) == before
        }),
        ({
            let percent = (100 * frame / 24) as nat;
            let k = decimal(percent).len() as int;
            &&& 24 * percent <= 100 * frame < 24 * (percent + 1)
            &&& progress_cell(before, 17, 59, frame).ascii_character as int == '%' as int
            &&& forall|j: int|
                0 <= j < k ==> (#[trigger] progress_cell(
                    before,
                    17,
                    59 - k + j,
                    frame,
                )).ascii_character as int == decimal(percent)[j] as int
        }),
{
    let percent = (100 * frame / 24) as nat;
    let digits = decimal(percent);
    let text = digits.push('%');
    lemma_decimal_ascii(percent);
    reveal_with_fuel(pow10, 4);
    lemma_decimal_len(percent, 3);
    assert(vstd::utf8::is_ascii_chars(text));
    vstd::utf8::is_ascii_chars_encode_utf8(text);
    let k = digits.len() as int;
    assert(text[k] == '%');
    assert forall|j: int| 0 <= j < k implies (#[trigger] progress_cell(
        before,
        17,
        59 - k + j,
        frame,
    )).ascii_character as int == digits[j] as int by {
        assert(text[j] == digits[j]);
        assert('0' <= digits[j] <= '9');
    }
}

} // verus!
