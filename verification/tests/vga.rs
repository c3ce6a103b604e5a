use aioc::vga_buffer::{self, Buffer, Color, ColorCode, Writer};
use volatile::Volatile;

fn writer() -> Writer {
    let buffer: Box<Buffer> =
        Box::new(std::array::from_fn(|_| std::array::from_fn(|_| Volatile::new(0x0720u16))));
    Writer::new(buffer)
}

fn row(w: &Writer, row: usize) -> String {
    (0..80).map(|c| w.read_cell(row, c).0 as char).collect()
}

fn snapshot(w: &Writer) -> Vec<(u8, ColorCode)> {
    (0..25).flat_map(|r| (0..80).map(move |c| (r, c))).map(|(r, c)| w.read_cell(r, c)).collect()
}

#[test]
fn color_codes() {
    assert_eq!(ColorCode::new(Color::White, Color::Blue).raw(), 0x1F);
    assert_eq!(ColorCode::new(Color::Yellow, Color::Black).raw(), 0x0E);
    assert_eq!(Color::Pink.number(), 13);
    assert_eq!(ColorCode::from_raw(0x1F).invert().raw(), 0xF1);
    for raw in 0..=255u8 {
        assert_eq!(ColorCode::from_raw(raw).invert().invert(), ColorCode::from_raw(raw));
    }
}

#[test]
fn a_cell_is_one_word_of_the_screen() {
    let buffer: Box<Buffer> = Box::new(std::array::from_fn(|r| {
        std::array::from_fn(|c| Volatile::new(if (r, c) == (3, 7) { 0x1F41u16 } else { 0x0720 }))
    }));
    let w = Writer::new(buffer);
    assert_eq!(w.read_cell(3, 7), (0x41, ColorCode::new(Color::White, Color::Blue)));
    assert_eq!(w.read_cell(3, 8), (0x20, ColorCode::new(Color::LightGray, Color::Black)));
}

#[test]
fn printing_wraps_and_substitutes() {
    let mut w = writer();
    w.set_region(2, 3, 4, 4);
    w.write_string("abcdef\n\u{e9}~\t");
    assert_eq!(&row(&w, 2)[3..7], "abcd");
    assert_eq!(&row(&w, 3)[3..7], "ef  ");
    let third: Vec<u8> = (3..7).map(|c| w.read_cell(4, c).0).collect();
    assert_eq!(third, vec![0xfe, 0xfe, b'~', 0xfe]);
    assert_eq!(w.read_cell(2, 3).1, ColorCode::new(Color::Yellow, Color::Black));
    assert_eq!(w.read_cell(2, 7), (0x20, ColorCode::from_raw(0x07)));
}

#[test]
fn a_full_row_breaks_the_line() {
    let mut w = writer();
    w.set_region(0, 0, 4, 3);
    w.write_string("abcd");
    w.backspace();
    assert_eq!(&row(&w, 0)[..4], "abcd");
    w.write_string("e");
    assert_eq!(&row(&w, 1)[..4], "e   ");
    w.write_string("fgh\n");
    assert_eq!(&row(&w, 0)[..4], "efgh");
    assert_eq!(&row(&w, 1)[..4], "    ");
    w.write_string("i");
    assert_eq!(&row(&w, 2)[..4], "i   ");
}

#[test]
fn a_region_of_one_column() {
    let mut w = writer();
    w.set_region(0, 5, 1, 3);
    w.write_string("ab");
    let column: Vec<u8> = (0..3).map(|r| w.read_cell(r, 5).0).collect();
    assert_eq!(column, b"ab ");
    w.write_string("cd");
    let column: Vec<u8> = (0..3).map(|r| w.read_cell(r, 5).0).collect();
    assert_eq!(column, b"cd ");
    assert_eq!(w.read_cell(0, 6), (0x20, ColorCode::from_raw(0x07)));
}

#[test]
fn scrolling_stays_in_the_region() {
    let mut w = writer();
    w.put_cell(0, 0, b'#', Color::Red, Color::Black);
    w.put_cell(3, 0, b'#', Color::Red, Color::Black);
    w.set_region(1, 0, 6, 2);
    w.write_string("one\ntwo\nthree");
    assert_eq!(&row(&w, 1)[..5], "two  ");
    assert_eq!(&row(&w, 2)[..5], "three");
    assert_eq!(w.read_cell(0, 0), (b'#', ColorCode::new(Color::Red, Color::Black)));
    assert_eq!(w.read_cell(3, 0), (b'#', ColorCode::new(Color::Red, Color::Black)));
    assert_eq!(w.read_cell(1, 6), (0x20, ColorCode::from_raw(0x07)));
}

#[test]
fn printing_twice_is_printing_the_whole() {
    let mut a = writer();
    let mut b = writer();
    for w in [&mut a, &mut b] {
        w.set_region(4, 1, 78, 18);
    }
    a.write_string("hello\n");
    a.write_string("world");
    b.write_string("hello\nworld");
    assert_eq!(snapshot(&a), snapshot(&b));
}

#[test]
fn backspace_takes_a_character_back() {
    let mut w = writer();
    w.write_string("ab");
    let before = snapshot(&w);
    w.write_string(" ");
    w.backspace();
    w.write_string("c");
    w.backspace();
    assert_eq!(w.read_cell(0, 2), (0x20, ColorCode::new(Color::Yellow, Color::Black)));
    let mut after = snapshot(&w);
    after[2] = before[2];
    assert_eq!(after, before);
    w.write_string("\n");
    w.backspace();
    w.write_string("x");
    assert_eq!(w.read_cell(1, 0).0, b'x');
}

#[test]
fn clearing_leaves_the_cursor_at_the_bottom_left() {
    let mut w = writer();
    w.put_cell(0, 0, b'#', Color::Red, Color::Black);
    w.set_region(1, 1, 10, 3);
    w.write_string("abc\ndef");
    w.clear_screen();
    for r in 1..4 {
        assert_eq!(&row(&w, r)[1..11], "          ");
        assert_eq!(w.read_cell(r, 1).1, ColorCode::new(Color::Yellow, Color::Black));
    }
    assert_eq!(w.read_cell(0, 0).0, b'#');
    w.write_string("x");
    assert_eq!(w.read_cell(3, 1).0, b'x');
}

#[test]
fn colors_of_the_writer() {
    let mut w = writer();
    w.set_color(Color::White, Color::Blue);
    w.write_byte(b'A');
    assert_eq!(w.read_cell(0, 0), (b'A', ColorCode::new(Color::White, Color::Blue)));
    w.write_byte(0xB3);
    assert_eq!(w.read_cell(0, 1).0, 0xB3);
    w.write_byte(b'\n');
    w.write_byte(b'B');
    assert_eq!(w.read_cell(1, 0).0, b'B');
}

#[test]
fn cells_outside_the_screen_are_skipped() {
    let mut w = writer();
    let before = snapshot(&w);
    w.put_cell(25, 0, b'x', Color::White, Color::Black);
    w.put_cell(0, 80, b'x', Color::White, Color::Black);
    w.put_cell_raw(30, 90, b'x', ColorCode::from_raw(1));
    w.write_at(25, 0, "abc", Color::White, Color::Black);
    w.fill_rect(25, 80, 4, 4, b'x', Color::White, Color::Black);
    w.draw_box(3, 3, 1, 9, Color::White, Color::Black);
    w.draw_hsep(25, 0, 10, Color::White, Color::Black);
    assert_eq!(snapshot(&w), before);
    w.fill_rect(24, 79, usize::MAX, usize::MAX, b'x', Color::White, Color::Black);
    assert_eq!(w.read_cell(24, 79).0, b'x');
    assert_eq!(w.read_cell(24, 78).0, b' ');
}

#[test]
fn texts_are_clipped_at_the_right_edge() {
    let mut w = writer();
    w.write_at(5, 78, "a\u{7f}c", Color::Green, Color::Black);
    assert_eq!(w.read_cell(5, 78).0, b'a');
    assert_eq!(w.read_cell(5, 79).0, 0xfe);
    assert_eq!(w.read_cell(6, 0).0, b' ');
    w.write_bytes_at(6, 79, b"zz", Color::Green, Color::Black);
    assert_eq!(w.read_cell(6, 79).0, b'z');
}

#[test]
fn boxes_have_single_lines() {
    let mut w = writer();
    w.write_at(3, 4, "in", Color::White, Color::Black);
    w.draw_box(2, 3, 3, 4, Color::Cyan, Color::Black);
    let shape: Vec<Vec<u8>> =
        (2..5).map(|r| (3..7).map(|c| w.read_cell(r, c).0).collect()).collect();
    assert_eq!(shape[0], vec![0xDA, 0xC4, 0xC4, 0xBF]);
    assert_eq!(shape[1], vec![0xB3, b'i', b'n', 0xB3]);
    assert_eq!(shape[2], vec![0xC0, 0xC4, 0xC4, 0xD9]);
}

#[test]
fn dividers() {
    let mut w = writer();
    w.draw_hsep(7, 1, 4, Color::Cyan, Color::Black);
    let cells: Vec<u8> = (0..6).map(|c| w.read_cell(7, c).0).collect();
    assert_eq!(cells, vec![b' ', 0xCC, 0xCD, 0xCD, 0xB9, b' ']);
}

#[test]
fn functions_on_the_screen() {
    let mut w = writer();
    vga_buffer::set_region(&mut w, 1, 1, 5, 2);
    vga_buffer::set_color(&mut w, Color::Green, Color::Black);
    vga_buffer::_print(&mut w, "hey");
    vga_buffer::backspace(&mut w);
    assert_eq!(&row(&w, 1)[..5], " he  ");
    assert_eq!(w.read_cell(1, 1).1, ColorCode::new(Color::Green, Color::Black));
    vga_buffer::clear_screen(&mut w);
    assert_eq!(&row(&w, 1)[..5], "     ");
    vga_buffer::reset_region(&mut w);
    vga_buffer::_print(&mut w, "top");
    assert_eq!(&row(&w, 0)[..5], "top  ");
}
