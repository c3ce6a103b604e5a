//! The start menu: a panel of tiles above the taskbar.
//!
//! Opening it keeps the cells under the panel aside and closing it puts them
//! back. The mouse cursor is lifted while the panel is painted, so that it never
//! becomes part of the picture.
use vstd::prelude::*;
use vstd::utf8::encode_utf8;

use crate::browser::{self, Browser, BrowserModel};
use crate::net::{model_of, Stack};
use crate::task::mouse::{
    cursor_over, drawn_over, lift_cursor, restore_cursor, underlying, CursorState,
};
use crate::text::{same_text, trim, trimmed};
use crate::vga_buffer::{
    dotted, filled, glyph, lettered, on_screen, Color, ColorCode, ScreenChar, Writer, WriterModel,
};

verus! {

pub const MENU_TOP: usize = 14;

pub const MENU_LEFT: usize = 0;

pub const MENU_HEIGHT: usize = 10;

pub const MENU_WIDTH: usize = 30;

pub const TILE_W: usize = 12;

pub const TILE_H: usize = 3;

/// A tile: its label, its picture, and its colour.
pub struct Tile {
    pub label: &'static str,
    pub icon: &'static str,
    pub bg: Color,
}

/// The tile with that number: two rows of two.
pub open spec fn tile_of(i: int) -> (Seq<char>, Seq<char>, Color) {
    if i == 0 {
        ("Console"@, ">_"@, Color::Blue)
    } else if i == 1 {
        ("Browser"@, "www"@, Color::Green)
    } else if i == 2 {
        (" Info  "@, "(i)"@, Color::Magenta)
    } else {
        (" Power "@, "(o)"@, Color::Red)
    }
}

/// The row of the tile with that number.
pub open spec fn tile_row(i: int) -> int {
    if i < 2 {
        16
    } else {
        19
    }
}

/// The column of the tile with that number.
pub open spec fn tile_col(i: int) -> int {
    if i % 2 == 0 {
        2
    } else {
        16
    }
}

fn tile(i: usize) -> (r: Tile)
    requires
        i < 4,
    ensures
        r.label@ == tile_of(i as int).0,
        r.icon@ == tile_of(i as int).1,
        r.bg == tile_of(i as int).2,
        encode_utf8(r.label@).len() == 7,
        2 <= encode_utf8(r.icon@).len() <= 3,
{
    proof {
        reveal_strlit("Console");
        reveal_strlit("Browser");
        reveal_strlit(" Info  ");
        reveal_strlit(" Power ");
        reveal_strlit(">_");
        reveal_strlit("www");
        reveal_strlit("(i)");
        reveal_strlit("(o)");
        vstd::utf8::is_ascii_chars_encode_utf8("Console"@);
        vstd::utf8::is_ascii_chars_encode_utf8("Browser"@);
        vstd::utf8::is_ascii_chars_encode_utf8(" Info  "@);
        vstd::utf8::is_ascii_chars_encode_utf8(" Power "@);
        vstd::utf8::is_ascii_chars_encode_utf8(">_"@);
        vstd::utf8::is_ascii_chars_encode_utf8("www"@);
        vstd::utf8::is_ascii_chars_encode_utf8("(i)"@);
        vstd::utf8::is_ascii_chars_encode_utf8("(o)"@);
    }
    if i == 0 {
        Tile { label: "Console", icon: ">_", bg: Color::Blue }
    } else if i == 1 {
        Tile { label: "Browser", icon: "www", bg: Color::Green }
    } else if i == 2 {
        Tile { label: " Info  ", icon: "(i)", bg: Color::Magenta }
    } else {
        Tile { label: " Power ", icon: "(o)", bg: Color::Red }
    }
}

// ---------- Painting ----------

/// The cell at (`r`, `c`), which was `before`, once tile `i` was painted.
pub open spec fn tile_cell(before: ScreenChar, r: int, c: int, i: int) -> ScreenChar {
    let (label, icon, bg) = tile_of(i);
    let row = tile_row(i);
    let col = tile_col(i);
    let a = filled(before, r, c, row, col, 3, 12, glyph(0x20, Color::White, bg));
    let b = filled(a, r, c, row, col, 1, 12, glyph(0xDC, Color::White, bg));
    let icon_bytes = encode_utf8(icon);
    let label_bytes = encode_utf8(label);
    let d = lettered(
        b,
        r,
        c,
        row + 1,
        col + (12 - icon_bytes.len()) / 2,
        icon_bytes,
        Color::White,
        bg,
    );
    lettered(d, r, c, row + 2, col + (12 - label_bytes.len()) / 2, label_bytes, Color::White, bg)
}

/// The cell at (`r`, `c`), which was `before`, once the menu was painted.
pub open spec fn menu_cell(before: ScreenChar, r: int, c: int) -> ScreenChar {
    let slab = filled(before, r, c, 14, 0, 10, 30, glyph(0x20, Color::LightGray, Color::Black));
    let right = filled(slab, r, c, 14, 29, 10, 1, glyph(0xB3, Color::Cyan, Color::Black));
    let bottom = filled(right, r, c, 23, 0, 1, 30, glyph(0xC4, Color::Cyan, Color::Black));
    let corner = dotted(bottom, r, c, 23, 29, glyph(0xD9, Color::Cyan, Color::Black));
    let header = filled(corner, r, c, 14, 0, 1, 29, glyph(0x20, Color::Black, Color::Cyan));
    let mark = dotted(header, r, c, 14, 1, glyph(0xFE, Color::Black, Color::Cyan));
    let title = lettered(mark, r, c, 14, 3, encode_utf8("system"@), Color::Black, Color::Cyan);
    let t0 = tile_cell(title, r, c, 0);
    let t1 = tile_cell(t0, r, c, 1);
    let t2 = tile_cell(t1, r, c, 2);
    let t3 = tile_cell(t2, r, c, 3);
    lettered(
        t3,
        r,
        c,
        22,
        2,
        encode_utf8("click outside to close"@),
        Color::DarkGray,
        Color::Black,
    )
}

fn paint_tile(w: &mut Writer, i: usize)
    requires
        i < 4,
    ensures
        final(w)@.painted(old(w)@),
        forall|r: int, c: int| #![trigger final(w).at(r, c)]
            on_screen(r, c) ==> final(w).at(r, c) == tile_cell(old(w).at(r, c), r, c, i as int),
{
    let t = tile(i);
    let row: usize = if i < 2 {
        16
    } else {
        19
    };
    let col: usize = if i % 2 == 0 {
        2
    } else {
        16
    };
    w.fill_rect(row, col, TILE_H, TILE_W, 0x20, Color::White, t.bg);
    w.fill_rect(row, col, 1, TILE_W, 0xDC, Color::White, t.bg);
    let icon_left: usize = col + (TILE_W - t.icon.as_bytes().len()) / 2;
    w.write_at(row + 1, icon_left, t.icon, Color::White, t.bg);
    let lab_left: usize = col + (TILE_W - t.label.as_bytes().len()) / 2;
    w.write_at(row + 2, lab_left, t.label, Color::White, t.bg);
}

fn paint_menu(w: &mut Writer)
    ensures
        final(w)@.painted(old(w)@),
        forall|r: int, c: int| #![trigger final(w).at(r, c)]
            on_screen(r, c) ==> final(w).at(r, c) == menu_cell(old(w).at(r, c), r, c),
{
    w.fill_rect(
        MENU_TOP,
        MENU_LEFT,
        MENU_HEIGHT,
        MENU_WIDTH,
        0x20,
        Color::LightGray,
        Color::Black,
    );
    w.fill_rect(MENU_TOP, MENU_WIDTH - 1, MENU_HEIGHT, 1, 0xB3, Color::Cyan, Color::Black);
    w.fill_rect(23, MENU_LEFT, 1, MENU_WIDTH, 0xC4, Color::Cyan, Color::Black);
    w.put_cell(23, MENU_WIDTH - 1, 0xD9, Color::Cyan, Color::Black);
    w.fill_rect(MENU_TOP, MENU_LEFT, 1, MENU_WIDTH - 1, 0x20, Color::Black, Color::Cyan);
    w.put_cell(MENU_TOP, 1, 0xFE, Color::Black, Color::Cyan);
    w.write_at(MENU_TOP, 3, "system", Color::Black, Color::Cyan);
    paint_tile(w, 0);
    paint_tile(w, 1);
    paint_tile(w, 2);
    paint_tile(w, 3);
    w.write_at(22, 2, "click outside to close", Color::DarkGray, Color::Black);
}

// ---------- The menu ----------

/// The menu: whether it is open, and the cells kept aside, row by row.
pub struct MenuState {
    open: bool,
    saved: Vec<(u8, u8)>,
}

/// What the menu is.
#[verifier::ext_equal]
pub struct MenuModel {
    pub open: bool,
    pub saved: Seq<(u8, u8)>,
}

impl View for MenuState {
    type V = MenuModel;

    closed spec fn view(&self) -> MenuModel {
        MenuModel { open: self.open, saved: self.saved@ }
    }
}

/// The position is in the panel.
pub open spec fn in_menu(r: int, c: int) -> bool {
    14 <= r < 24 && 0 <= c < 30
}

impl MenuModel {
    /// While the menu is open, every cell under it is kept aside.
    pub open spec fn wf(self) -> bool {
        self.open ==> self.saved.len() == 300
    }

    /// The cell kept aside for a position in the panel.
    pub open spec fn cell(self, r: int, c: int) -> ScreenChar {
        let k = (r - 14) * 30 + c;
        ScreenChar { ascii_character: self.saved[k].0, color_code: ColorCode(self.saved[k].1) }
    }

    /// The menu when it is closed.
    pub open spec fn shut() -> MenuModel {
        MenuModel { open: false, saved: Seq::empty() }
    }
}

/// The menu is open over the picture `f`: it keeps the cells of the picture
/// under the panel aside.
pub open spec fn keeps(menu: MenuModel, f: spec_fn(int, int) -> ScreenChar) -> bool {
    &&& menu.open
    &&& menu.saved.len() == 300
    &&& forall|r: int, c: int| in_menu(r, c) ==> #[trigger] menu.cell(r, c) == f(r, c)
}

/// The picture with the menu's cells put back, if it is open.
pub open spec fn without_menu(
    menu: MenuModel,
    f: spec_fn(int, int) -> ScreenChar,
) -> spec_fn(int, int) -> ScreenChar {
    |r: int, c: int|
        if menu.open && in_menu(r, c) {
            menu.cell(r, c)
        } else {
            f(r, c)
        }
}

/// The picture with the menu painted on it.
pub open spec fn with_menu(
    f: spec_fn(int, int) -> ScreenChar,
) -> spec_fn(int, int) -> ScreenChar {
    |r: int, c: int| menu_cell(f(r, c), r, c)
}

/// The screen under the cursor.
pub open spec fn picture(cur: CursorState, m: WriterModel) -> spec_fn(int, int) -> ScreenChar {
    |r: int, c: int| underlying(cur, m, r, c)
}

impl MenuState {
    /// A closed menu.
    pub fn new() -> (r: Self)
        ensures
            r@ == MenuModel::shut(),
            r@.wf(),
    {
        MenuState { open: false, saved: Vec::new() }
    }
}

/// Whether the menu is open.
pub fn is_open(menu: &MenuState) -> (r: bool)
    ensures
        r == menu@.open,
{
    menu.open
}

fn open_locked(m: &mut MenuState, w: &mut Writer)
    ensures
        final(m)@.open,
        final(m)@.saved.len() == 300,
        forall|r: int, c: int|
            in_menu(r, c) ==> #[trigger] final(m)@.cell(r, c) == old(w).at(r, c),
        final(w)@.painted(old(w)@),
        forall|r: int, c: int| #![trigger final(w).at(r, c)]
            on_screen(r, c) ==> final(w).at(r, c) == menu_cell(old(w).at(r, c), r, c),
{
    let mut saved: Vec<(u8, u8)> = Vec::new();
    let mut r: usize = 0;
    while r < MENU_HEIGHT
        invariant
            r <= 10,
            saved@.len() == r * 30,
            forall|k: int|
                0 <= k < saved@.len() ==> (#[trigger] saved@[k]).0 == w.at(
                    14 + k / 30,
                    k % 30,
                ).ascii_character && saved@[k].1 == w.at(14 + k / 30, k % 30).color_code.0,
        decreases 10 - r,
    {
        let mut c: usize = 0;
        while c < MENU_WIDTH
            invariant
                r < 10,
                c <= 30,
                saved@.len() == r * 30 + c,
                forall|k: int|
                    0 <= k < saved@.len() ==> (#[trigger] saved@[k]).0 == w.at(
                        14 + k / 30,
                        k % 30,
                    ).ascii_character && saved@[k].1 == w.at(14 + k / 30, k % 30).color_code.0,
            decreases 30 - c,
        {
            let (ch, code) = w.read_cell(MENU_TOP + r, MENU_LEFT + c);
            proof {
                let k = r * 30 + c;
                assert(k / 30 == r && k % 30 == c);
            }
            saved.push((ch, code.raw()));
            c += 1;
        }
        r += 1;
    }
    m.saved = saved;
    m.open = true;
    proof {
        assert forall|r: int, c: int| in_menu(r, c) implies #[trigger] m@.cell(r, c) == w.at(
            r,
            c,
        ) by {
            let k = (r - 14) * 30 + c;
            assert(k / 30 == r - 14 && k % 30 == c);
            assert(m.saved@[k].0 == w.at(14 + k / 30, k % 30).ascii_character);
        }
    }
    paint_menu(w);
}

fn close_locked(m: &mut MenuState, w: &mut Writer)
    requires
        old(m)@.open,
        old(m)@.wf(),
    ensures
        final(m)@ == MenuModel::shut(),
        final(w)@.painted(old(w)@),
        forall|r: int, c: int| #![trigger final(w).at(r, c)]
            on_screen(r, c) ==> final(w).at(r, c) == if in_menu(r, c) {
                old(m)@.cell(r, c)
            } else {
                old(w).at(r, c)
            },
{
    proof {
        w.lemma_sized();
    }
    let ghost m0 = w@;
    let ghost menu = m@;
    let mut r: usize = 0;
    while r < MENU_HEIGHT
        invariant
            r <= 10,
            m@ == menu,
            menu.saved.len() == 300,
            w@.painted(m0),
            forall|y: int, x: int| #![trigger w.at(y, x)]
                on_screen(y, x) ==> w.at(y, x) == if in_menu(y, x) && y < 14 + r {
                    menu.cell(y, x)
                } else {
                    m0.at(y, x)
                },
        decreases 10 - r,
    {
        let mut c: usize = 0;
        while c < MENU_WIDTH
            invariant
                r < 10,
                c <= 30,
                m@ == menu,
                menu.saved.len() == 300,
                w@.painted(m0),
                forall|y: int, x: int| #![trigger w.at(y, x)]
                    on_screen(y, x) ==> w.at(y, x) == if in_menu(y, x) && (y < 14 + r || (y == 14
                        + r && x < c)) {
                        menu.cell(y, x)
                    } else {
                        m0.at(y, x)
                    },
            decreases 30 - c,
        {
            let (ch, code) = m.saved[r * 30 + c];
            w.put_cell_raw(MENU_TOP + r, MENU_LEFT + c, ch, ColorCode::from_raw(code));
            c += 1;
        }
        r += 1;
    }
    m.saved = Vec::new();
    m.open = false;
    assert(m@ =~= MenuModel::shut());
}

/// Opens the menu if it is closed and closes it if it is open, with the cursor
/// drawn over the result.
pub fn toggle(menu: &mut MenuState, cur: &mut CursorState, w: &mut Writer)
    requires
        old(menu)@.wf(),
        old(cur).wf(),
    ensures
        final(menu)@.wf(),
        final(cur).wf(),
        final(cur).x == old(cur).x,
        final(cur).y == old(cur).y,
        final(cur).buttons == old(cur).buttons,
        final(w)@.painted(old(w)@),
        old(menu)@.open ==> final(menu)@ == MenuModel::shut() && cursor_over(
            *final(cur),
            final(w)@,
            without_menu(old(menu)@, picture(*old(cur), old(w)@)),
        ),
        !old(menu)@.open ==> keeps(final(menu)@, picture(*old(cur), old(w)@)) && cursor_over(
            *final(cur),
            final(w)@,
            with_menu(picture(*old(cur), old(w)@)),
        ),
{
    let ghost f = picture(*cur, w@);
    let ghost menu0 = menu@;
    lift_cursor(cur, w);
    let ghost w1 = *w;
    if menu.open {
        close_locked(menu, w);
    } else {
        open_locked(menu, w);
        assert forall|r: int, c: int| in_menu(r, c) implies #[trigger] menu@.cell(r, c) == f(
            r,
            c,
        ) by {
            assert(menu@.cell(r, c) == w1.at(r, c));
        }
    }
    let ghost w2 = *w;
    let ghost g = if menu0.open {
        without_menu(menu0, f)
    } else {
        with_menu(f)
    };
    assert forall|r: int, c: int| on_screen(r, c) implies #[trigger] w2.at(r, c) == g(r, c) by {
        assert(w1.at(r, c) == f(r, c));
    }
    restore_cursor(cur, w);
    proof {
        lemma_over(w2, *cur, w@, g);
    }
}

/// A cursor drawn over a screen is drawn over its picture.
proof fn lemma_over(
    w: Writer,
    cur: CursorState,
    m: WriterModel,
    g: spec_fn(int, int) -> ScreenChar,
)
    requires
        cur.wf(),
        forall|r: int, c: int| on_screen(r, c) ==> #[trigger] w.at(r, c) == g(r, c),
        exists|before: CursorState|
            !before.has_saved && #[trigger] drawn_over(before, w@, cur, m),
    ensures
        cursor_over(cur, m, g),
{
    let before = choose|before: CursorState|
        !before.has_saved && #[trigger] drawn_over(before, w@, cur, m);
    assert(w.at(cur.y as int, cur.x as int) == g(cur.y as int, cur.x as int));
    assert forall|r: int, c: int| on_screen(r, c) implies #[trigger] m.at(r, c) == if cur.is_at(
        r,
        c,
    ) {
        crate::task::mouse::cursor_cell(cur)
    } else {
        g(r, c)
    } by {
        assert(w.at(r, c) == g(r, c));
    }
}

/// Closes the menu if it is open, with the cursor drawn over the result. Else
/// nothing happens.
pub fn close(menu: &mut MenuState, cur: &mut CursorState, w: &mut Writer)
    requires
        old(menu)@.wf(),
        old(cur).wf(),
    ensures
        final(menu)@.wf(),
        final(menu)@ == if old(menu)@.open {
            MenuModel::shut()
        } else {
            old(menu)@
        },
        final(cur).wf(),
        final(cur).x == old(cur).x,
        final(cur).y == old(cur).y,
        final(cur).buttons == old(cur).buttons,
        final(w)@.painted(old(w)@),
        old(menu)@.open ==> cursor_over(
            *final(cur),
            final(w)@,
            without_menu(old(menu)@, picture(*old(cur), old(w)@)),
        ),
        !old(menu)@.open ==> *final(cur) == *old(cur) && final(w)@ == old(w)@,
{
    if !menu.open {
        proof {
            w.lemma_sized();
        }
        return;
    }
    let ghost f = picture(*cur, w@);
    let ghost menu0 = menu@;
    lift_cursor(cur, w);
    let ghost w1 = *w;
    close_locked(menu, w);
    let ghost w2 = *w;
    let ghost g = without_menu(menu0, f);
    assert forall|r: int, c: int| on_screen(r, c) implies #[trigger] w2.at(r, c) == g(r, c) by {
        assert(w1.at(r, c) == f(r, c));
    }
    restore_cursor(cur, w);
    proof {
        lemma_over(w2, *cur, w@, g);
    }
}

// ---------- Clicks ----------

/// Where a click falls while the menu is open.
pub enum Spot {
    /// Beside the panel.
    Outside,
    /// On a tile.
    Tile(int),
    /// On the panel, between the tiles.
    Chrome,
}

/// The position is on tile `i`.
pub open spec fn on_tile(i: int, x: int, y: int) -> bool {
    tile_row(i) <= y < tile_row(i) + 3 && tile_col(i) <= x < tile_col(i) + 12
}

/// Where a click at column `x` and row `y` falls.
pub open spec fn spot_of(x: int, y: int) -> Spot {
    if !in_menu(y, x) {
        Spot::Outside
    } else if on_tile(0, x, y) {
        Spot::Tile(0)
    } else if on_tile(1, x, y) {
        Spot::Tile(1)
    } else if on_tile(2, x, y) {
        Spot::Tile(2)
    } else if on_tile(3, x, y) {
        Spot::Tile(3)
    } else {
        Spot::Chrome
    }
}

/// What a tile without an application of its own prints.
pub open spec fn tile_message(label: Seq<char>) -> Seq<char> {
    if label == "Console"@ {
        "\n[menu] focusing console\n"@
    } else {
        "\n[menu] `"@ + label + "` is not yet wired\n"@
    }
}

/// What a click on tile `i` does to the viewer and to the screen.
pub open spec fn tile_done(
    i: int,
    b0: BrowserModel,
    link: crate::net::LinkState,
    m0: WriterModel,
    b1: BrowserModel,
    m1: WriterModel,
) -> bool {
    let label = trimmed(tile_of(i).0);
    if label == "Browser"@ {
        &&& b1 == (BrowserModel {
            open: true,
            url: if b0.url.len() == 0 {
                browser::default_url()
            } else {
                b0.url
            },
            status: browser::link_text(link),
            ..b0
        })
        &&& browser::shows(m0, m1, b1, browser::all_parts())
    } else {
        &&& b1 == b0
        &&& m1 == m0.written(encode_utf8(tile_message(label)))
    }
}

/// The menu, the cursor and the screen after the menu was closed over `m0`.
pub open spec fn closed_over(
    menu0: MenuModel,
    cur0: CursorState,
    m0: WriterModel,
    menu1: MenuModel,
    cur1: CursorState,
    m1: WriterModel,
) -> bool {
    if menu0.open {
        &&& menu1 == MenuModel::shut()
        &&& cur1.x == cur0.x
        &&& cur1.y == cur0.y
        &&& cur1.buttons == cur0.buttons
        &&& m1.painted(m0)
        &&& cursor_over(cur1, m1, without_menu(menu0, picture(cur0, m0)))
    } else {
        menu1 == menu0 && cur1 == cur0 && m1 == m0
    }
}

fn rect_contains(x: usize, y: usize, rx: usize, ry: usize, rw: usize, rh: usize) -> (r: bool)
    requires
        rx + rw <= usize::MAX,
        ry + rh <= usize::MAX,
    ensures
        r == (rx <= x < rx + rw && ry <= y < ry + rh),
{
    x >= rx && x < rx + rw && y >= ry && y < ry + rh
}

fn on_tile_click(b: &mut Browser, stack: &Option<Stack>, w: &mut Writer, i: usize)
    requires
        i < 4,
        old(w).wf(),
    ensures
        final(w).wf(),
        tile_done(
            i as int,
            old(b)@,
            browser::link_of(model_of(*stack)),
            old(w)@,
            final(b)@,
            final(w)@,
        ),
{
    let t = tile(i);
    let label = trim(t.label);
    if same_text(label.as_str(), "Browser") {
        browser::open(b, stack, w);
    } else {
        let ghost m0 = w@;
        let mut text = String::new();
        if same_text(label.as_str(), "Console") {
            text.append("\n[menu] focusing console\n");
        } else {
            text.append("\n[menu] `");
            text.append(label.as_str());
            text.append("` is not yet wired\n");
        }
        assert(text@ =~= tile_message(label@));
        w.write_string(text.as_str());
    }
}

/// Handles a click while the menu is open. A click beside the panel closes the
/// menu and is left to others; one on a tile starts what the tile stands for and
/// closes the menu; one between the tiles does nothing. Returns whether the
/// click was taken.
pub fn handle_click(
    menu: &mut MenuState,
    cur: &mut CursorState,
    w: &mut Writer,
    b: &mut Browser,
    stack: &Option<Stack>,
    x: u8,
    y: u8,
) -> (r: bool)
    requires
        old(menu)@.wf(),
        old(cur).wf(),
        old(w).wf(),
    ensures
        final(menu)@.wf(),
        final(cur).wf(),
        final(w).wf(),
        match spot_of(x as int, y as int) {
            Spot::Outside => {
                &&& !r
                &&& final(b)@ == old(b)@
                &&& closed_over(
                    old(menu)@,
                    *old(cur),
                    old(w)@,
                    final(menu)@,
                    *final(cur),
                    final(w)@,
                )
            },
            Spot::Chrome => {
                &&& r
                &&& final(b)@ == old(b)@
                &&& final(menu)@ == old(menu)@
                &&& *final(cur) == *old(cur)
                &&& final(w)@ == old(w)@
            },
            Spot::Tile(i) => {
                &&& r
                &&& exists|m1: WriterModel|
                    tile_done(
                        i,
                        old(b)@,
                        browser::link_of(model_of(*stack)),
                        old(w)@,
                        final(b)@,
                        m1,
                    ) && #[trigger] closed_over(
                        old(menu)@,
                        *old(cur),
                        m1,
                        final(menu)@,
                        *final(cur),
                        final(w)@,
                    )
            },
        },
{
    let xu: usize = x as usize;
    let yu: usize = y as usize;
    if !rect_contains(xu, yu, MENU_LEFT, MENU_TOP, MENU_WIDTH, MENU_HEIGHT) {
        close(menu, cur, w);
        return false;
    }
    let mut i: usize = 0;
    while i < 4
        invariant
            i <= 4,
            xu == x,
            yu == y,
            in_menu(yu as int, xu as int),
            forall|k: int| 0 <= k < i ==> !#[trigger] on_tile(k, xu as int, yu as int),
            menu@.wf(),
            cur.wf(),
            w.wf(),
            menu@ == old(menu)@,
            *cur == *old(cur),
            w@ == old(w)@,
            b@ == old(b)@,
        decreases 4 - i,
    {
        let tr: usize = if i < 2 {
            16
        } else {
            19
        };
        let tc: usize = if i % 2 == 0 {
            2
        } else {
            16
        };
        if rect_contains(xu, yu, tc, tr, TILE_W, TILE_H) {
            proof {
                assert(on_tile(i as int, xu as int, yu as int));
                assert(!on_tile(0, xu as int, yu as int) || i == 0);
                assert(!on_tile(1, xu as int, yu as int) || i <= 1);
                assert(!on_tile(2, xu as int, yu as int) || i <= 2);
                assert(spot_of(xu as int, yu as int) == Spot::Tile(i as int));
            }
            on_tile_click(b, stack, w, i);
            let ghost m1 = w@;
            close(menu, cur, w);
            assert(closed_over(old(menu)@, *old(cur), m1, menu@, *cur, w@));
            return true;
        }
        assert(!on_tile(i as int, xu as int, yu as int));
        i += 1;
    }
    proof {
        assert(!on_tile(0, xu as int, yu as int));
        assert(!on_tile(1, xu as int, yu as int));
        assert(!on_tile(2, xu as int, yu as int));
        assert(!on_tile(3, xu as int, yu as int));
    }
    true
}

// ---------- Laws ----------

/// Opening the menu and closing it again leaves the picture under the cursor as
/// it was before: here `f` is that picture, and the screen `m1` with the cursor
/// `cur1` is what opening leaves, `m2` with `cur2` what closing leaves.
pub proof fn law_open_close(
    f: spec_fn(int, int) -> ScreenChar,
    menu: MenuModel,
    cur1: CursorState,
    m1: WriterModel,
    cur2: CursorState,
    m2: WriterModel,
    r: int,
    c: int,
)
    requires
        keeps(menu, f),
        cursor_over(cur1, m1, with_menu(f)),
        cursor_over(cur2, m2, without_menu(menu, picture(cur1, m1))),
        on_screen(r, c),
    ensures
        underlying(cur2, m2, r, c) == f(r, c),
{
    if !in_menu(r, c) {
        law_menu_stays_inside(f(r, c), r, c);
    } else {
        assert(menu.cell(r, c) == f(r, c));
    }
}

/// The menu paints nothing outside its panel.
pub proof fn law_menu_stays_inside(before: ScreenChar, r: int, c: int)
    requires
        !in_menu(r, c),
    ensures
        menu_cell(before, r, c) == before,
{
    reveal_strlit("Console");
    reveal_strlit("Browser");
    reveal_strlit(" Info  ");
    reveal_strlit(" Power ");
    reveal_strlit(">_");
    reveal_strlit("www");
    reveal_strlit("(i)");
    reveal_strlit("(o)");
    reveal_strlit("system");
    reveal_strlit("click outside to close");
    vstd::utf8::is_ascii_chars_encode_utf8("Console"@);
    vstd::utf8::is_ascii_chars_encode_utf8("Browser"@);
    vstd::utf8::is_ascii_chars_encode_utf8(" Info  "@);
    vstd::utf8::is_ascii_chars_encode_utf8(" Power "@);
    vstd::utf8::is_ascii_chars_encode_utf8(">_"@);
    vstd::utf8::is_ascii_chars_encode_utf8("www"@);
    vstd::utf8::is_ascii_chars_encode_utf8("(i)"@);
    vstd::utf8::is_ascii_chars_encode_utf8("(o)"@);
    vstd::utf8::is_ascii_chars_encode_utf8("system"@);
    vstd::utf8::is_ascii_chars_encode_utf8("click outside to close"@);
}

/// The tiles stand in two rows of two, beside and below each other: a click falls on
/// the one that it is drawn over, and beside the panel where it is on none of its
/// cells.
pub proof fn law_spots(x: int, y: int, i: int)
    requires
        0 <= i < 4,
        on_screen(y, x),
    ensures
        spot_of(x, y) == Spot::Tile(i) <==> (2 + 14 * (i % 2) <= x < 14 + 14 * (i % 2) && 16 + 3 * (i
            / 2) <= y < 19 + 3 * (i / 2)),
        spot_of(x, y) is Outside <==> !(14 <= y <= 23 && x <= 29),
{
}

/// The second tile opens the viewer; the others leave it alone and say so on the
/// screen.
pub proof fn law_tiles(
    i: int,
    b0: BrowserModel,
    link: crate::net::LinkState,
    m0: WriterModel,
    b1: BrowserModel,
    m1: WriterModel,
)
    requires
        0 <= i < 4,
        tile_done(i, b0, link, m0, b1, m1),
    ensures
        i == 1 ==> b1.open && b1.lines == b0.lines && (b0.url.len() > 0 ==> b1.url == b0.url),
        i != 1 ==> b1 == b0 && exists|text: Seq<char>|
            text.len() > 0 && m1 == #[trigger] m0.written(encode_utf8(text)),
{
    lemma_labels(i);
    let label = trimmed(tile_of(i).0);
    if i != 1 {
        let text = tile_message(label);
        reveal_strlit("\n[menu] focusing console\n");
        reveal_strlit("\n[menu] `");
        assert(text.len() > 0);
        assert(m1 == m0.written(encode_utf8(text)));
    }
}

proof fn lemma_labels(i: int)
    requires
        0 <= i < 4,
    ensures
        trimmed(tile_of(i).0) == "Browser"@ <==> i == 1,
{
    reveal_strlit("Console");
    reveal_strlit("Browser");
    reveal_strlit(" Info  ");
    reveal_strlit(" Power ");
    let none = Seq::<char>::empty();
    let one = seq![' '];
    let two = seq![' ', ' '];
    let info = seq!['I', 'n', 'f', 'o'];
    let power = seq!['P', 'o', 'w', 'e', 'r'];
    crate::text::law_trimmed(none, "Console"@, none);
    crate::text::law_trimmed(none, "Browser"@, none);
    crate::text::law_trimmed(one, info, two);
    crate::text::law_trimmed(one, power, one);
    assert(none + "Console"@ + none =~= "Console"@);
    assert(none + "Browser"@ + none =~= "Browser"@);
    assert(one + info + two =~= " Info  "@);
    assert(one + power + one =~= " Power "@);
    assert("Console"@[0] == 'C');
    assert("Browser"@[0] == 'B');
}

} // verus!
