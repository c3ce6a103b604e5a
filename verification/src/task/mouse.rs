//! The mouse: bytes from the controller become packets, packets move a cursor
//! that is drawn by inverting the colours of the cell it is over.
//!
//! The cell under the cursor is kept aside. [`underlying`] is the screen as it
//! would be without the cursor; moving the cursor never changes it.
use vstd::prelude::*;

use crate::browser::{self, Browser};
use crate::desktop::{START_BTN_LEFT, START_BTN_RIGHT, TASKBAR_ROW};
use crate::net::{model_of, Stack};
use crate::start_menu::{
    self, closed_over, keeps, picture, spot_of, tile_done, with_menu, MenuState, Spot,
};
use crate::task::queue::{popped, pushed, ByteQueue};
use crate::vga_buffer::{on_screen, Color, ColorCode, ScreenChar, Writer, WriterModel};

verus! {

// ---------- Bytes ----------

/// How many bytes can wait.
pub const MOUSE_QUEUE_CAPACITY: usize = 256;

/// The bytes of the mouse that were not yet asked for.
pub struct MouseByteStream {
    queue: ByteQueue,
}

impl View for MouseByteStream {
    type V = Seq<u8>;

    closed spec fn view(&self) -> Seq<u8> {
        self.queue@
    }
}

impl MouseByteStream {
    pub closed spec fn wf(self) -> bool {
        self.queue.wf() && self.queue.capacity() == MOUSE_QUEUE_CAPACITY
    }

    /// A stream in which no byte waits.
    pub fn new() -> (r: Self)
        ensures
            r.wf(),
            r@ == Seq::<u8>::empty(),
    {
        MouseByteStream { queue: ByteQueue::new(MOUSE_QUEUE_CAPACITY) }
    }

    /// Takes the oldest byte, if there is one.
    pub fn next(&mut self) -> (r: Option<u8>)
        requires
            old(self).wf(),
        ensures
            final(self).wf(),
            r == if old(self)@.len() == 0 {
                None
            } else {
                Some(old(self)@[0])
            },
            final(self)@ == popped(old(self)@),
    {
        self.queue.pop()
    }

    fn add(&mut self, byte: u8)
        requires
            old(self).wf(),
        ensures
            final(self).wf(),
            final(self)@ == pushed(old(self)@, MOUSE_QUEUE_CAPACITY as int, byte),
    {
        let _ = self.queue.push(byte);
    }
}

/// Puts a byte of the mouse into the stream, if there is one. A byte for which
/// there is no room is dropped. The result says whether to wake whoever reads the
/// stream.
pub fn add_byte(stream: &mut Option<MouseByteStream>, byte: u8) -> (r: bool)
    requires
        *old(stream) matches Some(s) ==> s.wf(),
    ensures
        r <==> *old(stream) is Some,
        *old(stream) is None ==> *final(stream) is None,
        *old(stream) matches Some(s) ==> (*final(stream) matches Some(t) && t.wf() && t@ == pushed(
            s@,
            MOUSE_QUEUE_CAPACITY as int,
            byte,
        )),
{
    match stream {
        None => false,
        Some(s) => {
            s.add(byte);
            true
        },
    }
}

// ---------- Packets ----------


/// A movement and the buttons that are down (bit 0 left, 1 right, 2 middle).
#[derive(Debug, Clone, Copy, PartialEq, Eq, Structural)]
pub struct Packet {
    pub dx: i32,
    pub dy: i32,
    pub buttons: u8,
}

/// A signed movement: its low byte and the sign bit of the header.
pub open spec fn signed(byte: u8, negative: bool) -> int {
    if negative {
        byte - 256
    } else {
        byte as int
    }
}

/// The packet of three bytes. Up is positive on the wire and negative on the
/// screen.
pub open spec fn packet_of(header: u8, dx: u8, dy: u8) -> Packet {
    Packet {
        dx: signed(dx, header & 0x10 != 0) as i32,
        dy: (-signed(dy, header & 0x20 != 0)) as i32,
        buttons: header & 0x07,
    }
}

/// Assembles packets of three bytes.
pub struct PacketAssembler {
    state: u8,
    header: u8,
    dx_byte: u8,
}

impl View for PacketAssembler {
    type V = Seq<u8>;

    /// The bytes of the packet that have come so far.
    closed spec fn view(&self) -> Seq<u8> {
        if self.state == 0 {
            Seq::empty()
        } else if self.state == 1 {
            seq![self.header]
        } else {
            seq![self.header, self.dx_byte]
        }
    }
}

/// The bytes of the packet after one more byte. A byte that cannot be a header
/// is dropped while a header is awaited.
pub open spec fn assembled(pending: Seq<u8>, byte: u8) -> Seq<u8> {
    if pending.len() == 0 {
        if byte & 0x08 == 0 {
            pending
        } else {
            seq![byte]
        }
    } else if pending.len() == 1 {
        pending.push(byte)
    } else {
        Seq::empty()
    }
}

/// The packet that the byte completes.
pub open spec fn completed(pending: Seq<u8>, byte: u8) -> Option<Packet> {
    if pending.len() == 2 {
        Some(packet_of(pending[0], pending[1], byte))
    } else {
        None
    }
}

impl PacketAssembler {
    /// An assembler that awaits a header.
    pub fn new() -> (r: Self)
        ensures
            r@ == Seq::<u8>::empty(),
    {
        PacketAssembler { state: 0, header: 0, dx_byte: 0 }
    }

    /// Takes one byte; the packet comes out with its last byte.
    pub fn feed(&mut self, byte: u8) -> (r: Option<Packet>)
        ensures
            final(self)@ == assembled(old(self)@, byte),
            r == completed(old(self)@, byte),
    {
        if self.state == 0 {
            if byte & 0x08 == 0 {
                return None;
            }
            self.header = byte;
            self.state = 1;
            None
        } else if self.state == 1 {
            self.dx_byte = byte;
            self.state = 2;
            assert(self@ =~= old(self)@.push(byte));
            None
        } else {
            self.state = 0;
            let dx: i32 = if self.header & 0x10 != 0 {
                self.dx_byte as i32 - 0x100
            } else {
                self.dx_byte as i32
            };
            let dy_raw: i32 = if self.header & 0x20 != 0 {
                byte as i32 - 0x100
            } else {
                byte as i32
            };
            Some(Packet { dx, dy: -dy_raw, buttons: self.header & 0x07 })
        }
    }
}

/// The bytes still pending after a whole stream.
pub open spec fn pending_after(pending: Seq<u8>, bytes: Seq<u8>) -> Seq<u8>
    decreases bytes.len(),
{
    if bytes.len() == 0 {
        pending
    } else {
        assembled(pending_after(pending, bytes.drop_last()), bytes.last())
    }
}

/// Bytes that cannot be headers never begin a packet, so after any number of
/// them the next header is taken as one, and its packet is decoded from it and
/// the two bytes behind it.
pub proof fn law_resync(noise: Seq<u8>, header: u8, dx: u8, dy: u8)
    requires
        forall|i: int| 0 <= i < noise.len() ==> #[trigger] noise[i] & 0x08 == 0,
        header & 0x08 != 0,
    ensures
        pending_after(Seq::empty(), noise) == Seq::<u8>::empty(),
        completed(pending_after(Seq::empty(), noise.push(header).push(dx)), dy) == Some(
            packet_of(header, dx, dy),
        ),
        pending_after(Seq::empty(), noise.push(header).push(dx).push(dy)) == Seq::<u8>::empty(),
    decreases noise.len(),
{
    if noise.len() > 0 {
        assert forall|i: int| 0 <= i < noise.drop_last().len() implies #[trigger] noise.drop_last()[i]
            & 0x08 == 0 by {
            assert(noise.drop_last()[i] == noise[i]);
        }
        law_resync(noise.drop_last(), header, dx, dy);
        assert(noise[noise.len() - 1] & 0x08 == 0);
    }
    assert(pending_after(Seq::empty(), noise) =~= Seq::empty());
    let one = noise.push(header);
    let two = one.push(dx);
    let three = two.push(dy);
    assert(one.drop_last() =~= noise);
    assert(two.drop_last() =~= one);
    assert(three.drop_last() =~= two);
    assert(pending_after(Seq::empty(), one) =~= seq![header]);
    assert(pending_after(Seq::empty(), two) =~= seq![header, dx]);
}

// ---------- The cursor ----------

/// Where the cursor is, the buttons, and the cell kept aside.
#[derive(Debug, Clone, Copy, PartialEq, Eq, Structural)]
pub struct CursorState {
    pub x: u8,
    pub y: u8,
    pub buttons: u8,
    pub has_saved: bool,
    pub saved_ch: u8,
    pub saved_code: u8,
}

impl CursorState {
    /// The cursor is on the screen.
    pub open spec fn wf(self) -> bool {
        self.x < 80 && self.y < 25
    }

    /// The cell kept aside.
    pub open spec fn saved(self) -> ScreenChar {
        ScreenChar { ascii_character: self.saved_ch, color_code: ColorCode(self.saved_code) }
    }

    /// The cursor is at the position.
    pub open spec fn is_at(self, r: int, c: int) -> bool {
        r == self.y && c == self.x
    }

    /// A cursor in the middle of the screen that has not been drawn.
    pub fn new() -> (r: Self)
        ensures
            r.wf(),
            r == (CursorState {
                x: 40,
                y: 12,
                buttons: 0,
                has_saved: false,
                saved_ch: 0,
                saved_code: 0,
            }),
    {
        CursorState { x: 40, y: 12, buttons: 0, has_saved: false, saved_ch: 0, saved_code: 0 }
    }
}

/// The cell at a position as it is under the cursor.
pub open spec fn underlying(cur: CursorState, m: WriterModel, r: int, c: int) -> ScreenChar {
    if cur.has_saved && cur.is_at(r, c) {
        cur.saved()
    } else {
        m.at(r, c)
    }
}

/// How the cursor draws the cell kept aside: inverted, or white on red while a
/// button is down.
pub open spec fn cursor_cell(cur: CursorState) -> ScreenChar {
    ScreenChar {
        ascii_character: cur.saved_ch,
        color_code: if cur.buttons & 0x07 != 0 {
            crate::vga_buffer::color_code(Color::White, Color::Red)
        } else {
            ColorCode(cur.saved_code).inverted()
        },
    }
}

/// The cursor is drawn at its position over what was there, and the rest of the
/// screen is what it was under the cursor `before`.
pub open spec fn drawn_over(
    before: CursorState,
    m0: WriterModel,
    cur: CursorState,
    m1: WriterModel,
) -> bool {
    &&& m1.painted(m0)
    &&& cur.has_saved
    &&& cur.saved() == underlying(before, m0, cur.y as int, cur.x as int)
    &&& forall|r: int, c: int|
        on_screen(r, c) ==> #[trigger] m1.at(r, c) == if cur.is_at(r, c) {
            cursor_cell(cur)
        } else {
            underlying(before, m0, r, c)
        }
}

/// The screen is the picture `f` with the cursor drawn over it, and the cell kept
/// aside is that of the picture.
pub open spec fn cursor_over(
    cur: CursorState,
    m: WriterModel,
    f: spec_fn(int, int) -> ScreenChar,
) -> bool {
    &&& cur.has_saved
    &&& cur.saved() == f(cur.y as int, cur.x as int)
    &&& forall|r: int, c: int|
        on_screen(r, c) ==> #[trigger] m.at(r, c) == if cur.is_at(r, c) {
            cursor_cell(cur)
        } else {
            f(r, c)
        }
}

/// Draws the cursor over the cell kept aside.
fn paint_cursor(cur: &CursorState, w: &mut Writer)
    requires
        cur.wf(),
    ensures
        final(w)@.painted(old(w)@),
        forall|r: int, c: int| #![trigger final(w).at(r, c)]
            on_screen(r, c) ==> final(w).at(r, c) == if cur.is_at(r, c) {
                cursor_cell(*cur)
            } else {
                old(w).at(r, c)
            },
{
    let painted_code = if cur.buttons & 0x07 != 0 {
        ColorCode::new(Color::White, Color::Red)
    } else {
        ColorCode::from_raw(cur.saved_code).invert()
    };
    w.put_cell_raw(cur.y as usize, cur.x as usize, cur.saved_ch, painted_code);
}

/// A coordinate moved by `delta` and kept between 0 and `last`.
pub open spec fn moved(at: int, delta: int, last: int) -> int {
    if at + delta < 0 {
        0
    } else if at + delta > last {
        last
    } else {
        at + delta
    }
}

fn move_by(at: u8, delta: i32, last: u8) -> (r: u8)
    requires
        i32::MIN <= at + delta <= i32::MAX,
    ensures
        r == moved(at as int, delta as int, last as int),
{
    let to: i32 = at as i32 + delta;
    if to < 0 {
        0
    } else if to > last as i32 {
        last
    } else {
        to as u8
    }
}

/// The position of the left button going down with this packet.
pub open spec fn click(before: CursorState, after: CursorState) -> Option<(u8, u8)> {
    if after.buttons & 1 != 0 && before.buttons & 1 == 0 {
        Some((after.x, after.y))
    } else {
        None
    }
}

/// Moves the cursor and redraws it where it moved, had not been drawn, or its
/// buttons changed. Returns where the left button went down, if it did.
pub fn apply_packet(
    cur: &mut CursorState,
    w: &mut Writer,
    dx: i32,
    dy: i32,
    buttons: u8,
) -> (r: Option<(u8, u8)>)
    requires
        old(cur).wf(),
        i32::MIN <= old(cur).x + dx <= i32::MAX,
        i32::MIN <= old(cur).y + dy <= i32::MAX,
    ensures
        final(cur).wf(),
        final(cur).x == moved(old(cur).x as int, dx as int, 79),
        final(cur).y == moved(old(cur).y as int, dy as int, 24),
        0 <= old(cur).x + dx <= 79 ==> final(cur).x == old(cur).x + dx,
        0 <= old(cur).y + dy <= 24 ==> final(cur).y == old(cur).y + dy,
        final(cur).buttons == buttons,
        (old(cur).has_saved && final(cur).x == old(cur).x && final(cur).y == old(cur).y && buttons
            == old(cur).buttons) ==> *final(cur) == *old(cur) && *final(w) == *old(w),
        !(old(cur).has_saved && final(cur).x == old(cur).x && final(cur).y == old(cur).y && buttons
            == old(cur).buttons) ==> drawn_over(*old(cur), old(w)@, *final(cur), final(w)@),
        r == click(*old(cur), *final(cur)),
{
    let ghost m0 = w@;
    let ghost cur0 = *cur;
    let was_buttons: u8 = cur.buttons;
    let new_x: u8 = move_by(cur.x, dx, 79);
    let new_y: u8 = move_by(cur.y, dy, 24);
    let has_moved = new_x != cur.x || new_y != cur.y;
    cur.buttons = buttons;
    if has_moved || !cur.has_saved {
        if cur.has_saved {
            w.put_cell_raw(
                cur.y as usize,
                cur.x as usize,
                cur.saved_ch,
                ColorCode::from_raw(cur.saved_code),
            );
        }
        let ghost m1 = w@;
        assert forall|r: int, c: int| on_screen(r, c) implies #[trigger] m1.at(r, c) == underlying(
            cur0,
            m0,
            r,
            c,
        ) by {
            assert(w.at(r, c) == m1.at(r, c));
        }
        let (ch, code) = w.read_cell(new_y as usize, new_x as usize);
        cur.saved_ch = ch;
        cur.saved_code = code.raw();
        cur.has_saved = true;
        cur.x = new_x;
        cur.y = new_y;
        paint_cursor(cur, w);
        proof {
            assert(m1.at(new_y as int, new_x as int) == cur.saved());
            assert forall|r: int, c: int| on_screen(r, c) implies #[trigger] w@.at(r, c)
                == if cur.is_at(r, c) {
                cursor_cell(*cur)
            } else {
                underlying(cur0, m0, r, c)
            } by {
                assert(w.at(r, c) == w@.at(r, c));
                assert(m1.at(r, c) == underlying(cur0, m0, r, c));
            }
        }
    } else if buttons != was_buttons {
        paint_cursor(cur, w);
        proof {
            assert forall|r: int, c: int| on_screen(r, c) implies #[trigger] w@.at(r, c)
                == if cur.is_at(r, c) {
                cursor_cell(*cur)
            } else {
                underlying(cur0, m0, r, c)
            } by {
                assert(w.at(r, c) == w@.at(r, c));
            }
        }
    }
    if buttons & 1 != 0 && was_buttons & 1 == 0 {
        Some((cur.x, cur.y))
    } else {
        None
    }
}

/// Draws the cursor at a position, over the cell that is there.
pub fn redraw_cursor_at(cur: &mut CursorState, w: &mut Writer, x: u8, y: u8)
    requires
        x < 80,
        y < 25,
    ensures
        final(cur).x == x,
        final(cur).y == y,
        final(cur).buttons == old(cur).buttons,
        drawn_over(
            (CursorState { has_saved: false, ..*old(cur) }),
            old(w)@,
            *final(cur),
            final(w)@,
        ),
{
    let (ch, code) = w.read_cell(y as usize, x as usize);
    cur.saved_ch = ch;
    cur.saved_code = code.raw();
    cur.has_saved = true;
    cur.x = x;
    cur.y = y;
    paint_cursor(cur, w);
    assert forall|r: int, c: int| on_screen(r, c) implies #[trigger] w@.at(r, c) == if cur.is_at(
        r,
        c,
    ) {
        cursor_cell(*cur)
    } else {
        old(w)@.at(r, c)
    } by {
        assert(w.at(r, c) == w@.at(r, c));
    }
}

/// Puts the cell under the cursor back, so that something else can be painted
/// without smearing it.
pub fn lift_cursor(cur: &mut CursorState, w: &mut Writer)
    requires
        old(cur).wf(),
    ensures
        *final(cur) == (CursorState { has_saved: false, ..*old(cur) }),
        final(w)@.painted(old(w)@),
        forall|r: int, c: int| #![trigger final(w).at(r, c)]
            on_screen(r, c) ==> final(w).at(r, c) == underlying(*old(cur), old(w)@, r, c),
{
    proof {
        w.lemma_sized();
    }
    if cur.has_saved {
        w.put_cell_raw(
            cur.y as usize,
            cur.x as usize,
            cur.saved_ch,
            ColorCode::from_raw(cur.saved_code),
        );
        cur.has_saved = false;
    }
}

/// Keeps the cell at the cursor's position aside and draws the cursor over it.
pub fn restore_cursor(cur: &mut CursorState, w: &mut Writer)
    requires
        old(cur).wf(),
    ensures
        final(cur).wf(),
        final(cur).x == old(cur).x,
        final(cur).y == old(cur).y,
        final(cur).buttons == old(cur).buttons,
        drawn_over(
            (CursorState { has_saved: false, ..*old(cur) }),
            old(w)@,
            *final(cur),
            final(w)@,
        ),
{
    let x: u8 = cur.x;
    let y: u8 = cur.y;
    redraw_cursor_at(cur, w, x, y);
}

// ---------- Clicks ----------

/// The position is on the start button.
pub open spec fn on_start_button(x: int, y: int) -> bool {
    y == 24 && 0 <= x <= 6
}

/// Hands a click on: to the menu while it is open, else to the start button,
/// which opens the menu. A click anywhere else does nothing.
pub fn dispatch_click(
    menu: &mut MenuState,
    cur: &mut CursorState,
    w: &mut Writer,
    b: &mut Browser,
    stack: &Option<Stack>,
    x: u8,
    y: u8,
)
    requires
        old(menu)@.wf(),
        old(cur).wf(),
        old(w).wf(),
    ensures
        final(menu)@.wf(),
        final(cur).wf(),
        final(w).wf(),
        old(menu)@.open ==> match spot_of(x as int, y as int) {
            Spot::Outside => final(b)@ == old(b)@ && closed_over(
                old(menu)@,
                *old(cur),
                old(w)@,
                final(menu)@,
                *final(cur),
                final(w)@,
            ),
            Spot::Chrome => final(b)@ == old(b)@ && final(menu)@ == old(menu)@ && *final(cur)
                == *old(cur) && final(w)@ == old(w)@,
            Spot::Tile(i) => exists|m1: WriterModel|
                tile_done(
                    i,
                    old(b)@,
                    browser::link_of(model_of(*stack)),
                    old(w)@,
                    final(b)@,
                    m1,
                ) && #[trigger] closed_over(
                    old(menu)@,
                    *old(cur),
                    m1,
                    final(menu)@,
                    *final(cur),
                    final(w)@,
                ),
        },
        !old(menu)@.open ==> final(b)@ == old(b)@,
        !old(menu)@.open && on_start_button(x as int, y as int) ==> {
            &&& keeps(final(menu)@, picture(*old(cur), old(w)@))
            &&& cursor_over(*final(cur), final(w)@, with_menu(picture(*old(cur), old(w)@)))
            &&& final(cur).x == old(cur).x
            &&& final(cur).y == old(cur).y
            &&& final(cur).buttons == old(cur).buttons
            &&& final(w)@.painted(old(w)@)
        },
        !old(menu)@.open && !on_start_button(x as int, y as int) ==> final(menu)@ == old(menu)@
            && *final(cur) == *old(cur) && final(w)@ == old(w)@,
{
    let xu: usize = x as usize;
    let yu: usize = y as usize;
    if start_menu::is_open(menu) {
        let _consumed = start_menu::handle_click(menu, cur, w, b, stack, x, y);
        return;
    }
    if yu == TASKBAR_ROW && xu >= START_BTN_LEFT && xu <= START_BTN_RIGHT {
        start_menu::toggle(menu, cur, w);
    }
}

/// The picture under a cursor drawn over `f` is `f`.
pub proof fn law_picture_under_cursor(
    cur: CursorState,
    m: WriterModel,
    f: spec_fn(int, int) -> ScreenChar,
    r: int,
    c: int,
)
    requires
        cursor_over(cur, m, f),
        on_screen(r, c),
    ensures
        underlying(cur, m, r, c) == f(r, c),
{
}

/// A cursor that was drawn over the screen leaves the screen under it as it was.
pub proof fn law_cursor_keeps_screen(
    before: CursorState,
    m0: WriterModel,
    cur: CursorState,
    m1: WriterModel,
    r: int,
    c: int,
)
    requires
        drawn_over(before, m0, cur, m1),
        on_screen(r, c),
    ensures
        underlying(cur, m1, r, c) == underlying(before, m0, r, c),
{
}

/// Decoding undoes what a mouse does to a movement: three bytes, the buttons and the
/// signs of both directions in the first, whatever its two bits for an overflow are,
/// and the lower bits of the movements in the others. Up is positive on the wire and
/// negative on the screen, and neither direction has a say in the other.
pub proof fn law_packet_decoded(dx: int, dy: int, buttons: u8, overflow: u8)
    requires
        -256 <= dx < 256,
        -256 <= dy < 256,
        buttons < 8,
        overflow < 4,
    ensures
        ({
            let left: int = if dx < 0 {
                16
            } else {
                0
            };
            let down: int = if dy < 0 {
                32
            } else {
                0
            };
            let header = (8 + buttons + left + down + 64 * overflow) as u8;
            let bytes = seq![header, (dx % 256) as u8];
            &&& completed(Seq::empty(), header) is None
            &&& completed(pending_after(Seq::empty(), seq![header]), (dx % 256) as u8) is None
            &&& completed(pending_after(Seq::empty(), bytes), (dy % 256) as u8) == Some(
                Packet { dx: dx as i32, dy: (-dy) as i32, buttons },
            )
            &&& pending_after(Seq::empty(), bytes.push((dy % 256) as u8)).len() == 0
        }),
{
    let a: u8 = if dx < 0 {
        1
    } else {
        0
    };
    let b: u8 = if dy < 0 {
        1
    } else {
        0
    };
    let header = (8 + buttons + 16 * a + 32 * b + 64 * overflow) as u8;
    assert(header & 0x08 != 0 && (header & 0x10 != 0 <==> a == 1) && (header & 0x20 != 0 <==> b
        == 1) && header & 0x07 == buttons) by (bit_vector)
        requires
            header == 8 + buttons + 16 * a + 32 * b + 64 * overflow,
            buttons < 8,
            overflow < 4,
            a < 2,
            b < 2,
    ;
    let x = (dx % 256) as u8;
    let y = (dy % 256) as u8;
    let none = Seq::<u8>::empty();
    law_resync(none, header, x, y);
    reveal_with_fuel(pending_after, 4);
    assert(none.push(header) =~= seq![header]);
    assert(none.push(header).push(x) =~= seq![header, x]);
    assert(seq![header].drop_last() =~= none);
    assert(seq![header, x].drop_last() =~= seq![header]);
}

/// A movement takes the cursor to the point of the screen that is nearest to where
/// it leads: there, where that is on the screen.
pub proof fn law_cursor_nearest(at: int, delta: int, last: int, other: int)
    requires
        0 <= last,
        0 <= other <= last,
    ensures
        0 <= moved(at, delta, last) <= last,
        0 <= at + delta <= last ==> moved(at, delta, last) == at + delta,
        ({
            let there = at + delta - moved(at, delta, last);
            let elsewhere = at + delta - other;
            there * there <= elsewhere * elsewhere
        }),
{
    let there = at + delta - moved(at, delta, last);
    let elsewhere = at + delta - other;
    if at + delta < 0 {
        assert(there * there <= elsewhere * elsewhere) by (nonlinear_arith)
            requires
                elsewhere <= there <= 0,
        ;
    } else {
        assert(there * there <= elsewhere * elsewhere) by (nonlinear_arith)
            requires
                there == 0 || 0 <= there <= elsewhere,
        ;
    }
}

/// A click is reported where the cursor is when the left button goes down, once for
/// each time that it does: neither while it is held, nor when it comes up, nor for
/// another button.
pub proof fn law_click(before: CursorState, after: CursorState)
    ensures
        click(before, after) == if before.buttons % 2 == 0 && after.buttons % 2 == 1 {
            Some((after.x, after.y))
        } else {
            None::<(u8, u8)>
        },
{
    let p = before.buttons;
    let q = after.buttons;
    assert(p & 1 == p % 2 && q & 1 == q % 2) by (bit_vector);
}

/// The start button is the first seven cells of the bottom row.
pub proof fn law_start_button(x: int, y: int)
    requires
        on_screen(y, x),
    ensures
        on_start_button(x, y) <==> 80 * y + x < 80 * 24 + 7 && 80 * y + x >= 80 * 24,
{
}

/// The cursor shows the character under it with its colours exchanged, and while a
/// button is down in white on red.
pub proof fn law_cursor_shown(cur: CursorState)
    ensures
        cursor_cell(cur).ascii_character == cur.saved_ch,
        cur.buttons % 8 == 0 ==> cursor_cell(cur).color_code.0 == 16 * (cur.saved_code % 16)
            + cur.saved_code / 16,
        cur.buttons % 8 != 0 ==> cursor_cell(cur).color_code.0 == 16 * 4 + 15,
{
    let b = cur.buttons;
    assert(b & 7 == b % 8) by (bit_vector);
}

} // verus!
