//! The keyboard: scancodes wait in a bounded queue and are decoded into keys.
use vstd::prelude::*;

use pc_keyboard::layouts::Us104Key;
use pc_keyboard::{HandleControl, KeyEvent, Keyboard, ScancodeSet1};

use crate::task::queue::{pushed, popped, ByteQueue};

verus! {

// ---------- Scancodes ----------

/// How many scancodes can wait.
pub const SCANCODE_QUEUE_CAPACITY: usize = 100;

/// The scancodes that were not yet asked for.
pub struct ScancodeStream {
    queue: ByteQueue,
}

impl View for ScancodeStream {
    type V = Seq<u8>;

    closed spec fn view(&self) -> Seq<u8> {
        self.queue@
    }
}

impl ScancodeStream {
    pub closed spec fn wf(self) -> bool {
        self.queue.wf() && self.queue.capacity() == SCANCODE_QUEUE_CAPACITY
    }

    /// A stream in which no scancode waits.
    pub fn new() -> (r: Self)
        ensures
            r.wf(),
            r@ == Seq::<u8>::empty(),
    {
        ScancodeStream { queue: ByteQueue::new(SCANCODE_QUEUE_CAPACITY) }
    }

    /// Takes the oldest scancode, if there is one.
    pub fn next(&mut self) -> (r: Option<u8>)
        requires
            old(self).wf(),
        ensures
            final(self).wf(),
            r == if old(self)@.len() == 0 {
                None
            } else {
                Some(old(self)@[0])
            },
            final(self)@ == popped(old(self)@),
    {
        self.queue.pop()
    }

    fn add(&mut self, scancode: u8) -> (r: bool)
        requires
            old(self).wf(),
        ensures
            final(self).wf(),
            r <==> old(self)@.len() < SCANCODE_QUEUE_CAPACITY,
            final(self)@ == pushed(old(self)@, SCANCODE_QUEUE_CAPACITY as int, scancode),
    {
        self.queue.push(scancode)
    }
}

impl Default for ScancodeStream {
    fn default() -> (r: Self)
        ensures
            r.wf(),
            r@ == Seq::<u8>::empty(),
    {
        ScancodeStream::new()
    }
}

/// What became of a scancode: there is no stream yet, there was no room for it, or
/// it waits and whoever reads the stream is to be woken.
#[derive(Debug, Clone, Copy, PartialEq, Eq, Structural)]
pub enum Added {
    NotReady,
    Full,
    Queued,
}

/// Puts a scancode into the stream.
pub fn add_scancode(stream: &mut Option<ScancodeStream>, scancode: u8) -> (r: Added)
    requires
        *old(stream) matches Some(s) ==> s.wf(),
    ensures
        r == match *old(stream) {
            None => Added::NotReady,
            Some(s) => if s@.len() < SCANCODE_QUEUE_CAPACITY {
                Added::Queued
            } else {
                Added::Full
            },
        },
        *old(stream) is None ==> *final(stream) is None,
        *old(stream) matches Some(s) ==> (*final(stream) matches Some(t) && t.wf() && t@ == pushed(
            s@,
            SCANCODE_QUEUE_CAPACITY as int,
            scancode,
        )),
{
    match stream {
        None => Added::NotReady,
        Some(s) => if s.add(scancode) {
            Added::Queued
        } else {
            Added::Full
        },
    }
}

// ---------- Decoding ----------

/// A key: a character, or the name of a key that stands for none.
#[derive(Debug)]
pub enum DecodedKey {
    Unicode(char),
    RawKey(String),
}

/// What a key is.
pub enum KeyModel {
    Unicode(char),
    Raw(Seq<char>),
}

impl View for DecodedKey {
    type V = KeyModel;

    open spec fn view(&self) -> KeyModel {
        match *self {
            DecodedKey::Unicode(c) => KeyModel::Unicode(c),
            DecodedKey::RawKey(name) => KeyModel::Raw(name@),
        }
    }
}

/// `pc_keyboard::KeyEvent`: a key that went down or up.
#[verifier::external_type_specification]
#[verifier::external_body]
pub struct ExKeyEvent(KeyEvent);

/// Decodes scancodes of set 1 for a US keyboard with 104 keys: a
/// `pc_keyboard::Keyboard`.
#[verifier::external_body]
pub struct KeyDecoder {
    keyboard: Keyboard<Us104Key, ScancodeSet1>,
}

/// The scancodes that a decoder was given.
pub uninterp spec fn scancodes_given(d: KeyDecoder) -> Seq<u8>;

/// The key events that a decoder was given.
pub uninterp spec fn events_given(d: KeyDecoder) -> Seq<KeyEvent>;

/// The key event that the last of the scancodes completes, if it does.
pub uninterp spec fn event_after(scancodes: Seq<u8>) -> Option<KeyEvent>;

/// The key that the last of the key events means, if it means one.
pub uninterp spec fn key_after(events: Seq<KeyEvent>) -> Option<KeyModel>;

/// `Keyboard::new` makes a decoder that was given nothing. Control characters
/// are not made out of letters typed with the control key.
#[verifier::external_body]
fn new_decoder() -> (r: KeyDecoder)
    ensures
        scancodes_given(r) == Seq::<u8>::empty(),
        events_given(r) == Seq::<KeyEvent>::empty(),
{
    KeyDecoder { keyboard: Keyboard::new(ScancodeSet1::new(), Us104Key, HandleControl::Ignore) }
}

/// `Keyboard::add_byte` takes one scancode. Whether it completes a key event, and
/// which, depends on the scancodes given so far alone; a scancode that cannot be
/// decoded completes none.
#[verifier::external_body]
fn add_byte(d: &mut KeyDecoder, byte: u8) -> (r: Option<KeyEvent>)
    ensures
        scancodes_given(*final(d)) == scancodes_given(*old(d)).push(byte),
        events_given(*final(d)) == events_given(*old(d)),
        r == event_after(scancodes_given(*final(d))),
{
    match d.keyboard.add_byte(byte) {
        Ok(event) => event,
        Err(_) => None,
    }
}

/// What a decoded key is, if there is one.
pub open spec fn key_model(key: Option<DecodedKey>) -> Option<KeyModel> {
    match key {
        Some(k) => Some(k@),
        None => None,
    }
}

/// `Keyboard::process_keyevent` takes one key event. Which key it means, if any,
/// depends on the key events given so far alone.
#[verifier::external_body]
fn process_keyevent(d: &mut KeyDecoder, event: KeyEvent) -> (r: Option<DecodedKey>)
    ensures
        scancodes_given(*final(d)) == scancodes_given(*old(d)),
        events_given(*final(d)) == events_given(*old(d)).push(event),
        key_model(r) == key_after(events_given(*final(d))),
{
    match d.keyboard.process_keyevent(event) {
        None => None,
        Some(pc_keyboard::DecodedKey::Unicode(c)) => Some(DecodedKey::Unicode(c)),
        Some(pc_keyboard::DecodedKey::RawKey(code)) => Some(
            DecodedKey::RawKey(format!("{:?}", code)),
        ),
    }
}

impl KeyDecoder {
    /// A decoder that was given nothing.
    pub fn new() -> (r: Self)
        ensures
            scancodes_given(r) == Seq::<u8>::empty(),
            events_given(r) == Seq::<KeyEvent>::empty(),
    {
        new_decoder()
    }

    /// Takes one scancode and returns the key that it completes, if it does.
    pub fn decode(&mut self, scancode: u8) -> (r: Option<DecodedKey>)
        ensures
            scancodes_given(*final(self)) == scancodes_given(*old(self)).push(scancode),
            match event_after(scancodes_given(*final(self))) {
                Some(event) => events_given(*final(self)) == events_given(*old(self)).push(event)
                    && key_model(r) == key_after(events_given(*final(self))),
                None => events_given(*final(self)) == events_given(*old(self)) && r is None,
            },
    {
        match add_byte(self, scancode) {
            None => None,
            Some(event) => process_keyevent(self, event),
        }
    }
}

/// What the screen shows for a key: the character, or the name of the key.
pub open spec fn key_text(key: KeyModel) -> Seq<char> {
    match key {
        KeyModel::Unicode(c) => seq![c],
        KeyModel::Raw(name) => name,
    }
}

/// What the screen shows for a key.
pub fn keypress_text(key: &DecodedKey) -> (r: String)
    ensures
        r@ == key_text(key@),
{
    match key {
        DecodedKey::Unicode(c) => {
            let mut s = String::new();
            s.push(*c);
            assert(s@ =~= seq![*c]);
            s
        },
        DecodedKey::RawKey(name) => name.clone(),
    }
}

} // verus!
