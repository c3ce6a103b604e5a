//! Start-up of the PS/2 mouse through the keyboard controller.
//!
//! The controller is told and asked through a command port, whose status says
//! when a byte can be written and when one can be read, and a data port. The
//! start-up is a fixed list of steps; each waits for the controller, but not for
//! ever.
use vstd::prelude::*;

verus! {

pub const DATA_PORT: u16 = 0x60;

pub const STATUS_PORT: u16 = 0x64;

pub const ACK: u8 = 0xFA;

/// How often a step looks at the status before it goes on regardless.
pub const TRIES: u32 = 100_000;

/// What the start-up does next.
#[derive(Debug, Clone, Copy, PartialEq, Eq, Structural)]
pub enum MouseRequest {
    /// Reads the status.
    ReadStatus,
    /// Reads a byte of data.
    ReadData,
    /// Writes a command.
    WriteCommand(u8),
    /// Writes a byte of data.
    WriteData(u8),
    /// Nothing: the start-up is over.
    Done,
}

/// A step of the start-up.
#[derive(Debug, Clone, Copy, PartialEq, Eq, Structural)]
pub enum Step {
    /// A command for the controller.
    Command(u8),
    /// A byte for the controller or for the mouse.
    Data(u8),
    /// The controller's configuration, changed, goes back.
    PutConfig,
    /// A byte that is left over is thrown away.
    Flush,
    /// The controller's configuration is read.
    GetConfig,
    /// The mouse's acknowledgement is read and thrown away.
    Ack,
    /// No step is left.
    End,
}

/// The steps: both ports off, what is left over thrown away, the configuration
/// changed, both ports on, the mouse's defaults restored, its reports on.
pub open spec fn step_of(at: int) -> Step {
    if at == 0 {
        Step::Command(0xAD)
    } else if at == 1 {
        Step::Command(0xA7)
    } else if at == 2 {
        Step::Flush
    } else if at == 3 {
        Step::Command(0x20)
    } else if at == 4 {
        Step::GetConfig
    } else if at == 5 {
        Step::Command(0x60)
    } else if at == 6 {
        Step::PutConfig
    } else if at == 7 {
        Step::Command(0xAE)
    } else if at == 8 {
        Step::Command(0xA8)
    } else if at == 9 {
        Step::Command(0xD4)
    } else if at == 10 {
        Step::Data(0xF6)
    } else if at == 11 {
        Step::Ack
    } else if at == 12 {
        Step::Command(0xD4)
    } else if at == 13 {
        Step::Data(0xF4)
    } else if at == 14 {
        Step::Ack
    } else {
        Step::End
    }
}

fn step_at(at: u8) -> (r: Step)
    ensures
        r == step_of(at as int),
{
    match at {
        0 => Step::Command(0xAD),
        1 => Step::Command(0xA7),
        2 => Step::Flush,
        3 => Step::Command(0x20),
        4 => Step::GetConfig,
        5 => Step::Command(0x60),
        6 => Step::PutConfig,
        7 => Step::Command(0xAE),
        8 => Step::Command(0xA8),
        9 => Step::Command(0xD4),
        10 => Step::Data(0xF6),
        11 => Step::Ack,
        12 => Step::Command(0xD4),
        13 => Step::Data(0xF4),
        14 => Step::Ack,
        _ => Step::End,
    }
}

/// The configuration with the mouse's interrupt on (bit 1) and its clock running
/// (bit 5 off).
pub open spec fn armed(config: u8) -> u8 {
    (config | 2) & 0xDF
}

/// The start-up: the step it is at, whether it still waits for the controller,
/// how often it may still look, and the configuration to write.
#[derive(Debug, Clone, Copy, PartialEq, Eq, Structural)]
pub struct MouseInit {
    pub at: u8,
    pub waiting: bool,
    pub tries: u32,
    pub config: u8,
}

impl MouseInit {
    /// There is a look left while the start-up waits.
    pub open spec fn wf(self) -> bool {
        self.at <= 15 && (self.waiting ==> 0 < self.tries <= TRIES)
    }

    /// The start-up before its first step.
    pub open spec fn start() -> MouseInit {
        MouseInit { at: 0, waiting: true, tries: TRIES, config: 0 }
    }

    /// The start-up before its first step.
    pub fn new() -> (r: MouseInit)
        ensures
            r == MouseInit::start(),
            r.wf(),
    {
        MouseInit { at: 0, waiting: true, tries: TRIES, config: 0 }
    }

    /// The start-up at the next step.
    pub open spec fn next(self) -> MouseInit {
        MouseInit { at: (self.at + 1) as u8, waiting: true, tries: TRIES, config: self.config }
    }

    /// What the start-up does next.
    pub open spec fn wants(self) -> MouseRequest {
        match step_of(self.at as int) {
            Step::End => MouseRequest::Done,
            _ if self.waiting => MouseRequest::ReadStatus,
            Step::Command(c) => MouseRequest::WriteCommand(c),
            Step::Data(b) => MouseRequest::WriteData(b),
            Step::PutConfig => MouseRequest::WriteData(self.config),
            _ => MouseRequest::ReadData,
        }
    }

    /// What the start-up does next.
    pub fn request(&self) -> (r: MouseRequest)
        ensures
            r == self.wants(),
    {
        match step_at(self.at) {
            Step::End => MouseRequest::Done,
            _ if self.waiting => MouseRequest::ReadStatus,
            Step::Command(c) => MouseRequest::WriteCommand(c),
            Step::Data(b) => MouseRequest::WriteData(b),
            Step::PutConfig => MouseRequest::WriteData(self.config),
            _ => MouseRequest::ReadData,
        }
    }

    /// The start-up after its request was answered, with the byte that was read.
    pub open spec fn answered(self, reply: u8) -> MouseInit {
        match step_of(self.at as int) {
            Step::End => self,
            Step::Flush => if self.waiting && reply & 1 != 0 {
                MouseInit { waiting: false, ..self }
            } else {
                self.next()
            },
            Step::GetConfig => if !self.waiting {
                MouseInit { config: armed(reply), ..self }.next()
            } else if reply & 1 != 0 {
                MouseInit { waiting: false, ..self }
            } else if self.tries > 1 {
                MouseInit { tries: (self.tries - 1) as u32, ..self }
            } else {
                MouseInit { config: armed(0), ..self }.next()
            },
            Step::Ack => if !self.waiting {
                self.next()
            } else if reply & 1 != 0 {
                MouseInit { waiting: false, ..self }
            } else if self.tries > 1 {
                MouseInit { tries: (self.tries - 1) as u32, ..self }
            } else {
                self.next()
            },
            _ => if !self.waiting {
                self.next()
            } else if reply & 2 != 0 && self.tries > 1 {
                MouseInit { tries: (self.tries - 1) as u32, ..self }
            } else {
                MouseInit { waiting: false, ..self }
            },
        }
    }
}

fn arm(config: u8) -> (r: u8)
    ensures
        r == armed(config),
{
    (config | 2) & 0xDF
}

/// Takes the answer to the start-up's request: the byte that was read, or
/// anything after a write.
pub fn init(m: MouseInit, reply: u8) -> (r: MouseInit)
    requires
        m.wf(),
    ensures
        r == m.answered(reply),
        r.wf(),
{
    let step = step_at(m.at);
    if step == Step::End {
        return m;
    }
    let full = reply & 1 != 0;
    let busy = reply & 2 != 0;
    let go_on = MouseInit { at: m.at + 1, waiting: true, tries: TRIES, config: m.config };
    match step {
        Step::Flush => {
            if m.waiting && full {
                MouseInit { waiting: false, ..m }
            } else {
                go_on
            }
        },
        Step::GetConfig => {
            if !m.waiting {
                MouseInit { config: arm(reply), ..go_on }
            } else if full {
                MouseInit { waiting: false, ..m }
            } else if m.tries > 1 {
                MouseInit { tries: m.tries - 1, ..m }
            } else {
                MouseInit { config: arm(0), ..go_on }
            }
        },
        Step::Ack => {
            if !m.waiting {
                go_on
            } else if full {
                MouseInit { waiting: false, ..m }
            } else if m.tries > 1 {
                MouseInit { tries: m.tries - 1, ..m }
            } else {
                go_on
            }
        },
        _ => {
            if !m.waiting {
                go_on
            } else if busy && m.tries > 1 {
                MouseInit { tries: m.tries - 1, ..m }
            } else {
                MouseInit { waiting: false, ..m }
            }
        },
    }
}

// ---------- Laws ----------

/// The configuration that goes back has the interrupt on and the clock running,
/// and is otherwise as it was.
pub proof fn law_armed(config: u8)
    ensures
        armed(config) & 2 == 2,
        armed(config) & 0x20 == 0,
        armed(config) & 0xDD == config & 0xDD,
{
    assert(((config | 2) & 0xDF) & 2 == 2 && ((config | 2) & 0xDF) & 0x20 == 0 && ((config | 2)
        & 0xDF) & 0xDD == config & 0xDD) by (bit_vector);
}

/// The start-up after the given answers.
pub open spec fn after_answers(replies: Seq<u8>) -> MouseInit
    decreases replies.len(),
{
    if replies.len() == 0 {
        MouseInit::start()
    } else {
        after_answers(replies.drop_last()).answered(replies.last())
    }
}

/// What the start-up has written after the given answers, commands and data, in
/// order.
pub open spec fn writes(replies: Seq<u8>) -> Seq<MouseRequest>
    decreases replies.len(),
{
    if replies.len() == 0 {
        Seq::empty()
    } else {
        let before = writes(replies.drop_last());
        match after_answers(replies.drop_last()).wants() {
            MouseRequest::WriteCommand(c) => before.push(MouseRequest::WriteCommand(c)),
            MouseRequest::WriteData(b) => before.push(MouseRequest::WriteData(b)),
            _ => before,
        }
    }
}

/// What the first steps write, with `config` as the configuration.
pub open spec fn script(at: int, config: u8) -> Seq<MouseRequest>
    decreases at,
{
    if at <= 0 {
        Seq::empty()
    } else {
        let before = script(at - 1, config);
        match step_of(at - 1) {
            Step::Command(c) => before.push(MouseRequest::WriteCommand(c)),
            Step::Data(b) => before.push(MouseRequest::WriteData(b)),
            Step::PutConfig => before.push(MouseRequest::WriteData(config)),
            _ => before,
        }
    }
}

proof fn lemma_script_config(at: int, x: u8, y: u8)
    requires
        at <= 6,
    ensures
        script(at, x) == script(at, y),
    decreases at,
{
    if at > 0 {
        lemma_script_config(at - 1, x, y);
    }
}

/// Whatever the controller answers, the start-up writes the bytes of its steps in
/// their order: each once, none left out, and the configuration armed.
pub proof fn law_writes_follow_script(replies: Seq<u8>)
    ensures
        after_answers(replies).wf(),
        writes(replies) == script(after_answers(replies).at as int, after_answers(replies).config),
        after_answers(replies).at > 4 ==> exists|config: u8|
            after_answers(replies).config == #[trigger] armed(config),
    decreases replies.len(),
{
    if replies.len() > 0 {
        law_writes_follow_script(replies.drop_last());
        let m = after_answers(replies.drop_last());
        let r = m.answered(replies.last());
        if r.config != m.config {
            lemma_script_config(m.at as int, m.config, r.config);
            assert(r.config == armed(replies.last()) || r.config == armed(0));
        }
        if m.at == 4 && r.at == 5 {
            assert(r.config == armed(replies.last()) || r.config == armed(0));
        }
    }
}

/// How many answers the start-up takes at most: for each step that many looks at
/// the status, and one access.
pub open spec fn answers_left(m: MouseInit) -> int {
    if m.at >= 15 {
        0
    } else {
        (14 - m.at) * 100_001 + if m.waiting {
            m.tries + 1
        } else {
            1
        }
    }
}

/// The start-up ends, whatever the controller answers: every answer leaves fewer
/// to come, and at its first step no more than 1500015 are.
pub proof fn law_start_up_ends(m: MouseInit, reply: u8)
    requires
        m.wf(),
        m.at < 15,
    ensures
        0 <= answers_left(m.answered(reply)) < answers_left(m) <= 1_500_015,
{
}

} // verus!
