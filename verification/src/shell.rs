//! The shell: a line editor, and commands on the filesystem and the machine.
//!
//! A line is turned into an [`Outcome`]: the text that the command prints, or
//! what has to be asked of the machine. Commands on the filesystem are run on
//! the spot.
use vstd::prelude::*;
use vstd::utf8::encode_utf8;

use crate::drivers::rtc::DateTime;
use crate::task::keyboard::{DecodedKey, KeyModel};
use crate::text::{
    control, decimal, is_control, is_space, join_words, joined, law_one_word, law_words_apart,
    padded, push_decimal, push_padded, same_text, split_whitespace, trim, trimmed, views, words,
};
use crate::vfs::{
    after_chdir, after_mkdir, after_remove, after_write, chdir_check, format_listing, is_listing,
    listing_text, mkdir_check, path_text, remove_check, resolve, walk, write_check, Fs, FsError,
    FsModel, Item,
};
use crate::vga_buffer::{self, Writer, WriterModel};

verus! {

pub const MAX_LINE_LEN: usize = 256;

/// The text in front of each line.
pub open spec fn prompt() -> Seq<char> {
    "AiOC> "@
}

/// What the shell says when it starts.
pub open spec fn banner() -> Seq<char> {
    "AiOC 0.1.0 -- type 'help' for commands\n(c) 2026 - x86_64 kernel in Rust\n"@
}

/// Greets the user.
pub fn print_banner(w: &mut Writer)
    requires
        old(w).wf(),
    ensures
        final(w).wf(),
        final(w)@ == old(w)@.written(encode_utf8(banner())),
{
    w.write_string("AiOC 0.1.0 -- type 'help' for commands\n(c) 2026 - x86_64 kernel in Rust\n");
}

/// Prints the prompt.
pub fn redraw_prompt(w: &mut Writer)
    requires
        old(w).wf(),
    ensures
        final(w).wf(),
        final(w)@ == old(w)@.written(encode_utf8(prompt())),
{
    w.write_string("AiOC> ");
}

// ---------- The line editor ----------

/// The line that is being typed.
pub struct LineEditor {
    line: String,
}

impl View for LineEditor {
    type V = Seq<char>;

    closed spec fn view(&self) -> Seq<char> {
        self.line@
    }
}

/// What a key does to the line.
pub enum Edit {
    /// The line is complete.
    Submit,
    /// A character is added at the end.
    Insert(char),
    /// The last character is taken away.
    Erase,
    /// Nothing.
    Ignore,
}

/// What a key does to the line. Control characters, and characters beyond the
/// limit on the line's bytes, are ignored, and so is erasing an empty line.
pub open spec fn edit_of(line: Seq<char>, key: KeyModel) -> Edit {
    let erase = if line.len() > 0 {
        Edit::Erase
    } else {
        Edit::Ignore
    };
    match key {
        KeyModel::Unicode(c) => if c == '\n' {
            Edit::Submit
        } else if c == '\u{8}' || c == '\u{7f}' {
            erase
        } else if encode_utf8(line).len() < 256 && !is_control(c) {
            Edit::Insert(c)
        } else {
            Edit::Ignore
        },
        KeyModel::Raw(name) => if name == "Backspace"@ {
            erase
        } else {
            Edit::Ignore
        },
    }
}

/// The line after a key.
pub open spec fn line_after(line: Seq<char>, key: KeyModel) -> Seq<char> {
    match edit_of(line, key) {
        Edit::Submit => Seq::empty(),
        Edit::Insert(c) => line.push(c),
        Edit::Erase => line.drop_last(),
        Edit::Ignore => line,
    }
}

/// The line after characters were typed one after the other.
pub open spec fn line_typed(line: Seq<char>, chars: Seq<char>) -> Seq<char>
    decreases chars.len(),
{
    if chars.len() == 0 {
        line
    } else {
        line_after(line_typed(line, chars.drop_last()), KeyModel::Unicode(chars.last()))
    }
}

/// Only enter completes a line.
pub open spec fn submits(key: KeyModel) -> bool {
    key == KeyModel::Unicode('\n')
}

impl LineEditor {
    /// An empty line.
    pub fn new() -> (r: Self)
        ensures
            r@ == Seq::<char>::empty(),
    {
        let line = String::new();
        assert(line@ =~= Seq::<char>::empty());
        LineEditor { line }
    }

    fn erase(&mut self, w: &mut Writer)
        requires
            old(w).wf(),
        ensures
            final(w).wf(),
            old(self)@.len() > 0 ==> final(self)@ == old(self)@.drop_last() && final(w)@ == old(
                w,
            )@.erased(),
            old(self)@.len() == 0 ==> final(self)@ == old(self)@ && final(w)@ == old(w)@,
    {
        if self.line.pop().is_some() {
            vga_buffer::backspace(w);
        }
    }

    /// Takes a key, and shows on the screen what it does to the line. Returns the
    /// line once it is complete; the next one is then begun.
    pub fn handle_key(&mut self, w: &mut Writer, key: &DecodedKey) -> (r: Option<String>)
        requires
            old(w).wf(),
        ensures
            final(w).wf(),
            match edit_of(old(self)@, key@) {
                Edit::Submit => {
                    &&& r matches Some(s) && s@ == old(self)@
                    &&& final(self)@ == Seq::<char>::empty()
                    &&& final(w)@ == old(w)@
                },
                Edit::Insert(c) => {
                    &&& r is None
                    &&& final(self)@ == old(self)@.push(c)
                    &&& final(w)@ == old(w)@.written(encode_utf8(seq![c]))
                },
                Edit::Erase => {
                    &&& r is None
                    &&& final(self)@ == old(self)@.drop_last()
                    &&& final(w)@ == old(w)@.erased()
                },
                Edit::Ignore => {
                    &&& r is None
                    &&& final(self)@ == old(self)@
                    &&& final(w)@ == old(w)@
                },
            },
            final(self)@ == line_after(old(self)@, key@),
            r is Some <==> submits(key@),
            r matches Some(s) ==> s@ == old(self)@,
    {
        match key {
            DecodedKey::Unicode(c) => {
                let c: char = *c;
                if c == '\n' {
                    let done = self.line.clone();
                    self.line = String::new();
                    assert(self@ =~= Seq::<char>::empty());
                    Some(done)
                } else if c == '\u{8}' || c == '\u{7f}' {
                    self.erase(w);
                    None
                } else {
                    if self.line.as_str().as_bytes().len() < MAX_LINE_LEN && !control(c) {
                        self.line.push(c);
                        let mut shown = String::new();
                        shown.push(c);
                        assert(shown@ =~= seq![c]);
                        w.write_string(shown.as_str());
                    }
                    None
                }
            },
            DecodedKey::RawKey(name) => {
                if same_text(name.as_str(), "Backspace") {
                    self.erase(w);
                }
                None
            },
        }
    }
}

/// No key makes the line longer than 259 bytes, nor longer than 256 characters.
pub proof fn law_line_bounded(line: Seq<char>, key: KeyModel)
    requires
        encode_utf8(line).len() <= 259,
        line.len() <= 256,
    ensures
        edit_of(line, key) matches Edit::Insert(c) ==> encode_utf8(line.push(c)).len() <= 259
            && line.push(c).len() <= 256,
{
    if let Edit::Insert(c) = edit_of(line, key) {
        crate::text::lemma_encode_concat(line, seq![c]);
        assert(line + seq![c] =~= line.push(c));
        crate::text::lemma_encode_len(line);
        reveal_with_fuel(encode_utf8, 2);
        assert(seq![c].drop_first() =~= Seq::empty());
    }
}

/// A character that was typed and erased again leaves the line as it was.
pub proof fn law_erase_undoes(line: Seq<char>, c: char)
    requires
        edit_of(line, KeyModel::Unicode(c)) == Edit::Insert(c),
    ensures
        edit_of(line.push(c), KeyModel::Unicode('\u{8}')) is Erase,
        line.push(c).drop_last() == line,
{
    assert(line.push(c).drop_last() =~= line);
}

// ---------- Outcomes ----------

/// What running a line comes to.
#[derive(Debug)]
pub enum Outcome {
    /// A text to print.
    Print(String),
    /// The screen is to be cleared.
    Clear,
    /// The memory in use is asked for.
    Mem,
    /// The time since boot is asked for.
    Uptime,
    /// The date is asked for.
    Date,
    /// The kernel is to panic with a message.
    Panic(String),
    /// The machine is to be reset.
    Reboot,
    /// A breakpoint exception is to be raised.
    Breakpoint,
}

/// What an outcome is.
pub enum OutcomeModel {
    Print(Seq<char>),
    Clear,
    Mem,
    Uptime,
    Date,
    Panic(Seq<char>),
    Reboot,
    Breakpoint,
}

impl View for Outcome {
    type V = OutcomeModel;

    open spec fn view(&self) -> OutcomeModel {
        match *self {
            Outcome::Print(s) => OutcomeModel::Print(s@),
            Outcome::Clear => OutcomeModel::Clear,
            Outcome::Mem => OutcomeModel::Mem,
            Outcome::Uptime => OutcomeModel::Uptime,
            Outcome::Date => OutcomeModel::Date,
            Outcome::Panic(s) => OutcomeModel::Panic(s@),
            Outcome::Reboot => OutcomeModel::Reboot,
            Outcome::Breakpoint => OutcomeModel::Breakpoint,
        }
    }
}

// ---------- Commands without the filesystem ----------

/// The commands.
pub const HELP: &'static str = "Built-in commands:
  help                this list
  clear               clear the screen
  echo <args...>      print arguments
  uname [-a]          print kernel info
  mem                 show RAM and heap usage
  uptime              time since boot
  date                wall-clock time from CMOS RTC
  pwd                 print current directory
  ls [path]           list directory contents
  cd <path>           change current directory
  cat <path>          print file contents
  mkdir <path>        create a directory
  touch <path>        create an empty file
  write <path> <txt>  write text into a file
  rm [-r] <path>      remove a file or directory
  int3                fire a software breakpoint exception
  panic [msg]         deliberately panic the kernel
  reboot              reset the machine
";

/// What `help` prints: the commands.
pub open spec fn help_text() -> Seq<char> {
    HELP@
}

fn cmd_help() -> (r: String)
    ensures
        r@ == help_text(),
{
    HELP.to_owned()
}

/// The arguments with one space between them, and the end of a line.
pub open spec fn echo_text(args: Seq<Seq<char>>) -> Seq<char> {
    joined(args, seq![' ']).push('\n')
}

fn cmd_echo(args: &[String]) -> (r: String)
    ensures
        r@ == echo_text(views(args@)),
{
    let mut s = join_words(args, 0);
    assert(views(args@).skip(0) =~= views(args@));
    s.push('\n');
    s
}

/// The name of the kernel, with `-a` its version and its machine too.
pub open spec fn uname_text(args: Seq<Seq<char>>) -> Seq<char> {
    if args.contains("-a"@) {
        "LUXX-OS 0.1.0 x86_64 BIOS QEMU async/cooperative\n"@
    } else {
        "LUXX-OS\n"@
    }
}

fn cmd_uname(args: &[String]) -> (r: String)
    ensures
        r@ == uname_text(views(args@)),
{
    let ghost all = views(args@);
    let mut i: usize = 0;
    while i < args.len()
        invariant
            i <= args@.len(),
            all == views(args@),
            forall|j: int| 0 <= j < i ==> all[j] != "-a"@,
        decreases args.len() - i,
    {
        if same_text(args[i].as_str(), "-a") {
            assert(all[i as int] == "-a"@);
            return "LUXX-OS 0.1.0 x86_64 BIOS QEMU async/cooperative\n".to_owned();
        }
        assert(all[i as int] == args@[i as int]@);
        i += 1;
    }
    "LUXX-OS\n".to_owned()
}

/// The message of a panic that was asked for.
pub open spec fn panic_text(args: Seq<Seq<char>>) -> Seq<char> {
    if args.len() == 0 {
        "user-requested panic via shell"@
    } else {
        joined(args, seq![' '])
    }
}

fn cmd_panic(args: &[String]) -> (r: String)
    ensures
        r@ == panic_text(views(args@)),
{
    if args.len() == 0 {
        "user-requested panic via shell".to_owned()
    } else {
        assert(views(args@).skip(0) =~= views(args@));
        join_words(args, 0)
    }
}

/// What the shell prints of the memory: the usable bytes of the machine, and of
/// the heap the bytes in use, its size, and the bytes that are free.
pub open spec fn mem_text(total: nat, used: nat, size: nat, free: nat) -> Seq<char> {
    "physical: "@ + decimal(total / 1024) + " KiB usable ("@ + decimal(total / 1024 / 1024)
        + " MiB)\nheap:     "@ + decimal(used) + " / "@ + decimal(size) + " bytes used ("@ + decimal(
        free,
    ) + " bytes free)\n"@
}

/// What the shell prints of the memory.
pub fn cmd_mem(total: u64, heap_used: usize, heap_size: usize, heap_free: usize) -> (r: String)
    ensures
        r@ == mem_text(total as nat, heap_used as nat, heap_size as nat, heap_free as nat),
{
    let mut s = "physical: ".to_owned();
    push_decimal(&mut s, total / 1024);
    s.append(" KiB usable (");
    push_decimal(&mut s, total / 1024 / 1024);
    s.append(" MiB)\nheap:     ");
    push_decimal(&mut s, heap_used as u64);
    s.append(" / ");
    push_decimal(&mut s, heap_size as u64);
    s.append(" bytes used (");
    push_decimal(&mut s, heap_free as u64);
    s.append(" bytes free)\n");
    s
}

/// What the shell prints of the date.
pub fn cmd_date(now: &DateTime) -> (r: String)
    requires
        1 <= now.month <= 12,
    ensures
        r@ == now.text().push('\n'),
{
    let mut s = now.to_string();
    s.push('\n');
    s
}

/// What the shell prints of the time since boot: the ticks, the seconds with two
/// places, and the text of the tick rate.
pub open spec fn uptime_text(ticks: nat, whole: nat, hundredths: nat, hz: Seq<char>) -> Seq<char> {
    "up "@ + decimal(ticks) + " ticks ("@ + decimal(whole) + "."@ + padded(hundredths, 2, '0')
        + "s @ "@ + hz + " Hz)\n"@
}

/// What the shell prints of the time since boot.
pub fn cmd_uptime(ticks: u64, whole: u64, hundredths: u64, hz: &str) -> (r: String)
    ensures
        r@ == uptime_text(ticks as nat, whole as nat, hundredths as nat, hz@),
{
    let mut s = "up ".to_owned();
    push_decimal(&mut s, ticks);
    s.append(" ticks (");
    push_decimal(&mut s, whole);
    s.append(".");
    push_padded(&mut s, hundredths, 2, '0');
    s.append("s @ ");
    s.append(hz);
    s.append(" Hz)\n");
    s
}

// ---------- Commands on the filesystem ----------

/// A line that says what went wrong with a path.
pub open spec fn complaint(cmd: Seq<char>, path: Seq<char>, e: FsError) -> Seq<char> {
    cmd + ": "@ + path + ": "@ + e.text() + "\n"@
}

fn complain(out: &mut String, cmd: &str, path: &str, e: FsError)
    ensures
        final(out)@ == old(out)@ + complaint(cmd@, path@, e),
{
    let ghost before = out@;
    out.append(cmd);
    out.append(": ");
    out.append(path);
    out.append(": ");
    out.append(e.description());
    out.append("\n");
    assert(out@ =~= before + complaint(cmd@, path@, e));
}

/// What `ls` prints for a path: the listing of a directory, the name of a file,
/// or what went wrong.
pub open spec fn ls_text(m: FsModel, path: Seq<char>, out: Seq<char>) -> bool {
    let p = resolve(m.cwd, path);
    match walk(m.tree, p) {
        Err(e) => out == complaint("ls"@, path, e),
        Ok(Item::File(_)) => out == p.last().push('\n'),
        Ok(Item::Dir) => exists|v: Seq<(String, bool)>|
            is_listing(m.tree, p, v) && out == #[trigger] listing_text(v),
    }
}

fn cmd_ls(fs: &Fs, args: &[String]) -> (r: String)
    requires
        fs.wf(),
    ensures
        ls_text(
            fs@,
            (if args@.len() > 0 {
                views(args@)[0]
            } else {
                "."@
            }),
            r@,
        ),
{
    let path: &str = if args.len() > 0 {
        args[0].as_str()
    } else {
        "."
    };
    match fs.list(path) {
        Ok(entries) => {
            let out = format_listing(entries.as_slice());
            proof {
                let p = resolve(fs@.cwd, path@);
                if let Ok(Item::File(_)) = walk(fs@.tree, p) {
                    reveal_with_fuel(crate::vfs::entry_lines, 2);
                    assert(entries@.drop_last() =~= Seq::empty());
                    assert(out@ =~= p.last().push('\n'));
                } else {
                    assert(out@ == listing_text(entries@));
                }
            }
            out
        },
        Err(e) => {
            let mut out = String::new();
            complain(&mut out, "ls", path, e);
            assert(out@ =~= complaint("ls"@, path@, e));
            out
        },
    }
}

/// A file as text: each byte of ASCII as its character, a question mark for any
/// other byte.
pub open spec fn file_text(data: Seq<u8>) -> Seq<char> {
    data.map_values(
        |b: u8|
            if b < 0x80 {
                b as char
            } else {
                '?'
            },
    )
}

fn push_file(out: &mut String, data: &Vec<u8>)
    ensures
        final(out)@ == old(out)@ + file_text(data@),
{
    let ghost before = out@;
    let ghost all = file_text(data@);
    let mut i: usize = 0;
    assert(before + all.take(0) =~= before);
    while i < data.len()
        invariant
            i <= data@.len(),
            all == file_text(data@),
            out@ == before + all.take(i as int),
        decreases data.len() - i,
    {
        let b: u8 = data[i];
        let c: char = if b < 0x80 {
            b as char
        } else {
            '?'
        };
        out.push(c);
        proof {
            assert(all[i as int] == c);
            assert(before + all.take(i + 1) =~= (before + all.take(i as int)).push(c));
        }
        i += 1;
    }
    assert(all.take(all.len() as int) =~= all);
}

/// What `cat` prints for one path.
pub open spec fn cat_one(m: FsModel, path: Seq<char>) -> Seq<char> {
    match walk(m.tree, resolve(m.cwd, path)) {
        Err(e) => complaint("cat"@, path, e),
        Ok(Item::Dir) => complaint("cat"@, path, FsError::NotAFile),
        Ok(Item::File(data)) => file_text(data),
    }
}

/// What `cat` prints for paths, one after the other.
pub open spec fn cat_all(m: FsModel, paths: Seq<Seq<char>>) -> Seq<char>
    decreases paths.len(),
{
    if paths.len() == 0 {
        Seq::empty()
    } else {
        cat_all(m, paths.drop_last()) + cat_one(m, paths.last())
    }
}

/// What `cat` prints.
pub open spec fn cat_text(m: FsModel, args: Seq<Seq<char>>) -> Seq<char> {
    if args.len() == 0 {
        "cat: missing operand\n"@
    } else {
        cat_all(m, args)
    }
}

fn cmd_cat(fs: &Fs, args: &[String]) -> (r: String)
    requires
        fs.wf(),
    ensures
        r@ == cat_text(fs@, views(args@)),
{
    if args.len() == 0 {
        return "cat: missing operand\n".to_owned();
    }
    let ghost all = views(args@);
    let mut out = String::new();
    let mut i: usize = 0;
    assert(all.take(0) =~= Seq::empty());
    assert(out@ =~= Seq::<char>::empty());
    while i < args.len()
        invariant
            i <= args@.len(),
            fs.wf(),
            all == views(args@),
            out@ == cat_all(fs@, all.take(i as int)),
        decreases args.len() - i,
    {
        let path = args[i].as_str();
        proof {
            assert(all.take(i + 1).drop_last() =~= all.take(i as int));
            assert(all.take(i + 1).last() == path@);
        }
        match fs.read_file(path) {
            Ok(data) => push_file(&mut out, &data),
            Err(e) => complain(&mut out, "cat", path, e),
        }
        i += 1;
    }
    assert(all.take(all.len() as int) =~= all);
    out
}

/// A command that changes one path after the other.
#[derive(Debug, Clone, Copy, PartialEq, Eq, Structural)]
pub enum PathOp {
    Mkdir,
    Touch,
    Remove { recursive: bool },
}

impl PathOp {
    /// The command's name.
    pub open spec fn name(self) -> Seq<char> {
        match self {
            PathOp::Mkdir => "mkdir"@,
            PathOp::Touch => "touch"@,
            PathOp::Remove { recursive } => "rm"@,
        }
    }

    /// Whether the command can be done to the path.
    pub open spec fn check(self, m: FsModel, path: Seq<char>) -> Result<(), FsError> {
        let p = resolve(m.cwd, path);
        match self {
            PathOp::Mkdir => mkdir_check(m.tree, p),
            PathOp::Touch => write_check(m.tree, p),
            PathOp::Remove { recursive } => remove_check(m.tree, p, recursive),
        }
    }

    /// The filesystem after the command was tried on the path.
    pub open spec fn after(self, m: FsModel, path: Seq<char>) -> FsModel {
        match self {
            PathOp::Mkdir => after_mkdir(m, path),
            PathOp::Touch => after_write(m, path, Seq::empty()),
            PathOp::Remove { recursive } => after_remove(m, path, recursive),
        }
    }
}

/// The filesystem after the command was tried on all paths, in their order.
pub open spec fn paths_after(m: FsModel, op: PathOp, paths: Seq<Seq<char>>) -> FsModel
    decreases paths.len(),
{
    if paths.len() == 0 {
        m
    } else {
        op.after(paths_after(m, op, paths.drop_last()), paths.last())
    }
}

/// What the command prints: a line for each path that it could not be done to.
pub open spec fn paths_text(m: FsModel, op: PathOp, paths: Seq<Seq<char>>) -> Seq<char>
    decreases paths.len(),
{
    if paths.len() == 0 {
        Seq::empty()
    } else {
        let before = paths_after(m, op, paths.drop_last());
        paths_text(m, op, paths.drop_last()) + match op.check(before, paths.last()) {
            Ok(_) => Seq::empty(),
            Err(e) => complaint(op.name(), paths.last(), e),
        }
    }
}

/// What the command prints, for paths or without any.
pub open spec fn path_op_text(m: FsModel, op: PathOp, paths: Seq<Seq<char>>) -> Seq<char> {
    if paths.len() == 0 {
        op.name() + ": missing operand\n"@
    } else {
        paths_text(m, op, paths)
    }
}

/// Runs the command on the arguments from `from` on.
fn run_paths(fs: &mut Fs, op: PathOp, args: &[String], from: usize) -> (r: String)
    requires
        old(fs).wf(),
        from <= args@.len(),
    ensures
        final(fs).wf(),
        final(fs)@ == paths_after(old(fs)@, op, views(args@).skip(from as int)),
        r@ == path_op_text(old(fs)@, op, views(args@).skip(from as int)),
{
    let ghost all = views(args@).skip(from as int);
    let ghost m = fs@;
    let name: &str = match op {
        PathOp::Mkdir => "mkdir",
        PathOp::Touch => "touch",
        PathOp::Remove { recursive: _ } => "rm",
    };
    let mut out = String::new();
    if from == args.len() {
        out.append(name);
        out.append(": missing operand\n");
        assert(out@ =~= op.name() + ": missing operand\n"@);
        return out;
    }
    let mut i: usize = from;
    assert(all.take(0) =~= Seq::empty());
    assert(out@ =~= Seq::<char>::empty());
    while i < args.len()
        invariant
            from <= i <= args@.len(),
            fs.wf(),
            name@ == op.name(),
            all == views(args@).skip(from as int),
            fs@ == paths_after(m, op, all.take(i - from)),
            out@ == paths_text(m, op, all.take(i - from)),
        decreases args.len() - i,
    {
        let path = args[i].as_str();
        let ghost k = i - from;
        proof {
            assert(all.take(k + 1).drop_last() =~= all.take(k));
            assert(all.take(k + 1).last() == path@);
        }
        let done = match op {
            PathOp::Mkdir => fs.mkdir(path),
            PathOp::Touch => fs.touch(path),
            PathOp::Remove { recursive } => fs.remove(path, recursive),
        };
        match done {
            Ok(_) => {
                assert(out@ + Seq::<char>::empty() =~= out@);
            },
            Err(e) => complain(&mut out, name, path, e),
        }
        i += 1;
    }
    assert(all.take(all.len() as int) =~= all);
    out
}

/// The flag in front of the paths of `rm` that makes it take directories.
pub open spec fn is_recursive_flag(arg: Seq<char>) -> bool {
    arg == "-r"@ || arg == "-rf"@
}

fn cmd_cd(fs: &mut Fs, args: &[String]) -> (r: String)
    requires
        old(fs).wf(),
    ensures
        final(fs).wf(),
        ({
            let path = cd_path(views(args@));
            &&& final(fs)@ == after_chdir(old(fs)@, path)
            &&& r@ == match chdir_check(old(fs)@.tree, resolve(old(fs)@.cwd, path)) {
                Ok(_) => Seq::empty(),
                Err(e) => complaint("cd"@, path, e),
            }
        }),
{
    let path: &str = if args.len() > 0 {
        args[0].as_str()
    } else {
        "/"
    };
    assert(path@ == cd_path(views(args@)));
    let mut out = String::new();
    match fs.chdir(path) {
        Ok(_) => {
            assert(out@ =~= Seq::<char>::empty());
        },
        Err(e) => {
            complain(&mut out, "cd", path, e);
            assert(out@ =~= complaint("cd"@, path@, e));
        },
    }
    out
}

/// Where `cd` goes: to its argument, or to the root.
pub open spec fn cd_path(args: Seq<Seq<char>>) -> Seq<char> {
    if args.len() > 0 {
        args[0]
    } else {
        "/"@
    }
}

fn cmd_write(fs: &mut Fs, args: &[String]) -> (r: String)
    requires
        old(fs).wf(),
    ensures
        final(fs).wf(),
        final(fs)@ == write_after(old(fs)@, views(args@)),
        r@ == write_text(old(fs)@, views(args@)),
{
    if args.len() < 2 {
        return "write: usage: write <path> <text...>\n".to_owned();
    }
    let path = args[0].as_str();
    let contents = join_words(args, 1);
    let mut out = String::new();
    match fs.write_file(path, contents.as_str().as_bytes()) {
        Ok(_) => {
            assert(out@ =~= Seq::<char>::empty());
        },
        Err(e) => {
            complain(&mut out, "write", path, e);
            assert(out@ =~= complaint("write"@, path@, e));
        },
    }
    out
}

/// The filesystem after `write`.
pub open spec fn write_after(m: FsModel, args: Seq<Seq<char>>) -> FsModel {
    if args.len() < 2 {
        m
    } else {
        after_write(m, args[0], encode_utf8(joined(args.skip(1), seq![' '])))
    }
}

/// What `write` prints.
pub open spec fn write_text(m: FsModel, args: Seq<Seq<char>>) -> Seq<char> {
    if args.len() < 2 {
        "write: usage: write <path> <text...>\n"@
    } else {
        match write_check(m.tree, resolve(m.cwd, args[0])) {
            Ok(_) => Seq::empty(),
            Err(e) => complaint("write"@, args[0], e),
        }
    }
}

// ---------- Dispatch ----------

/// What running the command `cmd` with its arguments does to the filesystem, and
/// what it comes to.
pub open spec fn command_done(
    m0: FsModel,
    cmd: Seq<char>,
    args: Seq<Seq<char>>,
    m1: FsModel,
    out: OutcomeModel,
) -> bool {
    if cmd == "help"@ {
        m1 == m0 && out == OutcomeModel::Print(help_text())
    } else if cmd == "clear"@ || cmd == "cls"@ {
        m1 == m0 && out == OutcomeModel::Clear
    } else if cmd == "echo"@ {
        m1 == m0 && out == OutcomeModel::Print(echo_text(args))
    } else if cmd == "uname"@ {
        m1 == m0 && out == OutcomeModel::Print(uname_text(args))
    } else if cmd == "mem"@ || cmd == "free"@ {
        m1 == m0 && out == OutcomeModel::Mem
    } else if cmd == "uptime"@ {
        m1 == m0 && out == OutcomeModel::Uptime
    } else if cmd == "panic"@ {
        m1 == m0 && out == OutcomeModel::Panic(panic_text(args))
    } else if cmd == "reboot"@ {
        m1 == m0 && out == OutcomeModel::Reboot
    } else if cmd == "exception"@ || cmd == "int3"@ {
        m1 == m0 && out == OutcomeModel::Breakpoint
    } else if cmd == "date"@ || cmd == "time"@ {
        m1 == m0 && out == OutcomeModel::Date
    } else if cmd == "pwd"@ {
        m1 == m0 && out == OutcomeModel::Print(path_text(m0.cwd).push('\n'))
    } else if cmd == "ls"@ {
        &&& m1 == m0
        &&& out matches OutcomeModel::Print(text)
        &&& ls_text(
            m0,
            (if args.len() > 0 {
                args[0]
            } else {
                "."@
            }),
            text,
        )
    } else if cmd == "cat"@ {
        m1 == m0 && out == OutcomeModel::Print(cat_text(m0, args))
    } else if cmd == "mkdir"@ {
        m1 == paths_after(m0, PathOp::Mkdir, args) && out == OutcomeModel::Print(
            path_op_text(m0, PathOp::Mkdir, args),
        )
    } else if cmd == "touch"@ {
        m1 == paths_after(m0, PathOp::Touch, args) && out == OutcomeModel::Print(
            path_op_text(m0, PathOp::Touch, args),
        )
    } else if cmd == "rm"@ {
        let recursive = args.len() > 0 && is_recursive_flag(args[0]);
        let paths = if recursive {
            args.skip(1)
        } else {
            args
        };
        let op = PathOp::Remove { recursive };
        m1 == paths_after(m0, op, paths) && out == OutcomeModel::Print(path_op_text(m0, op, paths))
    } else if cmd == "cd"@ {
        &&& m1 == after_chdir(m0, cd_path(args))
        &&& out == OutcomeModel::Print(
            match chdir_check(m0.tree, resolve(m0.cwd, cd_path(args))) {
                Ok(_) => Seq::empty(),
                Err(e) => complaint("cd"@, cd_path(args), e),
            },
        )
    } else if cmd == "write"@ {
        m1 == write_after(m0, args) && out == OutcomeModel::Print(write_text(m0, args))
    } else {
        m1 == m0 && out == OutcomeModel::Print(
            "luxx: "@ + cmd + ": command not found (try 'help')\n"@,
        )
    }
}

/// What running a line does to the filesystem, and what it comes to. A line
/// without words does nothing.
pub open spec fn line_done(m0: FsModel, line: Seq<char>, m1: FsModel, out: OutcomeModel) -> bool {
    let ws = words(line);
    if ws.len() == 0 {
        m1 == m0 && out == OutcomeModel::Print(Seq::empty())
    } else {
        command_done(m0, ws[0], ws.skip(1), m1, out)
    }
}

fn drop_first_word(parts: &Vec<String>) -> (r: Vec<String>)
    requires
        parts@.len() > 0,
    ensures
        views(r@) == views(parts@).skip(1),
{
    let mut r: Vec<String> = Vec::new();
    let mut i: usize = 1;
    while i < parts.len()
        invariant
            1 <= i <= parts@.len(),
            r@.len() == i - 1,
            forall|j: int| 0 <= j < i - 1 ==> (#[trigger] r@[j])@ == parts@[j + 1]@,
        decreases parts.len() - i,
    {
        r.push(parts[i].clone());
        i += 1;
    }
    assert(views(r@) =~= views(parts@).skip(1));
    r
}

/// Runs one line: splits it into words and runs the command that the first of
/// them names.
pub fn dispatch(fs: &mut Fs, line: &str) -> (r: Outcome)
    requires
        old(fs).wf(),
    ensures
        final(fs).wf(),
        line_done(old(fs)@, line@, final(fs)@, r@),
{
    let parts = split_whitespace(line);
    if parts.len() == 0 {
        let nothing = String::new();
        assert(nothing@ =~= Seq::<char>::empty());
        return Outcome::Print(nothing);
    }
    let cmd = parts[0].as_str();
    let args = drop_first_word(&parts);
    assert(cmd@ == words(line@)[0]);
    run_command(fs, cmd, args.as_slice())
}

fn run_command(fs: &mut Fs, cmd: &str, args: &[String]) -> (r: Outcome)
    requires
        old(fs).wf(),
    ensures
        final(fs).wf(),
        command_done(old(fs)@, cmd@, views(args@), final(fs)@, r@),
{
    if same_text(cmd, "help") {
        Outcome::Print(cmd_help())
    } else if same_text(cmd, "clear") || same_text(cmd, "cls") {
        Outcome::Clear
    } else if same_text(cmd, "echo") {
        Outcome::Print(cmd_echo(args))
    } else if same_text(cmd, "uname") {
        Outcome::Print(cmd_uname(args))
    } else if same_text(cmd, "mem") || same_text(cmd, "free") {
        Outcome::Mem
    } else if same_text(cmd, "uptime") {
        Outcome::Uptime
    } else if same_text(cmd, "panic") {
        Outcome::Panic(cmd_panic(args))
    } else if same_text(cmd, "reboot") {
        Outcome::Reboot
    } else if same_text(cmd, "exception") || same_text(cmd, "int3") {
        Outcome::Breakpoint
    } else if same_text(cmd, "date") || same_text(cmd, "time") {
        Outcome::Date
    } else {
        run_fs_command(fs, cmd, args)
    }
}

/// The command is one of those that have nothing to do with the filesystem.
spec fn is_machine_command(cmd: Seq<char>) -> bool {
    ||| cmd == "help"@
    ||| cmd == "clear"@
    ||| cmd == "cls"@
    ||| cmd == "echo"@
    ||| cmd == "uname"@
    ||| cmd == "mem"@
    ||| cmd == "free"@
    ||| cmd == "uptime"@
    ||| cmd == "panic"@
    ||| cmd == "reboot"@
    ||| cmd == "exception"@
    ||| cmd == "int3"@
    ||| cmd == "date"@
    ||| cmd == "time"@
}

fn run_fs_command(fs: &mut Fs, cmd: &str, args: &[String]) -> (r: Outcome)
    requires
        old(fs).wf(),
        !is_machine_command(cmd@),
    ensures
        final(fs).wf(),
        command_done(old(fs)@, cmd@, views(args@), final(fs)@, r@),
{
    assert(views(args@).skip(0) =~= views(args@));
    if same_text(cmd, "pwd") {
        let mut s = fs.pwd();
        s.push('\n');
        Outcome::Print(s)
    } else if same_text(cmd, "ls") {
        Outcome::Print(cmd_ls(fs, args))
    } else if same_text(cmd, "cat") {
        Outcome::Print(cmd_cat(fs, args))
    } else if same_text(cmd, "mkdir") {
        Outcome::Print(run_paths(fs, PathOp::Mkdir, args, 0))
    } else if same_text(cmd, "touch") {
        Outcome::Print(run_paths(fs, PathOp::Touch, args, 0))
    } else if same_text(cmd, "rm") {
        let recursive = args.len() > 0 && (same_text(args[0].as_str(), "-r") || same_text(
            args[0].as_str(),
            "-rf",
        ));
        let from: usize = if recursive {
            1
        } else {
            0
        };
        assert(args@.len() > 0 ==> views(args@)[0] == args@[0]@);
        Outcome::Print(run_paths(fs, PathOp::Remove { recursive }, args, from))
    } else if same_text(cmd, "cd") {
        Outcome::Print(cmd_cd(fs, args))
    } else if same_text(cmd, "write") {
        Outcome::Print(cmd_write(fs, args))
    } else {
        let mut s = "luxx: ".to_owned();
        s.append(cmd);
        s.append(": command not found (try 'help')\n");
        Outcome::Print(s)
    }
}

/// Runs a line that was typed: breaks the line on the screen, runs it without the
/// white space around it, and prints what it comes to or clears the screen. What
/// only the machine can do is handed back.
pub fn submit(fs: &mut Fs, w: &mut Writer, line: &str) -> (r: Outcome)
    requires
        old(fs).wf(),
        old(w).wf(),
    ensures
        final(fs).wf(),
        final(w).wf(),
        line_done(old(fs)@, trimmed(line@), final(fs)@, r@),
        final(w)@ == shown_outcome(old(w)@.written(encode_utf8("\n"@)), r@),
{
    w.write_string("\n");
    let text = trim(line);
    let out = dispatch(fs, text.as_str());
    match &out {
        Outcome::Print(s) => w.write_string(s.as_str()),
        Outcome::Clear => vga_buffer::clear_screen(w),
        _ => {},
    }
    out
}

/// The screen after an outcome was shown, as far as the screen alone can.
pub open spec fn shown_outcome(m: WriterModel, out: OutcomeModel) -> WriterModel {
    match out {
        OutcomeModel::Print(s) => m.written(encode_utf8(s)),
        OutcomeModel::Clear => m.cleared(),
        _ => m,
    }
}

// ---------- Laws ----------

/// Only the commands that change files can change the filesystem.
pub proof fn law_reading_changes_nothing(
    m0: FsModel,
    cmd: Seq<char>,
    args: Seq<Seq<char>>,
    m1: FsModel,
    out: OutcomeModel,
)
    requires
        command_done(m0, cmd, args, m1, out),
        cmd != "mkdir"@,
        cmd != "touch"@,
        cmd != "rm"@,
        cmd != "cd"@,
        cmd != "write"@,
    ensures
        m1 == m0,
{
}

/// Text that was written to a file in one line is what `cat` prints in the next.
pub proof fn law_write_then_cat(m: FsModel, path: Seq<char>, rest: Seq<Seq<char>>)
    requires
        crate::vfs::wf_model(m),
        rest.len() > 0,
        write_check(m.tree, resolve(m.cwd, path)) is Ok,
        vstd::utf8::is_ascii_chars(joined(rest, seq![' '])),
    ensures
        write_text(m, seq![path] + rest) == Seq::<char>::empty(),
        cat_text(write_after(m, seq![path] + rest), seq![path]) == joined(rest, seq![' ']),
{
    let args = seq![path] + rest;
    assert(args.skip(1) =~= rest);
    let text = joined(rest, seq![' ']);
    let data = encode_utf8(text);
    crate::vfs::law_read_after_write(m, path, data);
    vstd::utf8::is_ascii_chars_encode_utf8(text);
    let after = write_after(m, args);
    let one = seq![path];
    assert(one.drop_last() =~= Seq::empty());
    assert(cat_all(after, one.drop_last()) == Seq::<char>::empty());
    assert(file_text(data) =~= text);
    assert(Seq::<char>::empty() + cat_one(after, path) =~= text);
}

/// A directory that was made can be entered, and is then the working directory
/// that `pwd` prints.
pub proof fn law_mkdir_then_cd(m: FsModel, path: Seq<char>)
    requires
        crate::vfs::wf_model(m),
        mkdir_check(m.tree, resolve(m.cwd, path)) is Ok,
    ensures
        ({
            let made = paths_after(m, PathOp::Mkdir, seq![path]);
            &&& path_op_text(m, PathOp::Mkdir, seq![path]) == Seq::<char>::empty()
            &&& after_chdir(made, path).cwd == resolve(m.cwd, path)
        }),
{
    let one = seq![path];
    reveal_with_fuel(paths_after, 2);
    reveal_with_fuel(paths_text, 2);
    assert(one.drop_last() =~= Seq::empty());
    crate::vfs::law_mkdir(m, path);
    assert(Seq::<char>::empty() + Seq::<char>::empty() =~= Seq::<char>::empty());
}

// ---------- Laws of the commands ----------

/// Every printable character is typed while the line has room, enter submits the
/// line, backspace and delete erase, and any other control character does nothing.
pub proof fn law_typing(line: Seq<char>, c: char)
    ensures
        ' ' <= c <= '~' && encode_utf8(line).len() < 256 ==> edit_of(line, KeyModel::Unicode(c))
            == Edit::Insert(c),
        encode_utf8(line).len() >= 256 ==> !(edit_of(line, KeyModel::Unicode(c)) is Insert),
        edit_of(line, KeyModel::Unicode('\n')) is Submit,
        line.len() > 0 ==> edit_of(line, KeyModel::Unicode('\u{8}')) is Erase && edit_of(
            line,
            KeyModel::Unicode('\u{7f}'),
        ) is Erase && edit_of(line, KeyModel::Raw("Backspace"@)) is Erase,
        c < ' ' && c != '\n' && c != '\u{8}' ==> edit_of(line, KeyModel::Unicode(c)) is Ignore,
        edit_of(Seq::empty(), KeyModel::Unicode('\u{8}')) is Ignore,
{
}

/// A line runs the command that its first word names, with the other words as its
/// arguments, however much white space stands around them. A line of white space
/// does nothing.
pub proof fn law_line_runs_command(
    m0: FsModel,
    front: Seq<char>,
    cmd: Seq<char>,
    rest: Seq<char>,
    m1: FsModel,
    out: OutcomeModel,
)
    requires
        forall|i: int| 0 <= i < front.len() ==> is_space(#[trigger] front[i]),
        cmd.len() > 0,
        forall|i: int| 0 <= i < cmd.len() ==> !is_space(#[trigger] cmd[i]),
        rest.len() > 0 ==> is_space(rest[0]),
    ensures
        line_done(m0, front + cmd + rest, m1, out) <==> command_done(
            m0,
            cmd,
            words(rest),
            m1,
            out,
        ),
        line_done(m0, front, m1, out) <==> m1 == m0 && out == OutcomeModel::Print(Seq::empty()),
{
    law_one_word(front);
    law_one_word(cmd);
    if front.len() > 0 {
        assert(is_space(front[front.len() - 1]));
    }
    law_words_apart(front, cmd);
    law_words_apart(front + cmd, rest);
    let ws = words(front + cmd + rest);
    assert(ws[0] == cmd);
    assert(ws.skip(1) =~= words(rest));
}

/// What `echo` prints is its arguments, one space between neighbours and none
/// elsewhere, and the end of a line; a panic says the same without it.
pub proof fn law_echo(args: Seq<Seq<char>>, w: Seq<char>)
    ensures
        echo_text(Seq::empty()) == seq!['\n'],
        echo_text(seq![w]) == w.push('\n'),
        args.len() > 0 ==> echo_text(args.push(w)) == echo_text(args).drop_last() + seq![' '] + w
            + seq!['\n'],
        args.len() > 0 ==> panic_text(args).push('\n') == echo_text(args),
        panic_text(Seq::empty()).len() > 0,
{
    assert(seq![w].drop_last() =~= Seq::empty());
    assert(args.push(w).drop_last() =~= args);
    assert(echo_text(Seq::empty()) =~= seq!['\n']);
    assert(echo_text(seq![w]) =~= w.push('\n'));
    assert(echo_text(args).drop_last() =~= joined(args, seq![' ']));
    if args.len() > 0 {
        assert(echo_text(args.push(w)) =~= echo_text(args).drop_last() + seq![' '] + w
            + seq!['\n']);
    }
    reveal_strlit("user-requested panic via shell");
}

/// Where `-a` stands among the arguments of `uname` makes no difference, and neither
/// does anything else there; with it, more is printed behind the same name.
pub proof fn law_uname(a: Seq<Seq<char>>, b: Seq<Seq<char>>)
    ensures
        uname_text(a + seq!["-a"@] + b) == uname_text(seq!["-a"@]),
        !a.contains("-a"@) ==> uname_text(a) == uname_text(Seq::empty()),
        ({
            let short = uname_text(Seq::empty());
            let long = uname_text(seq!["-a"@]);
            &&& short.len() > 1
            &&& long.len() > short.len()
            &&& long.take(short.len() - 1) == short.drop_last()
            &&& short.last() == '\n' && long.last() == '\n'
        }),
{
    let all = a + seq!["-a"@] + b;
    assert(all[a.len() as int] == "-a"@);
    assert(seq!["-a"@][0] == "-a"@);
    assert(!Seq::<Seq<char>>::empty().contains("-a"@));
    reveal_strlit("LUXX-OS 0.1.0 x86_64 BIOS QEMU async/cooperative\n");
    reveal_strlit("LUXX-OS\n");
    let short = "LUXX-OS\n"@;
    let long = "LUXX-OS 0.1.0 x86_64 BIOS QEMU async/cooperative\n"@;
    assert(long.take(7) =~= short.drop_last());
}

/// The numbers in the report on memory can be read where they belong: whole
/// kibibytes and mebibytes of the machine's memory, and of the heap the bytes in
/// use, its size, and the bytes that are free.
pub proof fn law_mem_text(total: nat, used: nat, size: nat, free: nat)
    ensures
        ({
            let s = mem_text(total, used, size, free);
            let a = decimal(total / 1024).len() as int;
            let b = a + decimal(total / 1048576).len() as int;
            let c = b + decimal(used).len() as int;
            let d = c + decimal(size).len() as int;
            let e = d + decimal(free).len() as int;
            &&& s.subrange(10, 10 + a) == decimal(total / 1024)
            &&& s.subrange(23 + a, 23 + b) == decimal(total / 1048576)
            &&& s.subrange(39 + b, 39 + c) == decimal(used)
            &&& s.subrange(42 + c, 42 + d) == decimal(size)
            &&& s.subrange(55 + d, 55 + e) == decimal(free)
            &&& s.len() == 68 + e
            &&& s.last() == '\n'
        }),
{
    reveal_strlit("physical: ");
    reveal_strlit(" KiB usable (");
    reveal_strlit(" MiB)\nheap:     ");
    reveal_strlit(" / ");
    reveal_strlit(" bytes used (");
    reveal_strlit(" bytes free)\n");
    assert(total / 1024 / 1024 == total / 1048576);
    let s = mem_text(total, used, size, free);
    let a = decimal(total / 1024).len() as int;
    let b = a + decimal(total / 1048576).len() as int;
    let c = b + decimal(used).len() as int;
    let d = c + decimal(size).len() as int;
    let e = d + decimal(free).len() as int;
    assert(s.subrange(10, 10 + a) =~= decimal(total / 1024));
    assert(s.subrange(23 + a, 23 + b) =~= decimal(total / 1048576));
    assert(s.subrange(39 + b, 39 + c) =~= decimal(used));
    assert(s.subrange(42 + c, 42 + d) =~= decimal(size));
    assert(s.subrange(55 + d, 55 + e) =~= decimal(free));
}

/// The numbers in the report on the time since boot can be read where they belong,
/// the hundredths with two digits.
pub proof fn law_uptime_text(ticks: nat, whole: nat, hundredths: nat, hz: Seq<char>)
    requires
        hundredths < 100,
    ensures
        ({
            let s = uptime_text(ticks, whole, hundredths, hz);
            let a = decimal(ticks).len() as int;
            let b = a + decimal(whole).len() as int;
            &&& s.subrange(3, 3 + a) == decimal(ticks)
            &&& s.subrange(11 + a, 11 + b) == decimal(whole)
            &&& s[11 + b] == '.'
            &&& 10 * (s[12 + b] as int - 48) + (s[13 + b] as int - 48) == hundredths
            &&& s.subrange(18 + b, 18 + b + hz.len() as int) == hz
            &&& s.len() == 23 + b + hz.len()
        }),
{
    reveal_strlit("up ");
    reveal_strlit(" ticks (");
    reveal_strlit(".");
    reveal_strlit("s @ ");
    reveal_strlit(" Hz)\n");
    crate::text::law_two_digits(hundredths);
    let s = uptime_text(ticks, whole, hundredths, hz);
    let a = decimal(ticks).len() as int;
    let b = a + decimal(whole).len() as int;
    let h = padded(hundredths, 2, '0');
    assert(s.subrange(3, 3 + a) =~= decimal(ticks));
    assert(s.subrange(11 + a, 11 + b) =~= decimal(whole));
    assert(s[12 + b] == h[0] && s[13 + b] == h[1]);
    assert(s.subrange(18 + b, 18 + b + hz.len() as int) =~= hz);
}

/// A complaint names the command, the path as it was given, and what is wrong with
/// it, in this order, on a line of its own.
pub proof fn law_complaint(cmd: Seq<char>, path: Seq<char>, e: FsError)
    ensures
        ({
            let s = complaint(cmd, path, e);
            let a = cmd.len() as int;
            let b = a + path.len() as int;
            &&& s.subrange(0, a) == cmd
            &&& s[a] == ':' && s[a + 1] == ' '
            &&& s.subrange(a + 2, b + 2) == path
            &&& s[b + 2] == ':' && s[b + 3] == ' '
            &&& s.subrange(b + 4, s.len() - 1) == e.text()
            &&& s.last() == '\n'
        }),
{
    reveal_strlit(": ");
    reveal_strlit("\n");
    let s = complaint(cmd, path, e);
    let a = cmd.len() as int;
    let b = a + path.len() as int;
    assert(s.subrange(0, a) =~= cmd);
    assert(s.subrange(a + 2, b + 2) =~= path);
    assert(s.subrange(b + 4, s.len() - 1) =~= e.text());
}

/// A file is printed byte by byte: ASCII as it is, and a question mark for any other
/// byte.
pub proof fn law_file_text(data: Seq<u8>)
    ensures
        file_text(data).len() == data.len(),
        forall|i: int|
            0 <= i < data.len() ==> if data[i] < 128 {
                #[trigger] file_text(data)[i] as int == data[i]
            } else {
                file_text(data)[i] == '?'
            },
{
}

/// `cat` prints one file after the other, each as if it were the only one; what
/// cannot be read is complained of in its place.
pub proof fn law_cat_in_order(m: FsModel, xs: Seq<Seq<char>>, ys: Seq<Seq<char>>, path: Seq<char>)
    ensures
        xs.len() > 0 && ys.len() > 0 ==> cat_text(m, xs + ys) == cat_text(m, xs) + cat_text(m, ys),
        match walk(m.tree, resolve(m.cwd, path)) {
            Ok(Item::File(data)) => cat_text(m, seq![path]) == file_text(data),
            Ok(Item::Dir) => cat_text(m, seq![path]) == complaint(
                "cat"@,
                path,
                FsError::NotAFile,
            ),
            Err(e) => cat_text(m, seq![path]) == complaint("cat"@, path, e),
        },
{
    lemma_cat_concat(m, xs, ys);
    assert(seq![path].drop_last() =~= Seq::empty());
    reveal_with_fuel(cat_all, 2);
    assert(Seq::<char>::empty() + cat_one(m, path) =~= cat_one(m, path));
}

proof fn lemma_cat_concat(m: FsModel, xs: Seq<Seq<char>>, ys: Seq<Seq<char>>)
    ensures
        cat_all(m, xs + ys) == cat_all(m, xs) + cat_all(m, ys),
    decreases ys.len(),
{
    if ys.len() == 0 {
        assert(xs + ys =~= xs);
        assert(cat_all(m, xs) + cat_all(m, ys) =~= cat_all(m, xs));
    } else {
        lemma_cat_concat(m, xs, ys.drop_last());
        assert((xs + ys).drop_last() =~= xs + ys.drop_last());
        assert((xs + ys).last() == ys.last());
        assert(cat_all(m, xs + ys) =~= cat_all(m, xs) + cat_all(m, ys));
    }
}

/// A command on several paths does to each what it does to one, after those before
/// it, and says of each what it says of one.
pub proof fn law_paths_in_order(
    m: FsModel,
    op: PathOp,
    xs: Seq<Seq<char>>,
    ys: Seq<Seq<char>>,
    path: Seq<char>,
)
    ensures
        paths_after(m, op, xs + ys) == paths_after(paths_after(m, op, xs), op, ys),
        xs.len() > 0 && ys.len() > 0 ==> path_op_text(m, op, xs + ys) == path_op_text(m, op, xs)
            + path_op_text(paths_after(m, op, xs), op, ys),
        paths_after(m, PathOp::Mkdir, seq![path]) == after_mkdir(m, path),
        paths_after(m, PathOp::Touch, seq![path]) == after_write(m, path, Seq::empty()),
        paths_after(m, PathOp::Remove { recursive: true }, seq![path]) == after_remove(
            m,
            path,
            true,
        ),
        paths_after(m, PathOp::Remove { recursive: false }, seq![path]) == after_remove(
            m,
            path,
            false,
        ),
        path_op_text(m, op, seq![path]) == match op.check(m, path) {
            Ok(_) => Seq::empty(),
            Err(e) => complaint(op.name(), path, e),
        },
{
    lemma_paths_concat(m, op, xs, ys);
    reveal_with_fuel(paths_after, 2);
    reveal_with_fuel(paths_text, 2);
    assert(seq![path].drop_last() =~= Seq::empty());
    assert(path_op_text(m, op, seq![path]) =~= match op.check(m, path) {
        Ok(_) => Seq::empty(),
        Err(e) => complaint(op.name(), path, e),
    });
}

proof fn lemma_paths_concat(m: FsModel, op: PathOp, xs: Seq<Seq<char>>, ys: Seq<Seq<char>>)
    ensures
        paths_after(m, op, xs + ys) == paths_after(paths_after(m, op, xs), op, ys),
        paths_text(m, op, xs + ys) == paths_text(m, op, xs) + paths_text(
            paths_after(m, op, xs),
            op,
            ys,
        ),
    decreases ys.len(),
{
    let mid = paths_after(m, op, xs);
    if ys.len() == 0 {
        assert(xs + ys =~= xs);
        assert(paths_text(m, op, xs) + paths_text(mid, op, ys) =~= paths_text(m, op, xs));
    } else {
        lemma_paths_concat(m, op, xs, ys.drop_last());
        assert((xs + ys).drop_last() =~= xs + ys.drop_last());
        assert((xs + ys).last() == ys.last());
        assert(paths_text(m, op, xs + ys) =~= paths_text(m, op, xs) + paths_text(mid, op, ys));
    }
}

/// A number by which the names of the commands can be told apart.
spec fn mark(name: Seq<char>) -> int {
    1_000_000 * name.len() + 1000 * (name[0] as int) + name[1] as int
}

/// The names of the commands are all different.
proof fn lemma_command_names()
    ensures
        mark("help"@) == 4_104_101,
        mark("clear"@) == 5_099_108,
        mark("cls"@) == 3_099_108,
        mark("echo"@) == 4_101_099,
        mark("uname"@) == 5_117_110,
        mark("mem"@) == 3_109_101,
        mark("free"@) == 4_102_114,
        mark("uptime"@) == 6_117_112,
        mark("panic"@) == 5_112_097,
        mark("reboot"@) == 6_114_101,
        mark("exception"@) == 9_101_120,
        mark("int3"@) == 4_105_110,
        mark("date"@) == 4_100_097,
        mark("time"@) == 4_116_105,
        mark("pwd"@) == 3_112_119,
        mark("ls"@) == 2_108_115,
        mark("cat"@) == 3_099_097,
        mark("mkdir"@) == 5_109_107,
        mark("touch"@) == 5_116_111,
        mark("rm"@) == 2_114_109,
        mark("cd"@) == 2_099_100,
        mark("write"@) == 5_119_114,
{
    reveal_strlit("help");
    reveal_strlit("clear");
    reveal_strlit("cls");
    reveal_strlit("echo");
    reveal_strlit("uname");
    reveal_strlit("mem");
    reveal_strlit("free");
    reveal_strlit("uptime");
    reveal_strlit("panic");
    reveal_strlit("reboot");
    reveal_strlit("exception");
    reveal_strlit("int3");
    reveal_strlit("date");
    reveal_strlit("time");
    reveal_strlit("pwd");
    reveal_strlit("ls");
    reveal_strlit("cat");
    reveal_strlit("mkdir");
    reveal_strlit("touch");
    reveal_strlit("rm");
    reveal_strlit("cd");
    reveal_strlit("write");
}

/// The commands on the filesystem do what their names say: to the paths that are
/// given, or `cd` to the root; `rm` takes directories with what is in them only
/// behind one of its flags; `write` puts the other arguments into the file, one
/// space between neighbours.
pub proof fn law_commands(
    m0: FsModel,
    path: Seq<char>,
    text: Seq<Seq<char>>,
    m1: FsModel,
    out: OutcomeModel,
)
    requires
        path != "-r"@,
        path != "-rf"@,
    ensures
        command_done(m0, "mkdir"@, seq![path], m1, out) ==> m1 == after_mkdir(m0, path),
        command_done(m0, "touch"@, seq![path], m1, out) ==> m1 == after_write(
            m0,
            path,
            Seq::empty(),
        ),
        command_done(m0, "rm"@, seq![path], m1, out) ==> m1 == after_remove(m0, path, false),
        command_done(m0, "rm"@, seq!["-r"@, path], m1, out) ==> m1 == after_remove(m0, path, true),
        command_done(m0, "rm"@, seq!["-rf"@, path], m1, out) ==> m1 == after_remove(m0, path, true),
        command_done(m0, "cd"@, seq![path], m1, out) ==> m1 == after_chdir(m0, path),
        command_done(m0, "cd"@, Seq::empty(), m1, out) ==> m1 == after_chdir(m0, seq!['/']),
        text.len() > 0 && command_done(m0, "write"@, seq![path] + text, m1, out) ==> m1
            == after_write(m0, path, encode_utf8(echo_text(text).drop_last())),
        command_done(m0, "pwd"@, text, m1, out) ==> out == OutcomeModel::Print(
            path_text(m0.cwd) + seq!['\n'],
        ),
        command_done(m0, "cat"@, seq![path], m1, out) ==> out == OutcomeModel::Print(
            cat_text(m0, seq![path]),
        ),
        command_done(m0, "echo"@, text, m1, out) ==> out == OutcomeModel::Print(echo_text(text)),
{
    lemma_command_names();
    let none = Seq::<Seq<char>>::empty();
    law_paths_in_order(m0, PathOp::Mkdir, none, none, path);
    assert(seq!["-r"@, path].skip(1) =~= seq![path]);
    assert(seq!["-rf"@, path].skip(1) =~= seq![path]);
    assert((seq![path] + text).skip(1) =~= text);
    assert(echo_text(text).drop_last() =~= joined(text, seq![' ']));
    reveal_strlit("/");
    assert("/"@ =~= seq!['/']);
    assert(path_text(m0.cwd).push('\n') =~= path_text(m0.cwd) + seq!['\n']);
}

/// A command that is not known is named in the answer, and changes nothing.
pub proof fn law_unknown_command(
    m0: FsModel,
    cmd: Seq<char>,
    args: Seq<Seq<char>>,
    m1: FsModel,
    out: OutcomeModel,
)
    requires
        command_done(m0, cmd, args, m1, out),
        !is_command(cmd),
    ensures
        m1 == m0,
        out matches OutcomeModel::Print(s) && s.len() > cmd.len() + 6 && s.subrange(
            6,
            6 + cmd.len() as int,
        ) == cmd && s[6 + cmd.len() as int] == ':' && s.last() == '\n',
{
    reveal_strlit("luxx: ");
    reveal_strlit(": command not found (try 'help')\n");
    let s = "luxx: "@ + cmd + ": command not found (try 'help')\n"@;
    assert(s.subrange(6, 6 + cmd.len() as int) =~= cmd);
}

/// The shell has a command of that name.
pub open spec fn is_command(cmd: Seq<char>) -> bool {
    ||| cmd == "help"@
    ||| cmd == "clear"@
    ||| cmd == "cls"@
    ||| cmd == "echo"@
    ||| cmd == "uname"@
    ||| cmd == "mem"@
    ||| cmd == "free"@
    ||| cmd == "uptime"@
    ||| cmd == "panic"@
    ||| cmd == "reboot"@
    ||| cmd == "exception"@
    ||| cmd == "int3"@
    ||| cmd == "date"@
    ||| cmd == "time"@
    ||| cmd == "pwd"@
    ||| cmd == "ls"@
    ||| cmd == "cat"@
    ||| cmd == "mkdir"@
    ||| cmd == "touch"@
    ||| cmd == "rm"@
    ||| cmd == "cd"@
    ||| cmd == "write"@
}

/// The commands for the machine are handed on, under each of their names, and leave
/// the filesystem alone.
pub proof fn law_machine_commands(
    m0: FsModel,
    args: Seq<Seq<char>>,
    m1: FsModel,
    out: OutcomeModel,
)
    ensures
        command_done(m0, "clear"@, args, m1, out) ==> out is Clear && m1 == m0,
        command_done(m0, "cls"@, args, m1, out) ==> out is Clear && m1 == m0,
        command_done(m0, "mem"@, args, m1, out) ==> out is Mem && m1 == m0,
        command_done(m0, "free"@, args, m1, out) ==> out is Mem && m1 == m0,
        command_done(m0, "uptime"@, args, m1, out) ==> out is Uptime && m1 == m0,
        command_done(m0, "date"@, args, m1, out) ==> out is Date && m1 == m0,
        command_done(m0, "time"@, args, m1, out) ==> out is Date && m1 == m0,
        command_done(m0, "reboot"@, args, m1, out) ==> out is Reboot && m1 == m0,
        command_done(m0, "int3"@, args, m1, out) ==> out is Breakpoint && m1 == m0,
        command_done(m0, "exception"@, args, m1, out) ==> out is Breakpoint && m1 == m0,
        command_done(m0, "panic"@, args, m1, out) ==> out == OutcomeModel::Panic(panic_text(args))
            && m1 == m0,
        command_done(m0, "uname"@, args, m1, out) ==> out == OutcomeModel::Print(uname_text(args))
            && m1 == m0,
        command_done(m0, "help"@, args, m1, out) ==> out == OutcomeModel::Print(HELP@) && m1 == m0,
{
    lemma_command_names();
}

/// `ls` shows a file by its name, a directory by its listing, and the working
/// directory where no path is given.
pub proof fn law_ls(
    m: FsModel,
    d: Seq<Seq<char>>,
    n: Seq<char>,
    path: Seq<char>,
    m1: FsModel,
    out: OutcomeModel,
)
    ensures
        command_done(m, "ls"@, seq![path], m1, out) && resolve(m.cwd, path) == d.push(n) && walk(
            m.tree,
            d.push(n),
        ) is Ok && walk(m.tree, d.push(n))->Ok_0 is File ==> out == OutcomeModel::Print(
            n + seq!['\n'],
        ),
        command_done(m, "ls"@, Seq::empty(), m1, out) && walk(m.tree, m.cwd) == Ok::<
            Item,
            FsError,
        >(Item::Dir) ==> exists|v: Seq<(String, bool)>|
            is_listing(m.tree, m.cwd, v) && out == OutcomeModel::Print(#[trigger] listing_text(v)),
{
    lemma_command_names();
    reveal_strlit(".");
    assert("."@ =~= seq!['.']);
    assert(seq!['x'][0] == 'x' && seq!['.'][0] == '.' && seq!['.', '.'][0] == '.');
    crate::vfs::law_resolve_one(m.cwd, seq!['x']);
    assert(n.push('\n') =~= n + seq!['\n']);
    assert(d.push(n).last() == n);
}

/// A line of up to 256 printable characters is typed as it is, and erasing as many
/// characters as were typed gives back the line that there was.
pub proof fn law_line_typed(line: Seq<char>, chars: Seq<char>)
    requires
        vstd::utf8::is_ascii_chars(line),
        forall|i: int| 0 <= i < chars.len() ==> ' ' <= #[trigger] chars[i] <= '~',
        line.len() + chars.len() <= 256,
    ensures
        line_typed(line, chars) == line + chars,
        vstd::utf8::is_ascii_chars(line + chars),
        line_typed(line + chars, Seq::new(chars.len(), |i: int| '\u{8}')) == line,
        line_after(line + chars, KeyModel::Unicode('\n')).len() == 0,
    decreases chars.len(),
{
    if chars.len() == 0 {
        assert(line + chars =~= line);
        let none = Seq::new(0, |i: int| '\u{8}');
        assert(none.len() == 0);
    } else {
        let init = chars.drop_last();
        let c = chars.last();
        assert forall|i: int| 0 <= i < init.len() implies ' ' <= #[trigger] init[i] <= '~' by {
            assert(init[i] == chars[i]);
        }
        law_line_typed(line, init);
        assert(' ' <= chars[chars.len() - 1] <= '~');
        vstd::utf8::is_ascii_chars_encode_utf8(line + init);
        assert((line + init).push(c) =~= line + chars);
        law_typing(line + init, c);
        assert(vstd::utf8::is_ascii_chars(line + chars)) by {
            let all = line + chars;
            assert forall|i: int| 0 <= i < all.len() implies 0 <= #[trigger] all[i] as nat && (
            all[i] as nat) < 128 by {
                if i < (line + init).len() {
                    assert(all[i] == (line + init)[i]);
                }
            }
        }
        lemma_erase_many(line + chars, chars.len());
        assert((line + chars).take(line.len() as int) =~= line);
    }
}

proof fn lemma_erase_many(line: Seq<char>, n: nat)
    requires
        n <= line.len(),
    ensures
        line_typed(line, Seq::new(n, |i: int| '\u{8}')) == line.take(line.len() - n),
    decreases n,
{
    let keys = Seq::new(n, |i: int| '\u{8}');
    if n == 0 {
        assert(line.take(line.len() as int) =~= line);
    } else {
        let fewer = Seq::new((n - 1) as nat, |i: int| '\u{8}');
        assert(keys.drop_last() =~= fewer);
        lemma_erase_many(line, (n - 1) as nat);
        let before = line.take(line.len() - (n - 1));
        assert(before.drop_last() =~= line.take(line.len() - n));
    }
}

} // verus!
