use aioc::drivers::rtc::DateTime;
use aioc::shell::{
    cmd_date, cmd_mem, cmd_uptime, dispatch, print_banner, redraw_prompt, submit, LineEditor,
    Outcome,
};
use aioc::task::keyboard::{DecodedKey, KeyDecoder};
use aioc::vfs::Fs;
use aioc::vga_buffer::{Buffer, Writer};
use volatile::Volatile;

fn writer() -> Writer {
    let buffer: Box<Buffer> =
        Box::new(std::array::from_fn(|_| std::array::from_fn(|_| Volatile::new(0x0720u16))));
    Writer::new(buffer)
}

fn text(w: &Writer, r: usize) -> String {
    let line: String = (0..80).map(|c| w.read_cell(r, c).0 as char).collect();
    line.trim_end().to_string()
}

fn printed(fs: &mut Fs, line: &str) -> String {
    match dispatch(fs, line) {
        Outcome::Print(s) => s,
        other => panic!("{other:?}"),
    }
}

fn key(c: char) -> DecodedKey {
    DecodedKey::Unicode(c)
}

#[test]
fn the_banner_and_the_prompt() {
    let mut w = writer();
    print_banner(&mut w);
    redraw_prompt(&mut w);
    assert_eq!(text(&w, 0), "AiOC 0.1.0 -- type 'help' for commands");
    assert_eq!(text(&w, 1), "(c) 2026 - x86_64 kernel in Rust");
    assert_eq!(text(&w, 2), "AiOC>");
    w.write_string("x");
    assert_eq!(text(&w, 2), "AiOC> x");
}

#[test]
fn a_line_is_edited() {
    let mut w = writer();
    let mut e = LineEditor::new();
    for c in "lx\u{8}s \u{1b}/".chars() {
        assert_eq!(e.handle_key(&mut w, &key(c)), None);
    }
    assert_eq!(e.handle_key(&mut w, &key('q')), None);
    assert_eq!(e.handle_key(&mut w, &key('\u{7f}')), None);
    assert_eq!(e.handle_key(&mut w, &key('t')), None);
    let back = DecodedKey::RawKey(String::from("Backspace"));
    let up = DecodedKey::RawKey(String::from("ArrowUp"));
    assert_eq!(e.handle_key(&mut w, &up), None);
    assert_eq!(e.handle_key(&mut w, &back), None);
    assert_eq!(text(&w, 0), "ls /");
    assert_eq!(e.handle_key(&mut w, &key('\n')), Some(String::from("ls /")));
    assert_eq!(e.handle_key(&mut w, &key('\n')), Some(String::new()));
}

#[test]
fn erasing_at_the_beginning_of_a_line_does_nothing() {
    let mut w = writer();
    redraw_prompt(&mut w);
    let mut e = LineEditor::new();
    assert_eq!(e.handle_key(&mut w, &key('\u{8}')), None);
    assert_eq!(text(&w, 0), "AiOC>");
}

#[test]
fn a_line_has_an_end() {
    let mut w = writer();
    let mut e = LineEditor::new();
    for _ in 0..300 {
        e.handle_key(&mut w, &key('a'));
    }
    assert_eq!(e.handle_key(&mut w, &key('\n')).map(|s| s.len()), Some(256));
    for _ in 0..255 {
        e.handle_key(&mut w, &key('a'));
    }
    for _ in 0..5 {
        e.handle_key(&mut w, &key('\u{1f600}'));
    }
    assert_eq!(e.handle_key(&mut w, &key('\n')).map(|s| s.len()), Some(259));
}

#[test]
fn keys_of_the_keyboard_make_a_line() {
    let mut w = writer();
    let mut d = KeyDecoder::new();
    let mut e = LineEditor::new();
    let mut lines = Vec::new();
    for s in [0x26u8, 0xA6, 0x1F, 0x9F, 0x20, 0x0E, 0x1C] {
        if let Some(k) = d.decode(s) {
            lines.extend(e.handle_key(&mut w, &k));
        }
    }
    assert_eq!(lines, vec!["ls"]);
}

#[test]
fn help_names_the_commands() {
    let help = printed(&mut Fs::new(), "help");
    assert_eq!(help.lines().count(), 19);
    assert_eq!(help.lines().next(), Some("Built-in commands:"));
    assert_eq!(help.lines().last(), Some("  reboot              reset the machine"));
    assert!(help.contains("  write <path> <txt>  write text into a file\n"));
}

#[test]
fn echo_and_uname() {
    let mut fs = Fs::new();
    assert_eq!(printed(&mut fs, "echo"), "\n");
    assert_eq!(printed(&mut fs, "echo  a   b"), "a b\n");
    assert_eq!(printed(&mut fs, "uname"), "LUXX-OS\n");
    assert_eq!(
        printed(&mut fs, "uname x -a"),
        "LUXX-OS 0.1.0 x86_64 BIOS QEMU async/cooperative\n"
    );
}

#[test]
fn what_only_the_machine_can_do() {
    let mut fs = Fs::new();
    assert!(matches!(dispatch(&mut fs, "clear"), Outcome::Clear));
    assert!(matches!(dispatch(&mut fs, "cls"), Outcome::Clear));
    assert!(matches!(dispatch(&mut fs, "mem"), Outcome::Mem));
    assert!(matches!(dispatch(&mut fs, "free"), Outcome::Mem));
    assert!(matches!(dispatch(&mut fs, "uptime"), Outcome::Uptime));
    assert!(matches!(dispatch(&mut fs, "date"), Outcome::Date));
    assert!(matches!(dispatch(&mut fs, "time"), Outcome::Date));
    assert!(matches!(dispatch(&mut fs, "reboot"), Outcome::Reboot));
    assert!(matches!(dispatch(&mut fs, "int3"), Outcome::Breakpoint));
    assert!(matches!(dispatch(&mut fs, "exception"), Outcome::Breakpoint));
    assert!(matches!(dispatch(&mut fs, "panic"),
        Outcome::Panic(m) if m == "user-requested panic via shell"));
    assert!(matches!(dispatch(&mut fs, "panic oh  no"), Outcome::Panic(m) if m == "oh no"));
}

#[test]
fn lines_that_are_no_command() {
    let mut fs = Fs::new();
    assert_eq!(printed(&mut fs, ""), "");
    assert_eq!(printed(&mut fs, "  \t"), "");
    assert_eq!(printed(&mut fs, "LS"), "luxx: LS: command not found (try 'help')\n");
}

#[test]
fn commands_on_files() {
    let mut fs = Fs::new();
    assert_eq!(printed(&mut fs, "pwd"), "/\n");
    assert_eq!(printed(&mut fs, "ls"), "etc/\nhome/\ntmp/\n");
    assert_eq!(printed(&mut fs, "ls tmp"), "(empty)\n");
    assert_eq!(printed(&mut fs, "ls x y"), "ls: x: no such file or directory\n");
    assert_eq!(printed(&mut fs, "mkdir /home/me /etc"), "mkdir: /etc: already exists\n");
    assert_eq!(printed(&mut fs, "cd /home/me"), "");
    assert_eq!(printed(&mut fs, "pwd"), "/home/me\n");
    assert_eq!(printed(&mut fs, "touch a b"), "");
    assert_eq!(printed(&mut fs, "ls ."), "a\nb\n");
    assert_eq!(printed(&mut fs, "rm a c b"), "rm: c: no such file or directory\n");
    assert_eq!(printed(&mut fs, "cd"), "");
    assert_eq!(printed(&mut fs, "pwd"), "/\n");
    assert_eq!(printed(&mut fs, "rm home"), "rm: home: directory not empty (use -r)\n");
    assert_eq!(printed(&mut fs, "rm -r home"), "");
    assert_eq!(printed(&mut fs, "rm -rf etc"), "");
    assert_eq!(printed(&mut fs, "ls /"), "tmp/\n");
    assert_eq!(printed(&mut fs, "cd /nope"), "cd: /nope: no such file or directory\n");
}

#[test]
fn what_is_written_is_shown() {
    let mut fs = Fs::new();
    assert_eq!(printed(&mut fs, "write /home/x hi   there"), "");
    assert_eq!(printed(&mut fs, "cat /home/x"), "hi there");
    assert_eq!(printed(&mut fs, "cat /home/x /nope /etc/hostname /etc"),
        "hi therecat: /nope: no such file or directory\nluxx-vm\ncat: /etc: is a directory\n");
    fs.write_file("/raw", &[b'a', 0xC3, 0xA9, b'\n']).unwrap();
    assert_eq!(printed(&mut fs, "cat raw"), "a??\n");
}

#[test]
fn reading_changes_nothing() {
    let mut fs = Fs::new();
    fs.chdir("/home").unwrap();
    for line in ["ls /", "pwd", "cat /etc/motd", "echo x", "help", "nope", "rmdir /tmp", ""] {
        let _ = dispatch(&mut fs, line);
    }
    assert_eq!(fs.pwd(), "/home");
    assert_eq!(fs.list("/"), Fs::new().list("/"));
    assert_eq!(fs.list("/etc"), Fs::new().list("/etc"));
}

#[test]
fn operands_that_are_missing() {
    let mut fs = Fs::new();
    assert_eq!(printed(&mut fs, "cat"), "cat: missing operand\n");
    assert_eq!(printed(&mut fs, "mkdir"), "mkdir: missing operand\n");
    assert_eq!(printed(&mut fs, "touch"), "touch: missing operand\n");
    assert_eq!(printed(&mut fs, "rm"), "rm: missing operand\n");
    assert_eq!(printed(&mut fs, "rm -r"), "rm: missing operand\n");
    assert_eq!(printed(&mut fs, "write"), "write: usage: write <path> <text...>\n");
    assert_eq!(printed(&mut fs, "write x"), "write: usage: write <path> <text...>\n");
    assert_eq!(printed(&mut fs, "write / x"), "write: /: invalid path\n");
}

#[test]
fn a_line_is_run_on_the_screen() {
    let mut w = writer();
    let mut fs = Fs::new();
    redraw_prompt(&mut w);
    assert!(matches!(submit(&mut fs, &mut w, "  echo hi "), Outcome::Print(s) if s == "hi\n"));
    assert_eq!(text(&w, 0), "AiOC>");
    assert_eq!(text(&w, 1), "hi");
    assert!(matches!(submit(&mut fs, &mut w, "cls"), Outcome::Clear));
    assert_eq!(text(&w, 1), "");
    redraw_prompt(&mut w);
    assert_eq!(text(&w, 24), "AiOC>");
}

#[test]
fn reports() {
    assert_eq!(
        cmd_mem(3 * 1024 * 1024 + 1536, 10, 100, 90),
        "physical: 3073 KiB usable (3 MiB)\nheap:     10 / 100 bytes used (90 bytes free)\n"
    );
    let now = DateTime { year: 2026, month: 11, day: 5, hour: 1, minute: 2, second: 3 };
    assert_eq!(cmd_date(&now), "Thu Nov  5 01:02:03 UTC 2026\n");
    assert_eq!(cmd_uptime(1234, 12, 4, "100.00"), "up 1234 ticks (12.04s @ 100.00 Hz)\n");
}
