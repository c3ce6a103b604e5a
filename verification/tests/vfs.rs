use aioc::vfs::{format_listing, Fs, FsError, Node};

fn names(fs: &Fs, path: &str) -> Vec<(String, bool)> {
    fs.list(path).unwrap()
}

fn entry(name: &str, is_dir: bool) -> (String, bool) {
    (name.to_string(), is_dir)
}

#[test]
fn boot_tree() {
    let fs = Fs::new();
    assert_eq!(fs.pwd(), "/");
    assert_eq!(names(&fs, "/"), vec![entry("etc", true), entry("home", true), entry("tmp", true)]);
    assert_eq!(names(&fs, "/etc"), vec![entry("hostname", false), entry("motd", false)]);
    assert_eq!(fs.read_file("/etc/hostname"), Ok(b"luxx-vm\n".to_vec()));
    assert_eq!(
        fs.read_file("/etc/motd"),
        Ok(b"Welcome to LUXX-OS in-memory VFS.\nRoot is /.\n".to_vec())
    );
    assert_eq!(Fs::default().pwd(), "/");
    assert_eq!(names(&Fs::default(), "."), names(&fs, "/"));
}

#[test]
fn nodes() {
    assert!(Node::new_dir().is_dir());
    let file = Node::new_file(b"abc");
    assert!(!file.is_dir());
    assert_eq!(format!("{file:?}"), "File([97, 98, 99])");
    assert!(matches!(file, Node::File(data) if data == b"abc"));
}

#[test]
fn paths_are_resolved() {
    let mut fs = Fs::new();
    assert_eq!(fs.chdir("etc"), Ok(()));
    assert_eq!(fs.pwd(), "/etc");
    assert_eq!(fs.read_file("hostname"), fs.read_file("/etc/hostname"));
    assert_eq!(fs.read_file("./../etc//hostname"), fs.read_file("/etc/hostname"));
    assert_eq!(fs.chdir("../../../home"), Ok(()));
    assert_eq!(fs.pwd(), "/home");
    assert_eq!(fs.chdir(""), Ok(()));
    assert_eq!(fs.pwd(), "/home");
    assert_eq!(fs.chdir("/"), Ok(()));
    assert_eq!(fs.pwd(), "/");
}

#[test]
fn what_is_written_is_read() {
    let mut fs = Fs::new();
    let motd = fs.read_file("/etc/motd");
    assert_eq!(fs.write_file("/home/x", b"hi"), Ok(()));
    assert_eq!(fs.read_file("/home/x"), Ok(b"hi".to_vec()));
    assert_eq!(fs.write_file("/home/x", b"again"), Ok(()));
    assert_eq!(fs.read_file("/home/x"), Ok(b"again".to_vec()));
    assert_eq!(fs.read_file("/etc/motd"), motd);
    assert_eq!(fs.touch("/home/x"), Ok(()));
    assert_eq!(fs.read_file("/home/x"), Ok(Vec::new()));
}

#[test]
fn listings_are_sorted() {
    let mut fs = Fs::new();
    for name in ["zeta", "alpha", "Mid", "beta"] {
        assert_eq!(fs.touch(name), Ok(()));
    }
    let listed: Vec<String> = names(&fs, "/").into_iter().map(|(n, _)| n).collect();
    assert_eq!(listed, vec!["Mid", "alpha", "beta", "etc", "home", "tmp", "zeta"]);
    assert_eq!(names(&fs, "/zeta"), vec![entry("zeta", false)]);
}

#[test]
fn directories_are_made() {
    let mut fs = Fs::new();
    assert_eq!(fs.mkdir("/home/me"), Ok(()));
    assert_eq!(names(&fs, "/home"), vec![entry("me", true)]);
    assert_eq!(names(&fs, "/home/me"), Vec::new());
    assert_eq!(fs.chdir("/home/me"), Ok(()));
    assert_eq!(fs.mkdir("deeper"), Ok(()));
    assert_eq!(names(&fs, "/home/me"), vec![entry("deeper", true)]);
}

#[test]
fn what_is_refused() {
    let mut fs = Fs::new();
    assert_eq!(fs.read_file("/nope"), Err(FsError::NotFound));
    assert_eq!(fs.read_file("/etc"), Err(FsError::NotAFile));
    assert_eq!(fs.read_file("/etc/motd/x"), Err(FsError::NotADirectory));
    assert_eq!(fs.list("/nope/x"), Err(FsError::NotFound));
    assert_eq!(fs.chdir("/etc/motd"), Err(FsError::NotADirectory));
    assert_eq!(fs.chdir("/nope"), Err(FsError::NotFound));
    assert_eq!(fs.mkdir("/"), Err(FsError::AlreadyExists));
    assert_eq!(fs.mkdir("/etc"), Err(FsError::AlreadyExists));
    assert_eq!(fs.mkdir("/etc/motd"), Err(FsError::AlreadyExists));
    assert_eq!(fs.mkdir("/etc/motd/x"), Err(FsError::NotADirectory));
    assert_eq!(fs.mkdir("/a/b"), Err(FsError::NotFound));
    assert_eq!(fs.write_file("/", b"x"), Err(FsError::InvalidPath));
    assert_eq!(fs.write_file("/etc", b"x"), Err(FsError::AlreadyExists));
    assert_eq!(fs.write_file("/etc/motd/x", b"x"), Err(FsError::NotADirectory));
    assert_eq!(fs.touch("/a/b"), Err(FsError::NotFound));
    assert_eq!(fs.remove("/", true), Err(FsError::InvalidPath));
    assert_eq!(fs.remove("/nope", true), Err(FsError::NotFound));
    assert_eq!(fs.remove("/etc", false), Err(FsError::DirectoryNotEmpty));
    assert_eq!(fs.remove("/etc/motd/x", false), Err(FsError::NotADirectory));
    assert_eq!(fs.pwd(), "/");
    assert_eq!(names(&fs, "/"), names(&Fs::new(), "/"));
    assert_eq!(names(&fs, "/etc"), names(&Fs::new(), "/etc"));
}

#[test]
fn removing() {
    let mut fs = Fs::new();
    assert_eq!(fs.remove("/tmp", false), Ok(()));
    assert_eq!(fs.list("/tmp"), Err(FsError::NotFound));
    assert_eq!(fs.remove("/etc/motd", false), Ok(()));
    assert_eq!(fs.read_file("/etc/motd"), Err(FsError::NotFound));
    assert_eq!(fs.read_file("/etc/hostname"), Ok(b"luxx-vm\n".to_vec()));
    assert_eq!(fs.remove("/etc", true), Ok(()));
    assert_eq!(names(&fs, "/"), vec![entry("home", true)]);
}

#[test]
fn removing_where_one_is() {
    let mut fs = Fs::new();
    fs.mkdir("/home/a").unwrap();
    fs.mkdir("/home/a/b").unwrap();
    fs.chdir("/home/a/b").unwrap();
    assert_eq!(fs.remove("/home/a", false), Err(FsError::DirectoryNotEmpty));
    assert_eq!(fs.pwd(), "/home/a/b");
    assert_eq!(fs.remove("/home/a", true), Ok(()));
    assert_eq!(fs.pwd(), "/");
    fs.chdir("/home").unwrap();
    assert_eq!(fs.remove("/tmp", false), Ok(()));
    assert_eq!(fs.pwd(), "/home");
}

#[test]
fn descriptions() {
    let cases = [
        (FsError::NotFound, "no such file or directory"),
        (FsError::NotADirectory, "not a directory"),
        (FsError::NotAFile, "is a directory"),
        (FsError::AlreadyExists, "already exists"),
        (FsError::DirectoryNotEmpty, "directory not empty (use -r)"),
        (FsError::InvalidPath, "invalid path"),
        (FsError::EmptyName, "missing operand"),
    ];
    for (error, text) in cases {
        assert_eq!(error.description(), text);
    }
}

#[test]
fn listings_as_text() {
    assert_eq!(format_listing(&[]), "(empty)\n");
    assert_eq!(format_listing(&[entry("etc", true), entry("x", false)]), "etc/\nx\n");
}

#[test]
fn the_text_of_a_path_means_that_path() {
    let mut fs = Fs::new();
    fs.mkdir("/home/me").unwrap();
    for path in ["/", "/home", "/home/me"] {
        fs.chdir(path).unwrap();
        let here = fs.pwd();
        assert_eq!(here, path);
        fs.chdir("/tmp").unwrap();
        fs.chdir(&here).unwrap();
        assert_eq!(fs.pwd(), here);
    }
}
