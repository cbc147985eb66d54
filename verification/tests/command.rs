use imgmaker::command::{
    extracted_name, parse_args, progress_line, read_line, sha1_line, temp_name, Action,
};

fn args(list: &[&str]) -> Vec<String> {
    list.iter().map(|s| s.to_string()).collect()
}

#[test]
fn actions_with_their_files() {
    assert!(matches!(parse_args(&args(&["p", "-i", "a"])), Some(Action::Info(a)) if a == "a"));
    assert!(matches!(parse_args(&args(&["p", "-x", "a"])), Some(Action::Extract(a)) if a == "a"));
    assert!(matches!(
        parse_args(&args(&["p", "-r", "a", "b"])),
        Some(Action::Rootfs(a, b)) if a == "a" && b == "b"
    ));
    assert!(matches!(
        parse_args(&args(&["p", "-m", "a", "b", "c"])),
        Some(Action::Make(a, b, c)) if a == "a" && b == "b" && c == "c"
    ));
}

#[test]
fn wrong_arguments_ask_for_help() {
    assert!(parse_args(&args(&[])).is_none());
    assert!(parse_args(&args(&["p"])).is_none());
    assert!(parse_args(&args(&["p", "-i"])).is_none());
    assert!(parse_args(&args(&["p", "-i", "a", "b"])).is_none());
    assert!(parse_args(&args(&["p", "-x", "a", "b"])).is_none());
    assert!(parse_args(&args(&["p", "-r", "a"])).is_none());
    assert!(parse_args(&args(&["p", "-m", "a", "b"])).is_none());
    assert!(parse_args(&args(&["p", "-q", "a"])).is_none());
    assert!(parse_args(&args(&["p", "i", "a"])).is_none());
}

#[test]
fn names_and_lines() {
    assert_eq!(temp_name("dir/mpc.img"), "dir/mpc.img.tmp.xz");
    assert_eq!(sha1_line("f", &[0, 0xab]), "SHA-1 of f: 00 ab \n");
    assert_eq!(
        read_line(42),
        " -> 42 bytes read (EOF).                          \n"
    );
}

#[test]
fn extracted_file_is_in_the_current_directory() {
    assert_eq!(extracted_name("fw/up.img"), "up.img.tmp.xz");
    assert_eq!(extracted_name("up.img"), "up.img.tmp.xz");
    assert_eq!(extracted_name("/srv/a.b/fw/up.img"), "up.img.tmp.xz");
    assert_eq!(extracted_name("./caf\u{e9}.img"), "caf\u{e9}.img.tmp.xz");
    assert_eq!(extracted_name("fw/"), ".tmp.xz");
    assert_eq!(extracted_name(""), ".tmp.xz");
}

#[test]
fn file_name_ends_the_path() {
    for path in ["fw/up.img", "up.img", "/a//b/c", "a/"] {
        let name = extracted_name(path);
        let name = name.strip_suffix(".tmp.xz").unwrap();
        let dir = path.strip_suffix(name).unwrap();
        assert!(!name.contains('/'));
        assert!(dir.is_empty() || dir.ends_with('/'));
    }
}

#[test]
fn progress_every_ten_mebibytes() {
    assert_eq!(progress_line(8192, 99), None);
    assert_eq!(progress_line(10 * 1024 * 1024 - 1, 99), None);
    assert_eq!(
        progress_line(20 * 1024 * 1024, 99),
        Some(" -> 20971520 / 99 bytes read     \r".to_string())
    );
}
