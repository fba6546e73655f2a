use waylauncher::completion::{
    apply_completion, complete_command, complete_path, completion_request, path_directories,
    path_target,
};
use waylauncher::config::{list_label, search_placeholder, window_title, Config, WindowKind};
use waylauncher::history::{command_to_run, history_line, parse_history, HistoryBrowser, HistoryStep};

fn strings(xs: &[&str]) -> Vec<String> {
    xs.iter().map(|s| s.to_string()).collect()
}

#[test]
fn history_newest_first() {
    assert_eq!(parse_history("ls\nmake\n\ncargo build\r\n"), strings(&["cargo build", "make", "ls"]));
    assert_eq!(parse_history(""), Vec::<String>::new());
    assert_eq!(parse_history("\n\n"), Vec::<String>::new());
    assert_eq!(parse_history("last"), strings(&["last"]));
}

#[test]
fn history_agrees_with_lines() {
    for c in ["a\r\nb\rc\n", "x\r", "\r\n\r\n", "one\ntwo"] {
        let expected: Vec<String> = c.lines().filter(|l| !l.is_empty()).map(String::from).rev().collect();
        assert_eq!(parse_history(c), expected, "{:?}", c);
    }
}

#[test]
fn recorded_command_becomes_newest() {
    let file = "ls\nmake\n".to_string();
    let after = format!("{}{}", file, history_line("cargo test"));
    assert_eq!(history_line("cargo test"), "cargo test\n");
    assert_eq!(parse_history(&after), strings(&["cargo test", "make", "ls"]));
}

#[test]
fn command_is_trimmed() {
    assert_eq!(command_to_run("  ls -la \n"), Some("ls -la".to_string()));
    assert_eq!(command_to_run("   "), None);
}

#[test]
fn browse_history() {
    let mut b = HistoryBrowser::new(strings(&["newest", "middle", "oldest"]));
    assert_eq!(b.current(), Some("newest"));
    assert!(matches!(b.newer(), HistoryStep::CursorToStart));
    assert!(matches!(b.older(), HistoryStep::Show(ref s) if s == "middle"));
    assert!(matches!(b.older(), HistoryStep::Show(ref s) if s == "oldest"));
    assert!(matches!(b.older(), HistoryStep::Nothing));
    assert_eq!(b.position(), Some(2));
    assert!(matches!(b.newer(), HistoryStep::Show(ref s) if s == "middle"));
    assert!(matches!(b.older(), HistoryStep::Show(ref s) if s == "oldest"));
}

#[test]
fn browse_empty_history() {
    let mut b = HistoryBrowser::new(Vec::new());
    assert_eq!(b.current(), None);
    assert!(matches!(b.older(), HistoryStep::Nothing));
    assert!(matches!(b.newer(), HistoryStep::CursorToStart));
    assert_eq!(b.position(), None);
}

#[test]
fn request_for_first_token() {
    let q = completion_request("fir", 3).unwrap();
    assert_eq!(q.token_start, 0);
    assert_eq!(q.prefix, "fir");
    assert!(q.first_token);
    let q = completion_request("  fir", 99).unwrap();
    assert_eq!(q.token_start, 2);
    assert!(q.first_token);
}

#[test]
fn request_for_later_token() {
    let q = completion_request("ls ~/Doc rest", 8).unwrap();
    assert_eq!(q.token_start, 3);
    assert_eq!(q.prefix, "~/Doc");
    assert!(!q.first_token);
    assert!(completion_request("ls ", 3).is_none());
    assert!(completion_request("", 0).is_none());
}

#[test]
fn applies_completion() {
    let text = "ls ~/Doc rest";
    let q = completion_request(text, 8).unwrap();
    let edit = apply_completion(text, 8, &q, "~/Documents/");
    assert_eq!(edit.text, "ls ~/Documents/ rest");
    assert_eq!(edit.cursor, 15);
    assert!(edit.announce);
    let same = apply_completion(text, 8, &q, "~/Doc");
    assert!(!same.announce);
}

#[test]
fn completes_commands() {
    let names = strings(&["firefox", "fish", "firefox", "ls", "firewall-cmd"]);
    assert_eq!(complete_command("fir", &names), Some("fire".to_string()));
    assert_eq!(complete_command("fis", &names), Some("fish ".to_string()));
    assert_eq!(complete_command("firef", &names), Some("firefox ".to_string()));
    assert_eq!(complete_command("zz", &names), None);
    assert_eq!(complete_command("f", &strings(&["fa", "fb"])), Some("f".to_string()));
}

#[test]
fn splits_path_variable() {
    assert_eq!(path_directories("/usr/bin:/bin::/opt"), strings(&["/usr/bin", "/bin", "", "/opt"]));
    assert_eq!(path_directories(""), strings(&[""]));
}

#[test]
fn path_targets() {
    let t = path_target("~/Doc", Some("/home/u".to_string()));
    assert_eq!((t.dir.as_str(), t.file_prefix.as_str()), ("/home/u", "Doc"));
    let t = path_target("~/Doc", None);
    assert_eq!((t.dir.as_str(), t.file_prefix.as_str()), ("~", "Doc"));
    let t = path_target("/us", None);
    assert_eq!((t.dir.as_str(), t.file_prefix.as_str()), ("/", "us"));
    let t = path_target("src", None);
    assert_eq!((t.dir.as_str(), t.file_prefix.as_str()), (".", "src"));
    let t = path_target("a/b/c", None);
    assert_eq!((t.dir.as_str(), t.file_prefix.as_str()), ("a/b", "c"));
}

#[test]
fn completes_paths() {
    let entries = vec![
        ("Documents".to_string(), true),
        ("Downloads".to_string(), true),
        ("notes.txt".to_string(), false),
    ];
    assert_eq!(complete_path("~/Doc", "Doc", &entries), Some("~/Documents/".to_string()));
    assert_eq!(complete_path("~/D", "D", &entries), Some("~/Do".to_string()));
    assert_eq!(complete_path("no", "no", &entries), Some("notes.txt ".to_string()));
    assert_eq!(complete_path("x/zz", "zz", &entries), None);
    let two = vec![("ab".to_string(), true), ("ab ".to_string(), false)];
    assert_eq!(complete_path("a", "a", &two), Some("ab".to_string()));
}

#[test]
fn config_selects_window() {
    let c = Config { desktop_mode: false, command: true };
    assert_eq!(c.window_kind(), WindowKind::Command);
    let c = Config { desktop_mode: true, command: false };
    assert_eq!(c.window_kind(), WindowKind::Desktop);
    let c = Config { desktop_mode: false, command: false };
    assert_eq!(c.window_kind(), WindowKind::Applications);
    assert_eq!(window_title(true), "Desktop");
    assert_eq!(window_title(false), "Waylauncher");
    assert_eq!(search_placeholder(true), "Search desktop entries...");
    assert_eq!(list_label(false), "Applications");
}
