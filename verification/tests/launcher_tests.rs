use waylauncher::launcher::{launch_command, strip_field_codes, LaunchError};
use waylauncher::text::{is_whitespace, longest_common_prefix, trimmed};

#[test]
fn strips_single_field_code() {
    assert_eq!(strip_field_codes("firefox %u"), "firefox");
}

#[test]
fn strips_code_with_following_space() {
    assert_eq!(strip_field_codes("app %f --flag"), "app --flag");
    assert_eq!(strip_field_codes("app %F %U --x"), "app --x");
}

#[test]
fn keeps_unknown_percent_sequences() {
    assert_eq!(strip_field_codes("a %x b"), "a %x b");
    assert_eq!(strip_field_codes("50%"), "50%");
}

#[test]
fn double_percent_then_code() {
    assert_eq!(strip_field_codes("%%f"), "%");
}

#[test]
fn trims_the_result() {
    assert_eq!(strip_field_codes("  foo  %U  "), "foo");
    assert_eq!(strip_field_codes("%U"), "");
}

#[test]
fn every_field_code_letter_is_removed() {
    for c in "fFuUdDnNickvm".chars() {
        let exec = format!("prog %{} arg", c);
        assert_eq!(strip_field_codes(&exec), "prog arg");
    }
}

#[test]
fn launch_direct_command() {
    let cmd = launch_command("gimp-2.10 %U", false, None).unwrap();
    assert_eq!(cmd.program, "gimp-2.10");
    assert!(cmd.args.is_empty());
}

#[test]
fn launch_direct_command_with_arguments() {
    let cmd = launch_command("sh -c 'echo hi there' %f", false, None).unwrap();
    assert_eq!(cmd.program, "sh");
    assert_eq!(cmd.args, vec!["-c".to_string(), "echo hi there".to_string()]);
}

#[test]
fn launch_in_default_terminal() {
    let cmd = launch_command("htop", true, None).unwrap();
    assert_eq!(cmd.program, "xdg-terminal-exec");
    assert_eq!(cmd.args, vec!["-e".to_string(), "htop".to_string()]);
}

#[test]
fn launch_in_chosen_terminal() {
    let cmd = launch_command("vim %F", true, Some("foot".to_string())).unwrap();
    assert_eq!(cmd.program, "foot");
    assert_eq!(cmd.args, vec!["-e".to_string(), "vim".to_string()]);
}

#[test]
fn launch_empty_exec() {
    assert!(matches!(launch_command("%U", false, None), Err(LaunchError::Empty)));
    assert!(matches!(launch_command("   ", true, None), Err(LaunchError::Empty)));
}

#[test]
fn launch_unbalanced_quote() {
    assert!(matches!(launch_command("prog 'oops", false, None), Err(LaunchError::Unparsable)));
}

#[test]
fn whitespace_agrees_with_std() {
    for n in 0u32..=0x10FFFF {
        if let Some(c) = char::from_u32(n) {
            assert_eq!(is_whitespace(c), c.is_whitespace(), "char {:x}", n);
        }
    }
}

#[test]
fn trimmed_agrees_with_std() {
    for s in ["", "  a b  ", "\u{3000}x\u{a0}", "\t\n", "no-space"] {
        assert_eq!(trimmed(s), s.trim());
    }
}

#[test]
fn common_prefix_examples() {
    let v = |xs: &[&str]| xs.iter().map(|s| s.to_string()).collect::<Vec<String>>();
    assert_eq!(longest_common_prefix(&v(&[])), "");
    assert_eq!(longest_common_prefix(&v(&["firefox", "firewall", "fish"])), "fi");
    assert_eq!(longest_common_prefix(&v(&["abc", "ab"])), "ab");
    assert_eq!(longest_common_prefix(&v(&["same", "same"])), "same");
    assert_eq!(longest_common_prefix(&v(&["éab", "éac"])), "éa");
}

#[test]
fn exec_without_percent_is_only_trimmed() {
    assert_eq!(strip_field_codes("  /usr/bin/app --opt=1 "), "/usr/bin/app --opt=1");
}
