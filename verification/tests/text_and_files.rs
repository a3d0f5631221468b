use webhook_cli::paths::{get_config_dir, get_config_file_path, get_log_file_path, get_pid_file_path, join};
use webhook_cli::pidfile::{parse_pid, parse_pid_record, pid_file_content, PidRecord};
use webhook_cli::text::{
    parse_bool, parse_i32, parse_u16, push_bool, push_decimal, same_text, split_fields, starts_with,
    strip_prefixes_str, text_lt, trim_str,
};

fn chars(s: &str) -> Vec<char> {
    s.chars().collect()
}

#[test]
fn trim_matches_std() {
    for s in ["", "  ", " a ", "\t\n x y \r\n", "\u{3000}wide\u{2028}", "a", "\u{85}b\u{a0}"] {
        assert_eq!(trim_str(s), s.trim());
    }
}

#[test]
fn prefixes_and_equality() {
    assert!(starts_with("Bearer abc", "Bearer "));
    assert!(!starts_with("Bear", "Bearer "));
    assert!(!starts_with("bearer abc", "Bearer "));
    assert_eq!(strip_prefixes_str("Bearer Bearer x", "Bearer "), "x");
    assert_eq!(strip_prefixes_str("///a/b", "/"), "a/b");
    assert_eq!(strip_prefixes_str("abc", "/"), "abc");
    assert!(same_text("tok", "tok"));
    assert!(!same_text("tok", "tok "));
}

#[test]
fn split_matches_std() {
    for s in ["", ":", "a:b", "1234:9090:true:false", "::x:", "no-sep"] {
        let fields: Vec<String> =
            split_fields(s, ':').into_iter().map(|f| f.into_iter().collect()).collect();
        let expected: Vec<String> = s.split(':').map(|f| f.to_string()).collect();
        assert_eq!(fields, expected);
    }
}

#[test]
fn integer_parsing_matches_std() {
    for s in [
        "", "+", "-", "0", "-0", "+7", "42", "-42", "2147483647", "2147483648", "-2147483648",
        "-2147483649", "00012", "1a", " 1", "65535", "65536", "99999999999999999999",
    ] {
        assert_eq!(parse_i32(&chars(s)), s.parse::<i32>().ok(), "i32 {:?}", s);
        assert_eq!(parse_u16(&chars(s)), s.parse::<u16>().ok(), "u16 {:?}", s);
    }
}

#[test]
fn bool_parsing_matches_std() {
    for s in ["true", "false", "True", "", "tru", "falsey"] {
        assert_eq!(parse_bool(&chars(s)), s.parse::<bool>().ok());
    }
}

#[test]
fn decimal_and_bool_output() {
    let mut out = String::new();
    push_decimal(&mut out, 0);
    push_decimal(&mut out, 4294967295);
    push_bool(&mut out, true);
    push_bool(&mut out, false);
    assert_eq!(out, "04294967295truefalse");
}

#[test]
fn string_order_matches_std() {
    let words = ["", "a", "ab", "b", "B", "ä", "abc", "x-y"];
    for a in words {
        for b in words {
            assert_eq!(text_lt(a, b), a < b, "{:?} < {:?}", a, b);
        }
    }
}

#[test]
fn config_paths() {
    let dir = get_config_dir(Some("/home/me".to_string()));
    assert_eq!(dir, "/home/me/.config/webhook-daemon");
    assert_eq!(get_config_dir(None), "/tmp/.config/webhook-daemon");
    assert_eq!(get_config_dir(Some("/root/".to_string())), "/root/.config/webhook-daemon");
    assert_eq!(get_config_dir(Some(String::new())), ".config/webhook-daemon");
    assert_eq!(get_pid_file_path(&dir), "/home/me/.config/webhook-daemon/daemon.pid");
    assert_eq!(get_log_file_path(&dir), "/home/me/.config/webhook-daemon/daemon.log");
    assert_eq!(get_config_file_path(&dir), "/home/me/.config/webhook-daemon/config.json");
}

#[test]
fn join_matches_std_path_join() {
    for (a, b) in [("/", "x"), ("a", "b"), ("a/", "b"), ("", "b"), ("a", "/abs"), ("/", "s/t.sh")] {
        let expected = std::path::PathBuf::from(a).join(b);
        assert_eq!(join(a, b), expected.to_str().unwrap());
    }
}

#[test]
fn pid_file_round_trip() {
    let text = pid_file_content(4242, 9090, true, false);
    assert_eq!(text, "4242:9090:true:false");
    assert_eq!(
        parse_pid_record(&text),
        Some(PidRecord { pid: 4242, port: 9090, no_log: true, no_wait: false })
    );
    let big = pid_file_content(2147483647, 65535, false, true);
    assert_eq!(
        parse_pid_record(&big),
        Some(PidRecord { pid: 2147483647, port: 65535, no_log: false, no_wait: true })
    );
}

#[test]
fn pid_file_reading_edge_cases() {
    // only the PID is required; the rest falls back to 9090 / false
    assert_eq!(
        parse_pid_record("  123\n"),
        Some(PidRecord { pid: 123, port: 9090, no_log: false, no_wait: false })
    );
    assert_eq!(
        parse_pid_record("123:notaport:yes:true"),
        Some(PidRecord { pid: 123, port: 9090, no_log: false, no_wait: true })
    );
    assert_eq!(parse_pid_record("abc:8080"), None);
    assert_eq!(parse_pid_record(""), None);
    assert_eq!(parse_pid("-5:1"), Some(-5));
    // a PID beyond i32 is not readable
    assert_eq!(parse_pid(&pid_file_content(3000000000, 1, false, false)), None);
}

#[test]
fn stripping_an_empty_pattern_changes_nothing() {
    assert_eq!(strip_prefixes_str("abc", ""), "abc");
    assert_eq!(strip_prefixes_str("", ""), "");
    assert_eq!("abc".trim_start_matches(""), "abc");
}
