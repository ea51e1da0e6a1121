use pingboard::control::{choose_address, resolve_error_message};
use pingboard::events::{file_lines, kept_event_lines};
use pingboard::fonts::{collect_families, split_amp};

#[test]
fn lines_follow_str_lines() {
    for text in ["", "a", "a\n", "a\r\nb", "a\rb\n\nc\r\n", "\n\n", "x\r"] {
        let expected: Vec<String> = text.lines().map(|l| l.to_string()).collect();
        assert_eq!(file_lines(text), expected, "{:?}", text);
    }
}

#[test]
fn clearing_a_host_keeps_other_and_unparsed_lines() {
    let lines = vec!["l1".to_string(), "l2".to_string(), "bad".to_string(), "l4".to_string()];
    let hosts = vec![Some(" H ".to_string()), Some("x".to_string()), None, Some("h".to_string())];
    assert_eq!(kept_event_lines(&lines, &hosts, "h"), "l2\nbad\n");
}

#[test]
fn families_are_deduplicated_and_sorted() {
    let entries = vec![
        ("Segoe UI Bold (TrueType)".to_string(), "segoeuib.ttf".to_string()),
        ("Arial (TrueType)".to_string(), "arial.ttf".to_string()),
        ("Microsoft YaHei & Microsoft YaHei UI (TrueType)".to_string(), "msyh.ttc".to_string()),
        ("ARIAL Bold (TrueType)".to_string(), "arialbd.ttf".to_string()),
        ("Modern (All res)".to_string(), "modern.fon".to_string()),
        ("segoe ui (TrueType)".to_string(), "x.otf".to_string()),
    ];
    assert_eq!(
        collect_families(&entries),
        vec![
            "Arial".to_string(),
            "Microsoft YaHei".to_string(),
            "Microsoft YaHei UI".to_string(),
            "Segoe UI".to_string()
        ]
    );
    assert!(collect_families(&[]).is_empty());
}

#[test]
fn amp_split_matches_str_split() {
    for text in ["", "a", "a&b", "a&", "&&x"] {
        let expected: Vec<String> = text.split('&').map(|s| s.to_string()).collect();
        assert_eq!(split_amp(text), expected);
    }
}

#[test]
fn address_choice_prefers_ipv4() {
    let addrs = vec![(false, "::1".to_string()), (true, "1.2.3.4".to_string()), (true, "5.6.7.8".to_string())];
    assert_eq!(choose_address("h", &addrs).unwrap(), "1.2.3.4");
    assert_eq!(choose_address("h", &addrs[..1]).unwrap(), "::1");
    assert_eq!(choose_address("no-such", &[]).unwrap_err(), "无法解析主机名：no-such");
    assert_eq!(resolve_error_message("x"), "解析失败：x");
}
