use pingboard::ping::{
    echo_payload, echo_timeout, extract_rtt, parse_ping_output, parse_u32_digits, ping_args,
    reply_from_captures, reply_verdict, send_failure_verdict, time_from_captures, EchoVerdict,
    PingReply, RttReading,
};

fn millis(r: &PingReply) -> Option<String> {
    match r {
        PingReply::Reply { rtt: Some(RttReading::Millis(d)), .. } => Some(d.clone()),
        _ => None,
    }
}

fn below_one(r: &PingReply) -> bool {
    matches!(r, PingReply::Reply { rtt: Some(RttReading::BelowOneMs), .. })
}

fn ttl(r: &PingReply) -> Option<u32> {
    match r {
        PingReply::Reply { ttl, .. } => *ttl,
        _ => None,
    }
}

#[test]
fn parses_chinese_reply() {
    let out = parse_ping_output("来自 223.5.5.5 的回复: 字节=32 时间=10ms TTL=117");
    assert_eq!(millis(&out).as_deref(), Some("10"));
    assert_eq!(ttl(&out), Some(117));
}

#[test]
fn parses_english_reply() {
    let out = parse_ping_output("Reply from 8.8.8.8: bytes=32 time=25ms TTL=55");
    assert_eq!(millis(&out).as_deref(), Some("25"));
    assert_eq!(ttl(&out), Some(55));
}

#[test]
fn parses_less_than_one_ms_as_half() {
    let out = parse_ping_output("Reply from 127.0.0.1: bytes=32 time<1ms TTL=128");
    assert!(below_one(&out));
}

#[test]
fn parses_chinese_less_than_one_ms_as_half() {
    let out = parse_ping_output("来自 127.0.0.1 的回复: 字节=32 时间<1ms TTL=128");
    assert!(below_one(&out));
    assert_eq!(ttl(&out), Some(128));
}

#[test]
fn timeout_is_timeout_not_failed() {
    let out = parse_ping_output("请求超时。\n\n数据包: 已发送 = 1，已接收 = 0，丢失 = 1 (100% 丢失)");
    assert!(matches!(out, PingReply::TimedOut));
}

#[test]
fn english_timeout() {
    let out = parse_ping_output("Request timed out.\n\nPackets: Sent = 1, Received = 0, Lost = 1 (100% loss)");
    assert!(matches!(out, PingReply::TimedOut));
}

#[test]
fn host_error_is_failed() {
    let out = parse_ping_output("Ping request could not find host nope.invalid. Please check the name and try again.");
    match out {
        PingReply::Failed(m) => assert_eq!(m, "Ping request could not find host nope.invalid. Please check the name and try again."),
        _ => panic!("应判定失败"),
    }
}

#[test]
fn qa_less_than_one_ms_variants_are_half() {
    for text in [
        "Reply from 127.0.0.1: bytes=32 time<1ms TTL=128",
        "来自 127.0.0.1 的回复: 字节=32 时间<1ms TTL=128",
        "来自 127.0.0.1 的回复: 字节=32 time<1ms TTL=128",
    ] {
        assert!(below_one(&parse_ping_output(text)), "`<1ms` 必须记为低于 1ms：{}", text);
    }
}

#[test]
fn qa_missing_ttl_is_not_ok() {
    let out = parse_ping_output("来自 10.0.0.1 的回复: 字节=32 时间=10ms");
    assert!(!matches!(out, PingReply::Reply { .. }), "缺少 TTL= 不应判定为成功");
}

#[test]
fn qa_ttl_without_time_is_ok_zero() {
    let out = parse_ping_output("Reply from 1.1.1.1: bytes=32 TTL=57");
    assert!(matches!(out, PingReply::Reply { rtt: None, ttl: Some(57) }));
}

#[test]
fn failure_message_is_first_nonblank_line() {
    match parse_ping_output("\n   \r\n  General failure.  \r\nmore") {
        PingReply::Failed(m) => assert_eq!(m, "General failure."),
        _ => panic!("应判定失败"),
    }
}

#[test]
fn digits_parse_as_u32() {
    assert_eq!(parse_u32_digits("117"), Some(117));
    assert_eq!(parse_u32_digits("4294967295"), Some(u32::MAX));
    assert_eq!(parse_u32_digits("4294967296"), None);
    assert_eq!(parse_u32_digits(""), None);
    assert_eq!(parse_u32_digits("1a"), None);
}

#[test]
fn echo_helpers() {
    assert_eq!(echo_payload(3), vec![0, 1, 2]);
    assert_eq!(echo_payload(300)[257], 1);
    assert_eq!(echo_timeout(5_000_000_000), u32::MAX);
    assert_eq!(echo_timeout(2000), 2000);
    assert!(matches!(reply_verdict(0, 12, 0, 128), EchoVerdict::Answered { rtt_ms: 12, ttl: 128 }));
    assert!(matches!(reply_verdict(0, 12, 54, 128), EchoVerdict::Answered { rtt_ms: 12, ttl: 54 }));
    assert!(matches!(reply_verdict(11010, 0, 0, 128), EchoVerdict::TimedOut));
    match reply_verdict(11003, 0, 0, 128) {
        EchoVerdict::Failed(m) => assert_eq!(m, "ICMP 状态码 11003"),
        _ => panic!(),
    }
    match send_failure_verdict(5, "拒绝访问") {
        EchoVerdict::Failed(m) => assert_eq!(m, "IcmpSendEcho 失败（错误码 5）：拒绝访问"),
        _ => panic!(),
    }
    assert!(matches!(send_failure_verdict(11010, "x"), EchoVerdict::TimedOut));
}

#[test]
fn ping_arguments_clamp_the_timeout() {
    assert_eq!(ping_args("1.1.1.1", 0, false), vec!["-n", "1", "-w", "1", "1.1.1.1"]);
    assert_eq!(ping_args("::1", 90_000, true), vec!["-6", "-n", "1", "-w", "60000", "::1"]);
    assert_eq!(ping_args("h", 2000, false)[3], "2000");
}

fn caps(groups: &[Option<&str>]) -> Option<Vec<Option<String>>> {
    Some(groups.iter().map(|g| g.map(|x| x.to_string())).collect())
}

#[test]
fn time_from_given_captures() {
    assert_eq!(time_from_captures(None), None);
    assert_eq!(time_from_captures(caps(&[Some("time<1ms"), Some("<"), Some("1")])), Some(RttReading::BelowOneMs));
    assert_eq!(
        time_from_captures(caps(&[Some("time=25ms"), Some("="), Some("25")])),
        Some(RttReading::Millis("25".to_string()))
    );
    assert_eq!(time_from_captures(caps(&[Some("x"), Some("="), Some("2a")])), None);
    assert_eq!(time_from_captures(caps(&[Some("x"), Some("=")])), None);
}

#[test]
fn reply_from_given_captures() {
    let r = reply_from_captures(caps(&[Some("TTL=64"), Some("64")]), Some(RttReading::BelowOneMs), true, "t");
    assert_eq!(r, PingReply::Reply { rtt: Some(RttReading::BelowOneMs), ttl: Some(64) });
    let r = reply_from_captures(caps(&[Some("TTL=99999999999"), Some("99999999999")]), None, false, "t");
    assert_eq!(r, PingReply::Reply { rtt: None, ttl: None });
    assert_eq!(reply_from_captures(None, None, false, "anything"), PingReply::TimedOut);
    assert_eq!(
        reply_from_captures(None, None, true, "  \n  unknown host x \n"),
        PingReply::Failed("unknown host x".to_string())
    );
    assert_eq!(reply_from_captures(None, None, true, " \n "), PingReply::Failed("ping 失败".to_string()));
}

#[test]
fn rtt_prefers_the_chinese_pattern() {
    assert_eq!(extract_rtt("时间=7ms time=9ms"), Some(RttReading::Millis("7".to_string())));
    assert_eq!(extract_rtt("bytes=32 =3ms"), Some(RttReading::Millis("3".to_string())));
    assert_eq!(extract_rtt("nothing"), None);
}

#[test]
fn qa_equal_time_parsed_verbatim() {
    let out = parse_ping_output("Reply from 8.8.8.8: bytes=32 time=25ms TTL=55");
    assert!(matches!(out, PingReply::Reply { .. }));
    assert_eq!(millis(&out).as_deref(), Some("25"));
    assert_eq!(ttl(&out), Some(55));
}

#[test]
fn qa_unresolvable_host_is_failed() {
    let out = parse_ping_output(
        "Ping request could not find host no-such-host-xyz.invalid. Please check the name and try again.",
    );
    match out {
        PingReply::Failed(m) => assert!(!m.is_empty()),
        _ => panic!("应判定失败"),
    }
}

#[test]
fn qa_english_timeout_is_timeout() {
    let out = parse_ping_output("Request timed out.\n\nPackets: Sent = 1, Received = 0, Lost = 1 (100% loss)");
    assert_eq!(out, PingReply::TimedOut);
}
