use pingboard::calendar::civil_from_days;
use pingboard::events::{EventKind, EventLevel, LogEvent};
use pingboard::export::{
    esc_csv, esc_html, fmt_time_local, fmt_time_utc, report_format, status_text, to_events_csv,
    ReportFormat,
};
use pingboard::model::Status;

fn count_csv_fields(line: &str) -> usize {
    let mut n = 1usize;
    let mut in_quote = false;
    let mut chars = line.chars().peekable();
    while let Some(c) = chars.next() {
        match c {
            '"' => {
                if in_quote && chars.peek() == Some(&'"') {
                    let _ = chars.next();
                } else {
                    in_quote = !in_quote;
                }
            }
            ',' if !in_quote => n += 1,
            _ => {}
        }
    }
    n
}

#[test]
fn civil_from_days_known_date() {
    assert_eq!(civil_from_days(0), (1970, 1, 1));
    assert_eq!(civil_from_days(10_957), (2000, 1, 1));
}

#[test]
fn civil_from_days_edges() {
    assert_eq!(civil_from_days(-1), (1969, 12, 31));
    assert_eq!(civil_from_days(59), (1970, 3, 1));
    assert_eq!(civil_from_days(11_016), (2000, 2, 29));
    assert_eq!(civil_from_days(-719_468), (0, 3, 1));
}

#[test]
fn qa_fmt_time_local_offsets() {
    let ts = 1_700_000_000_000u64;
    assert_eq!(fmt_time_local(ts, 0), "2023-11-14 22:13:20", "0 偏移即 UTC");
    assert_eq!(fmt_time_local(ts, 480), "2023-11-15 06:13:20", "东 8 区 +8h");
    assert_eq!(fmt_time_local(ts, -480), "2023-11-14 14:13:20", "西 8 区 -8h");
}

#[test]
fn fmt_time_utc_none_and_epoch() {
    assert_eq!(fmt_time_utc(None), "");
    assert_eq!(fmt_time_utc(Some(0)), "1970-01-01 00:00:00");
    assert_eq!(fmt_time_local(0, -60), "1970-01-01 00:00:00", "负时间截到 0");
}

#[test]
fn unknown_format_errors() {
    assert!(report_format("xml").is_err());
}

#[test]
fn qa_write_report_rejects_unknown_format_without_writing() {
    let err = report_format("xml").unwrap_err();
    assert!(err.contains("不支持"), "错误信息应说明格式不支持：{}", err);
    assert_eq!(err, "不支持的导出格式：xml（可选 csv / txt / html）");
}

#[test]
fn report_format_is_case_insensitive() {
    assert_eq!(report_format("CSV").unwrap(), ReportFormat::Csv);
    assert_eq!(report_format("txt").unwrap(), ReportFormat::Txt);
    assert_eq!(report_format("Html").unwrap(), ReportFormat::Html);
}

#[test]
fn status_names() {
    assert_eq!(status_text(Status::Idle), "未开始");
    assert_eq!(status_text(Status::Resolving), "解析中");
    assert_eq!(status_text(Status::Reachable), "正常");
    assert_eq!(status_text(Status::Timeout), "超时");
    assert_eq!(status_text(Status::Failed), "失败");
}

#[test]
fn csv_and_html_escaping() {
    assert_eq!(esc_csv("plain"), "plain");
    assert_eq!(esc_csv("阿里, DNS"), "\"阿里, DNS\"");
    assert_eq!(esc_csv("say \"hi\""), "\"say \"\"hi\"\"\"");
    assert_eq!(esc_csv("a\nb"), "\"a\nb\"");
    assert_eq!(esc_html("<a href=\"x\">&</a>"), "&lt;a href=&quot;x&quot;&gt;&amp;&lt;/a&gt;");
}

fn sample_event(seq: u64, host: &str, name: &str, kind: EventKind) -> LogEvent {
    LogEvent {
        seq,
        ts: 1_700_000_000_000,
        target_id: 1,
        target_name: name.to_string(),
        target_host: host.to_string(),
        kind,
        level: EventLevel::for_kind(kind),
        text: "测试,带逗号".to_string(),
    }
}

#[test]
fn qa_events_csv_real_file() {
    let events = vec![
        sample_event(1, "223.5.5.5", "阿里, DNS", EventKind::Fault),
        sample_event(2, "www.baidu.com", "百度", EventKind::Recover),
    ];
    let text = to_events_csv(&events, 480);
    let bytes = text.as_bytes();
    assert_eq!(&bytes[0..3], &[0xEF, 0xBB, 0xBF], "事件 CSV 必须以 UTF-8 BOM 开头");
    let body = text.trim_start_matches('\u{feff}');
    let lines: Vec<&str> = body.trim_end().split('\n').collect();
    assert_eq!(lines.len(), 3, "表头 + 2 行数据");
    assert!(lines[0].contains("时间(本地)"), "表头必须标注「时间(本地)」");
    assert_eq!(count_csv_fields(lines[0]), 7, "事件 CSV 应为 7 列");
    for (i, l) in lines[1..].iter().enumerate() {
        assert_eq!(count_csv_fields(l), 7, "第 {} 行列数不一致", i + 1);
    }
    assert!(body.contains("\"阿里, DNS\""), "含逗号字段应被引号包裹");
    assert!(body.contains("\"测试,带逗号\""), "说明字段含逗号应被转义");
    assert!(body.contains("故障"));
    assert!(body.contains("已恢复"));
    assert!(body.contains("2023-11-15 06:13:20"), "应为本地时间：{}", body);
}

#[test]
fn events_csv_exact_row() {
    let events = vec![sample_event(1, "h", "n", EventKind::Start)];
    let text = to_events_csv(&events, 0);
    assert_eq!(
        text,
        "\u{feff}序号,时间(本地),主机,备注,事件类型,等级,说明\n1,2023-11-14 22:13:20,h,n,开始探测,标准,\"测试,带逗号\"\n"
    );
}
