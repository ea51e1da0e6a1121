use pingboard::model::Status;
use pingboard::report::{html_report_at, render_report, to_csv, txt_report_at, ReportRow};

fn count_csv_fields(line: &str) -> usize {
    let mut n = 1usize;
    let mut in_quote = false;
    let mut chars = line.chars().peekable();
    while let Some(c) = chars.next() {
        match c {
            '"' => {
                if in_quote && chars.peek() == Some(&'"') {
                    let _ = chars.next();
                } else {
                    in_quote = !in_quote;
                }
            }
            ',' if !in_quote => n += 1,
            _ => {}
        }
    }
    n
}

fn sample_rows() -> Vec<ReportRow> {
    vec![
        ReportRow {
            name: "中文备注, 带逗号".into(),
            host: "www.baidu.com".into(),
            resolved_ip: Some("182.61.200.110".into()),
            status: Status::Reachable,
            sent: 4,
            received: 3,
            failed: 1,
            loss: "25.0".into(),
            min_rtt: "9.0".into(),
            avg_rtt: "12.0".into(),
            max_rtt: "20.5".into(),
            last_rtt: "11.0".into(),
            ttl: Some(52),
            last_success_ts: Some(1_700_000_000_000),
        },
        ReportRow {
            name: "不可达".into(),
            host: "192.0.2.1".into(),
            resolved_ip: None,
            status: Status::Timeout,
            sent: 2,
            received: 0,
            failed: 2,
            loss: "100.0".into(),
            min_rtt: String::new(),
            avg_rtt: String::new(),
            max_rtt: String::new(),
            last_rtt: String::new(),
            ttl: None,
            last_success_ts: None,
        },
    ]
}

#[test]
fn csv_has_bom_and_header() {
    let csv = to_csv(&sample_rows());
    assert!(csv.starts_with('\u{feff}'));
    assert!(csv.contains("序号,备注名"));
    assert!(csv.contains("\"中文备注, 带逗号\""));
}

#[test]
fn qa_csv_real_file_bom_and_columns() {
    let text = to_csv(&sample_rows());
    assert_eq!(&text.as_bytes()[0..3], &[0xEF, 0xBB, 0xBF], "CSV 必须以 UTF-8 BOM 开头");
    let body = text.trim_start_matches('\u{feff}');
    let lines: Vec<&str> = body.trim_end().split('\n').collect();
    assert_eq!(lines.len(), 3, "应为 表头 + 2 行数据");
    assert_eq!(count_csv_fields(lines[0]), 15, "表头应为 15 列");
    for l in &lines[1..] {
        assert_eq!(count_csv_fields(l), 15);
    }
    assert!(body.contains("正常"));
    assert!(body.contains("超时"));
    assert_eq!(
        lines[1],
        "1,\"中文备注, 带逗号\",www.baidu.com,182.61.200.110,正常,4,3,1,25.0,9.0,12.0,20.5,11.0,52,2023-11-14 22:13:20"
    );
    assert_eq!(lines[2], "2,不可达,192.0.2.1,,超时,2,0,2,100.0,,,,,,");
}

#[test]
fn qa_txt_and_html_real_files() {
    let rows = sample_rows();
    let txt = txt_report_at(&rows, 0, "50.0");
    assert!(txt.contains("PingBoard 报表"));
    assert!(txt.contains("中文备注"));
    assert!(txt.contains("不可达"));
    assert!(txt.contains("生成时间(UTC)：1970-01-01 00:00:00\n"));
    assert!(txt.contains("主机数：2  总发包：6  总收包：3  总丢包：3  丢包率：50.0%\n"));
    assert!(txt.contains("[2] 不可达 (192.0.2.1)\n    状态：超时  IP：-\n"));
    let html = html_report_at(&rows, 0, "50.0");
    assert!(html.starts_with("<!doctype html>"));
    assert!(html.trim_end().ends_with("</html>"));
    assert_eq!(html.matches("<table>").count(), 1);
    assert_eq!(html.matches("</table>").count(), 1);
    assert_eq!(html.matches("<th>").count(), 15, "HTML 表头应为 15 列");
    assert_eq!(html.matches("<td>").count(), 30, "2 行 × 15 列 = 30 个 td");
    assert!(html.contains("中文备注, 带逗号"));
    assert!(html.contains("<tr class=\"ok\">"));
    assert!(html.contains("<tr class=\"bad\">"));
    assert!(html.contains("丢包率：50.0%</div>"));
}

#[test]
fn render_report_dispatches_and_rejects() {
    let rows = sample_rows();
    assert!(render_report("CSV", &rows, "0.0").unwrap().starts_with('\u{feff}'));
    assert!(render_report("html", &rows, "0.0").unwrap().starts_with("<!doctype html>"));
    assert!(render_report("txt", &rows, "0.0").unwrap().starts_with("================"));
    let err = render_report("xml", &rows, "0.0").unwrap_err();
    assert!(err.contains("不支持"));
}

#[test]
fn html_escapes_names() {
    let mut rows = sample_rows();
    rows[0].name = "<b>&\"x\"".into();
    let html = html_report_at(&rows[..1], 0, "0.0");
    assert!(html.contains("<td>&lt;b&gt;&amp;&quot;x&quot;</td>"));
}
