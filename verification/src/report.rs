//! Target reports: the CSV, text and HTML reports of the targets'
//! statistics. Decimal numbers (loss percentages, round-trip times) arrive
//! already written with one decimal.
use vstd::prelude::*;

use crate::export::{
    csv_field, esc_csv, esc_html, fmt_time_utc, format_named, html_text, report_format, status_label,
    status_text, unknown_format_message, utc_text, ReportFormat,
};
use crate::text::lowercase_of;
use crate::model::Status;
use crate::text::{dec, push_decimal_str};

verus! {

/// One target's line in a report.
#[derive(Debug, Clone)]
pub struct ReportRow {
    /// Display name.
    pub name: String,
    /// Host.
    pub host: String,
    /// Resolved address, when known.
    pub resolved_ip: Option<String>,
    /// Status.
    pub status: Status,
    /// Probes sent.
    pub sent: u64,
    /// Probes answered.
    pub received: u64,
    /// Probes failed.
    pub failed: u64,
    /// Loss percentage, one decimal.
    pub loss: String,
    /// Smallest round-trip time in ms, one decimal (empty when none).
    pub min_rtt: String,
    /// Mean round-trip time in ms, one decimal (empty when none).
    pub avg_rtt: String,
    /// Largest round-trip time in ms, one decimal (empty when none).
    pub max_rtt: String,
    /// Last round-trip time in ms, one decimal (empty when none).
    pub last_rtt: String,
    /// TTL of the last answer.
    pub ttl: Option<u32>,
    /// Time of the last answer, epoch milliseconds.
    pub last_success_ts: Option<u64>,
}

/// Header line of the CSV report.
pub const CSV_HEADER: &'static str = "序号,备注名,主机名,IP地址,状态,发送,接收,失败,丢包率(%),最小延迟(ms),平均延迟(ms),最大延迟(ms),最近延迟(ms),TTL,最后成功时间(UTC)\n";
/// Start of the HTML report, up to the generation time.
pub const HTML_HEAD: &'static str = "<!doctype html>\n<html lang=\"zh-CN\"><head><meta charset=\"utf-8\"><title>PingBoard 报表</title>\n<style>\nbody{font-family:\"Microsoft YaHei\",sans-serif;font-size:13px;color:#1e293b;padding:24px;background:#f8fafc}\nh1{font-size:18px}\n.summary{margin:12px 0 18px;padding:10px 14px;background:#fff;border:1px solid #e2e8f0;border-radius:6px}\ntable{border-collapse:collapse;width:100%;background:#fff}\nth,td{border:1px solid #e2e8f0;padding:5px 8px;text-align:left}\nth{background:#f1f5f9}\ntd:nth-child(n+6){text-align:right}\ntr.ok td:nth-child(5){color:#16a34a;font-weight:600}\ntr.bad td:nth-child(5){color:#dc2626;font-weight:600}\ntr.idle td:nth-child(5){color:#64748b}\n</style></head><body>\n<h1>PingBoard 多主机 Ping 监视器 — 报表</h1>\n<div class=\"summary\">生成时间(UTC)：";
/// Separator before the number of hosts in the HTML summary.
pub const HTML_HOSTS: &'static str = " &nbsp;|&nbsp; 主机数：";
/// Separator before the probes sent in the HTML summary.
pub const HTML_SENT: &'static str = " &nbsp;|&nbsp; 总发包：";
/// Separator before the probes answered in the HTML summary.
pub const HTML_RECEIVED: &'static str = " &nbsp;|&nbsp; 总收包：";
/// Separator before the probes failed in the HTML summary.
pub const HTML_FAILED: &'static str = " &nbsp;|&nbsp; 总丢包：";
/// Separator before the loss in the HTML summary.
pub const HTML_LOSS: &'static str = " &nbsp;|&nbsp; 丢包率：";
/// End of the summary and the table header of the HTML report.
pub const HTML_TABLE_HEAD: &'static str = "%</div>\n<table><thead><tr>\n<th>序号</th><th>备注名</th><th>主机名</th><th>IP 地址</th><th>状态</th><th>发送</th><th>接收</th><th>失败</th><th>丢包率</th><th>最小(ms)</th><th>平均(ms)</th><th>最大(ms)</th><th>最近(ms)</th><th>TTL</th><th>最后成功时间(UTC)</th>\n</tr></thead><tbody>\n";
/// End of the HTML report.
pub const HTML_TAIL: &'static str = "</tbody></table></body></html>\n";

/* ----------------------------- common parts ----------------------------- */

/// An optional text, or `d` when absent.
pub open spec fn text_or(s: Option<String>, d: Seq<char>) -> Seq<char> {
    match s {
        Some(x) => x@,
        None => d,
    }
}

/// An optional TTL in decimal, or `d` when absent.
pub open spec fn ttl_or(t: Option<u32>, d: Seq<char>) -> Seq<char> {
    match t {
        Some(v) => dec(v as nat),
        None => d,
    }
}

/// An optional epoch time as UTC text, empty when absent.
pub open spec fn time_or_empty(ts: Option<u64>) -> Seq<char> {
    match ts {
        Some(v) => utc_text(v as nat),
        None => Seq::empty(),
    }
}

fn push_text_or(out: &mut String, s: &Option<String>, d: &str)
    ensures
        final(out)@ == old(out)@ + text_or(*s, d@),
{
    match s {
        Some(x) => out.append(x.as_str()),
        None => out.append(d),
    }
}

fn push_ttl_or(out: &mut String, t: Option<u32>, d: &str)
    ensures
        final(out)@ == old(out)@ + ttl_or(t, d@),
{
    match t {
        Some(v) => push_decimal_str(out, v as u64),
        None => out.append(d),
    }
}

fn push_time(out: &mut String, ts: Option<u64>)
    ensures
        final(out)@ == old(out)@ + time_or_empty(ts),
{
    let t = fmt_time_utc(ts);
    out.append(t.as_str());
}

/// Sum of a field over the rows.
pub open spec fn rows_total(rows: Seq<ReportRow>, f: spec_fn(ReportRow) -> u64) -> nat
    decreases rows.len(),
{
    if rows.len() == 0 {
        0
    } else {
        rows_total(rows.drop_last(), f) + f(rows.last()) as nat
    }
}

proof fn lemma_rows_total_prefix(s: Seq<ReportRow>, j: int, f: spec_fn(ReportRow) -> u64)
    requires
        0 <= j <= s.len(),
    ensures
        rows_total(s.take(j), f) <= rows_total(s, f),
    decreases s.len() - j,
{
    if j < s.len() {
        lemma_rows_total_prefix(s, j + 1, f);
        assert(s.take(j + 1).drop_last() =~= s.take(j));
    } else {
        assert(s.take(j) =~= s);
    }
}

/// Whether the totals of the rows fit in `u64`.
pub open spec fn totals_fit(rows: Seq<ReportRow>) -> bool {
    &&& rows_total(rows, |r: ReportRow| r.sent) <= u64::MAX
    &&& rows_total(rows, |r: ReportRow| r.received) <= u64::MAX
    &&& rows_total(rows, |r: ReportRow| r.failed) <= u64::MAX
}

/// Probes sent, answered and failed over all rows.
pub fn row_totals(rows: &[ReportRow]) -> (r: (u64, u64, u64))
    requires
        totals_fit(rows@),
    ensures
        r.0 == rows_total(rows@, |x: ReportRow| x.sent),
        r.1 == rows_total(rows@, |x: ReportRow| x.received),
        r.2 == rows_total(rows@, |x: ReportRow| x.failed),
{
    let mut a: u64 = 0;
    let mut b: u64 = 0;
    let mut c: u64 = 0;
    let mut i: usize = 0;
    while i < rows.len()
        invariant
            i <= rows@.len(),
            totals_fit(rows@),
            a == rows_total(rows@.take(i as int), |x: ReportRow| x.sent),
            b == rows_total(rows@.take(i as int), |x: ReportRow| x.received),
            c == rows_total(rows@.take(i as int), |x: ReportRow| x.failed),
        decreases rows.len() - i,
    {
        assert(rows@.take(i + 1).drop_last() =~= rows@.take(i as int));
        proof {
            lemma_rows_total_prefix(rows@, i + 1, |x: ReportRow| x.sent);
            lemma_rows_total_prefix(rows@, i + 1, |x: ReportRow| x.received);
            lemma_rows_total_prefix(rows@, i + 1, |x: ReportRow| x.failed);
        }
        a = a + rows[i].sent;
        b = b + rows[i].received;
        c = c + rows[i].failed;
        i = i + 1;
    }
    assert(rows@.take(i as int) =~= rows@);
    (a, b, c)
}

/* ----------------------------- CSV ----------------------------- */

/// One line of the CSV report for the `n`-th target.
pub open spec fn csv_line(n: nat, r: ReportRow) -> Seq<char> {
    dec(n) + ","@ + csv_field(r.name@) + ","@ + csv_field(r.host@) + ","@ + csv_field(
        text_or(r.resolved_ip, ""@),
    ) + ","@ + status_label(r.status) + ","@ + dec(r.sent as nat) + ","@ + dec(r.received as nat)
        + ","@ + dec(r.failed as nat) + ","@ + r.loss@ + ","@ + r.min_rtt@ + ","@ + r.avg_rtt@ + ","@
        + r.max_rtt@ + ","@ + r.last_rtt@ + ","@ + ttl_or(r.ttl, ""@) + ","@ + time_or_empty(
        r.last_success_ts,
    ) + "\n"@
}

/// The lines of the CSV report, numbered from 1.
pub open spec fn csv_lines(rows: Seq<ReportRow>) -> Seq<char>
    decreases rows.len(),
{
    if rows.len() == 0 {
        Seq::empty()
    } else {
        csv_lines(rows.drop_last()) + csv_line(rows.len(), rows.last())
    }
}

/// The CSV report: a byte order mark, the header, one line per target.
pub open spec fn csv_report(rows: Seq<ReportRow>) -> Seq<char> {
    seq!['\u{feff}'] + CSV_HEADER@ + csv_lines(rows)
}

#[verifier::spinoff_prover]
fn csv_row_text(n: u64, r: &ReportRow) -> (t: String)
    ensures
        t@ == csv_line(n as nat, *r),
{
    let mut out = String::new();
    push_decimal_str(&mut out, n);
    out.append(",");
    let f = esc_csv(r.name.as_str());
    out.append(f.as_str());
    out.append(",");
    let f = esc_csv(r.host.as_str());
    out.append(f.as_str());
    out.append(",");
    let ip = match &r.resolved_ip {
        Some(x) => x.as_str(),
        None => "",
    };
    let f = esc_csv(ip);
    out.append(f.as_str());
    out.append(",");
    out.append(status_text(r.status));
    out.append(",");
    push_decimal_str(&mut out, r.sent);
    out.append(",");
    push_decimal_str(&mut out, r.received);
    out.append(",");
    push_decimal_str(&mut out, r.failed);
    out.append(",");
    out.append(r.loss.as_str());
    out.append(",");
    out.append(r.min_rtt.as_str());
    out.append(",");
    out.append(r.avg_rtt.as_str());
    out.append(",");
    out.append(r.max_rtt.as_str());
    out.append(",");
    out.append(r.last_rtt.as_str());
    out.append(",");
    push_ttl_or(&mut out, r.ttl, "");
    out.append(",");
    push_time(&mut out, r.last_success_ts);
    out.append("\n");
    assert(out@ =~= csv_line(n as nat, *r));
    out
}

/// Writes the CSV report (see `csv_report`).
pub fn to_csv(rows: &[ReportRow]) -> (r: String)
    requires
        rows@.len() < u64::MAX,
    ensures
        r@ == csv_report(rows@),
{
    let mut out = String::new();
    out.append("\u{feff}");
    out.append(CSV_HEADER);
    let mut i: usize = 0;
    proof {
        reveal_strlit("\u{feff}");
    }
    assert(out@ =~= csv_report(rows@.take(0)));
    while i < rows.len()
        invariant
            i <= rows@.len(),
            rows@.len() < u64::MAX,
            out@ == csv_report(rows@.take(i as int)),
        decreases rows.len() - i,
    {
        let line = csv_row_text((i + 1) as u64, &rows[i]);
        out.append(line.as_str());
        assert(rows@.take(i + 1).drop_last() =~= rows@.take(i as int));
        i = i + 1;
        assert(out@ =~= csv_report(rows@.take(i as int)));
    }
    assert(rows@.take(i as int) =~= rows@);
    out
}

/* ----------------------------- text ----------------------------- */

/// The block of the text report for the `n`-th target.
pub open spec fn txt_block(n: nat, r: ReportRow) -> Seq<char> {
    "["@ + dec(n) + "] "@ + r.name@ + " ("@ + r.host@ + ")\n    状态："@ + status_label(r.status) + "  IP："@
        + text_or(r.resolved_ip, "-"@) + "\n    发送 "@ + dec(r.sent as nat) + "/接收 "@ + dec(
        r.received as nat,
    ) + "/失败 "@ + dec(r.failed as nat) + "  丢包率 "@ + r.loss@ + "%\n    最小 "@ + r.min_rtt@
        + " / 平均 "@ + r.avg_rtt@ + " / 最大 "@ + r.max_rtt@ + " ms   TTL："@ + ttl_or(r.ttl, "-"@)
        + "\n    最后成功："@ + time_or_empty(r.last_success_ts) + "\n\n"@
}

/// The blocks of the text report, numbered from 1.
pub open spec fn txt_blocks(rows: Seq<ReportRow>) -> Seq<char>
    decreases rows.len(),
{
    if rows.len() == 0 {
        Seq::empty()
    } else {
        txt_blocks(rows.drop_last()) + txt_block(rows.len(), rows.last())
    }
}

/// The head of the text report generated at `generated_ms`, with the
/// overall loss percentage `total_loss` (one decimal).
pub open spec fn txt_header(rows: Seq<ReportRow>, generated_ms: nat, total_loss: Seq<char>) -> Seq<char> {
    "================ PingBoard 报表 ================\n"@ + "生成时间(UTC)："@ + utc_text(generated_ms)
        + "\n"@ + "主机数："@ + dec(rows.len()) + "  总发包："@ + dec(
        rows_total(rows, |x: ReportRow| x.sent),
    ) + "  总收包："@ + dec(rows_total(rows, |x: ReportRow| x.received)) + "  总丢包："@ + dec(
        rows_total(rows, |x: ReportRow| x.failed),
    ) + "  丢包率："@ + total_loss + "%\n"@ + "------------------------------------------------\n"@
}

/// The text report generated at `generated_ms`, with the overall loss
/// percentage `total_loss` (one decimal): its head, then one block per row.
pub open spec fn txt_report(rows: Seq<ReportRow>, generated_ms: nat, total_loss: Seq<char>) -> Seq<char> {
    txt_header(rows, generated_ms, total_loss) + txt_blocks(rows)
}

#[verifier::spinoff_prover]
fn txt_block_text(n: u64, r: &ReportRow) -> (t: String)
    ensures
        t@ == txt_block(n as nat, *r),
{
    let mut out = String::new();
    out.append("[");
    push_decimal_str(&mut out, n);
    out.append("] ");
    out.append(r.name.as_str());
    out.append(" (");
    out.append(r.host.as_str());
    out.append(")\n    状态：");
    out.append(status_text(r.status));
    out.append("  IP：");
    push_text_or(&mut out, &r.resolved_ip, "-");
    out.append("\n    发送 ");
    push_decimal_str(&mut out, r.sent);
    out.append("/接收 ");
    push_decimal_str(&mut out, r.received);
    out.append("/失败 ");
    push_decimal_str(&mut out, r.failed);
    out.append("  丢包率 ");
    out.append(r.loss.as_str());
    out.append("%\n    最小 ");
    out.append(r.min_rtt.as_str());
    out.append(" / 平均 ");
    out.append(r.avg_rtt.as_str());
    out.append(" / 最大 ");
    out.append(r.max_rtt.as_str());
    out.append(" ms   TTL：");
    push_ttl_or(&mut out, r.ttl, "-");
    out.append("\n    最后成功：");
    push_time(&mut out, r.last_success_ts);
    out.append("\n\n");
    assert(out@ =~= txt_block(n as nat, *r));
    out
}

/// Writes the text report generated at `generated_ms` (see `txt_report`).
#[verifier::spinoff_prover]
pub fn txt_report_at(rows: &[ReportRow], generated_ms: u64, total_loss: &str) -> (r: String)
    requires
        rows@.len() < u64::MAX,
        totals_fit(rows@),
    ensures
        r@ == txt_report(rows@, generated_ms as nat, total_loss@),
{
    let (sent, received, failed) = row_totals(rows);
    let mut body = String::new();
    let mut i: usize = 0;
    while i < rows.len()
        invariant
            i <= rows@.len(),
            rows@.len() < u64::MAX,
            body@ == txt_blocks(rows@.take(i as int)),
        decreases rows.len() - i,
    {
        let block = txt_block_text((i + 1) as u64, &rows[i]);
        body.append(block.as_str());
        assert(rows@.take(i + 1).drop_last() =~= rows@.take(i as int));
        i = i + 1;
        assert(body@ =~= txt_blocks(rows@.take(i as int)));
    }
    assert(rows@.take(i as int) =~= rows@);
    let mut out = String::new();
    out.append("================ PingBoard 报表 ================\n");
    out.append("生成时间(UTC)：");
    push_time(&mut out, Some(generated_ms));
    out.append("\n");
    out.append("主机数：");
    push_decimal_str(&mut out, rows.len() as u64);
    out.append("  总发包：");
    push_decimal_str(&mut out, sent);
    out.append("  总收包：");
    push_decimal_str(&mut out, received);
    out.append("  总丢包：");
    push_decimal_str(&mut out, failed);
    out.append("  丢包率：");
    out.append(total_loss);
    out.append("%\n");
    out.append("------------------------------------------------\n");
    out.append(body.as_str());
    assert(out@ =~= txt_report(rows@, generated_ms as nat, total_loss@));
    out
}

/// Writes the text report generated now (see `txt_report_at`; the time
/// is whatever the clock gives).
pub fn to_txt(rows: &[ReportRow], total_loss: &str) -> (r: String)
    requires
        rows@.len() < u64::MAX,
        totals_fit(rows@),
    ensures
        exists|t: u64| r@ == txt_report(rows@, t as nat, total_loss@),
{
    let now = crate::control::now_ms();
    txt_report_at(rows, now, total_loss)
}

/* ----------------------------- HTML ----------------------------- */

/// The row class of a status in the HTML report.
pub open spec fn row_class(s: Status) -> Seq<char> {
    match s {
        Status::Reachable => "ok"@,
        Status::Timeout | Status::Failed => "bad"@,
        _ => "idle"@,
    }
}

/// The table row of the HTML report for the `n`-th target.
pub open spec fn html_row(n: nat, r: ReportRow) -> Seq<char> {
    "<tr class=\""@ + row_class(r.status) + "\"><td>"@ + dec(n) + "</td><td>"@ + html_text(r.name@)
        + "</td><td>"@ + html_text(r.host@) + "</td><td>"@ + html_text(text_or(r.resolved_ip, "-"@))
        + "</td><td>"@ + status_label(r.status) + "</td><td>"@ + dec(r.sent as nat) + "</td><td>"@ + dec(
        r.received as nat,
    ) + "</td><td>"@ + dec(r.failed as nat) + "</td><td>"@ + r.loss@ + "%</td><td>"@ + r.min_rtt@
        + "</td><td>"@ + r.avg_rtt@ + "</td><td>"@ + r.max_rtt@ + "</td><td>"@ + r.last_rtt@
        + "</td><td>"@ + ttl_or(r.ttl, "-"@) + "</td><td>"@ + time_or_empty(r.last_success_ts)
        + "</td></tr>\n"@
}

/// The table rows of the HTML report, numbered from 1.
pub open spec fn html_rows(rows: Seq<ReportRow>) -> Seq<char>
    decreases rows.len(),
{
    if rows.len() == 0 {
        Seq::empty()
    } else {
        html_rows(rows.drop_last()) + html_row(rows.len(), rows.last())
    }
}

/// The HTML report generated at `generated_ms`, with the overall loss
/// percentage `total_loss` (one decimal).
pub open spec fn html_report(rows: Seq<ReportRow>, generated_ms: nat, total_loss: Seq<char>) -> Seq<char> {
    HTML_HEAD@ + utc_text(generated_ms) + HTML_HOSTS@ + dec(rows.len()) + HTML_SENT@ + dec(
        rows_total(rows, |x: ReportRow| x.sent),
    ) + HTML_RECEIVED@ + dec(rows_total(rows, |x: ReportRow| x.received)) + HTML_FAILED@ + dec(
        rows_total(rows, |x: ReportRow| x.failed),
    ) + HTML_LOSS@ + total_loss + HTML_TABLE_HEAD@ + html_rows(rows) + HTML_TAIL@
}

#[verifier::spinoff_prover]
fn html_row_text(n: u64, r: &ReportRow) -> (t: String)
    ensures
        t@ == html_row(n as nat, *r),
{
    let mut out = String::new();
    out.append("<tr class=\"");
    match r.status {
        Status::Reachable => out.append("ok"),
        Status::Timeout | Status::Failed => out.append("bad"),
        _ => out.append("idle"),
    }
    out.append("\"><td>");
    push_decimal_str(&mut out, n);
    out.append("</td><td>");
    let f = esc_html(r.name.as_str());
    out.append(f.as_str());
    out.append("</td><td>");
    let f = esc_html(r.host.as_str());
    out.append(f.as_str());
    out.append("</td><td>");
    let ip = match &r.resolved_ip {
        Some(x) => x.as_str(),
        None => "-",
    };
    let f = esc_html(ip);
    out.append(f.as_str());
    out.append("</td><td>");
    out.append(status_text(r.status));
    out.append("</td><td>");
    push_decimal_str(&mut out, r.sent);
    out.append("</td><td>");
    push_decimal_str(&mut out, r.received);
    out.append("</td><td>");
    push_decimal_str(&mut out, r.failed);
    out.append("</td><td>");
    out.append(r.loss.as_str());
    out.append("%</td><td>");
    out.append(r.min_rtt.as_str());
    out.append("</td><td>");
    out.append(r.avg_rtt.as_str());
    out.append("</td><td>");
    out.append(r.max_rtt.as_str());
    out.append("</td><td>");
    out.append(r.last_rtt.as_str());
    out.append("</td><td>");
    push_ttl_or(&mut out, r.ttl, "-");
    out.append("</td><td>");
    push_time(&mut out, r.last_success_ts);
    out.append("</td></tr>\n");
    assert(out@ =~= html_row(n as nat, *r));
    out
}

/// Writes the HTML report generated at `generated_ms` (see `html_report`).
#[verifier::spinoff_prover]
pub fn html_report_at(rows: &[ReportRow], generated_ms: u64, total_loss: &str) -> (r: String)
    requires
        rows@.len() < u64::MAX,
        totals_fit(rows@),
    ensures
        r@ == html_report(rows@, generated_ms as nat, total_loss@),
{
    let (sent, received, failed) = row_totals(rows);
    let mut body = String::new();
    let mut i: usize = 0;
    while i < rows.len()
        invariant
            i <= rows@.len(),
            rows@.len() < u64::MAX,
            body@ == html_rows(rows@.take(i as int)),
        decreases rows.len() - i,
    {
        let row = html_row_text((i + 1) as u64, &rows[i]);
        body.append(row.as_str());
        assert(rows@.take(i + 1).drop_last() =~= rows@.take(i as int));
        i = i + 1;
        assert(body@ =~= html_rows(rows@.take(i as int)));
    }
    assert(rows@.take(i as int) =~= rows@);
    let mut out = String::new();
    out.append(HTML_HEAD);
    push_time(&mut out, Some(generated_ms));
    out.append(HTML_HOSTS);
    push_decimal_str(&mut out, rows.len() as u64);
    out.append(HTML_SENT);
    push_decimal_str(&mut out, sent);
    out.append(HTML_RECEIVED);
    push_decimal_str(&mut out, received);
    out.append(HTML_FAILED);
    push_decimal_str(&mut out, failed);
    out.append(HTML_LOSS);
    out.append(total_loss);
    out.append(HTML_TABLE_HEAD);
    out.append(body.as_str());
    out.append(HTML_TAIL);
    assert(out@ =~= html_report(rows@, generated_ms as nat, total_loss@));
    out
}

/// Writes the HTML report generated now (see `html_report_at`; the time
/// is whatever the clock gives).
pub fn to_html(rows: &[ReportRow], total_loss: &str) -> (r: String)
    requires
        rows@.len() < u64::MAX,
        totals_fit(rows@),
    ensures
        exists|t: u64| r@ == html_report(rows@, t as nat, total_loss@),
{
    let now = crate::control::now_ms();
    html_report_at(rows, now, total_loss)
}

/* ----------------------------- dispatch ----------------------------- */

/// Renders the report in the format named by `format` (any case), or the
/// message that rejects the name.
pub fn render_report(format: &str, rows: &[ReportRow], total_loss: &str) -> (r: Result<String, String>)
    requires
        rows@.len() < u64::MAX,
        totals_fit(rows@),
    ensures
        match r {
            Ok(text) => match format_named(lowercase_of(format@)) {
                Some(ReportFormat::Csv) => text@ == csv_report(rows@),
                Some(ReportFormat::Txt) => exists|t: u64| text@ == txt_report(rows@, t as nat, total_loss@),
                Some(ReportFormat::Html) => exists|t: u64| text@ == html_report(rows@, t as nat, total_loss@),
                None => false,
            },
            Err(msg) => format_named(lowercase_of(format@)) is None && msg@ == unknown_format_message(
                lowercase_of(format@),
            ),
        },
{
    match report_format(format) {
        Ok(ReportFormat::Csv) => Ok(to_csv(rows)),
        Ok(ReportFormat::Txt) => Ok(to_txt(rows, total_loss)),
        Ok(ReportFormat::Html) => Ok(to_html(rows, total_loss)),
        Err(msg) => Err(msg),
    }
}

/* ----------------------------- laws ----------------------------- */

/// The round-trip line of a row in the text report: its smallest, average
/// and largest round-trip times, in that order.
pub open spec fn rtt_line(r: ReportRow) -> Seq<char> {
    "最小 "@ + r.min_rtt.view() + " / 平均 "@ + r.avg_rtt.view() + " / 最大 "@ + r.max_rtt.view() + " ms"@
}

/// Whether `part` occurs in `whole`.
pub open spec fn occurs_in(whole: Seq<char>, part: Seq<char>) -> bool {
    exists|a: Seq<char>, b: Seq<char>| whole == #[trigger] (a + part + b)
}

/// A row's block in the text report shows the row's smallest round-trip
/// time after `最小 `, its average after `平均 ` and its largest after
/// `最大 `.
pub proof fn lemma_txt_block_shows_rtt(n: nat, r: ReportRow)
    ensures
        occurs_in(txt_block(n, r), rtt_line(r)),
{
    let a = "["@ + dec(n) + "] "@ + r.name@ + " ("@ + r.host@ + ")\n    状态："@ + status_label(r.status) + "  IP："@
        + text_or(r.resolved_ip, "-"@) + "\n    发送 "@ + dec(r.sent as nat) + "/接收 "@ + dec(
        r.received as nat,
    ) + "/失败 "@ + dec(r.failed as nat) + "  丢包率 "@ + r.loss@ + "%\n    "@;
    let b = "   TTL："@ + ttl_or(r.ttl, "-"@) + "\n    最后成功："@ + time_or_empty(r.last_success_ts) + "\n\n"@;
    reveal_strlit("%\n    最小 ");
    reveal_strlit("%\n    ");
    reveal_strlit("最小 ");
    reveal_strlit(" ms   TTL：");
    reveal_strlit(" ms");
    reveal_strlit("   TTL：");
    assert("%\n    最小 "@ =~= "%\n    "@ + "最小 "@);
    assert(" ms   TTL："@ =~= " ms"@ + "   TTL："@);
    assert(txt_block(n, r) =~= a + rtt_line(r) + b);
}

/// `txt_blocks` of `rows` starts with `txt_blocks` of any prefix of them.
proof fn lemma_txt_blocks_prefix(rows: Seq<ReportRow>, j: int)
    requires
        0 <= j <= rows.len(),
    ensures
        exists|rest: Seq<char>| txt_blocks(rows) == #[trigger] (txt_blocks(rows.take(j)) + rest),
    decreases rows.len(),
{
    if j == rows.len() {
        assert(rows.take(j) =~= rows);
        assert(txt_blocks(rows) =~= txt_blocks(rows.take(j)) + Seq::<char>::empty());
    } else {
        let front = rows.drop_last();
        lemma_txt_blocks_prefix(front, j);
        assert(front.take(j) =~= rows.take(j));
        let rest = choose|rest: Seq<char>| txt_blocks(front) == #[trigger] (txt_blocks(front.take(j)) + rest);
        let last = txt_block(rows.len(), rows.last());
        assert(txt_blocks(rows) =~= txt_blocks(rows.take(j)) + (rest + last));
    }
}

/// A part of `y` is a part of `x + y + z`.
proof fn lemma_occurs_within(x: Seq<char>, y: Seq<char>, z: Seq<char>, part: Seq<char>)
    requires
        occurs_in(y, part),
    ensures
        occurs_in(x + y + z, part),
{
    let (a, b) = choose|a: Seq<char>, b: Seq<char>| y == #[trigger] (a + part + b);
    assert(x + y + z =~= (x + a) + part + (b + z));
}

/// Every row's round-trip times appear in the text report, smallest,
/// average and largest in that order.
pub proof fn lemma_txt_report_shows_rtt(rows: Seq<ReportRow>, generated_ms: nat, total_loss: Seq<char>, k: int)
    requires
        0 <= k < rows.len(),
    ensures
        occurs_in(txt_report(rows, generated_ms, total_loss), rtt_line(rows[k])),
{
    let part = rtt_line(rows[k]);
    let upto = rows.take(k + 1);
    assert(upto.drop_last() =~= rows.take(k));
    assert(upto.last() == rows[k]);
    assert(txt_blocks(upto) == txt_blocks(rows.take(k)) + txt_block((k + 1) as nat, rows[k]));
    lemma_txt_block_shows_rtt((k + 1) as nat, rows[k]);
    lemma_occurs_within(txt_blocks(rows.take(k)), txt_block((k + 1) as nat, rows[k]), Seq::empty(), part);
    assert(txt_blocks(upto) =~= txt_blocks(rows.take(k)) + txt_block((k + 1) as nat, rows[k]) + Seq::<char>::empty());
    lemma_txt_blocks_prefix(rows, k + 1);
    let rest = choose|rest: Seq<char>| txt_blocks(rows) == #[trigger] (txt_blocks(rows.take(k + 1)) + rest);
    lemma_occurs_within(txt_header(rows, generated_ms, total_loss), txt_blocks(upto), rest, part);
    assert(txt_report(rows, generated_ms, total_loss) =~= txt_header(rows, generated_ms, total_loss) + txt_blocks(upto) + rest);
}

/// A row's CSV line ends with its loss percentage, its smallest, average,
/// largest and last round-trip times, its TTL and its last success time, in
/// that order.
pub proof fn lemma_csv_line_columns(n: nat, r: ReportRow)
    ensures
        exists|a: Seq<char>| csv_line(n, r) == #[trigger] (a + (","@ + r.loss.view() + ","@ + r.min_rtt.view()
            + ","@ + r.avg_rtt.view() + ","@ + r.max_rtt.view() + ","@ + r.last_rtt.view() + ","@ + ttl_or(
            r.ttl,
            ""@,
        ) + ","@ + time_or_empty(r.last_success_ts) + "\n"@)),
{
    let a = dec(n) + ","@ + csv_field(r.name@) + ","@ + csv_field(r.host@) + ","@ + csv_field(
        text_or(r.resolved_ip, ""@),
    ) + ","@ + status_label(r.status) + ","@ + dec(r.sent as nat) + ","@ + dec(r.received as nat)
        + ","@ + dec(r.failed as nat);
    let tail = ","@ + r.loss.view() + ","@ + r.min_rtt.view() + ","@ + r.avg_rtt.view() + ","@
        + r.max_rtt.view() + ","@ + r.last_rtt.view() + ","@ + ttl_or(r.ttl, ""@) + ","@ + time_or_empty(
        r.last_success_ts,
    ) + "\n"@;
    assert(csv_line(n, r) =~= a + tail);
}

/// A row of the HTML table shows its loss percentage, then its smallest,
/// average, largest and last round-trip times in consecutive cells.
pub proof fn lemma_html_row_cells(n: nat, r: ReportRow)
    ensures
        occurs_in(
            html_row(n, r),
            "%</td><td>"@ + r.min_rtt.view() + "</td><td>"@ + r.avg_rtt.view() + "</td><td>"@ + r.max_rtt.view()
                + "</td><td>"@ + r.last_rtt.view() + "</td><td>"@,
        ),
{
    let part = "%</td><td>"@ + r.min_rtt.view() + "</td><td>"@ + r.avg_rtt.view() + "</td><td>"@
        + r.max_rtt.view() + "</td><td>"@ + r.last_rtt.view() + "</td><td>"@;
    let a = "<tr class=\""@ + row_class(r.status) + "\"><td>"@ + dec(n) + "</td><td>"@ + html_text(r.name@)
        + "</td><td>"@ + html_text(r.host@) + "</td><td>"@ + html_text(text_or(r.resolved_ip, "-"@))
        + "</td><td>"@ + status_label(r.status) + "</td><td>"@ + dec(r.sent as nat) + "</td><td>"@ + dec(
        r.received as nat,
    ) + "</td><td>"@ + dec(r.failed as nat) + "</td><td>"@ + r.loss.view();
    let b = ttl_or(r.ttl, "-"@) + "</td><td>"@ + time_or_empty(r.last_success_ts) + "</td></tr>\n"@;
    assert(html_row(n, r) =~= a + part + b);
}

} // verus!
