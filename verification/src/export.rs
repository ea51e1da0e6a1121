//! Report texts: status names, CSV and HTML escaping, UTC and local time
//! stamps, the events CSV and the choice of report format.
use vstd::prelude::*;

use crate::calendar::{civil_date, civil_from_days};
use crate::events::{kind_label, level_label, LogEvent};
use crate::model::Status;
use crate::text::{dec, lowercase_of, push_char, push_chars, push_decimal_str, push_padded, to_chars, to_lowercase, zero_pad};

verus! {

/* ----------------------------- status ----------------------------- */

/// Name of each status in reports.
pub open spec fn status_label(s: Status) -> Seq<char> {
    match s {
        Status::Idle => "未开始"@,
        Status::Resolving => "解析中"@,
        Status::Reachable => "正常"@,
        Status::Timeout => "超时"@,
        Status::Failed => "失败"@,
    }
}

/// The name of a status in reports.
pub fn status_text(s: Status) -> (r: &'static str)
    ensures
        r@ == status_label(s),
{
    match s {
        Status::Idle => "未开始",
        Status::Resolving => "解析中",
        Status::Reachable => "正常",
        Status::Timeout => "超时",
        Status::Failed => "失败",
    }
}

/* ----------------------------- escaping ----------------------------- */

/// `s` with every `"` doubled.
pub open spec fn double_quotes(s: Seq<char>) -> Seq<char>
    decreases s.len(),
{
    if s.len() == 0 {
        Seq::empty()
    } else {
        double_quotes(s.drop_last()) + if s.last() == '"' {
            seq!['"', '"']
        } else {
            seq![s.last()]
        }
    }
}

/// Whether a CSV field must be quoted.
pub open spec fn needs_quotes(s: Seq<char>) -> bool {
    s.contains(',') || s.contains('"') || s.contains('\n') || s.contains('\r')
}

/// A CSV field: quoted, with doubled quotes, when it holds a comma, a quote
/// or a line break; as it is otherwise.
pub open spec fn csv_field(s: Seq<char>) -> Seq<char> {
    if needs_quotes(s) {
        seq!['"'] + double_quotes(s) + seq!['"']
    } else {
        s
    }
}

/// The HTML text of one character.
pub open spec fn html_char(c: char) -> Seq<char> {
    if c == '&' {
        "&amp;"@
    } else if c == '<' {
        "&lt;"@
    } else if c == '>' {
        "&gt;"@
    } else if c == '"' {
        "&quot;"@
    } else {
        seq![c]
    }
}

/// `s` with `&`, `<`, `>` and `"` replaced by their HTML entities.
pub open spec fn html_text(s: Seq<char>) -> Seq<char>
    decreases s.len(),
{
    if s.len() == 0 {
        Seq::empty()
    } else {
        html_text(s.drop_last()) + html_char(s.last())
    }
}

fn contains_char(v: &Vec<char>, c: char) -> (r: bool)
    ensures
        r == v@.contains(c),
{
    let mut i: usize = 0;
    while i < v.len()
        invariant
            i <= v@.len(),
            forall|k: int| 0 <= k < i ==> v@[k] != c,
        decreases v.len() - i,
    {
        if v[i] == c {
            return true;
        }
        i = i + 1;
    }
    false
}

/// A CSV field for `s` (see `csv_field`).
pub fn esc_csv(s: &str) -> (r: String)
    ensures
        r@ == csv_field(s@),
{
    let v = to_chars(s);
    let q = contains_char(&v, ',') || contains_char(&v, '"') || contains_char(&v, '\n')
        || contains_char(&v, '\r');
    let mut out = String::new();
    if q {
        push_char(&mut out, '"');
        let mut i: usize = 0;
        while i < v.len()
            invariant
                i <= v@.len(),
                out@ == seq!['"'] + double_quotes(v@.take(i as int)),
            decreases v.len() - i,
        {
            let c = v[i];
            if c == '"' {
                push_char(&mut out, '"');
                push_char(&mut out, '"');
            } else {
                push_char(&mut out, c);
            }
            assert(v@.take(i + 1).drop_last() =~= v@.take(i as int));
            i = i + 1;
            assert(out@ =~= seq!['"'] + double_quotes(v@.take(i as int)));
        }
        push_char(&mut out, '"');
        assert(v@.take(i as int) =~= v@);
    } else {
        push_chars(&mut out, v.as_slice());
    }
    assert(out@ =~= csv_field(s@));
    out
}

/// `s` escaped for HTML (see `html_text`).
pub fn esc_html(s: &str) -> (r: String)
    ensures
        r@ == html_text(s@),
{
    let v = to_chars(s);
    let mut out = String::new();
    let mut i: usize = 0;
    while i < v.len()
        invariant
            i <= v@.len(),
            v@ == s@,
            out@ == html_text(v@.take(i as int)),
        decreases v.len() - i,
    {
        let c = v[i];
        if c == '&' {
            out.append("&amp;");
        } else if c == '<' {
            out.append("&lt;");
        } else if c == '>' {
            out.append("&gt;");
        } else if c == '"' {
            out.append("&quot;");
        } else {
            push_char(&mut out, c);
        }
        assert(v@.take(i + 1).drop_last() =~= v@.take(i as int));
        i = i + 1;
        assert(out@ =~= html_text(v@.take(i as int)));
    }
    assert(v@.take(i as int) =~= v@);
    out
}

/* ----------------------------- time stamps ----------------------------- */

/// `n` written with at least two digits.
pub open spec fn two_digits(n: int) -> Seq<char> {
    zero_pad(dec(n as nat), 2)
}

/// `YYYY-MM-DD HH:MM:SS` (UTC) of epoch milliseconds `ms`.
pub open spec fn utc_text(ms: nat) -> Seq<char> {
    let secs = ms / 1000;
    let rem = secs % 86400;
    let date = civil_date((secs / 86400) as int);
    zero_pad(dec(date.0 as nat), 4) + "-"@ + two_digits(date.1) + "-"@ + two_digits(date.2) + " "@
        + two_digits((rem / 3600) as int) + ":"@ + two_digits((rem % 3600 / 60) as int) + ":"@
        + two_digits((rem % 60) as int)
}

/// Epoch milliseconds as `YYYY-MM-DD HH:MM:SS` (UTC); empty for `None`.
#[verifier::spinoff_prover]
pub fn fmt_time_utc(ms: Option<u64>) -> (r: String)
    ensures
        r@ == match ms {
            Some(v) => utc_text(v as nat),
            None => Seq::<char>::empty(),
        },
{
    let ms = match ms {
        Some(v) => v,
        None => return String::new(),
    };
    let secs = ms / 1000;
    let days = secs / 86400;
    let rem = secs % 86400;
    let (y, mo, d) = civil_from_days(days as i64);
    let mut out = String::new();
    push_padded(&mut out, y as u64, 4);
    out.append("-");
    push_padded(&mut out, mo as u64, 2);
    out.append("-");
    push_padded(&mut out, d as u64, 2);
    out.append(" ");
    push_padded(&mut out, rem / 3600, 2);
    out.append(":");
    push_padded(&mut out, (rem % 3600) / 60, 2);
    out.append(":");
    push_padded(&mut out, rem % 60, 2);
    assert(out@ =~= utc_text(ms as nat));
    out
}

/// `x` limited to the range of `i64`.
pub open spec fn saturate_i64(x: int) -> int {
    if x < i64::MIN {
        i64::MIN as int
    } else if x > i64::MAX {
        i64::MAX as int
    } else {
        x
    }
}

/// The epoch milliseconds shown for `ms` at an offset of `tz_offset_minutes`
/// from UTC: `ms` read as a signed number, shifted by the offset (in
/// milliseconds, saturated), and 0 when that is negative.
pub open spec fn local_ms(ms: u64, tz_offset_minutes: i64) -> nat {
    let v = (ms as i64) as int + saturate_i64(tz_offset_minutes * 60_000);
    if v < 0 {
        0
    } else {
        v as nat
    }
}

/// Whether shifting `ms` by the offset stays within `i64`.
pub open spec fn local_ms_fits(ms: u64, tz_offset_minutes: i64) -> bool {
    i64::MIN <= (ms as i64) as int + saturate_i64(tz_offset_minutes * 60_000) <= i64::MAX
}

/// Epoch milliseconds as local time `YYYY-MM-DD HH:MM:SS`, the offset from
/// UTC given in minutes (east positive).
pub fn fmt_time_local(ms: u64, tz_offset_minutes: i64) -> (r: String)
    requires
        local_ms_fits(ms, tz_offset_minutes),
    ensures
        r@ == utc_text(local_ms(ms, tz_offset_minutes)),
{
    let off: i64 = match tz_offset_minutes.checked_mul(60_000) {
        Some(v) => v,
        None => if tz_offset_minutes < 0 {
            i64::MIN
        } else {
            i64::MAX
        },
    };
    let shifted = ms as i64 + off;
    let shifted: u64 = if shifted < 0 {
        0
    } else {
        shifted as u64
    };
    fmt_time_utc(Some(shifted))
}

/* ----------------------------- events CSV ----------------------------- */

/// The header line of the events CSV.
pub open spec fn events_csv_header() -> Seq<char> {
    "序号,时间(本地),主机,备注,事件类型,等级,说明\n"@
}

/// One line of the events CSV: the 1-based number `n` and the event.
pub open spec fn events_csv_row(n: nat, e: LogEvent, tz_offset_minutes: i64) -> Seq<char> {
    dec(n) + ","@ + csv_field(utc_text(local_ms(e.ts, tz_offset_minutes))) + ","@ + csv_field(
        e.target_host@,
    ) + ","@ + csv_field(e.target_name@) + ","@ + csv_field(kind_label(e.kind)) + ","@
        + csv_field(level_label(e.level)) + ","@ + csv_field(e.text@) + "\n"@
}

/// The lines of the events CSV for `events`, numbered from 1.
pub open spec fn events_csv_rows(events: Seq<LogEvent>, tz_offset_minutes: i64) -> Seq<char>
    decreases events.len(),
{
    if events.len() == 0 {
        Seq::empty()
    } else {
        events_csv_rows(events.drop_last(), tz_offset_minutes) + events_csv_row(
            events.len(),
            events.last(),
            tz_offset_minutes,
        )
    }
}

/// The events CSV: a byte order mark (so that spreadsheet programs read it
/// as UTF-8), the header and one line per event; times are local.
pub open spec fn events_csv(events: Seq<LogEvent>, tz_offset_minutes: i64) -> Seq<char> {
    seq!['\u{feff}'] + events_csv_header() + events_csv_rows(events, tz_offset_minutes)
}

fn push_field(out: &mut String, s: &str)
    ensures
        final(out)@ == old(out)@ + ","@ + csv_field(s@),
{
    out.append(",");
    let f = esc_csv(s);
    out.append(f.as_str());
}

/// One line of the events CSV (see `events_csv_row`).
fn event_row(n: u64, e: &LogEvent, tz_offset_minutes: i64) -> (r: String)
    requires
        local_ms_fits(e.ts, tz_offset_minutes),
    ensures
        r@ == events_csv_row(n as nat, *e, tz_offset_minutes),
{
    let mut out = String::new();
    push_decimal_str(&mut out, n);
    let t = fmt_time_local(e.ts, tz_offset_minutes);
    push_field(&mut out, t.as_str());
    push_field(&mut out, e.target_host.as_str());
    push_field(&mut out, e.target_name.as_str());
    push_field(&mut out, e.kind.label());
    push_field(&mut out, e.level.label());
    push_field(&mut out, e.text.as_str());
    out.append("\n");
    assert(out@ =~= events_csv_row(n as nat, *e, tz_offset_minutes));
    out
}

/// Writes the events CSV (see `events_csv`).
#[verifier::spinoff_prover]
pub fn to_events_csv(events: &[LogEvent], tz_offset_minutes: i64) -> (r: String)
    requires
        forall|k: int| 0 <= k < events@.len() ==> local_ms_fits(#[trigger] events@[k].ts, tz_offset_minutes),
        events@.len() < u64::MAX,
    ensures
        r@ == events_csv(events@, tz_offset_minutes),
{
    let mut out = String::new();
    push_char(&mut out, '\u{feff}');
    out.append("序号,时间(本地),主机,备注,事件类型,等级,说明\n");
    let mut i: usize = 0;
    while i < events.len()
        invariant
            i <= events@.len(),
            events@.len() < u64::MAX,
            forall|k: int| 0 <= k < events@.len() ==> local_ms_fits(#[trigger] events@[k].ts, tz_offset_minutes),
            out@ == events_csv(events@.take(i as int), tz_offset_minutes),
        decreases events.len() - i,
    {
        let row = event_row((i + 1) as u64, &events[i], tz_offset_minutes);
        out.append(row.as_str());
        assert(events@.take(i + 1).drop_last() =~= events@.take(i as int));
        i = i + 1;
        assert(out@ =~= events_csv(events@.take(i as int), tz_offset_minutes));
    }
    assert(events@.take(i as int) =~= events@);
    out
}

/* ----------------------------- report format ----------------------------- */

/// Format of a target report.
#[derive(Debug, Clone, Copy, PartialEq, Eq, Structural)]
pub enum ReportFormat {
    /// Comma-separated values.
    Csv,
    /// Plain text.
    Txt,
    /// An HTML page.
    Html,
}

/// The format named by a lower-cased format name.
pub open spec fn format_named(lower: Seq<char>) -> Option<ReportFormat> {
    if lower == "csv"@ {
        Some(ReportFormat::Csv)
    } else if lower == "txt"@ {
        Some(ReportFormat::Txt)
    } else if lower == "html"@ {
        Some(ReportFormat::Html)
    } else {
        None
    }
}

/// The message for a format name that names no format.
pub open spec fn unknown_format_message(lower: Seq<char>) -> Seq<char> {
    "不支持的导出格式："@ + lower + "（可选 csv / txt / html）"@
}

/// The report format named by a lower-case name, or the message that
/// rejects it.
pub fn format_from_lowercase(lower: &str) -> (r: Result<ReportFormat, String>)
    ensures
        match r {
            Ok(f) => format_named(lower@) == Some(f),
            Err(msg) => format_named(lower@) is None && msg@ == unknown_format_message(lower@),
        },
{
    let v = to_chars(lower);
    let csv = to_chars("csv");
    let txt = to_chars("txt");
    let html = to_chars("html");
    if crate::text::chars_eq(v.as_slice(), csv.as_slice()) {
        Ok(ReportFormat::Csv)
    } else if crate::text::chars_eq(v.as_slice(), txt.as_slice()) {
        Ok(ReportFormat::Txt)
    } else if crate::text::chars_eq(v.as_slice(), html.as_slice()) {
        Ok(ReportFormat::Html)
    } else {
        let mut msg = String::new();
        msg.append("不支持的导出格式：");
        msg.append(lower);
        msg.append("（可选 csv / txt / html）");
        assert(msg@ =~= unknown_format_message(lower@));
        Err(msg)
    }
}

/// The report format named by `format` (case-insensitive), or the message
/// that rejects it.
pub fn report_format(format: &str) -> (r: Result<ReportFormat, String>)
    ensures
        match r {
            Ok(f) => format_named(lowercase_of(format@)) == Some(f),
            Err(msg) => format_named(lowercase_of(format@)) is None && msg@ == unknown_format_message(
                lowercase_of(format@),
            ),
        },
{
    let lower = to_lowercase(format);
    format_from_lowercase(lower.as_str())
}

} // verus!
