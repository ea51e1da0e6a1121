//! Reading the output of the system `ping` program: whether a reply came,
//! its round-trip time and TTL, or the error it reported.
use vstd::prelude::*;

use crate::text::{dec, from_chars, push_decimal_str, to_chars, trim, trim_chars};

verus! {

/// Reply time in Chinese output: `时间=10ms` / `时间<1ms`.
pub const TIME_CN_PATTERN: &'static str = r"时间\s*([=<])\s*(\d+)\s*ms";
/// Reply time in English output: `time=10ms` / `time<1ms`.
pub const TIME_EN_PATTERN: &'static str = r"(?i)time\s*([=<])\s*(\d+)\s*ms";
/// Reply time without a keyword: `=10ms` / `<1ms`.
pub const TIME_ANY_PATTERN: &'static str = r"([=<])\s*(\d+)\s*ms";
/// TTL of a reply: `TTL=117`.
pub const TTL_PATTERN: &'static str = r"(?i)TTL\s*=\s*(\d+)";
/// Errors of name resolution or of the network stack.
pub const HOST_ERROR_PATTERN: &'static str = r"(?i)(could not find host|unknown host|general failure|name or service not known|transmit failed)";

/// The capture groups of the first match of regular expression `pattern`
/// in `text` (group 0 is the whole match; a group that did not take part
/// is `None`), `None` when nothing matches or the pattern does not compile.
pub uninterp spec fn regex_captures_of(pattern: Seq<char>, text: Seq<char>) -> Option<Seq<Option<Seq<char>>>>;

/// The view of an optional string.
pub open spec fn opt_string_view(s: Option<String>) -> Option<Seq<char>> {
    match s {
        Some(x) => Some(x@),
        None => None,
    }
}

/// The view of the capture groups of a match, each as an optional string.
pub open spec fn captures_view(c: Option<Vec<Option<String>>>) -> Option<Seq<Option<Seq<char>>>> {
    match c {
        Some(v) => Some(v@.map_values(|g: Option<String>| opt_string_view(g))),
        None => None,
    }
}

/// Compiles `pattern` with `regex::Regex::new` and returns the capture
/// groups of its first match in `text` (`Regex::captures`), each group as
/// an owned string; `None` when the pattern does not compile or nothing
/// matches. The result is named `regex_captures_of`.
#[verifier::external_body]
fn regex_captures(pattern: &str, text: &str) -> (r: Option<Vec<Option<String>>>)
    ensures
        captures_view(r) == regex_captures_of(pattern@, text@),
{
    let re = regex::Regex::new(pattern).ok()?;
    let caps = re.captures(text)?;
    Some(caps.iter().map(|m| m.map(|m| m.as_str().to_string())).collect())
}

/// Group `k` of a capture list, when there is one.
pub open spec fn group(caps: Seq<Option<Seq<char>>>, k: int) -> Option<Seq<char>> {
    if 0 <= k < caps.len() {
        caps[k]
    } else {
        None
    }
}

fn group_of(caps: &Vec<Option<String>>, k: usize) -> (r: Option<String>)
    ensures
        opt_string_view(r) == (if k < caps@.len() { opt_string_view(caps@[k as int]) } else { None }),
{
    if k < caps.len() {
        match &caps[k] {
            Some(s) => Some(s.clone()),
            None => None,
        }
    } else {
        None
    }
}

/* ----------------------------- numbers ----------------------------- */

/// Whether `c` is an ASCII digit.
pub open spec fn is_ascii_digit(c: char) -> bool {
    '0' <= c && c <= '9'
}

/// Whether `s` is a non-empty run of ASCII digits.
pub open spec fn all_ascii_digits(s: Seq<char>) -> bool {
    s.len() > 0 && forall|i: int| 0 <= i < s.len() ==> is_ascii_digit(#[trigger] s[i])
}

/// The number that the ASCII digits `s` write.
pub open spec fn digits_value(s: Seq<char>) -> nat
    decreases s.len(),
{
    if s.len() == 0 {
        0
    } else {
        digits_value(s.drop_last()) * 10 + ((s.last() as u32) - ('0' as u32)) as nat
    }
}

/// A decimal number of ASCII digits that fits in `u32`, else `None` (what
/// `str::parse::<u32>` gives for a string of digits).
pub open spec fn u32_of_digits(s: Seq<char>) -> Option<u32> {
    if all_ascii_digits(s) && digits_value(s) <= u32::MAX {
        Some(digits_value(s) as u32)
    } else {
        None
    }
}

proof fn lemma_digits_value_prefix(s: Seq<char>, j: int)
    requires
        0 <= j <= s.len(),
    ensures
        digits_value(s) >= digits_value(s.take(j)),
    decreases s.len() - j,
{
    if j < s.len() {
        lemma_digits_value_prefix(s, j + 1);
        assert(s.take(j + 1).drop_last() =~= s.take(j));
        assert(digits_value(s.take(j + 1)) >= digits_value(s.take(j)) * 10) by (nonlinear_arith)
            requires
                digits_value(s.take(j + 1)) >= digits_value(s.take(j + 1).drop_last()) * 10,
                s.take(j + 1).drop_last() == s.take(j),
        {
        }
        assert(digits_value(s.take(j)) * 10 >= digits_value(s.take(j))) by (nonlinear_arith);
    }
    else {
        assert(s.take(j) =~= s);
    }
}

/// Parses a run of ASCII digits as a `u32` (see `u32_of_digits`).
pub fn parse_u32_digits(s: &str) -> (r: Option<u32>)
    ensures
        r == u32_of_digits(s@),
{
    let v = to_chars(s);
    if v.len() == 0 {
        return None;
    }
    let mut acc: u64 = 0;
    let mut i: usize = 0;
    while i < v.len()
        invariant
            i <= v@.len(),
            v@ == s@,
            forall|k: int| 0 <= k < i ==> is_ascii_digit(#[trigger] v@[k]),
            acc == digits_value(v@.take(i as int)),
            acc <= u32::MAX,
        decreases v.len() - i,
    {
        let c = v[i];
        if c < '0' || c > '9' {
            assert(!is_ascii_digit(v@[i as int]));
            return None;
        }
        let d = (c as u32 - '0' as u32) as u64;
        let next = acc * 10 + d;
        assert(v@.take(i + 1).drop_last() =~= v@.take(i as int));
        if next > 0xffff_ffff {
            proof {
                lemma_digits_value_prefix(v@, i + 1);
            }
            return None;
        }
        acc = next;
        i = i + 1;
    }
    assert(v@.take(i as int) =~= v@);
    Some(acc as u32)
}

/// Whether a string is a non-empty run of ASCII digits.
pub fn is_digit_run(s: &str) -> (r: bool)
    ensures
        r == all_ascii_digits(s@),
{
    let v = to_chars(s);
    if v.len() == 0 {
        return false;
    }
    let mut i: usize = 0;
    while i < v.len()
        invariant
            i <= v@.len(),
            v@ == s@,
            forall|k: int| 0 <= k < i ==> is_ascii_digit(#[trigger] v@[k]),
        decreases v.len() - i,
    {
        if v[i] < '0' || v[i] > '9' {
            assert(!is_ascii_digit(v@[i as int]));
            return false;
        }
        i = i + 1;
    }
    true
}

/* ----------------------------- lines ----------------------------- */

/// Index of the first `'\n'` at or after `i` (the length when none).
pub open spec fn line_end(s: Seq<char>, i: int) -> int
    decreases s.len() - i,
{
    if i >= s.len() {
        s.len() as int
    } else if s[i] == '\n' {
        i
    } else {
        line_end(s, i + 1)
    }
}

/// Where a line that starts at `i` ends.
pub proof fn lemma_line_end(s: Seq<char>, i: int)
    requires
        0 <= i,
    ensures
        i <= line_end(s, i) || i > s.len(),
        line_end(s, i) <= s.len(),
        i <= s.len() ==> i <= line_end(s, i),
        forall|k: int| i <= k < line_end(s, i) ==> s[k] != '\n',
        line_end(s, i) < s.len() ==> s[line_end(s, i)] == '\n',
    decreases s.len() - i,
{
    if i < s.len() && s[i] != '\n' {
        lemma_line_end(s, i + 1);
    }
}

/// The first line of `s` from index `i` on that is not blank, trimmed
/// (empty when there is none).
pub open spec fn nonblank_line_from(s: Seq<char>, i: int) -> Seq<char>
    decreases s.len() - i,
{
    if i < 0 || i >= s.len() {
        Seq::empty()
    } else {
        let e = line_end(s, i);
        let l = trim(s.subrange(i, e));
        if l.len() > 0 {
            l
        } else {
            proof {
                lemma_line_end(s, i);
            }
            if e + 1 >= s.len() {
                Seq::empty()
            } else {
                nonblank_line_from(s, e + 1)
            }
        }
    }
}

/// The message of a failed probe: the first non-blank line of the output,
/// trimmed, or `ping 失败` when the output is blank.
pub open spec fn failure_message(text: Seq<char>) -> Seq<char> {
    let l = nonblank_line_from(text, 0);
    if l.len() > 0 {
        l
    } else {
        "ping 失败"@
    }
}

fn first_nonblank_line(s: &Vec<char>) -> (r: Vec<char>)
    ensures
        r@ == nonblank_line_from(s@, 0),
{
    let mut i: usize = 0;
    while i < s.len()
        invariant
            i <= s@.len(),
            nonblank_line_from(s@, 0) == nonblank_line_from(s@, i as int),
        decreases s.len() - i,
    {
        proof {
            lemma_line_end(s@, i as int);
        }
        let mut e = i;
        while e < s.len() && s[e] != '\n'
            invariant
                i <= e <= s@.len(),
                line_end(s@, e as int) == line_end(s@, i as int),
            decreases s.len() - e,
        {
            e = e + 1;
        }
        let mut line: Vec<char> = Vec::new();
        let mut k = i;
        while k < e
            invariant
                i <= k <= e,
                e <= s@.len(),
                line@ == s@.subrange(i as int, k as int),
            decreases e - k,
        {
            line.push(s[k]);
            k = k + 1;
            assert(line@ =~= s@.subrange(i as int, k as int));
        }
        assert(e == line_end(s@, i as int)) by {
            assert(line_end(s@, e as int) == e);
        }
        let t = trim_chars(line.as_slice());
        if t.len() > 0 {
            return t;
        }
        if e >= s.len() - 1 {
            return Vec::new();
        }
        i = e + 1;
    }
    Vec::new()
}

/* ----------------------------- replies ----------------------------- */

/// Round-trip time read from a reply line.
#[derive(Debug, Clone, PartialEq, Eq)]
pub enum RttReading {
    /// `<1ms`: below one millisecond.
    BelowOneMs,
    /// `=Nms`: the ASCII digits of `N`.
    Millis(String),
}

/// What a probe's output says.
#[derive(Debug, Clone, PartialEq, Eq)]
pub enum PingReply {
    /// A reply came (the output shows a TTL).
    Reply {
        /// The round-trip time, when the output shows one.
        rtt: Option<RttReading>,
        /// The TTL, when it is a number that fits in `u32`.
        ttl: Option<u32>,
    },
    /// Name resolution or the network stack failed, with the message.
    Failed(String),
    /// Neither: the probe timed out.
    TimedOut,
}

/// The time that a match of a time pattern shows, from its capture groups:
/// `Some(None)` for below one millisecond (group 1 is `<`),
/// `Some(Some(digits))` for whole milliseconds (group 2), `None` when there
/// is no match or group 2 is not a run of ASCII digits.
pub open spec fn time_of_captures(caps: Option<Seq<Option<Seq<char>>>>) -> Option<Option<Seq<char>>> {
    match caps {
        Some(c) => match group(c, 2) {
            Some(d) => if all_ascii_digits(d) {
                if group(c, 1) == Some("<"@) {
                    Some(None)
                } else {
                    Some(Some(d))
                }
            } else {
                None
            },
            None => None,
        },
        None => None,
    }
}

/// What time pattern `pattern` reads from `text` (see `time_of_captures`).
pub open spec fn time_by(pattern: Seq<char>, text: Seq<char>) -> Option<Option<Seq<char>>> {
    time_of_captures(regex_captures_of(pattern, text))
}

/// The round-trip time of a reply: the Chinese pattern first, then the
/// English one, then the keyword-less one.
pub open spec fn rtt_of(text: Seq<char>) -> Option<Option<Seq<char>>> {
    if time_by(TIME_CN_PATTERN@, text) is Some {
        time_by(TIME_CN_PATTERN@, text)
    } else if time_by(TIME_EN_PATTERN@, text) is Some {
        time_by(TIME_EN_PATTERN@, text)
    } else {
        time_by(TIME_ANY_PATTERN@, text)
    }
}

/// The view of an optional reading (see `rtt_of`).
pub open spec fn reading_view(r: Option<RttReading>) -> Option<Option<Seq<char>>> {
    match r {
        Some(RttReading::BelowOneMs) => Some(None),
        Some(RttReading::Millis(d)) => Some(Some(d@)),
        None => None,
    }
}

/// The time that the capture groups of a match of a time pattern show
/// (see `time_of_captures`).
pub fn time_from_captures(caps: Option<Vec<Option<String>>>) -> (r: Option<RttReading>)
    ensures
        reading_view(r) == time_of_captures(captures_view(caps)),
{
    let caps = match caps {
        Some(c) => c,
        None => return None,
    };
    let digits = match group_of(&caps, 2) {
        Some(d) => d,
        None => return None,
    };
    if !is_digit_run(digits.as_str()) {
        return None;
    }
    let below = match group_of(&caps, 1) {
        Some(op) => {
            let v = to_chars(op.as_str());
            let lt = to_chars("<");
            crate::text::chars_eq(v.as_slice(), lt.as_slice())
        },
        None => false,
    };
    if below {
        Some(RttReading::BelowOneMs)
    } else {
        Some(RttReading::Millis(digits))
    }
}

fn time_reading(pattern: &str, text: &str) -> (r: Option<RttReading>)
    ensures
        reading_view(r) == time_by(pattern@, text@),
{
    time_from_captures(regex_captures(pattern, text))
}

/// The round-trip time shown in `text` (see `rtt_of`).
pub fn extract_rtt(text: &str) -> (r: Option<RttReading>)
    ensures
        reading_view(r) == rtt_of(text@),
{
    let cn = time_reading(TIME_CN_PATTERN, text);
    if cn.is_some() {
        return cn;
    }
    let en = time_reading(TIME_EN_PATTERN, text);
    if en.is_some() {
        return en;
    }
    time_reading(TIME_ANY_PATTERN, text)
}

/// What the output `text` of one run of `ping` says, given the capture
/// groups of the TTL pattern in it, the round-trip time read from it and
/// whether the host-error pattern matches it: a reply when the TTL pattern
/// matched (its TTL when group 1 is a number that fits in `u32`); else a
/// failure with the first non-blank line of `text` when a host or network
/// error showed; else a timeout.
pub open spec fn reply_fits(
    r: PingReply,
    ttl_caps: Option<Seq<Option<Seq<char>>>>,
    rtt: Option<Option<Seq<char>>>,
    host_error: bool,
    text: Seq<char>,
) -> bool {
    match ttl_caps {
        Some(c) => r matches PingReply::Reply { rtt: rr, ttl } && reading_view(rr) == rtt
            && ttl == match group(c, 1) {
            Some(d) => u32_of_digits(d),
            None => None,
        },
        None => if host_error {
            r matches PingReply::Failed(m) && m@ == failure_message(text)
        } else {
            r is TimedOut
        },
    }
}

/// What `text`, the output of one run of `ping`, says (see `reply_fits`,
/// with the TTL pattern, the round-trip time of `rtt_of` and the
/// host-error pattern applied to `text`).
pub open spec fn reply_matches(r: PingReply, text: Seq<char>) -> bool {
    reply_fits(
        r,
        regex_captures_of(TTL_PATTERN@, text),
        rtt_of(text),
        regex_captures_of(HOST_ERROR_PATTERN@, text) is Some,
        text,
    )
}

/// The reply that `text` shows, given what the patterns found in it (see
/// `reply_fits`).
pub fn reply_from_captures(
    ttl_caps: Option<Vec<Option<String>>>,
    rtt: Option<RttReading>,
    host_error: bool,
    text: &str,
) -> (r: PingReply)
    ensures
        reply_fits(r, captures_view(ttl_caps), reading_view(rtt), host_error, text@),
{
    match ttl_caps {
        Some(caps) => {
            let ttl = match group_of(&caps, 1) {
                Some(d) => parse_u32_digits(d.as_str()),
                None => None,
            };
            PingReply::Reply { rtt, ttl }
        },
        None => {
            if host_error {
                let v = to_chars(text);
                let line = first_nonblank_line(&v);
                if line.len() > 0 {
                    PingReply::Failed(from_chars(line.as_slice()))
                } else {
                    PingReply::Failed("ping 失败".to_owned())
                }
            } else {
                PingReply::TimedOut
            }
        },
    }
}

/// Reads the output of one run of `ping` (see `reply_matches`).
pub fn parse_ping_output(text: &str) -> (r: PingReply)
    ensures
        reply_matches(r, text@),
{
    let ttl_caps = regex_captures(TTL_PATTERN, text);
    if ttl_caps.is_some() {
        let rtt = extract_rtt(text);
        reply_from_captures(ttl_caps, rtt, false, text)
    } else {
        let host_error = regex_captures(HOST_ERROR_PATTERN, text).is_some();
        reply_from_captures(None, None, host_error, text)
    }
}

/* ----------------------------- ICMP echo ----------------------------- */

/// Status code of an echo that timed out (also the error code of a send
/// that timed out).
pub const IP_REQ_TIMED_OUT: u32 = 11010;

/// What one ICMP echo gave.
#[derive(Debug, Clone, PartialEq, Eq)]
pub enum EchoVerdict {
    /// Answered after `rtt_ms` milliseconds with TTL `ttl`.
    Answered {
        /// Round-trip time in milliseconds.
        rtt_ms: u32,
        /// TTL of the reply (the request's when the reply shows none).
        ttl: u32,
    },
    /// No answer in time.
    TimedOut,
    /// Failed, with the message.
    Failed(String),
}

/// The echo request payload: `size` bytes counting up from 0, modulo 256.
pub fn echo_payload(size: u16) -> (r: Vec<u8>)
    ensures
        r@ == Seq::new(size as nat, |i: int| (i % 256) as u8),
{
    let mut v: Vec<u8> = Vec::new();
    let mut i: u16 = 0;
    while i < size
        invariant
            i <= size,
            v@ == Seq::new(i as nat, |k: int| (k % 256) as u8),
        decreases size - i,
    {
        v.push((i % 256) as u8);
        i = i + 1;
        assert(v@ =~= Seq::new(i as nat, |k: int| (k % 256) as u8));
    }
    v
}

/// The echo timeout: the probe timeout, capped at `u32::MAX` milliseconds.
pub fn echo_timeout(timeout_ms: u64) -> (r: u32)
    ensures
        r == if timeout_ms > u32::MAX { u32::MAX as u64 } else { timeout_ms },
{
    if timeout_ms > 0xffff_ffff {
        0xffff_ffff
    } else {
        timeout_ms as u32
    }
}

/// Size, in 8-byte words, of the reply buffer for a payload of
/// `payload_len` bytes: the reply header, the payload and an 8-byte ICMP
/// header, rounded up.
pub fn reply_buffer_words(header_size: usize, payload_len: usize) -> (r: usize)
    requires
        header_size + payload_len + 8 + 7 <= usize::MAX,
    ensures
        r as int == (header_size + payload_len + 8 + 7) / 8,
{
    (header_size + payload_len + 8 + 7) / 8
}

/// The verdict on the first reply of an echo: status 0 is an answer (the
/// reply's TTL, or the request's when the reply's is 0), the timeout status
/// is a timeout, any other status a failure naming it.
pub fn reply_verdict(status: u32, round_trip_ms: u32, reply_ttl: u8, request_ttl: u8) -> (r: EchoVerdict)
    ensures
        status == 0 ==> (r matches EchoVerdict::Answered { rtt_ms, ttl } && rtt_ms == round_trip_ms
            && ttl == (if reply_ttl > 0 { reply_ttl } else { request_ttl })),
        status == IP_REQ_TIMED_OUT ==> r is TimedOut,
        status != 0 && status != IP_REQ_TIMED_OUT ==> (r matches EchoVerdict::Failed(m) && m@
            == "ICMP 状态码 "@ + dec(status as nat)),
{
    if status == 0 {
        let ttl = if reply_ttl > 0 { reply_ttl as u32 } else { request_ttl as u32 };
        EchoVerdict::Answered { rtt_ms: round_trip_ms, ttl }
    } else if status == IP_REQ_TIMED_OUT {
        EchoVerdict::TimedOut
    } else {
        let mut m = String::new();
        m.append("ICMP 状态码 ");
        push_decimal_str(&mut m, status as u64);
        EchoVerdict::Failed(m)
    }
}

/// The verdict when the echo could not be sent: the timeout code is a
/// timeout, any other code a failure naming the code and the system's
/// message.
pub fn send_failure_verdict(code: u32, os_message: &str) -> (r: EchoVerdict)
    ensures
        code == IP_REQ_TIMED_OUT ==> r is TimedOut,
        code != IP_REQ_TIMED_OUT ==> (r matches EchoVerdict::Failed(m) && m@ == "IcmpSendEcho 失败（错误码 "@
            + dec(code as nat) + "）："@ + os_message@),
{
    if code == IP_REQ_TIMED_OUT {
        EchoVerdict::TimedOut
    } else {
        let mut m = String::new();
        m.append("IcmpSendEcho 失败（错误码 ");
        push_decimal_str(&mut m, code as u64);
        m.append("）：");
        m.append(os_message);
        EchoVerdict::Failed(m)
    }
}

/* ----------------------------- running ping ----------------------------- */

/// The arguments of one run of `ping` against `target`: `-6` for IPv6, one
/// echo, and the timeout limited to 1 to 60000 milliseconds.
pub open spec fn ping_arguments(target: Seq<char>, timeout_ms: u64, ipv6: bool) -> Seq<Seq<char>> {
    let t = if timeout_ms < 1 {
        1
    } else if timeout_ms > 60_000 {
        60_000
    } else {
        timeout_ms as int
    };
    (if ipv6 {
        seq!["-6"@]
    } else {
        Seq::empty()
    }) + seq!["-n"@, "1"@, "-w"@, dec(t as nat), target]
}

/// The arguments of one run of `ping` (see `ping_arguments`).
pub fn ping_args(target: &str, timeout_ms: u64, ipv6: bool) -> (r: Vec<String>)
    ensures
        r@.len() == ping_arguments(target@, timeout_ms, ipv6).len(),
        forall|k: int| 0 <= k < r@.len() ==> (#[trigger] r@[k])@ == ping_arguments(target@, timeout_ms, ipv6)[k],
{
    let t: u64 = if timeout_ms < 1 {
        1
    } else if timeout_ms > 60_000 {
        60_000
    } else {
        timeout_ms
    };
    let mut v: Vec<String> = Vec::new();
    if ipv6 {
        v.push("-6".to_owned());
    }
    v.push("-n".to_owned());
    v.push("1".to_owned());
    v.push("-w".to_owned());
    let mut n = String::new();
    push_decimal_str(&mut n, t);
    v.push(n);
    v.push(target.to_owned());
    proof {
        let want = ping_arguments(target@, timeout_ms, ipv6);
        assert forall|k: int| 0 <= k < v@.len() implies (#[trigger] v@[k])@ == want[k] by {
            if ipv6 {
                assert(want[k] == seq!["-6"@, "-n"@, "1"@, "-w"@, dec(t as nat), target@][k]);
            } else {
                assert(want =~= seq!["-n"@, "1"@, "-w"@, dec(t as nat), target@]);
            }
        }
    }
    v
}

} // verus!
