//! The configuration model: named targets, what each one runs, what it
//! depends on and how its readiness is judged.

use vstd::prelude::*;
use crate::name_map::NameMap;
use crate::text::chars_of;

verus! {

/// A span of time as whole seconds plus nanoseconds, as `std::time::Duration`
/// holds it.
#[derive(Clone, Copy, Debug, PartialEq, Eq, Structural)]
pub struct HumanDuration {
    pub secs: u64,
    pub nanos: u32,
}

/// What `humantime::parse_duration` gives for a text: the duration it reads,
/// as seconds and nanoseconds, or the text of the error it reports.
pub uninterp spec fn humantime_reading(text: Seq<char>) -> Result<(u64, u32), Seq<char>>;

/// The text that `humantime::format_duration` writes for a duration.
pub uninterp spec fn humantime_writing(secs: u64, nanos: u32) -> Seq<char>;

/// 2^64, where the sums of the scan below stop growing.
const SCAN_CAP: u128 = 18_446_744_073_709_551_616;

/// The scan of a duration text, one character at a time, as `humantime`
/// splits it into spans: a number (digits, with blanks between them
/// skipped), perhaps a `.` and a fraction, then a unit made of letters.
#[derive(Clone, Copy, Debug, PartialEq, Eq, Structural)]
struct DurationScan {
    /// The bound for the spans already closed, capped at 2^64.
    total: u128,
    /// The number of the open span, capped at 2^64.
    num: u128,
    /// 0 between spans, 1 in a number, 2 in a fraction, 3 in a unit.
    phase: u8,
    /// The open span has a fraction.
    frac: bool,
    /// How many letters of the unit were read, counted up to 3.
    ulen: u8,
    /// The first three letters of the unit.
    u0: char,
    u1: char,
    u2: char,
}

spec fn scan_start() -> DurationScan {
    DurationScan { total: 0, num: 0, phase: 0, frac: false, ulen: 0, u0: ' ', u1: ' ', u2: ' ' }
}

/// A letter that may stand in a unit.
spec fn is_unit_letter(c: char) -> bool {
    ('a' <= c && c <= 'z') || ('A' <= c && c <= 'Z') || c == '\u{b5}'
}

/// The scale of a unit, told apart by its first letters as humantime's unit
/// names are: `(true, k)` for a unit of which `k` make one second, `(false, k)`
/// for a unit of `k` seconds. A unit that is no unit of humantime counts as a
/// year, the largest.
spec fn unit_scale(ulen: u8, u0: char, u1: char, u2: char) -> (bool, u128) {
    if ulen == 0 {
        (false, 31_557_600)
    } else if u0 == 'n' {
        (true, 1_000_000_000)
    } else if u0 == 'u' || u0 == '\u{b5}' {
        (true, 1_000_000)
    } else if u0 == 'm' {
        if ulen == 1 {
            (false, 60)
        } else if u1 == 's' {
            (true, 1000)
        } else if u1 == 'i' && ulen >= 3 && u2 == 'l' {
            (true, 1000)
        } else if u1 == 'i' {
            (false, 60)
        } else if u1 == 'o' {
            (false, 2_630_016)
        } else {
            (false, 31_557_600)
        }
    } else if u0 == 's' {
        (false, 1)
    } else if u0 == 'h' {
        (false, 3600)
    } else if u0 == 'd' {
        (false, 86400)
    } else if u0 == 'w' {
        (false, 604_800)
    } else if u0 == 'M' {
        (false, 2_630_016)
    } else {
        (false, 31_557_600)
    }
}

/// A bound on the seconds that one span adds: its number in whole units
/// (below a second, the whole seconds plus one), plus one unit (below a
/// second, one second) for a fraction.
spec fn span_bound(num: u128, frac: bool, ulen: u8, u0: char, u1: char, u2: char) -> int {
    let (below, k) = unit_scale(ulen, u0, u1, u2);
    if below {
        num / k + 1 + if frac { 1int } else { 0int }
    } else {
        num * k + if frac { k as int } else { 0int }
    }
}

/// The scan with its open span closed.
spec fn scan_close(st: DurationScan) -> DurationScan {
    if st.phase == 0 {
        st
    } else {
        let t = st.total + span_bound(st.num, st.frac, st.ulen, st.u0, st.u1, st.u2);
        DurationScan { total: if t < SCAN_CAP { t as u128 } else { SCAN_CAP }, phase: 0, ..st }
    }
}

/// The scan after one more character.
spec fn scan_step(st: DurationScan, c: char) -> DurationScan {
    if '0' <= c && c <= '9' {
        let d = (c as int - '0' as int) as u128;
        if st.phase == 1 {
            let n = st.num * 10 + d;
            DurationScan { num: if n < SCAN_CAP { n as u128 } else { SCAN_CAP }, ..st }
        } else if st.phase == 2 {
            st
        } else {
            let closed = scan_close(st);
            DurationScan { num: d, phase: 1, frac: false, ulen: 0, ..closed }
        }
    } else if is_unit_letter(c) {
        if st.phase == 1 || st.phase == 2 {
            DurationScan { phase: 3, ulen: 1, u0: c, ..st }
        } else if st.phase == 3 {
            if st.ulen == 1 {
                DurationScan { ulen: 2, u1: c, ..st }
            } else if st.ulen == 2 {
                DurationScan { ulen: 3, u2: c, ..st }
            } else {
                st
            }
        } else {
            st
        }
    } else if c == '.' && st.phase == 1 {
        DurationScan { phase: 2, frac: true, ..st }
    } else if st.phase == 3 {
        scan_close(st)
    } else {
        st
    }
}

/// The scan of a whole text.
spec fn scan_text(s: Seq<char>) -> DurationScan
    decreases s.len(),
{
    if s.len() == 0 {
        scan_start()
    } else {
        scan_step(scan_text(s.drop_last()), s.last())
    }
}

/// A bound on the seconds of the duration that `humantime` builds from the
/// text, and of every partial sum on the way: the sum over its spans of each
/// number taken in whole units of its span (below a second, in whole seconds
/// plus one), plus one unit (below a second, one second) for a fraction,
/// counted up to 2^64. A span that ends the text without a unit, or names no
/// unit of humantime, counts in years. The bound exceeds the duration read by
/// less than one unit per span and one more unit per fraction.
pub closed spec fn seconds_bound(s: Seq<char>) -> int {
    scan_close(scan_text(s)).total as int
}

/// Calls `humantime::parse_duration`: gives the duration it reads, or the
/// text of its error. Its source reads "0" as zero and rejects the empty text.
/// Its source builds the sum with `Duration::new`, which panics when a
/// partial sum reaches 2^64 seconds; the bound in `requires` keeps every
/// partial sum below that.
#[verifier::external_body]
fn parse_human(text: &str) -> (r: Result<(u64, u32), String>)
    requires
        seconds_bound(text@) < 18_446_744_073_709_551_615,
    ensures
        r matches Ok(d) ==> (humantime_reading(text@) is Ok && humantime_reading(text@)->Ok_0 == d) && d.1 < 1_000_000_000,
        r matches Err(m) ==> (humantime_reading(text@) is Err && humantime_reading(text@)->Err_0 == m@),
        text@.len() == 0 ==> r is Err,
        text@ == "0"@ ==> r is Ok && r->Ok_0 == (0u64, 0u32),
{
    match humantime::parse_duration(text) {
        Ok(d) => Ok((d.as_secs(), d.subsec_nanos())),
        Err(e) => Err(e.to_string()),
    }
}

fn unit_scale_of(ulen: u8, u0: char, u1: char, u2: char) -> (r: (bool, u128))
    ensures
        r == unit_scale(ulen, u0, u1, u2),
{
    if ulen == 0 {
        (false, 31_557_600)
    } else if u0 == 'n' {
        (true, 1_000_000_000)
    } else if u0 == 'u' || u0 == '\u{b5}' {
        (true, 1_000_000)
    } else if u0 == 'm' {
        if ulen == 1 {
            (false, 60)
        } else if u1 == 's' {
            (true, 1000)
        } else if u1 == 'i' && ulen >= 3 && u2 == 'l' {
            (true, 1000)
        } else if u1 == 'i' {
            (false, 60)
        } else if u1 == 'o' {
            (false, 2_630_016)
        } else {
            (false, 31_557_600)
        }
    } else if u0 == 's' {
        (false, 1)
    } else if u0 == 'h' {
        (false, 3600)
    } else if u0 == 'd' {
        (false, 86400)
    } else if u0 == 'w' {
        (false, 604_800)
    } else if u0 == 'M' {
        (false, 2_630_016)
    } else {
        (false, 31_557_600)
    }
}

fn close_span(st: DurationScan) -> (r: DurationScan)
    requires
        st.total <= SCAN_CAP,
        st.num <= SCAN_CAP,
    ensures
        r == scan_close(st),
        r.total <= SCAN_CAP,
        r.num <= SCAN_CAP,
{
    if st.phase == 0 {
        return st;
    }
    let (below, k) = unit_scale_of(st.ulen, st.u0, st.u1, st.u2);
    let extra: u128 = if st.frac {
        if below { 1 } else { k }
    } else {
        0
    };
    let span: u128 = if below {
        st.num / k + 1 + extra
    } else {
        proof {
            assert(k <= 31_557_600);
            assert(st.num * k <= SCAN_CAP * 31_557_600) by (nonlinear_arith)
                requires st.num <= SCAN_CAP, k <= 31_557_600;
        }
        st.num * k + extra
    };
    let t: u128 = st.total + span;
    DurationScan { total: if t < SCAN_CAP { t } else { SCAN_CAP }, phase: 0, ..st }
}

fn step_scan(st: DurationScan, c: char) -> (r: DurationScan)
    requires
        st.total <= SCAN_CAP,
        st.num <= SCAN_CAP,
    ensures
        r == scan_step(st, c),
        r.total <= SCAN_CAP,
        r.num <= SCAN_CAP,
{
    if '0' <= c && c <= '9' {
        let d: u128 = ((c as u32) - ('0' as u32)) as u128;
        if st.phase == 1 {
            let n: u128 = st.num * 10 + d;
            DurationScan { num: if n < SCAN_CAP { n } else { SCAN_CAP }, ..st }
        } else if st.phase == 2 {
            st
        } else {
            let closed = close_span(st);
            DurationScan { num: d, phase: 1, frac: false, ulen: 0, ..closed }
        }
    } else if ('a' <= c && c <= 'z') || ('A' <= c && c <= 'Z') || c == '\u{b5}' {
        if st.phase == 1 || st.phase == 2 {
            DurationScan { phase: 3, ulen: 1, u0: c, ..st }
        } else if st.phase == 3 {
            if st.ulen == 1 {
                DurationScan { ulen: 2, u1: c, ..st }
            } else if st.ulen == 2 {
                DurationScan { ulen: 3, u2: c, ..st }
            } else {
                st
            }
        } else {
            st
        }
    } else if c == '.' && st.phase == 1 {
        DurationScan { phase: 2, frac: true, ..st }
    } else if st.phase == 3 {
        close_span(st)
    } else {
        st
    }
}

/// Whether `seconds_bound` of the text stays below 2^64 - 1.
fn within_seconds_bound(text: &str) -> (ok: bool)
    ensures
        ok == (seconds_bound(text@) < 18_446_744_073_709_551_615),
{
    let cs = chars_of(text);
    let mut st = DurationScan { total: 0, num: 0, phase: 0, frac: false, ulen: 0, u0: ' ', u1: ' ', u2: ' ' };
    let mut i: usize = 0;
    while i < cs.len()
        invariant
            i <= cs@.len(),
            cs@ == text@,
            st == scan_text(cs@.take(i as int)),
            st.total <= SCAN_CAP,
            st.num <= SCAN_CAP,
        decreases cs@.len() - i,
    {
        let c = cs[i];
        proof {
            assert(cs@.take(i + 1).drop_last() =~= cs@.take(i as int));
            assert(cs@.take(i + 1).last() == c);
        }
        st = step_scan(st, c);
        i = i + 1;
    }
    proof {
        assert(cs@.take(cs@.len() as int) =~= text@);
    }
    let last = close_span(st);
    last.total < 18_446_744_073_709_551_615
}

/// Calls `humantime::format_duration` on a `std::time::Duration` of these
/// seconds and nanoseconds and gives back its text; its source writes `0s`
/// for the zero duration, and its documentation guarantees that
/// `parse_duration` reads the text back as the same duration.
#[verifier::external_body]
fn format_human(secs: u64, nanos: u32) -> (r: String)
    requires
        nanos < 1_000_000_000,
    ensures
        r@ == humantime_writing(secs, nanos),
        secs == 0 && nanos == 0 ==> r@ == "0s"@,
        (humantime_reading(r@) is Ok && humantime_reading(r@)->Ok_0 == (secs, nanos)),
{
    humantime::format_duration(std::time::Duration::new(secs, nanos)).to_string()
}

impl HumanDuration {
    /// Reads a duration such as `10s` or `1h 30m`, as `humantime` reads it;
    /// gives the reason where it cannot. A text whose `seconds_bound` reaches
    /// 2^64 - 1 seconds is refused before it is read, as `humantime` could
    /// panic on it: every text whose spans add up to less than that, less
    /// one unit per span and one more per fraction, is read.
    pub fn parse(text: &str) -> (r: Result<HumanDuration, String>)
        ensures
            r is Ok <==> seconds_bound(text@) < 18_446_744_073_709_551_615 && humantime_reading(text@) is Ok,
            match r {
                Ok(d) => (humantime_reading(text@) is Ok && humantime_reading(text@)->Ok_0 == (d.secs, d.nanos)),
                Err(m) => if seconds_bound(text@) < 18_446_744_073_709_551_615 {
                    (humantime_reading(text@) is Err && humantime_reading(text@)->Err_0 == m@)
                } else {
                    m@ == "duration is too large"@
                },
            },
    {
        if !within_seconds_bound(text) {
            return Err(crate::text::text("duration is too large"));
        }
        match parse_human(text) {
            Ok((secs, nanos)) => Ok(HumanDuration { secs, nanos }),
            Err(e) => Err(e),
        }
    }

    /// The duration written as `humantime` writes it, such as `2h 37m`;
    /// reading the text back gives the same duration.
    pub fn to_text(&self) -> (r: String)
        requires
            self.nanos < 1_000_000_000,
        ensures
            r@ == humantime_writing(self.secs, self.nanos),
            (humantime_reading(r@) is Ok && humantime_reading(r@)->Ok_0 == (self.secs, self.nanos)),
    {
        format_human(self.secs, self.nanos)
    }

    /// A duration of whole seconds.
    pub fn from_secs(secs: u64) -> (d: HumanDuration)
        ensures
            d.secs == secs,
            d.nanos == 0,
    {
        HumanDuration { secs, nanos: 0 }
    }
}

/// How a target's readiness is judged: at most one of port, exit code or
/// log pattern, and an optional time limit.
#[derive(Clone, Debug, Default)]
pub struct WaitFor {
    pub port: Option<u16>,
    pub exit_code: Option<i32>,
    pub log_pattern: Option<String>,
    pub timeout: Option<HumanDuration>,
}

impl WaitFor {
    /// The configured time limit, if any.
    pub fn timeout_duration(&self) -> (r: Option<HumanDuration>)
        ensures
            r == self.timeout,
    {
        self.timeout
    }
}

/// The number of readiness strategies that a `WaitFor` names.
pub open spec fn strategy_count(w: WaitFor) -> int {
    (if w.port is Some { 1int } else { 0int }) + (if w.exit_code is Some { 1int } else { 0int })
        + (if w.log_pattern is Some { 1int } else { 0int })
}

/// One named process of the configuration.
#[derive(Clone, Debug, Default)]
pub struct Target {
    pub cmd: Vec<String>,
    pub depends: Vec<String>,
    pub wait_for: WaitFor,
    pub signal: Option<String>,
    pub cwd: Option<String>,
    pub env: NameMap<String>,
    pub stdout: Option<String>,
    pub stderr: Option<String>,
    pub fds: NameMap<String>,
}

/// The whole configuration: targets by name, in ascending name order.
pub type Config = NameMap<Target>;

} // verus!
