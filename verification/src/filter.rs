//! The filter itself: a line-by-line state machine over the output of
//! `mix test` that collects the failure reports and the summary line.
use vstd::prelude::*;
use crate::ansi::{ansi_stripped, strip_ansi_chars};
use crate::patterns::{
    matches_deps_backtrace,
    is_deps_backtrace_chars,
    matches_failure_header,
    is_failure_header_chars,
    is_finished_line,
    is_finished_line_chars,
    is_seed_line,
    is_seed_line_chars,
    is_summary_line,
    summary_captures_chars,
};
use crate::report::{opt_view, report, report_chars};
use crate::text::{
    chars_of,
    copy_range,
    join,
    join_chars,
    lines,
    split_lines,
    string_from_chars,
    trim,
    trim_chars,
    views,
};

verus! {

/// Where the scan stands in the output: before the failures, among them,
/// or past the summary line.
#[derive(PartialEq, Eq, Structural, Clone, Copy)]
pub enum Phase {
    Header,
    Failures,
    Summary,
}

/// The state of the scan: the phase, the failure reports completed so far,
/// the lines of the report being read, and the last summary line seen.
pub struct ScanState {
    pub phase: Phase,
    pub failures: Seq<Seq<char>>,
    pub current: Seq<Seq<char>>,
    pub summary: Seq<char>,
}

/// The state before the first line.
pub open spec fn initial_scan() -> ScanState {
    ScanState { phase: Phase::Header, failures: seq![], current: seq![], summary: seq![] }
}

/// The failure reports with the one being read completed, if any.
pub open spec fn flushed(st: ScanState) -> Seq<Seq<char>> {
    if st.current.len() > 0 {
        st.failures.push(join(st.current, "\n"@))
    } else {
        st.failures
    }
}

/// The effect of one line on the scan, `None` where the scan stops.
///
/// Seed lines are skipped. A summary line is kept; it completes the report
/// being read and ends the failures. Before the failures, `Finished in` or
/// a failure header starts them. Among the failures, a header starts a new
/// report, a blank line ends the current one, and any other line joins the
/// current report, unless it is a stacktrace line into a dependency or the
/// runtime; a line outside any report is passed over. Past the summary,
/// the first other line stops the scan.
pub open spec fn scan_step(st: ScanState, line: Seq<char>) -> Option<ScanState> {
    let t = trim(line);
    if is_seed_line(t) {
        Some(st)
    } else if is_summary_line(t) {
        Some(
            ScanState {
                phase: Phase::Summary,
                failures: flushed(st),
                current: seq![],
                summary: t,
            },
        )
    } else {
        match st.phase {
            Phase::Header => {
                if is_finished_line(t) {
                    Some(ScanState { phase: Phase::Failures, ..st })
                } else if matches_failure_header(t) {
                    Some(
                        ScanState {
                            phase: Phase::Failures,
                            failures: flushed(st),
                            current: seq![t],
                            ..st
                        },
                    )
                } else {
                    Some(st)
                }
            },
            Phase::Failures => {
                if matches_failure_header(t) {
                    Some(ScanState { failures: flushed(st), current: seq![t], ..st })
                } else if t.len() == 0 && st.current.len() > 0 {
                    Some(ScanState { failures: flushed(st), current: seq![], ..st })
                } else if t.len() > 0 && st.current.len() > 0 && !matches_deps_backtrace(t) {
                    Some(ScanState { current: st.current.push(line), ..st })
                } else {
                    Some(st)
                }
            },
            Phase::Summary => None,
        }
    }
}

/// The state after the lines `ls`, from `st` on.
pub open spec fn scan(st: ScanState, ls: Seq<Seq<char>>) -> ScanState
    decreases ls.len(),
{
    if ls.len() == 0 {
        st
    } else {
        match scan_step(st, ls[0]) {
            Some(next) => scan(next, ls.drop_first()),
            None => st,
        }
    }
}

/// The failure reports once the output has ended, the one being read
/// completed.
pub open spec fn final_failures(st: ScanState) -> Seq<Seq<char>> {
    flushed(st)
}

/// What the filter makes of the output of `mix test`, with `duration` the
/// run time as it is to be shown.
pub open spec fn filtered(output: Seq<char>, duration: Option<Seq<char>>) -> Seq<char> {
    let clean = ansi_stripped(output);
    if trim(clean).len() == 0 {
        "mix test: No output"@
    } else {
        let st = scan(initial_scan(), lines(clean));
        report(st.summary, final_failures(st), clean, duration)
    }
}

/// The scan state held in executable form.
pub struct Scanner {
    pub phase: Phase,
    pub failures: Vec<Vec<char>>,
    pub current: Vec<Vec<char>>,
    pub summary: Vec<char>,
}

impl View for Scanner {
    type V = ScanState;

    open spec fn view(&self) -> ScanState {
        ScanState {
            phase: self.phase,
            failures: views(self.failures@),
            current: views(self.current@),
            summary: self.summary@,
        }
    }
}

impl Scanner {
    /// The scanner before the first line.
    pub fn new() -> (s: Scanner)
        ensures
            s@ == initial_scan(),
    {
        let s = Scanner {
            phase: Phase::Header,
            failures: Vec::new(),
            current: Vec::new(),
            summary: Vec::new(),
        };
        assert(s@.failures =~= Seq::<Seq<char>>::empty());
        assert(s@.current =~= Seq::<Seq<char>>::empty());
        s
    }

    /// Completes the failure report being read, if any.
    fn flush(&mut self)
        ensures
            final(self)@ == (ScanState {
                failures: flushed(old(self)@),
                current: seq![],
                ..old(self)@
            }),
    {
        if self.current.len() > 0 {
            let block = join_chars(&self.current, "\n");
            let ghost before = views(self.failures@);
            self.failures.push(block);
            assert(views(self.failures@) =~= before.push(block@));
        }
        self.current = Vec::new();
        assert(views(self.current@) =~= Seq::<Seq<char>>::empty());
    }

    /// Starts a failure report with its header line.
    fn start_report(&mut self, header: Vec<char>)
        ensures
            final(self)@ == (ScanState {
                failures: flushed(old(self)@),
                current: seq![header@],
                ..old(self)@
            }),
    {
        self.flush();
        let ghost h = header@;
        self.current.push(header);
        assert(views(self.current@) =~= seq![h]);
    }

    /// Takes one line; `false` where the scan stops.
    pub fn step(&mut self, line: &Vec<char>) -> (go: bool)
        ensures
            go ==> scan_step(old(self)@, line@) == Some(final(self)@),
            !go ==> scan_step(old(self)@, line@) is None && final(self)@ == old(self)@,
    {
        let t = trim_chars(line);
        if is_seed_line_chars(&t) {
            return true;
        }
        if summary_captures_chars(&t).is_some() {
            self.flush();
            self.summary = t;
            self.phase = Phase::Summary;
            return true;
        }
        match self.phase {
            Phase::Header => {
                if is_finished_line_chars(&t) {
                    self.phase = Phase::Failures;
                } else if is_failure_header_chars(&t) {
                    self.phase = Phase::Failures;
                    self.start_report(t);
                }
                true
            },
            Phase::Failures => {
                if is_failure_header_chars(&t) {
                    self.start_report(t);
                } else if t.len() == 0 && self.current.len() > 0 {
                    self.flush();
                } else if t.len() > 0 && self.current.len() > 0 && !is_deps_backtrace_chars(&t) {
                    let l = copy_range(line, 0, line.len());
                    assert(l@ =~= line@);
                    let ghost before = views(self.current@);
                    self.current.push(l);
                    assert(views(self.current@) =~= before.push(line@));
                }
                true
            },
            Phase::Summary => false,
        }
    }

    /// The failure reports once the output has ended.
    pub fn finish(self) -> (failures: Vec<Vec<char>>)
        ensures
            views(failures@) == final_failures(self@),
    {
        let mut s = self;
        s.flush();
        s.failures
    }
}

/// The scan of the lines `ls`: the summary line and the failure reports.
pub fn scan_lines(ls: &Vec<Vec<char>>) -> (r: (Vec<char>, Vec<Vec<char>>))
    ensures
        r.0@ == scan(initial_scan(), views(ls@)).summary,
        views(r.1@) == final_failures(scan(initial_scan(), views(ls@))),
{
    let mut sc = Scanner::new();
    let mut i: usize = 0;
    assert(views(ls@).skip(0) =~= views(ls@));
    while i < ls.len()
        invariant
            i <= ls.len(),
            scan(initial_scan(), views(ls@)) == scan(sc@, views(ls@).skip(i as int)),
        ensures
            scan(initial_scan(), views(ls@)) == sc@,
        decreases ls.len() - i,
    {
        assert(views(ls@).skip(i as int)[0] == ls@[i as int]@);
        assert(views(ls@).skip(i as int).drop_first() =~= views(ls@).skip(i + 1));
        if !sc.step(&ls[i]) {
            break ;
        }
        i = i + 1;
        if i == ls.len() {
            assert(views(ls@).skip(i as int) =~= Seq::<Seq<char>>::empty());
        }
    }
    let summary = copy_range(&sc.summary, 0, sc.summary.len());
    assert(summary@ =~= sc.summary@);
    let failures = sc.finish();
    (summary, failures)
}

/// Filters the output of `mix test` down to its failures and a summary.
///
/// ANSI colour codes are removed first. Blank output gives
/// `mix test: No output`. The lines are then scanned for the summary line
/// and the failure reports, and `report` states what is shown of them.
/// `duration` is the run time as it is to be shown: the word that
/// `duration_word` finds in the output without its colour codes, written
/// as seconds with two decimals.
pub fn filter_mix_test_output(output: &str, duration: Option<String>) -> (r: String)
    ensures
        r@ == filtered(output@, opt_view(duration)),
{
    let raw = chars_of(output);
    let clean = strip_ansi_chars(&raw);
    if trim_chars(&clean).len() == 0 {
        return string_from_chars(&chars_of("mix test: No output"));
    }
    let ls = split_lines(&clean);
    let (summary, failures) = scan_lines(&ls);
    string_from_chars(&report_chars(&summary, &failures, &clean, &duration))
}

} // verus!
