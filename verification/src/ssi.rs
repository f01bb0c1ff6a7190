//! Server-side includes: a line of a `.shtml` page may hold a directive
//! `<!--#exec cmd="..." -->`, which is replaced by the output of the command.
use vstd::prelude::*;
use crate::http::{copy_range, matches_at};

verus! {

/// The bytes of `<!--#exec cmd="`.
pub open spec fn exec_directive() -> Seq<u8> {
    seq![60u8, 33u8, 45u8, 45u8, 35u8, 101u8, 120u8, 101u8, 99u8, 32u8, 99u8, 109u8, 100u8, 61u8, 34u8]
}

/// The byte of `"`, which ends the command.
pub const QUOTE: u8 = 34;

/// The byte of `>`, which ends the directive.
pub const GREATER: u8 = 62;

/// The first position at or after `from` where `pattern` occurs in `s`, or
/// the length of `s` when there is none.
pub open spec fn first_match_from(s: Seq<u8>, pattern: Seq<u8>, from: int) -> int
    decreases s.len() - from,
{
    if from < 0 {
        first_match_from(s, pattern, 0)
    } else if from >= s.len() || from + pattern.len() > s.len() {
        s.len() as int
    } else if s.subrange(from, from + pattern.len()) == pattern {
        from
    } else {
        first_match_from(s, pattern, from + 1)
    }
}

proof fn lemma_first_match_from_bounds(s: Seq<u8>, pattern: Seq<u8>, from: int)
    requires
        0 <= from <= s.len(),
    ensures
        from <= first_match_from(s, pattern, from) <= s.len(),
        first_match_from(s, pattern, from) < s.len() ==> first_match_from(s, pattern, from)
            + pattern.len() <= s.len(),
    decreases s.len() - from,
{
    if from < s.len() && from + pattern.len() <= s.len() && s.subrange(from, from + pattern.len())
        != pattern {
        lemma_first_match_from_bounds(s, pattern, from + 1);
    }
}

/// Law: `first_match_from` finds the first occurrence.  The position it
/// gives (from `from` on) holds `pattern` when it is before the end, and no
/// position from `from` up to it does.
pub proof fn law_first_match_is_first(s: Seq<u8>, pattern: Seq<u8>, from: int)
    requires
        0 <= from <= s.len(),
    ensures
        from <= first_match_from(s, pattern, from) <= s.len(),
        first_match_from(s, pattern, from) < s.len() ==> first_match_from(s, pattern, from)
            + pattern.len() <= s.len() && s.subrange(
            first_match_from(s, pattern, from),
            first_match_from(s, pattern, from) + pattern.len(),
        ) == pattern,
        forall|j: int|
            from <= j < first_match_from(s, pattern, from) && j + pattern.len() <= s.len()
                ==> #[trigger] s.subrange(j, j + pattern.len()) != pattern,
        first_match_from(s, pattern, from) == s.len() ==> forall|j: int|
            from <= j && j + pattern.len() <= s.len() && j < s.len() ==> #[trigger] s.subrange(
                j,
                j + pattern.len(),
            ) != pattern,
    decreases s.len() - from,
{
    if from < s.len() && from + pattern.len() <= s.len() && s.subrange(from, from + pattern.len())
        != pattern {
        law_first_match_is_first(s, pattern, from + 1);
        assert forall|j: int|
            from <= j < first_match_from(s, pattern, from) && j + pattern.len() <= s.len()
                implies #[trigger] s.subrange(j, j + pattern.len()) != pattern by {
            if j > from {
            }
        }
        assert forall|j: int|
            (first_match_from(s, pattern, from) == s.len() && from <= j && j + pattern.len()
                <= s.len() && j < s.len()) implies #[trigger] s.subrange(j, j + pattern.len())
            != pattern by {
            if j > from {
            }
        }
    }
}

/// The first position where `pattern` occurs in `s`, if it does.
pub fn find_pattern(s: &[u8], pattern: &[u8]) -> (r: Option<usize>)
    ensures
        match r {
            Some(i) => i == first_match_from(s@, pattern@, 0) && i < s@.len(),
            None => first_match_from(s@, pattern@, 0) == s@.len(),
        },
{
    let mut i: usize = 0;
    while i < s.len()
        invariant
            i <= s@.len(),
            first_match_from(s@, pattern@, 0) == first_match_from(s@, pattern@, i as int),
        decreases s@.len() - i,
    {
        if pattern.len() > s.len() - i {
            assert(first_match_from(s@, pattern@, i as int) == s@.len());
            return None;
        }
        if matches_at(s, i, pattern) {
            assert(first_match_from(s@, pattern@, i as int) == i);
            return Some(i);
        }
        i = i + 1;
    }
    assert(s@.subrange(i as int, i as int + pattern@.len()) =~= Seq::<u8>::empty()
        || i + pattern@.len() > s@.len());
    if pattern.len() == 0 {
        assert(s@.subrange(i as int, i as int) =~= pattern@);
    }
    None
}

/// A byte that continues a multi-byte character in UTF-8.
pub open spec fn is_continuation(b: u8) -> bool {
    128 <= b < 192
}

/// What scanning a line for the end of a directive finds.
pub enum Scan {
    /// The scan met the middle of a multi-byte character, where reading a
    /// character by its byte position fails.
    Fails,
    /// The last `"` and the position after the last `>` seen when the scan
    /// stopped: at the first point where both had been seen, or at the end
    /// of the line.
    Stops(Option<int>, Option<int>),
}

/// Scans `line` from position `i`, having seen the given `"` and `>`.
pub open spec fn scan_from(line: Seq<u8>, i: int, end_cmd: Option<int>, end: Option<int>) -> Scan
    decreases line.len() - i,
{
    if i >= line.len() || i < 0 {
        Scan::Stops(end_cmd, end)
    } else if is_continuation(line[i]) {
        Scan::Fails
    } else {
        let ec = if line[i] == QUOTE { Some(i) } else { end_cmd };
        let e = if line[i] != QUOTE && line[i] == GREATER { Some(i + 1) } else { end };
        if ec is Some && e is Some {
            Scan::Stops(ec, e)
        } else {
            scan_from(line, i + 1, ec, e)
        }
    }
}

/// The scan of `line` for the end of its first directive, if it has one.
pub open spec fn directive_scan(line: Seq<u8>) -> Option<Scan> {
    let start = first_match_from(line, exec_directive(), 0);
    if start < line.len() {
        Some(scan_from(line, start + exec_directive().len() + 1, None, None))
    } else {
        None
    }
}

/// A line can be handled: it has no directive, or the scan for the end of
/// its first directive does not fail.
pub open spec fn scannable(line: Seq<u8>) -> bool {
    !(directive_scan(line) matches Some(Scan::Fails))
}

/// What to do with a line of a page.
pub enum SsiLine {
    /// Send the line as it is.
    Text,
    /// Send `before`, then the output of `cmd`, then `after`.
    Exec { before: Vec<u8>, cmd: Vec<u8>, after: Vec<u8> },
}

/// What `parse_exec_line` gives, as byte sequences.
pub enum SsiSpec {
    Text,
    Exec(Seq<u8>, Seq<u8>, Seq<u8>),
}

/// The meaning of a line: a directive whose scan found a `"` before a `>`
/// is replaced; any other line is sent as it is.  The command lies between
/// the directive and the last `"` seen; the line resumes after the last `>`
/// seen.
pub open spec fn parse_exec_spec(line: Seq<u8>) -> SsiSpec {
    let start = first_match_from(line, exec_directive(), 0);
    let start_cmd = start + exec_directive().len();
    match directive_scan(line) {
        Some(Scan::Stops(Some(end_cmd), Some(end))) => if end_cmd < end {
            SsiSpec::Exec(
                line.subrange(0, start),
                line.subrange(start_cmd, end_cmd),
                line.subrange(end, line.len() as int),
            )
        } else {
            SsiSpec::Text
        },
        _ => SsiSpec::Text,
    }
}

/// What a scan from position `i` (at least `lo`) finds: a `"` at or after
/// `lo`, and a position just after a `>` at or after `lo`.
proof fn lemma_scan_finds(line: Seq<u8>, lo: int, i: int, end_cmd: Option<int>, end: Option<int>)
    requires
        0 <= lo <= i,
        end_cmd matches Some(x) ==> lo <= x < line.len() && line[x] == QUOTE,
        end matches Some(y) ==> lo + 1 <= y <= line.len() && line[y - 1] == GREATER,
    ensures
        scan_from(line, i, end_cmd, end) matches Scan::Stops(a, b) ==> (a matches Some(x) ==> lo
            <= x < line.len() && line[x] == QUOTE) && (b matches Some(y) ==> lo + 1 <= y
            <= line.len() && line[y - 1] == GREATER),
    decreases line.len() - i,
{
    if i < line.len() && !is_continuation(line[i]) {
        let ec = if line[i] == QUOTE { Some(i) } else { end_cmd };
        let e = if line[i] != QUOTE && line[i] == GREATER { Some(i + 1) } else { end };
        if !(ec is Some && e is Some) {
            lemma_scan_finds(line, lo, i + 1, ec, e);
        }
    }
}

/// Law: a directive is split where it stands.  When a line is run as
/// `before`, a command `cmd` and `after`, the line is `before`, the first
/// directive `<!--#exec cmd="` (no directive starts in `before`), `cmd`, a
/// `"`, some bytes ending with `>`, and `after`.
pub proof fn law_exec_line_split(line: Seq<u8>)
    ensures
        parse_exec_spec(line) matches SsiSpec::Exec(b, c, a) ==> ({
            let n: int = b.len() as int + exec_directive().len();
            &&& n + c.len() < line.len() - a.len()
            &&& line.subrange(0, b.len() as int) == b
            &&& line.subrange(b.len() as int, n) == exec_directive()
            &&& line.subrange(n, n + c.len() as int) == c
            &&& line[n + c.len() as int] == QUOTE
            &&& line[line.len() - a.len() - 1] == GREATER
            &&& line.subrange(line.len() - a.len(), line.len() as int) == a
            &&& forall|j: int|
                0 <= j < b.len() && j + exec_directive().len() <= line.len()
                    ==> #[trigger] line.subrange(j, j + exec_directive().len()) != exec_directive()
        }),
{
    law_first_match_is_first(line, exec_directive(), 0);
    let start = first_match_from(line, exec_directive(), 0);
    if start < line.len() {
        let p = start + exec_directive().len() + 1;
        lemma_scan_finds(line, p, p, None, None);
    }
}

pub open spec fn ssi_view(l: SsiLine) -> SsiSpec {
    match l {
        SsiLine::Text => SsiSpec::Text,
        SsiLine::Exec { before, cmd, after } => SsiSpec::Exec(before@, cmd@, after@),
    }
}

/// The byte pattern `<!--#exec cmd="`.
fn directive_bytes() -> (v: Vec<u8>)
    ensures
        v@ == exec_directive(),
{
    let v: Vec<u8> = vec![60u8, 33u8, 45u8, 45u8, 35u8, 101u8, 120u8, 101u8, 99u8, 32u8, 99u8, 109u8, 100u8, 61u8, 34u8];
    assert(v@ =~= exec_directive());
    v
}

/// Runs the scan of `line` from position `from`.
fn run_scan(line: &[u8], from: usize) -> (r: (bool, Option<usize>, Option<usize>))
    ensures
        r.0 ==> scan_from(line@, from as int, None, None) == Scan::Fails,
        !r.0 ==> scan_from(line@, from as int, None, None) == Scan::Stops(
            match r.1 {
                Some(x) => Some(x as int),
                None => None,
            },
            match r.2 {
                Some(x) => Some(x as int),
                None => None,
            },
        ),
        r.1 matches Some(x) ==> x < line@.len() && line@[x as int] == QUOTE && x >= from,
        r.2 matches Some(x) ==> x <= line@.len() && x >= 1,
{
    let mut end_cmd: Option<usize> = None;
    let mut end: Option<usize> = None;
    let mut i = from;
    while i < line.len()
        invariant
            from <= i,
            end_cmd matches Some(x) ==> x < line@.len() && line@[x as int] == QUOTE && x >= from,
            end matches Some(x) ==> x <= line@.len() && x >= 1,
            !(end_cmd is Some && end is Some),
            scan_from(line@, from as int, None, None) == scan_from(
                line@,
                i as int,
                match end_cmd {
                    Some(x) => Some(x as int),
                    None => None,
                },
                match end {
                    Some(x) => Some(x as int),
                    None => None,
                },
            ),
        decreases line@.len() - i,
    {
        let b = line[i];
        if 128 <= b && b < 192 {
            return (true, None, None);
        }
        if b == QUOTE {
            end_cmd = Some(i);
        } else if b == GREATER {
            end = Some(i + 1);
        }
        if end_cmd.is_some() && end.is_some() {
            return (false, end_cmd, end);
        }
        i = i + 1;
    }
    (false, end_cmd, end)
}

/// Whether `line` can be handled: the scan for the end of its first
/// directive, if any, never reads a character from the middle of one.
pub fn exec_line_scannable(line: &[u8]) -> (b: bool)
    ensures
        b == scannable(line@),
{
    let pattern = directive_bytes();
    match find_pattern(line, pattern.as_slice()) {
        None => true,
        Some(start) => {
            proof {
                lemma_first_match_from_bounds(line@, exec_directive(), 0);
                assert(exec_directive().len() == 15);
            }
            let n = line.len();
            assert(start + 15 <= n);
            let start_cmd = start + 15;
            if start_cmd >= line.len() {
                return true;
            }
            let (fails, _, _) = run_scan(line, start_cmd + 1);
            !fails
        },
    }
}

/// Splits a line of a page at its first directive, if the directive is
/// complete: the text before it, the command, and the text after it.
pub fn parse_exec_line(line: &[u8]) -> (r: SsiLine)
    requires
        scannable(line@),
    ensures
        ssi_view(r) == parse_exec_spec(line@),
{
    let pattern = directive_bytes();
    match find_pattern(line, pattern.as_slice()) {
        None => SsiLine::Text,
        Some(start) => {
            proof {
                lemma_first_match_from_bounds(line@, exec_directive(), 0);
                assert(exec_directive().len() == 15);
            }
            let n = line.len();
            assert(start + 15 <= n);
            let start_cmd = start + 15;
            if start_cmd >= line.len() {
                return SsiLine::Text;
            }
            let (fails, end_cmd, end) = run_scan(line, start_cmd + 1);
            if fails {
                return SsiLine::Text;
            }
            match (end_cmd, end) {
                (Some(ec), Some(e)) => {
                    if ec < e {
                        let before = copy_range(line, 0, start);
                        let cmd = copy_range(line, start_cmd, ec);
                        let after = copy_range(line, e, line.len());
                        SsiLine::Exec { before, cmd, after }
                    } else {
                        SsiLine::Text
                    }
                },
                _ => SsiLine::Text,
            }
        },
    }
}

/// The output a directive is replaced by: what the command printed when it
/// exited with status 0, else what it printed as errors; nothing when no
/// command ran.
pub fn exec_output(result: Option<(i32, Vec<u8>, Vec<u8>)>) -> (r: Vec<u8>)
    ensures
        r@ == (match result {
            Some((status, output, error)) => if status == 0 {
                output@
            } else {
                error@
            },
            None => Seq::<u8>::empty(),
        }),
{
    match result {
        Some((status, output, error)) => if status == 0 {
            output
        } else {
            error
        },
        None => Vec::new(),
    }
}

} // verus!
