//! Download and compaction policy: the mirror-fallback fetch state
//! machine, the status-resource grammar that yields the mirror list, the
//! timestamp-derived durable path for downloaded payloads, and the
//! decision rule of the archival compactor.

use vstd::prelude::*;

use crate::importer::{archive_stem, name_views};
use crate::timefmt::{digits_val, parse_date8, parse_timestamp14, valid_date8, valid_timestamp14};

verus! {

/// How many trials a fetch may spend before giving up.
pub const MAX_TRIALS: usize = 3;

/// Seconds to wait between failed trials.
pub const TRIAL_DELAY_SECS: u64 = 5;

/// Seconds allowed for one network trial.
pub const FETCH_TIMEOUT_SECS: u64 = 20;

/// What the fetch policy asks for next.
#[derive(Debug, PartialEq, Eq)]
pub enum FetchAction {
    /// Try the mirror at this position of the mirror list.
    Request { mirror: usize },
    /// The mirror list is empty: no source is available, zero trials.
    NoSource,
    /// The trial budget is spent.
    GiveUp,
}

/// The fetch policy: with no mirrors there is nothing to try; otherwise
/// each failure so far buys one more trial up to the budget, drawn
/// round-robin from the mirror list.
pub open spec fn spec_fetch_action(mirror_count: nat, failures: nat) -> FetchAction {
    if mirror_count == 0 {
        FetchAction::NoSource
    } else if failures >= MAX_TRIALS as nat {
        FetchAction::GiveUp
    } else {
        FetchAction::Request { mirror: (failures % mirror_count) as usize }
    }
}

/// Decide the next step of a fetch, given how many trials have failed.
pub fn fetch_action(mirror_count: usize, failures: usize) -> (r: FetchAction)
    ensures
        r == spec_fetch_action(mirror_count as nat, failures as nat),
{
    if mirror_count == 0 {
        FetchAction::NoSource
    } else if failures >= MAX_TRIALS {
        FetchAction::GiveUp
    } else {
        FetchAction::Request { mirror: failures % mirror_count }
    }
}

/// The mirror the next trial goes to: round-robin over the list.
pub fn mirror_for_trial<'a>(mirrors: &'a Vec<String>, failures: usize) -> (r: &'a String)
    requires
        mirrors@.len() > 0,
    ensures
        r == mirrors@[(failures as int) % (mirrors@.len() as int)],
{
    &mirrors[failures % mirrors.len()]
}

/// The definitive outcome of one trial.
#[derive(Debug, PartialEq, Eq)]
pub enum TrialOutcome {
    /// The payload was durably written.  This concludes the fetch even if
    /// the payload later fails to parse: written bytes are never lost.
    Saved,
    /// The download itself failed.
    DownloadFailed,
    /// The payload arrived but could not be written durably.
    SaveFailed,
}

/// Whether the fetch goes on after a trial.
#[derive(Debug, PartialEq, Eq)]
pub enum FetchProgress {
    /// A payload is durably on disk; no further mirror is tried.
    Concluded,
    /// Try again, with one more failure on the books.
    Continue { failures: usize },
}

/// Account for one trial: a durable write concludes the fetch, anything
/// else costs one unit of the trial budget.
pub fn fetch_step(failures: usize, outcome: &TrialOutcome) -> (r: FetchProgress)
    requires
        failures < MAX_TRIALS,
    ensures
        outcome is Saved ==> r is Concluded,
        !(outcome is Saved) ==> (r matches FetchProgress::Continue { failures: f } && f == failures
            + 1),
{
    match outcome {
        TrialOutcome::Saved => FetchProgress::Concluded,
        TrialOutcome::DownloadFailed => FetchProgress::Continue { failures: failures + 1 },
        TrialOutcome::SaveFailed => FetchProgress::Continue { failures: failures + 1 },
    }
}

/// The fetch policy's trial budget.  With an empty mirror list the fetcher
/// reports "no source available" before any trial.  With at least one
/// mirror, each of the first three failures is answered with exactly one
/// more trial, drawn round-robin — a single-mirror list is retried against
/// the same mirror — and the third failure exhausts the budget.
pub proof fn lemma_fetch_trial_budget(mirror_count: nat)
    ensures
        spec_fetch_action(0, 0) is NoSource,
        mirror_count > 0 ==> forall|f: nat|
            f < MAX_TRIALS as nat ==> ((#[trigger] spec_fetch_action(mirror_count, f))
                matches FetchAction::Request { mirror } && mirror as nat == f % mirror_count),
        mirror_count > 0 ==> spec_fetch_action(mirror_count, MAX_TRIALS as nat) is GiveUp,
        forall|f: nat|
            f < MAX_TRIALS as nat ==> (#[trigger] spec_fetch_action(1, f)) == (
            FetchAction::Request { mirror: 0 }),
{
    if mirror_count > 0 {
        assert forall|f: nat| f < MAX_TRIALS as nat implies ((#[trigger] spec_fetch_action(
            mirror_count,
            f,
        )) matches FetchAction::Request { mirror } && mirror as nat == f % mirror_count) by {
            assert(f % mirror_count < mirror_count && (f < mirror_count ==> f % mirror_count == f))
                by (nonlinear_arith)
                requires
                    mirror_count > 0,
                    f >= 0,
            ;
        }
    }
    assert forall|f: nat| f < MAX_TRIALS as nat implies (#[trigger] spec_fetch_action(1, f)) == (
    FetchAction::Request { mirror: 0 }) by {
        assert(f % 1 == 0);
    }
}

/// `c` is one of the blank characters trimmed off a status line.
pub open spec fn is_space(c: char) -> bool {
    c == ' ' || c == '\t' || c == '\r' || c == '\n'
}

/// `s` with its leading blanks removed.
pub open spec fn trim_start_spec(s: Seq<char>) -> Seq<char>
    decreases s.len(),
{
    if s.len() > 0 && is_space(s[0]) {
        trim_start_spec(s.skip(1))
    } else {
        s
    }
}

/// `s` with its trailing blanks removed.
pub open spec fn trim_end_spec(s: Seq<char>) -> Seq<char>
    decreases s.len(),
{
    if s.len() > 0 && is_space(s.last()) {
        trim_end_spec(s.drop_last())
    } else {
        s
    }
}

/// `s` with blanks removed from both ends.
pub open spec fn trim_spec(s: Seq<char>) -> Seq<char> {
    trim_start_spec(trim_end_spec(s))
}

/// A string whose first blanks end at `b` trims from the start to its tail
/// at `b`.
proof fn lemma_trim_start_at(s: Seq<char>, b: int)
    requires
        0 <= b <= s.len(),
        forall|j: int| 0 <= j < b ==> is_space(#[trigger] s[j]),
        b < s.len() ==> !is_space(s[b]),
    ensures
        trim_start_spec(s) == s.skip(b),
    decreases b,
{
    if b == 0 {
        assert(s.skip(0) =~= s);
    } else {
        let t = s.skip(1);
        assert forall|j: int| 0 <= j < b - 1 implies is_space(#[trigger] t[j]) by {
            assert(t[j] == s[j + 1]);
        }
        assert(b - 1 < t.len() ==> !is_space(t[b - 1]));
        lemma_trim_start_at(t, b - 1);
        assert(t.skip(b - 1) =~= s.skip(b));
    }
}

/// `c` is a blank, executable form.
fn is_space_x(c: char) -> (r: bool)
    ensures
        r == is_space(c),
{
    c == ' ' || c == '\t' || c == '\r' || c == '\n'
}

/// Remove blanks from both ends of `s`.
pub fn trim<'a>(s: &'a str) -> (r: &'a str)
    ensures
        r@ == trim_spec(s@),
{
    let n = s.unicode_len();
    let mut e: usize = n;
    proof {
        assert(s@.take(n as int) =~= s@);
    }
    while e > 0 && is_space_x(s.get_char(e - 1))
        invariant
            e <= n,
            n == s@.len(),
            trim_end_spec(s@) == trim_end_spec(s@.take(e as int)),
        decreases e,
    {
        proof {
            assert(s@.take(e as int).last() == s@[e - 1]);
            assert(s@.take(e as int).drop_last() =~= s@.take(e - 1));
        }
        e -= 1;
    }
    let ghost t = s@.take(e as int);
    proof {
        if e > 0 {
            assert(t.last() == s@[e - 1]);
        }
        assert(trim_end_spec(s@) == t);
    }
    let mut b: usize = 0;
    while b < e && is_space_x(s.get_char(b))
        invariant
            b <= e <= n,
            n == s@.len(),
            t == s@.take(e as int),
            forall|j: int| 0 <= j < b ==> is_space(#[trigger] t[j]),
        decreases e - b,
    {
        proof {
            assert(t[b as int] == s@[b as int]);
        }
        b += 1;
    }
    proof {
        if b < e {
            assert(t[b as int] == s@[b as int]);
            assert(!is_space(t[b as int]));
        }
        lemma_trim_start_at(t, b as int);
        assert(t.skip(b as int) =~= s@.subrange(b as int, e as int));
    }
    s.substring_char(b, e)
}

/// Whether `s` starts with `prefix`, character by character.
fn starts_with(s: &str, prefix: &str) -> (r: bool)
    ensures
        r == (s@.len() >= prefix@.len() && s@.take(prefix@.len() as int) == prefix@),
{
    let n = s.unicode_len();
    let m = prefix.unicode_len();
    if n < m {
        return false;
    }
    let mut i: usize = 0;
    while i < m
        invariant
            m <= n,
            n == s@.len(),
            m == prefix@.len(),
            i <= m,
            forall|j: int| 0 <= j < i ==> s@[j] == prefix@[j],
        decreases m - i,
    {
        if s.get_char(i) != prefix.get_char(i) {
            proof {
                if s@.take(m as int) == prefix@ {
                    assert(s@.take(m as int)[i as int] == s@[i as int]);
                }
            }
            return false;
        }
        i += 1;
    }
    proof {
        assert(s@.take(m as int) =~= prefix@);
    }
    true
}

/// The position of the first line feed in `s`, or its length if none.
pub open spec fn first_nl(s: Seq<char>) -> int
    decreases s.len(),
{
    if s.len() == 0 {
        0
    } else if s[0] == '\n' {
        0
    } else {
        1 + first_nl(s.skip(1))
    }
}

/// A line terminated by a line feed drops one carriage return directly
/// before it.
pub open spec fn strip_cr(line: Seq<char>) -> Seq<char> {
    if line.len() > 0 && line.last() == '\r' {
        line.drop_last()
    } else {
        line
    }
}

/// The first line feed lies inside the text or just past its end.
pub proof fn lemma_first_nl_bounds(s: Seq<char>)
    ensures
        0 <= first_nl(s) <= s.len(),
    decreases s.len(),
{
    if s.len() > 0 && s[0] != '\n' {
        lemma_first_nl_bounds(s.skip(1));
    }
}

/// The lines of a text: split at line feeds, each split-off line stripped
/// of one trailing carriage return, the final line ending optional, and an
/// unterminated final line kept whole.
pub open spec fn spec_lines(s: Seq<char>) -> Seq<Seq<char>>
    decreases s.len(),
    via spec_lines_decreases
{
    if s.len() == 0 {
        Seq::empty()
    } else {
        let i = first_nl(s);
        if i == s.len() {
            seq![s]
        } else {
            seq![strip_cr(s.take(i))] + spec_lines(s.skip(i + 1))
        }
    }
}

#[via_fn]
proof fn spec_lines_decreases(s: Seq<char>) {
    lemma_first_nl_bounds(s);
}

/// The first line feed is where the first line feed is: at the first
/// position holding one, or at the end when none does.
proof fn lemma_first_nl_at(s: Seq<char>, i: int)
    requires
        0 <= i <= s.len(),
        forall|j: int| 0 <= j < i ==> s[j] != '\n',
        i < s.len() ==> s[i] == '\n',
    ensures
        first_nl(s) == i,
    decreases i,
{
    if i == 0 {
    } else {
        let t = s.skip(1);
        assert forall|j: int| 0 <= j < i - 1 implies t[j] != '\n' by {
            assert(t[j] == s[j + 1]);
        }
        assert(i - 1 < t.len() ==> t[i - 1] == '\n');
        lemma_first_nl_at(t, i - 1);
    }
}

/// Split a text into its lines.
pub fn split_lines(s: &str) -> (r: Vec<String>)
    ensures
        name_views(r@) == spec_lines(s@),
{
    let n = s.unicode_len();
    let mut out: Vec<String> = Vec::new();
    let mut start: usize = 0;
    let mut i: usize = 0;
    proof {
        assert(name_views(out@) =~= Seq::<Seq<char>>::empty());
        assert(s@.skip(0) =~= s@);
    }
    while i < n
        invariant
            start <= i <= n,
            n == s@.len(),
            spec_lines(s@) == name_views(out@) + spec_lines(s@.skip(start as int)),
            forall|j: int| start <= j < i ==> s@[j] != '\n',
        decreases n - i,
    {
        if s.get_char(i) == '\n' {
            let end = if i > start && s.get_char(i - 1) == '\r' {
                i - 1
            } else {
                i
            };
            let ghost out0 = out@;
            let line = s.substring_char(start, end);
            out.push(line.to_owned());
            proof {
                let u = s@.skip(start as int);
                assert forall|j: int| 0 <= j < i - start implies u[j] != '\n' by {
                    assert(u[j] == s@[start + j]);
                }
                assert(u[i - start] == s@[i as int]);
                lemma_first_nl_at(u, i - start);
                assert(u.take(i - start) =~= s@.subrange(start as int, i as int));
                assert(strip_cr(u.take(i - start)) =~= s@.subrange(start as int, end as int));
                assert(u.skip(i - start + 1) =~= s@.skip(i + 1));
                assert(out@.drop_last() =~= out0);
                assert(name_views(out@) =~= name_views(out0).push(s@.subrange(
                    start as int,
                    end as int,
                )));
                assert(name_views(out@) + spec_lines(s@.skip(i + 1)) =~= name_views(out0) + (seq![
                    strip_cr(u.take(i - start)),
                ] + spec_lines(u.skip(i - start + 1))));
            }
            start = i + 1;
        }
        i += 1;
    }
    if start < n {
        let ghost out0 = out@;
        let line = s.substring_char(start, n);
        out.push(line.to_owned());
        proof {
            let u = s@.skip(start as int);
            assert forall|j: int| 0 <= j < u.len() implies u[j] != '\n' by {
                assert(u[j] == s@[start + j]);
            }
            lemma_first_nl_at(u, u.len() as int);
            assert(u =~= s@.subrange(start as int, n as int));
            assert(out@.drop_last() =~= out0);
            assert(name_views(out@) =~= name_views(out0).push(u));
            assert(name_views(out0) + spec_lines(u) =~= name_views(out@));
        }
    } else {
        proof {
            assert(s@.skip(start as int) =~= Seq::<char>::empty());
            assert(name_views(out@) + spec_lines(s@.skip(start as int)) =~= name_views(out@));
        }
    }
    out
}

/// The mirror URL a status line offers, if any: a line of the form
/// `json3=<url>` offers the remainder, trimmed of blanks.
pub open spec fn status_url_of(line: Seq<char>) -> Option<Seq<char>> {
    if line.len() >= 6 && line.take(6) == "json3="@ {
        Some(trim_spec(line.skip(6)))
    } else {
        None
    }
}

/// Extract the mirror URL of one status line, if the line offers one.
pub fn parse_status_line<'a>(line: &'a str) -> (r: Option<&'a str>)
    ensures
        r matches Some(u) ==> status_url_of(line@) == Some(u@),
        r is None ==> status_url_of(line@) is None,
{
    proof {
        reveal_strlit("json3=");
    }
    if starts_with(line, "json3=") {
        let n = line.unicode_len();
        let rest = line.substring_char(6, n);
        proof {
            assert(line@.subrange(6, n as int) =~= line@.skip(6));
        }
        Some(trim(rest))
    } else {
        None
    }
}

/// The mirror URLs of a whole status resource, in line order.
pub open spec fn status_urls(lines: Seq<Seq<char>>) -> Seq<Seq<char>>
    decreases lines.len(),
{
    if lines.len() == 0 {
        Seq::empty()
    } else {
        let rest = status_urls(lines.drop_last());
        match status_url_of(lines.last()) {
            Some(u) => rest.push(u),
            None => rest,
        }
    }
}

/// Collect the mirror URLs offered by the status resource's lines.
pub fn mirror_urls(lines: &Vec<String>) -> (r: Vec<String>)
    ensures
        name_views(r@) == status_urls(name_views(lines@)),
{
    let ghost vs = name_views(lines@);
    let n = lines.len();
    let mut r: Vec<String> = Vec::new();
    proof {
        assert(vs.take(0) =~= Seq::<Seq<char>>::empty());
        assert(name_views(r@) =~= Seq::<Seq<char>>::empty());
    }
    let mut i: usize = 0;
    while i < n
        invariant
            n == lines@.len(),
            i <= n,
            vs == name_views(lines@),
            name_views(r@) == status_urls(vs.take(i as int)),
        decreases n - i,
    {
        proof {
            assert(vs.take(i + 1).drop_last() =~= vs.take(i as int));
            assert(vs.take(i + 1).last() == vs[i as int]);
            assert(vs[i as int] == lines@[i as int]@);
        }
        match parse_status_line(&lines[i]) {
            Some(u) => {
                let ghost r0 = r@;
                let owned = u.to_owned();
                r.push(owned);
                proof {
                    assert(r@.drop_last() =~= r0);
                    assert(name_views(r@) =~= name_views(r0).push(
                        status_url_of(vs[i as int]).unwrap(),
                    ));
                }
            },
            None => {
            },
        }
        i += 1;
    }
    proof {
        assert(vs.take(n as int) =~= vs);
    }
    r
}

/// The mirror URLs a whole status resource offers: its lines, each read
/// under the status grammar.
pub fn status_mirrors(text: &str) -> (r: Vec<String>)
    ensures
        name_views(r@) == status_urls(spec_lines(text@)),
{
    let lines = split_lines(text);
    mirror_urls(&lines)
}

/// The durable path a payload with embedded timestamp `ts` is written to:
/// a day directory, an hour directory, and the full timestamp as the file
/// name.
pub open spec fn path_of_timestamp(ts: Seq<char>) -> Seq<char> {
    "data/download/"@ + ts.take(8) + "/"@ + ts.subrange(8, 10) + "/"@ + ts + ".json"@
}

/// Whether an embedded timestamp is a real fourteen-digit timestamp.
pub fn validate_timestamp(ts: &str) -> (r: bool)
    ensures
        r == valid_timestamp14(ts@),
{
    match parse_timestamp14(ts) {
        Some(_) => true,
        None => false,
    }
}

/// Derive the durable path for a validated embedded timestamp.
pub fn timestamp_to_path(ts: &str) -> (r: String)
    requires
        valid_timestamp14(ts@),
    ensures
        r@ == path_of_timestamp(ts@),
{
    let mut r = String::from_str("data/download/");
    r.append(ts.substring_char(0, 8));
    r.append("/");
    r.append(ts.substring_char(8, 10));
    r.append("/");
    r.append(ts);
    r.append(".json");
    proof {
        assert(ts@.subrange(0, 8) =~= ts@.take(8));
        assert(r@ =~= path_of_timestamp(ts@));
    }
    r
}

/// The durable path for a downloaded payload, if its embedded timestamp
/// validates; `None` exactly when it does not.
pub fn snapshot_path(ts: &str) -> (r: Option<String>)
    ensures
        r matches Some(p) ==> valid_timestamp14(ts@) && p@ == path_of_timestamp(ts@),
        r is None <==> !valid_timestamp14(ts@),
{
    if validate_timestamp(ts) {
        Some(timestamp_to_path(ts))
    } else {
        None
    }
}

/// What the compactor does with one day directory.
#[derive(Debug, PartialEq, Eq)]
pub enum CompactAction {
    /// The day is still accumulating (today or later): leave it alone.
    Skip,
    /// Bundle the day into an archive, then remove the originals.
    Compact,
}

/// Why the compactor refuses a day directory.
#[derive(Debug, PartialEq, Eq)]
pub enum CompactError {
    /// The directory name is not a real eight-digit date.
    BadName,
    /// An archive of the same name already exists; compacting would risk
    /// silent data loss, so the run aborts.
    ArchiveExists,
}

/// Decide one day directory's fate.  Only a day strictly earlier than
/// today is compacted, and never over an existing archive.
pub fn compact_decision(day_name: &str, today: u64, archive_exists: bool) -> (r: Result<
    CompactAction,
    CompactError,
>)
    ensures
        !valid_date8(day_name@) ==> (r matches Err(e) && e is BadName),
        valid_date8(day_name@) && digits_val(day_name@) >= today ==> (r matches Ok(a)
            && a is Skip),
        valid_date8(day_name@) && digits_val(day_name@) < today && archive_exists ==> (r matches Err(
            e,
        ) && e is ArchiveExists),
        valid_date8(day_name@) && digits_val(day_name@) < today && !archive_exists ==> (r matches Ok(
            a,
        ) && a is Compact),
{
    match parse_date8(day_name) {
        None => Err(CompactError::BadName),
        Some(d) => {
            if d >= today {
                Ok(CompactAction::Skip)
            } else if archive_exists {
                Err(CompactError::ArchiveExists)
            } else {
                Ok(CompactAction::Compact)
            }
        },
    }
}

/// The archive file name a day directory is bundled into.
pub fn archive_name(day_name: &str) -> (r: String)
    ensures
        r@ == day_name@ + ".tar.xz"@,
{
    let mut r = day_name.to_owned();
    r.append(".tar.xz");
    r
}

/// What the compactor writes, the importer reads back as the same day:
/// an archive name round-trips to the day directory it bundles.
pub proof fn lemma_archive_name_roundtrip(day: Seq<char>)
    ensures
        archive_stem(day + ".tar.xz"@) == day,
{
    reveal_strlit(".tar.xz");
    let s = day + ".tar.xz"@;
    assert(s.skip(s.len() - 7) =~= ".tar.xz"@);
    assert(s.take(s.len() - 7) =~= day);
}

} // verus!
