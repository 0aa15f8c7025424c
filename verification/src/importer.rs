//! The incremental import planner.  Historical archives are named by day
//! (`YYYYMMDD.tar.xz`), individual snapshot files by timestamp
//! (`YYYYMMDDHHMMSS.json`).  Given a directory listing in name-sorted order
//! and the ledger's cutoff, the planner selects exactly the sources that
//! still need applying — and aborts on the first malformed name, since the
//! names are the only chronological metadata there is.

use vstd::prelude::*;

use crate::timefmt::{
    digits_val, lemma_digits_val_bound, lemma_timestamp_day, parse_date8, parse_timestamp14,
    pow10, valid_date8, valid_timestamp14,
};

verus! {

/// Why an import run was aborted during planning.
#[derive(Debug, PartialEq, Eq)]
pub enum ImportError {
    /// The name at this position does not parse under the strict grammar.
    BadName { index: usize },
}

/// The mathematical values of a list of names.
pub open spec fn name_views(s: Seq<String>) -> Seq<Seq<char>> {
    s.map_values(|n: String| n@)
}

/// An archive name with its `.tar.xz` suffix removed; a name without the
/// suffix stands as it is.
pub open spec fn archive_stem(s: Seq<char>) -> Seq<char> {
    if s.len() >= 7 && s.skip(s.len() - 7) == ".tar.xz"@ {
        s.take(s.len() - 7)
    } else {
        s
    }
}

/// A snapshot file name with its `.json` suffix removed; a name without
/// the suffix stands as it is.
pub open spec fn snapshot_stem(s: Seq<char>) -> Seq<char> {
    if s.len() >= 5 && s.skip(s.len() - 5) == ".json"@ {
        s.take(s.len() - 5)
    } else {
        s
    }
}

/// Whether `s` ends with `suffix`, character by character.
fn ends_with(s: &str, suffix: &str) -> (r: bool)
    ensures
        r == (s@.len() >= suffix@.len() && s@.skip(s@.len() - suffix@.len()) == suffix@),
{
    let n = s.unicode_len();
    let m = suffix.unicode_len();
    if n < m {
        return false;
    }
    let mut i: usize = 0;
    while i < m
        invariant
            m <= n,
            n == s@.len(),
            m == suffix@.len(),
            i <= m,
            forall|j: int| 0 <= j < i ==> s@[n - m + j] == suffix@[j],
        decreases m - i,
    {
        if s.get_char(n - m + i) != suffix.get_char(i) {
            proof {
                if s@.skip(n - m) == suffix@ {
                    assert(s@.skip(n - m)[i as int] == s@[n - m + i]);
                }
            }
            return false;
        }
        i += 1;
    }
    proof {
        assert(s@.skip(n - m) =~= suffix@);
    }
    true
}

/// The stem of an archive name: the name with one `.tar.xz` suffix
/// removed, if it carries one.
pub fn archive_stem_of<'a>(s: &'a str) -> (r: &'a str)
    ensures
        r@ == archive_stem(s@),
{
    proof {
        reveal_strlit(".tar.xz");
    }
    if ends_with(s, ".tar.xz") {
        let n = s.unicode_len();
        s.substring_char(0, n - 7)
    } else {
        s
    }
}

/// The stem of a snapshot file name: the name with one `.json` suffix
/// removed, if it carries one.
pub fn snapshot_stem_of<'a>(s: &'a str) -> (r: &'a str)
    ensures
        r@ == snapshot_stem(s@),
{
    proof {
        reveal_strlit(".json");
    }
    if ends_with(s, ".json") {
        let n = s.unicode_len();
        s.substring_char(0, n - 5)
    } else {
        s
    }
}

/// Parse an archive name as the day it covers.  `None` exactly when the
/// stem is not a real eight-digit date.
pub fn parse_archive_name(name: &str) -> (r: Option<u64>)
    ensures
        r matches Some(v) ==> valid_date8(archive_stem(name@)) && v == digits_val(
            archive_stem(name@),
        ),
        r is None ==> !valid_date8(archive_stem(name@)),
{
    parse_date8(archive_stem_of(name))
}

/// Parse a snapshot file name as its timestamp.  `None` exactly when the
/// stem is not a real fourteen-digit timestamp.
pub fn parse_snapshot_name(name: &str) -> (r: Option<u64>)
    ensures
        r matches Some(v) ==> valid_timestamp14(snapshot_stem(name@)) && v == digits_val(
            snapshot_stem(name@),
        ),
        r is None ==> !valid_timestamp14(snapshot_stem(name@)),
{
    parse_timestamp14(snapshot_stem_of(name))
}

/// The archive still matters: its day, placed at midnight, lies after the
/// cutoff.  (Equivalently: its day is later than the cutoff's day.)
pub open spec fn archive_qualifies(name: Seq<char>, cutoff: u64) -> bool {
    digits_val(archive_stem(name)) * 1000000 > cutoff
}

/// The snapshot file is strictly newer than the cutoff.
pub open spec fn snapshot_qualifies(name: Seq<char>, cutoff: u64) -> bool {
    digits_val(snapshot_stem(name)) > cutoff
}

/// Every archive name in the listing parses.
pub open spec fn archive_names_valid(names: Seq<Seq<char>>) -> bool {
    forall|i: int| 0 <= i < names.len() ==> valid_date8(archive_stem(#[trigger] names[i]))
}

/// Every snapshot file name in the listing parses.
pub open spec fn snapshot_names_valid(names: Seq<Seq<char>>) -> bool {
    forall|i: int| 0 <= i < names.len() ==> valid_timestamp14(snapshot_stem(#[trigger] names[i]))
}

/// The qualifying archives, in listing order.
pub open spec fn archive_plan(names: Seq<Seq<char>>, cutoff: u64) -> Seq<Seq<char>>
    decreases names.len(),
{
    if names.len() == 0 {
        Seq::empty()
    } else {
        let rest = archive_plan(names.drop_last(), cutoff);
        if archive_qualifies(names.last(), cutoff) {
            rest.push(names.last())
        } else {
            rest
        }
    }
}

/// The qualifying snapshot files, in listing order.
pub open spec fn snapshot_plan(names: Seq<Seq<char>>, cutoff: u64) -> Seq<Seq<char>>
    decreases names.len(),
{
    if names.len() == 0 {
        Seq::empty()
    } else {
        let rest = snapshot_plan(names.drop_last(), cutoff);
        if snapshot_qualifies(names.last(), cutoff) {
            rest.push(names.last())
        } else {
            rest
        }
    }
}

/// Select the archives an import run must still extract, in listing
/// order: exactly those whose whole day lies after the cutoff.  Aborts at
/// the first name whose stem is not a real date.
pub fn plan_archives(names: &Vec<String>, cutoff: u64) -> (r: Result<Vec<String>, ImportError>)
    ensures
        r is Ok <==> archive_names_valid(name_views(names@)),
        r matches Ok(keep) ==> name_views(keep@) == archive_plan(name_views(names@), cutoff),
        r matches Err(e) ==> e matches ImportError::BadName { index } && (index as int)
            < names@.len() && !valid_date8(archive_stem(names@[index as int]@)) && (forall|j: int|
            0 <= j < index ==> valid_date8(archive_stem(#[trigger] names@[j]@))),
{
    let ghost vs = name_views(names@);
    let n = names.len();
    let mut keep: Vec<String> = Vec::new();
    proof {
        assert(vs.take(0) =~= Seq::<Seq<char>>::empty());
        assert(name_views(keep@) =~= Seq::<Seq<char>>::empty());
    }
    let mut i: usize = 0;
    while i < n
        invariant
            n == names@.len(),
            i <= n,
            vs == name_views(names@),
            forall|j: int| 0 <= j < i ==> valid_date8(archive_stem(#[trigger] names@[j]@)),
            name_views(keep@) == archive_plan(vs.take(i as int), cutoff),
        decreases n - i,
    {
        proof {
            assert(vs.take(i + 1).drop_last() =~= vs.take(i as int));
            assert(vs.take(i + 1).last() == vs[i as int]);
            assert(vs[i as int] == names@[i as int]@);
        }
        match parse_archive_name(&names[i]) {
            None => {
                return Err(ImportError::BadName { index: i });
            },
            Some(day) => {
                proof {
                    day_start_fits(archive_stem(vs[i as int]));
                }
                if day * 1000000 > cutoff {
                    let ghost keep0 = keep@;
                    keep.push(names[i].clone());
                    proof {
                        assert(keep@.drop_last() =~= keep0);
                        assert(name_views(keep@) =~= name_views(keep0).push(vs[i as int]));
                    }
                } else {
                }
            },
        }
        i += 1;
    }
    proof {
        assert(vs.take(n as int) =~= vs);
    }
    Ok(keep)
}

/// A valid day number placed at midnight stays far below the integer
/// limit: eight digits and six zeroes make at most fourteen digits.
proof fn day_start_fits(stem: Seq<char>)
    requires
        valid_date8(stem),
    ensures
        0 <= digits_val(stem) * 1000000 < 100000000000000,
{
    lemma_digits_val_bound(stem);
    assert(pow10(8) == 100000000) by {
        reveal_with_fuel(pow10, 9);
    }
    assert(digits_val(stem) * 1000000 < 100000000000000) by (nonlinear_arith)
        requires
            0 <= digits_val(stem) < 100000000,
    ;
}

/// Select the snapshot files an import run must still apply, in listing
/// order: exactly those strictly newer than the cutoff.  Aborts at the
/// first name whose stem is not a real timestamp.
pub fn plan_snapshots(names: &Vec<String>, cutoff: u64) -> (r: Result<Vec<String>, ImportError>)
    ensures
        r is Ok <==> snapshot_names_valid(name_views(names@)),
        r matches Ok(keep) ==> name_views(keep@) == snapshot_plan(name_views(names@), cutoff),
        r matches Err(e) ==> e matches ImportError::BadName { index } && (index as int)
            < names@.len() && !valid_timestamp14(snapshot_stem(names@[index as int]@)) && (forall|
            j: int,
        | 0 <= j < index ==> valid_timestamp14(snapshot_stem(#[trigger] names@[j]@))),
{
    let ghost vs = name_views(names@);
    let n = names.len();
    let mut keep: Vec<String> = Vec::new();
    proof {
        assert(vs.take(0) =~= Seq::<Seq<char>>::empty());
        assert(name_views(keep@) =~= Seq::<Seq<char>>::empty());
    }
    let mut i: usize = 0;
    while i < n
        invariant
            n == names@.len(),
            i <= n,
            vs == name_views(names@),
            forall|j: int| 0 <= j < i ==> valid_timestamp14(snapshot_stem(#[trigger] names@[j]@)),
            name_views(keep@) == snapshot_plan(vs.take(i as int), cutoff),
        decreases n - i,
    {
        proof {
            assert(vs.take(i + 1).drop_last() =~= vs.take(i as int));
            assert(vs.take(i + 1).last() == vs[i as int]);
            assert(vs[i as int] == names@[i as int]@);
        }
        match parse_snapshot_name(&names[i]) {
            None => {
                return Err(ImportError::BadName { index: i });
            },
            Some(ts) => {
                if ts > cutoff {
                    let ghost keep0 = keep@;
                    keep.push(names[i].clone());
                    proof {
                        assert(keep@.drop_last() =~= keep0);
                        assert(name_views(keep@) =~= name_views(keep0).push(vs[i as int]));
                    }
                } else {
                }
            },
        }
        i += 1;
    }
    proof {
        assert(vs.take(n as int) =~= vs);
    }
    Ok(keep)
}

/// A selected archive is wholly new: every snapshot timestamp belonging to
/// a qualifying archive's day lies strictly after the cutoff, so extracting
/// the archive can never replay anything the ledger has seen.
pub proof fn lemma_qualifying_archive_wholly_new(
    archive: Seq<char>,
    file: Seq<char>,
    cutoff: u64,
)
    requires
        valid_date8(archive_stem(archive)),
        valid_timestamp14(snapshot_stem(file)),
        snapshot_stem(file).subrange(0, 8) == archive_stem(archive),
        archive_qualifies(archive, cutoff),
    ensures
        snapshot_qualifies(file, cutoff),
{
    let ts = snapshot_stem(file);
    lemma_timestamp_day(ts);
    assert(digits_val(ts) >= digits_val(archive_stem(archive)) * 1000000);
}

/// Re-running the planner over sources the ledger has already passed
/// selects nothing: every file at or before the cutoff is skipped, so a
/// re-import applies zero snapshots and the ledger stays as it was.
pub proof fn lemma_reimport_selects_nothing(names: Seq<Seq<char>>, cutoff: u64)
    requires
        forall|i: int|
            0 <= i < names.len() ==> digits_val(snapshot_stem(#[trigger] names[i])) <= cutoff,
    ensures
        snapshot_plan(names, cutoff) == Seq::<Seq<char>>::empty(),
    decreases names.len(),
{
    if names.len() > 0 {
        assert forall|i: int| 0 <= i < names.len() - 1 implies digits_val(
            snapshot_stem(#[trigger] names.drop_last()[i]),
        ) <= cutoff by {
            assert(names.drop_last()[i] == names[i]);
        }
        lemma_reimport_selects_nothing(names.drop_last(), cutoff);
    }
}

/// The archive-level counterpart: once the cutoff's day has reached every
/// archive's day, a re-scan extracts no archive at all.
pub proof fn lemma_rescan_selects_no_archive(names: Seq<Seq<char>>, cutoff: u64)
    requires
        forall|i: int|
            0 <= i < names.len() ==> digits_val(archive_stem(#[trigger] names[i])) * 1000000
                <= cutoff,
    ensures
        archive_plan(names, cutoff) == Seq::<Seq<char>>::empty(),
    decreases names.len(),
{
    if names.len() > 0 {
        assert forall|i: int| 0 <= i < names.len() - 1 implies digits_val(
            archive_stem(#[trigger] names.drop_last()[i]),
        ) * 1000000 <= cutoff by {
            assert(names.drop_last()[i] == names[i]);
        }
        lemma_rescan_selects_no_archive(names.drop_last(), cutoff);
    }
}

} // verus!
