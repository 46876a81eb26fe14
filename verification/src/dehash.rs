//! Name recovery for hash-only entries.
//!
//! An archive that stores only checksums can get its names back by testing
//! candidate strings: a candidate whose checksum equals an unresolved hash
//! is promoted to be that entry's name. The candidates come from an
//! auxiliary list file that sits beside the archive; which list applies is
//! a per-archive-type convention, chosen from the archive's own file name
//! by [`predict_strategy`].

use vstd::prelude::*;

use crate::archive::{spec_promote, Archive};
use crate::checksum::{hash_name, spec_hash_name};
use crate::layout::ArchiveV;
use crate::text::{chars_to_string, str_to_chars};

verus! {

/// Which recovery procedure applies to an archive. New archive subtypes
/// add a variant here and a rule in [`predict_strategy`]; the reader and
/// the writer are untouched by that.
#[derive(Clone, Copy, Debug, PartialEq, Eq, Structural)]
pub enum StrategyTag {
    /// A text-bearing archive whose candidate list sits beside it with the
    /// list extension in place of the archive extension.
    Message,
}

/// The file-name pattern of a text-bearing archive.
pub open spec fn message_prefix() -> Seq<char> {
    seq!['m', 'e', 's', 's', 'a', 'g', 'e']
}

/// The archive extension the message rule matches.
pub open spec fn bin_suffix() -> Seq<char> {
    seq!['.', 'b', 'i', 'n']
}

/// The extension of the companion candidate list.
pub open spec fn lst_suffix() -> Seq<char> {
    seq!['.', 'l', 's', 't']
}

/// The message rule: the archive's file name opens with `message` and
/// closes with `.bin`.
pub open spec fn is_message_name(name: Seq<char>) -> bool {
    &&& name.len() >= 11
    &&& name.take(7) == message_prefix()
    &&& name.skip(name.len() - 4) == bin_suffix()
}

/// Chooses the recovery strategy for an archive from its own file name:
/// the first rule of the table that matches, or `None` when no automated
/// recovery is available for this archive.
pub fn predict_strategy(archive_file_name: &str) -> (r: Option<StrategyTag>)
    ensures
        r is Some <==> is_message_name(archive_file_name@),
        r matches Some(t) ==> t == StrategyTag::Message,
{
    let chars = str_to_chars(archive_file_name);
    let n = chars.len();
    if n < 11 {
        return None;
    }
    if chars[0] == 'm' && chars[1] == 'e' && chars[2] == 's' && chars[3] == 's' && chars[4] == 'a'
        && chars[5] == 'g' && chars[6] == 'e' && chars[n - 4] == '.' && chars[n - 3] == 'b'
        && chars[n - 2] == 'i' && chars[n - 1] == 'n' {
        proof {
            assert(archive_file_name@.take(7) =~= message_prefix());
            assert(archive_file_name@.skip(n - 4) =~= bin_suffix());
        }
        Some(StrategyTag::Message)
    } else {
        proof {
            if is_message_name(archive_file_name@) {
                assert(archive_file_name@.take(7)[0] == 'm');
                assert(archive_file_name@.take(7)[1] == 'e');
                assert(archive_file_name@.take(7)[2] == 's');
                assert(archive_file_name@.take(7)[3] == 's');
                assert(archive_file_name@.take(7)[4] == 'a');
                assert(archive_file_name@.take(7)[5] == 'g');
                assert(archive_file_name@.take(7)[6] == 'e');
                assert(archive_file_name@.skip(n - 4)[0] == '.');
                assert(archive_file_name@.skip(n - 4)[1] == 'b');
                assert(archive_file_name@.skip(n - 4)[2] == 'i');
                assert(archive_file_name@.skip(n - 4)[3] == 'n');
            }
        }
        None
    }
}

/// Derives the file name of the candidate list that should sit beside a
/// text-bearing archive: the archive's own name with the list extension in
/// place of the archive extension. `None` when the convention does not
/// apply to this archive.
pub fn companion_list_name(archive_file_name: &str) -> (r: Option<String>)
    ensures
        r is Some <==> is_message_name(archive_file_name@),
        r matches Some(s) ==> s@ == archive_file_name@.take(archive_file_name@.len() - 4)
            + lst_suffix(),
{
    match predict_strategy(archive_file_name) {
        None => None,
        Some(_) => {
            let chars = str_to_chars(archive_file_name);
            let n = chars.len();
            let mut stem: Vec<char> = Vec::new();
            let mut i: usize = 0;
            while i < n - 4
                invariant
                    n == chars@.len(),
                    n >= 11,
                    i <= n - 4,
                    stem@ == chars@.take(i as int),
                decreases n - 4 - i,
            {
                stem.push(chars[i]);
                proof {
                    assert(chars@.take(i + 1) =~= chars@.take(i as int).push(chars@[i as int]));
                }
                i = i + 1;
            }
            stem.push('.');
            stem.push('l');
            stem.push('s');
            stem.push('t');
            let out = chars_to_string(&stem);
            proof {
                assert(out@ =~= archive_file_name@.take(archive_file_name@.len() - 4)
                    + lst_suffix());
            }
            Some(out)
        },
    }
}

/// A carriage return at a record's end is not part of the record.
pub open spec fn strip_cr(line: Seq<char>) -> Seq<char> {
    if line.len() > 0 && line.last() == '\r' {
        line.drop_last()
    } else {
        line
    }
}

/// One step of record splitting: a line feed closes the open record, any
/// other character extends it.
pub open spec fn split_step(acc: (Seq<Seq<char>>, Seq<char>), c: char) -> (
    Seq<Seq<char>>,
    Seq<char>,
) {
    if c == '\n' {
        (acc.0.push(strip_cr(acc.1)), Seq::empty())
    } else {
        (acc.0, acc.1.push(c))
    }
}

/// The closed records, and the still-open last record, after reading `text`.
pub open spec fn split_fold(text: Seq<char>) -> (Seq<Seq<char>>, Seq<char>)
    decreases text.len(),
{
    if text.len() == 0 {
        (Seq::empty(), Seq::empty())
    } else {
        split_step(split_fold(text.drop_last()), text.last())
    }
}

/// The candidate records of a list file's text: one per line, where a final
/// record without a closing line feed still counts.
pub open spec fn spec_candidate_lines(text: Seq<char>) -> Seq<Seq<char>> {
    let acc = split_fold(text);
    if acc.1.len() == 0 {
        acc.0
    } else {
        acc.0.push(strip_cr(acc.1))
    }
}

/// Splits a candidate list's text into its records, in order.
#[verifier::loop_isolation(false)]
pub fn split_candidate_lines(text: &str) -> (r: Vec<String>)
    ensures
        r@.len() == spec_candidate_lines(text@).len(),
        forall|i: int|
            0 <= i < r@.len() ==> (#[trigger] r@[i])@ == spec_candidate_lines(text@)[i],
{
    let chars = str_to_chars(text);
    let n = chars.len();
    let mut done: Vec<String> = Vec::new();
    let mut cur: Vec<char> = Vec::new();
    let mut i: usize = 0;
    proof {
        assert(text@.take(0) =~= Seq::<char>::empty());
    }
    while i < n
        invariant
            i <= n,
            n == chars@.len(),
            chars@ == text@,
            done@.len() == split_fold(text@.take(i as int)).0.len(),
            forall|k: int|
                0 <= k < done@.len() ==> (#[trigger] done@[k])@ == split_fold(
                    text@.take(i as int),
                ).0[k],
            cur@ == split_fold(text@.take(i as int)).1,
        decreases n - i,
    {
        let ghost acc = split_fold(text@.take(i as int));
        let c = chars[i];
        if c == '\n' {
            if cur.len() > 0 && cur[cur.len() - 1] == '\r' {
                let _trailing = cur.pop();
            }
            proof {
                assert(cur@ =~= strip_cr(acc.1));
            }
            let line = chars_to_string(&cur);
            done.push(line);
            cur.clear();
        } else {
            cur.push(c);
        }
        proof {
            assert(text@.take(i + 1).drop_last() =~= text@.take(i as int));
            assert(text@.take(i + 1).last() == text@[i as int]);
        }
        i = i + 1;
    }
    proof {
        assert(text@.take(n as int) =~= text@);
    }
    if cur.len() > 0 {
        if cur[cur.len() - 1] == '\r' {
            let _trailing = cur.pop();
        }
        proof {
            assert(cur@ =~= strip_cr(split_fold(text@).1));
        }
        let line = chars_to_string(&cur);
        done.push(line);
    }
    done
}

/// What testing one candidate does to an archive view: the promotion it
/// triggers when its checksum is an unresolved hash and its name is free,
/// and nothing otherwise.
pub open spec fn spec_try_candidate(v: ArchiveV, name: Seq<char>) -> ArchiveV {
    match spec_promote(v, spec_hash_name(name), name) {
        Ok(v2) => v2,
        Err(_) => v,
    }
}

/// What testing a candidate list does to an archive view: each candidate
/// is tried in list order, so the first candidate that matches a given
/// unresolved hash wins, and later candidates with the same checksum have
/// no further effect.
pub open spec fn spec_recover(v: ArchiveV, cands: Seq<Seq<char>>) -> ArchiveV
    decreases cands.len(),
{
    if cands.len() == 0 {
        v
    } else {
        spec_recover(spec_try_candidate(v, cands[0]), cands.drop_first())
    }
}

/// The views of a list of candidate strings.
pub open spec fn cand_views(cands: Seq<String>) -> Seq<Seq<char>> {
    cands.map_values(|s: String| s@)
}

/// Tests every candidate, in list order, against the archive's unresolved
/// hashes, and promotes each match. Returns how many entries were
/// promoted. The candidates that match nothing, and the hashes that no
/// candidate matches, are left as they are; the unresolved count never
/// increases.
#[verifier::loop_isolation(false)]
pub fn recover(archive: &mut Archive, candidates: &Vec<String>) -> (promoted: usize)
    requires
        old(archive).wf(),
    ensures
        final(archive).wf(),
        final(archive)@ == spec_recover(old(archive)@, cand_views(candidates@)),
        final(archive)@.hashed.len() <= old(archive)@.hashed.len(),
        promoted == old(archive)@.hashed.len() - final(archive)@.hashed.len(),
{
    let ghost views = cand_views(candidates@);
    let before = archive.unresolved_count();
    let n = candidates.len();
    let mut i: usize = 0;
    proof {
        assert(views.skip(0) =~= views);
    }
    while i < n
        invariant
            i <= n,
            n == candidates@.len(),
            archive.wf(),
            spec_recover(old(archive)@, views) == spec_recover(archive@, views.skip(i as int)),
            archive@.hashed.len() <= old(archive)@.hashed.len(),
            before == old(archive)@.hashed.len(),
        decreases n - i,
    {
        let ghost prev = archive@;
        let c = &candidates[i];
        let h = hash_name(c.as_str());
        let res = archive.promote(h, c.as_str());
        proof {
            if res is Ok {
                assert(archive@.hashed.len() == prev.hashed.len() - 1);
            } else {
                assert(archive@ == prev);
            }
            assert(views[i as int] == c@);
            assert(spec_try_candidate(prev, c@) == archive@);
            assert(views.skip(i as int).drop_first() =~= views.skip(i + 1));
            assert(views.skip(i as int)[0] == views[i as int]);
        }
        i = i + 1;
    }
    proof {
        assert(views.skip(n as int) =~= Seq::<Seq<char>>::empty());
    }
    let after = archive.unresolved_count();
    before - after
}

/// Recovers names from a candidate list file's whole text: splits it into
/// records and tests every record, in order, against the archive's
/// unresolved hashes. Returns how many entries were promoted.
pub fn recover_from_text(archive: &mut Archive, list_text: &str) -> (promoted: usize)
    requires
        old(archive).wf(),
    ensures
        final(archive).wf(),
        final(archive)@ == spec_recover(old(archive)@, spec_candidate_lines(list_text@)),
        final(archive)@.hashed.len() <= old(archive)@.hashed.len(),
        promoted == old(archive)@.hashed.len() - final(archive)@.hashed.len(),
{
    let lines = split_candidate_lines(list_text);
    proof {
        assert(cand_views(lines@) =~= spec_candidate_lines(list_text@));
    }
    recover(archive, &lines)
}

} // verus!
