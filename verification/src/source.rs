//! Sources: what an input amounts to, read by read.
//!
//! Each read of a source's next line gives an entry, the line with its sort
//! key, or calls for a warning and is passed over. A source is pulled forward
//! read by read until it holds an entry at its head or has come to its end.

use vstd::prelude::*;
use vstd::string::StringExecFns;
use crate::error::MrgError;
use crate::extract::{extract, key_of, reason_text, ExtractError, KeySet};

verus! {

/// A line that carries a sort key, as a source holds it at its head.
pub struct Entry {
    pub sort_key: i64,
    pub raw_text: String,
}

/// The mathematical content of an entry.
pub struct EntryView {
    pub key: i64,
    pub text: Seq<char>,
}

impl View for Entry {
    type V = EntryView;

    open spec fn view(&self) -> EntryView {
        EntryView { key: self.sort_key, text: self.raw_text@ }
    }
}

/// The report of one read that gave no entry.
#[derive(Debug)]
pub struct Warning {
    /// The index of the source that was read.
    pub source: usize,
    /// What went wrong, in words.
    pub text: String,
}

/// The mathematical content of a warning.
pub struct WarningView {
    pub source: int,
    pub text: Seq<char>,
}

impl View for Warning {
    type V = WarningView;

    open spec fn view(&self) -> WarningView {
        WarningView { source: self.source as int, text: self.text@ }
    }
}

/// The entry that one read of a line gives under a key set: none where the
/// read failed, and none where the line yields no key.
pub open spec fn entry_of(keys: Set<Seq<char>>, line: Result<String, MrgError>) -> Option<EntryView> {
    match line {
        Ok(text) => match key_of(keys, text@) {
            Ok(key) => Some(EntryView { key, text: text@ }),
            Err(_) => None,
        },
        Err(_) => None,
    }
}

/// The warning for a line that could not be read.
pub open spec fn unreadable(cause: Seq<char>) -> Seq<char> {
    "cannot get next line: "@ + cause
}

/// The warning for a line that yields no key.
pub open spec fn unusable(reason: ExtractError) -> Seq<char> {
    "cannot parse entry: "@ + reason_text(reason)
}

/// The warning that one read of a line calls for under a key set: none
/// where the line yields a key.
pub open spec fn warning_of(keys: Set<Seq<char>>, line: Result<String, MrgError>) -> Option<Seq<char>> {
    match line {
        Ok(text) => match key_of(keys, text@) {
            Ok(_) => None,
            Err(reason) => Some(unusable(reason)),
        },
        Err(failure) => Some(unreadable(failure.msg@)),
    }
}

/// The text of the warning for a line that could not be read.
fn warn_unreadable(failure: &MrgError) -> (r: String)
    ensures
        r@ == unreadable(failure.msg@),
{
    String::from_str("cannot get next line: ").concat(failure.msg.as_str())
}

/// The text of the warning for a line that yields no key.
fn warn_unusable(reason: ExtractError) -> (r: String)
    ensures
        r@ == unusable(reason),
{
    let text = reason.describe();
    String::from_str("cannot parse entry: ").concat(text.as_str())
}

/// Decides on one read of a source's next line: the entry that the source
/// then holds at its head, or the warning with which the read is passed
/// over.
pub fn pull(keys: &KeySet, read: Result<String, MrgError>) -> (r: Result<Entry, String>)
    ensures
        match r {
            Ok(entry) => entry_of(keys@, read) == Some(entry@),
            Err(warning) => entry_of(keys@, read) is None && warning_of(keys@, read) == Some(warning@),
        },
{
    match read {
        Ok(line) => match extract(keys, line.as_str()) {
            Ok(key) => Ok(Entry { sort_key: key, raw_text: line }),
            Err(reason) => Err(warn_unusable(reason)),
        },
        Err(failure) => Err(warn_unreadable(&failure)),
    }
}

/// The entries of an input, in the order of its lines: every line that was
/// read and yields a key, and no other.
pub open spec fn entries_of(keys: Set<Seq<char>>, lines: Seq<Result<String, MrgError>>) -> Seq<
    EntryView,
>
    decreases lines.len(),
{
    if lines.len() == 0 {
        Seq::empty()
    } else {
        let before = entries_of(keys, lines.drop_last());
        match entry_of(keys, lines.last()) {
            Some(entry) => before.push(entry),
            None => before,
        }
    }
}

/// The entries of each of several inputs.
pub open spec fn sources_of(keys: Set<Seq<char>>, ins: Seq<Vec<Result<String, MrgError>>>) -> Seq<
    Seq<EntryView>,
> {
    Seq::new(ins.len(), |i: int| entries_of(keys, ins[i]@))
}

/// The keys of a sequence of entries never decrease.
pub open spec fn ascending(entries: Seq<EntryView>) -> bool {
    forall|i: int, j: int| 0 <= i <= j < entries.len() ==> entries[i].key <= entries[j].key
}

/// The warnings that an input calls for, in the order of its lines.
pub open spec fn warnings_of(keys: Set<Seq<char>>, lines: Seq<Result<String, MrgError>>) -> Seq<
    Seq<char>,
>
    decreases lines.len(),
{
    if lines.len() == 0 {
        Seq::empty()
    } else {
        let before = warnings_of(keys, lines.drop_last());
        match warning_of(keys, lines.last()) {
            Some(text) => before.push(text),
            None => before,
        }
    }
}

/// The views of a list of warnings, in the list's order.
pub open spec fn warnings_view(log: Seq<Warning>) -> Seq<WarningView> {
    log.map_values(|w: Warning| w@)
}

/// The texts of the warnings of a log that are about `source`, in the
/// log's order.
pub open spec fn about(log: Seq<WarningView>, source: int) -> Seq<Seq<char>>
    decreases log.len(),
{
    if log.len() == 0 {
        Seq::empty()
    } else {
        let before = about(log.drop_last(), source);
        if log.last().source == source {
            before.push(log.last().text)
        } else {
            before
        }
    }
}

/// Every read gives an entry or calls for a warning, and never both.
pub proof fn entry_or_warning(keys: Set<Seq<char>>, line: Result<String, MrgError>)
    ensures
        entry_of(keys, line) is Some <==> warning_of(keys, line) is None,
{
}

/// A line that could not be read or that yields no key gives no entry, and
/// leaves the entries of the lines around it as they are: the input's
/// entries are those of the input without that line.
pub proof fn line_without_key_is_passed_over(
    keys: Set<Seq<char>>,
    lines: Seq<Result<String, MrgError>>,
    at: int,
)
    requires
        0 <= at < lines.len(),
        entry_of(keys, lines[at]) is None,
    ensures
        entries_of(keys, lines) == entries_of(keys, lines.remove(at)),
    decreases lines.len(),
{
    if at == lines.len() - 1 {
        assert(lines.remove(at) == lines.drop_last());
    } else {
        let fewer = lines.remove(at);
        assert(fewer.drop_last() == lines.drop_last().remove(at));
        assert(fewer.last() == lines.last());
        line_without_key_is_passed_over(keys, lines.drop_last(), at);
    }
}

/// An input none of whose lines gives an entry, an empty input among them,
/// has no entries.
pub proof fn input_without_keys_has_no_entries(
    keys: Set<Seq<char>>,
    lines: Seq<Result<String, MrgError>>,
)
    requires
        forall|i: int| 0 <= i < lines.len() ==> entry_of(keys, #[trigger] lines[i]) is None,
    ensures
        entries_of(keys, lines) == Seq::<EntryView>::empty(),
    decreases lines.len(),
{
    if lines.len() > 0 {
        let fewer = lines.drop_last();
        assert forall|i: int| 0 <= i < fewer.len() implies entry_of(keys, #[trigger] fewer[i]) is None by {
            assert(fewer[i] == lines[i]);
        }
        input_without_keys_has_no_entries(keys, fewer);
    }
}

/// The entries of a prefix of an input are a prefix of the input's entries.
pub proof fn lemma_entries_prefix(keys: Set<Seq<char>>, lines: Seq<Result<String, MrgError>>, n: int)
    requires
        0 <= n <= lines.len(),
    ensures
        entries_of(keys, lines.take(n)).len() <= entries_of(keys, lines).len(),
        entries_of(keys, lines.take(n)) == entries_of(keys, lines).take(
            entries_of(keys, lines.take(n)).len() as int,
        ),
    decreases lines.len() - n,
{
    if n == lines.len() {
        assert(lines.take(n) == lines);
    } else {
        lemma_entries_prefix(keys, lines, n + 1);
        assert(lines.take(n + 1).drop_last() == lines.take(n));
    }
}

} // verus!
