//! Accumulating a directory listing from per-entry scan outcomes.
//!
//! The surrounding application walks a directory handle and records, for
//! each entry, either its name and whether it is a directory, or the message
//! of the failure that reading it produced. This module holds the verified
//! accumulation: which names are kept under each filter, and how a scan
//! failure is reported under each error policy.

use vstd::prelude::*;
use vstd::string::*;
use crate::errors::{FsError, FsErrorKind};

verus! {

/// Which entries a listing keeps.
#[derive(Clone, Copy, PartialEq, Eq, Structural, Debug)]
pub enum EntryFilter {
    /// Keep every entry, files and directories alike.
    AllEntries,
    /// Keep only entries that are directories.
    DirectoriesOnly,
}

/// What a listing does when one entry cannot be read.
#[derive(Clone, Copy, PartialEq, Eq, Structural, Debug)]
pub enum OnEntryError {
    /// Abort the whole listing with a failure.
    AbortOnError,
    /// Skip the unreadable entry and keep going.
    SkipErrors,
}

/// The outcome of reading one directory entry.
#[derive(Debug)]
pub enum EntryOutcome {
    /// The entry was read: its base name, and whether it is a directory.
    Found { name: String, is_dir: bool },
    /// The entry could not be read; the underlying message.
    Unreadable { message: String },
}

/// Whether `e` is an entry the filter keeps.
pub open spec fn entry_kept(e: EntryOutcome, filter: EntryFilter) -> bool {
    match e {
        EntryOutcome::Found { name, is_dir } => filter == EntryFilter::AllEntries || is_dir,
        EntryOutcome::Unreadable { .. } => false,
    }
}

/// The name carried by a read entry.
pub open spec fn entry_name(e: EntryOutcome) -> Seq<char>
    recommends
        e is Found,
{
    match e {
        EntryOutcome::Found { name, .. } => name@,
        EntryOutcome::Unreadable { message } => message@,
    }
}

/// The message carried by an unreadable entry.
pub open spec fn entry_message(e: EntryOutcome) -> Seq<char>
    recommends
        e is Unreadable,
{
    match e {
        EntryOutcome::Found { name, .. } => name@,
        EntryOutcome::Unreadable { message } => message@,
    }
}

/// Whether some entry of the scan was unreadable.
pub open spec fn has_unreadable(entries: Seq<EntryOutcome>) -> bool {
    exists|i: int| 0 <= i < entries.len() && entries[i] is Unreadable
}

/// The names the filter keeps, in scan order.
pub open spec fn kept_names(entries: Seq<EntryOutcome>, filter: EntryFilter) -> Seq<Seq<char>>
    decreases entries.len(),
{
    if entries.len() == 0 {
        Seq::empty()
    } else if entry_kept(entries.last(), filter) {
        kept_names(entries.drop_last(), filter).push(entry_name(entries.last()))
    } else {
        kept_names(entries.drop_last(), filter)
    }
}

/// The message of the first unreadable entry.
pub open spec fn first_unreadable_message(entries: Seq<EntryOutcome>) -> Seq<char>
    decreases entries.len(),
{
    if entries.len() == 0 {
        Seq::empty()
    } else if entries[0] is Unreadable {
        entry_message(entries[0])
    } else {
        first_unreadable_message(entries.drop_first())
    }
}

/// The prefix the aborting listing reports: `"Error reading entry: "`.
pub open spec fn entry_error_prefix() -> Seq<char> {
    "Error reading entry: "@
}

/// When the first `i` entries are readable and entry `i` is not, entry `i`
/// is the first unreadable one, and its message is the one reported.
proof fn lemma_first_unreadable(entries: Seq<EntryOutcome>, i: int)
    requires
        0 <= i < entries.len(),
        entries[i] is Unreadable,
        forall|j: int| 0 <= j < i ==> !(entries[j] is Unreadable),
    ensures
        has_unreadable(entries),
        first_unreadable_message(entries) == entry_message(entries[i]),
    decreases i,
{
    if i > 0 {
        lemma_first_unreadable(entries.drop_first(), i - 1);
        assert(forall|j: int| 0 <= j < i - 1 ==> entries.drop_first()[j] == entries[j + 1]);
    }
}

/// Builds the listing result from the recorded scan outcomes.
///
/// Under `SkipErrors`, or when every entry was readable, the result is the
/// kept names in scan order. Under `AbortOnError` with an unreadable entry,
/// the result is a failure carrying the first such entry's message.
pub fn collect_listing(entries: &Vec<EntryOutcome>, filter: EntryFilter, on_error: OnEntryError) -> (r:
    Result<Vec<String>, FsError>)
    ensures
        match r {
            Ok(names) => {
                &&& !(on_error == OnEntryError::AbortOnError && has_unreadable(entries@))
                &&& names@.map_values(|s: String| s@) == kept_names(entries@, filter)
            },
            Err(e) => {
                &&& on_error == OnEntryError::AbortOnError
                &&& has_unreadable(entries@)
                &&& e.kind == FsErrorKind::Other
                &&& e.message@ == entry_error_prefix() + first_unreadable_message(entries@)
            },
        },
{
    let ghost all = entries@;
    let mut names: Vec<String> = Vec::new();
    let mut i: usize = 0;
    while i < entries.len()
        invariant
            i <= all.len(),
            entries@ == all,
            names@.map_values(|s: String| s@) == kept_names(all.take(i as int), filter),
            on_error == OnEntryError::AbortOnError ==> forall|j: int|
                0 <= j < i ==> !(all[j] is Unreadable),
        decreases all.len() - i,
    {
        proof {
            assert(all.take(i + 1).drop_last() =~= all.take(i as int));
            assert(all.take(i + 1).last() == all[i as int]);
        }
        match &entries[i] {
            EntryOutcome::Found { name, is_dir } => {
                let keep = match filter {
                    EntryFilter::AllEntries => true,
                    EntryFilter::DirectoriesOnly => *is_dir,
                };
                if keep {
                    let ghost before = names@;
                    names.push(name.clone());
                    proof {
                        assert(names@.map_values(|s: String| s@) =~= before.map_values(
                            |s: String| s@,
                        ).push(entry_name(all[i as int])));
                    }
                }
            },
            EntryOutcome::Unreadable { message } => {
                match on_error {
                    OnEntryError::AbortOnError => {
                        proof {
                            lemma_first_unreadable(all, i as int);
                        }
                        let mut text = String::from_str("Error reading entry: ");
                        text.append(message.as_str());
                        return Err(FsError::new(FsErrorKind::Other, text));
                    },
                    OnEntryError::SkipErrors => {},
                }
            },
        }
        i = i + 1;
    }
    proof {
        assert(all.take(all.len() as int) =~= all);
    }
    Ok(names)
}

/// A name stands in the kept listing exactly when some readable entry that
/// the filter keeps carries it: the listing is complete and adds nothing.
pub proof fn lemma_kept_names_complete(entries: Seq<EntryOutcome>, filter: EntryFilter)
    ensures
        forall|n: Seq<char>|
            #[trigger] kept_names(entries, filter).contains(n) <==> exists|i: int|
                0 <= i < entries.len() && entries[i] is Found && entry_kept(entries[i], filter)
                    && entry_name(entries[i]) == n,
    decreases entries.len(),
{
    if entries.len() > 0 {
        lemma_kept_names_complete(entries.drop_last(), filter);
        let prev = kept_names(entries.drop_last(), filter);
        let last = entries.last();
        assert forall|n: Seq<char>| #[trigger] kept_names(entries, filter).contains(n) implies exists|
            i: int,
        |
            0 <= i < entries.len() && entries[i] is Found && entry_kept(entries[i], filter)
                && entry_name(entries[i]) == n by {
            if entry_kept(last, filter) && n == entry_name(last) {
                assert(entries[entries.len() - 1] is Found && entry_kept(
                    entries[entries.len() - 1],
                    filter,
                ) && entry_name(entries[entries.len() - 1]) == n);
            } else {
                assert(prev.contains(n));
                let i = choose|i: int|
                    0 <= i < entries.drop_last().len() && entries.drop_last()[i] is Found
                        && entry_kept(entries.drop_last()[i], filter) && entry_name(
                        entries.drop_last()[i],
                    ) == n;
                assert(entries[i] is Found && entry_kept(entries[i], filter) && entry_name(
                    entries[i],
                ) == n);
            }
        }
        assert forall|n: Seq<char>|
            (exists|i: int|
                0 <= i < entries.len() && entries[i] is Found && entry_kept(entries[i], filter)
                    && entry_name(entries[i]) == n) implies #[trigger] kept_names(
            entries,
            filter,
        ).contains(n) by {
            let i = choose|i: int|
                0 <= i < entries.len() && entries[i] is Found && entry_kept(entries[i], filter)
                    && entry_name(entries[i]) == n;
            if i == entries.len() - 1 {
                assert(kept_names(entries, filter).last() == n);
            } else {
                assert(entries.drop_last()[i] == entries[i]);
                assert(prev.contains(n));
                let k = choose|k: int| 0 <= k < prev.len() && prev[k] == n;
                if entry_kept(last, filter) {
                    assert(kept_names(entries, filter)[k] == n);
                } else {
                    assert(kept_names(entries, filter)[k] == n);
                }
            }
        }
    }
}

/// The listing of the scan, taken as a set, is exactly the set of names of
/// readable entries the filter keeps.
pub proof fn lemma_listing_names_as_set(entries: Seq<EntryOutcome>, filter: EntryFilter)
    ensures
        kept_names(entries, filter).to_set() == Set::new(
            |n: Seq<char>|
                exists|i: int|
                    0 <= i < entries.len() && entries[i] is Found && entry_kept(entries[i], filter)
                        && entry_name(entries[i]) == n,
        ),
{
    lemma_kept_names_complete(entries, filter);
    assert(kept_names(entries, filter).to_set() =~= Set::new(
        |n: Seq<char>|
            exists|i: int|
                0 <= i < entries.len() && entries[i] is Found && entry_kept(entries[i], filter)
                    && entry_name(entries[i]) == n,
    ));
}

} // verus!
