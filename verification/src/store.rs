//! Decisions of the durable JSON stores. A store is written to a temporary
//! sibling and renamed over the target, the previous good copy kept beside
//! it as a backup; a read trusts the primary, then the backup, then a fresh
//! default, and never overwrites an unreadable file without first moving it
//! aside.

use vstd::prelude::*;
use crate::text::{to_chars, from_chars, push_str_chars};

verus! {

/// Appended to a store's file name for its one-generation backup.
pub const BACKUP_SUFFIX: &'static str = ".bak";

/// Appended to a store's file name for the file a write goes to first.
pub const TEMP_WRITE_SUFFIX: &'static str = ".tmp";

/// Between a store's file name and the time it was found unreadable, in the
/// name it is kept under.
pub const QUARANTINE_MARKER: &'static str = ".corrupt-";

pub fn backup_file_name(name: &str) -> (r: String)
    ensures
        r@ == name@ + BACKUP_SUFFIX@,
{
    let mut v = to_chars(name);
    push_str_chars(&mut v, BACKUP_SUFFIX);
    from_chars(v.as_slice())
}

pub fn temp_write_file_name(name: &str) -> (r: String)
    ensures
        r@ == name@ + TEMP_WRITE_SUFFIX@,
{
    let mut v = to_chars(name);
    push_str_chars(&mut v, TEMP_WRITE_SUFFIX);
    from_chars(v.as_slice())
}

/// A time written with `-` in place of every `:`, as file names can hold it.
pub open spec fn file_safe_time(now: Seq<char>) -> Seq<char> {
    now.map_values(|c: char| if c == ':' { '-' } else { c })
}

/// The name an unreadable store is kept under: its own name, the marker and
/// the time.
pub fn quarantine_file_name(name: &str, now: &str) -> (r: String)
    ensures
        r@ == name@ + QUARANTINE_MARKER@ + file_safe_time(now@),
{
    let mut v = to_chars(name);
    push_str_chars(&mut v, QUARANTINE_MARKER);
    let ghost head = v@;
    let t = to_chars(now);
    let n = t.len();
    let mut i: usize = 0;
    while i < n
        invariant
            n == t@.len(),
            t@ == now@,
            i <= n,
            v@ == head + file_safe_time(now@).take(i as int),
        decreases n - i,
    {
        let c = t[i];
        v.push(if c == ':' { '-' } else { c });
        proof {
            assert(file_safe_time(now@).take(i + 1) =~= file_safe_time(now@).take(i as int).push(
                if c == ':' { '-' } else { c },
            ));
        }
        i += 1;
    }
    assert(file_safe_time(now@).take(n as int) =~= file_safe_time(now@));
    from_chars(v.as_slice())
}

/// The text a store is saved as: its JSON and a final newline.
pub fn store_text(json: &str) -> (r: String)
    ensures
        r@ == json@.push('\n'),
{
    let mut v = to_chars(json);
    v.push('\n');
    from_chars(v.as_slice())
}

/// Whether a write first moves the current file to the backup: only a save
/// that rotates, and only when there is a file to move.
pub fn moves_current_to_backup(rotate: bool, target_exists: bool) -> (r: bool)
    ensures
        r == (rotate && target_exists),
{
    rotate && target_exists
}

/// Which copy of a store a read is looking at.
#[derive(Clone, Copy, Debug, PartialEq, Eq)]
pub enum StoreCopy {
    Primary,
    Backup,
}

/// What a read does once a copy has been read and parsed, or not.
#[derive(Clone, Copy, Debug, PartialEq, Eq)]
pub enum StoreReadStep {
    /// Return the primary's value; nothing is written.
    UsePrimary,
    /// The primary is missing or unreadable: read the backup.
    ReadBackup,
    /// Move the unreadable primary aside, write the backup's text back as
    /// the primary without rotating (the backup is the only good copy), and
    /// return its value.
    RestoreFromBackup,
    /// Move the unreadable primary aside, write a fresh default as the
    /// primary without rotating, and return it.
    ResetToDefault,
}

pub open spec fn read_step(copy: StoreCopy, parsed: bool) -> StoreReadStep {
    match copy {
        StoreCopy::Primary => if parsed {
            StoreReadStep::UsePrimary
        } else {
            StoreReadStep::ReadBackup
        },
        StoreCopy::Backup => if parsed {
            StoreReadStep::RestoreFromBackup
        } else {
            StoreReadStep::ResetToDefault
        },
    }
}

/// The next step of a read, from the copy just read and whether it parsed.
pub fn store_read_step(copy: StoreCopy, parsed: bool) -> (r: StoreReadStep)
    ensures
        r == read_step(copy, parsed),
{
    match copy {
        StoreCopy::Primary => if parsed {
            StoreReadStep::UsePrimary
        } else {
            StoreReadStep::ReadBackup
        },
        StoreCopy::Backup => if parsed {
            StoreReadStep::RestoreFromBackup
        } else {
            StoreReadStep::ResetToDefault
        },
    }
}

} // verus!
