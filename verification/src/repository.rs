//! The backup repository on disk: where it lives, where objects are
//! stored, and the checks made while objects are written, verified,
//! collected and moved.

use vstd::prelude::*;

use crate::backup::{concat_str, input_error_with, str_is_blank};
use crate::digest::{hex_lower, is_object_hash, is_object_hash_name, sha256_of, ObjectHasher};
use crate::error::ErrorKind;
use crate::paths::{join_path, path_joined, paths_equal, same_path};
use crate::text::{chars_equal, chars_of, is_blank};

verus! {

/// The repository used when none is configured: `Backups/instances`
/// under the configuration directory.
pub fn default_repository_path(config_dir: &str) -> (r: String)
    ensures
        r@ == path_joined(path_joined(config_dir@, "Backups"@), "instances"@),
{
    let backups = join_path(config_dir, "Backups");
    join_path(backups.as_str(), "instances")
}

/// The repository in use: the configured path unless it is blank, the
/// default otherwise.
pub fn repository_path_from(configured: Option<String>, default_path: String) -> (r: String)
    ensures
        match configured {
            Some(p) => if is_blank(p@) {
                r == default_path
            } else {
                r == p
            },
            None => r == default_path,
        },
{
    match configured {
        Some(p) => {
            if str_is_blank(p.as_str()) {
                default_path
            } else {
                p
            }
        },
        None => default_path,
    }
}

/// What the settings store for a repository moved to `destination`:
/// nothing when it is the default repository, its path otherwise.
pub fn stored_repository_setting(destination: &str, default_path: &str) -> (r: Option<String>)
    ensures
        paths_equal(destination@, default_path@) ==> r is None,
        !paths_equal(destination@, default_path@) ==> (r matches Some(p) && p@ == destination@),
{
    if same_path(destination, default_path) {
        None
    } else {
        Some(destination.to_string())
    }
}

/// Where the characters of an object name are split between the prefix
/// directory and the file name: after its first two bytes.
pub open spec fn hash_split(hash: Seq<char>) -> int {
    if (hash[0] as u32) < 0x80 {
        2
    } else {
        1
    }
}

/// Whether the first two bytes of the UTF-8 form of `hash` are whole
/// characters: two ASCII characters, or one two-byte character.
pub open spec fn splits_after_two_bytes(hash: Seq<char>) -> bool {
    ||| (hash.len() >= 2 && (hash[0] as u32) < 0x80 && (hash[1] as u32) < 0x80)
    ||| (hash.len() >= 1 && 0x80 <= (hash[0] as u32) < 0x800)
}

/// Where the object named `hash` is stored: under `objects`, in a
/// directory named after its first two bytes, in a file named after the rest.
pub fn object_path(repository: &str, hash: &str) -> (r: String)
    requires
        splits_after_two_bytes(hash@),
    ensures
        r@ == path_joined(
            path_joined(
                path_joined(repository@, "objects"@),
                hash@.take(hash_split(hash@)),
            ),
            hash@.skip(hash_split(hash@)),
        ),
{
    let chars = chars_of(hash);
    let split: usize = if (chars[0] as u32) < 0x80 {
        2
    } else {
        1
    };
    let head = crate::text::string_from_chars(&crate::text::copy_range(&chars, 0, split));
    let tail = crate::text::string_from_chars(
        &crate::text::copy_range(&chars, split, chars.len()),
    );
    let objects = join_path(repository, "objects");
    let prefix = join_path(objects.as_str(), head.as_str());
    assert(hash@.skip(split as int) =~= hash@.subrange(split as int, hash@.len() as int));
    join_path(prefix.as_str(), tail.as_str())
}

/// Accepts a freshly hashed object of `size` bytes: it is new when nothing
/// is stored under its name, reused when an object of the same size is, and
/// refused when the stored object has another size.
pub fn stored_object_outcome(hash: String, size: u64, existing_size: Option<u64>) -> (r: Result<
    (String, u64, bool),
    ErrorKind,
>)
    ensures
        match existing_size {
            None => r matches Ok((h, s, added)) && h == hash && s == size && added,
            Some(e) => if e == size {
                r matches Ok((h, s, added)) && h == hash && s == size && !added
            } else {
                r matches Err(ErrorKind::FSError(m)) && m@ == "Backup object size mismatch for "@
                    + hash@
            },
        },
{
    match existing_size {
        None => Ok((hash, size, true)),
        Some(e) => {
            if e != size {
                return Err(
                    ErrorKind::FSError(concat_str("Backup object size mismatch for ", hash.as_str())),
                );
            }
            Ok((hash, size, false))
        },
    }
}

/// A file system error whose message is `a`, then `b`, then `c`.
fn fs_error_around(a: &str, b: &str, c: &str) -> (e: ErrorKind)
    ensures
        e matches ErrorKind::FSError(m) && m@ == a@ + b@ + c@,
{
    let ab = concat_str(a, b);
    ErrorKind::FSError(concat_str(ab.as_str(), c))
}

/// Refuses a file that changed while it was copied.
pub fn check_source_unchanged(changed: bool, source: &str) -> (r: Result<(), ErrorKind>)
    ensures
        !changed ==> r is Ok,
        changed ==> (r matches Err(ErrorKind::FSError(m)) && m@
            == "File changed while it was being backed up: "@ + source@),
{
    if changed {
        return Err(ErrorKind::FSError(concat_str("File changed while it was being backed up: ", source)));
    }
    Ok(())
}

/// Refuses a stored object whose size is not the recorded one.
pub fn check_object_size(expected_hash: &str, expected_size: u64, actual_size: u64) -> (r: Result<
    (),
    ErrorKind,
>)
    ensures
        expected_size == actual_size ==> r is Ok,
        expected_size != actual_size ==> (r matches Err(ErrorKind::FSError(m)) && m@
            == "Backup object "@ + expected_hash@ + " has an unexpected size"@),
{
    if expected_size != actual_size {
        return Err(fs_error_around("Backup object ", expected_hash, " has an unexpected size"));
    }
    Ok(())
}

/// Refuses a stored object whose content does not hash to its name;
/// `hasher` has been fed the whole object.
pub fn check_object_digest(expected_hash: &str, hasher: ObjectHasher) -> (r: Result<(), ErrorKind>)
    ensures
        hex_lower(sha256_of(hasher@.0)) == expected_hash@ ==> r is Ok,
        hex_lower(sha256_of(hasher@.0)) != expected_hash@ ==> (r matches Err(
            ErrorKind::FSError(m),
        ) && m@ == "Backup object "@ + expected_hash@ + " failed SHA-256 verification"@),
{
    let (actual, _) = hasher.finish();
    if !chars_equal(&chars_of(actual.as_str()), &chars_of(expected_hash)) {
        return Err(fs_error_around("Backup object ", expected_hash, " failed SHA-256 verification"));
    }
    Ok(())
}

/// Refuses a moved repository whose database failed its integrity check.
pub fn check_integrity(result: &str) -> (r: Result<(), ErrorKind>)
    ensures
        result@ == "ok"@ ==> r is Ok,
        result@ != "ok"@ ==> (r matches Err(ErrorKind::FSError(m)) && m@
            == "Moved backup database failed its integrity check: "@ + result@),
{
    if chars_equal(&chars_of(result), &chars_of("ok")) {
        return Ok(());
    }
    Err(ErrorKind::FSError(concat_str("Moved backup database failed its integrity check: ", result)))
}

/// Refuses to disable backups while snapshots remain.
pub fn check_disable_allowed(snapshot_count: i64) -> (r: Result<(), ErrorKind>)
    ensures
        snapshot_count <= 0 ==> r is Ok,
        snapshot_count > 0 ==> (r matches Err(ErrorKind::InputError(m)) && m@
            == "Delete every snapshot before disabling backups"@),
{
    if snapshot_count > 0 {
        return Err(crate::error::input_error("Delete every snapshot before disabling backups"));
    }
    Ok(())
}

/// Refuses to change selections of an instance whose backups are not
/// enabled (no configuration row was updated).
pub fn check_selections_updated(rows_affected: u64) -> (r: Result<(), ErrorKind>)
    ensures
        rows_affected > 0 ==> r is Ok,
        rows_affected == 0 ==> (r matches Err(ErrorKind::InputError(m)) && m@
            == "Backups are not enabled for this instance"@),
{
    if rows_affected == 0 {
        return Err(crate::error::input_error("Backups are not enabled for this instance"));
    }
    Ok(())
}

/// Refuses the deletion of a snapshot, named by id, that did not exist.
pub fn check_snapshot_deleted(by_id: bool, rows_affected: u64) -> (r: Result<(), ErrorKind>)
    ensures
        by_id && rows_affected == 0 ==> (r matches Err(ErrorKind::InputError(m)) && m@
            == "Unknown backup snapshot"@),
        !(by_id && rows_affected == 0) ==> r is Ok,
{
    if by_id && rows_affected == 0 {
        return Err(crate::error::input_error("Unknown backup snapshot"));
    }
    Ok(())
}

/// Refuses to move the repository into a directory that is not empty.
pub fn check_destination_empty(has_entries: bool) -> (r: Result<(), ErrorKind>)
    ensures
        !has_entries ==> r is Ok,
        has_entries ==> (r matches Err(ErrorKind::InputError(m)) && m@
            == "The new backup repository directory must be empty"@),
{
    if has_entries {
        return Err(crate::error::input_error("The new backup repository directory must be empty"));
    }
    Ok(())
}

/// Whether an instance edit would put the instance out of reach of
/// backups: it becomes a symbolic-link instance, or gets a game directory
/// elsewhere.
pub open spec fn edit_leaves_backups(
    symlink_target: Option<Option<Seq<char>>>,
    game_dir_override: Option<Option<Seq<char>>>,
) -> bool {
    ||| symlink_target matches Some(Some(_))
    ||| game_dir_override matches Some(Some(d)) && !is_blank(d)
}

/// The character sequences of a doubly optional string.
pub open spec fn opt_opt_view(v: Option<Option<String>>) -> Option<Option<Seq<char>>> {
    match v {
        Some(Some(s)) => Some(Some(s@)),
        Some(None) => Some(None),
        None => None,
    }
}

/// Whether an instance edit puts the instance out of reach of backups.
pub fn edit_makes_ineligible(
    symlink_target: &Option<Option<String>>,
    game_dir_override: &Option<Option<String>>,
) -> (r: bool)
    ensures
        r == edit_leaves_backups(opt_opt_view(*symlink_target), opt_opt_view(*game_dir_override)),
{
    let linked = match symlink_target {
        Some(Some(_)) => true,
        _ => false,
    };
    if linked {
        return true;
    }
    match game_dir_override {
        Some(Some(d)) => !str_is_blank(d.as_str()),
        _ => false,
    }
}

/// Refuses an edit that puts an instance with backups enabled out of their
/// reach.
pub fn check_edit_allowed(makes_ineligible: bool, backups_enabled: bool) -> (r: Result<
    (),
    ErrorKind,
>)
    ensures
        makes_ineligible && backups_enabled ==> (r matches Err(ErrorKind::InputError(m)) && m@
            == "Disable backups before changing this instance to use an external directory"@),
        !(makes_ineligible && backups_enabled) ==> r is Ok,
{
    if makes_ineligible && backups_enabled {
        return Err(
            crate::error::input_error(
                "Disable backups before changing this instance to use an external directory",
            ),
        );
    }
    Ok(())
}

/// The object that a file named `file_name`, in the prefix directory named
/// `prefix_name`, stands for: their names put together, when that is an
/// object name (64 hexadecimal digits); otherwise the file is not an object.
pub fn swept_object_name(prefix_name: &str, file_name: &str) -> (r: Option<String>)
    ensures
        (r is Some) == is_object_hash(prefix_name@ + file_name@),
        r matches Some(h) ==> h@ == prefix_name@ + file_name@,
{
    let hash = concat_str(prefix_name, file_name);
    if is_object_hash_name(hash.as_str()) {
        Some(hash)
    } else {
        None
    }
}

/// The sweep recognizes every object where storing put it: an object name
/// splits into a prefix directory and a file name, and those two names put
/// together are the object name again.
pub proof fn law_sweep_recognizes_stored_objects(hash: Seq<char>)
    requires
        is_object_hash(hash),
    ensures
        splits_after_two_bytes(hash),
        hash_split(hash) == 2,
        hash.take(hash_split(hash)) + hash.skip(hash_split(hash)) == hash,
        is_object_hash(hash.take(hash_split(hash)) + hash.skip(hash_split(hash))),
{
    assert(crate::text::is_hex_digit_char(hash[0]));
    assert(crate::text::is_hex_digit_char(hash[1]));
    assert(hash.take(2) + hash.skip(2) =~= hash);
}

} // verus!
