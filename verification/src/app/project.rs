//! Project bookkeeping that does not touch the disk: when to autosave, how the autosave is
//! reported, and the name of the folder a bundle unpacks into.

use crate::text::decimal_string;
use vstd::prelude::*;

verus! {

/// Seconds between autosaves of a session with unsaved changes.
pub const AUTOSAVE_INTERVAL_SECS: u64 = 20;

/// Whether to autosave now: only with unsaved changes, and once the interval has passed since
/// the last autosave (`elapsed_secs` whole seconds ago).
pub fn autosave_due(is_dirty: bool, elapsed_secs: u64) -> (r: bool)
    ensures
        r == (is_dirty && elapsed_secs >= AUTOSAVE_INTERVAL_SECS),
{
    is_dirty && elapsed_secs >= AUTOSAVE_INTERVAL_SECS
}

/// The autosave status: `"<secs>s ago"` after an autosave of this session `secs` whole seconds
/// ago, else `"available"` when an autosave file exists, else `"pending"`.
pub fn autosave_status_text(last_ok_secs: Option<u64>, autosave_exists: bool) -> (s: String)
    ensures
        s@ == (match last_ok_secs {
            Some(secs) => crate::text::decimal_text(secs as nat) + "s ago"@,
            None => if autosave_exists {
                "available"@
            } else {
                "pending"@
            },
        }),
{
    match last_ok_secs {
        Some(secs) => {
            let mut s = decimal_string(secs);
            s.append("s ago");
            s
        },
        None => if autosave_exists {
            "available".to_string()
        } else {
            "pending".to_string()
        },
    }
}

/// The folder name a bundle with file stem `stem` unpacks into at `stamp`: `"<stem>_<stamp>"`.
pub fn unpack_dir_name(stem: &str, stamp: u64) -> (s: String)
    ensures
        s@ == stem@ + "_"@ + crate::text::decimal_text(stamp as nat),
{
    let mut s = stem.to_string();
    s.append("_");
    let digits = decimal_string(stamp);
    s.append(digits.as_str());
    s
}

} // verus!
