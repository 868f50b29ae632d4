//! Who updates the installation.
use vstd::prelude::*;
use crate::text::{chars_of, vec_eq_str};

verus! {

/// The `YOLITE_UPDATE_MODE` value under which the system package manager updates Yolite.
pub const PACKAGE_MANAGER_UPDATE_MODE: &'static str = "package-manager";

/// Whether the update mode hands updates to the system package manager:
/// only for exactly `package-manager`.
pub fn updates_managed_externally_value(value: Option<&str>) -> (r: bool)
    ensures
        r == (value matches Some(v) && v@ == PACKAGE_MANAGER_UPDATE_MODE@),
{
    match value {
        Some(v) => {
            let c = chars_of(v);
            assert(c@.subrange(0, c@.len() as int) =~= c@);
            vec_eq_str(&c, 0, c.len(), PACKAGE_MANAGER_UPDATE_MODE)
        },
        None => false,
    }
}

} // verus!
