use vstd::prelude::*;
use crate::account::AccountRef;
use crate::sources::Blocklist;

verus! {

/// The credentials record of a run's configuration: the list owner's account
/// and an optional application password, absent when the environment
/// supplies one instead.
pub struct BskyLogin {
    pub handle: AccountRef,
    pub app_password: Option<String>,
}

/// A whole run's configuration: the authenticated account and the lists to
/// maintain, each with its declarative specification.
pub struct EarmuffsConfig {
    pub auth: BskyLogin,
    pub lists: Vec<Blocklist>,
}

} // verus!
