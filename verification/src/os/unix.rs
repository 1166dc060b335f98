use vstd::prelude::*;

verus! {

/// Calls `nix::unistd::geteuid` and hands back the raw id. Nothing is claimed
/// of the id: it is the running process's effective user, which the
/// environment decides.
#[verifier::external_body]
fn effective_uid() -> (uid: u32) {
    nix::unistd::geteuid().as_raw()
}

/// Calls `nix::unistd::Uid::is_root` on the user id `uid`; claimed: the answer
/// is whether `uid` is 0, the id of `nix::unistd::ROOT`.
#[verifier::external_body]
fn uid_is_root(uid: u32) -> (is_root: bool)
    ensures
        is_root == (uid == 0),
{
    nix::unistd::Uid::from_raw(uid).is_root()
}

/// Whether the user id `uid` is the administrator's (root).
pub fn is_admin_uid(uid: u32) -> (admin: bool)
    ensures
        admin == (uid == 0),
{
    uid_is_root(uid)
}

/// Whether the process runs as the administrator (root).
pub fn is_user_admin() -> (admin: bool) {
    is_admin_uid(effective_uid())
}

} // verus!
