//! Roles and the checks that gate the ticket API.
use vstd::prelude::*;

verus! {

/// The body of a login request.
pub struct UserLogin {
    pub user: String,
}

/// A signed session token.
pub struct Token {
    pub token: String,
}

/// A login request; the payload is an encrypted `UserLogin`.
pub enum AuthRequest {
    Munge(String),
}

#[derive(Debug, Clone, Copy, PartialEq, Eq, Structural)]
pub enum Role {
    Admin,
    Guest,
}

/// The claims of a session token: who, in which role, until when (seconds since the
/// epoch).
pub struct RoleGuard {
    pub role: Role,
    pub user: String,
    pub exp: usize,
}

impl RoleGuard {
    /// Claims for `user` in `role` that expire at `exp` seconds since the epoch; a time
    /// before the epoch counts as the epoch, one past `usize` as its largest value.
    pub fn new(role: Role, user: String, exp: i64) -> (r: Self)
        ensures
            r.role == role,
            r.user@ == user@,
            0 <= exp <= usize::MAX ==> r.exp == exp,
            exp > usize::MAX ==> r.exp == usize::MAX,
            exp < 0 ==> r.exp == 0,
    {
        let e: usize = if exp < 0 {
            0
        } else if exp as u64 > usize::MAX as u64 {
            usize::MAX
        } else {
            exp as usize
        };
        Self { role, user, exp: e }
    }
}

/// Lets through the requests made in one role.
pub struct RoleChecker {
    pub role: Role,
}

/// Why a request was refused.
#[derive(Debug, Clone, Copy, PartialEq, Eq, Structural)]
pub enum GuardError {
    /// The request carries no claims.
    NoRole,
    /// The claims are for another role.
    InsufficientPermission,
}

impl RoleChecker {
    pub fn new(role: Role) -> (r: Self)
        ensures
            r.role == role,
    {
        Self { role }
    }

    /// Accepts the claims `guard` if they are for this checker's role.
    pub fn check(&self, guard: Option<&RoleGuard>) -> (r: Result<(), GuardError>)
        ensures
            guard is None ==> r == Err::<(), GuardError>(GuardError::NoRole),
            guard matches Some(g) && g.role == self.role ==> r is Ok,
            guard matches Some(g) && g.role != self.role ==> r == Err::<(), GuardError>(
                GuardError::InsufficientPermission,
            ),
    {
        match guard {
            None => Err(GuardError::NoRole),
            Some(g) => if g.role == self.role {
                Ok(())
            } else {
                Err(GuardError::InsufficientPermission)
            },
        }
    }
}

} // verus!
