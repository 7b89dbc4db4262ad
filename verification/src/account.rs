//! The rules that a new account must meet before the server is asked for it.

use vstd::prelude::*;
use vstd::string::*;
use vstd::utf8::*;

verus! {

/// The shortest user name, in bytes.
pub const MIN_USERNAME: usize = 3;

/// The longest user name, in bytes.
pub const MAX_USERNAME: usize = 32;

/// The shortest password, in bytes.
pub const MIN_PASSWORD: usize = 8;

/// Why an account cannot be asked for.
#[derive(Debug, Clone, Copy, PartialEq, Eq, Structural)]
pub enum SignupError {
    /// The user name is shorter than three bytes or longer than thirty-two.
    UsernameLength,
    /// The password is shorter than eight bytes.
    PasswordLength,
    /// The password and its repetition differ.
    Mismatch,
}

impl SignupError {
    /// What the user is told.
    pub fn message(&self) -> (text: &'static str)
        ensures
            text@ == match *self {
                SignupError::UsernameLength => "Username must be 3-32 characters"@,
                SignupError::PasswordLength => "Password must be at least 8 characters"@,
                SignupError::Mismatch => "Passwords do not match"@,
            },
    {
        match self {
            SignupError::UsernameLength => "Username must be 3-32 characters",
            SignupError::PasswordLength => "Password must be at least 8 characters",
            SignupError::Mismatch => "Passwords do not match",
        }
    }
}

/// Whether a user name has an admissible length.
pub open spec fn username_ok(username: Seq<char>) -> bool {
    MIN_USERNAME <= encode_utf8(username).len() <= MAX_USERNAME
}

/// Whether a password is long enough.
pub open spec fn password_ok(password: Seq<char>) -> bool {
    encode_utf8(password).len() >= MIN_PASSWORD
}

/// The first rule that the entries break, if any: the length of the name is
/// looked at first, then that of the password, then the repetition.
pub open spec fn signup_fault(username: Seq<char>, password: Seq<char>, repeated: Seq<char>)
    -> Option<SignupError> {
    if !username_ok(username) {
        Some(SignupError::UsernameLength)
    } else if !password_ok(password) {
        Some(SignupError::PasswordLength)
    } else if password != repeated {
        Some(SignupError::Mismatch)
    } else {
        None
    }
}

/// Whether the user name has an admissible length.
pub fn check_username(username: &str) -> (ok: bool)
    ensures
        ok == username_ok(username@),
{
    let n = username.as_bytes().len();
    MIN_USERNAME <= n && n <= MAX_USERNAME
}

/// Whether the password is long enough.
pub fn check_password(password: &str) -> (ok: bool)
    ensures
        ok == password_ok(password@),
{
    password.as_bytes().len() >= MIN_PASSWORD
}

/// Holds the entries for a new account against the rules.
pub fn check_signup(username: &str, password: &str, repeated: &str) -> (checked: Result<
    (),
    SignupError,
>)
    ensures
        match checked {
            Ok(()) => signup_fault(username@, password@, repeated@) is None,
            Err(e) => signup_fault(username@, password@, repeated@) == Some(e),
        },
{
    if !check_username(username) {
        Err(SignupError::UsernameLength)
    } else if !check_password(password) {
        Err(SignupError::PasswordLength)
    } else if !crate::text::str_eq(password, repeated) {
        Err(SignupError::Mismatch)
    } else {
        Ok(())
    }
}

} // verus!
