use vstd::prelude::*;

verus! {

/// What a verified token carries: the caller and when the token
/// expires, in seconds since the epoch.
pub struct Claims {
    pub username: String,
    pub name: String,
    pub exp: usize,
}

/// Outcome of checking the request's token header, as the decode step
/// reports it: no header at all, a verified token, or one of the decode
/// failures the API distinguishes.
#[derive(Debug, PartialEq, Eq, Structural, Clone, Copy)]
pub enum TokenCheck {
    Missing,
    Valid,
    Invalid,
    Expired,
    OtherError,
}

/// A request passes the token gate exactly when its token verified.
pub fn auth_passes(t: &TokenCheck) -> (r: bool)
    ensures
        r == (t is Valid),
{
    matches!(t, TokenCheck::Valid)
}

/// The read API's error string for each failed token check, and nothing
/// for a verified token. Every failure is answered with HTTP 401.
pub fn auth_error_message(t: &TokenCheck) -> (r: Option<String>)
    ensures
        match t {
            TokenCheck::Valid => r is None,
            TokenCheck::Missing => r matches Option::Some(s) && s@ == "Token not included"@,
            TokenCheck::Invalid => r matches Option::Some(s) && s@ == "Invalid token included"@,
            TokenCheck::Expired => r matches Option::Some(s) && s@ == "Token expired"@,
            TokenCheck::OtherError => r matches Option::Some(s) && s@ == "Unauthorized"@,
        },
{
    match t {
        TokenCheck::Valid => Option::None,
        TokenCheck::Missing => Option::Some("Token not included".to_owned()),
        TokenCheck::Invalid => Option::Some("Invalid token included".to_owned()),
        TokenCheck::Expired => Option::Some("Token expired".to_owned()),
        TokenCheck::OtherError => Option::Some("Unauthorized".to_owned()),
    }
}

} // verus!
