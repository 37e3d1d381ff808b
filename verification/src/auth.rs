//! Who may call what: bearer tokens, roles, session claims and password checks.
use vstd::prelude::*;
use crate::clock::{latest_timestamp, now_timestamp};
use crate::models::UserClaims;
use crate::text::{chars_equal, chars_of, starts_with, string_of};

verus! {

broadcast use vstd::seq_lib::group_seq_properties;

/// A caller whose bearer token was valid.
pub struct AuthUser(pub UserClaims);

/// A caller whose bearer token was valid and whose role is `admin`.
pub struct AdminUser(pub UserClaims);

/// Why a request is turned away before it reaches its handler.
#[derive(Debug, Clone, Copy, PartialEq, Eq)]
pub enum AuthRejection {
    /// No `Authorization` header (or one that is not visible ASCII).
    MissingHeader,
    /// The header does not begin with `Bearer `.
    InvalidFormat,
    /// The token does not validate.
    InvalidToken,
    /// The caller is not an administrator.
    AdminRequired,
}

/// The HTTP status of a rejection.
pub open spec fn rejection_status(r: AuthRejection) -> u16 {
    match r {
        AuthRejection::AdminRequired => 403,
        _ => 401,
    }
}

/// The error message of a rejection.
pub open spec fn rejection_message(r: AuthRejection) -> Seq<char> {
    match r {
        AuthRejection::MissingHeader => "Missing authorization header"@,
        AuthRejection::InvalidFormat => "Invalid authorization format"@,
        AuthRejection::InvalidToken => "Invalid or expired token"@,
        AuthRejection::AdminRequired => "Admin access required"@,
    }
}

impl AuthRejection {
    /// HTTP status answered: 403 for a non-administrator, 401 otherwise.
    pub fn status(&self) -> (s: u16)
        ensures
            s == rejection_status(*self),
    {
        match self {
            AuthRejection::AdminRequired => 403,
            _ => 401,
        }
    }

    /// Error message answered.
    pub fn message(&self) -> (m: String)
        ensures
            m@ == rejection_message(*self),
    {
        match self {
            AuthRejection::MissingHeader => string_of("Missing authorization header"),
            AuthRejection::InvalidFormat => string_of("Invalid authorization format"),
            AuthRejection::InvalidToken => string_of("Invalid or expired token"),
            AuthRejection::AdminRequired => string_of("Admin access required"),
        }
    }
}

/// The token carried by an `Authorization` header: what follows `Bearer `.
pub open spec fn bearer_spec(header: Option<Seq<char>>) -> Result<Seq<char>, AuthRejection> {
    match header {
        None => Err(AuthRejection::MissingHeader),
        Some(h) => if "Bearer "@.is_prefix_of(h) {
            Ok(h.skip("Bearer "@.len() as int))
        } else {
            Err(AuthRejection::InvalidFormat)
        },
    }
}

/// The token carried by an `Authorization` header value (`None` when the request has none).
pub fn bearer_token(header: Option<&str>) -> (r: Result<String, AuthRejection>)
    ensures
        match (r, bearer_spec(match header {
            Some(h) => Some(h@),
            None => None,
        })) {
            (Ok(t), Ok(u)) => t@ == u,
            (Err(e), Err(f)) => e == f,
            _ => false,
        },
{
    match header {
        None => Err(AuthRejection::MissingHeader),
        Some(h) => {
            let v = chars_of(h);
            let prefix = chars_of("Bearer ");
            if !starts_with(&v, &prefix) {
                return Err(AuthRejection::InvalidFormat);
            }
            let mut t = String::new();
            let n = prefix.len();
            for i in n..v.len()
                invariant
                    v@ == h@,
                    n == prefix@.len(),
                    n <= v@.len(),
                    t@ == v@.subrange(n as int, i as int),
            {
                crate::text::push_char(&mut t, v[i]);
                assert(t@ =~= v@.subrange(n as int, i + 1));
            }
            assert(t@ =~= v@.skip(n as int));
            Ok(t)
        },
    }
}

/// Who a validated token admits: anyone for a signed-in route, only role `admin` for an
/// administrative one.
pub open spec fn admission_spec(claims: Option<UserClaims>, admin_only: bool) -> Result<UserClaims, AuthRejection> {
    match claims {
        None => Err(AuthRejection::InvalidToken),
        Some(c) => if admin_only && c.role@ != "admin"@ {
            Err(AuthRejection::AdminRequired)
        } else {
            Ok(c)
        },
    }
}

/// Whether a role is the administrator role.
pub fn is_admin_role(role: &str) -> (r: bool)
    ensures
        r == (role@ == "admin"@),
{
    chars_equal(&chars_of(role), &chars_of("admin"))
}

/// Admits a caller from the claims of its token (`None` when the token did not validate).
pub fn admission(claims: Option<UserClaims>, admin_only: bool) -> (r: Result<UserClaims, AuthRejection>)
    ensures
        r == admission_spec(claims, admin_only),
{
    match claims {
        None => Err(AuthRejection::InvalidToken),
        Some(c) => {
            if admin_only && !is_admin_role(c.role.as_str()) {
                Err(AuthRejection::AdminRequired)
            } else {
                Ok(c)
            }
        },
    }
}

/// A signed-in caller from the claims of its token.
pub fn auth_user(claims: Option<UserClaims>) -> (r: Result<AuthUser, AuthRejection>)
    ensures
        match (r, admission_spec(claims, false)) {
            (Ok(u), Ok(c)) => u.0 == c,
            (Err(e), Err(f)) => e == f,
            _ => false,
        },
{
    match admission(claims, false) {
        Ok(c) => Ok(AuthUser(c)),
        Err(e) => Err(e),
    }
}

/// An administrator from the claims of its token.
pub fn admin_user(claims: Option<UserClaims>) -> (r: Result<AdminUser, AuthRejection>)
    ensures
        match (r, admission_spec(claims, true)) {
            (Ok(u), Ok(c)) => u.0 == c,
            (Err(e), Err(f)) => e == f,
            _ => false,
        },
{
    match admission(claims, true) {
        Ok(c) => Ok(AdminUser(c)),
        Err(e) => Err(e),
    }
}

/// Bearer law: the token of a header `Bearer <token>` is read back as it was written.
pub proof fn lemma_bearer_reads_back(token: Seq<char>)
    ensures
        bearer_spec(Some("Bearer "@ + token)) == Ok::<Seq<char>, AuthRejection>(token),
{
    let h = "Bearer "@ + token;
    assert("Bearer "@.is_prefix_of(h)) by {
        assert(h.subrange(0, "Bearer "@.len() as int) =~= "Bearer "@);
    }
    assert(h.skip("Bearer "@.len() as int) =~= token);
}

/// Administrator law: an administrative route admits exactly the callers that a signed-in
/// route admits and whose role is `admin`; a caller that a signed-in route turns away is
/// turned away for the same reason, and a signed-in caller of another role is told that
/// administrator access is required.
pub proof fn lemma_admin_admission(claims: Option<UserClaims>)
    ensures
        admission_spec(claims, true) matches Ok(c) ==> admission_spec(claims, false) == Ok::<
            UserClaims,
            AuthRejection,
        >(c) && c.role@ == "admin"@,
        admission_spec(claims, false) matches Ok(c) ==> admission_spec(claims, true) == if c.role@
            == "admin"@ {
            Ok::<UserClaims, AuthRejection>(c)
        } else {
            Err(AuthRejection::AdminRequired)
        },
        admission_spec(claims, false) matches Err(e) ==> admission_spec(claims, true) == Err::<
            UserClaims,
            AuthRejection,
        >(e),
{
}

/// How long a session token stays valid: 72 hours, in seconds.
pub open spec fn session_seconds() -> int {
    259200
}

/// The claims of a session for `username` with `role` started at Unix time `now`, or `None`
/// where `now + 72h` falls beyond what chrono's `DateTime<Utc>` can hold.
pub open spec fn claims_spec(username: Seq<char>, role: Seq<char>, now: i64, c: Option<UserClaims>) -> bool {
    if now + session_seconds() <= latest_timestamp() {
        c matches Some(cl) && cl.sub@ == username && cl.role@ == role && cl.exp == ((now + session_seconds()) as i64) as usize
    } else {
        c is None
    }
}

/// The claims of a session for `username` with `role` started at Unix time `now`: valid
/// for 72 hours.
pub fn claims_at(username: &str, role: &str, now: i64) -> (c: Option<UserClaims>)
    requires
        now <= latest_timestamp(),
    ensures
        claims_spec(username@, role@, now, c),
{
    if now > 8210266876799 - 259200 {
        return None;
    }
    let exp: i64 = now + 259200;
    Some(UserClaims { sub: string_of(username), role: string_of(role), exp: exp as usize })
}

/// The claims of a session for `username` with `role` starting now.
pub fn issue_claims(username: &str, role: &str) -> (c: Option<UserClaims>)
    ensures
        exists|now: i64| 0 <= now <= latest_timestamp() && #[trigger] claims_spec(username@, role@, now, c),
{
    let now = now_timestamp();
    claims_at(username, role, now)
}

/// What `bcrypt::verify(password, hash)` gives for a password and a stored hash: whether
/// the password hashes, with the salt and cost recorded in `hash`, to the recorded digest
/// (`None` when `hash` is not a well-formed bcrypt hash).
pub uninterp spec fn bcrypt_verdict(password: Seq<char>, hash: Seq<char>) -> Option<bool>;

/// `bcrypt::verify(password, hash)`, its error turned into `None`. The verdict is a
/// function of the password and the hash alone, named `bcrypt_verdict`; nothing more of it
/// is stated.
#[verifier::external_body]
fn bcrypt_verify(password: &str, hash: &str) -> (r: Option<bool>)
    ensures
        r == bcrypt_verdict(password@, hash@),
{
    match bcrypt::verify(password, hash) {
        Ok(b) => Some(b),
        Err(_) => None,
    }
}

/// The role a login is granted, given the stored role of the account and whether the
/// password matched the stored hash: the role when it did, nothing otherwise.
pub fn grant_role(stored_role: &str, verdict: Option<bool>) -> (r: Option<String>)
    ensures
        match verdict {
            Some(true) => r matches Some(g) && g@ == stored_role@,
            _ => r is None,
        },
{
    match verdict {
        Some(true) => Some(string_of(stored_role)),
        _ => None,
    }
}

/// The role a login with `password` is granted, given the stored hash and role of the
/// account (`None` when there is no such account): the stored role when bcrypt accepts the
/// password against the hash, nothing otherwise.
pub open spec fn login_grant(account: Option<(Seq<char>, Seq<char>)>, password: Seq<char>) -> Option<
    Seq<char>,
> {
    match account {
        Some((hash, role)) => if bcrypt_verdict(password, hash) == Some(true) {
            Some(role)
        } else {
            None
        },
        None => None,
    }
}

/// The role a login with `password` is granted, given the stored hash and role of the
/// account (`None` when there is no such account): the stored role when the password
/// matches the hash, nothing otherwise.
pub fn login_role(account: Option<(&str, &str)>, password: &str) -> (r: Option<String>)
    ensures
        (match r {
            Some(g) => Some(g@),
            None => None,
        }) == login_grant(
            match account {
                Some((hash, role)) => Some((hash@, role@)),
                None => None,
            },
            password@,
        ),
{
    match account {
        Some((hash, role)) => grant_role(role, bcrypt_verify(password, hash)),
        None => None,
    }
}

/// Login law: an account whose stored hash is one that `hash_password` makes of a password
/// (a bcrypt hash at the service's cost that bcrypt accepts the password against) admits a
/// login with that password, which is granted the account's role.
pub proof fn lemma_login_with_stored_password(password: Seq<char>, hash: Seq<char>, role: Seq<char>)
    requires
        crate::admin::bcrypt_hash_text(hash, crate::admin::PASSWORD_COST),
        bcrypt_verdict(password, hash) == Some(true),
    ensures
        login_grant(Some((hash, role)), password) == Some(role),
{
}

} // verus!
