use traffic_dvr::admin::hash_password;
use traffic_dvr::auth::{
    admin_user, admission, auth_user, bearer_token, claims_at, grant_role, is_admin_role,
    issue_claims, login_role, AuthRejection,
};
use traffic_dvr::models::UserClaims;

fn claims(role: &str) -> UserClaims {
    UserClaims { sub: "alice".into(), role: role.into(), exp: 10 }
}

#[test]
fn bearer_token_extraction() {
    assert_eq!(bearer_token(Some("Bearer abc.def")), Ok("abc.def".to_string()));
    assert_eq!(bearer_token(Some("Bearer ")), Ok(String::new()));
    assert_eq!(bearer_token(Some("bearer abc")), Err(AuthRejection::InvalidFormat));
    assert_eq!(bearer_token(Some("Basic x")), Err(AuthRejection::InvalidFormat));
    assert_eq!(bearer_token(None), Err(AuthRejection::MissingHeader));
}

#[test]
fn rejections_answer_status_and_message() {
    assert_eq!(AuthRejection::MissingHeader.status(), 401);
    assert_eq!(AuthRejection::MissingHeader.message(), "Missing authorization header");
    assert_eq!(AuthRejection::InvalidFormat.status(), 401);
    assert_eq!(AuthRejection::InvalidFormat.message(), "Invalid authorization format");
    assert_eq!(AuthRejection::InvalidToken.status(), 401);
    assert_eq!(AuthRejection::InvalidToken.message(), "Invalid or expired token");
    assert_eq!(AuthRejection::AdminRequired.status(), 403);
    assert_eq!(AuthRejection::AdminRequired.message(), "Admin access required");
}

#[test]
fn admission_by_role() {
    assert_eq!(admission(None, false).unwrap_err(), AuthRejection::InvalidToken);
    assert_eq!(admission(Some(claims("user")), false).unwrap().role, "user");
    assert_eq!(admission(Some(claims("user")), true).unwrap_err(), AuthRejection::AdminRequired);
    assert_eq!(admission(Some(claims("admin")), true).unwrap().sub, "alice");
    assert!(auth_user(Some(claims("viewer"))).is_ok());
    assert!(admin_user(Some(claims("viewer"))).is_err());
    assert_eq!(admin_user(Some(claims("admin"))).ok().unwrap().0.role, "admin");
    assert!(is_admin_role("admin"));
    assert!(!is_admin_role("Admin"));
}

#[test]
fn session_claims_last_72_hours() {
    let c = claims_at("bob", "user", 1_000_000).unwrap();
    assert_eq!(c.sub, "bob");
    assert_eq!(c.role, "user");
    assert_eq!(c.exp, 1_000_000 + 259_200);
    assert!(claims_at("bob", "user", 8_210_266_876_799).is_none());
    assert!(claims_at("bob", "user", 8_210_266_876_799 - 259_200).is_some());
    let now = std::time::SystemTime::now().duration_since(std::time::UNIX_EPOCH).unwrap().as_secs() as usize;
    let c = issue_claims("carol", "admin").unwrap();
    assert!(c.exp >= now + 259_200 - 5 && c.exp <= now + 259_200 + 5);
}

#[test]
fn login_checks_password_against_hash() {
    let hash = hash_password("right").unwrap();
    assert_eq!(login_role(Some((hash.as_str(), "admin")), "right"), Some("admin".to_string()));
    assert_eq!(login_role(Some((hash.as_str(), "admin")), "wrong"), None);
    assert_eq!(login_role(Some(("not a hash", "admin")), "right"), None);
    assert_eq!(login_role(None, "right"), None);
    assert_eq!(grant_role("user", Some(true)), Some("user".to_string()));
    assert_eq!(grant_role("user", Some(false)), None);
    assert_eq!(grant_role("user", None), None);
}

#[test]
fn bearer_header_reads_back_its_token() {
    for token in ["", "a", "eyJhbGciOi.x.y", "Bearer nested", " spaced "] {
        let header = format!("Bearer {}", token);
        assert_eq!(bearer_token(Some(&header)), Ok(token.to_string()));
    }
}

#[test]
fn admin_routes_admit_signed_in_admins_only() {
    for role in [None, Some("admin"), Some("user"), Some("")] {
        let signed_in = admission(role.map(claims), false);
        let admin = admission(role.map(claims), true);
        match signed_in {
            Ok(u) if u.role == "admin" => assert_eq!(admin.unwrap().role, "admin"),
            Ok(_) => assert_eq!(admin.unwrap_err(), AuthRejection::AdminRequired),
            Err(e) => assert_eq!(admin.unwrap_err(), e),
        }
    }
}

#[test]
fn created_user_can_log_in() {
    let body = traffic_dvr::models::CreateUser { username: "dora".into(), password: "s3cret 'quoted'".into(), role: None };
    let (hash, role) = traffic_dvr::admin::plan_new_user(&body).unwrap();
    assert_eq!(role, "user");
    assert_eq!(login_role(Some((hash.as_str(), role.as_str())), "s3cret 'quoted'"), Some("user".to_string()));
    assert_eq!(login_role(Some((hash.as_str(), role.as_str())), "s3cret"), None);
}
