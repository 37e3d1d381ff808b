use traffic_dvr::admin::{
    generate_stream_key, hash_password, may_delete_user, plan_camera_update, plan_new_camera,
    plan_new_user, plan_user_update, rtmp_port, update_sql, camera_update_sets,
};
use traffic_dvr::models::{CreateCamera, CreateUser, UpdateCamera, UpdateUser};

fn is_key(k: &str) -> bool {
    let c: Vec<char> = k.chars().collect();
    c.len() == 32
        && c.iter().all(|c| c.is_ascii_digit() || ('a'..='f').contains(c))
        && c[12] == '4'
        && "89ab".contains(c[16])
}

fn no_change() -> UpdateCamera {
    UpdateCamera { name: None, location: None, source_type: None, stream_url: None, rewind_hours: None, recording: None }
}

#[test]
fn stream_keys_are_hex() {
    let a = generate_stream_key();
    let b = generate_stream_key();
    assert!(is_key(&a), "{}", a);
    assert!(is_key(&b), "{}", b);
    assert_ne!(a, b);
    assert!(!a.contains('-'));
}

#[test]
fn new_camera_defaults() {
    let body = CreateCamera { name: "Gate".into(), location: None, source_type: "hls".into(), stream_url: Some("http://x/a.m3u8".into()), rewind_hours: None };
    let plan = plan_new_camera(&body);
    assert_eq!(plan.rewind_hours, 24);
    assert!(plan.stream_key.is_none());
    let body = CreateCamera { name: "Dock".into(), location: None, source_type: "stream_key".into(), stream_url: None, rewind_hours: Some(6) };
    let plan = plan_new_camera(&body);
    assert_eq!(plan.rewind_hours, 6);
    assert!(is_key(plan.stream_key.as_deref().unwrap()));
}

#[test]
fn camera_update_escapes_values() {
    let body = UpdateCamera {
        name: Some("Bob's cam".into()),
        location: Some("North".into()),
        source_type: Some("hls".into()),
        stream_url: Some("http://h/'x'".into()),
        rewind_hours: Some(-3),
        recording: Some(false),
    };
    let plan = plan_camera_update(42, &body).unwrap();
    assert_eq!(
        plan.sql,
        "UPDATE cameras SET name = 'Bob''s cam', location = 'North', source_type = 'hls', stream_url = 'http://h/''x''', rewind_hours = -3, recording = 0 WHERE id = 42"
    );
    assert!(plan.new_stream_key.is_none());
}

#[test]
fn camera_update_to_stream_key_adds_key() {
    let body = UpdateCamera { source_type: Some("stream_key".into()), recording: Some(true), ..no_change() };
    let plan = plan_camera_update(7, &body).unwrap();
    let key = plan.new_stream_key.clone().unwrap();
    assert!(is_key(&key));
    assert_eq!(
        plan.sql,
        format!("UPDATE cameras SET source_type = 'stream_key', stream_key = '{}', recording = 1 WHERE id = 7", key)
    );
}

#[test]
fn camera_update_without_fields_is_refused() {
    assert!(plan_camera_update(1, &no_change()).is_none());
}

#[test]
fn camera_sets_and_statement() {
    let body = UpdateCamera { rewind_hours: Some(48), ..no_change() };
    let sets = camera_update_sets(&body, "k");
    assert_eq!(sets, vec!["rewind_hours = 48".to_string()]);
    assert_eq!(update_sql("cameras", &sets, -5), "UPDATE cameras SET rewind_hours = 48 WHERE id = -5");
}

#[test]
fn user_update_hashes_password() {
    let body = UpdateUser { password: Some("s3cret".into()), role: Some("ad'min".into()) };
    let sql = plan_user_update(3, &body).unwrap();
    assert!(sql.starts_with("UPDATE users SET password_hash = '$2b$10$"));
    assert!(sql.ends_with("', role = 'ad''min' WHERE id = 3"));
    let hash = &sql["UPDATE users SET password_hash = '".len()..sql.find("', role").unwrap()];
    assert_eq!(hash.len(), 60);
    assert!(bcrypt::verify("s3cret", hash).unwrap());
    assert_eq!(
        plan_user_update(4, &UpdateUser { password: None, role: Some("user".into()) }),
        Some("UPDATE users SET role = 'user' WHERE id = 4".to_string())
    );
    assert_eq!(plan_user_update(4, &UpdateUser { password: None, role: None }), None);
}

#[test]
fn new_user_role_defaults_to_user() {
    let (hash, role) = plan_new_user(&CreateUser { username: "u".into(), password: "pw".into(), role: None }).unwrap();
    assert_eq!(role, "user");
    assert!(hash.starts_with("$2b$10$"));
    assert_ne!(hash, "pw");
    let (_, role) = plan_new_user(&CreateUser { username: "a".into(), password: "pw".into(), role: Some("admin".into()) }).unwrap();
    assert_eq!(role, "admin");
}

#[test]
fn hash_password_is_bcrypt() {
    let h = hash_password("admin").unwrap();
    assert_eq!(h.len(), 60);
    assert!(h.starts_with("$2b$10$"));
    assert!(bcrypt::verify("admin", &h).unwrap());
}

#[test]
fn last_admin_cannot_be_deleted() {
    assert!(!may_delete_user(Some("admin"), 1));
    assert!(!may_delete_user(Some("admin"), 0));
    assert!(may_delete_user(Some("admin"), 2));
    assert!(may_delete_user(Some("user"), 1));
    assert!(may_delete_user(None, 0));
}

#[test]
fn rtmp_port_setting() {
    assert_eq!(rtmp_port(Some("1936")), 1936);
    assert_eq!(rtmp_port(Some("+1937")), 1937);
    assert_eq!(rtmp_port(Some("70000")), 1935);
    assert_eq!(rtmp_port(Some("abc")), 1935);
    assert_eq!(rtmp_port(None), 1935);
}
