use ostp::server::api::{
    asset_file, asset_path, base_path, names_mode, saved_keys, users_text, uuid_with, with_saved_rules, with_saved_users, ApiConfig, ApiError, ApiState, BulkCreateRequest, CreateAuditLogRequest,
    CreateUserRequest, LoginRequest, SaveError, SavedKey, SetLimitRequest, SubscribeReply, UpdateUserRequest,
};
use ostp::server::outbound::{OutboundAction, OutboundConfig};
use ostp::server::startup::key_table;
use ostp::server::users::{UserMeta, Users};

fn config(webpath: &str) -> ApiConfig {
    ApiConfig {
        enabled: true,
        bind: "127.0.0.1:9090".to_string(),
        token: Some("test-token".to_string()),
        webpath: webpath.to_string(),
        username: "admin".to_string(),
        password_hash: "5e884898da28047151d0e56f8dc6292773603d0d6aabbdd62a11ef721d1542d8".to_string(),
    }
}

fn state() -> ApiState {
    ApiState::new(config(""), "127.0.0.1".to_string(), 50000)
}

fn users() -> Users {
    Users::new(
        key_table(vec![
            ("a".to_string(), UserMeta { name: Some("alice".into()), limit_bytes: Some(100) }),
            ("b".to_string(), UserMeta { name: None, limit_bytes: None }),
        ]),
        1,
    )
}

const TOKEN: Option<&str> = Some("Bearer test-token");

#[test]
fn test_router_creation() {
    assert_eq!(base_path("bNAzr8Ss"), "/bNAzr8Ss");
    assert_eq!(base_path("/bNAzr8Ss/"), "/bNAzr8Ss");
}

#[test]
fn test_router_creation_empty_webpath() {
    assert_eq!(base_path(""), "/panel");
}

#[test]
fn files_of_the_interface_are_found() {
    assert_eq!(asset_path("", "/panel/"), "index.html");
    assert_eq!(asset_path("", "/panel/app.js"), "app.js");
    assert_eq!(asset_path("w", "/w/css/a.css"), "css/a.css");
    assert_eq!(asset_path("w", "/other"), "other");
    assert_eq!(asset_file("w", "/w/css/a..b.css").as_deref(), Some("css/a..b.css"));
    assert_eq!(asset_file("w", "/w").as_deref(), Some("index.html"));
    for outside in ["/w/../x", "/w/a/../../x", "/w/a\\..\\..\\x", "/w/\\x", "/w/c:x", "/w/.."] {
        assert_eq!(asset_file("w", outside), None, "{}", outside);
    }
}

#[test]
fn the_interface_asks_for_a_token() {
    let s = state();
    assert!(s.check_token(TOKEN));
    assert!(s.check_token(Some("test-token")));
    assert!(!s.check_token(Some("Bearer wrong")));
    assert!(!s.check_token(None));
    let open = ApiState::new(ApiConfig::default(), String::new(), 0);
    assert!(open.check_token(None));
}

#[test]
fn a_login_opens_a_session() {
    let mut s = state();
    let bad = LoginRequest { username: "admin".into(), password: Some("wrong".into()) };
    assert_eq!(s.login(&bad).unwrap_err(), ApiError::Unauthorized);
    let other = LoginRequest { username: "root".into(), password: Some("password".into()) };
    assert_eq!(s.login(&other).unwrap_err(), ApiError::Unauthorized);
    let good = LoginRequest { username: "admin".into(), password: Some("password".into()) };
    let token = s.login(&good).unwrap().token;
    assert_eq!(token.len(), 36);
    assert!(s.check_token(Some(&format!("Bearer {token}"))));
    assert!(!s.check_token(Some(&token)), "a session's token needs the word before it");
    let next = s.login(&good).unwrap().token;
    assert_ne!(token, next);
    assert!(!s.check_token(Some(&format!("Bearer {token}"))));
    let mut none = ApiState::new(ApiConfig::default(), String::new(), 0);
    assert_eq!(none.login(&good).unwrap_err(), ApiError::AuthNotConfigured);
}

#[test]
fn identifiers_are_version_four() {
    assert_eq!(uuid_with(&[0xff; 16]), "ffffffff-ffff-4fff-bfff-ffffffffffff");
    assert_eq!(uuid_with(&[0; 16]), "00000000-0000-4000-8000-000000000000");
}

#[test]
fn users_are_listed_by_what_they_received() {
    let s = state();
    let mut u = users();
    u.track_down(&"b".to_string(), 10, 1);
    let rows = s.list_users(TOKEN, &u).unwrap();
    assert_eq!(rows.len(), 2);
    assert_eq!(rows[0].access_key, "b");
    assert_eq!(rows[1].name.as_deref(), Some("alice"));
    assert_eq!(s.list_users(None, &u).unwrap_err(), ApiError::Unauthorized);
    let status = s.server_status(TOKEN, &u, 7).unwrap();
    assert_eq!((status.uptime_seconds, status.active_users, status.total_users), (7, 1, 2));
}

#[test]
fn users_are_created_changed_and_removed() {
    let s = state();
    let mut u = users();
    let named = CreateUserRequest { access_key: Some("c".into()), name: None, limit_bytes: Some(5) };
    assert_eq!(s.create_user(TOKEN, &mut u, named, 2).unwrap(), "c");
    let random = CreateUserRequest { access_key: None, name: None, limit_bytes: None };
    assert_eq!(s.create_user_with(TOKEN, &mut u, random, &[0xab; 16], 2).unwrap(), "ab".repeat(16));
    u.track_up(&"c".to_string(), 3, 2);
    s.update_user(TOKEN, &mut u, &"c".to_string(), UpdateUserRequest { name: Some("carol".into()), limit_bytes: Some(9) }, 3)
        .unwrap();
    let row = s.get_user(TOKEN, &u, &"c".to_string()).unwrap();
    assert_eq!((row.bytes_up, row.limit_bytes, row.name.as_deref()), (3, Some(9), Some("carol")));
    s.set_limit(TOKEN, &mut u, &"c".to_string(), SetLimitRequest { limit_bytes: None }, 3).unwrap();
    let row = s.get_user(TOKEN, &u, &"c".to_string()).unwrap();
    assert_eq!((row.limit_bytes, row.name.as_deref()), (None, Some("carol")));
    s.reset_stats(TOKEN, &mut u, &"c".to_string(), 4).unwrap();
    assert_eq!(s.get_user(TOKEN, &u, &"c".to_string()).unwrap().bytes_up, 0);
    s.delete_user(TOKEN, &mut u, &"c".to_string()).unwrap();
    assert_eq!(s.get_user(TOKEN, &u, &"c".to_string()).unwrap_err(), ApiError::UserNotFound);
    assert_eq!(s.delete_user(TOKEN, &mut u, &"c".to_string()).unwrap_err(), ApiError::NoSuchUser);
    let change = UpdateUserRequest { name: None, limit_bytes: None };
    assert_eq!(s.update_user(TOKEN, &mut u, &"c".to_string(), change, 5).unwrap_err(), ApiError::NoSuchUser);
    assert_eq!(ApiError::NoSuchUser.message(), "User not found");
    assert_eq!(ApiError::NoSuchUser.status(), 400);
    assert_eq!(s.delete_user(None, &mut u, &"a".to_string()).unwrap_err(), ApiError::Unauthorized);
    assert!(u.knows(&"a".to_string()));
}

#[test]
fn many_users_are_created_at_once() {
    let s = state();
    let mut u = users();
    let keys = s.bulk_create(TOKEN, &mut u, &BulkCreateRequest { count: 3, limit_bytes: Some(1) }).unwrap();
    assert_eq!(keys.len(), 3);
    assert!(keys.iter().all(|k| k.len() == 16 && u.knows(k)));
    let many = BulkCreateRequest { count: 1001, limit_bytes: None };
    assert_eq!(s.bulk_create(TOKEN, &mut u, &many).unwrap_err(), ApiError::CountTooLarge);
    let exact = s.bulk_create_with(TOKEN, &mut u, &BulkCreateRequest { count: 1, limit_bytes: None }, &[0xff; 16]).unwrap();
    assert_eq!(exact, vec!["ffffffffffff4fff".to_string()]);
}

#[test]
fn the_configuration_keeps_what_is_known() {
    let saved = saved_keys(&users());
    assert!(matches!(&saved[0], SavedKey::Full { access_key, name, limit_bytes: Some(100) }
        if access_key == "a" && name.as_deref() == Some("alice")));
    assert!(matches!(&saved[1], SavedKey::Plain(k) if k == "b"));
}

#[test]
fn the_audit_log_keeps_the_newest() {
    let mut s = state();
    for i in 0..150 {
        let req = CreateAuditLogRequest { event_en: format!("e{i}"), event_ru: String::new(), success: true };
        s.create_audit(req, format!("{i}"), "12:00:00".to_string());
    }
    assert_eq!(s.audit_logs.len(), 100);
    assert_eq!(s.audit_logs[0].event_en, "e149");
    assert_eq!(s.audit_logs[99].event_en, "e50");
    s.clear_audit();
    assert!(s.audit_logs.is_empty());
}

#[test]
fn clients_fetch_their_settings() {
    let s = state();
    let u = users();
    assert!(matches!(s.subscribe(&u, &"x".to_string(), None, false), SubscribeReply::NotFound));
    assert!(matches!(s.subscribe(&u, &"a".to_string(), None, false), SubscribeReply::Config(ref c)
        if c.server == "127.0.0.1:50000" && c.access_key == "a" && c.mode == "client" && c.socks5_bind == "127.0.0.1:1088"
            && c.tun_dns == "1.1.1.1" && !c.tun_enable && c.mux_sessions == 1 && !c.mux_enabled && !c.debug));
    assert!(matches!(s.subscribe(&u, &"a".to_string(), Some("text/plain"), true), SubscribeReply::Link(ref l)
        if l == "ostp://a@127.0.0.1:50000?type=udp&owndns=true"));
}

#[test]
fn rules_need_a_proxy() {
    let s = state();
    let mut none = None;
    assert_eq!(s.put_rules(TOKEN, &mut none, vec![]).unwrap_err(), ApiError::RoutingNotEnabled);
    assert!(s.get_rules(TOKEN, &none).unwrap().is_none());
    let mut some = Some(OutboundConfig {
        enabled: true,
        protocol: "socks5".into(),
        address: "127.0.0.1".into(),
        port: 1,
        username: String::new(),
        password: String::new(),
        rules: vec![],
        default_action: OutboundAction::Direct,
    });
    assert!(s.put_rules(TOKEN, &mut some, vec![]).is_ok());
    assert_eq!(s.put_rules(None, &mut some, vec![]).unwrap_err(), ApiError::Unauthorized);
    assert_eq!(s.get_config(TOKEN, false).unwrap_err(), ApiError::NoConfigPath);
    assert_eq!(s.put_config(TOKEN, true, "{\"a\":1}").unwrap_err(), ApiError::MissingMode);
    assert_eq!(s.put_config(TOKEN, true, "[\"mode\"]").unwrap_err(), ApiError::MissingMode);
    assert_eq!(s.put_config(None, true, "{\"mode\":null}").unwrap_err(), ApiError::Unauthorized);
    assert_eq!(s.put_config(TOKEN, true, "{\"mode\":\"server\"}").unwrap(), "{\n  \"mode\": \"server\"\n}");
    assert!(names_mode(&Some(vec![("mode".to_string(), "1".to_string())])));
    assert!(!names_mode(&None));
    assert_eq!(ApiError::Unauthorized.status(), 401);
    assert_eq!(ApiError::CountTooLarge.message(), "Count too large, max 1000");
}

fn read(text: &str) -> serde_json::Value {
    serde_json::from_str(text).unwrap()
}

#[test]
fn users_are_saved_beside_the_other_settings() {
    assert_eq!(users_text(&users()), "[{\"access_key\":\"a\",\"name\":\"alice\",\"limit_bytes\":100},\"b\"]");
    let file = "{ // the server\n \"mode\": \"server\", \"access_keys\": [\"old\"], \"listen\": {\"port\": [1, 2]} }";
    let saved = read(&with_saved_users(file, &users()).unwrap());
    let wanted = "{\"mode\":\"server\",\"listen\":{\"port\":[1,2]},\"access_keys\":[{\"access_key\":\"a\",\"name\":\"alice\",\"limit_bytes\":100},\"b\"]}";
    assert_eq!(saved, read(wanted));
    let added = read(&with_saved_users("{\"mode\":\"server\"}", &users()).unwrap());
    assert_eq!(added["access_keys"][1], "b");
    assert_eq!(added["mode"], "server");
}

#[test]
fn users_are_not_saved_in_what_is_no_configuration() {
    assert_eq!(with_saved_users("{", &users()).unwrap_err(), SaveError::NotJson);
    assert_eq!(with_saved_users("[1]", &users()).unwrap_err(), SaveError::NotAnObject);
    assert_eq!(with_saved_users("{} /* never closed", &users()).unwrap_err(), SaveError::Comments);
}

#[test]
fn rules_are_saved_beside_the_other_settings() {
    let file = "{\"mode\":\"server\",\"outbound\":{\"enabled\":true,\"rules\":[],\"port\":1080}}";
    let rules = "[{\"domain_suffix\":[\"ru\"],\"action\":\"direct\"}]";
    let saved = read(&with_saved_rules(file, rules));
    assert_eq!(saved["outbound"]["rules"], read(rules));
    assert_eq!(saved["outbound"]["port"], 1080);
    assert_eq!(saved["outbound"]["enabled"], true);
    assert_eq!(saved["mode"], "server");
    assert_eq!(read(&with_saved_rules("{\"mode\":\"server\"}", rules)), read("{\"mode\":\"server\"}"));
    assert_eq!(read(&with_saved_rules("{\"outbound\":7}", rules)), read("{\"outbound\":7}"));
    assert_eq!(with_saved_rules("{ // no comments here\n}", rules), "null");
}
