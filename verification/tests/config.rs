use ostp::config::{config_text, config_value, ConfigError};
use ostp::json::{find_field, flag_field, set_field, text_field, truth_of};

#[test]
fn comments_in_a_configuration_are_blanked_out() {
    let text = "{\n  // the port\n  \"port\": 443, /* of\n the server */ # and\n  \"url\": \"http://x\"\n}";
    let plain = config_text(text).unwrap();
    let v: serde_json::Value = serde_json::from_str(&plain).unwrap();
    assert_eq!(v.get("port").unwrap().as_u64(), Some(443));
    assert_eq!(v.get("url").unwrap().as_str(), Some("http://x"));
    assert_eq!(config_text("{\"a\": 1}").as_deref(), Some("{\"a\": 1}"));
}

#[test]
fn malformed_comments_are_refused() {
    assert_eq!(config_text("{} /* never ends"), None);
    assert_eq!(config_text("{ / }"), None);
}

#[test]
fn a_configuration_is_read_as_json() {
    assert_eq!(config_value("{ \"a\": 1 /* one */ }").unwrap(), "{\n  \"a\": 1\n}");
    assert_eq!(config_value("{ \"a\": }").unwrap_err(), ConfigError::NotJson);
    assert_eq!(config_value("{} /* never closed").unwrap_err(), ConfigError::Comments);
}

#[test]
fn fields_of_an_object_are_read() {
    let text = "{\"name\":\"a\\\"b\",\"on\":true,\"off\":false,\"n\":1}";
    assert_eq!(text_field(text, "name").as_deref(), Some("a\"b"));
    assert_eq!(text_field(text, "n"), None);
    assert_eq!(text_field(text, "other"), None);
    assert_eq!(text_field("[1]", "name"), None);
    assert_eq!(flag_field(text, "on"), Some(true));
    assert_eq!(flag_field(text, "off"), Some(false));
    assert_eq!(flag_field(text, "n"), None);
    assert_eq!(flag_field("{", "on"), None);
    assert_eq!(truth_of("true"), Some(true));
    assert_eq!(truth_of("\"true\""), None);
}

#[test]
fn setting_a_field_keeps_the_others() {
    let mut fields = vec![("a".to_string(), "1".to_string()), ("b".to_string(), "2".to_string())];
    set_field(&mut fields, "b", "3".to_string());
    set_field(&mut fields, "c", "4".to_string());
    assert_eq!(find_field(&fields, "a").map(String::as_str), Some("1"));
    assert_eq!(find_field(&fields, "b").map(String::as_str), Some("3"));
    assert_eq!(find_field(&fields, "c").map(String::as_str), Some("4"));
    assert_eq!(find_field(&fields, "d"), None);
    assert_eq!(fields.len(), 3);
}
