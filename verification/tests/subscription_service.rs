use ostp::server::startup::key_table;
use ostp::server::subscription::{
    accepted_languages, header_text, html_escape, plain_body, prefers_russian as ranks_russian_first, respond, LanguageRange, Quality,
    RankedLanguage, SubscriptionService, SubscriptionSettings, TlsLink, UsageLimit, UsageText, ONE,
};
use ostp::server::users::{UserMeta, Users};
use ostp::share_link::ShareLink;
use ostp::subscription::{token_for_key, Subscription, SubscriptionDoc, SubscriptionUsage};

fn users() -> Users {
    let mut u = Users::new(
        key_table(vec![
            ("key-a".to_string(), UserMeta { name: Some("alice".into()), limit_bytes: Some(1000) }),
            ("key-b".to_string(), UserMeta { name: None, limit_bytes: None }),
        ]),
        0,
    );
    u.stats.remove(&"key-b".to_string());
    u.track_up(&"key-a".to_string(), 10, 0);
    u.track_down(&"key-a".to_string(), 32, 0);
    u
}

fn service() -> SubscriptionService {
    SubscriptionService {
        settings: SubscriptionSettings {
            prefix: "/sub".into(),
            name: "vpn.example.com".into(),
            update_interval_hours: 6,
            include_tls: true,
            include_udp: true,
        },
        tls: Some(TlsLink { host: "vpn.example.com".into(), port: 443, path: Some("/s3cr3tpath".into()) }),
        udp: ("vpn.example.com".into(), 50000),
        owndns: false,
    }
}

fn get(path: &str, accept: &str) -> Vec<u8> {
    format!("GET {path} HTTP/1.1\r\nHost: vpn.example.com\r\nAccept: {accept}\r\n\r\n").into_bytes()
}

fn quality(text: &str) -> Option<Quality> {
    let q: f32 = text.parse().ok()?;
    if q.is_nan() {
        return Some(Quality::NotANumber);
    }
    let bits = q.to_bits() as i32;
    Some(Quality::Number(if bits < 0 { i32::MIN - bits } else { bits }))
}

fn ranked(ranges: &[LanguageRange]) -> Vec<RankedLanguage> {
    ranges.iter().map(|r| RankedLanguage { ru: r.ru, qualities: r.qualities.iter().map(|t| quality(t)).collect() }).collect()
}

fn prefers_russian(accept_language: &str) -> bool {
    ranks_russian_first(&ranked(&accepted_languages(accept_language)))
}

fn links(body: &str) -> Vec<ShareLink> {
    match SubscriptionDoc::parse(body).unwrap() {
        Subscription::List(d) => d.valid_links(),
        _ => panic!("expected a list"),
    }
}

#[test]
fn serves_links_for_a_known_token() {
    let svc = service();
    let f = svc.fetch(&get(&format!("/sub/{}", token_for_key("key-a")), "*/*"), &users()).unwrap();
    assert!(!f.request.json && !f.request.html);
    let body = plain_body(&f.doc);
    let resp = String::from_utf8(respond(&f.request, &f.doc, &body)).unwrap();
    assert!(resp.starts_with("HTTP/1.1 200 OK\r\n"), "{resp}");
    assert!(resp.contains("Profile-Update-Interval: 6\r\n"));
    assert!(resp.contains("Subscription-Userinfo: upload=0; download=42; total=1000; expire=0\r\n"));
    let body = resp.splitn(2, "\r\n\r\n").nth(1).unwrap();
    let links = links(body);
    assert_eq!(links.len(), 2);
    assert!(links[0].tls && links[0].port == 443 && links[0].path.as_deref() == Some("/s3cr3tpath"));
    assert_eq!(links[0].key, "key-a");
    assert!(links[0].name.as_deref().unwrap().contains("alice"));
    assert!(!links[1].tls && links[1].port == 50000);
}

#[test]
fn json_form_carries_usage() {
    let svc = service();
    let path = format!("/sub/{}?format=json", token_for_key("key-a"));
    let f = svc.fetch(&get(&path, "*/*"), &users()).unwrap();
    assert!(f.request.json);
    assert_eq!(f.doc.usage, Some(SubscriptionUsage { used_bytes: 42, limit_bytes: Some(1000) }));
    assert_eq!(f.doc.update_interval_hours, 6);
    let resp = String::from_utf8(respond(&f.request, &f.doc, "{}")).unwrap();
    assert!(resp.contains("Content-Type: application/json"));
}

#[test]
fn unknown_tokens_and_other_requests_are_refused() {
    let svc = service();
    let u = users();
    assert!(svc.fetch(&get(&format!("/sub/{}", token_for_key("nope")), "*/*"), &u).is_none());
    assert!(svc.fetch(&get("/sub/key-a", "*/*"), &u).is_none());
    assert!(svc.fetch(&get(&format!("/other/{}", token_for_key("key-a")), "*/*"), &u).is_none());
    let post = format!("POST /sub/{} HTTP/1.1\r\n\r\n", token_for_key("key-a"));
    assert!(svc.fetch(post.as_bytes(), &u).is_none());
}

#[test]
fn include_filters_link_kinds() {
    let mut svc = service();
    svc.settings.include_udp = false;
    let doc = svc.document(&"key-b".to_string(), &users());
    assert_eq!(doc.links.len(), 1);
    assert!(doc.links[0].contains("tls=1"));
    assert_eq!(doc.usage, None);
}

const TEMPLATE: &str = "<html lang=\"{{LANG}}\"><title>{{NAME}}</title><a href=\"https://github.com/ospab/ostp\">{{INTERVAL}}</a><button aria-pressed={{RU_PRESSED}}><button aria-pressed={{EN_PRESSED}}><input id=sub-url value=\"{{SUB_URL}}\">{{QR}}{{USAGE}}{{LINKS}}</html>";

#[test]
fn a_browser_gets_the_page_and_apps_do_not() {
    let svc = service();
    let u = users();
    let token = token_for_key("key-a");
    let path = format!("/sub/{}", token);
    let browser = format!(
        "GET {path} HTTP/1.1\r\nHost: vpn.example.com\r\nAccept: text/html,application/xhtml+xml,*/*;q=0.8\r\nAccept-Language: ru-RU,ru;q=0.9\r\n\r\n"
    );
    let f = svc.fetch(browser.as_bytes(), &u).unwrap();
    let ru = ranks_russian_first(&ranked(&f.request.languages));
    assert!(f.request.html && ru);
    let usage = UsageText {
        used: "42 B".into(),
        limit: Some(UsageLimit { limit: "1000 B".into(), percent: "4".into() }),
    };
    let page = svc.page(&f.doc, &f.request.token, ru, &usage, TEMPLATE);
    let resp = String::from_utf8(respond(&f.request, &f.doc, &page)).unwrap();
    assert!(resp.contains("Content-Type: text/html"));
    assert!(resp.contains("Content-Security-Policy: default-src 'none'"));
    assert!(resp.contains("X-Robots-Tag: noindex"));
    let body = resp.splitn(2, "\r\n\r\n").nth(1).unwrap();
    assert!(body.contains("<html lang=\"ru\">"));
    let want = format!("value=\"https://vpn.example.com/sub/{}\"", token);
    assert!(body.contains(&want), "{want} not in: {body}");
    assert!(body.contains("<svg"), "{body}");
    assert!(body.contains("github.com/ospab/ostp"));
    assert!(body.contains("из 1000"), "{body}");
    assert!(!body.contains("{{"), "every placeholder is filled");
    assert_eq!(svc.url(&token), format!("https://vpn.example.com/sub/{}", token));

    let app = format!("GET {path} HTTP/1.1\r\nAccept: */*\r\n\r\n");
    let f = svc.fetch(app.as_bytes(), &u).unwrap();
    let resp = String::from_utf8(respond(&f.request, &f.doc, &plain_body(&f.doc))).unwrap();
    assert!(resp.contains("Content-Type: text/plain"));
    let json = format!("GET {path} HTTP/1.1\r\nAccept: application/json, text/html\r\n\r\n");
    let f = svc.fetch(json.as_bytes(), &u).unwrap();
    let resp = String::from_utf8(respond(&f.request, &f.doc, "{}")).unwrap();
    assert!(resp.contains("Content-Type: application/json"));
}

#[test]
fn language_follows_accept_language_priorities() {
    assert!(prefers_russian("ru-RU,ru;q=0.9,en-US;q=0.8,en;q=0.7"));
    assert!(!prefers_russian("en-US,en;q=0.9,ru;q=0.8"));
    assert!(prefers_russian("uk-UA,uk;q=0.9,ru;q=0.8,en;q=0.7"));
    assert!(prefers_russian("en;q=0.5, ru;q=0.9"));
    assert!(!prefers_russian("de-DE,de;q=0.9"));
    assert!(!prefers_russian(""));
    assert!(!prefers_russian("ru;q=0, en"));
}

#[test]
fn qualities_are_numbers_of_any_form() {
    assert!(prefers_russian("en;q=5e-1,ru;q=.9"));
    assert!(!prefers_russian("en;q=inf,ru;q=1e9"));
    assert!(!prefers_russian("en;q=1e60,ru;q=1e50"), "equal qualities go by order");
    assert!(!prefers_russian("ru;q=1e-60"), "rounds to zero");
    assert!(!prefers_russian("ru;q=-0,en;q=-1"));
    assert!(prefers_russian("ru;q=nan,en"), "nothing is above what is no number");
    assert!(prefers_russian("ru;q=x;q=0.9,en;q=0.8"), "the first number counts");
    assert!(prefers_russian("ru;q=x,en;q=0.8"));
    assert_eq!(quality("1"), Some(Quality::Number(ONE)));
    assert_eq!(quality("0"), Some(Quality::Number(0)));
}

#[test]
fn languages_are_picked_out_with_their_qualities() {
    let l = accepted_languages("de, RU-ru ; level=1 ; q= 0.5 ;q=x,en-US;q=0.7,rus");
    assert_eq!(l.len(), 2);
    assert!(l[0].ru && !l[1].ru);
    assert_eq!(l[0].qualities, vec!["0.5".to_string(), "x".to_string()]);
    assert_eq!(l[1].qualities, vec!["0.7".to_string()]);
}

#[test]
fn page_escapes_the_title() {
    assert_eq!(html_escape("<b>\"x\"</b>"), "&lt;b&gt;&quot;x&quot;&lt;/b&gt;");
}

#[test]
fn header_text_is_ascii_safe() {
    assert_eq!(header_text("vpn"), "vpn");
    assert!(header_text("впн").starts_with("base64:"));
}

#[test]
fn titles_in_other_scripts_are_encoded() {
    assert_eq!(header_text("впн"), "base64:0LLQv9C9");
}
