use ostp::client::config::{core_config, log_level, log_level_in, shown_config, ClientConfigRaw, ExcludeConfig, TransportConfigRaw, TunConfig};
use ostp::client::desktop::{
    autostart_entry, autostart_file, autostart_query, autostart_registry, config_place, elevated_helper, elevation, generate_qr, helper_candidates, helper_task_command, helper_task_matches, launch,
    masked_server, menu_server, running_processes, task_program, xml_unescape, ConfigPlace, Elevation, Launch, Platform,
};
use ostp::client::helper::{bad_command, in_process_status, task_arguments, tick, GuiCmd, Helper, HelperArgs, HelperMsg, HelperPipeState, HelperStep};
use ostp::client::log::{error_json, logs_json, metrics_json, LogBuffer, Metrics, SdkState, StartEvent};
use ostp::client::tun::{linux_default_route, linux_routes, macos_gateway, macos_routes, CommandLine, OstpTunOptions};
use ostp::client::tunnel::{start_plan, Reload, Start, Stop, Tunnel, UIMetrics};
use ostp::net::ip_of;

fn raw() -> ClientConfigRaw {
    ClientConfigRaw {
        server: "1.2.3.4:50000".into(),
        access_key: "k".into(),
        socks5_bind: None,
        tun: None,
        transport: None,
        debug: None,
        exclude: None,
        mux: None,
        gui: None,
    }
}

#[test]
fn missing_settings_have_defaults() {
    let c = core_config(&raw());
    assert_eq!(c.mode, "proxy");
    assert_eq!(c.local_proxy.bind_addr, "127.0.0.1:1088");
    assert_eq!(c.transport.mode, "udp");
    assert_eq!(c.transport.junk_pc, [2, 5]);
    assert_eq!(c.transport.junk_ps, [100, 1000]);
    assert!(c.transport.ttl_desync_auto);
    assert_eq!(c.tun_stack, "system");
    assert_eq!(c.ostp.mtu, 1350);
    assert_eq!(c.multiplex.sessions, 1);
    assert!(c.exclusions.domains.is_empty() && c.dns_server.is_none());
}

#[test]
fn settings_are_carried_over() {
    let mut r = raw();
    r.tun = Some(TunConfig {
        enable: true,
        wintun_path: None,
        ipv4_address: None,
        dns: Some("1.1.1.1".into()),
        stack: None,
        kill_switch: Some(true),
    });
    r.transport = Some(TransportConfigRaw {
        mode: Some("uot".into()),
        tcp_fragmentation: Some(true),
        frag_chunk: Some(9),
        frag_sleep: None,
        junk_pc: Some([1, 2]),
        junk_ps: None,
        ttl_desync: None,
        ttl_desync_ttl: Some(3),
        ttl_desync_count: None,
        ttl_desync_auto: Some(false),
    });
    r.exclude = Some(ExcludeConfig { domains: Some(vec!["a".into()]), ips: None, processes: None });
    let c = core_config(&r);
    assert_eq!(c.mode, "tun");
    assert!(c.kill_switch);
    assert_eq!(c.dns_server.as_deref(), Some("1.1.1.1"));
    assert_eq!((c.transport.mode.as_str(), c.transport.frag_chunk, c.transport.frag_sleep), ("uot", 9, 2));
    assert_eq!((c.transport.junk_pc, c.transport.ttl_desync_ttl), ([1, 2], 3));
    assert_eq!(c.exclusions.domains, vec!["a".to_string()]);
    assert_eq!(log_level(Some(true), Some("warn")), "debug");
    assert_eq!(log_level(Some(false), Some("warn")), "warn");
    assert_eq!(log_level(None, None), "info");
}

fn lines(v: &[CommandLine]) -> Vec<String> {
    v.iter().map(|c| c.words.join(" ")).collect()
}

fn options(kill_switch: bool) -> OstpTunOptions {
    OstpTunOptions {
        server_ip: ip_of("198.51.100.1").unwrap(),
        bypass_ips: vec![ip_of("192.0.2.1").unwrap()],
        dns_server: Some("1.1.1.1".into()),
        kill_switch,
        mtu: 1350,
        wintun_path: None,
    }
}

#[test]
fn linux_routes_are_set_and_taken_back() {
    let (gw, dev) = linux_default_route("default via 10.0.0.1 dev eth0 proto dhcp metric 100\n");
    assert_eq!((gw.as_deref(), dev.as_deref()), (Some("10.0.0.1"), Some("eth0")));
    let (up, guard) = linux_routes(&options(true), gw, dev);
    assert_eq!(
        lines(&up),
        vec![
            "ip route add 198.51.100.1/32 via 10.0.0.1 dev eth0",
            "ip route add 192.0.2.1/32 via 10.0.0.1 dev eth0",
            "ip route add default dev ostp_tun",
            "ip route del default via 10.0.0.1 dev eth0",
            "resolvectl dns ostp_tun 1.1.1.1",
            "resolvectl domain ostp_tun ~.",
            "resolvectl default-route ostp_tun true",
        ]
    );
    assert_eq!(
        lines(&guard.teardown()),
        vec![
            "ip route del default dev ostp_tun",
            "ip route del 198.51.100.1/32",
            "ip route del 192.0.2.1/32",
            "ip route add default via 10.0.0.1 dev eth0",
        ]
    );
    let (none, _) = linux_default_route("");
    assert_eq!(none, None);
}

#[test]
fn macos_routes_are_set_and_taken_back() {
    let gw = macos_gateway("   route to: default\n    gateway: 10.0.0.1\n  interface: en0\n");
    assert_eq!(gw.as_deref(), Some("10.0.0.1"));
    let (up, guard) = macos_routes(&options(false), gw);
    assert_eq!(
        lines(&up),
        vec![
            "route add -host 198.51.100.1 10.0.0.1",
            "route add -host 192.0.2.1 10.0.0.1",
            "route add -net default -interface utun5",
        ]
    );
    assert_eq!(
        lines(&guard.teardown()),
        vec![
            "route delete -net default -interface utun5",
            "route delete -host 198.51.100.1",
            "route delete -host 192.0.2.1",
        ]
    );
    let (up, _) = macos_routes(&options(true), None);
    assert!(up.is_empty());
}

#[test]
fn the_helper_obeys_its_token_only() {
    assert!(HelperArgs::parse(&vec!["--port".into(), "9".into()]).is_none());
    let a = HelperArgs::parse(&vec!["--port".into(), "x".into(), "--token".into(), "t".into()]).unwrap();
    assert_eq!((a.port, a.token.as_str()), (53211, "t"));
    let mut h = Helper::new("t".to_string());
    let start = |token: &str| GuiCmd::Start { config: "{}".into(), token: token.to_string() };
    assert!(matches!(h.on_command(start("wrong")), HelperStep::Refuse));
    assert!(matches!(h.on_command(start("t")), HelperStep::Start { stop_first: false, .. }));
    assert!(matches!(h.on_started(), HelperMsg::Status { value: 1 }));
    assert!(matches!(h.on_command(start("t")), HelperStep::Start { stop_first: true, .. }));
    h.on_started();
    assert!(matches!(
        h.on_command(GuiCmd::Reload { config: "{}".into(), token: "t".into() }),
        HelperStep::Reload { running: true, .. }
    ));
    assert!(matches!(h.on_command(GuiCmd::Stop { token: "x".into() }), HelperStep::Refuse));
    assert!(matches!(h.on_command(GuiCmd::Stop { token: "t".into() }), HelperStep::Stop { running: true }));
    assert!(!h.on_disconnected());
}

#[test]
fn the_helper_tells_changes_and_counters() {
    assert_eq!(tick(99, 1, 2, 3, 4).len(), 2);
    assert!(matches!(tick(1, 1, 2, 3, 4)[0], HelperMsg::Metrics { bytes_sent: 2, bytes_recv: 3, rtt_ms: 4 }));
    let mut p = HelperPipeState::new();
    assert_eq!(p.status(), Ok(1));
    p.on_message(HelperMsg::Status { value: 2 });
    assert_eq!(p.status(), Ok(2));
    p.on_message(HelperMsg::Error { message: "broken".into() });
    assert_eq!(p.status(), Err("broken".to_string()));
    assert_eq!(p.status(), Ok(0), "an error is told once");
    let mut e = Some("ended".to_string());
    assert_eq!(in_process_status(false, 2, &mut e), Ok(2));
    assert_eq!(in_process_status(true, 2, &mut e), Err("ended".to_string()));
    assert_eq!(in_process_status(true, 2, &mut e), Ok(0));
}

#[test]
fn servers_are_masked_in_the_menu() {
    assert_eq!(masked_server(Some("203.0.113.9:443")), "203.0.**.**:443");
    assert_eq!(masked_server(Some("vpn.example.com:443")), "vpn...:443");
    assert_eq!(masked_server(Some("localhost:1")), "localhost:1");
    assert_eq!(masked_server(None), "0.0.0.0");
}

#[test]
fn processes_are_sorted_and_listed_once() {
    let win = b"\"chrome.exe\",\"1\",\"Console\"\r\n\"System\",\"4\"\r\n\"a.exe\",\"2\"\r\n\"chrome.exe\",\"3\"\r\n";
    assert_eq!(running_processes(Platform::Windows, win), vec!["a.exe".to_string(), "chrome.exe".to_string()]);
    assert_eq!(running_processes(Platform::Linux, b"bash\n  sh \n\nbash\n"), vec!["bash".to_string(), "sh".to_string()]);
    assert_eq!(running_processes(Platform::Macos, b"/usr/bin/zsh\nlaunchd\n"), vec!["launchd".to_string(), "zsh".to_string()]);
}

#[test]
fn the_command_of_a_task_is_read() {
    let xml = b"<Exec><Command> C:\\a &amp; b\\ostp-tun-helper.exe </Command></Exec>";
    assert_eq!(helper_task_command(xml).as_deref(), Some("C:\\a & b\\ostp-tun-helper.exe"));
    let mut wide = vec![0xff, 0xfe];
    for c in "<Command>x</Command>".bytes() {
        wide.extend([c, 0]);
    }
    assert_eq!(helper_task_command(&wide).as_deref(), Some("x"));
    assert_eq!(helper_task_command(b"<Command>x"), None);
    assert_eq!(xml_unescape("&amp;lt;&lt;&gt;&quot;&apos;"), "&lt;<>\"'");
    let exe = "C:\\OSTP\\ostp-tun-helper.exe";
    assert!(helper_task_matches(Some(exe), exe, true));
    assert!(helper_task_matches(Some(" \"c:\\ostp\\OSTP-TUN-HELPER.EXE\" "), exe, true));
    assert!(!helper_task_matches(Some(exe), exe, false), "the program is gone");
    assert!(!helper_task_matches(Some("D:\\dev\\ostp-tun-helper.exe"), exe, true), "a copy elsewhere");
    assert!(!helper_task_matches(Some("C:\\OSTP\\other.exe"), exe, true));
    assert!(!helper_task_matches(None, exe, true));
    assert_eq!(task_program(" \"C:\\a b\\x.exe\""), "C:\\a b\\x.exe");
    assert_eq!(launch(true, true, true), Launch::Task);
    assert_eq!(launch(true, false, false), Launch::Direct { delete_arguments: true });
}

#[test]
fn settings_never_depend_on_the_working_directory() {
    assert_eq!(config_place(true, true, true, false, false), ConfigPlace::Portable);
    assert_eq!(config_place(true, false, false, true, false), ConfigPlace::Portable);
    assert_eq!(config_place(true, true, false, true, false), ConfigPlace::User { copy_first: true });
    assert_eq!(config_place(false, true, true, true, true), ConfigPlace::User { copy_first: false });
}

#[test]
fn the_helper_is_looked_for_in_order() {
    let c = helper_candidates(Some("/app"), &vec!["/src/target".to_string()], "/cwd", "h");
    assert_eq!(c[0], "/app/h");
    assert_eq!(c[1], "/src/target/debug/h");
    assert_eq!(c[2], "/src/target/release/h");
    assert_eq!(c[3], "/cwd/h");
    assert_eq!(c[9], "/cwd/../../target/release/h");
    assert_eq!(c.len(), 10);
    assert_eq!(autostart_file(Some(""), Some("/home/u")).as_deref(), Some("/home/u/.config/autostart/ostp.desktop"));
    assert_eq!(autostart_file(Some("/c"), None).as_deref(), Some("/c/autostart/ostp.desktop"));
    assert_eq!(autostart_file(None, None), None);
    assert!(autostart_entry("/app/gui").contains("Exec=\"/app/gui\"\n"));
}

#[test]
fn links_become_pictures() {
    let a = generate_qr("ostp://k@h:1").unwrap();
    assert!(a.contains("<svg") && a.contains("#000000"));
    assert_ne!(a, generate_qr("ostp://k@h:2").unwrap());
    assert!(generate_qr(&"x".repeat(5000)).is_none());
}

#[test]
fn the_log_has_a_size() {
    let mut l = LogBuffer::new();
    for i in 0..1005 {
        l.add_log(format!("{i}"));
    }
    l.write("  \n");
    l.write(" last \n");
    let all = l.drain();
    assert_eq!(all.len(), 1000);
    assert_eq!(all[0], "6");
    assert_eq!(all[999], "last");
    assert!(l.drain().is_empty());
}

#[test]
fn counters_are_told_as_json() {
    let m = Metrics { bytes_sent: 1, bytes_recv: 2, connection_state: 3, rtt_ms: 4 };
    assert_eq!(metrics_json(Some(m)), "{\"bytes_sent\": 1, \"bytes_recv\": 2, \"connection_state\": 3, \"rtt_ms\": 4}");
    assert_eq!(metrics_json(None), "{\"bytes_sent\": 0, \"bytes_recv\": 0, \"connection_state\": 0, \"rtt_ms\": 0}");
    let mut s = SdkState::new();
    assert!(s.must_start());
    assert!(!s.on_start(StartEvent::ConfigUnreadable) && s.must_start());
    assert!(s.on_start(StartEvent::Started) && !s.must_start());
    assert!(s.on_stop() && !s.on_stop());
}

fn with_device(enable: bool) -> ClientConfigRaw {
    ClientConfigRaw {
        tun: Some(TunConfig { enable, wintun_path: None, ipv4_address: None, dns: None, stack: None, kill_switch: None }),
        ..raw()
    }
}

#[test]
fn a_device_is_made_by_the_helper() {
    assert_eq!(start_plan(None, false, false).err().unwrap(), "GUI only supports Client mode.");
    assert_eq!(start_plan(Some(&with_device(true)), true, false).err().unwrap(), "WINTUN_MISSING");
    assert!(matches!(start_plan(Some(&with_device(true)), true, true), Ok(Start::Helper(c)) if c.mode == "tun"));
    assert!(matches!(start_plan(Some(&with_device(true)), false, false), Ok(Start::Helper(_))));
    assert!(matches!(start_plan(Some(&with_device(false)), true, false), Ok(Start::InProcess(c)) if c.mode == "proxy"));
    assert!(matches!(start_plan(Some(&raw()), false, false), Ok(Start::InProcess(_))));
}

#[test]
fn tunnels_are_shown_reloaded_and_stopped() {
    let own = UIMetrics { bytes_sent: 1, bytes_recv: 2, rtt_ms: 3 };
    let mut t = Tunnel::Down;
    assert_eq!(t.metrics(own), None);
    assert_eq!(t.status(true, 7, &mut Some("x".into())), Ok(0));
    assert!(matches!(t.reload(None), Ok(Reload::Nobody)));
    assert!(matches!(t.stop(), Stop::Nothing));

    t.on_in_process();
    assert_eq!(t.metrics(own), Some(own));
    let mut error = Some("lost".to_string());
    assert_eq!(t.status(false, 2, &mut error), Ok(2));
    assert_eq!(t.status(true, 2, &mut error), Err("lost".into()));
    assert_eq!(t.status(true, 2, &mut error), Ok(0));
    assert!(matches!(t.reload(Some(&raw())), Ok(Reload::InProcess(c)) if c.mode == "proxy"));
    assert_eq!(t.reload(None).err().unwrap(), "GUI only supports Client mode.");
    assert!(matches!(t.stop(), Stop::Task));
    assert!(matches!(t, Tunnel::Down));
    assert!(matches!(Tunnel::InProcess { reloadable: false }.reload(Some(&raw())), Ok(Reload::Nobody)));

    let cmd = t.on_helper("77".into(), "{}".into());
    assert!(matches!(cmd, GuiCmd::Start { config, token } if config == "{}" && token == "77"));
    assert_eq!(t.status(true, 9, &mut None), Ok(1));
    if let Tunnel::Helper { pipe, .. } = &mut t {
        pipe.on_message(HelperMsg::Metrics { bytes_sent: 10, bytes_recv: 20, rtt_ms: 30 });
        pipe.on_message(HelperMsg::Error { message: "gone".into() });
    }
    assert_eq!(t.metrics(own), Some(UIMetrics { bytes_sent: 10, bytes_recv: 20, rtt_ms: 30 }));
    assert_eq!(t.status(true, 9, &mut None), Err("gone".into()));
    assert_eq!(t.status(true, 9, &mut None), Ok(0));
    assert!(matches!(t.reload(Some(&with_device(true))), Ok(Reload::Helper { token, config }) if token == "77" && config.mode == "tun"));
    assert!(matches!(t.stop(), Stop::Command(GuiCmd::Stop { token }) if token == "77"));
}

#[test]
fn windows_starts_the_program_at_login() {
    assert_eq!(
        lines(&[autostart_registry(Some("C:\\a b\\ostp.exe")), autostart_registry(None), autostart_query()]),
        [
            "reg add HKCU\\Software\\Microsoft\\Windows\\CurrentVersion\\Run /v OSTP /t REG_SZ /d \"C:\\a b\\ostp.exe\" /f",
            "reg delete HKCU\\Software\\Microsoft\\Windows\\CurrentVersion\\Run /v OSTP /f",
            "reg query HKCU\\Software\\Microsoft\\Windows\\CurrentVersion\\Run /v OSTP",
        ]
    );
}

#[test]
fn a_declined_prompt_is_not_a_success() {
    assert_eq!(elevation(1223), Elevation::Denied);
    assert_eq!(elevation(32), Elevation::Failed);
    assert_eq!(elevation(33), Elevation::Granted);
    assert_eq!(
        lines(&[elevated_helper("/opt/helper", 50123, "/tmp/ostp_auth_1.tmp")]),
        ["pkexec /opt/helper --port 50123 --token-file /tmp/ostp_auth_1.tmp"]
    );
}

#[test]
fn the_menu_shows_the_server_of_the_file() {
    assert_eq!(menu_server("{ // mine\n \"server\": \"203.0.113.9:443\" }"), "203.0.**.**:443");
    assert_eq!(menu_server("{ \"server\": 7 }"), "0.0.0.0");
    assert_eq!(menu_server("no json"), "0.0.0.0");
    assert_eq!(menu_server("{} /* never closed"), "0.0.0.0");
}

#[test]
fn the_file_says_how_much_is_logged() {
    assert_eq!(log_level_in("{\"debug\":true,\"log_level\":\"warn\"}"), "debug");
    assert_eq!(log_level_in("{\"debug\":false,\"log_level\":\"warn\"}"), "warn");
    assert_eq!(log_level_in("{\"debug\":\"true\"}"), "info");
    assert_eq!(log_level_in("no json"), "info");
}

#[test]
fn the_windows_show_a_configuration_to_begin_with() {
    assert_eq!(shown_config(Some("{}".to_string())), "{}");
    let first = shown_config(None);
    let v: serde_json::Value = serde_json::from_str(&first).unwrap();
    assert_eq!(v["server"], "127.0.0.1:50000");
    assert_eq!(v["tun"]["ipv4_address"], "10.1.0.2/24");
    assert_eq!(v["mux"]["sessions"], 1);
}

#[test]
fn commands_are_lines_of_json() {
    let start = GuiCmd::Start { config: "{\"a\":1}".into(), token: "t".into() };
    assert_eq!(start.line(), "{\"cmd\":\"start\",\"config\":\"{\\\"a\\\":1}\",\"token\":\"t\"}\n");
    let reload = GuiCmd::Reload { config: "{}".into(), token: "t".into() };
    assert_eq!(reload.line(), "{\"cmd\":\"reload\",\"config\":\"{}\",\"token\":\"t\"}\n");
    assert_eq!(GuiCmd::Stop { token: "t".into() }.line(), "{\"cmd\":\"stop\",\"token\":\"t\"}\n");
    assert_eq!(task_arguments(4500, "a\"b"), "{\"port\":4500,\"token\":\"a\\\"b\"}");
}

#[test]
fn the_helper_tells_what_became_of_a_command() {
    let said = |m: HelperMsg| match m {
        HelperMsg::Error { message } => message,
        other => panic!("expected an error, got {other:?}"),
    };
    assert_eq!(said(bad_command("why")), "Bad command: why");
    assert_eq!(said(HelperStep::Refuse.told(None)), "Invalid authorization token");
    let start = HelperStep::Start { stop_first: true, config: String::new() };
    assert!(matches!(start.told(None), HelperMsg::Status { value: 1 }));
    assert_eq!(said(start.told(Some("x"))), "Config parse error: x");
    let reload = HelperStep::Reload { running: true, config: String::new() };
    assert!(matches!(reload.told(None), HelperMsg::Status { value: 1 }));
    assert_eq!(said(reload.told(Some("x"))), "Config parse error during reload: x");
    assert!(matches!(HelperStep::Stop { running: true }.told(None), HelperMsg::Status { value: 0 }));
}

#[test]
fn logs_and_errors_are_handed_over_as_json() {
    assert_eq!(logs_json(&vec![]), "[]");
    assert_eq!(logs_json(&vec!["a".to_string(), "b\"c".to_string()]), "[\"a\",\"b\\\"c\"]");
    assert_eq!(error_json("no\nway"), "{\"error\":\"no\\nway\"}");
}
