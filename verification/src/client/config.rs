//! The settings of a client: as they are written, and as the tunnel takes them.

use vstd::prelude::*;

use crate::json::{flag_field, json_flag, json_text, text_field};
use crate::text::{owned, string_views};

verus! {

/// A tunnel device, as it is written.
#[derive(Debug)]
pub struct TunConfig {
    pub enable: bool,
    pub wintun_path: Option<String>,
    pub ipv4_address: Option<String>,
    pub dns: Option<String>,
    pub stack: Option<String>,
    pub kill_switch: Option<bool>,
}

/// The transport, as it is written.
#[derive(Debug)]
pub struct TransportConfigRaw {
    pub mode: Option<String>,
    pub tcp_fragmentation: Option<bool>,
    pub frag_chunk: Option<usize>,
    pub frag_sleep: Option<u64>,
    pub junk_pc: Option<[usize; 2]>,
    pub junk_ps: Option<[usize; 2]>,
    pub ttl_desync: Option<bool>,
    pub ttl_desync_ttl: Option<u8>,
    pub ttl_desync_count: Option<u8>,
    pub ttl_desync_auto: Option<bool>,
}

/// What bypasses the tunnel, as it is written.
#[derive(Debug)]
pub struct ExcludeConfig {
    pub domains: Option<Vec<String>>,
    pub ips: Option<Vec<String>>,
    pub processes: Option<Vec<String>>,
}

/// Sessions side by side, as they are written.
#[derive(Debug)]
pub struct MuxConfig {
    pub enabled: Option<bool>,
    pub sessions: Option<usize>,
}

/// The settings of the windows.
#[derive(Debug, Clone, Copy, PartialEq, Eq, Structural)]
pub struct GuiConfig {
    pub autoconnect: Option<bool>,
    pub launch_startup: Option<bool>,
}

/// The settings of a client, as they are written.
#[derive(Debug)]
pub struct ClientConfigRaw {
    pub server: String,
    pub access_key: String,
    pub socks5_bind: Option<String>,
    pub tun: Option<TunConfig>,
    pub transport: Option<TransportConfigRaw>,
    pub debug: Option<bool>,
    pub exclude: Option<ExcludeConfig>,
    pub mux: Option<MuxConfig>,
    pub gui: Option<GuiConfig>,
}

#[derive(Debug)]
pub struct OstpConfig {
    pub server_addr: String,
    pub local_bind_addr: String,
    pub access_key: String,
    pub handshake_timeout_ms: u64,
    pub io_timeout_ms: u64,
    pub mtu: usize,
    pub keepalive_interval_sec: u64,
}

#[derive(Debug)]
pub struct LocalProxyConfig {
    pub bind_addr: String,
    pub connect_timeout_ms: u64,
}

#[derive(Debug)]
pub struct TransportConfig {
    pub mode: String,
    pub tcp_fragmentation: bool,
    pub frag_chunk: usize,
    pub frag_sleep: u64,
    pub junk_pc: [usize; 2],
    pub junk_ps: [usize; 2],
    pub ttl_desync: bool,
    pub ttl_desync_ttl: u8,
    pub ttl_desync_count: u8,
    pub ttl_desync_auto: bool,
}

#[derive(Debug)]
pub struct ExclusionConfig {
    pub domains: Vec<String>,
    pub ips: Vec<String>,
    pub processes: Vec<String>,
}

#[derive(Debug, Clone, Copy, PartialEq, Eq, Structural)]
pub struct MultiplexConfig {
    pub enabled: bool,
    pub sessions: usize,
}

/// The settings of a client, as the tunnel takes them.
#[derive(Debug)]
pub struct ClientConfig {
    pub mode: String,
    pub debug: bool,
    pub ostp: OstpConfig,
    pub local_proxy: LocalProxyConfig,
    pub transport: TransportConfig,
    pub exclusions: ExclusionConfig,
    pub multiplex: MultiplexConfig,
    pub dns_server: Option<String>,
    pub tun_stack: String,
    pub kill_switch: bool,
    pub gui: Option<GuiConfig>,
}

// ── Defaults ─────────────────────────────────────────────────────────────────

pub open spec fn or<T>(o: Option<T>, d: T) -> T {
    match o {
        Some(x) => x,
        None => d,
    }
}

pub open spec fn text_or(o: Option<String>, d: Seq<char>) -> Seq<char> {
    match o {
        Some(s) => s@,
        None => d,
    }
}

pub open spec fn list_or_none(o: Option<Vec<String>>) -> Seq<Seq<char>> {
    match o {
        Some(v) => string_views(v@),
        None => Seq::empty(),
    }
}

pub open spec fn opt_chars(s: Option<String>) -> Option<Seq<char>> {
    match s {
        Some(s) => Some(s@),
        None => None,
    }
}

fn text_of(o: &Option<String>, d: &str) -> (r: String)
    ensures
        r@ == text_or(*o, d@),
{
    match o {
        Some(s) => owned(s),
        None => owned(d),
    }
}

fn copy_list(v: &Vec<String>) -> (r: Vec<String>)
    ensures
        string_views(r@) == string_views(v@),
{
    let mut out: Vec<String> = Vec::new();
    let mut i: usize = 0;
    while i < v.len()
        invariant
            i <= v@.len(),
            out@.len() == i,
            forall|k: int| 0 <= k < i ==> (#[trigger] out@[k])@ == v@[k]@,
        decreases v@.len() - i,
    {
        out.push(owned(&v[i]));
        i += 1;
    }
    assert(string_views(out@) =~= string_views(v@));
    out
}

fn list_of(o: &Option<Vec<String>>) -> (r: Vec<String>)
    ensures
        string_views(r@) == list_or_none(*o),
{
    match o {
        Some(v) => copy_list(v),
        None => {
            let r: Vec<String> = Vec::new();
            assert(string_views(r@) =~= Seq::<Seq<char>>::empty());
            r
        },
    }
}

/// A transport as it is used: what is not written has its default.
pub open spec fn is_transport(t: TransportConfig, raw: Option<TransportConfigRaw>) -> bool {
    match raw {
        Some(w) => {
            &&& t.mode@ == text_or(w.mode, "udp"@)
            &&& t.tcp_fragmentation == or(w.tcp_fragmentation, false)
            &&& t.frag_chunk == or(w.frag_chunk, 2)
            &&& t.frag_sleep == or(w.frag_sleep, 2)
            &&& t.junk_pc@ == match w.junk_pc {
                Some(a) => a@,
                None => seq![2usize, 5],
            }
            &&& t.junk_ps@ == match w.junk_ps {
                Some(a) => a@,
                None => seq![100usize, 1000],
            }
            &&& t.ttl_desync == or(w.ttl_desync, false)
            &&& t.ttl_desync_ttl == or(w.ttl_desync_ttl, 8)
            &&& t.ttl_desync_count == or(w.ttl_desync_count, 2)
            &&& t.ttl_desync_auto == or(w.ttl_desync_auto, true)
        },
        None => {
            &&& t.mode@ == "udp"@
            &&& !t.tcp_fragmentation
            &&& t.frag_chunk == 2
            &&& t.frag_sleep == 2
            &&& t.junk_pc@ == seq![2usize, 5]
            &&& t.junk_ps@ == seq![100usize, 1000]
            &&& !t.ttl_desync
            &&& t.ttl_desync_ttl == 8
            &&& t.ttl_desync_count == 2
            &&& t.ttl_desync_auto
        },
    }
}

fn transport_of(raw: &Option<TransportConfigRaw>) -> (r: TransportConfig)
    ensures
        is_transport(r, *raw),
{
    let pc: [usize; 2] = [2, 5];
    let ps: [usize; 2] = [100, 1000];
    assert(pc@ =~= seq![2usize, 5]);
    assert(ps@ =~= seq![100usize, 1000]);
    match raw {
        Some(w) => TransportConfig {
            mode: text_of(&w.mode, "udp"),
            tcp_fragmentation: w.tcp_fragmentation.unwrap_or(false),
            frag_chunk: w.frag_chunk.unwrap_or(2),
            frag_sleep: w.frag_sleep.unwrap_or(2),
            junk_pc: w.junk_pc.unwrap_or(pc),
            junk_ps: w.junk_ps.unwrap_or(ps),
            ttl_desync: w.ttl_desync.unwrap_or(false),
            ttl_desync_ttl: w.ttl_desync_ttl.unwrap_or(8),
            ttl_desync_count: w.ttl_desync_count.unwrap_or(2),
            ttl_desync_auto: w.ttl_desync_auto.unwrap_or(true),
        },
        None => TransportConfig {
            mode: owned("udp"),
            tcp_fragmentation: false,
            frag_chunk: 2,
            frag_sleep: 2,
            junk_pc: pc,
            junk_ps: ps,
            ttl_desync: false,
            ttl_desync_ttl: 8,
            ttl_desync_count: 2,
            ttl_desync_auto: true,
        },
    }
}

/// What bypasses the tunnel.
pub open spec fn are_exclusions(e: ExclusionConfig, raw: Option<ExcludeConfig>) -> bool {
    match raw {
        Some(x) => {
            &&& string_views(e.domains@) == list_or_none(x.domains)
            &&& string_views(e.ips@) == list_or_none(x.ips)
            &&& string_views(e.processes@) == list_or_none(x.processes)
        },
        None => e.domains@.len() == 0 && e.ips@.len() == 0 && e.processes@.len() == 0,
    }
}

/// Settings as the tunnel takes them.
pub open spec fn maps_to(raw: ClientConfigRaw, mode: Seq<char>, c: ClientConfig) -> bool {
    &&& c.mode@ == mode
    &&& c.debug == or(raw.debug, false)
    &&& c.ostp.server_addr@ == raw.server@
    &&& c.ostp.local_bind_addr@ == "0.0.0.0:0"@
    &&& c.ostp.access_key@ == raw.access_key@
    &&& c.ostp.handshake_timeout_ms == 5000
    &&& c.ostp.io_timeout_ms == 5000
    &&& c.ostp.mtu == 1350
    &&& c.ostp.keepalive_interval_sec == 5
    &&& c.local_proxy.bind_addr@ == text_or(raw.socks5_bind, "127.0.0.1:1088"@)
    &&& c.local_proxy.connect_timeout_ms == 5000
    &&& is_transport(c.transport, raw.transport)
    &&& are_exclusions(c.exclusions, raw.exclude)
    &&& c.multiplex == match raw.mux {
        Some(m) => MultiplexConfig { enabled: or(m.enabled, false), sessions: or(m.sessions, 1) },
        None => MultiplexConfig { enabled: false, sessions: 1 },
    }
    &&& opt_chars(c.dns_server) == match raw.tun {
        Some(t) => opt_chars(t.dns),
        None => None,
    }
    &&& c.tun_stack@ == match raw.tun {
        Some(t) => text_or(t.stack, "system"@),
        None => "system"@,
    }
    &&& c.kill_switch == match raw.tun {
        Some(t) => or(t.kill_switch, false),
        None => false,
    }
    &&& c.gui == raw.gui
}

/// The settings as the tunnel takes them; what is not written has its default.
pub fn map_to_client_config(raw: &ClientConfigRaw, mode: &str) -> (r: ClientConfig)
    ensures
        maps_to(*raw, mode@, r),
{
    let exclusions = match &raw.exclude {
        Some(x) => ExclusionConfig {
            domains: list_of(&x.domains),
            ips: list_of(&x.ips),
            processes: list_of(&x.processes),
        },
        None => ExclusionConfig { domains: Vec::new(), ips: Vec::new(), processes: Vec::new() },
    };
    let multiplex = match &raw.mux {
        Some(m) => MultiplexConfig { enabled: m.enabled.unwrap_or(false), sessions: m.sessions.unwrap_or(1) },
        None => MultiplexConfig { enabled: false, sessions: 1 },
    };
    let dns_server: Option<String> = match &raw.tun {
        Some(t) => match &t.dns {
            Some(d) => Some(owned(d)),
            None => None,
        },
        None => None,
    };
    let tun_stack = match &raw.tun {
        Some(t) => text_of(&t.stack, "system"),
        None => owned("system"),
    };
    let kill_switch = match &raw.tun {
        Some(t) => t.kill_switch.unwrap_or(false),
        None => false,
    };
    ClientConfig {
        mode: owned(mode),
        debug: raw.debug.unwrap_or(false),
        ostp: OstpConfig {
            server_addr: owned(&raw.server),
            local_bind_addr: owned("0.0.0.0:0"),
            access_key: owned(&raw.access_key),
            handshake_timeout_ms: 5000,
            io_timeout_ms: 5000,
            mtu: 1350,
            keepalive_interval_sec: 5,
        },
        local_proxy: LocalProxyConfig {
            bind_addr: text_of(&raw.socks5_bind, "127.0.0.1:1088"),
            connect_timeout_ms: 5000,
        },
        transport: transport_of(&raw.transport),
        exclusions,
        multiplex,
        dns_server,
        tun_stack,
        kill_switch,
        gui: raw.gui,
    }
}

/// Whether the settings ask for a tunnel device; without one, the client is a local
/// proxy.
pub fn wants_tun(raw: &ClientConfigRaw) -> (r: bool)
    ensures
        r == (raw.tun matches Some(t) && t.enable),
{
    match &raw.tun {
        Some(t) => t.enable,
        None => false,
    }
}

/// The mode in which the tunnel runs, and the settings as it takes them.
pub fn core_config(raw: &ClientConfigRaw) -> (r: ClientConfig)
    ensures
        maps_to(
            *raw,
            if raw.tun matches Some(t) && t.enable {
                "tun"@
            } else {
                "proxy"@
            },
            r,
        ),
{
    if wants_tun(raw) {
        map_to_client_config(raw, "tun")
    } else {
        map_to_client_config(raw, "proxy")
    }
}

/// The level of the log: debugging overrides the level that is written.
pub fn log_level(debug: Option<bool>, level: Option<&str>) -> (r: String)
    ensures
        r@ == if debug == Some(true) {
            "debug"@
        } else {
            match level {
                Some(l) => l@,
                None => "info"@,
            }
        },
{
    match debug {
        Some(true) => owned("debug"),
        _ => match level {
            Some(l) => owned(l),
            None => owned("info"),
        },
    }
}

/// The level of the log that a configuration file asks for.
pub fn log_level_in(file: &str) -> (r: String)
    ensures
        r@ == if json_flag(file@, "debug"@) == Some(true) {
            "debug"@
        } else {
            match json_text(file@, "log_level"@) {
                Some(l) => l,
                None => "info"@,
            }
        },
{
    let level = text_field(file, "log_level");
    log_level(
        flag_field(file, "debug"),
        match &level {
            Some(l) => Some(l.as_str()),
            None => None,
        },
    )
}

/// The configuration that is shown where there is none yet.
pub const FIRST_CONFIG: &'static str = "{\n  \"_comment\": \"OSTP Client Configuration\",\n  \"mode\": \"client\",\n  \"log_level\": \"info\",\n  \n  \"_comment_server\": \"Address of the remote OSTP server\",\n  \"server\": \"127.0.0.1:50000\",\n  \n  \"_comment_access_key\": \"Must match one of the access_keys on the server\",\n  \"access_key\": \"your-secret-access-key-hex-or-base64\",\n  \n  \"_comment_socks5_bind\": \"The local port where the system/browser should connect (HTTP/SOCKS5)\",\n  \"socks5_bind\": \"127.0.0.1:1088\",\n  \n  \"_comment_tun\": \"Virtual network adapter settings (native OSTP TUN via wintun.dll)\",\n  \"tun\": {\n    \"enable\": false,\n    \"wintun_path\": \"./wintun.dll\",\n    \"ipv4_address\": \"10.1.0.2/24\",\n    \"dns\": \"1.1.1.1\",\n    \"kill_switch\": false\n  },\n  \n  \"_comment_exclude\": \"Bypass tunnel for these domains/IPs (only works in proxy mode)\",\n  \"exclude\": {\n    \"domains\": [\"localhost\", \"127.0.0.1\"],\n    \"ips\": [],\n    \"processes\": []\n  },\n  \n  \"mux\": {\n    \"enabled\": false,\n    \"sessions\": 1\n  },\n  \"debug\": false\n}";

/// The configuration as the windows show it: what the file holds, or one to begin with where
/// there is no file.
pub fn shown_config(file: Option<String>) -> (r: String)
    ensures
        r@ == match file {
            Some(f) => f@,
            None => FIRST_CONFIG@,
        },
{
    match file {
        Some(f) => f,
        None => owned(FIRST_CONFIG),
    }
}

/// Settings that are given are taken as they are.
pub proof fn given_settings_are_taken(raw: ClientConfigRaw, mode: Seq<char>, c: ClientConfig, w: TransportConfigRaw)
    requires
        maps_to(raw, mode, c),
    ensures
        c.mode@ == mode && c.ostp.server_addr@ == raw.server@ && c.ostp.access_key@ == raw.access_key@,
        raw.debug matches Some(d) ==> c.debug == d,
        raw.socks5_bind matches Some(b) ==> c.local_proxy.bind_addr@ == b@,
        raw.transport == Some(w) ==> {
            &&& w.mode matches Some(m) ==> c.transport.mode@ == m@
            &&& w.tcp_fragmentation matches Some(x) ==> c.transport.tcp_fragmentation == x
            &&& w.frag_chunk matches Some(x) ==> c.transport.frag_chunk == x
            &&& w.frag_sleep matches Some(x) ==> c.transport.frag_sleep == x
            &&& w.junk_pc matches Some(x) ==> c.transport.junk_pc@ == x@
            &&& w.junk_ps matches Some(x) ==> c.transport.junk_ps@ == x@
            &&& w.ttl_desync matches Some(x) ==> c.transport.ttl_desync == x
            &&& w.ttl_desync_ttl matches Some(x) ==> c.transport.ttl_desync_ttl == x
            &&& w.ttl_desync_count matches Some(x) ==> c.transport.ttl_desync_count == x
            &&& w.ttl_desync_auto matches Some(x) ==> c.transport.ttl_desync_auto == x
        },
        raw.mux matches Some(m) ==> (m.enabled matches Some(e) ==> c.multiplex.enabled == e),
        raw.mux matches Some(m) ==> (m.sessions matches Some(n) ==> c.multiplex.sessions == n),
        raw.tun matches Some(t) ==> (t.dns matches Some(d) ==> (c.dns_server matches Some(e) && e@ == d@)),
        raw.tun matches Some(t) ==> (t.stack matches Some(d) ==> c.tun_stack@ == d@),
        raw.tun matches Some(t) ==> (t.kill_switch matches Some(k) ==> c.kill_switch == k),
        raw.exclude matches Some(x) ==> (x.domains matches Some(d) ==> string_views(c.exclusions.domains@) == string_views(
            d@,
        )),
        raw.exclude matches Some(x) ==> (x.ips matches Some(d) ==> string_views(c.exclusions.ips@) == string_views(d@)),
        raw.exclude matches Some(x) ==> (x.processes matches Some(d) ==> string_views(c.exclusions.processes@)
            == string_views(d@)),
{
}

/// Settings that are left out are the usual ones.
pub proof fn missing_settings_are_usual(raw: ClientConfigRaw, mode: Seq<char>, c: ClientConfig)
    requires
        maps_to(raw, mode, c),
    ensures
        c.ostp.local_bind_addr@ == "0.0.0.0:0"@ && c.ostp.mtu == 1350 && c.ostp.keepalive_interval_sec == 5,
        c.ostp.handshake_timeout_ms == 5000 && c.ostp.io_timeout_ms == 5000 && c.local_proxy.connect_timeout_ms == 5000,
        raw.debug is None ==> !c.debug,
        raw.socks5_bind is None ==> c.local_proxy.bind_addr@ == "127.0.0.1:1088"@,
        raw.transport is None ==> c.transport.mode@ == "udp"@ && !c.transport.tcp_fragmentation && c.transport.frag_chunk == 2
            && c.transport.frag_sleep == 2 && c.transport.junk_pc@ == seq![2usize, 5] && c.transport.junk_ps@ == seq![
            100usize,
            1000,
        ] && !c.transport.ttl_desync && c.transport.ttl_desync_ttl == 8 && c.transport.ttl_desync_count == 2
            && c.transport.ttl_desync_auto,
        raw.transport matches Some(w) ==> {
            &&& w.mode is None ==> c.transport.mode@ == "udp"@
            &&& w.tcp_fragmentation is None ==> !c.transport.tcp_fragmentation
            &&& w.frag_chunk is None ==> c.transport.frag_chunk == 2
            &&& w.frag_sleep is None ==> c.transport.frag_sleep == 2
            &&& w.junk_pc is None ==> c.transport.junk_pc@ == seq![2usize, 5]
            &&& w.junk_ps is None ==> c.transport.junk_ps@ == seq![100usize, 1000]
            &&& w.ttl_desync is None ==> !c.transport.ttl_desync
            &&& w.ttl_desync_ttl is None ==> c.transport.ttl_desync_ttl == 8
            &&& w.ttl_desync_count is None ==> c.transport.ttl_desync_count == 2
            &&& w.ttl_desync_auto is None ==> c.transport.ttl_desync_auto
        },
        raw.exclude is None ==> c.exclusions.domains@.len() == 0 && c.exclusions.ips@.len() == 0
            && c.exclusions.processes@.len() == 0,
        raw.mux is None ==> !c.multiplex.enabled && c.multiplex.sessions == 1,
        raw.tun is None ==> c.dns_server is None && c.tun_stack@ == "system"@ && !c.kill_switch,
{
}

} // verus!
