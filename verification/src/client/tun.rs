//! The routes that lead traffic into the tunnel, and the commands that set them and
//! take them back.

use vstd::prelude::*;

use crate::net::{show_ip, IpAddr};
use crate::text::{
    chars_are, chars_of, contains, holds_str, joined, lines, lines_of, owned, string_of, string_views, views, words, words_of,
};

verus! {

/// What a tunnel device is made with.
#[derive(Debug)]
pub struct OstpTunOptions {
    pub server_ip: IpAddr,
    pub bypass_ips: Vec<IpAddr>,
    pub dns_server: Option<String>,
    pub kill_switch: bool,
    pub mtu: u16,
    pub wintun_path: Option<String>,
}

/// A program and its arguments.
#[derive(Debug)]
pub struct CommandLine {
    pub words: Vec<String>,
}

impl View for CommandLine {
    type V = Seq<Seq<char>>;

    open spec fn view(&self) -> Seq<Seq<char>> {
        string_views(self.words@)
    }
}

pub open spec fn command_views(v: Seq<CommandLine>) -> Seq<Seq<Seq<char>>> {
    Seq::new(v.len(), |i: int| v[i]@)
}

pub open spec fn str_views(v: Seq<&str>) -> Seq<Seq<char>> {
    Seq::new(v.len(), |i: int| v[i]@)
}

/// The command line of `words`.
pub(crate) fn line(words: &[&str]) -> (r: CommandLine)
    ensures
        r@ == str_views(words@),
{
    let mut out: Vec<String> = Vec::new();
    let mut i: usize = 0;
    while i < words.len()
        invariant
            i <= words@.len(),
            out@.len() == i,
            forall|k: int| 0 <= k < i ==> (#[trigger] out@[k])@ == words@[k]@,
        decreases words@.len() - i,
    {
        out.push(owned(words[i]));
        i += 1;
    }
    let r = CommandLine { words: out };
    assert(r@ =~= str_views(words@));
    r
}

// ── The route in use ─────────────────────────────────────────────────────────

/// The word behind the first occurrence of a word.
pub open spec fn word_after(w: Seq<Seq<char>>, key: Seq<char>) -> Option<Seq<char>>
    decreases w.len(),
{
    if w.len() == 0 {
        None
    } else if w[0] == key {
        if w.len() > 1 {
            Some(w[1])
        } else {
            None
        }
    } else {
        word_after(w.drop_first(), key)
    }
}

fn find_after(w: &Vec<Vec<char>>, key: &str) -> (r: Option<String>)
    ensures
        match r {
            Some(s) => word_after(views(w@), key@) == Some(s@),
            None => word_after(views(w@), key@) is None,
        },
{
    let ghost all = views(w@);
    let mut i: usize = 0;
    assert(all.subrange(0, all.len() as int) =~= all);
    while i < w.len()
        invariant
            i <= w@.len(),
            all == views(w@),
            word_after(all, key@) == word_after(all.subrange(i as int, all.len() as int), key@),
        decreases w@.len() - i,
    {
        let ghost rest = all.subrange(i as int, all.len() as int);
        assert(rest[0] == w@[i as int]@);
        assert(rest.drop_first() =~= all.subrange(i + 1, all.len() as int));
        if chars_are(&w[i], key) {
            if i + 1 < w.len() {
                assert(rest[1] == w@[i + 1]@);
                return Some(string_of(&w[i + 1]));
            }
            return None;
        }
        i += 1;
    }
    None
}

/// The gateway and the device of the default route, in what `ip route show default`
/// prints.
pub fn linux_default_route(shown: &str) -> (r: (Option<String>, Option<String>))
    ensures
        opt_string(r.0) == word_after(words(shown@), "via"@),
        opt_string(r.1) == word_after(words(shown@), "dev"@),
{
    let v = chars_of(shown);
    let w = words_of(&v);
    (find_after(&w, "via"), find_after(&w, "dev"))
}

pub open spec fn opt_string(s: Option<String>) -> Option<Seq<char>> {
    match s {
        Some(s) => Some(s@),
        None => None,
    }
}

/// The second word of the first line that names a gateway.
pub open spec fn gateway_in(l: Seq<Seq<char>>) -> Option<Seq<char>>
    decreases l.len(),
{
    if l.len() == 0 {
        None
    } else if contains(l[0], "gateway:"@) {
        if words(l[0]).len() > 1 {
            Some(words(l[0])[1])
        } else {
            None
        }
    } else {
        gateway_in(l.drop_first())
    }
}

/// The gateway of the default route, in what `route -n get default` prints.
pub fn macos_gateway(shown: &str) -> (r: Option<String>)
    ensures
        opt_string(r) == gateway_in(lines(shown@)),
{
    let v = chars_of(shown);
    let l = lines_of(&v);
    let ghost all = views(l@);
    let mut i: usize = 0;
    assert(all.subrange(0, all.len() as int) =~= all);
    while i < l.len()
        invariant
            i <= l@.len(),
            all == views(l@),
            all == lines(shown@),
            gateway_in(all) == gateway_in(all.subrange(i as int, all.len() as int)),
        decreases l@.len() - i,
    {
        let ghost rest = all.subrange(i as int, all.len() as int);
        assert(rest[0] == l@[i as int]@);
        assert(rest.drop_first() =~= all.subrange(i + 1, all.len() as int));
        if holds_str(&l[i], "gateway:") {
            let w = words_of(&l[i]);
            assert(views(w@).len() == w@.len());
            if w.len() > 1 {
                assert(views(w@)[1] == w@[1]@);
                return Some(string_of(&w[1]));
            }
            return None;
        }
        i += 1;
    }
    None
}

// ── Linux ────────────────────────────────────────────────────────────────────

/// An address as a route of its own.
pub open spec fn host_route(ip: IpAddr) -> Seq<char> {
    show_ip(ip) + "/32"@
}

pub open spec fn host_routes(ips: Seq<IpAddr>) -> Seq<Seq<char>> {
    Seq::new(ips.len(), |i: int| host_route(ips[i]))
}

/// Adds a route through the gateway in use.
pub open spec fn ip_add(dest: Seq<char>, gw: Seq<char>, dev: Seq<char>) -> Seq<Seq<char>> {
    seq!["ip"@, "route"@, "add"@, dest, "via"@, gw, "dev"@, dev]
}

/// Deletes a route.
pub open spec fn ip_del(dest: Seq<char>) -> Seq<Seq<char>> {
    seq!["ip"@, "route"@, "del"@, dest]
}

/// The default route, into the tunnel.
pub open spec fn ip_default(verb: Seq<char>) -> Seq<Seq<char>> {
    seq!["ip"@, "route"@, verb, "default"@, "dev"@, "ostp_tun"@]
}

/// The default route that was in use.
pub open spec fn ip_original(verb: Seq<char>, gw: Seq<char>, dev: Seq<char>) -> Seq<Seq<char>> {
    seq!["ip"@, "route"@, verb, "default"@, "via"@, gw, "dev"@, dev]
}

/// What the routes on Linux are set with, so that they can be taken back.
#[derive(Debug)]
pub struct LinuxRouteGuard {
    pub server_ip: String,
    pub bypass_routes: Vec<String>,
    pub real_gw: Option<String>,
    pub real_dev: Option<String>,
    pub kill_switch: bool,
}

/// The commands that lead traffic into the tunnel on Linux: the server and what is to
/// bypass the tunnel keep the route in use, everything else goes in. With the kill
/// switch, nothing can leave by the route that was in use.
pub open spec fn linux_setup(
    server: Seq<char>,
    bypass: Seq<Seq<char>>,
    route: Option<(Seq<char>, Seq<char>)>,
    kill_switch: bool,
    dns: Option<Seq<char>>,
) -> Seq<Seq<Seq<char>>> {
    (match route {
        Some((gw, dev)) => seq![ip_add(server + "/32"@, gw, dev)] + Seq::new(
            bypass.len(),
            |i: int| ip_add(bypass[i], gw, dev),
        ) + seq![ip_default("add"@)] + if kill_switch {
            seq![ip_original("del"@, gw, dev)]
        } else {
            Seq::empty()
        },
        None => Seq::empty(),
    }) + match dns {
        Some(d) => if d.len() > 0 {
            seq![
                seq!["resolvectl"@, "dns"@, "ostp_tun"@, d],
                seq!["resolvectl"@, "domain"@, "ostp_tun"@, "~."@],
                seq!["resolvectl"@, "default-route"@, "ostp_tun"@, "true"@],
            ]
        } else {
            Seq::empty()
        },
        None => Seq::empty(),
    }
}

/// The commands that take the routes back.
pub open spec fn linux_teardown(
    server: Seq<char>,
    bypass: Seq<Seq<char>>,
    route: Option<(Seq<char>, Seq<char>)>,
    kill_switch: bool,
) -> Seq<Seq<Seq<char>>> {
    seq![ip_default("del"@), ip_del(server + "/32"@)] + Seq::new(bypass.len(), |i: int| ip_del(bypass[i])) + match route {
        Some((gw, dev)) => if kill_switch {
            seq![ip_original("add"@, gw, dev)]
        } else {
            Seq::empty()
        },
        None => Seq::empty(),
    }
}

/// Gateway and device, where both are known.
pub open spec fn both(a: Option<Seq<char>>, b: Option<Seq<char>>) -> Option<(Seq<char>, Seq<char>)> {
    match (a, b) {
        (Some(a), Some(b)) => Some((a, b)),
        _ => None,
    }
}

impl LinuxRouteGuard {
    pub open spec fn route(&self) -> Option<(Seq<char>, Seq<char>)> {
        both(opt_string(self.real_gw), opt_string(self.real_dev))
    }

    /// What takes the routes back.
    pub fn teardown(&self) -> (r: Vec<CommandLine>)
        ensures
            command_views(r@) == linux_teardown(self.server_ip@, string_views(self.bypass_routes@), self.route(), self.kill_switch),
    {
        let mut out: Vec<CommandLine> = Vec::new();
        let own = joined(&self.server_ip, "/32");
        let words = ["ip", "route", "del", "default", "dev", "ostp_tun"];
        assert(str_views(words@) =~= ip_default("del"@));
        out.push(line(&words));
        let words = ["ip", "route", "del", own.as_str()];
        assert(str_views(words@) =~= ip_del(self.server_ip@ + "/32"@));
        out.push(line(&words));
        let ghost bypass = string_views(self.bypass_routes@);
        let ghost head = seq![ip_default("del"@), ip_del(self.server_ip@ + "/32"@)];
        assert(command_views(out@) =~= head + Seq::new(0, |i: int| ip_del(bypass[i])));
        let mut i: usize = 0;
        while i < self.bypass_routes.len()
            invariant
                i <= self.bypass_routes@.len(),
                bypass == string_views(self.bypass_routes@),
                command_views(out@) == head + Seq::new(i as nat, |k: int| ip_del(bypass[k])),
            decreases self.bypass_routes@.len() - i,
        {
            let ghost before = command_views(out@);
            let words = ["ip", "route", "del", self.bypass_routes[i].as_str()];
            assert(str_views(words@) =~= ip_del(bypass[i as int]));
            out.push(line(&words));
            assert(command_views(out@) =~= before.push(ip_del(bypass[i as int])));
            assert(command_views(out@) =~= head + Seq::new((i + 1) as nat, |k: int| ip_del(bypass[k])));
            i += 1;
        }
        let ghost before = command_views(out@);
        if self.kill_switch {
            if let (Some(gw), Some(dev)) = (&self.real_gw, &self.real_dev) {
                let words = ["ip", "route", "add", "default", "via", gw.as_str(), "dev", dev.as_str()];
                assert(str_views(words@) =~= ip_original("add"@, gw@, dev@));
                out.push(line(&words));
                assert(command_views(out@) =~= before + seq![ip_original("add"@, gw@, dev@)]);
            }
        }
        assert(command_views(out@) =~= linux_teardown(self.server_ip@, bypass, self.route(), self.kill_switch));
        out
    }
}

/// The commands that lead traffic into the tunnel on Linux, and what is needed to take
/// the routes back. Nothing bypasses the tunnel where the route in use is not known.
pub fn linux_routes(opts: &OstpTunOptions, real_gw: Option<String>, real_dev: Option<String>) -> (r: (
    Vec<CommandLine>,
    LinuxRouteGuard,
))
    ensures
        command_views(r.0@) == linux_setup(
            show_ip(opts.server_ip),
            host_routes(opts.bypass_ips@),
            both(opt_string(real_gw), opt_string(real_dev)),
            opts.kill_switch,
            opt_string(opts.dns_server),
        ),
        r.1.server_ip@ == show_ip(opts.server_ip),
        string_views(r.1.bypass_routes@) == if both(opt_string(real_gw), opt_string(real_dev)) is Some {
            host_routes(opts.bypass_ips@)
        } else {
            Seq::empty()
        },
        r.1.real_gw == real_gw,
        r.1.real_dev == real_dev,
        r.1.kill_switch == opts.kill_switch,
{
    let server = opts.server_ip.text();
    let mut out: Vec<CommandLine> = Vec::new();
    let mut routes: Vec<String> = Vec::new();
    let ghost bypass = host_routes(opts.bypass_ips@);
    if let (Some(gw), Some(dev)) = (&real_gw, &real_dev) {
        let own = joined(&server, "/32");
        let ghost head = seq![ip_add(server@ + "/32"@, gw@, dev@)];
        let words = ["ip", "route", "add", own.as_str(), "via", gw.as_str(), "dev", dev.as_str()];
        assert(str_views(words@) =~= ip_add(server@ + "/32"@, gw@, dev@));
        out.push(line(&words));
        assert(command_views(out@) =~= head + Seq::new(0, |k: int| ip_add(bypass[k], gw@, dev@)));
        assert(string_views(routes@) =~= bypass.subrange(0, 0));
        let mut i: usize = 0;
        while i < opts.bypass_ips.len()
            invariant
                i <= opts.bypass_ips@.len(),
                bypass == host_routes(opts.bypass_ips@),
                command_views(out@) == head + Seq::new(i as nat, |k: int| ip_add(bypass[k], gw@, dev@)),
                string_views(routes@) == bypass.subrange(0, i as int),
            decreases opts.bypass_ips@.len() - i,
        {
            let ghost before = command_views(out@);
            let ghost listed = string_views(routes@);
            let route = joined(&opts.bypass_ips[i].text(), "/32");
            assert(route@ == bypass[i as int]);
            let words = ["ip", "route", "add", route.as_str(), "via", gw.as_str(), "dev", dev.as_str()];
            assert(str_views(words@) =~= ip_add(bypass[i as int], gw@, dev@));
            out.push(line(&words));
            assert(command_views(out@) =~= before.push(ip_add(bypass[i as int], gw@, dev@)));
            assert(command_views(out@) =~= head + Seq::new((i + 1) as nat, |k: int| ip_add(bypass[k], gw@, dev@)));
            routes.push(route);
            assert(string_views(routes@) =~= listed.push(bypass[i as int]));
            assert(string_views(routes@) =~= bypass.subrange(0, i + 1));
            i += 1;
        }
        assert(bypass.subrange(0, i as int) =~= bypass);
        let ghost before = command_views(out@);
        let words = ["ip", "route", "add", "default", "dev", "ostp_tun"];
        assert(str_views(words@) =~= ip_default("add"@));
        out.push(line(&words));
        assert(command_views(out@) =~= before + seq![ip_default("add"@)]);
        if opts.kill_switch {
            let ghost before = command_views(out@);
            let words = ["ip", "route", "del", "default", "via", gw.as_str(), "dev", dev.as_str()];
            assert(str_views(words@) =~= ip_original("del"@, gw@, dev@));
            out.push(line(&words));
            assert(command_views(out@) =~= before + seq![ip_original("del"@, gw@, dev@)]);
        }
    } else {
        assert(string_views(routes@) =~= Seq::<Seq<char>>::empty());
    }
    let ghost routed = command_views(out@);
    if let Some(dns) = &opts.dns_server {
        if chars_of(dns).len() > 0 {
            let words = ["resolvectl", "dns", "ostp_tun", dns.as_str()];
            assert(str_views(words@) =~= seq!["resolvectl"@, "dns"@, "ostp_tun"@, dns@]);
            out.push(line(&words));
            let words = ["resolvectl", "domain", "ostp_tun", "~."];
            assert(str_views(words@) =~= seq!["resolvectl"@, "domain"@, "ostp_tun"@, "~."@]);
            out.push(line(&words));
            let words = ["resolvectl", "default-route", "ostp_tun", "true"];
            assert(str_views(words@) =~= seq!["resolvectl"@, "default-route"@, "ostp_tun"@, "true"@]);
            out.push(line(&words));
            assert(command_views(out@) =~= routed + seq![
                seq!["resolvectl"@, "dns"@, "ostp_tun"@, dns@],
                seq!["resolvectl"@, "domain"@, "ostp_tun"@, "~."@],
                seq!["resolvectl"@, "default-route"@, "ostp_tun"@, "true"@],
            ]);
        }
    }
    assert(command_views(out@) =~= linux_setup(
        show_ip(opts.server_ip),
        bypass,
        both(opt_string(real_gw), opt_string(real_dev)),
        opts.kill_switch,
        opt_string(opts.dns_server),
    ));
    let guard = LinuxRouteGuard {
        server_ip: server,
        bypass_routes: routes,
        real_gw,
        real_dev,
        kill_switch: opts.kill_switch,
    };
    (out, guard)
}

/// The command deletes what the other one added.
pub open spec fn takes_back(del: Seq<Seq<char>>, add: Seq<Seq<char>>) -> bool {
    del.len() >= 4 && add.len() >= 4 && del[0] == add[0] && del[2] == "del"@ && add[2] == "add"@ && del[3] == add[3]
}

/// Every route that is set on Linux is taken back, and with the kill switch the route
/// that was in use comes back too; without it that route is never touched.
pub proof fn linux_routes_are_taken_back(
    server: Seq<char>,
    bypass: Seq<Seq<char>>,
    gw: Seq<char>,
    dev: Seq<char>,
    kill_switch: bool,
    dns: Option<Seq<char>>,
)
    ensures
        ({
            let up = linux_setup(server, bypass, Some((gw, dev)), kill_switch, dns);
            let down = linux_teardown(server, bypass, Some((gw, dev)), kill_switch);
            &&& forall|i: int|
                0 <= i < bypass.len() + 2 ==> exists|j: int|
                    0 <= j < down.len() && takes_back(#[trigger] down[j], #[trigger] up[i])
            &&& kill_switch ==> up.contains(ip_original("del"@, gw, dev)) && down.contains(ip_original("add"@, gw, dev))
            &&& !kill_switch ==> !up.contains(ip_original("del"@, gw, dev)) && !down.contains(ip_original("add"@, gw, dev))
        }),
{
    let up = linux_setup(server, bypass, Some((gw, dev)), kill_switch, dns);
    let down = linux_teardown(server, bypass, Some((gw, dev)), kill_switch);
    let n = bypass.len() as int;
    reveal_strlit("add");
    reveal_strlit("del");
    reveal_strlit("ip");
    reveal_strlit("resolvectl");
    assert("add"@[0] == 'a' && "del"@[0] == 'd');
    assert("ip"@[0] == 'i' && "resolvectl"@[0] == 'r');
    assert forall|i: int| 0 <= i < n + 2 implies exists|j: int|
        0 <= j < down.len() && takes_back(#[trigger] down[j], #[trigger] up[i]) by {
        if i == 0 {
            assert(takes_back(down[1], up[0]));
        } else if i <= n {
            assert(up[i] == ip_add(bypass[i - 1], gw, dev));
            assert(down[i + 1] == ip_del(bypass[i - 1]));
            assert(takes_back(down[i + 1], up[i]));
        } else {
            assert(up[i] == ip_default("add"@));
            assert(takes_back(down[0], up[i]));
        }
    }
    if kill_switch {
        assert(up[n + 2] == ip_original("del"@, gw, dev));
        assert(down[n + 2] == ip_original("add"@, gw, dev));
    } else {
        let del = ip_original("del"@, gw, dev);
        let add = ip_original("add"@, gw, dev);
        assert forall|i: int| 0 <= i < up.len() implies up[i] != del by {
            if i < n + 2 {
                if 0 < i <= n {
                    assert(up[i] == ip_add(bypass[i - 1], gw, dev));
                }
                assert(up[i][2] == "add"@);
                assert(del[2] == "del"@);
            } else {
                assert(up[i][0] == "resolvectl"@);
                assert(del[0] == "ip"@);
            }
        }
        assert forall|i: int| 0 <= i < down.len() implies down[i] != add by {
            if 2 <= i {
                assert(down[i] == ip_del(bypass[i - 2]));
            }
            assert(down[i][2] == "del"@);
            assert(add[2] == "add"@);
        }
    }
}

// ── macOS ────────────────────────────────────────────────────────────────────

/// A route to a host.
pub open spec fn route_host(verb: Seq<char>, host: Seq<char>) -> Seq<Seq<char>> {
    seq!["route"@, verb, "-host"@, host]
}

/// The default route, into the tunnel.
pub open spec fn route_default(verb: Seq<char>) -> Seq<Seq<char>> {
    seq!["route"@, verb, "-net"@, "default"@, "-interface"@, "utun5"@]
}

/// The default route that was in use.
pub open spec fn route_original(verb: Seq<char>, gw: Seq<char>) -> Seq<Seq<char>> {
    seq!["route"@, verb, "default"@, gw]
}

pub open spec fn hosts(ips: Seq<IpAddr>) -> Seq<Seq<char>> {
    Seq::new(ips.len(), |i: int| show_ip(ips[i]))
}

/// The commands that lead traffic into the tunnel on macOS.
pub open spec fn macos_setup(server: Seq<char>, bypass: Seq<Seq<char>>, gw: Option<Seq<char>>, kill_switch: bool) -> Seq<
    Seq<Seq<char>>,
> {
    match gw {
        Some(gw) => seq![route_host("add"@, server).push(gw)] + Seq::new(
            bypass.len(),
            |i: int| route_host("add"@, bypass[i]).push(gw),
        ) + seq![route_default("add"@)] + if kill_switch {
            seq![route_original("delete"@, gw)]
        } else {
            Seq::empty()
        },
        None => Seq::empty(),
    }
}

/// The commands that take the routes back.
pub open spec fn macos_teardown(server: Seq<char>, bypass: Seq<Seq<char>>, gw: Option<Seq<char>>, kill_switch: bool) -> Seq<
    Seq<Seq<char>>,
> {
    seq![route_default("delete"@), route_host("delete"@, server)] + Seq::new(
        bypass.len(),
        |i: int| route_host("delete"@, bypass[i]),
    ) + match gw {
        Some(gw) => if kill_switch {
            seq![route_original("add"@, gw)]
        } else {
            Seq::empty()
        },
        None => Seq::empty(),
    }
}

/// What the routes on macOS are set with, so that they can be taken back.
#[derive(Debug)]
pub struct MacosRouteGuard {
    pub server_ip: String,
    pub bypass_routes: Vec<String>,
    pub real_gw: Option<String>,
    pub kill_switch: bool,
}

impl MacosRouteGuard {
    /// What takes the routes back.
    pub fn teardown(&self) -> (r: Vec<CommandLine>)
        ensures
            command_views(r@) == macos_teardown(
                self.server_ip@,
                string_views(self.bypass_routes@),
                opt_string(self.real_gw),
                self.kill_switch,
            ),
    {
        let mut out: Vec<CommandLine> = Vec::new();
        let words = ["route", "delete", "-net", "default", "-interface", "utun5"];
        assert(str_views(words@) =~= route_default("delete"@));
        out.push(line(&words));
        let words = ["route", "delete", "-host", self.server_ip.as_str()];
        assert(str_views(words@) =~= route_host("delete"@, self.server_ip@));
        out.push(line(&words));
        let ghost bypass = string_views(self.bypass_routes@);
        let ghost head = seq![route_default("delete"@), route_host("delete"@, self.server_ip@)];
        assert(command_views(out@) =~= head + Seq::new(0, |i: int| route_host("delete"@, bypass[i])));
        let mut i: usize = 0;
        while i < self.bypass_routes.len()
            invariant
                i <= self.bypass_routes@.len(),
                bypass == string_views(self.bypass_routes@),
                command_views(out@) == head + Seq::new(i as nat, |k: int| route_host("delete"@, bypass[k])),
            decreases self.bypass_routes@.len() - i,
        {
            let ghost before = command_views(out@);
            let words = ["route", "delete", "-host", self.bypass_routes[i].as_str()];
            assert(str_views(words@) =~= route_host("delete"@, bypass[i as int]));
            out.push(line(&words));
            assert(command_views(out@) =~= before.push(route_host("delete"@, bypass[i as int])));
            assert(command_views(out@) =~= head + Seq::new((i + 1) as nat, |k: int| route_host("delete"@, bypass[k])));
            i += 1;
        }
        let ghost before = command_views(out@);
        if self.kill_switch {
            if let Some(gw) = &self.real_gw {
                let words = ["route", "add", "default", gw.as_str()];
                assert(str_views(words@) =~= route_original("add"@, gw@));
                out.push(line(&words));
                assert(command_views(out@) =~= before + seq![route_original("add"@, gw@)]);
            }
        }
        assert(command_views(out@) =~= macos_teardown(self.server_ip@, bypass, opt_string(self.real_gw), self.kill_switch));
        out
    }
}

/// The commands that lead traffic into the tunnel on macOS, and what is needed to take
/// the routes back.
pub fn macos_routes(opts: &OstpTunOptions, real_gw: Option<String>) -> (r: (Vec<CommandLine>, MacosRouteGuard))
    ensures
        command_views(r.0@) == macos_setup(
            show_ip(opts.server_ip),
            hosts(opts.bypass_ips@),
            opt_string(real_gw),
            opts.kill_switch,
        ),
        r.1.server_ip@ == show_ip(opts.server_ip),
        string_views(r.1.bypass_routes@) == if real_gw is Some {
            hosts(opts.bypass_ips@)
        } else {
            Seq::empty()
        },
        r.1.real_gw == real_gw,
        r.1.kill_switch == opts.kill_switch,
{
    let server = opts.server_ip.text();
    let mut out: Vec<CommandLine> = Vec::new();
    let mut routes: Vec<String> = Vec::new();
    let ghost bypass = hosts(opts.bypass_ips@);
    if let Some(gw) = &real_gw {
        let ghost head = seq![route_host("add"@, server@).push(gw@)];
        let words = ["route", "add", "-host", server.as_str(), gw.as_str()];
        assert(str_views(words@) =~= route_host("add"@, server@).push(gw@));
        out.push(line(&words));
        assert(command_views(out@) =~= head + Seq::new(0, |k: int| route_host("add"@, bypass[k]).push(gw@)));
        assert(string_views(routes@) =~= bypass.subrange(0, 0));
        let mut i: usize = 0;
        while i < opts.bypass_ips.len()
            invariant
                i <= opts.bypass_ips@.len(),
                bypass == hosts(opts.bypass_ips@),
                command_views(out@) == head + Seq::new(i as nat, |k: int| route_host("add"@, bypass[k]).push(gw@)),
                string_views(routes@) == bypass.subrange(0, i as int),
            decreases opts.bypass_ips@.len() - i,
        {
            let ghost before = command_views(out@);
            let ghost listed = string_views(routes@);
            let route = opts.bypass_ips[i].text();
            assert(route@ == bypass[i as int]);
            let words = ["route", "add", "-host", route.as_str(), gw.as_str()];
            assert(str_views(words@) =~= route_host("add"@, bypass[i as int]).push(gw@));
            out.push(line(&words));
            assert(command_views(out@) =~= before.push(route_host("add"@, bypass[i as int]).push(gw@)));
            assert(command_views(out@) =~= head + Seq::new(
                (i + 1) as nat,
                |k: int| route_host("add"@, bypass[k]).push(gw@),
            ));
            routes.push(route);
            assert(string_views(routes@) =~= listed.push(bypass[i as int]));
            assert(string_views(routes@) =~= bypass.subrange(0, i + 1));
            i += 1;
        }
        assert(bypass.subrange(0, i as int) =~= bypass);
        let ghost before = command_views(out@);
        let words = ["route", "add", "-net", "default", "-interface", "utun5"];
        assert(str_views(words@) =~= route_default("add"@));
        out.push(line(&words));
        assert(command_views(out@) =~= before + seq![route_default("add"@)]);
        if opts.kill_switch {
            let ghost before = command_views(out@);
            let words = ["route", "delete", "default", gw.as_str()];
            assert(str_views(words@) =~= route_original("delete"@, gw@));
            out.push(line(&words));
            assert(command_views(out@) =~= before + seq![route_original("delete"@, gw@)]);
        }
    } else {
        assert(string_views(routes@) =~= Seq::<Seq<char>>::empty());
    }
    assert(command_views(out@) =~= macos_setup(
        show_ip(opts.server_ip),
        bypass,
        opt_string(real_gw),
        opts.kill_switch,
    ));
    let guard = MacosRouteGuard { server_ip: server, bypass_routes: routes, real_gw, kill_switch: opts.kill_switch };
    (out, guard)
}

/// With the kill switch, macOS gets the route that was in use back, and without it that
/// route is left alone; every host that bypassed the tunnel loses its route.
pub proof fn macos_routes_are_taken_back(server: Seq<char>, bypass: Seq<Seq<char>>, gw: Seq<char>, kill_switch: bool)
    ensures
        ({
            let down = macos_teardown(server, bypass, Some(gw), kill_switch);
            &&& down.contains(route_host("delete"@, server))
            &&& down.contains(route_default("delete"@))
            &&& forall|i: int| 0 <= i < bypass.len() ==> down.contains(route_host("delete"@, #[trigger] bypass[i]))
            &&& down.contains(route_original("add"@, gw)) == kill_switch
            &&& macos_setup(server, bypass, Some(gw), kill_switch).contains(route_original("delete"@, gw)) == kill_switch
        }),
{
    let up = macos_setup(server, bypass, Some(gw), kill_switch);
    let down = macos_teardown(server, bypass, Some(gw), kill_switch);
    let n = bypass.len() as int;
    reveal_strlit("add");
    reveal_strlit("delete");
    assert("add"@[0] == 'a' && "delete"@[0] == 'd');
    assert(down[0] == route_default("delete"@));
    assert(down[1] == route_host("delete"@, server));
    assert forall|i: int| 0 <= i < n implies down.contains(route_host("delete"@, #[trigger] bypass[i])) by {
        assert(down[i + 2] == route_host("delete"@, bypass[i]));
    }
    let add = route_original("add"@, gw);
    let del = route_original("delete"@, gw);
    if kill_switch {
        assert(down[n + 2] == add);
        assert(up[n + 2] == del);
    } else {
        assert forall|i: int| 0 <= i < down.len() implies down[i] != add by {
            if 2 <= i {
                assert(down[i] == route_host("delete"@, bypass[i - 2]));
            }
            assert(down[i][1] == "delete"@);
            assert(add[1] == "add"@);
        }
        assert forall|i: int| 0 <= i < up.len() implies up[i] != del by {
            if 0 < i <= n {
                assert(up[i] == route_host("add"@, bypass[i - 1]).push(gw));
            }
            assert(up[i][1] == "add"@);
            assert(del[1] == "delete"@);
        }
    }
}

/// On Linux the server and every address that goes past the tunnel get a route through the
/// gateway, and everything else one through the tunnel; names are asked for through it too.
pub proof fn linux_routes_are_set(
    server: Seq<char>,
    bypass: Seq<Seq<char>>,
    gw: Seq<char>,
    dev: Seq<char>,
    kill_switch: bool,
    dns: Seq<char>,
    i: int,
)
    ensures
        ({
            let up = linux_setup(server, bypass, Some((gw, dev)), kill_switch, Some(dns));
            &&& up[0] == seq!["ip"@, "route"@, "add"@, server + "/32"@, "via"@, gw, "dev"@, dev]
            &&& 0 <= i < bypass.len() ==> up.contains(seq!["ip"@, "route"@, "add"@, bypass[i], "via"@, gw, "dev"@, dev])
            &&& up.contains(seq!["ip"@, "route"@, "add"@, "default"@, "dev"@, "ostp_tun"@])
            &&& kill_switch ==> up.contains(seq!["ip"@, "route"@, "del"@, "default"@, "via"@, gw, "dev"@, dev])
            &&& dns.len() > 0 ==> up.contains(seq!["resolvectl"@, "dns"@, "ostp_tun"@, dns])
            &&& up.len() == 2 + bypass.len() + (if kill_switch {
                1int
            } else {
                0
            }) + (if dns.len() > 0 {
                3int
            } else {
                0
            })
        }),
        linux_setup(server, bypass, None, kill_switch, None).len() == 0,
{
    let up = linux_setup(server, bypass, Some((gw, dev)), kill_switch, Some(dns));
    let n = bypass.len() as int;
    assert(up[0] == ip_add(server + "/32"@, gw, dev));
    if 0 <= i < n {
        assert(up[1 + i] == ip_add(bypass[i], gw, dev));
    }
    assert(up[1 + n] == ip_default("add"@));
    if kill_switch {
        assert(up[2 + n] == ip_original("del"@, gw, dev));
    }
    if dns.len() > 0 {
        let k = if kill_switch {
            3 + n
        } else {
            2 + n
        };
        assert(up[k] == seq!["resolvectl"@, "dns"@, "ostp_tun"@, dns]);
    }
}

/// On Macos the server and every address that goes past the tunnel get a route through the
/// gateway, and everything else one through the tunnel.
pub proof fn macos_routes_are_set(server: Seq<char>, bypass: Seq<Seq<char>>, gw: Seq<char>, kill_switch: bool, i: int)
    ensures
        ({
            let up = macos_setup(server, bypass, Some(gw), kill_switch);
            &&& up[0] == seq!["route"@, "add"@, "-host"@, server, gw]
            &&& 0 <= i < bypass.len() ==> up[1 + i] == seq!["route"@, "add"@, "-host"@, bypass[i], gw]
            &&& up[1 + bypass.len() as int] == seq!["route"@, "add"@, "-net"@, "default"@, "-interface"@, "utun5"@]
            &&& kill_switch ==> up.last() == seq!["route"@, "delete"@, "default"@, gw]
        }),
        macos_setup(server, bypass, None, kill_switch).len() == 0,
{
    let up = macos_setup(server, bypass, Some(gw), kill_switch);
    assert(up[0] =~= seq!["route"@, "add"@, "-host"@, server, gw]);
    if 0 <= i < bypass.len() {
        assert(up[1 + i] =~= seq!["route"@, "add"@, "-host"@, bypass[i], gw]);
    }
}

/// A word is looked for by the one before it: the first such word counts.
pub proof fn words_are_found_by_the_one_before(w: Seq<Seq<char>>, key: Seq<char>, i: int)
    requires
        0 <= i,
        i + 1 < w.len(),
        w[i] == key,
        forall|j: int| 0 <= j < i ==> #[trigger] w[j] != key,
    ensures
        word_after(w, key) == Some(w[i + 1]),
    decreases i,
{
    if i > 0 {
        assert(w[0] != key);
        let d = w.drop_first();
        assert forall|j: int| 0 <= j < i - 1 implies #[trigger] d[j] != key by {
            assert(d[j] == w[j + 1]);
        }
        words_are_found_by_the_one_before(d, key, i - 1);
    }
}

/// The gateway is the second word of the first line that names one.
pub proof fn gateways_are_found_in_their_line(l: Seq<Seq<char>>, i: int)
    requires
        0 <= i < l.len(),
        contains(l[i], "gateway:"@),
        forall|j: int| 0 <= j < i ==> !contains(#[trigger] l[j], "gateway:"@),
    ensures
        words(l[i]).len() > 1 ==> gateway_in(l) == Some(words(l[i])[1]),
        words(l[i]).len() <= 1 ==> gateway_in(l) is None,
    decreases i,
{
    if i > 0 {
        assert(!contains(l[0], "gateway:"@));
        let d = l.drop_first();
        assert forall|j: int| 0 <= j < i - 1 implies !contains(#[trigger] d[j], "gateway:"@) by {
            assert(d[j] == l[j + 1]);
        }
        gateways_are_found_in_their_line(d, i - 1);
    }
}

/// A route to one host is its address with all its bits.
pub proof fn host_routes_are_single(ips: Seq<IpAddr>, i: int)
    requires
        0 <= i < ips.len(),
    ensures
        host_routes(ips).len() == ips.len(),
        host_routes(ips)[i] == show_ip(ips[i]) + "/32"@,
        hosts(ips)[i] == show_ip(ips[i]),
{
}

} // verus!
