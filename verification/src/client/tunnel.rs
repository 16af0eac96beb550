//! The one tunnel of the desktop client: how it is started, given new settings and
//! stopped, and what the windows show of it.

use vstd::prelude::*;

use crate::client::config::{core_config, map_to_client_config, maps_to, wants_tun, ClientConfig, ClientConfigRaw};
use crate::client::helper::{in_process_status, GuiCmd, HelperPipeState};
use crate::text::owned;

verus! {

/// How long a tunnel in this process gets to end, in milliseconds.
pub const STOP_WAIT_MS: u64 = 2000;

/// How long the helper gets to give back the device before another one asks for it, in
/// milliseconds.
pub const RELEASE_WAIT_MS: u64 = 1200;

/// The tunnel, if there is one.
pub enum Tunnel {
    Down,
    /// A proxy in this process, which may take new settings while it runs.
    InProcess { reloadable: bool },
    /// A device that the helper made; it obeys who knows the token.
    Helper { token: String, pipe: HelperPipeState },
}

/// What is done to stop a tunnel.
#[derive(Debug)]
pub enum Stop {
    Nothing,
    /// The proxy is told to end, and gets the time of `STOP_WAIT_MS`.
    Task,
    /// The helper gets this command.
    Command(GuiCmd),
}

/// What is started.
pub enum Start {
    InProcess(ClientConfig),
    Helper(ClientConfig),
}

/// Where new settings go.
pub enum Reload {
    /// There is nobody to take them.
    Nobody,
    InProcess(ClientConfig),
    Helper { token: String, config: ClientConfig },
}

/// What the windows show of a tunnel.
#[derive(Debug, Clone, Copy, PartialEq, Eq, Structural)]
pub struct UIMetrics {
    pub bytes_sent: u64,
    pub bytes_recv: u64,
    pub rtt_ms: u32,
}

/// What is to be started. Only the settings of a client will do, and a device needs its
/// driver where the platform has none.
pub fn start_plan(config: Option<&ClientConfigRaw>, driver_needed: bool, driver_found: bool) -> (r: Result<Start, String>)
    ensures
        match config {
            None => r matches Err(e) && e@ == "GUI only supports Client mode."@,
            Some(raw) => if raw.tun matches Some(t) && t.enable {
                if driver_needed && !driver_found {
                    r matches Err(e) && e@ == "WINTUN_MISSING"@
                } else {
                    r matches Ok(Start::Helper(c)) && maps_to(*raw, "tun"@, c)
                }
            } else {
                r matches Ok(Start::InProcess(c)) && maps_to(*raw, "proxy"@, c)
            },
        },
{
    match config {
        None => Err(owned("GUI only supports Client mode.")),
        Some(raw) => if wants_tun(raw) {
            if driver_needed && !driver_found {
                Err(owned("WINTUN_MISSING"))
            } else {
                Ok(Start::Helper(map_to_client_config(raw, "tun")))
            }
        } else {
            Ok(Start::InProcess(map_to_client_config(raw, "proxy")))
        },
    }
}

impl Tunnel {
    /// The tunnel is stopped, as it is before another one is started.
    pub fn stop(&mut self) -> (r: Stop)
        ensures
            *final(self) is Down,
            match *old(self) {
                Tunnel::Down => r is Nothing,
                Tunnel::InProcess { .. } => r is Task,
                Tunnel::Helper { token, .. } => r == Stop::Command(GuiCmd::Stop { token }),
            },
    {
        let mut was = Tunnel::Down;
        std::mem::swap(self, &mut was);
        match was {
            Tunnel::Down => Stop::Nothing,
            Tunnel::InProcess { .. } => Stop::Task,
            Tunnel::Helper { token, .. } => Stop::Command(GuiCmd::Stop { token }),
        }
    }

    /// The proxy was started in this process.
    pub fn on_in_process(&mut self)
        ensures
            *final(self) == (Tunnel::InProcess { reloadable: true }),
    {
        *self = Tunnel::InProcess { reloadable: true };
    }

    /// The helper was reached: it gets the settings, and is asked to start.
    pub fn on_helper(&mut self, token: String, config: String) -> (r: GuiCmd)
        ensures
            *final(self) matches Tunnel::Helper { token: t, pipe } && t == token && pipe == (HelperPipeState {
                connection_state: 1,
                bytes_sent: 0,
                bytes_recv: 0,
                rtt_ms: 0,
                error_msg: None,
            }),
            r matches GuiCmd::Start { config: c, token: t } && c == config && t@ == token@,
    {
        let known = owned(&token);
        *self = Tunnel::Helper { token, pipe: HelperPipeState::new() };
        GuiCmd::Start { config, token: known }
    }

    /// Where new settings go. Without a tunnel they are not looked at.
    pub fn reload(&self, config: Option<&ClientConfigRaw>) -> (r: Result<Reload, String>)
        ensures
            match (*self, config) {
                (Tunnel::Down, _) => r matches Ok(Reload::Nobody),
                (_, None) => r matches Err(e) && e@ == "GUI only supports Client mode."@,
                (Tunnel::InProcess { reloadable }, Some(raw)) => if reloadable {
                    r matches Ok(Reload::InProcess(c)) && maps_to(*raw, mode_of(*raw), c)
                } else {
                    r matches Ok(Reload::Nobody)
                },
                (Tunnel::Helper { token, .. }, Some(raw)) => r matches Ok(Reload::Helper { token: t, config: c }) && t@
                    == token@ && maps_to(*raw, mode_of(*raw), c),
            },
    {
        match self {
            Tunnel::Down => Ok(Reload::Nobody),
            Tunnel::InProcess { reloadable } => match config {
                None => Err(owned("GUI only supports Client mode.")),
                Some(raw) => if *reloadable {
                    Ok(Reload::InProcess(core_config(raw)))
                } else {
                    Ok(Reload::Nobody)
                },
            },
            Tunnel::Helper { token, .. } => match config {
                None => Err(owned("GUI only supports Client mode.")),
                Some(raw) => Ok(Reload::Helper { token: owned(token), config: core_config(raw) }),
            },
        }
    }

    /// The state of the tunnel, where one in this process has come to `finished`,
    /// `connection_state` and `error`. An error that ended a tunnel is told once.
    pub fn status(&mut self, finished: bool, connection_state: u8, error: &mut Option<String>) -> (r: Result<u8, String>)
        ensures
            match *old(self) {
                Tunnel::Down => r == Ok::<u8, String>(0) && *final(self) is Down && *final(error) == *old(error),
                Tunnel::InProcess { .. } => *final(self) == *old(self) && if !finished {
                    r == Ok::<u8, String>(connection_state) && *final(error) == *old(error)
                } else {
                    *final(error) is None && r == match *old(error) {
                        Some(e) => Err::<u8, String>(e),
                        None => Ok::<u8, String>(0),
                    }
                },
                Tunnel::Helper { token, pipe } => *final(error) == *old(error) && if pipe.connection_state == 0
                    && pipe.error_msg is Some {
                    &&& r == Err::<u8, String>(pipe.error_msg->0)
                    &&& *final(self) == (Tunnel::Helper { token, pipe: HelperPipeState { error_msg: None, ..pipe } })
                } else {
                    r == Ok::<u8, String>(pipe.connection_state) && *final(self) == *old(self)
                },
            },
    {
        let mut was = Tunnel::Down;
        std::mem::swap(self, &mut was);
        match was {
            Tunnel::Down => Ok(0),
            Tunnel::InProcess { reloadable } => {
                *self = Tunnel::InProcess { reloadable };
                in_process_status(finished, connection_state, error)
            },
            Tunnel::Helper { token, pipe } => {
                let mut p = pipe;
                let r = p.status();
                *self = Tunnel::Helper { token, pipe: p };
                r
            },
        }
    }

    /// The counters of the tunnel, where `own` are those of one in this process.
    pub fn metrics(&self, own: UIMetrics) -> (r: Option<UIMetrics>)
        ensures
            r == match *self {
                Tunnel::Down => None,
                Tunnel::InProcess { .. } => Some(own),
                Tunnel::Helper { pipe, .. } => Some(
                    UIMetrics { bytes_sent: pipe.bytes_sent, bytes_recv: pipe.bytes_recv, rtt_ms: pipe.rtt_ms },
                ),
            },
    {
        match self {
            Tunnel::Down => None,
            Tunnel::InProcess { .. } => Some(own),
            Tunnel::Helper { pipe, .. } => Some(
                UIMetrics { bytes_sent: pipe.bytes_sent, bytes_recv: pipe.bytes_recv, rtt_ms: pipe.rtt_ms },
            ),
        }
    }
}

/// The mode that settings ask for.
pub open spec fn mode_of(raw: ClientConfigRaw) -> Seq<char> {
    if raw.tun matches Some(t) && t.enable {
        "tun"@
    } else {
        "proxy"@
    }
}

/// A device is made exactly where the settings turn it on; otherwise it is a proxy.
pub proof fn devices_are_made_where_they_are_on(raw: ClientConfigRaw)
    ensures
        (raw.tun matches Some(t) && t.enable) ==> mode_of(raw) == "tun"@,
        raw.tun is None ==> mode_of(raw) == "proxy"@,
        (raw.tun matches Some(t) && !t.enable) ==> mode_of(raw) == "proxy"@,
{
}

} // verus!
