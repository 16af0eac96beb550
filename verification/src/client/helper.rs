//! The helper with the rights to make a tunnel device: what it is started with, the
//! commands that it takes, and what it tells.

use vstd::prelude::*;

use crate::json::{json_quoted, quoted};
use crate::text::{chars_of, decimal, number, owned, parse_number, put_decimal, put_str, same_str, string_of, string_views};

verus! {

/// The port that the helper listens on where none is given.
pub const DEFAULT_PORT: u16 = 53211;

/// What the helper is started with.
#[derive(Debug)]
pub struct HelperArgs {
    pub port: u16,
    pub token: String,
}

/// The value behind the last occurrence of a flag that has one.
pub open spec fn flag_value(args: Seq<Seq<char>>, flag: Seq<char>) -> Option<Seq<char>>
    decreases args.len(),
{
    if args.len() < 2 {
        None
    } else if args[args.len() - 2] == flag {
        Some(args.last())
    } else {
        flag_value(args.drop_last(), flag)
    }
}

/// The port among the arguments.
pub open spec fn port_in(args: Seq<Seq<char>>) -> int {
    match flag_value(args, "--port"@) {
        Some(p) => match parse_number(p, 0xffff) {
            Some(n) => n,
            None => DEFAULT_PORT as int,
        },
        None => DEFAULT_PORT as int,
    }
}

/// The token among the arguments.
pub open spec fn token_in(args: Seq<Seq<char>>) -> Seq<char> {
    match flag_value(args, "--token"@) {
        Some(t) => t,
        None => Seq::empty(),
    }
}

fn find_flag(args: &Vec<String>, flag: &str) -> (r: Option<String>)
    ensures
        match r {
            Some(s) => flag_value(string_views(args@), flag@) == Some(s@),
            None => flag_value(string_views(args@), flag@) is None,
        },
{
    let ghost all = string_views(args@);
    let mut n: usize = args.len();
    assert(all.subrange(0, n as int) =~= all);
    while n >= 2
        invariant
            n <= args@.len(),
            all == string_views(args@),
            flag_value(all, flag@) == flag_value(all.subrange(0, n as int), flag@),
        decreases n,
    {
        let ghost u = all.subrange(0, n as int);
        assert(u[n - 2] == args@[n - 2]@);
        assert(u.last() == args@[n - 1]@);
        assert(u.drop_last() =~= all.subrange(0, n - 1));
        if same_str(&args[n - 2], flag) {
            return Some(owned(&args[n - 1]));
        }
        n -= 1;
    }
    None
}

impl HelperArgs {
    /// Reads the arguments, without the name of the program. Where there is no token the
    /// helper does not start: everybody could command it.
    pub fn parse(args: &Vec<String>) -> (r: Option<HelperArgs>)
        ensures
            match r {
                Some(h) => {
                    &&& h.port == port_in(string_views(args@))
                    &&& h.token@ == token_in(string_views(args@))
                    &&& h.token@.len() > 0
                },
                None => token_in(string_views(args@)).len() == 0,
            },
    {
        let port: u16 = match find_flag(args, "--port") {
            Some(p) => {
                let v = chars_of(&p);
                match number(&v, 0xffff) {
                    Some(n) => n as u16,
                    None => DEFAULT_PORT,
                }
            },
            None => DEFAULT_PORT,
        };
        match find_flag(args, "--token") {
            Some(token) => if chars_of(&token).len() > 0 {
                Some(HelperArgs { port, token })
            } else {
                None
            },
            None => None,
        }
    }
}

/// What the windows command.
#[derive(Debug)]
pub enum GuiCmd {
    Start { config: String, token: String },
    Reload { config: String, token: String },
    Stop { token: String },
}

impl GuiCmd {
    pub open spec fn secret(&self) -> Seq<char> {
        match *self {
            GuiCmd::Start { token, .. } => token@,
            GuiCmd::Reload { token, .. } => token@,
            GuiCmd::Stop { token } => token@,
        }
    }
}

/// A command as the line that is sent to the helper.
pub open spec fn command_line(cmd: GuiCmd) -> Seq<char> {
    match cmd {
        GuiCmd::Start { config, token } => "{\"cmd\":\"start\",\"config\":"@ + json_quoted(config@) + ",\"token\":"@
            + json_quoted(token@) + "}\n"@,
        GuiCmd::Reload { config, token } => "{\"cmd\":\"reload\",\"config\":"@ + json_quoted(config@) + ",\"token\":\""@
            + token@ + "\"}\n"@,
        GuiCmd::Stop { token } => "{\"cmd\":\"stop\",\"token\":"@ + json_quoted(token@) + "}\n"@,
    }
}

impl GuiCmd {
    /// The command as the line that is sent to the helper.
    pub fn line(&self) -> (r: String)
        ensures
            r@ == command_line(*self),
    {
        let mut v: Vec<char> = Vec::new();
        match self {
            GuiCmd::Start { config, token } => {
                put_str(&mut v, "{\"cmd\":\"start\",\"config\":");
                put_str(&mut v, &quoted(config));
                put_str(&mut v, ",\"token\":");
                put_str(&mut v, &quoted(token));
                put_str(&mut v, "}\n");
            },
            GuiCmd::Reload { config, token } => {
                put_str(&mut v, "{\"cmd\":\"reload\",\"config\":");
                put_str(&mut v, &quoted(config));
                put_str(&mut v, ",\"token\":\"");
                put_str(&mut v, token);
                put_str(&mut v, "\"}\n");
            },
            GuiCmd::Stop { token } => {
                put_str(&mut v, "{\"cmd\":\"stop\",\"token\":");
                put_str(&mut v, &quoted(token));
                put_str(&mut v, "}\n");
            },
        }
        assert(v@ =~= command_line(*self));
        string_of(&v)
    }
}

/// The arguments of the helper as they are written for the task that starts it.
pub fn task_arguments(port: u16, token: &str) -> (r: String)
    ensures
        r@ == "{\"port\":"@ + decimal(port as nat) + ",\"token\":"@ + json_quoted(token@) + "}"@,
{
    let mut v: Vec<char> = Vec::new();
    put_str(&mut v, "{\"port\":");
    put_decimal(&mut v, port as u64);
    put_str(&mut v, ",\"token\":");
    put_str(&mut v, &quoted(token));
    put_str(&mut v, "}");
    string_of(&v)
}

/// What the helper tells.
#[derive(Debug)]
pub enum HelperMsg {
    Status { value: u8 },
    Log { message: String },
    Metrics { bytes_sent: u64, bytes_recv: u64, rtt_ms: u32 },
    Error { message: String },
}

/// What the helper does about a command.
#[derive(Debug)]
pub enum HelperStep {
    /// The token is not the helper's: nothing but an error.
    Refuse,
    /// Stop the tunnel, if it runs, and start one with these settings.
    Start { stop_first: bool, config: String },
    /// Hand the settings to the tunnel, if it runs.
    Reload { running: bool, config: String },
    /// Stop the tunnel, if it runs.
    Stop { running: bool },
}

/// What is said of a command, or of settings, that could not be read.
fn said(front: &str, why: &str) -> (r: HelperMsg)
    ensures
        r matches HelperMsg::Error { message } && message@ == front@ + why@,
{
    let mut v: Vec<char> = Vec::new();
    put_str(&mut v, front);
    put_str(&mut v, why);
    HelperMsg::Error { message: string_of(&v) }
}

/// What is told of a line that is no command, given why it is none.
pub fn bad_command(why: &str) -> (r: HelperMsg)
    ensures
        r matches HelperMsg::Error { message } && message@ == "Bad command: "@ + why@,
{
    said("Bad command: ", why)
}

impl HelperStep {
    /// What is told once a step was taken, given why its settings could not be read, where
    /// they could not.
    pub fn told(&self, unread: Option<&str>) -> (r: HelperMsg)
        ensures
            match (*self, unread) {
                (HelperStep::Refuse, _) => r matches HelperMsg::Error { message } && message@ == "Invalid authorization token"@,
                (HelperStep::Start { .. }, Some(e)) => r matches HelperMsg::Error { message } && message@
                    == "Config parse error: "@ + e@,
                (HelperStep::Reload { .. }, Some(e)) => r matches HelperMsg::Error { message } && message@
                    == "Config parse error during reload: "@ + e@,
                (HelperStep::Start { .. }, None) | (HelperStep::Reload { .. }, None) => r == (HelperMsg::Status { value: 1 }),
                (HelperStep::Stop { .. }, _) => r == (HelperMsg::Status { value: 0 }),
            },
    {
        match (self, unread) {
            (HelperStep::Refuse, _) => HelperMsg::Error { message: owned("Invalid authorization token") },
            (HelperStep::Start { .. }, Some(e)) => said("Config parse error: ", e),
            (HelperStep::Reload { .. }, Some(e)) => said("Config parse error during reload: ", e),
            (HelperStep::Start { .. }, None) | (HelperStep::Reload { .. }, None) => HelperMsg::Status { value: 1 },
            (HelperStep::Stop { .. }, _) => HelperMsg::Status { value: 0 },
        }
    }
}

/// The helper: its token, and what runs.
pub struct Helper {
    token: String,
    running: bool,
    configurable: bool,
}

impl Helper {
    pub closed spec fn token(&self) -> Seq<char> {
        self.token@
    }

    /// A tunnel runs.
    pub closed spec fn runs(&self) -> bool {
        self.running
    }

    /// There is a tunnel that takes settings.
    pub closed spec fn takes_settings(&self) -> bool {
        self.configurable
    }

    pub fn new(token: String) -> (r: Self)
        ensures
            r.token() == token@,
            !r.runs(),
            !r.takes_settings(),
    {
        Helper { token, running: false, configurable: false }
    }

    /// A command came. A tunnel that is to be started runs once its settings were read
    /// (`on_started`).
    pub fn on_command(&mut self, cmd: GuiCmd) -> (r: HelperStep)
        ensures
            final(self).token() == old(self).token(),
            final(self).takes_settings() == old(self).takes_settings(),
            if cmd.secret() != old(self).token() {
                r is Refuse && *final(self) == *old(self)
            } else {
                match cmd {
                    GuiCmd::Start { config, .. } => {
                        &&& r matches HelperStep::Start { stop_first, config: c } && stop_first == old(self).runs() && c == config
                        &&& !final(self).runs()
                    },
                    GuiCmd::Reload { config, .. } => {
                        &&& r matches HelperStep::Reload { running, config: c } && running == old(self).takes_settings() && c
                            == config
                        &&& final(self).runs() == old(self).runs()
                    },
                    GuiCmd::Stop { .. } => {
                        &&& r matches HelperStep::Stop { running } && running == old(self).runs()
                        &&& !final(self).runs()
                    },
                }
            },
    {
        match cmd {
            GuiCmd::Start { config, token } => {
                if !same_str(&token, &self.token) {
                    return HelperStep::Refuse;
                }
                let stop_first = self.running;
                self.running = false;
                HelperStep::Start { stop_first, config }
            },
            GuiCmd::Reload { config, token } => {
                if !same_str(&token, &self.token) {
                    return HelperStep::Refuse;
                }
                HelperStep::Reload { running: self.configurable, config }
            },
            GuiCmd::Stop { token } => {
                if !same_str(&token, &self.token) {
                    return HelperStep::Refuse;
                }
                let running = self.running;
                self.running = false;
                HelperStep::Stop { running }
            },
        }
    }

    /// A tunnel was started with settings that could be read.
    pub fn on_started(&mut self) -> (r: HelperMsg)
        ensures
            final(self).token() == old(self).token(),
            final(self).runs(),
            final(self).takes_settings(),
            r matches HelperMsg::Status { value } && value == 1,
    {
        self.running = true;
        self.configurable = true;
        HelperMsg::Status { value: 1 }
    }

    /// The windows are gone: the tunnel, if it runs, is stopped.
    pub fn on_disconnected(&mut self) -> (r: bool)
        ensures
            final(self).token() == old(self).token(),
            r == old(self).runs(),
            !final(self).runs(),
    {
        let r = self.running;
        self.running = false;
        r
    }
}

/// What the helper tells each second: the counters, and the state before them where it
/// is another one than was told last.
pub fn tick(last_state: u8, state: u8, bytes_sent: u64, bytes_recv: u64, rtt_ms: u32) -> (r: Vec<HelperMsg>)
    ensures
        r@.len() == if state != last_state {
            2nat
        } else {
            1nat
        },
        state != last_state ==> (r@[0] matches HelperMsg::Status { value } && value == state),
        r@.last() == (HelperMsg::Metrics { bytes_sent, bytes_recv, rtt_ms }),
{
    let mut out: Vec<HelperMsg> = Vec::new();
    if state != last_state {
        out.push(HelperMsg::Status { value: state });
    }
    out.push(HelperMsg::Metrics { bytes_sent, bytes_recv, rtt_ms });
    out
}

/// What the windows know of the helper.
pub struct HelperPipeState {
    pub connection_state: u8,
    pub bytes_sent: u64,
    pub bytes_recv: u64,
    pub rtt_ms: u32,
    pub error_msg: Option<String>,
}

/// The state after a message: an error ends the connection.
pub open spec fn heard(s: HelperPipeState, m: HelperMsg) -> HelperPipeState {
    match m {
        HelperMsg::Status { value } => HelperPipeState { connection_state: value, ..s },
        HelperMsg::Metrics { bytes_sent, bytes_recv, rtt_ms } => HelperPipeState { bytes_sent, bytes_recv, rtt_ms, ..s },
        HelperMsg::Error { message } => HelperPipeState { connection_state: 0, error_msg: Some(message), ..s },
        HelperMsg::Log { .. } => s,
    }
}

impl HelperPipeState {
    /// The helper was just asked to start a tunnel.
    pub fn new() -> (r: Self)
        ensures
            r == (HelperPipeState { connection_state: 1, bytes_sent: 0, bytes_recv: 0, rtt_ms: 0, error_msg: None }),
    {
        HelperPipeState { connection_state: 1, bytes_sent: 0, bytes_recv: 0, rtt_ms: 0, error_msg: None }
    }

    /// A message came.
    pub fn on_message(&mut self, msg: HelperMsg)
        ensures
            *final(self) == heard(*old(self), msg),
    {
        match msg {
            HelperMsg::Status { value } => {
                self.connection_state = value;
            },
            HelperMsg::Metrics { bytes_sent, bytes_recv, rtt_ms } => {
                self.bytes_sent = bytes_sent;
                self.bytes_recv = bytes_recv;
                self.rtt_ms = rtt_ms;
            },
            HelperMsg::Error { message } => {
                self.connection_state = 0;
                self.error_msg = Some(message);
            },
            HelperMsg::Log { .. } => {},
        }
    }

    /// The helper is gone.
    pub fn on_closed(&mut self)
        ensures
            *final(self) == (HelperPipeState { connection_state: 0, ..*old(self) }),
    {
        self.connection_state = 0;
    }

    /// The state of the tunnel; an error that ended it is told once.
    pub fn status(&mut self) -> (r: Result<u8, String>)
        ensures
            match old(self).error_msg {
                Some(e) => if old(self).connection_state == 0 {
                    r == Err::<u8, String>(e) && *final(self) == (HelperPipeState { error_msg: None, ..*old(self) })
                } else {
                    r == Ok::<u8, String>(old(self).connection_state) && *final(self) == *old(self)
                },
                None => r == Ok::<u8, String>(old(self).connection_state) && *final(self) == *old(self),
            },
    {
        if self.connection_state == 0 {
            if let Some(e) = self.error_msg.take() {
                return Err(e);
            }
        }
        Ok(self.connection_state)
    }
}

/// The state of a tunnel in the process itself: an error that ended it is told once.
pub fn in_process_status(finished: bool, connection_state: u8, error: &mut Option<String>) -> (r: Result<u8, String>)
    ensures
        if !finished {
            r == Ok::<u8, String>(connection_state) && *final(error) == *old(error)
        } else {
            match *old(error) {
                Some(e) => r == Err::<u8, String>(e) && *final(error) is None,
                None => r == Ok::<u8, String>(0) && *final(error) is None,
            }
        },
{
    if finished {
        match error.take() {
            Some(e) => Err(e),
            None => Ok(0),
        }
    } else {
        Ok(connection_state)
    }
}

/// The last of the flags that is followed by a value counts.
pub proof fn the_last_flag_counts(args: Seq<Seq<char>>, flag: Seq<char>, i: int)
    requires
        0 <= i,
        i + 1 < args.len(),
        args[i] == flag,
        forall|j: int| i < j && j + 1 < args.len() ==> #[trigger] args[j] != flag,
    ensures
        flag_value(args, flag) == Some(args[i + 1]),
    decreases args.len(),
{
    if i + 2 < args.len() {
        let d = args.drop_last();
        assert(args[args.len() - 2] != flag);
        assert forall|j: int| i < j && j + 1 < d.len() implies #[trigger] d[j] != flag by {
            assert(args[j] == d[j]);
        }
        the_last_flag_counts(d, flag, i);
        assert(d[i + 1] == args[i + 1]);
    }
}

/// Without flags the helper listens at its usual port and has no token; with them, at the port
/// that is named, where it is one.
pub proof fn helpers_listen_where_they_are_told(args: Seq<Seq<char>>, p: Seq<char>, n: nat)
    ensures
        flag_value(args, "--port"@) is None ==> port_in(args) == 53211,
        n <= 65535 && flag_value(args, "--port"@) == Some(decimal(n)) ==> port_in(args) == n,
        flag_value(args, "--port"@) == Some(p) && parse_number(p, 65535) is None ==> port_in(args) == 53211,
        flag_value(args, "--token"@) is None ==> token_in(args) == Seq::<char>::empty(),
        flag_value(args, "--token"@) == Some(p) ==> token_in(args) == p,
{
    if n <= 65535 {
        crate::text::lemma_parse_decimal(n, 0xffff);
    }
}

/// What the helper says changes what it speaks of and nothing else: an error means that the
/// tunnel is down, and a line of its log means nothing.
pub proof fn messages_of_the_helper_are_heeded(s: HelperPipeState, value: u8, up: u64, down: u64, rtt: u32, text: String)
    ensures
        ({
            let t = heard(s, HelperMsg::Status { value });
            t.connection_state == value && t.bytes_sent == s.bytes_sent && t.bytes_recv == s.bytes_recv && t.rtt_ms == s.rtt_ms
                && t.error_msg == s.error_msg
        }),
        ({
            let t = heard(s, HelperMsg::Metrics { bytes_sent: up, bytes_recv: down, rtt_ms: rtt });
            t.connection_state == s.connection_state && t.bytes_sent == up && t.bytes_recv == down && t.rtt_ms == rtt
                && t.error_msg == s.error_msg
        }),
        ({
            let t = heard(s, HelperMsg::Error { message: text });
            t.connection_state == 0 && t.error_msg == Some(text) && t.bytes_sent == s.bytes_sent && t.bytes_recv == s.bytes_recv
        }),
        heard(s, HelperMsg::Log { message: text }) == s,
{
}

/// A command is one line of JSON that says what is to be done and carries the token.
pub proof fn commands_say_what_to_do(config: String, token: String)
    ensures
        crate::text::starts_with(command_line(GuiCmd::Start { config, token }), "{\"cmd\":\"start\",\"config\":"@ + json_quoted(config@)),
        crate::text::starts_with(command_line(GuiCmd::Reload { config, token }), "{\"cmd\":\"reload\",\"config\":"@ + json_quoted(config@)),
        command_line(GuiCmd::Stop { token }) == "{\"cmd\":\"stop\",\"token\":"@ + json_quoted(token@) + "}\n"@,
        crate::text::ends_with(
            command_line(GuiCmd::Start { config, token }),
            ",\"token\":"@ + json_quoted(token@) + "}\n"@,
        ),
        crate::text::ends_with(command_line(GuiCmd::Reload { config, token }), ",\"token\":\""@ + token@ + "\"}\n"@),
{
    let a = "{\"cmd\":\"start\",\"config\":"@ + json_quoted(config@);
    let s = command_line(GuiCmd::Start { config, token });
    assert(s.subrange(0, a.len() as int) =~= a);
    let e = ",\"token\":"@ + json_quoted(token@) + "}\n"@;
    assert(s.subrange(s.len() - e.len(), s.len() as int) =~= e);
    let b = "{\"cmd\":\"reload\",\"config\":"@ + json_quoted(config@);
    let r = command_line(GuiCmd::Reload { config, token });
    assert(r.subrange(0, b.len() as int) =~= b);
    let f = ",\"token\":\""@ + token@ + "\"}\n"@;
    assert(r.subrange(r.len() - f.len(), r.len() as int) =~= f);
}

} // verus!
