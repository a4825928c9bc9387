//! The command line: settings turned into configuration statements, the
//! statement a config command sends, how a target is named, and what each
//! command asks of the target.
use vstd::prelude::*;
use vstd::string::*;

use crate::stack_trie::join;
use crate::text::{
    all_digits, decimal, digit_char, digits_value, i64_to_string, is_digit, parse_i32, signed_decimal, spelled_i32, starts_with,
    u64_to_string,
};

verus! {

/// Settings given on the command line. Sample rates arrive already written
/// out: the torch rate as the number was given, the RDMA rate with two decimals.
#[derive(Debug, Default, Clone)]
pub struct Settings {
    pub probing_mode: Option<String>,
    pub loglevel: Option<String>,
    pub assets_root: Option<String>,
    pub server_port: Option<u64>,
    pub torch_profiling_mode: Option<String>,
    pub torch_sample_rate: Option<String>,
    pub torch_watch_vars: Option<String>,
    pub rdma_sample_rate: Option<String>,
    pub rdma_hca_name: Option<String>,
}

/// `set key=value;`.
pub open spec fn set_stmt(key: Seq<char>, value: Seq<char>) -> Seq<char> {
    "set "@ + key + "="@ + value + ";"@
}

/// The statement for an optional setting: nothing where it is not given.
pub open spec fn opt_stmt(key: Seq<char>, value: Option<String>) -> Seq<char> {
    match value {
        Some(v) => set_stmt(key, v@),
        None => Seq::empty(),
    }
}

/// The address a server port stands for: every interface, that port.
pub open spec fn port_address(p: u64) -> Seq<char> {
    "0.0.0.0:"@ + decimal(p as nat)
}

/// The statements of all given settings, in a fixed order.
pub open spec fn cfg_text(s: Settings) -> Seq<char> {
    opt_stmt("probing"@, s.probing_mode) + opt_stmt("server.log_level"@, s.loglevel) + opt_stmt(
        "server.assets_root"@,
        s.assets_root,
    ) + match s.server_port {
        Some(p) => set_stmt("server.address"@, port_address(p)),
        None => Seq::empty(),
    } + opt_stmt("torch.profiling_mode"@, s.torch_profiling_mode) + opt_stmt(
        "torch.sample_rate"@,
        s.torch_sample_rate,
    ) + opt_stmt("torch.watch_vars"@, s.torch_watch_vars) + opt_stmt(
        "rdma.sample_rate"@,
        s.rdma_sample_rate,
    ) + opt_stmt("rdma.hca_name"@, s.rdma_hca_name)
}

/// No setting is given.
pub open spec fn no_settings(s: Settings) -> bool {
    s.probing_mode is None && s.loglevel is None && s.assets_root is None && s.server_port is None
        && s.torch_profiling_mode is None && s.torch_sample_rate is None && s.torch_watch_vars is None
        && s.rdma_sample_rate is None && s.rdma_hca_name is None
}

fn push_stmt(cfg: &mut String, key: &str, value: &str)
    ensures
        final(cfg)@ == old(cfg)@ + set_stmt(key@, value@),
{
    cfg.append("set ");
    cfg.append(key);
    cfg.append("=");
    cfg.append(value);
    cfg.append(";");
}

fn push_opt(cfg: &mut String, key: &str, value: &Option<String>)
    ensures
        final(cfg)@ == old(cfg)@ + opt_stmt(key@, *value),
{
    match value {
        Some(v) => push_stmt(cfg, key, v.as_str()),
        None => {
            assert(cfg@ =~= old(cfg)@ + opt_stmt(key@, *value));
        },
    }
}

impl Settings {
    /// The configuration statements for the given settings, or nothing where
    /// no setting is given.
    pub fn to_cfg(&self) -> (r: Option<String>)
        ensures
            match r {
                Some(c) => c@ == cfg_text(*self) && c@.len() > 0,
                None => cfg_text(*self).len() == 0,
            },
            r is None <==> no_settings(*self),
    {
        let mut cfg = String::new();
        push_opt(&mut cfg, "probing", &self.probing_mode);
        push_opt(&mut cfg, "server.log_level", &self.loglevel);
        push_opt(&mut cfg, "server.assets_root", &self.assets_root);
        let ghost before_port = cfg@;
        match self.server_port {
            Some(p) => {
                let mut addr = String::from_str("0.0.0.0:");
                let ps = u64_to_string(p);
                addr.append(ps.as_str());
                push_stmt(&mut cfg, "server.address", addr.as_str());
            },
            None => {},
        }
        push_opt(&mut cfg, "torch.profiling_mode", &self.torch_profiling_mode);
        push_opt(&mut cfg, "torch.sample_rate", &self.torch_sample_rate);
        push_opt(&mut cfg, "torch.watch_vars", &self.torch_watch_vars);
        push_opt(&mut cfg, "rdma.sample_rate", &self.rdma_sample_rate);
        push_opt(&mut cfg, "rdma.hca_name", &self.rdma_hca_name);
        assert(cfg@ =~= cfg_text(*self));
        proof {
            lemma_cfg_empty(*self);
        }
        if cfg.unicode_len() == 0 {
            None
        } else {
            Some(cfg)
        }
    }
}

proof fn lemma_cfg_empty(s: Settings)
    ensures
        cfg_text(s).len() == 0 <==> no_settings(s),
{
    reveal_strlit("set ");
    let parts = seq![
        opt_stmt("probing"@, s.probing_mode),
        opt_stmt("server.log_level"@, s.loglevel),
        opt_stmt("server.assets_root"@, s.assets_root),
        match s.server_port {
            Some(p) => set_stmt("server.address"@, port_address(p)),
            None => Seq::empty(),
        },
        opt_stmt("torch.profiling_mode"@, s.torch_profiling_mode),
        opt_stmt("torch.sample_rate"@, s.torch_sample_rate),
        opt_stmt("torch.watch_vars"@, s.torch_watch_vars),
        opt_stmt("rdma.sample_rate"@, s.rdma_sample_rate),
        opt_stmt("rdma.hca_name"@, s.rdma_hca_name),
    ];
    assert(cfg_text(s).len() == parts[0].len() + parts[1].len() + parts[2].len() + parts[3].len()
        + parts[4].len() + parts[5].len() + parts[6].len() + parts[7].len() + parts[8].len());
}

/// Exactly the setting at position `field` (in the order of `Settings`'
/// fields) is given.
pub open spec fn only_given(s: Settings, field: int) -> bool {
    &&& (s.probing_mode is Some) == (field == 0)
    &&& (s.loglevel is Some) == (field == 1)
    &&& (s.assets_root is Some) == (field == 2)
    &&& (s.server_port is Some) == (field == 3)
    &&& (s.torch_profiling_mode is Some) == (field == 4)
    &&& (s.torch_sample_rate is Some) == (field == 5)
    &&& (s.torch_watch_vars is Some) == (field == 6)
    &&& (s.rdma_sample_rate is Some) == (field == 7)
    &&& (s.rdma_hca_name is Some) == (field == 8)
}

/// Each setting is sent under its own key: settings that give one value send
/// exactly `set <key>=<value>;` for that value's key (`probing`,
/// `server.log_level`, `server.assets_root`, `server.address` with the port
/// on all interfaces, `torch.profiling_mode`, `torch.sample_rate`,
/// `torch.watch_vars`, `rdma.sample_rate`, `rdma.hca_name`).
pub proof fn law_each_setting_under_its_key(s: Settings)
    ensures
        only_given(s, 0) ==> cfg_text(s) == "set probing="@ + s.probing_mode->Some_0@ + ";"@,
        only_given(s, 1) ==> cfg_text(s) == "set server.log_level="@ + s.loglevel->Some_0@ + ";"@,
        only_given(s, 2) ==> cfg_text(s) == "set server.assets_root="@ + s.assets_root->Some_0@ + ";"@,
        only_given(s, 3) ==> cfg_text(s) == "set server.address=0.0.0.0:"@ + decimal(s.server_port->Some_0 as nat) + ";"@,
        only_given(s, 4) ==> cfg_text(s) == "set torch.profiling_mode="@ + s.torch_profiling_mode->Some_0@ + ";"@,
        only_given(s, 5) ==> cfg_text(s) == "set torch.sample_rate="@ + s.torch_sample_rate->Some_0@ + ";"@,
        only_given(s, 6) ==> cfg_text(s) == "set torch.watch_vars="@ + s.torch_watch_vars->Some_0@ + ";"@,
        only_given(s, 7) ==> cfg_text(s) == "set rdma.sample_rate="@ + s.rdma_sample_rate->Some_0@ + ";"@,
        only_given(s, 8) ==> cfg_text(s) == "set rdma.hca_name="@ + s.rdma_hca_name->Some_0@ + ";"@,
{
    reveal_strlit("set ");
    reveal_strlit("=");
    reveal_strlit(";");
    reveal_strlit("0.0.0.0:");
    reveal_strlit("set server.address=0.0.0.0:");
    reveal_strlit("probing");
    reveal_strlit("set probing=");
    reveal_strlit("server.log_level");
    reveal_strlit("set server.log_level=");
    reveal_strlit("server.assets_root");
    reveal_strlit("set server.assets_root=");
    reveal_strlit("server.address");
    reveal_strlit("torch.profiling_mode");
    reveal_strlit("set torch.profiling_mode=");
    reveal_strlit("torch.sample_rate");
    reveal_strlit("set torch.sample_rate=");
    reveal_strlit("torch.watch_vars");
    reveal_strlit("set torch.watch_vars=");
    reveal_strlit("rdma.sample_rate");
    reveal_strlit("set rdma.sample_rate=");
    reveal_strlit("rdma.hca_name");
    reveal_strlit("set rdma.hca_name=");
    if only_given(s, 3) {
        assert(cfg_text(s) =~= "set server.address=0.0.0.0:"@ + decimal(s.server_port->Some_0 as nat) + ";"@);
    }
    if only_given(s, 0) {
        assert(cfg_text(s) =~= "set probing="@ + s.probing_mode->Some_0@ + ";"@);
    }
    if only_given(s, 1) {
        assert(cfg_text(s) =~= "set server.log_level="@ + s.loglevel->Some_0@ + ";"@);
    }
    if only_given(s, 2) {
        assert(cfg_text(s) =~= "set server.assets_root="@ + s.assets_root->Some_0@ + ";"@);
    }
    if only_given(s, 4) {
        assert(cfg_text(s) =~= "set torch.profiling_mode="@ + s.torch_profiling_mode->Some_0@ + ";"@);
    }
    if only_given(s, 5) {
        assert(cfg_text(s) =~= "set torch.sample_rate="@ + s.torch_sample_rate->Some_0@ + ";"@);
    }
    if only_given(s, 6) {
        assert(cfg_text(s) =~= "set torch.watch_vars="@ + s.torch_watch_vars->Some_0@ + ";"@);
    }
    if only_given(s, 7) {
        assert(cfg_text(s) =~= "set rdma.sample_rate="@ + s.rdma_sample_rate->Some_0@ + ";"@);
    }
    if only_given(s, 8) {
        assert(cfg_text(s) =~= "set rdma.hca_name="@ + s.rdma_hca_name->Some_0@ + ";"@);
    }
}

/// `s` with only the setting at position `field` kept.
pub open spec fn keep_only(s: Settings, field: int) -> Settings {
    Settings {
        probing_mode: if field == 0 { s.probing_mode } else { None },
        loglevel: if field == 1 { s.loglevel } else { None },
        assets_root: if field == 2 { s.assets_root } else { None },
        server_port: if field == 3 { s.server_port } else { None },
        torch_profiling_mode: if field == 4 { s.torch_profiling_mode } else { None },
        torch_sample_rate: if field == 5 { s.torch_sample_rate } else { None },
        torch_watch_vars: if field == 6 { s.torch_watch_vars } else { None },
        rdma_sample_rate: if field == 7 { s.rdma_sample_rate } else { None },
        rdma_hca_name: if field == 8 { s.rdma_hca_name } else { None },
    }
}

/// The settings are sent one after the other in the order of the fields of
/// `Settings`, each as it would be sent alone (see
/// `law_each_setting_under_its_key`).
pub proof fn law_settings_are_sent_in_field_order(s: Settings)
    ensures
        cfg_text(s) == cfg_text(keep_only(s, 0)) + cfg_text(keep_only(s, 1)) + cfg_text(keep_only(s, 2)) + cfg_text(keep_only(s, 3)) + cfg_text(keep_only(s, 4)) + cfg_text(keep_only(s, 5)) + cfg_text(keep_only(s, 6)) + cfg_text(keep_only(s, 7)) + cfg_text(keep_only(s, 8)),
        forall|i: int| 0 <= i < 9 ==> only_given(#[trigger] keep_only(s, i), i) || no_settings(keep_only(s, i)),
{
    assert(cfg_text(s) =~= cfg_text(keep_only(s, 0)) + cfg_text(keep_only(s, 1)) + cfg_text(keep_only(s, 2)) + cfg_text(keep_only(s, 3)) + cfg_text(keep_only(s, 4)) + cfg_text(keep_only(s, 5)) + cfg_text(keep_only(s, 6)) + cfg_text(keep_only(s, 7)) + cfg_text(keep_only(s, 8)));
}

/// `s` as a setting statement: with `set ` put in front unless it already
/// begins with `set ` or `SET `.
pub open spec fn as_set_stmt(s: Seq<char>) -> Seq<char> {
    if "set "@.is_prefix_of(s) || "SET "@.is_prefix_of(s) {
        s
    } else {
        "set "@ + s
    }
}

/// The query that lists the engine's own settings.
pub open spec fn list_settings_query() -> Seq<char> {
    "select * from information_schema.df_settings where name like 'probing.%';"@
}

/// The statement a config command sends: the setting given as an argument,
/// then the statements of the options, joined by `; `; the list of settings
/// where neither is given.
pub open spec fn config_query_spec(setting: Option<Seq<char>>, options: Option<Seq<char>>) -> Seq<char> {
    match (setting, options) {
        (Some(s), Some(o)) => as_set_stmt(s) + "; "@ + o,
        (Some(s), None) => as_set_stmt(s),
        (None, Some(o)) => o,
        (None, None) => list_settings_query(),
    }
}

fn with_set_prefix(s: &str) -> (r: String)
    ensures
        r@ == as_set_stmt(s@),
{
    if starts_with(s, "set ") || starts_with(s, "SET ") {
        String::from_str(s)
    } else {
        let mut r = String::from_str("set ");
        r.append(s);
        r
    }
}

/// The statement a config command sends for the setting argument and the
/// options' statements.
pub fn config_query(setting: Option<&str>, options: Option<String>) -> (r: String)
    ensures
        r@ == config_query_spec(
            match setting {
                Some(s) => Some(s@),
                None => None,
            },
            match options {
                Some(o) => Some(o@),
                None => None,
            },
        ),
{
    match (setting, options) {
        (Some(s), Some(o)) => {
            let mut r = with_set_prefix(s);
            r.append("; ");
            r.append(o.as_str());
            r
        },
        (Some(s), None) => with_set_prefix(s),
        (None, Some(o)) => o,
        (None, None) => String::from_str(
            "select * from information_schema.df_settings where name like 'probing.%';",
        ),
    }
}

} // verus!

verus! {

/// A setting given with `-D`, as the injected library reads it: a setting
/// under `probing.` has every `.` turned into `_`; others stay as given.
pub open spec fn normalized_setting(s: Seq<char>) -> Seq<char> {
    if "probing."@.is_prefix_of(s) {
        s.map_values(|c: char| if c == '.' { '_' } else { c })
    } else {
        s
    }
}

/// Every `.` of `s` turned into `_`.
fn dots_to_underscores(s: &str) -> (r: String)
    ensures
        r@ == s@.map_values(|c: char| if c == '.' { '_' } else { c }),
{
    let n = s.unicode_len();
    let mut r = String::new();
    let mut i: usize = 0;
    while i < n
        invariant
            n == s@.len(),
            i <= n,
            r@ == s@.take(i as int).map_values(|c: char| if c == '.' { '_' } else { c }),
        decreases n - i,
    {
        let c = s.get_char(i);
        if c == '.' {
            proof {
                reveal_strlit("_");
            }
            r.append("_");
        } else {
            r.append(s.substring_char(i, i + 1));
        }
        assert(r@ =~= s@.take(i + 1).map_values(|c: char| if c == '.' { '_' } else { c }));
        i = i + 1;
    }
    assert(s@.take(n as int) =~= s@);
    r
}

/// The command that injects the probe into a process, with the settings to
/// give it.
#[derive(Debug, Default, Clone)]
pub struct InjectCommand {
    pub settings: Vec<String>,
}

/// The statement that applies settings to a process that already carries
/// the probe: `set s` for each, joined by `;`.
pub open spec fn settings_query_spec(settings: Seq<Seq<char>>) -> Seq<char> {
    join(Seq::new(settings.len(), |i: int| "set "@ + normalized_setting(settings[i])), ";"@)
}

impl InjectCommand {
    /// The settings as the injected library reads them.
    pub fn build_settings(&self) -> (r: Vec<String>)
        ensures
            r.deep_view() == self.settings.deep_view().map_values(|s: Seq<char>| normalized_setting(s)),
    {
        let mut r: Vec<String> = Vec::new();
        let mut i: usize = 0;
        while i < self.settings.len()
            invariant
                i <= self.settings@.len(),
                r.deep_view() == self.settings.deep_view().take(i as int).map_values(
                    |s: Seq<char>| normalized_setting(s),
                ),
            decreases self.settings.len() - i,
        {
            let s = self.settings[i].as_str();
            let n = if starts_with(s, "probing.") {
                dots_to_underscores(s)
            } else {
                String::from_str(s)
            };
            let ghost before = r.deep_view();
            r.push(n);
            assert(self.settings.deep_view()[i as int] == self.settings@[i as int]@);
            assert(r.deep_view() =~= before.push(normalized_setting(self.settings@[i as int]@)));
            assert(r.deep_view() =~= self.settings.deep_view().take(i + 1).map_values(
                |s: Seq<char>| normalized_setting(s),
            ));
            i = i + 1;
        }
        assert(self.settings.deep_view().take(self.settings@.len() as int) =~= self.settings.deep_view());
        r
    }

    /// The statement that applies the settings to a process that already
    /// carries the probe.
    pub fn settings_query(&self) -> (r: String)
        ensures
            r@ == settings_query_spec(self.settings.deep_view()),
    {
        let built = self.build_settings();
        let mut stmts: Vec<String> = Vec::new();
        let mut i: usize = 0;
        while i < built.len()
            invariant
                i <= built@.len(),
                built.deep_view() == self.settings.deep_view().map_values(|s: Seq<char>| normalized_setting(s)),
                stmts.deep_view() == Seq::new(
                    i as nat,
                    |j: int| "set "@ + normalized_setting(self.settings.deep_view()[j]),
                ),
            decreases built.len() - i,
        {
            let mut st = String::from_str("set ");
            st.append(built[i].as_str());
            let ghost before = stmts.deep_view();
            assert(built.deep_view()[i as int] == built@[i as int]@);
            assert(built.deep_view().len() == built@.len());
            assert(self.settings.deep_view().map_values(|s: Seq<char>| normalized_setting(s))[i as int]
                == normalized_setting(self.settings.deep_view()[i as int]));
            assert(st@ == "set "@ + normalized_setting(self.settings.deep_view()[i as int]));
            stmts.push(st);
            assert(stmts.deep_view() =~= before.push("set "@ + normalized_setting(self.settings.deep_view()[i as int])));
            assert(stmts.deep_view() =~= Seq::new(
                (i + 1) as nat,
                |j: int| "set "@ + normalized_setting(self.settings.deep_view()[j]),
            ));
            i = i + 1;
        }
        assert(built.deep_view().len() == built@.len());
        assert(stmts.deep_view() =~= Seq::new(
            self.settings.deep_view().len(),
            |j: int| "set "@ + normalized_setting(self.settings.deep_view()[j]),
        ));
        crate::stack_trie::join_semicolon(&stmts)
    }
}

/// The options shared by the store commands.
#[derive(Debug, Default, Clone)]
pub struct StoreArgs {
    /// The store's endpoint, `host:port`.
    pub endpoint: Option<String>,
    /// The kind of store, such as `tcp`.
    pub backend: Option<String>,
}

/// What a store command does.
#[derive(Debug, Clone)]
pub enum StoreSubCommand {
    SetValue { key: String, value: String },
    Get { key: String },
}

/// A command on a key-value store.
#[derive(Debug, Clone)]
pub struct StoreCommand {
    pub args: StoreArgs,
    pub command: StoreSubCommand,
}

} // verus!

verus! {

/// How a target process is reached.
#[derive(Debug, Clone)]
pub enum ProbeEndpoint {
    Ptrace { pid: i32 },
    Local { pid: i32 },
    Remote { addr: String },
    Launch { cmd: String },
}

/// Why a target could not be read.
#[derive(Debug, Clone, Copy, PartialEq, Eq, Structural)]
pub enum EndpointError {
    /// Neither `host:port` nor a process id.
    InvalidPid,
}

/// How often `c` occurs in `s`.
pub open spec fn count_char(s: Seq<char>, c: char) -> nat
    decreases s.len(),
{
    if s.len() == 0 {
        0
    } else {
        count_char(s.drop_last(), c) + if s.last() == c { 1nat } else { 0nat }
    }
}

/// What a target names: a remote process where it holds exactly one `:`
/// (`host:port`), else a local process by its id.
pub open spec fn endpoint_of(value: Seq<char>) -> Option<ProbeEndpointView> {
    if count_char(value, ':') == 1 {
        Some(ProbeEndpointView::Remote { addr: value })
    } else {
        match spelled_i32(value) {
            Some(pid) => Some(ProbeEndpointView::Local { pid }),
            None => None,
        }
    }
}

/// The shape of an endpoint, with texts in place of strings.
pub enum ProbeEndpointView {
    Ptrace { pid: i32 },
    Local { pid: i32 },
    Remote { addr: Seq<char> },
    Launch { cmd: Seq<char> },
}

impl View for ProbeEndpoint {
    type V = ProbeEndpointView;

    open spec fn view(&self) -> ProbeEndpointView {
        match self {
            ProbeEndpoint::Ptrace { pid } => ProbeEndpointView::Ptrace { pid: *pid },
            ProbeEndpoint::Local { pid } => ProbeEndpointView::Local { pid: *pid },
            ProbeEndpoint::Remote { addr } => ProbeEndpointView::Remote { addr: addr@ },
            ProbeEndpoint::Launch { cmd } => ProbeEndpointView::Launch { cmd: cmd@ },
        }
    }
}

fn count_colons(s: &str) -> (r: usize)
    ensures
        r == count_char(s@, ':'),
{
    let n = s.unicode_len();
    let mut k: usize = 0;
    let mut i: usize = 0;
    while i < n
        invariant
            n == s@.len(),
            i <= n,
            k == count_char(s@.take(i as int), ':'),
            k <= i,
        decreases n - i,
    {
        assert(s@.take(i + 1).drop_last() =~= s@.take(i as int));
        if s.get_char(i) == ':' {
            k = k + 1;
        }
        i = i + 1;
    }
    assert(s@.take(n as int) =~= s@);
    k
}

/// The text an endpoint is written as: the process id, the address, or the
/// command.
pub open spec fn endpoint_text(e: ProbeEndpointView) -> Seq<char> {
    match e {
        ProbeEndpointView::Ptrace { pid } => signed_decimal(pid as int),
        ProbeEndpointView::Local { pid } => signed_decimal(pid as int),
        ProbeEndpointView::Remote { addr } => addr,
        ProbeEndpointView::Launch { cmd } => cmd,
    }
}

/// The kind of HTTP request sent to a target.
#[derive(Debug, Clone, Copy, PartialEq, Eq, Structural)]
pub enum Method {
    Get,
    Post,
}

/// Where a request to a target is sent.
#[derive(Debug, Clone)]
pub enum Transport {
    /// An abstract unix socket, named by `path`.
    UnixSocket { path: String },
    /// A TCP connection to `addr`.
    Tcp { addr: String },
}

/// A request to a target: where it goes, its method, its path and its body.
#[derive(Debug, Clone)]
pub struct RequestPlan {
    pub transport: Transport,
    pub method: Method,
    pub uri: String,
    pub body: String,
}

/// The name of the abstract socket a local target listens on: a NUL byte,
/// then `probing-` and the process id.
pub open spec fn socket_path(pid: i32) -> Seq<char> {
    seq!['\0'] + "probing-"@ + signed_decimal(pid as int)
}

impl ProbeEndpoint {
    /// Reads a target as given on the command line.
    pub fn parse(value: &str) -> (r: Result<ProbeEndpoint, EndpointError>)
        ensures
            match r {
                Ok(e) => endpoint_of(value@) == Some(e@),
                Err(_) => endpoint_of(value@) is None,
            },
    {
        if count_colons(value) == 1 {
            return Ok(ProbeEndpoint::Remote { addr: String::from_str(value) });
        }
        match parse_i32(value) {
            Some(pid) => Ok(ProbeEndpoint::Local { pid }),
            None => Err(EndpointError::InvalidPid),
        }
    }

    /// The text the endpoint is written as.
    pub fn to_text(&self) -> (r: String)
        ensures
            r@ == endpoint_text(self@),
    {
        match self {
            ProbeEndpoint::Ptrace { pid } => i64_to_string(*pid as i64),
            ProbeEndpoint::Local { pid } => i64_to_string(*pid as i64),
            ProbeEndpoint::Remote { addr } => addr.clone(),
            ProbeEndpoint::Launch { cmd } => cmd.clone(),
        }
    }

    /// The request that asks the target for `url`: a POST with the body where
    /// there is one, else a GET with an empty body; over the target's unix
    /// socket for a local process, over TCP for a remote one.
    pub fn plan_request(&self, url: &str, body: Option<String>) -> (r: RequestPlan)
        requires
            !(self@ is Launch),
        ensures
            r.uri@ == url@,
            match body {
                Some(b) => r.method == Method::Post && r.body@ == b@,
                None => r.method == Method::Get && r.body@.len() == 0,
            },
            match self@ {
                ProbeEndpointView::Ptrace { pid } => r.transport matches Transport::UnixSocket { path } && path@
                    == socket_path(pid),
                ProbeEndpointView::Local { pid } => r.transport matches Transport::UnixSocket { path } && path@
                    == socket_path(pid),
                ProbeEndpointView::Remote { addr } => r.transport matches Transport::Tcp { addr: a } && a@ == addr,
                ProbeEndpointView::Launch { .. } => false,
            },
    {
        let transport = match self {
            ProbeEndpoint::Ptrace { pid } | ProbeEndpoint::Local { pid } => {
                let mut path = String::from_str("\0");
                proof {
                    reveal_strlit("\0");
                }
                path.append("probing-");
                let p = i64_to_string(*pid as i64);
                path.append(p.as_str());
                Transport::UnixSocket { path }
            },
            ProbeEndpoint::Remote { addr } => Transport::Tcp { addr: addr.clone() },
            ProbeEndpoint::Launch { .. } => Transport::Tcp { addr: String::new() },
        };
        match body {
            Some(b) => RequestPlan { transport, method: Method::Post, uri: String::from_str(url), body: b },
            None => RequestPlan {
                transport,
                method: Method::Get,
                uri: String::from_str(url),
                body: String::new(),
            },
        }
    }
}

/// The path that asks a target for its Python call stacks, of one thread
/// where `tid` is given.
pub open spec fn backtrace_path(tid: Option<i32>) -> Seq<char> {
    match tid {
        Some(t) => "/apis/pythonext/callstack?tid="@ + signed_decimal(t as int),
        None => "/apis/pythonext/callstack"@,
    }
}

/// The path that asks a target for its Python call stacks.
pub fn backtrace_url(tid: Option<i32>) -> (r: String)
    ensures
        r@ == backtrace_path(tid),
{
    match tid {
        Some(t) => {
            let mut u = String::from_str("/apis/pythonext/callstack?tid=");
            let ts = i64_to_string(t as i64);
            u.append(ts.as_str());
            u
        },
        None => String::from_str("/apis/pythonext/callstack"),
    }
}

/// The version text: the version, then the build time and the compiler
/// version where they are known, each on a line of its own.
pub open spec fn build_info_spec(timestamp: Option<Seq<char>>, rustc: Option<Seq<char>>) -> Seq<char> {
    "0.2.0"@ + match timestamp {
        Some(t) => "\nBuild Timestamp: "@ + t,
        None => Seq::empty(),
    } + match rustc {
        Some(v) => "\nrustc version: "@ + v,
        None => Seq::empty(),
    }
}

/// The version text for the build time and compiler version recorded at build.
pub fn get_build_info(timestamp: Option<&str>, rustc: Option<&str>) -> (r: String)
    ensures
        r@ == build_info_spec(
            match timestamp {
                Some(t) => Some(t@),
                None => None,
            },
            match rustc {
                Some(v) => Some(v@),
                None => None,
            },
        ),
{
    let mut info = String::from_str("0.2.0");
    match timestamp {
        Some(t) => {
            info.append("\nBuild Timestamp: ");
            info.append(t);
        },
        None => {},
    }
    match rustc {
        Some(v) => {
            info.append("\nrustc version: ");
            info.append(v);
        },
        None => {},
    }
    info
}

/// The program that runs an external subcommand: `probing-` and the
/// subcommand's name, the first argument; nothing without arguments.
pub fn external_binary(args: &Vec<String>) -> (r: Option<String>)
    ensures
        match r {
            Some(b) => args@.len() > 0 && b@ == "probing-"@ + args@[0]@,
            None => args@.len() == 0,
        },
{
    if args.len() == 0 {
        None
    } else {
        let mut b = String::from_str("probing-");
        b.append(args[0].as_str());
        Some(b)
    }
}

} // verus!

verus! {

/// The commands of the command line.
#[derive(Debug, Clone)]
pub enum Commands {
    Inject(InjectCommand),
    /// List the processes that carry the probe.
    List { verbose: bool, tree: bool },
    /// Show or change the configuration of the target.
    Config { options: Settings, setting: Option<String> },
    /// Show the call stacks of the target, or of one of its threads.
    Backtrace { tid: Option<i32> },
    /// Show the RDMA traffic of the target.
    Rdma { hca_name: Option<String> },
    /// Run Python code in the target.
    Eval { code: String },
    /// Query data from the target.
    Query { query: String },
    /// Start a new Python process.
    Launch { recursive: bool, args: Vec<String> },
    /// A subcommand served by a program of its own.
    External(Vec<String>),
    /// Use a key-value store.
    Store(StoreCommand),
}

/// What a command asks of its target.
#[derive(Debug, Clone)]
pub enum TargetAction {
    /// Inject the probe with these settings, or apply them where it is already there.
    Inject(InjectCommand),
    /// Send this statement.
    Query(String),
    /// Ask for the call stacks.
    Backtrace(Option<i32>),
    /// Ask for RDMA traffic of this adapter; empty for all.
    Rdma(String),
    /// Run this code.
    Eval(String),
}

/// The command needs no target: it is served before a target is looked at.
pub open spec fn served_without_target(c: Commands) -> bool {
    c is List || c is Launch || c is External || c is Store
}

fn copy_strings(v: &Vec<String>) -> (r: Vec<String>)
    ensures
        r.deep_view() == v.deep_view(),
{
    let mut r: Vec<String> = Vec::new();
    let mut i: usize = 0;
    while i < v.len()
        invariant
            i <= v@.len(),
            r.deep_view() == v.deep_view().take(i as int),
        decreases v.len() - i,
    {
        let ghost before = r.deep_view();
        let c = v[i].clone();
        assert(c@ == v.deep_view()[i as int]);
        r.push(c);
        assert(r.deep_view() =~= before.push(v.deep_view()[i as int]));
        assert(r.deep_view() =~= v.deep_view().take(i + 1));
        i = i + 1;
    }
    assert(v.deep_view().take(v@.len() as int) =~= v.deep_view());
    r
}

/// What the command asks of its target: without a command, to inject the
/// probe with no settings; a config command sends its statement (see
/// `config_query`); an RDMA command without an adapter asks for all.
pub fn target_action(command: &Option<Commands>) -> (r: TargetAction)
    requires
        match command {
            Some(c) => !served_without_target(*c),
            None => true,
        },
    ensures
        match command {
            None => r matches TargetAction::Inject(i) && i.settings@.len() == 0,
            Some(Commands::Inject(c)) => r matches TargetAction::Inject(i) && i.settings.deep_view()
                == c.settings.deep_view(),
            Some(Commands::Config { options, setting }) => r matches TargetAction::Query(q) && q@
                == config_query_spec(
                match setting {
                    Some(s) => Some(s@),
                    None => None,
                },
                if cfg_text(*options).len() == 0 {
                    None
                } else {
                    Some(cfg_text(*options))
                },
            ),
            Some(Commands::Backtrace { tid }) => r matches TargetAction::Backtrace(t) && t == *tid,
            Some(Commands::Rdma { hca_name }) => r matches TargetAction::Rdma(h) && h@ == match hca_name {
                Some(n) => n@,
                None => Seq::empty(),
            },
            Some(Commands::Eval { code }) => r matches TargetAction::Eval(c) && c@ == code@,
            Some(Commands::Query { query }) => r matches TargetAction::Query(q) && q@ == query@,
            Some(_) => false,
        },
{
    match command {
        None => TargetAction::Inject(InjectCommand { settings: Vec::new() }),
        Some(Commands::Inject(c)) => TargetAction::Inject(InjectCommand { settings: copy_strings(&c.settings) }),
        Some(Commands::Config { options, setting }) => {
            let opts = options.to_cfg();
            let s: Option<&str> = match setting {
                Some(x) => Some(x.as_str()),
                None => None,
            };
            TargetAction::Query(config_query(s, opts))
        },
        Some(Commands::Backtrace { tid }) => TargetAction::Backtrace(*tid),
        Some(Commands::Rdma { hca_name }) => TargetAction::Rdma(
            match hca_name {
                Some(n) => n.clone(),
                None => String::new(),
            },
        ),
        Some(Commands::Eval { code }) => TargetAction::Eval(code.clone()),
        Some(Commands::Query { query }) => TargetAction::Query(query.clone()),
        Some(_) => TargetAction::Query(String::new()),
    }
}

/// The target a command addresses: the one given, else process `0`.
pub fn target_or_default(target: &Option<String>) -> (r: String)
    ensures
        r@ == match target {
            Some(t) => t@,
            None => "0"@,
        },
{
    match target {
        Some(t) => t.clone(),
        None => String::from_str("0"),
    }
}

} // verus!

verus! {

/// The length of the longest of `cols`.
pub open spec fn max_len<T>(cols: Seq<Seq<T>>) -> nat
    decreases cols.len(),
{
    if cols.len() == 0 {
        0
    } else {
        let m = max_len(cols.drop_last());
        if cols.last().len() > m {
            cols.last().len()
        } else {
            m
        }
    }
}

/// The cell at row `r` and column `c` of a result table: the column's name in
/// the header row, below it the column's values, empty past a column's end.
pub open spec fn grid_cell(names: Seq<Seq<char>>, cols: Seq<Seq<Seq<char>>>, r: int, c: int) -> Seq<char> {
    if r == 0 {
        names[c]
    } else if c < cols.len() && r - 1 < cols[c].len() {
        cols[c][r - 1]
    } else {
        Seq::empty()
    }
}

/// The cells of a result table: a header row, then as many rows as the
/// longest column has values, each row one cell per column name.
pub open spec fn grid_spec(names: Seq<Seq<char>>, cols: Seq<Seq<Seq<char>>>) -> Seq<Seq<Seq<char>>> {
    Seq::new(max_len(cols) + 1, |r: int| Seq::new(names.len(), |c: int| grid_cell(names, cols, r, c)))
}

fn longest(cols: &Vec<Vec<String>>) -> (r: usize)
    ensures
        r == max_len(cols.deep_view()),
{
    let ghost cv = cols.deep_view();
    let mut m: usize = 0;
    let mut i: usize = 0;
    while i < cols.len()
        invariant
            i <= cols@.len(),
            cv == cols.deep_view(),
            m == max_len(cv.take(i as int)),
        decreases cols.len() - i,
    {
        assert(cv.take(i + 1).drop_last() =~= cv.take(i as int));
        assert(cv[i as int].len() == cols@[i as int]@.len());
        if cols[i].len() > m {
            m = cols[i].len();
        }
        i = i + 1;
    }
    assert(cv.take(cols@.len() as int) =~= cv);
    m
}

/// The cells of the table that shows a query result, given the column names
/// and each column's values already written out.
pub fn table_grid(names: &Vec<String>, cols: &Vec<Vec<String>>) -> (r: Vec<Vec<String>>)
    requires
        cols@.len() <= names@.len(),
        max_len(cols.deep_view()) < usize::MAX,
    ensures
        r.deep_view() == grid_spec(names.deep_view(), cols.deep_view()),
{
    let ghost nv = names.deep_view();
    let ghost cv = cols.deep_view();
    let nrow = longest(cols);
    let mut grid: Vec<Vec<String>> = Vec::new();
    let mut r: usize = 0;
    while r <= nrow
        invariant
            nrow == max_len(cv),
            nrow < usize::MAX,
            r <= nrow + 1,
            nv == names.deep_view(),
            cv == cols.deep_view(),
            cols@.len() <= names@.len(),
            grid.deep_view() == grid_spec(nv, cv).take(r as int),
        decreases nrow + 1 - r,
    {
        let mut row: Vec<String> = Vec::new();
        let mut c: usize = 0;
        while c < names.len()
            invariant
                r <= nrow,
                c <= names@.len(),
                nv == names.deep_view(),
                cv == cols.deep_view(),
                cols@.len() <= names@.len(),
                row.deep_view() == Seq::new(c as nat, |k: int| grid_cell(nv, cv, r as int, k)),
            decreases names.len() - c,
        {
            let cell = if r == 0 {
                names[c].clone()
            } else if c < cols.len() && r - 1 < cols[c].len() {
                cols[c][r - 1].clone()
            } else {
                String::new()
            };
            proof {
                if r == 0 {
                    assert(nv[c as int] == names@[c as int]@);
                } else if c < cols@.len() {
                    assert(cv[c as int] == cols@[c as int].deep_view());
                    if r - 1 < cols@[c as int]@.len() {
                        assert(cv[c as int][r - 1] == cols@[c as int]@[r - 1]@);
                    }
                }
            }
            assert(cell@ == grid_cell(nv, cv, r as int, c as int));
            let ghost before = row.deep_view();
            let ghost cv_cell = cell@;
            row.push(cell);
            assert(row.deep_view() =~= before.push(cv_cell));
            assert(row.deep_view() =~= Seq::new((c + 1) as nat, |k: int| grid_cell(nv, cv, r as int, k)));
            c = c + 1;
        }
        let ghost before = grid.deep_view();
        let ghost rowv = row.deep_view();
        assert(rowv =~= grid_spec(nv, cv)[r as int]);
        grid.push(row);
        assert(grid.deep_view() =~= before.push(rowv));
        assert(grid.deep_view() =~= grid_spec(nv, cv).take(r + 1));
        r = r + 1;
    }
    assert(grid_spec(nv, cv).take(nrow + 1) =~= grid_spec(nv, cv));
    grid
}

} // verus!

verus! {

proof fn lemma_decimal_spells(n: nat)
    ensures
        decimal(n).len() > 0,
        all_digits(decimal(n)),
        digits_value(decimal(n)) == n,
        count_char(decimal(n), ':') == 0,
    decreases n,
{
    let d = decimal(n);
    if n < 10 {
        assert(d =~= seq![digit_char(n)]);
        assert(d.drop_last() =~= Seq::<char>::empty());
        assert(count_char(d.drop_last(), ':') == 0);
        assert(digit_char(n) as int == 48 + n);
        assert(digits_value(d) == digits_value(d.drop_last()) * 10 + (d.last() as int - '0' as int));
    } else {
        lemma_decimal_spells(n / 10);
        assert(d.drop_last() =~= decimal(n / 10));
        assert(digit_char(n % 10) as int == 48 + n % 10);
        assert(digits_value(d) == digits_value(d.drop_last()) * 10 + (d.last() as int - '0' as int));
        assert((n / 10) * 10 + n % 10 == n) by (nonlinear_arith);
        assert forall|i: int| 0 <= i < d.len() implies is_digit(#[trigger] d[i]) by {
            if i < d.len() - 1 {
                assert(d[i] == decimal(n / 10)[i]);
            }
        }
    }
}

/// Writing a local target or a `host:port` target as text and reading the
/// text back gives the same target.
pub proof fn law_endpoint_text_round_trip(e: ProbeEndpointView)
    requires
        e is Local || (e is Remote && count_char(e->addr, ':') == 1),
    ensures
        endpoint_of(endpoint_text(e)) == Some(e),
{
    match e {
        ProbeEndpointView::Local { pid } => {
            let t = signed_decimal(pid as int);
            if pid < 0 {
                let m = (-(pid as int)) as nat;
                lemma_decimal_spells(m);
                let d = decimal(m);
                assert(t =~= seq!['-'] + d);
                assert(t.skip(1) =~= d);
                assert(t.drop_last().len() + 1 == t.len());
                assert(count_char(t, ':') == 0) by {
                    lemma_count_concat(seq!['-'], d, ':');
                    let dash = seq!['-'];
                    assert(dash.drop_last() =~= Seq::<char>::empty());
                    assert(count_char(Seq::<char>::empty(), ':') == 0);
                    assert(dash.last() == '-');
                    assert(count_char(dash, ':') == count_char(dash.drop_last(), ':') + 0);
                }
            } else {
                lemma_decimal_spells(pid as nat);
                let d = decimal(pid as nat);
                assert(t == d);
                assert(is_digit(d[0]));
            }
        },
        _ => {},
    }
}

proof fn lemma_count_concat(a: Seq<char>, b: Seq<char>, c: char)
    ensures
        count_char(a + b, c) == count_char(a, c) + count_char(b, c),
    decreases b.len(),
{
    if b.len() == 0 {
        assert(a + b =~= a);
    } else {
        lemma_count_concat(a, b.drop_last(), c);
        assert((a + b).drop_last() =~= a + b.drop_last());
        assert((a + b).last() == b.last());
    }
}

} // verus!
