//! Operator configuration (`ruuter.yaml`) as plain values, with the
//! defaults that apply when a section or field is absent.
//!
//! Maps of the file format are held as lists of `(key, value)` pairs in
//! file order; file-system paths are held as strings.
use vstd::prelude::*;
use crate::text::string_views;
use crate::json::JsonValue;

verus! {

/// One inbound listener: exactly one of `bind` (TCP `host:port`) or
/// `unix` (socket path) is expected.
#[derive(Debug, Clone)]
pub struct ListenerConfig {
    pub name: Option<String>,
    pub bind: Option<String>,
    pub unix: Option<String>,
    pub http2: bool,
}

/// Transport a listener entry asks for.
#[derive(Debug, Clone)]
pub enum ListenerTransport {
    Tcp(String),
    Unix(String),
    /// Both `bind` and `unix` are set.
    BothSet,
    /// Neither is set.
    NeitherSet,
}

impl ListenerConfig {
    /// Which transport this entry selects; both-or-neither is a
    /// configuration error.
    pub fn transport(&self) -> (r: ListenerTransport)
        ensures
            match (self.bind, self.unix) {
                (Some(b), None) => r matches ListenerTransport::Tcp(t) && t@ == b@,
                (None, Some(u)) => r matches ListenerTransport::Unix(t) && t@ == u@,
                (Some(_), Some(_)) => r is BothSet,
                (None, None) => r is NeitherSet,
            },
    {
        match (&self.bind, &self.unix) {
            (Some(b), None) => ListenerTransport::Tcp(b.clone()),
            (None, Some(u)) => ListenerTransport::Unix(u.clone()),
            (Some(_), Some(_)) => ListenerTransport::BothSet,
            (None, None) => ListenerTransport::NeitherSet,
        }
    }
}

/// HTTP version of outbound Unix-socket calls.
#[derive(Debug, Clone, Copy, PartialEq, Eq, Structural)]
pub enum HttpVersion {
    Http1,
    Http2,
}

impl Default for HttpVersion {
    fn default() -> (r: Self)
        ensures
            r == HttpVersion::Http1,
    {
        HttpVersion::Http1
    }
}

/// Guard evaluation mode (`guards.mode`).
#[derive(Debug, Clone, Copy, PartialEq, Eq, Structural)]
pub enum GuardMode {
    /// Every matching ancestor guard runs, outermost first.
    Stack,
    /// Only the innermost (longest-key) matching guard runs.
    ClosestOnly,
}

impl Default for GuardMode {
    fn default() -> (r: Self)
        ensures
            r == GuardMode::Stack,
    {
        GuardMode::Stack
    }
}

/// The `guards` section.
#[derive(Debug, Clone, Copy)]
pub struct GuardsConfig {
    pub mode: GuardMode,
}

impl Default for GuardsConfig {
    fn default() -> (r: Self)
        ensures
            r.mode == GuardMode::Stack,
    {
        GuardsConfig { mode: GuardMode::Stack }
    }
}

/// Response-shape defaults (`response`).
#[derive(Debug, Clone, Copy)]
pub struct ResponseConfig {
    /// Wrap the body in `{"response": ...}` when the return step does
    /// not say.
    pub default_wrapper: bool,
    /// Status when the DSL returned a value without an explicit status.
    pub dsl_with_response_status: Option<u16>,
    /// Status when the DSL returned no value.
    pub dsl_without_response_status: Option<u16>,
}

impl Default for ResponseConfig {
    fn default() -> (r: Self)
        ensures
            r.default_wrapper,
            r.dsl_with_response_status is None,
            r.dsl_without_response_status is None,
    {
        ResponseConfig { default_wrapper: true, dsl_with_response_status: None, dsl_without_response_status: None }
    }
}

/// `If-Match` enforcement (`optimistic_concurrency`).
#[derive(Debug, Clone)]
pub struct OptimisticConcurrencyConfig {
    pub require_if_match: bool,
    pub enforce_on_methods: Vec<String>,
}

impl Default for OptimisticConcurrencyConfig {
    /// The section's default value (the per-field file default for
    /// `enforce_on_methods` is [`default_ifmatch_methods`]).
    fn default() -> (r: Self)
        ensures
            !r.require_if_match,
            r.enforce_on_methods@.len() == 0,
    {
        OptimisticConcurrencyConfig { require_if_match: false, enforce_on_methods: Vec::new() }
    }
}

/// Origin/Referer allow-list for state-changing methods (`csrf`).
#[derive(Debug, Clone)]
pub struct CsrfConfig {
    pub allowed_origins: Vec<String>,
    pub enforce_on_methods: Vec<String>,
}

impl Default for CsrfConfig {
    /// The section's default value (the per-field file default for
    /// `enforce_on_methods` is [`default_csrf_methods`]).
    fn default() -> (r: Self)
        ensures
            r.allowed_origins@.len() == 0,
            r.enforce_on_methods@.len() == 0,
    {
        CsrfConfig { allowed_origins: Vec::new(), enforce_on_methods: Vec::new() }
    }
}

/// Limits of the embedded script engine (`scripting`).
#[derive(Debug, Clone, Copy)]
pub struct ScriptingConfig {
    pub max_loop_iterations: u64,
    pub max_stack_size: usize,
}

impl Default for ScriptingConfig {
    fn default() -> (r: Self)
        ensures
            r.max_loop_iterations == 1_000_000,
            r.max_stack_size == 400,
    {
        ScriptingConfig { max_loop_iterations: 1_000_000, max_stack_size: 400 }
    }
}

/// CORS allow-list (`cors`).
#[derive(Debug, Clone)]
pub struct CorsConfig {
    pub allowed_origins: Vec<String>,
    pub allow_credentials: bool,
}

impl Default for CorsConfig {
    fn default() -> (r: Self)
        ensures
            r.allowed_origins@.len() == 0,
            !r.allow_credentials,
    {
        CorsConfig { allowed_origins: Vec::new(), allow_credentials: false }
    }
}

/// DSL loading options (`dsl`).
#[derive(Debug, Clone)]
pub struct DslConfig {
    pub allowed_filetypes: Vec<String>,
    pub processed_filetypes: Vec<String>,
    pub allow_dsl_reloading: bool,
    pub warn_on_missing_declaration: bool,
}

pub open spec fn yaml_extensions() -> Seq<Seq<char>> {
    seq![".yml"@, ".yaml"@]
}

/// `[".yml", ".yaml"]`.
pub fn default_filetypes() -> (r: Vec<String>)
    ensures
        string_views(r@) == yaml_extensions(),
{
    let r = vec![".yml".to_owned(), ".yaml".to_owned()];
    assert(string_views(r@) =~= yaml_extensions());
    r
}

impl Default for DslConfig {
    fn default() -> (r: Self)
        ensures
            string_views(r.allowed_filetypes@) == yaml_extensions(),
            string_views(r.processed_filetypes@) == yaml_extensions(),
            !r.allow_dsl_reloading,
            r.warn_on_missing_declaration,
    {
        DslConfig {
            allowed_filetypes: default_filetypes(),
            processed_filetypes: default_filetypes(),
            allow_dsl_reloading: false,
            warn_on_missing_declaration: true,
        }
    }
}

/// Log output format.
#[derive(Debug, Clone, Copy, PartialEq, Eq, Structural)]
pub enum LogFormat {
    Text,
    Json,
    Pretty,
}

impl Default for LogFormat {
    fn default() -> (r: Self)
        ensures
            r == LogFormat::Text,
    {
        LogFormat::Text
    }
}

pub open spec fn redact_headers_default() -> Seq<Seq<char>> {
    seq!["authorization"@, "proxy-authorization"@, "cookie"@, "set-cookie"@, "x-api-key"@, "x-auth-token"@]
}

pub open spec fn redact_fields_default() -> Seq<Seq<char>> {
    seq!["password"@, "pass"@, "secret"@, "token"@, "access_token"@, "refresh_token"@, "api_key"@, "authorization"@]
}

/// Header names redacted from logged header maps by default.
pub fn default_redact_headers() -> (r: Vec<String>)
    ensures
        string_views(r@) == redact_headers_default(),
{
    let r = vec![
        "authorization".to_owned(),
        "proxy-authorization".to_owned(),
        "cookie".to_owned(),
        "set-cookie".to_owned(),
        "x-api-key".to_owned(),
        "x-auth-token".to_owned(),
    ];
    assert(string_views(r@) =~= redact_headers_default());
    r
}

/// Body field names redacted from logged JSON bodies by default.
pub fn default_redact_body_fields() -> (r: Vec<String>)
    ensures
        string_views(r@) == redact_fields_default(),
{
    let r = vec![
        "password".to_owned(),
        "pass".to_owned(),
        "secret".to_owned(),
        "token".to_owned(),
        "access_token".to_owned(),
        "refresh_token".to_owned(),
        "api_key".to_owned(),
        "authorization".to_owned(),
    ];
    assert(string_views(r@) =~= redact_fields_default());
    r
}

/// Logging options (`logging`).
#[derive(Debug, Clone)]
pub struct LoggingConfig {
    pub display_request_content: bool,
    pub display_response_content: bool,
    pub print_stack_trace: bool,
    pub meaningful_errors: bool,
    pub format: LogFormat,
    pub access_log: bool,
    pub step_timing: bool,
    pub log_step_executions: bool,
    pub log_dsl_runs: bool,
    pub max_body_bytes: usize,
    pub redact_headers: Vec<String>,
    pub redact_body_fields: Vec<String>,
}

impl Default for LoggingConfig {
    fn default() -> (r: Self)
        ensures
            !r.display_request_content && !r.display_response_content,
            !r.print_stack_trace && !r.meaningful_errors,
            r.format == LogFormat::Text,
            r.access_log && !r.step_timing && r.log_step_executions && !r.log_dsl_runs,
            r.max_body_bytes == 2048,
            string_views(r.redact_headers@) == redact_headers_default(),
            string_views(r.redact_body_fields@) == redact_fields_default(),
    {
        LoggingConfig {
            display_request_content: false,
            display_response_content: false,
            print_stack_trace: false,
            meaningful_errors: false,
            format: LogFormat::Text,
            access_log: true,
            step_timing: false,
            log_step_executions: true,
            log_dsl_runs: false,
            max_body_bytes: 2048,
            redact_headers: default_redact_headers(),
            redact_body_fields: default_redact_body_fields(),
        }
    }
}

pub open spec fn methods_default() -> Seq<Seq<char>> {
    seq!["GET"@, "POST"@, "PUT"@, "PATCH"@, "DELETE"@, "OPTIONS"@]
}

pub open spec fn csrf_methods_default() -> Seq<Seq<char>> {
    seq!["POST"@, "PUT"@, "PATCH"@, "DELETE"@]
}

pub open spec fn ifmatch_methods_default() -> Seq<Seq<char>> {
    seq!["PUT"@, "PATCH"@, "DELETE"@]
}

/// Methods accepted by default.
pub fn default_allowed_methods() -> (r: Vec<String>)
    ensures
        string_views(r@) == methods_default(),
{
    let r = vec![
        "GET".to_owned(),
        "POST".to_owned(),
        "PUT".to_owned(),
        "PATCH".to_owned(),
        "DELETE".to_owned(),
        "OPTIONS".to_owned(),
    ];
    assert(string_views(r@) =~= methods_default());
    r
}

/// Methods the CSRF check applies to when the file does not say.
pub fn default_csrf_methods() -> (r: Vec<String>)
    ensures
        string_views(r@) == csrf_methods_default(),
{
    let r = vec!["POST".to_owned(), "PUT".to_owned(), "PATCH".to_owned(), "DELETE".to_owned()];
    assert(string_views(r@) =~= csrf_methods_default());
    r
}

/// Methods that must carry `If-Match` when the file does not say.
pub fn default_ifmatch_methods() -> (r: Vec<String>)
    ensures
        string_views(r@) == ifmatch_methods_default(),
{
    let r = vec!["PUT".to_owned(), "PATCH".to_owned(), "DELETE".to_owned()];
    assert(string_views(r@) =~= ifmatch_methods_default());
    r
}

/// Inbound request options (`incoming_requests`).
#[derive(Debug, Clone)]
pub struct IncomingRequestsConfig {
    pub allowed_method_types: Vec<String>,
    /// Headers injected into every request (they overwrite client
    /// headers of the same name).
    pub headers: Vec<(String, String)>,
}

impl Default for IncomingRequestsConfig {
    fn default() -> (r: Self)
        ensures
            string_views(r.allowed_method_types@) == methods_default(),
            r.headers@.len() == 0,
    {
        IncomingRequestsConfig { allowed_method_types: default_allowed_methods(), headers: Vec::new() }
    }
}

/// Reverse proxies whose forwarding headers are believed (`proxy`).
#[derive(Debug, Clone)]
pub struct ProxyConfig {
    pub trusted: Vec<String>,
}

impl Default for ProxyConfig {
    fn default() -> (r: Self)
        ensures
            r.trusted@.len() == 0,
    {
        ProxyConfig { trusted: Vec::new() }
    }
}

/// Outbound-call posture (`internal_requests`).
#[derive(Debug, Clone)]
pub struct InternalRequestsConfig {
    pub disabled: bool,
    pub allowed_ips: Vec<String>,
    pub allowed_urls: Vec<String>,
    /// Refuse TCP calls to loopback, link-local, unspecified and
    /// private ranges.
    pub block_private_networks: bool,
}

impl Default for InternalRequestsConfig {
    fn default() -> (r: Self)
        ensures
            !r.disabled,
            r.allowed_ips@.len() == 0,
            r.allowed_urls@.len() == 0,
            r.block_private_networks,
    {
        InternalRequestsConfig {
            disabled: false,
            allowed_ips: Vec::new(),
            allowed_urls: Vec::new(),
            block_private_networks: true,
        }
    }
}


/// Fallback DSL run when an HTTP step's upstream status is refused and
/// the step has no `error:` target (`default_dsl_in_case_of_exception`).
#[derive(Debug)]
pub struct DefaultHttpDslConfig {
    pub dsl: String,
    /// Method the fallback DSL is looked up under (file default `POST`).
    pub request_type: String,
    /// Project of the fallback DSL (file default `framework`).
    pub project: String,
    pub body: Vec<(String, JsonValue)>,
    pub query: Vec<(String, JsonValue)>,
    pub headers: Vec<(String, String)>,
}

/// The whole operator configuration.
#[derive(Debug)]
pub struct AppConfig {
    pub config_path: String,
    pub port: u16,
    pub stop_in_case_of_exception: bool,
    /// Upstream statuses accepted by HTTP steps; empty accepts all.
    pub http_codes_allow_list: Vec<u16>,
    /// Cap on step transitions per DSL run.
    pub max_step_recursions: Option<u32>,
    pub http_response_size_limit: Option<usize>,
    /// Milliseconds.
    pub http_request_timeout: u64,
    pub cors: CorsConfig,
    pub dsl: DslConfig,
    pub logging: LoggingConfig,
    pub incoming_requests: IncomingRequestsConfig,
    pub response_default_headers: Vec<(String, String)>,
    pub response: ResponseConfig,
    pub default_dsl_in_case_of_exception: Option<DefaultHttpDslConfig>,
    pub guards: GuardsConfig,
    pub internal_requests: InternalRequestsConfig,
    pub csrf: CsrfConfig,
    pub proxy: ProxyConfig,
    pub scripting: ScriptingConfig,
    pub optimistic_concurrency: OptimisticConcurrencyConfig,
    /// Host aliases served over Unix sockets: `(host, socket path)`.
    pub unix_socket_map: Vec<(String, String)>,
    pub uds_http_version: HttpVersion,
    pub listeners: Vec<ListenerConfig>,
}

impl Default for AppConfig {
    fn default() -> (r: Self)
        ensures
            r.config_path@ == "./DSL"@,
            r.port == 8080,
            r.stop_in_case_of_exception,
            r.http_codes_allow_list@.len() == 0,
            r.max_step_recursions == Some(10_000u32),
            r.http_response_size_limit == Some(16_777_216usize),
            r.http_request_timeout == 15000,
            r.cors.allowed_origins@.len() == 0 && !r.cors.allow_credentials,
            string_views(r.dsl.allowed_filetypes@) == yaml_extensions(),
            string_views(r.dsl.processed_filetypes@) == yaml_extensions(),
            !r.dsl.allow_dsl_reloading && r.dsl.warn_on_missing_declaration,
            r.logging.format == LogFormat::Text && r.logging.access_log && r.logging.log_step_executions,
            !r.logging.display_request_content && !r.logging.display_response_content,
            !r.logging.print_stack_trace && !r.logging.meaningful_errors,
            !r.logging.step_timing && !r.logging.log_dsl_runs && r.logging.max_body_bytes == 2048,
            string_views(r.logging.redact_headers@) == redact_headers_default(),
            string_views(r.logging.redact_body_fields@) == redact_fields_default(),
            string_views(r.incoming_requests.allowed_method_types@) == methods_default(),
            r.incoming_requests.headers@.len() == 0,
            r.response_default_headers@.len() == 0,
            r.response.default_wrapper && r.response.dsl_with_response_status is None
                && r.response.dsl_without_response_status is None,
            r.default_dsl_in_case_of_exception is None,
            r.guards.mode == GuardMode::Stack,
            !r.internal_requests.disabled && r.internal_requests.block_private_networks,
            r.internal_requests.allowed_ips@.len() == 0 && r.internal_requests.allowed_urls@.len() == 0,
            r.csrf.allowed_origins@.len() == 0 && r.csrf.enforce_on_methods@.len() == 0,
            r.proxy.trusted@.len() == 0,
            r.scripting.max_loop_iterations == 1_000_000 && r.scripting.max_stack_size == 400,
            !r.optimistic_concurrency.require_if_match && r.optimistic_concurrency.enforce_on_methods@.len() == 0,
            r.unix_socket_map@.len() == 0,
            r.uds_http_version == HttpVersion::Http1,
            r.listeners@.len() == 0,
    {
        AppConfig {
            config_path: "./DSL".to_owned(),
            port: 8080,
            stop_in_case_of_exception: true,
            http_codes_allow_list: Vec::new(),
            max_step_recursions: Some(10_000),
            http_response_size_limit: Some(16 * 1024 * 1024),
            http_request_timeout: 15000,
            cors: CorsConfig::default(),
            dsl: DslConfig::default(),
            logging: LoggingConfig::default(),
            incoming_requests: IncomingRequestsConfig::default(),
            response_default_headers: Vec::new(),
            response: ResponseConfig::default(),
            default_dsl_in_case_of_exception: None,
            guards: GuardsConfig::default(),
            internal_requests: InternalRequestsConfig::default(),
            csrf: CsrfConfig::default(),
            proxy: ProxyConfig::default(),
            scripting: ScriptingConfig::default(),
            optimistic_concurrency: OptimisticConcurrencyConfig::default(),
            unix_socket_map: Vec::new(),
            uds_http_version: HttpVersion::Http1,
            listeners: Vec::new(),
        }
    }
}

} // verus!
