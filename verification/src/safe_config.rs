//! Server configuration with validated newtypes (port, timeout, connection limit) and
//! a builder that fills in defaults and reports every invalid field at once.
use vstd::prelude::*;
use crate::text::{owned, append_str, string_from_chars};

verus! {

/// A configuration of plain values, with no validation.
#[derive(Debug, Clone)]
pub struct BasicServerConfig {
    pub host: String,
    pub port: u16,
    pub timeout_seconds: u64,
    pub max_connections: u32,
}

impl BasicServerConfig {
    /// Stores the values as given.
    pub fn new(host: String, port: u16, timeout_seconds: u64, max_connections: u32) -> (r: Self)
        ensures
            r.host@ == host@,
            r.port == port,
            r.timeout_seconds == timeout_seconds,
            r.max_connections == max_connections,
    {
        BasicServerConfig { host, port, timeout_seconds, max_connections }
    }
}

/// A host name.
#[derive(Debug, Clone, PartialEq)]
pub struct Hostname(pub String);

impl Hostname {
    /// Wraps a host name.
    pub fn new(hostname: String) -> (r: Self)
        ensures
            r.0@ == hostname@,
    {
        Hostname(hostname)
    }

    /// The host name.
    pub fn as_str(&self) -> (r: &str)
        ensures
            r@ == self.0@,
    {
        self.0.as_str()
    }
}

/// The message of a zero port.
pub open spec fn port_error_text() -> Seq<char> {
    "Port must be greater than 0"@
}

/// The message of a zero timeout.
pub open spec fn timeout_error_text() -> Seq<char> {
    "Timeout must be greater than 0 seconds"@
}

/// The message of a zero connection limit.
pub open spec fn connections_error_text() -> Seq<char> {
    "Connection count must be greater than 0"@
}

/// A TCP port other than 0.
#[derive(Debug, Clone, Copy, PartialEq)]
pub struct Port(u16);

impl Port {
    #[verifier::type_invariant]
    spec fn nonzero(self) -> bool {
        self.0 > 0
    }

    /// The port number.
    pub closed spec fn number(self) -> u16 {
        self.0
    }

    /// A port; 0 is refused.
    pub fn new(port: u16) -> (r: Result<Self, String>)
        ensures
            port > 0 ==> (r matches Ok(p) && p.number() == port),
            port == 0 ==> (r matches Err(m) && m@ == port_error_text()),
    {
        if port == 0 {
            Err(owned("Port must be greater than 0"))
        } else {
            Ok(Port(port))
        }
    }

    /// The port number, which is never 0.
    pub fn get(&self) -> (r: u16)
        ensures
            r == self.number(),
            r > 0,
    {
        proof {
            use_type_invariant(self);
        }
        self.0
    }
}

impl core::ops::Deref for Port {
    type Target = u16;

    fn deref(&self) -> (r: &u16)
        ensures
            *r == self.number(),
    {
        &self.0
    }
}

/// The duration of `secs` whole seconds, as `Duration::from_secs` makes it.
pub uninterp spec fn duration_of_secs(secs: u64) -> std::time::Duration;

/// `Duration::from_secs`: the duration of `secs` whole seconds. Distinct numbers of
/// seconds give distinct durations.
#[verifier::external_body]
pub(crate) fn duration_from_secs(secs: u64) -> (r: std::time::Duration)
    ensures
        r == duration_of_secs(secs),
        forall|s: u64| #[trigger] duration_of_secs(s) == r ==> s == secs,
{
    std::time::Duration::from_secs(secs)
}

/// A timeout of a positive number of whole seconds.
#[derive(Debug, Clone, Copy, PartialEq)]
pub struct Timeout(std::time::Duration);

impl Timeout {
    #[verifier::type_invariant]
    spec fn positive(self) -> bool {
        exists|s: u64| s > 0 && #[trigger] duration_of_secs(s) == self.0
    }

    /// The number of whole seconds of the timeout.
    pub closed spec fn seconds(self) -> u64 {
        choose|s: u64| s > 0 && #[trigger] duration_of_secs(s) == self.0
    }

    /// The duration of the timeout.
    pub closed spec fn duration(self) -> std::time::Duration {
        self.0
    }

    /// A timeout of `secs` seconds; 0 is refused.
    pub fn from_secs(secs: u64) -> (r: Result<Self, String>)
        ensures
            secs > 0 ==> (r matches Ok(t) && t.seconds() == secs && t.duration() == duration_of_secs(secs)),
            secs == 0 ==> (r matches Err(m) && m@ == timeout_error_text()),
    {
        if secs == 0 {
            Err(owned("Timeout must be greater than 0 seconds"))
        } else {
            let d = duration_from_secs(secs);
            let t = Timeout(d);
            assert(duration_of_secs(secs) == t.0);
            Ok(t)
        }
    }

    /// The timeout as a `Duration`.
    pub fn as_duration(&self) -> (r: std::time::Duration)
        ensures
            r == self.duration(),
            r == duration_of_secs(self.seconds()),
            self.seconds() > 0,
    {
        proof {
            use_type_invariant(self);
        }
        self.0
    }
}

impl core::ops::Deref for Timeout {
    type Target = std::time::Duration;

    fn deref(&self) -> (r: &std::time::Duration)
        ensures
            *r == self.duration(),
    {
        &self.0
    }
}

/// A connection limit other than 0.
#[derive(Debug, Clone, Copy, PartialEq)]
pub struct MaxConnections(u32);

impl MaxConnections {
    #[verifier::type_invariant]
    spec fn nonzero(self) -> bool {
        self.0 > 0
    }

    /// The limit.
    pub closed spec fn count(self) -> u32 {
        self.0
    }

    /// A connection limit; 0 is refused.
    pub fn new(count: u32) -> (r: Result<Self, String>)
        ensures
            count > 0 ==> (r matches Ok(c) && c.count() == count),
            count == 0 ==> (r matches Err(m) && m@ == connections_error_text()),
    {
        if count == 0 {
            Err(owned("Connection count must be greater than 0"))
        } else {
            Ok(MaxConnections(count))
        }
    }

    /// The limit, which is never 0.
    pub fn get(&self) -> (r: u32)
        ensures
            r == self.count(),
            r > 0,
    {
        proof {
            use_type_invariant(self);
        }
        self.0
    }
}

/// A validated server configuration.
#[derive(Debug, Clone)]
pub struct ServerConfig {
    pub host: Hostname,
    pub port: Port,
    pub timeout: Timeout,
    pub max_connections: MaxConnections,
}

impl ServerConfig {
    /// Assembles a configuration from validated parts.
    pub fn new(host: Hostname, port: Port, timeout: Timeout, max_connections: MaxConnections) -> (r: Self)
        ensures
            r.host.0@ == host.0@,
            r.port == port,
            r.timeout == timeout,
            r.max_connections == max_connections,
    {
        ServerConfig { host, port, timeout, max_connections }
    }

    /// A builder with nothing set.
    pub fn builder() -> (r: ServerConfigBuilder)
        ensures
            r.host_value() is None,
            r.port_value() is None,
            r.timeout_value() is None,
            r.connections_value() is None,
    {
        ServerConfigBuilder::new()
    }
}

/// The port used when none is given.
pub const DEFAULT_PORT: u16 = 8080;

/// The timeout in seconds used when none is given.
pub const DEFAULT_TIMEOUT_SECS: u64 = 30;

/// The connection limit used when none is given.
pub const DEFAULT_MAX_CONNECTIONS: u32 = 100;

/// Collects configuration values; `build` validates them all.
pub struct ServerConfigBuilder {
    host: Option<String>,
    port: Option<u16>,
    timeout_secs: Option<u64>,
    max_connections: Option<u32>,
}

/// The message for a missing host.
pub open spec fn host_required_text() -> Seq<char> {
    "Host is required"@
}

/// The message for an empty host.
pub open spec fn host_empty_text() -> Seq<char> {
    "Host cannot be empty"@
}

/// The errors `build` reports, in the order of the fields: host, port, timeout,
/// connection limit.
pub open spec fn build_errors(
    host: Option<Seq<char>>,
    port: Option<u16>,
    timeout: Option<u64>,
    max: Option<u32>,
) -> Seq<Seq<char>> {
    let h: Seq<Seq<char>> = match host {
        None => seq![host_required_text()],
        Some(s) => if s.len() == 0 { seq![host_empty_text()] } else { Seq::empty() },
    };
    let p: Seq<Seq<char>> = if port == Some(0u16) {
        seq!["Invalid port: "@ + port_error_text()]
    } else {
        Seq::empty()
    };
    let t: Seq<Seq<char>> = if timeout == Some(0u64) {
        seq!["Invalid timeout: "@ + timeout_error_text()]
    } else {
        Seq::empty()
    };
    let c: Seq<Seq<char>> = if max == Some(0u32) {
        seq!["Invalid max_connections: "@ + connections_error_text()]
    } else {
        Seq::empty()
    };
    h + p + t + c
}

fn default_timeout() -> (r: Timeout)
    ensures
        r.seconds() == DEFAULT_TIMEOUT_SECS,
{
    let d = duration_from_secs(DEFAULT_TIMEOUT_SECS);
    assert(duration_of_secs(DEFAULT_TIMEOUT_SECS) == d);
    Timeout(d)
}

fn prefixed(prefix: &str, message: String) -> (r: String)
    ensures
        r@ == prefix@ + message@,
{
    let mut v: Vec<char> = Vec::new();
    append_str(&mut v, prefix);
    append_str(&mut v, message.as_str());
    string_from_chars(v.as_slice())
}

impl ServerConfigBuilder {
    /// The host set so far.
    pub closed spec fn host_value(&self) -> Option<Seq<char>> {
        match self.host {
            Some(h) => Some(h@),
            None => None,
        }
    }

    /// The port set so far.
    pub closed spec fn port_value(&self) -> Option<u16> {
        self.port
    }

    /// The timeout in seconds set so far.
    pub closed spec fn timeout_value(&self) -> Option<u64> {
        self.timeout_secs
    }

    /// The connection limit set so far.
    pub closed spec fn connections_value(&self) -> Option<u32> {
        self.max_connections
    }

    /// A builder with nothing set.
    pub fn new() -> (r: Self)
        ensures
            r.host_value() is None,
            r.port_value() is None,
            r.timeout_value() is None,
            r.connections_value() is None,
    {
        ServerConfigBuilder { host: None, port: None, timeout_secs: None, max_connections: None }
    }

    /// Sets the host (required).
    pub fn host(self, host: &str) -> (r: Self)
        ensures
            r.host_value() == Some(host@),
            r.port_value() == self.port_value(),
            r.timeout_value() == self.timeout_value(),
            r.connections_value() == self.connections_value(),
    {
        ServerConfigBuilder { host: Some(owned(host)), ..self }
    }

    /// Sets the port (8080 when not set).
    pub fn port(self, port: u16) -> (r: Self)
        ensures
            r.host_value() == self.host_value(),
            r.port_value() == Some(port),
            r.timeout_value() == self.timeout_value(),
            r.connections_value() == self.connections_value(),
    {
        ServerConfigBuilder { port: Some(port), ..self }
    }

    /// Sets the timeout in seconds (30 when not set).
    pub fn timeout_secs(self, secs: u64) -> (r: Self)
        ensures
            r.host_value() == self.host_value(),
            r.port_value() == self.port_value(),
            r.timeout_value() == Some(secs),
            r.connections_value() == self.connections_value(),
    {
        ServerConfigBuilder { timeout_secs: Some(secs), ..self }
    }

    /// Sets the connection limit (100 when not set).
    pub fn max_connections(self, max: u32) -> (r: Self)
        ensures
            r.host_value() == self.host_value(),
            r.port_value() == self.port_value(),
            r.timeout_value() == self.timeout_value(),
            r.connections_value() == Some(max),
    {
        ServerConfigBuilder { max_connections: Some(max), ..self }
    }

    /// Validates every field, using the defaults for those not set. Succeeds exactly
    /// when there is no error; otherwise returns all errors (see `build_errors`).
    pub fn build(self) -> (r: Result<ServerConfig, Vec<String>>)
        ensures
            ({
                let errs = build_errors(
                    self.host_value(),
                    self.port_value(),
                    self.timeout_value(),
                    self.connections_value(),
                );
                &&& errs.len() == 0 <==> r is Ok
                &&& r matches Err(v) ==> v@.len() == errs.len() && forall|i: int|
                    0 <= i < errs.len() ==> (#[trigger] v@[i])@ == errs[i]
                &&& r matches Ok(c) ==> {
                    &&& self.host_value() == Some(c.host.0@)
                    &&& c.port.number() == match self.port_value() {
                        Some(p) => p,
                        None => DEFAULT_PORT,
                    }
                    &&& c.timeout.seconds() == match self.timeout_value() {
                        Some(t) => t,
                        None => DEFAULT_TIMEOUT_SECS,
                    }
                    &&& c.max_connections.count() == match self.connections_value() {
                        Some(m) => m,
                        None => DEFAULT_MAX_CONNECTIONS,
                    }
                }
            }),
    {
        let ghost hv = self.host_value();
        let ghost pv = self.port_value();
        let ghost tv = self.timeout_value();
        let ghost cv = self.connections_value();
        let mut errors: Vec<String> = Vec::new();
        let host = match self.host {
            Some(h) => {
                if h.as_str().unicode_len() == 0 {
                    errors.push(owned("Host cannot be empty"));
                    Hostname(owned("localhost"))
                } else {
                    Hostname(h)
                }
            },
            None => {
                errors.push(owned("Host is required"));
                Hostname(owned("localhost"))
            },
        };
        let ghost e1 = errors@;
        let port = match self.port {
            Some(p) => match Port::new(p) {
                Ok(port) => port,
                Err(e) => {
                    errors.push(prefixed("Invalid port: ", e));
                    Port(DEFAULT_PORT)
                },
            },
            None => Port(DEFAULT_PORT),
        };
        let ghost e2 = errors@;
        let timeout = match self.timeout_secs {
            Some(secs) => match Timeout::from_secs(secs) {
                Ok(t) => t,
                Err(e) => {
                    errors.push(prefixed("Invalid timeout: ", e));
                    default_timeout()
                },
            },
            None => default_timeout(),
        };
        let ghost e3 = errors@;
        let max_connections = match self.max_connections {
            Some(m) => match MaxConnections::new(m) {
                Ok(c) => c,
                Err(e) => {
                    errors.push(prefixed("Invalid max_connections: ", e));
                    MaxConnections(DEFAULT_MAX_CONNECTIONS)
                },
            },
            None => MaxConnections(DEFAULT_MAX_CONNECTIONS),
        };
        proof {
            let errs = build_errors(hv, pv, tv, cv);
            assert(errors@.len() == errs.len());
            assert forall|i: int| 0 <= i < errs.len() implies (#[trigger] errors@[i])@ == errs[i] by {
                assert(errs =~= build_errors(hv, pv, tv, cv));
            }
        }
        if errors.len() > 0 {
            Err(errors)
        } else {
            Ok(ServerConfig::new(host, port, timeout, max_connections))
        }
    }
}

} // verus!
