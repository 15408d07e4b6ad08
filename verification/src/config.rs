//! The webhook's settings.
use vstd::prelude::*;
use crate::json::{
    SysctlsParseError, json_object_text, json_plain_entries, json_string_map, json_whitespace,
    parse_sysctl_map,
};
use crate::string_map::{StringMap, fold_pairs};

verus! {

/// The webhook's settings, as given on the command line or in the environment.
#[derive(Debug)]
pub struct Config {
    /// Port to listen on.
    pub port: u16,
    /// Bind address.
    pub bind_address: String,
    /// Path to TLS certificate.
    pub tls_cert: String,
    /// Path to TLS private key.
    pub tls_key: String,
    /// Default fallback sysctls as a JSON object (e.g. `'{"net.ipv4.ip_local_port_range": "1024 65000"}'`).
    pub default_sysctls: String,
    /// Disable watching namespaces and namespace-level annotations (removes need for Namespace RBAC).
    pub disable_namespace_reflector: bool,
    /// HTTP/2 keep-alive interval in seconds. If set to 0, HTTP/2 keep-alives are disabled.
    pub http2_keep_alive_interval_secs: u64,
    /// HTTP/2 keep-alive timeout in seconds.
    pub http2_keep_alive_timeout_secs: u64,
    /// HTTP/2 max concurrent streams. If set to 0, the default limit (200) is used.
    pub http2_max_concurrent_streams: u32,
    /// Disable the Prometheus metrics endpoint.
    pub disable_metrics: bool,
    /// Port to expose Prometheus metrics on.
    pub metrics_port: u16,
    /// Bind address for Prometheus metrics.
    pub metrics_bind_address: String,
}

impl Config {
    /// Parses the default sysctls JSON text into a map.
    pub fn parse_default_sysctls(&self) -> (r: Result<StringMap, SysctlsParseError>)
        ensures
            r is Ok <==> json_string_map(self.default_sysctls@) is Some,
            r matches Ok(m) ==> m@ == fold_pairs(json_string_map(self.default_sysctls@)->0),
            forall|e: Seq<(Seq<char>, Seq<char>)>, ws: Seq<char>|
                #[trigger] json_object_text(e, ws) == self.default_sysctls@ && json_plain_entries(e)
                    && json_whitespace(ws) ==> (r matches Ok(m) && m@ == fold_pairs(e)),
    {
        parse_sysctl_map(self.default_sysctls.as_str())
    }
}

} // verus!
