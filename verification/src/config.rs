//! What identifies an endpoint, and what a new connection is opened with.

use vstd::prelude::*;

verus! {

/// Settings of the connections to an endpoint.
#[derive(Clone, Copy, Debug, PartialEq, Eq, Structural)]
pub struct GrpcClientConfig {
    /// Largest message that a connection sends or accepts, in bytes.
    pub max_message_size: usize,
    /// Whether a connection is secured by TLS.
    pub use_tls: bool,
    /// How often a failed request is tried again.
    pub io_retries_times: usize,
    /// Pause before a failed request is tried again, in milliseconds.
    pub io_retry_wait_time_ms: u64,
    /// Stands for all further settings, which the pool does not read: two
    /// configurations that differ in one of them have different numbers here.
    pub other_settings: u64,
}

/// The settings of a [`GrpcClientConfig`], in the order of its fields.
pub type ConfigKey = (usize, bool, usize, u64, u64);

/// Names an endpoint: host, port and settings.
pub type EndpointKey = (String, u16, ConfigKey);

/// An endpoint's name as a mathematical value.
pub type EndpointId = (Seq<char>, u16, ConfigKey);

/// The value that a key stands for.
pub open spec fn key_id(key: EndpointKey) -> EndpointId {
    (key.0@, key.1, key.2)
}

/// The endpoint at `host` and `port` with the settings `config`.
pub open spec fn endpoint_id(host: Seq<char>, port: u16, config: GrpcClientConfig) -> EndpointId {
    (
        host,
        port,
        (
            config.max_message_size,
            config.use_tls,
            config.io_retries_times,
            config.io_retry_wait_time_ms,
            config.other_settings,
        ),
    )
}

/// The key of the endpoint at `host` and `port` with the settings `config`.
pub fn endpoint_key(host: &str, port: u16, config: &GrpcClientConfig) -> (key: EndpointKey)
    ensures
        key_id(key) == endpoint_id(host@, port, *config),
        key.0@ == host@,
        key.1 == port,
        key.2.0 == config.max_message_size,
        key.2.1 == config.use_tls,
        key.2.2 == config.io_retries_times,
        key.2.3 == config.io_retry_wait_time_ms,
        key.2.4 == config.other_settings,
{
    (
        host.to_owned(),
        port,
        (
            config.max_message_size,
            config.use_tls,
            config.io_retries_times,
            config.io_retry_wait_time_ms,
            config.other_settings,
        ),
    )
}

/// A second key with the same value.
pub(crate) fn copy_key(key: &EndpointKey) -> (copy: EndpointKey)
    ensures
        key_id(copy) == key_id(*key),
        copy.0@ == key.0@,
        copy.1 == key.1,
        copy.2 == key.2,
{
    (key.0.clone(), key.1, key.2)
}

/// What a new connection is to be opened with.
#[derive(Debug)]
pub struct ConnectRequest {
    /// Host to connect to.
    pub host: String,
    /// Port to connect to.
    pub port: u16,
    /// Largest message that the connection sends or accepts, in bytes.
    pub max_message_size: usize,
    /// Whether the connection is secured by TLS.
    pub use_tls: bool,
    /// How often a failed request is tried again.
    pub io_retries_times: usize,
    /// Pause before a failed request is tried again, in milliseconds.
    pub io_retry_wait_time_ms: u64,
}

impl ConnectRequest {
    /// The request asks for a connection to `host` and `port` with the settings `config`.
    pub open spec fn asks_for(
        self,
        host: Seq<char>,
        port: u16,
        config: GrpcClientConfig,
    ) -> bool {
        &&& self.host@ == host
        &&& self.port == port
        &&& self.max_message_size == config.max_message_size
        &&& self.use_tls == config.use_tls
        &&& self.io_retries_times == config.io_retries_times
        &&& self.io_retry_wait_time_ms == config.io_retry_wait_time_ms
    }

    /// The request for a connection to `host` and `port` with the settings `config`.
    pub fn new(host: &str, port: u16, config: &GrpcClientConfig) -> (request: ConnectRequest)
        ensures
            request.asks_for(host@, port, *config),
            request.host@ == host@,
            request.port == port,
            request.max_message_size == config.max_message_size,
            request.use_tls == config.use_tls,
            request.io_retries_times == config.io_retries_times,
            request.io_retry_wait_time_ms == config.io_retry_wait_time_ms,
    {
        ConnectRequest {
            host: host.to_owned(),
            port,
            max_message_size: config.max_message_size,
            use_tls: config.use_tls,
            io_retries_times: config.io_retries_times,
            io_retry_wait_time_ms: config.io_retry_wait_time_ms,
        }
    }
}

} // verus!
