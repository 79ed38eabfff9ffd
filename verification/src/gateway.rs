use vstd::prelude::*;

use crate::text::{push_str, string_of};

verus! {

/// Where and how to reach a TCP gateway.
#[derive(Debug, Clone, PartialEq, Eq)]
pub struct GatewayConfig {
    /// Gateway host name or IP address.
    pub host: String,
    /// Gateway port.
    pub port: u16,
    /// Connect timeout in milliseconds.
    pub connect_timeout_ms: u64,
    /// Read timeout in milliseconds.
    pub read_timeout_ms: u64,
    /// Write timeout in milliseconds.
    pub write_timeout_ms: u64,
    /// Whether a lost connection is re-established on use.
    pub auto_reconnect: bool,
}

impl Default for GatewayConfig {
    fn default() -> (c: Self)
        ensures
            c.host@ == "127.0.0.1"@,
            c.port == 9000,
            c.connect_timeout_ms == 1_000,
            c.read_timeout_ms == 1_000,
            c.write_timeout_ms == 1_000,
            c.auto_reconnect,
    {
        GatewayConfig {
            host: String::from_str("127.0.0.1"),
            port: 9000,
            connect_timeout_ms: 1_000,
            read_timeout_ms: 1_000,
            write_timeout_ms: 1_000,
            auto_reconnect: true,
        }
    }
}

/// Why a gateway operation failed.
#[derive(Debug, Clone)]
pub enum GatewayError {
    Resolve(String),
    Connect(String),
    Io(String),
    NotConnected,
}

/// Mathematical model of a [`GatewayError`].
pub enum GatewayErrorView {
    Resolve(Seq<char>),
    Connect(Seq<char>),
    Io(Seq<char>),
    NotConnected,
}

impl View for GatewayError {
    type V = GatewayErrorView;

    open spec fn view(&self) -> GatewayErrorView {
        match self {
            GatewayError::Resolve(m) => GatewayErrorView::Resolve(m@),
            GatewayError::Connect(m) => GatewayErrorView::Connect(m@),
            GatewayError::Io(m) => GatewayErrorView::Io(m@),
            GatewayError::NotConnected => GatewayErrorView::NotConnected,
        }
    }
}

/// The message of each gateway error.
pub open spec fn gateway_error_message(e: GatewayErrorView) -> Seq<char> {
    match e {
        GatewayErrorView::Resolve(m) => "resolve error: "@ + m,
        GatewayErrorView::Connect(m) => "connect error: "@ + m,
        GatewayErrorView::Io(m) => "io error: "@ + m,
        GatewayErrorView::NotConnected => "not connected"@,
    }
}

impl GatewayError {
    /// Human-readable description of the error.
    pub fn message(&self) -> (s: String)
        ensures
            s@ == gateway_error_message(self@),
    {
        let mut out: Vec<char> = Vec::new();
        match self {
            GatewayError::Resolve(m) => {
                push_str(&mut out, "resolve error: ");
                push_str(&mut out, m.as_str());
            },
            GatewayError::Connect(m) => {
                push_str(&mut out, "connect error: ");
                push_str(&mut out, m.as_str());
            },
            GatewayError::Io(m) => {
                push_str(&mut out, "io error: ");
                push_str(&mut out, m.as_str());
            },
            GatewayError::NotConnected => {
                push_str(&mut out, "not connected");
            },
        }
        string_of(out.as_slice())
    }
}

/// What a client must do before it uses its connection.
#[derive(Debug, Clone, Copy, PartialEq, Eq, Structural)]
pub enum LinkStep {
    /// The connection is up; use it.
    Ready,
    /// Connect, then report the outcome with [`GatewayLink::reconnected`] on success.
    Reconnect,
    /// Fail with [`GatewayError::NotConnected`].
    Refuse,
}

/// The connection state of a gateway client: whether a connection is up and how
/// often it was re-established. The client holds the socket itself.
#[derive(Debug, Clone)]
pub struct GatewayLink {
    /// Whether a connection is up.
    pub connected: bool,
    /// Whether a lost connection is re-established on use.
    pub auto_reconnect: bool,
    /// How often the connection was re-established on use.
    pub reconnect_count: u32,
}

/// What a client does before using its connection.
pub open spec fn spec_link_step(link: GatewayLink) -> LinkStep {
    if link.connected {
        LinkStep::Ready
    } else if !link.auto_reconnect {
        LinkStep::Refuse
    } else {
        LinkStep::Reconnect
    }
}

impl GatewayLink {
    /// Not connected, never reconnected.
    pub fn new(config: &GatewayConfig) -> (l: Self)
        ensures
            !l.connected,
            l.auto_reconnect == config.auto_reconnect,
            l.reconnect_count == 0,
    {
        GatewayLink { connected: false, auto_reconnect: config.auto_reconnect, reconnect_count: 0 }
    }

    /// Whether a connection is up.
    pub fn is_connected(&self) -> (b: bool)
        ensures
            b == self.connected,
    {
        self.connected
    }

    /// How often the connection was re-established on use.
    pub fn reconnect_count(&self) -> (n: u32)
        ensures
            n == self.reconnect_count,
    {
        self.reconnect_count
    }

    /// What to do before using the connection.
    pub fn step(&self) -> (s: LinkStep)
        ensures
            s == spec_link_step(*self),
    {
        if self.connected {
            LinkStep::Ready
        } else if !self.auto_reconnect {
            LinkStep::Refuse
        } else {
            LinkStep::Reconnect
        }
    }

    /// An explicit connect succeeded.
    pub fn connected(&mut self)
        ensures
            final(self).connected,
            final(self).auto_reconnect == old(self).auto_reconnect,
            final(self).reconnect_count == old(self).reconnect_count,
    {
        self.connected = true;
    }

    /// A connect made on use succeeded.
    pub fn reconnected(&mut self)
        requires
            old(self).reconnect_count < u32::MAX,
        ensures
            final(self).connected,
            final(self).auto_reconnect == old(self).auto_reconnect,
            final(self).reconnect_count == old(self).reconnect_count + 1,
    {
        self.connected = true;
        self.reconnect_count = self.reconnect_count + 1;
    }

    /// The connection was dropped.
    pub fn disconnected(&mut self)
        ensures
            !final(self).connected,
            final(self).auto_reconnect == old(self).auto_reconnect,
            final(self).reconnect_count == old(self).reconnect_count,
    {
        self.connected = false;
    }
}

/// The size of the buffer one read fills: `max_len`, but at least one byte.
pub fn receive_buffer_len(max_len: usize) -> (n: usize)
    ensures
        n == if max_len == 0 {
            1
        } else {
            max_len
        },
{
    if max_len == 0 {
        1
    } else {
        max_len
    }
}

} // verus!
