//! The request/response protocol between the unprivileged client and the
//! privileged daemon: the message shapes, the method names, and the
//! correlation rule a client must enforce. Messages travel as one
//! newline-terminated line per connection; the surrounding I/O and the JSON
//! spelling of the payloads live with the caller, which hands this module
//! plain values.

use vstd::prelude::*;

use crate::text::seq_contains_char;
use crate::text::str_eq;

verus! {

/// The tunnel configuration as it crosses the IPC boundary.
#[derive(Clone, Debug)]
pub struct TunnelConfigIpc {
    pub tunnel_id: String,
    pub interface_name: String,
    pub private_key: String,
    pub address: String,
    pub listen_port: Option<u16>,
    pub peers: Vec<PeerConfigIpc>,
    pub wireguard_go_path: String,
    pub socket_dir: Option<String>,
}

#[derive(Clone, Debug)]
pub struct PeerConfigIpc {
    pub public_key: String,
    pub endpoint: Option<String>,
    pub allowed_ips: Vec<String>,
    pub persistent_keepalive: Option<u16>,
    pub preshared_key: Option<String>,
}

/// A tunnel's status as the daemon reports it.
#[derive(Clone, Debug)]
pub struct TunnelStatusIpc {
    pub tunnel_id: String,
    pub status: String,
    pub interface_name: String,
    pub tx_bytes: u64,
    pub rx_bytes: u64,
    pub last_handshake: Option<i64>,
}

/// Per-peer counters, where a caller asks for them.
#[derive(Clone, Debug)]
pub struct PeerStatsIpc {
    pub public_key: String,
    pub tx_bytes: u64,
    pub rx_bytes: u64,
    pub last_handshake: Option<i64>,
}

/// One request: a correlation id, a method name, and the method's
/// parameters as uninterpreted payload text.
#[derive(Clone, Debug)]
pub struct IpcRequest {
    pub id: String,
    pub method: String,
    pub params: String,
}

/// One response: the request's correlation id and either a result payload
/// or an error string.
#[derive(Clone, Debug)]
pub struct IpcResponse {
    pub id: String,
    pub result: Option<String>,
    pub error: Option<String>,
}

/// The five methods of the daemon protocol.
#[derive(Debug, PartialEq, Eq, Structural)]
pub enum IpcMethod {
    StartTunnel,
    StopTunnel,
    GetTunnelStatus,
    ListTunnels,
    Ping,
}

/// Maps a method name to the method, `None` for anything unknown; the
/// daemon answers unknown methods with an error.
pub open spec fn method_of_name(m: Seq<char>) -> Option<IpcMethod> {
    if m == "start_tunnel"@ {
        Option::Some(IpcMethod::StartTunnel)
    } else if m == "stop_tunnel"@ {
        Option::Some(IpcMethod::StopTunnel)
    } else if m == "get_tunnel_status"@ {
        Option::Some(IpcMethod::GetTunnelStatus)
    } else if m == "list_tunnels"@ {
        Option::Some(IpcMethod::ListTunnels)
    } else if m == "ping"@ {
        Option::Some(IpcMethod::Ping)
    } else {
        Option::None
    }
}

pub fn parse_method(m: &str) -> (r: Option<IpcMethod>)
    ensures
        r == method_of_name(m@),
{
    if str_eq(m, "start_tunnel") {
        Some(IpcMethod::StartTunnel)
    } else if str_eq(m, "stop_tunnel") {
        Some(IpcMethod::StopTunnel)
    } else if str_eq(m, "get_tunnel_status") {
        Some(IpcMethod::GetTunnelStatus)
    } else if str_eq(m, "list_tunnels") {
        Some(IpcMethod::ListTunnels)
    } else if str_eq(m, "ping") {
        Some(IpcMethod::Ping)
    } else {
        None
    }
}

/// Why a client discards a response.
#[derive(Debug, PartialEq)]
pub enum IpcFault {
    /// The response's id does not match the outstanding request; the
    /// client must reject such a response.
    IdMismatch,
    /// The daemon answered the request with an error string.
    Remote(String),
}

/// A client's acceptance check for a response: the correlation id must
/// match the outstanding request, and a reported error is surfaced. Only
/// then does the payload count.
pub fn accept_reply(request_id: &str, resp: IpcResponse) -> (r: Result<Option<String>, IpcFault>)
    ensures
        r is Ok <==> (resp.id@ == request_id@ && resp.error is None),
        r is Ok ==> (r.unwrap() is Some <==> resp.result is Some),
        r is Ok && resp.result is Some ==> r.unwrap().unwrap()@ == resp.result.unwrap()@,
        resp.id@ != request_id@ ==> r == Err::<Option<String>, IpcFault>(IpcFault::IdMismatch),
        resp.id@ == request_id@ && resp.error is Some ==> (r->Err_0 matches IpcFault::Remote(m)
            && m@ == resp.error.unwrap()@),
{
    if !str_eq(resp.id.as_str(), request_id) {
        return Err(IpcFault::IdMismatch);
    }
    match resp.error {
        Some(e) => Err(IpcFault::Remote(e)),
        None => Ok(resp.result),
    }
}

/// Frames one message for the wire: the single-line text plus the newline
/// that ends the message. One message travels per connection.
pub fn frame_line(msg: &str) -> (r: String)
    requires
        !seq_contains_char(msg@, '\n'),
    ensures
        r@ == msg@ + "\n"@,
{
    let mut out = msg.to_owned();
    out.append("\n");
    out
}

} // verus!
