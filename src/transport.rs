//! How the broker is reached: the kind of listener and the names it uses.
use vstd::prelude::*;
use vstd::string::StringExecFns;

verus! {

/// The kind of listener the broker accepts connections on.
#[derive(Clone, Copy, Debug, PartialEq, Eq, Structural)]
pub enum ConnectionType {
    UnixSocket,
    InetSocket,
}

/// A TCP listener when a port is given, else a UNIX-domain socket.
pub fn connection_type_for(port_given: bool) -> (r: ConnectionType)
    ensures
        r == if port_given { ConnectionType::InetSocket } else { ConnectionType::UnixSocket },
{
    if port_given {
        ConnectionType::InetSocket
    } else {
        ConnectionType::UnixSocket
    }
}

/// The lock file that guards the socket at `socket_path`: `<socket>.lock`.
pub fn lock_file_path(socket_path: &str) -> (r: String)
    ensures
        r@ == socket_path@ + ".lock"@,
{
    String::from_str(socket_path).concat(".lock")
}

/// The address a TCP listener binds: `host:port`.
pub fn listen_address(host: &str, port: &str) -> (r: String)
    ensures
        r@ == host@ + ":"@ + port@,
{
    String::from_str(host).concat(":").concat(port)
}

} // verus!
