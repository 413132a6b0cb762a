pub mod connection;
pub mod connection_info;
pub mod connection_manager;
pub mod handshaking;
pub mod header;
pub mod established;
pub mod packets;
pub mod send_buffer;

pub use connection::UtpConnection;
pub use connection_info::UtpConnectionInfo;
pub use established::EstablishedUtpConnection;
pub use handshaking::{
    HandshakingUpdateSuccess, IncomingUtpConnection, IncomingUtpState, OutgoingUtpConnection,
    OutgoingUtpState,
};
pub use header::{Header, Type};
pub use send_buffer::UtpSendBuffer;
