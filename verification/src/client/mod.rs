pub mod block_cache;
pub mod block_manager;
pub mod connection;
pub mod connection_manager;
pub mod controller;
pub mod dispatch;
pub mod disk_manager;
pub mod established_connection;
pub mod handshaking_connection;
pub mod peers_data;
pub mod piece_assigner;
pub mod piece_info;
pub mod table;
pub mod utp;
