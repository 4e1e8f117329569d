//! Cryonet: the decision core of an encrypted mesh overlay network.

pub mod addr;
pub mod config;
pub mod connection;
pub mod crypto;
pub mod ctl;
pub mod errors;
pub mod fullmesh;
pub mod igp;
pub mod mesh;
pub mod net;
pub mod packet;
pub mod rtc_shake;
pub mod seq;
pub mod tables;
pub mod text;
pub mod uapi;
