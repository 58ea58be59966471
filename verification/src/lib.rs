//! The verified core of the Belka tools: a menu-bar SSH tunnel with SOCKS5 and
//! HTTP front ends, and a user manager for pfSense routers.

use vstd::prelude::*;

pub mod about;
pub mod applescript;
pub mod autolaunch;
pub mod base64;
pub mod bytes;
pub mod config;
pub mod config_watcher;
pub mod edit;
pub mod editor;
pub mod exchange;
pub mod firefox;
pub mod forwarding;
pub mod hostkey;
pub mod http;
pub mod menu;
pub mod numbers;
pub mod pfusers;
pub mod policy_tree;
pub mod socks;
pub mod text;
pub mod tree;
pub mod tunnel;
pub mod updater;
pub mod xml;

verus! {

} // verus!
