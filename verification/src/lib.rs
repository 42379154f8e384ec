//! The verified core of a clustered in-memory cache node.
#![allow(unused_imports)]

pub mod cluster;
pub mod command;
pub mod connection;
pub mod exchange;
pub mod fault;
pub mod forward;
pub mod handoff;
pub mod http;
pub mod identity;
pub mod key;
pub mod leave;
pub mod lifecycle;
pub mod limits;
pub mod membership;
pub mod message;
pub mod metrics;
pub mod migration;
pub mod node;
pub mod pem;
pub mod registration;
pub mod rereplicate;
pub mod response;
pub mod ring;
pub mod roster;
pub mod scan;
pub mod text;
pub mod tls;
pub mod trust;

use vstd::prelude::*;
