//! Verified core of the Gossipping feed notification network.
//!
//! Notifications: [`notification`] with [`signing`], [`podping`] and [`announce`].
//! Peers: [`identity`], [`peers`], [`sender`] and [`events`].
//! The swarm: [`topology`], [`graph`], [`traversal`], [`components`], [`ranking`],
//! [`suggestions`], [`suggestion_laws`], [`analysis_laws`] and [`swarm_laws`].
//! Below them: [`text`], [`hexadecimal`], [`json`], [`json_reader`] and [`clock`].

pub mod analysis_laws;
pub mod announce;
pub mod clock;
pub mod components;
pub mod events;
pub mod graph;
pub mod hexadecimal;
pub mod identity;
pub mod json;
pub mod json_reader;
pub mod notification;
pub mod peers;
pub mod podping;
pub mod ranking;
pub mod sender;
pub mod signing;
pub mod suggestion_laws;
pub mod suggestions;
pub mod swarm_laws;
pub mod text;
pub mod topology;
pub mod traversal;
