//! A publish/subscribe message broker: wire codec, topic index, entitlement
//! policy and the routing hub.
pub mod topic;
pub mod topic_tree;
pub mod wire;
pub mod message;
pub mod codec;
pub mod frame;
pub mod match_tree;
pub mod authorization;
pub mod clients;
pub mod publishing;
pub mod hub;
pub mod parse;
pub mod options;
pub mod authentication;
pub mod protocol;
pub mod interactor;
