//! Decision logic of an ExternalDNS webhook provider for Timeweb Cloud.
pub mod address;
pub mod answer;
pub mod apply;
pub mod client;
pub mod config;
pub mod domain_filter;
pub mod effect;
pub mod error;
pub mod grouping;
pub mod listing;
pub mod metrics;
pub mod model;
pub mod names;
pub mod numbers;
pub mod order;
pub mod outside;
pub mod plan;
pub mod plan_laws;
pub mod provider;
pub mod record_laws;
pub mod roundtrip;
pub mod targets;
pub mod text;
pub mod timeweb;
pub mod webhook;
