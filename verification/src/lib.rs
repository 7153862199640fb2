//! Core of the swarm platform: planning, queueing, placement, execution and merging of work
//! that a swarm of agents does, with the rules each of them keeps.
pub mod agent;
pub mod aggregate;
pub mod api;
pub mod cli;
pub mod clock;
pub mod config;
pub mod coordinator;
pub mod decompose;
pub mod dispatch;
pub mod engine;
pub mod error;
pub mod figures;
pub mod gateway;
pub mod graph;
pub mod handle;
pub mod hash;
pub mod ids;
pub mod job;
pub mod journal;
pub mod json;
pub mod memory;
pub mod metrics;
pub mod mock;
pub mod model;
pub mod ns;
pub mod order;
pub mod outcome;
pub mod queue;
pub mod recovery;
pub mod register;
pub mod runtime;
pub mod schedule;
pub mod staff;
pub mod state;
pub mod table;
pub mod task;
pub mod text;
pub mod tick;
pub mod topology;
