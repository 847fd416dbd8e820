//! The logic of a PostgreSQL extension that brings ROS 2 into SQL: snapshots of
//! the graph and of parameters in tables, topics as notifications, publication
//! from a query, and durable action goals.
//!
//! Every decision is made here, over plain values, and every function states
//! what it decides. What talks to PostgreSQL and to ROS stands around this
//! library: it performs the actions that the library names, runs the statements
//! that it makes, and hands back what came of them.
use vstd::prelude::*;

pub mod actions;
pub mod graph;
pub mod json;
pub mod message;
pub mod naming;
pub mod observer;
pub mod order;
pub mod parameters;
pub mod publish;
pub mod sql;
pub mod subscriptions;
pub mod table;
pub mod text;
pub mod time;

verus! {

/// Says hello.
pub fn hello_pg_ros2() -> (text: &'static str)
    ensures
        text@ == "Hello, pg_ros2"@,
{
    "Hello, pg_ros2"
}

} // verus!
