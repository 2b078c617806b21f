//! A PostgreSQL connection pooler that keeps every instance within its total
//! budget: the decisions of a node, without its sockets and its clock.
//!
//! [`budget`] derives how many connections an instance may carry, [`policy`]
//! says what each tenant may have of them, and [`coordinator`] grants them to
//! the proxies, one desired state after the other. What holds over time,
//! whatever the allocator answers and however late a proxy reports, stands in
//! [`safety`]. A proxy keeps to its grants through [`pool`] and
//! [`convergence`], takes clients in through [`session`], serves them through
//! [`relay`], and opens connections to servers through [`server`].

pub mod admission;
pub mod allocation;
pub mod auth;
pub mod backend;
pub mod budget;
pub mod cancel;
pub mod config;
pub mod console;
pub mod convergence;
pub mod coordinator;
pub mod crypto;
pub mod exchange;
pub mod frontend;
pub mod grant;
pub mod history;
pub mod inspect;
pub mod metrics;
pub mod order;
pub mod ordmap;
pub mod policy;
pub mod pool;
pub mod relay;
pub mod response;
pub mod rounds;
pub mod safety;
pub mod scram;
pub mod serve;
pub mod server;
pub mod session;
pub mod sorting;
pub mod spread;
pub mod startup;
pub mod sums;
pub mod tenant;
pub mod text;
pub mod time;
pub mod tls;
