//! Verified logic of four small systems programs.
//!
//! - `deet`, a debugger: [`debugger`] turns events into requests, [`protocol`]
//!   says what these are, [`inferior`] changes single bytes of a process's
//!   memory, [`breakpoints`] states what breakpoints do to that memory, and
//!   [`session`] states what the commands do.
//! - `balancebeam`, a load balancer: [`proxy`] holds its state and the course
//!   of a connection, [`upstreams`] keeps the lists of servers, [`health`]
//!   checks a server, and [`limiter`] counts the requests of clients.
//! - `farm`, which factors numbers: [`factors`].
//! - `parallel_map`, which maps a function over a list on several threads:
//!   [`units`].
//!
//! [`text`] and [`numerals`] are about lines, words and numbers.

pub mod breakpoints;
pub mod debugger;
pub mod factors;
pub mod health;
pub mod inferior;
pub mod limiter;
pub mod numerals;
pub mod protocol;
pub mod proxy;
pub mod session;
pub mod text;
pub mod units;
pub mod upstreams;
