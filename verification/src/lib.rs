//! Settlement logic of a batch-auction driver: normalising the token
//! allowances that a solution needs, deciding which approvals must be sent,
//! picking the user trades of a solution, and the bookkeeping of the
//! request/response protocol that the driver speaks with its solvers over a
//! message broker.

pub mod lex;
pub mod amount;
pub mod eth;
pub mod solution;
pub mod access_list;
pub mod decimal;
pub mod rabbit;
