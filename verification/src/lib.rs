//! A small verified web-application core: an HTML form collects one or more
//! unsigned integers under the field name `n`, and the server answers with
//! their greatest common divisor.
//!
//! The crate holds the pure logic only: the GCD reducer, a parser for
//! URL-encoded form bodies, and the two request handlers, each with a full
//! functional contract.  Listening on a socket and writing responses to the
//! wire is left to the surrounding program, which hands a handler the request
//! body as plain bytes and receives a response descriptor back.

pub mod form;
pub mod gcd;
pub mod handlers;
pub mod text;
