//! A small web client core: a response parser for a line-oriented text
//! protocol, the decisions of a redirect-following fetcher, and a walker that
//! turns a markup tree into an ordered list of styled text fragments.
pub mod dom;
pub mod fetch;
pub mod layout;
pub mod response;
pub mod text;
