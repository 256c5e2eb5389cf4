pub mod codec;
pub mod dictionary;
pub mod docset;
pub mod proximity;
pub mod index;
pub mod candidates;
pub mod criterion;
pub mod ranking;
pub mod search;
pub mod store;
