pub mod buf;
pub mod client;
pub mod cmd;
pub mod codec;
pub mod lexical;
pub mod lsm;
pub mod pubsub;
pub mod resp;
pub mod store;
pub mod text;
