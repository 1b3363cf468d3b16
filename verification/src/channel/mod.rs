pub mod channel;

pub use channel::Channel;
