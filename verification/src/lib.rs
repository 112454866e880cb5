//! Core of a realtime chat client: the wire codec for tagged envelopes,
//! a model of the outbound transport channel, an in-process event
//! multiplexer, and the chat session state machine that ties them together.
//!
//! Text (frames, usernames, message bodies) is carried as UTF-8 bytes
//! (`Vec<u8>`); the codec is a function on bytes with an exact contract.

pub mod bus;
pub mod codec;
pub mod session;
pub mod transport;

pub use codec::DecodeError;
pub use codec::MessageData;
pub use codec::MsgTypes;
pub use codec::WebSocketMessage;
pub use session::Chat;
pub use session::Msg;
pub use session::UserProfile;
