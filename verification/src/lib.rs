mod buffer;
mod errors;
pub mod laws;
mod mailbox;
mod selective_receiver;
mod traits;

pub use buffer::SelectiveBuffer;
pub use errors::{RecvError, SendError};
pub use mailbox::Mailbox;
pub use selective_receiver::SelectiveReceiver;
pub use traits::{Receiver, Sender};
