//! A line-oriented chat relay: a single room manager that owns membership,
//! admits users by name and fans messages out to every other member, and a
//! per-connection session protocol that bridges a transport to it.

pub mod lines;
pub mod names;
pub mod room;
pub mod session;

pub use lines::{chat_line, contents_line, entered_line, left_line, welcome_line};
pub use names::{name_less, names_equal, validate_username};
pub use room::{ClientCommand, Delivery, Handled, JoinOutcome, Room, RoomCommand};
pub use session::{is_closed, reads_input, session_step, SessionAction, SessionEvent, SessionState};
