//! A multi-room line-oriented chat: name and room registries, the
//! per-connection command dispatcher, and the client's input model.

pub mod text;
pub mod names;
pub mod rooms;
pub mod session;
pub mod ui;

pub use names::{get_name, GetName, Names};
pub use rooms::{order_rooms, Room, Rooms, ROOM_CAPACITY};
pub use session::{format_room_list, on_bus_event, parse_command, Action, BusEvent, Command, CommandError, Session};
pub use ui::{App, ClientStep, Input, Key, KeyPress};
