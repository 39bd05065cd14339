//! Logic of a networked grid game: the server's board and winner rule, the
//! byte messages that server and clients exchange, and the client's
//! character-buffer rendering of the board.

pub mod client;
pub mod lines;
pub mod terminal;
pub mod webserver;
