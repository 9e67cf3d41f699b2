//! The logic of a terminal front end for text games: a pixel canvas driven by a small text
//! command protocol that the game program prints, the classification of the program's output
//! lines, the editable command line, and the session state that ties them together.

pub mod base64;
pub mod canvas;
pub mod drawer;
pub mod game;
pub mod protocol;
pub mod shell;
pub mod text;
