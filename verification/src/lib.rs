//! Turn-based game framework: verified rules of Tic-Tac-Toe, the player
//! registry and the text of the command-line decision prompt.

pub mod laws;
pub mod players;
pub mod selection;
pub mod text;
pub mod xo;
