pub mod identifier;
pub mod player;
pub mod set;
pub mod table;
pub mod tile;
pub mod turn;
