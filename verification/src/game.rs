pub mod hokm;
pub mod player;
pub mod trick;
