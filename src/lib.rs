pub mod cube_conundrum;
pub mod cube_set;
pub mod game;
pub mod text;
pub mod trebuchet;
