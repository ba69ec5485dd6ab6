pub mod antennas;
pub mod calibration;
pub mod computer;
pub mod days;
pub mod dijkstra;
pub mod dir;
pub mod guard;
pub mod lan;
pub mod lists;
pub mod locks;
pub mod maze;
pub mod memory;
pub mod muls;
pub mod printing;
pub mod race;
pub mod reports;
pub mod robots;
pub mod secrets;
pub mod stones;
pub mod towels;
pub mod trails;
pub mod words;
