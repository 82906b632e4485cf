//! Verified solvers for a set of grid, list and number puzzles.
//!
//! The centre of the crate is [`patrol`]: a guard walks a square grid, turning
//! right at obstacles, and the library counts the cells it visits and the
//! single extra obstacles that would trap it in a loop.
//!
//! The other solvers stand each on their own: [`lists`], [`reports`],
//! [`memory`], [`word_search`], [`print_queue`], [`calibration`],
//! [`antennas`], [`disk`], [`trails`], [`stones`] and [`garden`]. Each offers
//! `part_one` and `part_two` on the puzzle's text, and the functions they are
//! made of.
//!
//! What they share: [`text`] reads characters and numbers, [`answer`] fits
//! sums into fixed widths, [`square`] and [`field`] hold square tables, and
//! [`matrix`] states what is taken on trust of the table that `ndarray`
//! stores.

pub mod answer;
pub mod antennas;
pub mod calibration;
pub mod disk;
pub mod field;
pub mod garden;
pub mod lists;
pub mod matrix;
pub mod memory;
pub mod patrol;
pub mod print_queue;
pub mod reports;
pub mod square;
pub mod stones;
pub mod text;
pub mod trails;
pub mod word_search;
