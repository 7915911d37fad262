pub mod alphabet;
pub mod bidirectional_fm_index;
pub mod bitvector;
pub mod errors;
pub mod fm_index;
pub mod io;
pub mod matrix;
pub mod range;
pub mod suffix_array;
pub mod tree;
