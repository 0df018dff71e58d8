//! Succinct data structures: bit vectors with constant-time rank and select,
//! Elias–Fano monotone sequences and rear-coded string dictionaries.

pub mod bits;
pub mod bitmap;
pub mod compact_array;
pub mod elias_fano;
pub mod vbyte;
pub mod hinted;
pub mod rank9;
pub mod rear_coded_list;
pub mod simple_select_const;
pub mod sparse_zero_index;
