pub mod bitset;
