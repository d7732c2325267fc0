pub mod bcd;
pub mod bignum;
pub mod cache;
pub mod catalog;
pub mod duality;
pub mod exact;
pub mod fusion;
pub mod group;
pub mod order;
pub mod primefactor;
pub mod seeds;
pub mod spinor;
pub mod su2;
pub mod symmetry3j;
pub mod weyl;
