pub mod cbc;
pub mod ctr;
pub mod ecb;
pub mod ofb;
