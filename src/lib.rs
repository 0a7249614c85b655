pub mod suuhai;
pub mod jihai;
pub mod shanten;
pub mod notation;
pub mod laws;
pub mod dict;
pub mod text;
