pub mod angle;
pub mod bits;
pub mod common;
pub mod fast;
pub mod gray;
pub mod orb;
