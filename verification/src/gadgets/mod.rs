pub mod bytes;
pub mod crh;
pub mod emulation;
pub mod felt;
pub mod group;
pub mod pairing;
