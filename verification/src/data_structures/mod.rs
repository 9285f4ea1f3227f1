pub mod bytes;
pub mod listpack;
pub mod radix;
pub mod stream;
