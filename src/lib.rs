pub mod algebra;
pub mod bit;
pub mod codeword;
pub mod layout;
pub mod util;

pub use bit::Bit;
pub use codeword::BinaryNumber;
pub use util::{bin2dec, dec2bin, length};
