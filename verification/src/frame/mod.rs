//! One contiguous stack of eight-byte untagged words, one logical numbering,
//! one frame base.

pub mod admission;
pub mod admitted;
pub mod answers;
pub mod arithmetic;
pub mod balance;
pub mod bitmap;
pub mod effects;
pub mod flow;
pub mod hosted;
pub mod kinds;
pub mod laws;
pub mod layout;
pub mod machine;
pub mod needs;
pub mod onward;
pub mod operands;
pub mod packing;
pub mod progress;
pub mod rules;
pub mod truth;
pub mod typed;
pub mod typing;
pub mod validity;
pub mod vm;
pub mod word;

