use vstd::prelude::*;

pub mod call_frame;
pub mod chunk;
pub mod compiler;
pub mod constants;
pub mod debug;
pub mod gc;
pub mod keyword_trie;
pub mod objects;
pub mod scanner;
pub mod table;
pub mod util;
pub mod value;
pub mod value_order;
pub mod vm;

verus! {

} // verus!
