use vstd::prelude::*;

pub mod word;
pub mod bit_array;
pub mod static_bit_set;
pub mod inline_bit_set;
pub mod handle;
pub mod handle_map;
pub mod dense_handle_map;
pub mod side_handle_map;
pub mod packed_option;
pub mod handle_range;
pub mod static_array_list;
pub mod laws;

pub use dense_handle_map::DenseHandleMap;
pub use handle::{Handle, Handle32};
pub use handle_map::{HandleMap, IntoIter, Iter, IterMut};
pub use handle_range::HandleRange;
pub use inline_bit_set::{InlineBitSet, InlineBitSetIterator};
pub use packed_option::{PackedOption, ReservedValue};
pub use side_handle_map::SideHandleMap;
pub use static_array_list::StaticArrayList;
pub use static_bit_set::{StaticBitSet, StaticBitSetIterator};
pub use word::Word;

verus! {

} // verus!
