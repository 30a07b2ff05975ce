pub mod array_based_deque;
pub mod list_based_deque;
pub mod resizable_array;
pub mod traits;
