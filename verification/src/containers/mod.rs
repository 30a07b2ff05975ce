use crate::subcontainers::array_based_deque::ArrayBasedDeque;
use crate::subcontainers::list_based_deque::ListBasedDeque;
use vstd::prelude::*;

pub mod queue;
pub mod stack;
pub mod traits;

verus! {

/// A queue in a linked list.
pub type ListBasedQueue<T> = queue::Queue<T, ListBasedDeque<T>>;

/// A stack in a linked list.
pub type ListBasedStack<T> = stack::Stack<T, ListBasedDeque<T>>;

/// A queue in a ring buffer.
pub type ArrayBasedQueue<T> = queue::Queue<T, ArrayBasedDeque<T>>;

/// A stack in a ring buffer.
pub type ArrayBasedStack<T> = stack::Stack<T, ArrayBasedDeque<T>>;

} // verus!
