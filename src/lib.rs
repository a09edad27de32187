//! Small verified containers: a perfect binary tree builder, a singly
//! linked stack and an arena-backed doubly linked list.
pub mod binary_tree;
pub mod deque_model;
pub mod doubly_linked;
pub mod singly_linked;
