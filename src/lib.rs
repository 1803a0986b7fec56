//! Two in-memory containers: a doubly-linked sequence and a chaining hash map.
pub mod doubly_linked_list;
pub mod hash_key;
pub mod linked_hash_map;

pub use doubly_linked_list::DoublyLinkedList;
pub use hash_key::HashKey;
pub use linked_hash_map::LinkedHashMap;
