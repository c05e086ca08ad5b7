//! Exact-cover solving with dancing links over an index arena, plus the
//! small list containers that accompany it.

pub mod dancing_links;
pub mod decimal;
pub mod doubly_linked_list;
pub mod linked_list;
pub mod sudoku;
