//! Search for the cheapest arithmetic expression that produces each target
//! integer, where every sub-expression is built from binary literals that
//! spend at most four zero bits and at most four one bits, combined through
//! arithmetic operators. A fixed-point closure fills a table of
//! (value, cost) entries, dominance pruning discards entries that are no
//! cheaper than ones already known, and the proof trees recorded in the
//! table are rendered back into expression strings.

pub mod arith;
pub mod engine;
pub mod model;
pub mod render;
pub mod table;

pub use arith::is_perfect_square;
pub use engine::build_table;
pub use engine::closure_step;
pub use engine::found_keys;
pub use model::CostKey;
pub use model::ProofValue;
pub use render::big_num;
pub use render::can_render;
pub use render::value_to_string;
pub use render::value_to_top;
pub use table::Table;
