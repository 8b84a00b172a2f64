//! Exhaustive solver core for the numbers game: generates every distinct
//! postfix arithmetic program over a set of operand slots, evaluates
//! programs against concrete numbers with a typed arithmetic error
//! taxonomy, renders programs as RPN or infix text, and collapses
//! commutative and associative restatements of the same program to a
//! single canonical representative.

pub mod cards;
pub mod duplicates;
pub mod generate;
pub mod eval;
pub mod infix;
pub mod progop;
pub mod programs;
pub mod render;
pub mod stats;
pub mod sweep;

pub use cards::get_default_cards;
pub use cards::get_special_cards;
pub use duplicates::duplicated;
pub use duplicates::CanonicalSeenSet;
pub use duplicates::DupReason;
pub use generate::calc_num_programs;
pub use generate::op_combs;
pub use generate::op_counts;
pub use generate::try_calc_num_programs;
pub use infix::infix_group;
pub use infix::infix_group_stack;
pub use infix::InfixGrpTypeElem;
pub use progop::ProgErr;
pub use progop::ProgOp;
pub use progop::ProgOpView;
pub use programs::ProgInstr;
pub use programs::Programs;
pub use programs::Results;
pub use programs::sort_solutions;
pub use programs::Solution;
pub use stats::Stats;
pub use sweep::card_combinations;
pub use sweep::coverage;
pub use sweep::file_names;
pub use sweep::solution_counts;
pub use sweep::solution_map;
