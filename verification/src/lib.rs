//! Verified core of the Solve-IR lowering phase: source spans, lowering
//! errors, shape and index arithmetic, subscript keys, slice ranges,
//! intrinsic-name classification, scope bookkeeping and discrete alias
//! orientation.

pub mod span;
pub mod text;
pub mod error;
pub mod capacity;
pub mod dims;
pub mod shape;
pub mod projection_index;
pub mod paths;
pub mod intrinsics;
pub mod ranges;
pub mod collections;
pub mod scope;
pub mod indexed;
pub mod keys;
pub mod alias;
pub mod builder;
pub mod subscripts;
pub mod root_relations;
pub mod discrete_relations;
pub mod strings;
pub mod result_dims;
pub mod rows;
pub mod output_projection;
pub mod ir;
pub mod var_refs;
pub mod external_tables;
pub mod runtime_conditions;
pub mod initial_residual;
pub mod input_binding;
pub mod call_dispatch;
pub mod scalar_projection;
