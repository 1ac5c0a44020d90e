pub mod options;
pub mod host_paths;
pub mod text;
pub mod value_types;
pub mod record_shapes;
pub mod record_reflection_shapes;
pub mod hir_shapes;
pub mod syntax_shapes;
pub mod script_types;
pub mod patterns;
pub mod field_slots;
pub mod compiler;
pub mod hir;
pub mod hir_lowering;
pub mod match_lowering;
pub mod assignments;
pub mod param_defaults;
pub mod mir;
pub mod coverage;
pub mod expr_shapes;
pub mod mir_graph;
pub mod dominators;
pub mod lowerable;
pub mod operators;
pub mod loops;
pub mod mir_backend;
pub mod lowering_semantics;
pub mod logical_lowering;
