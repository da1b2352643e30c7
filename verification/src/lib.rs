//! Path extraction over columns of self-describing nested values.
//!
//! A variant value is a nested datum (null, boolean, integer, list or
//! object) held as a compact byte encoding next to a dictionary of field
//! names.  This crate stores a column of such values and extracts, for a
//! path of field / index accessors, either the sub-value at that path as a
//! fresh variant column or a primitive column of a requested type, with
//! per-row null semantics when the path does not resolve.

mod path;
mod value;
mod variant_get;
mod arrow_u64;
mod encoding;
mod laws;

pub use arrow_u64::U64Array;
pub use arrow_u64::U64Builder;
pub use arrow_u64::u64_array_rows;
pub use arrow_u64::u64_builder_rows;
pub use path::PathStep;
pub use value::Val;
pub use value::VariantValue;
pub use path::VariantPath;
pub use path::VariantPathElement;
pub use laws::lemma_determinism;
pub use laws::lemma_empty_path_identity;
pub use laws::lemma_field_miss;
pub use laws::lemma_index_miss;
pub use laws::lemma_null_count_monotonic;
pub use laws::lemma_path_miss_nulls_not_errors;
pub use laws::null_count;
pub use variant_get::cast_u64;
pub use variant_get::iter_walk;
pub use variant_get::lemma_strategy_equivalence;
pub use variant_get::obj_get;
pub use variant_get::opt_walk;
pub use variant_get::out_matches;
pub use variant_get::path_steps;
pub use variant_get::prim_row;
pub use variant_get::step;
pub use variant_get::walk;
pub use variant_get::spec_get;
pub use variant_get::variant_get;
pub use variant_get::variant_get_rowise;
pub use variant_get::CastOptions;
pub use variant_get::CastRes;
pub use variant_get::GetError;
pub use variant_get::GetOptions;
pub use variant_get::GetOutput;
pub use variant_get::OutModel;
pub use variant_get::TargetType;
pub use variant_get::VariantArray;
pub use variant_get::VariantArrayBuilder;
