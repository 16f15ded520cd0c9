//! Per-variant marker tags for tagged-union components.
//!
//! A tagged-union component carries one of a closed set of variants. For each
//! variant this library keeps a zero-sized marker on the entity exactly while
//! the component holds that variant, so that queries can select entities by
//! variant through plain tag presence.
//!
//! - [`schema`] derives, from a type definition, the namespace and the marker
//!   of each variant, and the text of the derived code.
//! - [`naming`] names the namespace and resolves `Union::Variant` paths to
//!   marker paths.
//! - [`world`] models entities, markers and the deferred command queue, with
//!   the lifecycle hooks of the hook strategy.
//! - [`systems`] holds the watchers of the polling strategy.
//! - [`laws`] states and proves what holds of markers at every settle point.
use vstd::prelude::*;

pub mod naming;
pub mod schema;
pub mod world;
pub mod systems;
pub mod laws;

pub use naming::{CrateRef, Enum, PathError, crate_path, filters_namespace, get_mod_ident, marker_path_with};
pub use schema::{FieldShape, GenerationError, Schema, TypeBody, TypeDef, VariantDef, derive_enum_component,
    derive_schema_in};
pub use systems::EnumFilterSystems;
pub use world::{Command, ComponentCell, MarkerAction, MarkerCell, Strategy, World, set_marker_action};

verus! {

/// A tagged union whose values can be attached to entities as a component,
/// with a marker per variant kept beside it. Only the discriminant matters:
/// the fields of a variant, whatever their shape, are never read.
pub trait EnumComponent {
    /// The index of the value's variant, in declaration order, as contracts
    /// speak of it. An impl outside verified code defines it as
    /// `variant_index`.
    spec fn variant_spec(&self) -> usize;

    /// The index of the value's variant, in declaration order.
    fn variant_index(&self) -> (r: usize)
        ensures
            r == self.variant_spec(),
    ;
}

} // verus!
