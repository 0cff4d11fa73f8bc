//! Time control curves: how they are drawn, stored in the control points of a
//! track and read back, and how an editor follows the tracks of an object.
use vstd::prelude::*;

pub mod arithmetic;
pub mod bounce;
pub mod bounce_joints;
pub mod bounce_laws;
pub mod bounce_precision;
pub mod bounce_sampler;
pub mod bounce_vertex;
pub mod bounds;
pub mod bounds_laws;
pub mod bounds_precision;
pub mod connection;
pub mod conversion;
pub mod curve;
pub mod curve_io;
pub mod double;
pub mod elastic;
pub mod elastic_laws;
pub mod elastic_precision;
pub mod elastic_sampler;
pub mod error;
pub mod hash_laws;
pub mod numbers;
pub mod object_laws;
pub mod object_reader;
pub mod plugin;
pub mod precision;
pub mod quantization;
pub mod reading_laws;
pub mod regular_curves;
pub mod round_trip;
pub mod rounding;
pub mod sampler;
pub mod selection;
pub mod selection_laws;
pub mod span_order;
pub mod spans;
pub mod spans_precision;
pub mod stored_layout;
pub mod tolerance;
pub mod tracks;
pub mod turning;
pub mod watcher;
pub mod whole_laws;

verus! {

} // verus!
