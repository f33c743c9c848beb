//! Avatar animation files: the keyframe model, its editing operations,
//! duplicate-keyframe reconciliation, the import of pose documents and the
//! binary record layout.
//!
//! Real numbers are never computed with here. Scalars of the header and of
//! constraints are held as IEEE-754 single-precision bit patterns
//! ([`Scalar`]), and the value carried by a keyframe is a type parameter that
//! the library moves around but never inspects: three 16-bit codes
//! ([`Quantized`]) in an animation as the file holds it, a quaternion or a
//! vector in one that is being edited. Where a real value has to be made,
//! from codes, from the angles of a pose document or from the values that
//! share a timestamp, the caller hands in the functions that make it, and
//! the contracts say to which arguments they are applied, and in what order.
//!
//! - [`keys`]: keyframes.
//! - [`model`]: header, joint, constraint, animation, and what each holds.
//! - [`edit`]: priorities, dropping channels and joints, lookup, insertion,
//!   conversion of key values.
//! - [`reconcile`]: one key per timestamp, by three strategies, and the laws
//!   of reconciliation.
//! - [`document`]: pose documents and their import.
//! - [`io`]: integers and text fields as bytes.
//! - [`binary`]: the records of the file as bytes.
//! - [`roundtrip`]: decoding undoes encoding.
//! - [`error`]: what can go wrong.

pub mod binary;
pub mod document;
pub mod edit;
pub mod error;
pub mod io;
pub mod keys;
pub mod model;
pub mod reconcile;
pub mod roundtrip;

pub use binary::StoredAnimation;
pub use document::Document;
pub use error::AnimError as Error;
pub use error::{AnimError, BinaryFault};
pub use keys::{Keyframe, PositionKey, RotationKey, END_OF_ANIMATION};
pub use model::{
    Animation, AnimationHeader, AnimationView, Constraint, ConstraintView, HeaderView, JointData,
    JointView, Offset, Quantized, Scalar,
};
pub use reconcile::{Blend, DuplicateKeyStrategy};
