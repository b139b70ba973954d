//! Detection and rectification of documents and ID cards in RGBA frames, with
//! classical computer vision: grayscale, blur, edge map, dominant outline,
//! convex hull, four corners, and a geometric classification.
//!
//! Floating-point numbers are held by their bit patterns ([`number::Single`],
//! [`number::Double`]). Their order is decided on the bits; what rounds is left
//! to an implementation of [`number::Arithmetic`]. Contracts give the exact
//! result in terms of its operations, for every implementation whose operations
//! are functions of their operands ([`number::faithful`]), and state without
//! that condition what holds whatever the operations return.
//!
//! What the results mean is stated apart from how they are computed. [`value`]
//! says which real number a bit pattern stands for and when an arithmetic rounds
//! closely; on that rest [`shading`], [`share`], [`shape`], [`angle`],
//! [`judgement`] and [`sampling`]. [`whole`] and [`exact`] speak of what is
//! computed without rounding, [`range`] of what stays finite.

pub mod angle;
pub mod component;
pub mod detect;
pub mod edge;
pub mod exact;
pub mod filter;
pub mod frame;
pub mod grid;
pub mod hull;
pub mod hysteresis;
pub mod judgement;
pub mod linear;
pub mod morphology;
pub mod number;
pub mod polygon;
pub mod quad;
pub mod range;
pub mod rectify;
pub mod sampling;
pub mod shading;
pub mod shape;
pub mod share;
pub mod value;
pub mod whole;

pub use detect::{detect, detect_frame, Detection, Params, RESULT_LEN};
pub use number::{Arithmetic, Double, Single};
pub use polygon::Point;
pub use rectify::{warp_card, warp_perspective};
