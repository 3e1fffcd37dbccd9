//! Byte-matching primitives for a streaming parser's lexical layer:
//! an exact tag matcher, a longest-prefix byte scanner, and a
//! multi-candidate classifier built on a carry-propagation bit trick.

pub mod bits;
pub mod candidates;
pub mod classify;
pub mod masks;
pub mod outcome;
pub mod render;
pub mod scan;
pub mod tag;

pub use candidates::CandidateSet;
pub use classify::classify;
pub use classify::classify_reference;
pub use masks::Masks;
pub use masks::MasksVec;
pub use masks::prepare;
pub use outcome::MatchError;
pub use outcome::MatchOutcome;
pub use render::push_byte;
pub use render::push_byte_be;
pub use scan::take_while0_ranges;
pub use scan::take_while0_unrolled;
pub use scan::take_while1_ranges;
pub use scan::take_while1_unrolled;
pub use tag::tag_chunked;
pub use tag::tag_unrolled;
