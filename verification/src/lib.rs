//! Intersection of two sorted posting-list blocks of 16-bit document numbers.
//!
//! A posting-list block holds the low 16 bits of the document ids of one block
//! of 65536 documents, in strictly increasing order.  Intersecting the blocks of
//! two terms yields the documents that contain both terms; each match carries
//! its full document id and its position in each of the two blocks.
//!
//! Three strategies compute the same intersection:
//! - [`vector16::intersection_vector16`] compares 8-lane blocks against each
//!   other with an "equal any" lane mask;
//! - [`broadcast16::intersection_broadcast16`] compares one value against an
//!   8-lane block of the other list;
//! - [`merge::intersection_merge`] is the plain two-finger merge, which also
//!   finishes the tails left over by the block strategies.
pub mod spec;
pub mod lanes;
pub mod merge;
pub mod vector16;
pub mod broadcast16;
pub mod laws;
