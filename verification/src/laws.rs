//! What holds of the library as a whole.
//!
//! What the parts of the library do, in terms of bytes, chunks, nodes and queries:
//!
//! - [`shape`]: which nodes an outboard tracks, and their order.
//! - [`queries`]: which chunks and nodes a query leads to.
//! - [`written`]: what stands where in a response.
//! - [`taken`]: what decoding takes from a response, and what makes it fail.
//! - [`spans`]: which chunks validation reports.
//! - [`kept`]: the bytes of outboards, and what the outboard of a blob has.
//! - [`copied`]: what a copy of an outboard has.
//! - [`pieces`]: piece commitments and padded readers, byte by byte.
//! - [`stepwise`]: what a single step of each computation does.
//!
//! What they give together:
//!
//! - [`store`]: outboards give back what was saved to them, a computed outboard holds the hash
//!   pairs of the blob, and a copy holds what was copied.
//! - [`resumed`]: decoding that goes on after a failure.
//! - [`roundtrip`]: what a response holds, and that encoding writes it and decoding accepts it.
//! - [`received`]: what a receiver has after decoding a response.
//! - [`accepted`]: what a decoder accepts of any input.
//! - [`padded`]: what padded readers deliver over all reads.
//! - [`sound`]: what is sent and reported as valid from a wrong outboard or wrong data.
//! - [`unchecked`]: encoding without validation.
//! - [`valid`]: what validation reports.
//! - [`validated`]: what passed the validation of a sender is what a receiver gets.
//! - [`whole`]: the leaves and the length of a whole response.
pub mod accepted;
pub mod copied;
pub mod kept;
pub mod padded;
pub mod pieces;
pub mod queries;
pub mod received;
pub mod resumed;
pub mod roundtrip;
pub mod shape;
pub mod sound;
pub mod spans;
pub mod stepwise;
pub mod store;
pub mod taken;
pub mod unchecked;
pub mod valid;
pub mod validated;
pub mod whole;
pub mod written;
