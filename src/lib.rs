//! Transport of messages over fixed-capacity fragments.
//!
//! [`message`] maps each message to a tag byte and a self-describing payload
//! and back. An [`Assembler`] splits a byte buffer into fragments that each
//! carry at most [`fragment::FRAGMENT_DSIZE`] bytes, and joins a set of
//! received fragments, in any order, back into the buffer. Splitting an empty
//! buffer gives one empty fragment, so that every buffer survives the round
//! trip.
use vstd::prelude::*;

pub mod fragment;
pub mod message;
pub mod naive_assembler;

use crate::fragment::{is_split_of, join_result, Fragment, ReassembleError};

verus! {

/// Splitting byte buffers into fragments and joining them back.
pub trait Assembler {
    /// Joins `fragments`, given in any order, into the buffer they were
    /// split from. Each fragment must respect its capacity, and as many full
    /// fragments as were given must fit in memory.
    fn reassemble(fragments: &[Fragment]) -> (r: Result<Vec<u8>, ReassembleError>)
        requires
            forall|i: int| 0 <= i < fragments@.len() ==> (#[trigger] fragments@[i]).wf(),
            fragments@.len() * crate::fragment::FRAGMENT_DSIZE <= usize::MAX,
        ensures
            match r {
                Ok(v) => join_result(fragments@) == Ok::<Seq<u8>, ReassembleError>(v@),
                Err(e) => join_result(fragments@) == Err::<Seq<u8>, ReassembleError>(e),
            },
    ;

    /// Splits `byte_vector` into its fragment sequence.
    fn disassemble(byte_vector: &[u8]) -> (r: Vec<Fragment>)
        ensures
            is_split_of(r@, byte_vector@),
            forall|i: int| 0 <= i < r.len() ==> (#[trigger] r@[i]).wf(),
    ;
}

} // verus!
