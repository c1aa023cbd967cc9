//! The stack of hashes that a walk over a tree still has to meet or to combine.
use crate::hash::Digest;
use smallvec::SmallVec;
use vstd::prelude::*;

verus! {

/// A stack of hashes that does not allocate for small trees.
#[verifier::external_body]
pub struct HashStack {
    inner: SmallVec<[Digest; 10]>,
}

/// The hashes on the stack, the last one on top.
pub uninterp spec fn stack_hashes(stack: HashStack) -> Seq<Digest>;

impl View for HashStack {
    type V = Seq<Digest>;

    open spec fn view(&self) -> Seq<Digest> {
        stack_hashes(*self)
    }
}

impl HashStack {
    /// `SmallVec::new`: the stack it returns holds nothing.
    #[verifier::external_body]
    pub(crate) fn new() -> (res: HashStack)
        ensures
            stack_hashes(res) == Seq::<Digest>::empty(),
    {
        HashStack { inner: SmallVec::new() }
    }

    /// `SmallVec::push`: the hash comes on top of those that were there.
    #[verifier::external_body]
    pub(crate) fn push(&mut self, hash: Digest)
        ensures
            stack_hashes(*final(self)) == stack_hashes(*old(self)).push(hash),
    {
        self.inner.push(hash)
    }

    /// `SmallVec::pop`: takes the hash on top off and returns it; an empty stack stays empty and
    /// gives `None`.
    #[verifier::external_body]
    pub(crate) fn pop(&mut self) -> (res: Option<Digest>)
        ensures
            stack_hashes(*old(self)).len() == 0 ==> res is None && stack_hashes(*final(self))
                == stack_hashes(*old(self)),
            stack_hashes(*old(self)).len() > 0 ==> res == Some(stack_hashes(*old(self)).last())
                && stack_hashes(*final(self)) == stack_hashes(*old(self)).drop_last(),
    {
        self.inner.pop()
    }
}

} // verus!
