//! Copying outboards.
use crate::create::{outboard_saver, SaveFn};
use crate::error::IoError;
use crate::hash::Digest;
use crate::iter::NodeIter;
use crate::outboard::{Outboard, OutboardMut};
use crate::tree::TreeNode;
use vstd::prelude::*;

verus! {

/// What loading a hash pair gives.
pub type LoadFn = spec_fn(TreeNode) -> Result<Option<(Digest, Digest)>, IoError>;

/// Loading from an outboard.
pub open spec fn outboard_loader<O: Outboard>(st: O::V) -> LoadFn {
    |node: TreeNode| O::load_from(st, node)
}

/// Loading from an outboard what it really has.
pub open spec fn stored_loader<O: Outboard>(st: O::V) -> LoadFn {
    |node: TreeNode|
        match O::load_from(st, node) {
            Err(e) => Err(e),
            Ok(pair) => if O::stored_in(st, node) {
                Ok(pair)
            } else {
                Ok(None)
            },
        }
}

/// Copies the hash pairs of `nodes` in turn, up to the first failure. A node without a hash pair
/// is passed over.
pub open spec fn copy_run<S>(load: LoadFn, save: SaveFn<S>, nodes: Seq<int>, st: S) -> (
    S,
    Result<(), IoError>,
)
    decreases nodes.len(),
{
    if nodes.len() == 0 {
        (st, Ok(()))
    } else {
        let node = TreeNode(nodes[0] as u64);
        match load(node) {
            Err(e) => (st, Err(e)),
            Ok(None) => copy_run(load, save, nodes.skip(1), st),
            Ok(Some(pair)) => {
                let (st1, res) = save(st, node, pair);
                match res {
                    Err(e) => (st1, Err(e)),
                    Ok(_) => copy_run(load, save, nodes.skip(1), st1),
                }
            },
        }
    }
}

/// Copies an outboard to another outboard.
///
/// This can be used to keep an outboard for good, or to change from pre order to post order.
pub fn copy<F: Outboard, T: OutboardMut>(from: &mut F, to: &mut T) -> (res: Result<(), IoError>)
    requires
        F::tree_of(old(from)@).wf(),
        T::can_save(old(to)@),
    ensures
        final(from)@ == old(from)@,
        (final(to)@, res) == copy_run(
            outboard_loader::<F>(old(from)@),
            outboard_saver::<T>(),
            F::tree_of(old(from)@).pre_order_nodes(),
            old(to)@,
        ),
        T::can_save(final(to)@),
{
    let ghost load = outboard_loader::<F>(from@);
    let ghost save = outboard_saver::<T>();
    let mut nodes = NodeIter::new(from.tree());
    let ghost whole = copy_run(load, save, nodes.remaining(), to@);
    loop
        invariant
            nodes.wf(),
            from@ == old(from)@,
            F::tree_of(from@).wf(),
            T::can_save(to@),
            load == outboard_loader::<F>(old(from)@),
            save == outboard_saver::<T>(),
            copy_run(load, save, nodes.remaining(), to@) == whole,
            whole == copy_run(
                load,
                save,
                F::tree_of(old(from)@).pre_order_nodes(),
                old(to)@,
            ),
        decreases nodes.remaining().len(),
    {
        match nodes.next() {
            None => {
                return Ok(());
            },
            Some(node) => {
                match from.load(node) {
                    Err(e) => {
                        return Err(e);
                    },
                    Ok(None) => {},
                    Ok(Some(pair)) => {
                        match to.save(node, &pair) {
                            Err(e) => {
                                return Err(e);
                            },
                            Ok(_) => {},
                        }
                    },
                }
            },
        }
    }
}

} // verus!
