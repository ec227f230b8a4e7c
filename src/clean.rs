//! The cleaner: undoes a shuffle so that the volume can be edited safely.
use vstd::prelude::*;
use crate::layout::{listing_view, ops_view, Entry, EntryView, Op, OpModel};
use crate::shuffle::{push_removals, removals};

verus! {

/// Options of the clean command.
#[derive(Clone, Debug)]
pub struct CmdClean {
    /// Remove the original songs as well as the links.
    pub songs: bool,
}

/// Remove every link, every original too when `songs` holds, then the dirty
/// flag.
pub open spec fn clean_ops_spec(link: Seq<EntryView>, orig: Seq<EntryView>, songs: bool) -> Seq<OpModel> {
    removals(link, false) + (if songs { removals(orig, true) } else { Seq::empty() }) + seq![OpModel::RemoveFlag]
}

/// The operations that clean a volume whose link directory lists `link` and
/// whose music directory lists `orig`.
pub fn clean(link: &Vec<Entry>, orig: &Vec<Entry>, args: &CmdClean) -> (r: Vec<Op>)
    ensures
        ops_view(r@) == clean_ops_spec(listing_view(link@), listing_view(orig@), args.songs),
{
    let mut ops: Vec<Op> = Vec::new();
    assert(ops_view(ops@) == Seq::<OpModel>::empty());
    push_removals(&mut ops, link, false);
    if args.songs {
        push_removals(&mut ops, orig, true);
    }
    let ghost prev = ops@;
    ops.push(Op::RemoveFlag);
    assert(ops_view(ops@) == ops_view(prev).push(OpModel::RemoveFlag));
    ops
}

} // verus!
