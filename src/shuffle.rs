//! The link writer: the operations that replace the links of a volume with a
//! new play order.
use vstd::prelude::*;
use crate::layout::{listing_view, names_view, ops_view, Entry, EntryView, Op, OpModel};
use crate::names::{link_name, link_name_spec};
use crate::plan::{draw_order, is_pass_order, pass_count, pass_count_spec, select_tracks, track_names, ShuffleError};

verus! {

/// Options of the shuffle command.
#[derive(Clone, Copy, Debug)]
pub struct CmdShuffle {
    /// Repeat all songs, each pass in a new order, until they last at least
    /// this long (nanoseconds).
    pub repeat_fill: Option<u64>,
}

/// Removal of the named file from the music directory (`music`) or from the
/// link directory.
pub open spec fn removal_op(name: Seq<char>, music: bool) -> OpModel {
    if music {
        OpModel::RemoveOriginal { name }
    } else {
        OpModel::RemoveLink { name }
    }
}

/// Removal of each regular file of a listing of the music directory
/// (`music`) or of the link directory.
pub open spec fn removals(l: Seq<EntryView>, music: bool) -> Seq<OpModel> {
    l.filter(|e: EntryView| e.is_file).map_values(|e: EntryView| removal_op(e.name, music))
}

/// One hardlink per play position `j`, named `<j>.mp3`, to the track at
/// `order[j]`.
pub open spec fn link_creations(tracks: Seq<Seq<char>>, order: Seq<usize>) -> Seq<OpModel> {
    Seq::new(
        order.len(),
        |j: int| OpModel::Hardlink { link: link_name_spec(j as nat), source: tracks[order[j] as int] },
    )
}

/// Set the dirty flag, clear the old links, then write one link per play
/// position.
pub open spec fn shuffle_ops_spec(link: Seq<EntryView>, tracks: Seq<Seq<char>>, order: Seq<usize>) -> Seq<OpModel> {
    seq![OpModel::CreateFlag] + removals(link, false) + link_creations(tracks, order)
}

/// Appends the removal of each regular file of `link`, a listing of the music
/// directory (`music`) or of the link directory.
pub(crate) fn push_removals(ops: &mut Vec<Op>, link: &Vec<Entry>, music: bool)
    ensures
        ops_view(final(ops)@) == ops_view(old(ops)@) + removals(listing_view(link@), music),
{
    let ghost start = ops_view(ops@);
    let mut i: usize = 0;
    while i < link.len()
        invariant
            i <= link.len(),
            ops_view(ops@) == start + removals(listing_view(link@).take(i as int), music),
        decreases link.len() - i,
    {
        let ghost before = listing_view(link@).take(i as int);
        let ghost pred = |e: EntryView| e.is_file;
        proof {
            assert(listing_view(link@).take(i + 1) == before.push(link@[i as int]@));
            before.lemma_filter_push(link@[i as int]@, pred);
        }
        let e = &link[i];
        if e.is_file {
            let ghost prev = ops@;
            let op = if music {
                Op::RemoveOriginal { name: e.name.clone() }
            } else {
                Op::RemoveLink { name: e.name.clone() }
            };
            ops.push(op);
            proof {
                before.filter(pred).lemma_push_map_commute(
                    |e: EntryView| removal_op(e.name, music),
                    link@[i as int]@,
                );
                assert(ops_view(ops@) == ops_view(prev).push(op@));
                assert(removals(before.push(link@[i as int]@), music) == removals(before, music).push(op@));
            }
        } else {
            assert(removals(before.push(link@[i as int]@), music) == removals(before, music));
        }
        i = i + 1;
    }
    assert(listing_view(link@).take(link.len() as int) == listing_view(link@));
}

/// The operations that replace the links listed in `link` with one hardlink
/// per position of `order`, to the tracks `tracks`.
pub fn shuffle_ops(link: &Vec<Entry>, tracks: &Vec<String>, order: &Vec<usize>) -> (r: Vec<Op>)
    requires
        forall|j: int| 0 <= j < order.len() ==> order[j] < tracks.len(),
    ensures
        ops_view(r@) == shuffle_ops_spec(listing_view(link@), names_view(tracks@), order@),
{
    let mut ops: Vec<Op> = Vec::new();
    ops.push(Op::CreateFlag);
    assert(ops_view(ops@) == seq![OpModel::CreateFlag]);
    push_removals(&mut ops, link, false);
    let ghost start = ops_view(ops@);
    let mut j: usize = 0;
    while j < order.len()
        invariant
            j <= order.len(),
            forall|k: int| 0 <= k < order.len() ==> order[k] < tracks.len(),
            ops_view(ops@) == start + link_creations(names_view(tracks@), order@.take(j as int)),
        decreases order.len() - j,
    {
        let source = tracks[order[j]].clone();
        let op = Op::Hardlink { link: link_name(j), source };
        let ghost prev = ops@;
        ops.push(op);
        proof {
            assert(ops_view(ops@) == ops_view(prev).push(op@));
            assert(names_view(tracks@)[order[j as int] as int] == tracks@[order[j as int] as int]@);
            assert(link_creations(names_view(tracks@), order@.take(j + 1)) == link_creations(
                names_view(tracks@),
                order@.take(j as int),
            ).push(op@));
        }
        j = j + 1;
    }
    assert(order@.take(order.len() as int) == order@);
    ops
}

/// Plans a shuffle of a managed volume whose music directory lists `orig` and
/// whose link directory lists `link`. `durations` are the lengths of the
/// tracks that `select_tracks` picks from `orig`, in that order, in
/// nanoseconds. The pass count and the refusals are those of `pass_count`; on
/// success the operations are those of `shuffle_ops` for a random order of
/// that many passes.
pub fn shuffle(orig: &Vec<Entry>, link: &Vec<Entry>, durations: &Vec<u64>, fill: Option<u64>) -> (r: Result<Vec<Op>, ShuffleError>)
    requires
        durations@.len() == track_names(listing_view(orig@)).len(),
    ensures
        match pass_count_spec(durations@, fill) {
            Err(e) => r == Err::<Vec<Op>, ShuffleError>(e),
            Ok(p) => r is Ok && exists|order: Seq<usize>| {
                &&& is_pass_order(order, durations@.len(), p)
                &&& ops_view(r->Ok_0@) == shuffle_ops_spec(listing_view(link@), track_names(listing_view(orig@)), order)
            },
        },
{
    let tracks = select_tracks(orig);
    proof {
        assert(tracks@.len() == names_view(tracks@).len());
    }
    match pass_count(durations, fill) {
        Err(e) => Err(e),
        Ok(passes) => {
            let n = tracks.len();
            assert(n == durations@.len());
            proof {
                crate::plan::lemma_pass_count_fits(durations@, fill);
            }
            assert(passes * n <= usize::MAX);
            let order = draw_order(n, passes);
            proof {
                crate::plan::lemma_pass_order_in_range(order@, n as nat, passes as nat);
            }
            let ops = shuffle_ops(link, &tracks, &order);
            assert(is_pass_order(order@, durations@.len(), passes as nat));
            assert(ops_view(ops@) == shuffle_ops_spec(listing_view(link@), track_names(listing_view(orig@)), order@));
            Ok(ops)
        },
    }
}

} // verus!
