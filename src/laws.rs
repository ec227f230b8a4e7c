//! What the commands do to a volume, stated over the layout model and proved.
use vstd::prelude::*;
use vstd::multiset::Multiset;
use vstd::seq_lib::lemma_multiset_commutative;
use crate::layout::{apply, cluster_of, has_file, is_first, listing_of, run, lemma_run_append, EntryView, FileModel, OpModel, VolumeModel};
use crate::names::{lemma_link_names_distinct, link_name_spec};
use crate::plan::{is_pass_order, is_permutation, lemma_pass_order_in_range, pass_count_spec, pass_of, range_seq, is_track, track_names};
use crate::clean::clean_ops_spec;
use crate::import::{entry_names, import_ops_spec, import_plan_spec, taken_before, ImportStepModel};
use crate::names::import_name_spec;
use crate::layout::cluster_limit;
use crate::shuffle::{link_creations, removal_op, removals, shuffle_ops_spec};

verus! {

/// No two files of `s` share a name.
pub open spec fn unique_names(s: Seq<FileModel>) -> bool {
    forall|i: int, j: int| 0 <= i < j < s.len() ==> s[i].name != s[j].name
}

proof fn lemma_filter_all<A>(s: Seq<A>, p: spec_fn(A) -> bool)
    requires
        forall|i: int| 0 <= i < s.len() ==> p(s[i]),
    ensures
        s.filter(p) == s,
    decreases s.len(),
{
    if s.len() > 0 {
        let init = s.drop_last();
        lemma_filter_all(init, p);
        init.lemma_filter_push(s.last(), p);
        assert(init.push(s.last()) == s);
    }
}

/// Removing the links named by `ops` keeps the rest of the layout, and keeps
/// only links of the start that none of `ops` names.
proof fn lemma_removals_effect(v: VolumeModel, ops: Seq<OpModel>)
    requires
        forall|i: int| 0 <= i < ops.len() ==> (#[trigger] ops[i] is RemoveLink),
    ensures
        run(v, ops).orig == v.orig,
        run(v, ops).dirty == v.dirty,
        run(v, ops).next_cluster == v.next_cluster,
        forall|f: FileModel| #[trigger] run(v, ops).link.contains(f) ==> v.link.contains(f) && forall|i: int|
            0 <= i < ops.len() ==> ops[i] != (OpModel::RemoveLink { name: f.name }),
    decreases ops.len(),
{
    if ops.len() > 0 {
        let init = ops.drop_last();
        assert forall|i: int| 0 <= i < init.len() implies #[trigger] init[i] is RemoveLink by {
            assert(ops[i] is RemoveLink);
        }
        lemma_removals_effect(v, init);
        let r = run(v, init);
        let name = ops.last()->RemoveLink_name;
        let pred = |f: FileModel| f.name != name;
        assert forall|f: FileModel| #[trigger] run(v, ops).link.contains(f) implies v.link.contains(f) && forall|i: int|
            0 <= i < ops.len() ==> ops[i] != OpModel::RemoveLink { name: f.name } by {
            r.link.lemma_filter_contains_rev(pred, f);
            assert forall|i: int| 0 <= i < ops.len() implies ops[i] != OpModel::RemoveLink { name: f.name } by {
                if i < init.len() {
                    assert(init[i] == ops[i]);
                }
            }
        }
    }
}

/// Running the removals of a listing of the link directory leaves it empty.
proof fn lemma_clear_links(v: VolumeModel)
    ensures
        run(v, removals(listing_of(v.link), false)).link.len() == 0,
        run(v, removals(listing_of(v.link), false)).orig == v.orig,
        run(v, removals(listing_of(v.link), false)).dirty == v.dirty,
        run(v, removals(listing_of(v.link), false)).next_cluster == v.next_cluster,
{
    let l = listing_of(v.link);
    let ops = removals(l, false);
    lemma_filter_all(l, |e: EntryView| e.is_file);
    assert(ops.len() == v.link.len());
    assert forall|i: int| 0 <= i < ops.len() implies #[trigger] ops[i] is RemoveLink by {
        assert(ops[i] == removal_op(l[i].name, false));
    }
    lemma_removals_effect(v, ops);
    let w = run(v, ops);
    if w.link.len() > 0 {
        let f = w.link[0];
        assert(w.link.contains(f));
        let i = choose|i: int| 0 <= i < v.link.len() && v.link[i] == f;
        assert(ops[i] == removal_op(l[i].name, false));
        assert(ops[i] == OpModel::RemoveLink { name: f.name });
    }
}

/// The link directory that a shuffle writes: position `j` is `<j>.mp3`,
/// sharing the first cluster of the track at `order[j]`.
pub open spec fn planned_links(orig: Seq<FileModel>, tracks: Seq<Seq<char>>, order: Seq<usize>) -> Seq<FileModel> {
    Seq::new(
        order.len(),
        |j: int| FileModel { name: link_name_spec(j as nat), cluster: cluster_of(orig, tracks[order[j] as int]) },
    )
}

/// Every track name is the name of a file of the music directory.
proof fn lemma_tracks_present(orig: Seq<FileModel>, t: int)
    requires
        0 <= t < track_names(listing_of(orig)).len(),
    ensures
        has_file(orig, track_names(listing_of(orig))[t]),
{
    let l = listing_of(orig);
    let pred = |e: EntryView| is_track(e);
    let e = l.filter(pred)[t];
    assert(l.filter(pred).contains(e));
    l.lemma_filter_contains_rev(pred, e);
    let i = choose|i: int| 0 <= i < l.len() && l[i] == e;
    assert(orig[i].name == track_names(l)[t]);
}

/// In a directory of unique names, a file that has a name is the first with it.
proof fn lemma_unique_first(s: Seq<FileModel>, n: Seq<char>)
    requires
        unique_names(s),
        has_file(s, n),
    ensures
        exists|i: int| is_first(s, n, i),
{
    let i = choose|i: int| 0 <= i < s.len() && s[i].name == n;
    assert(is_first(s, n, i));
}

/// Writing the links of `order` into an empty link directory yields exactly
/// the planned links.
proof fn lemma_creations_effect(v: VolumeModel, tracks: Seq<Seq<char>>, order: Seq<usize>)
    requires
        v.link.len() == 0,
        tracks == track_names(listing_of(v.orig)),
        forall|j: int| 0 <= j < order.len() ==> order[j] < tracks.len(),
    ensures
        run(v, link_creations(tracks, order)).link == planned_links(v.orig, tracks, order),
        run(v, link_creations(tracks, order)).orig == v.orig,
        run(v, link_creations(tracks, order)).dirty == v.dirty,
        run(v, link_creations(tracks, order)).next_cluster == v.next_cluster,
    decreases order.len(),
{
    let ops = link_creations(tracks, order);
    if order.len() > 0 {
        let k = order.len() - 1;
        let init = order.drop_last();
        lemma_creations_effect(v, tracks, init);
        assert(ops.drop_last() == link_creations(tracks, init));
        let r = run(v, link_creations(tracks, init));
        let source = tracks[order[k] as int];
        lemma_tracks_present(v.orig, order[k] as int);
        assert(!has_file(r.link, link_name_spec(k as nat))) by {
            if has_file(r.link, link_name_spec(k as nat)) {
                let i = choose|i: int| 0 <= i < r.link.len() && r.link[i].name == link_name_spec(k as nat);
                lemma_link_names_distinct(i as nat, k as nat);
            }
        }
        assert(ops.last() == OpModel::Hardlink { link: link_name_spec(k as nat), source });
        assert(run(v, ops).link == planned_links(v.orig, tracks, order));
    } else {
        assert(planned_links(v.orig, tracks, order) == Seq::<FileModel>::empty());
    }
}

/// What a shuffle does to a volume whose music directory has unique names:
/// the dirty flag is set, the music directory is untouched, and the link
/// directory holds exactly the planned links, in play order; no link of an
/// earlier shuffle is left.
pub proof fn lemma_shuffle_effect(v: VolumeModel, order: Seq<usize>)
    requires
        unique_names(v.orig),
        forall|j: int| 0 <= j < order.len() ==> order[j] < track_names(listing_of(v.orig)).len(),
    ensures
        ({
            let tracks = track_names(listing_of(v.orig));
            let w = run(v, shuffle_ops_spec(listing_of(v.link), tracks, order));
            &&& w.dirty
            &&& w.orig == v.orig
            &&& w.next_cluster == v.next_cluster
            &&& w.link == planned_links(v.orig, tracks, order)
        }),
{
    let tracks = track_names(listing_of(v.orig));
    let first = seq![OpModel::CreateFlag];
    let clear = removals(listing_of(v.link), false);
    let create = link_creations(tracks, order);
    assert(shuffle_ops_spec(listing_of(v.link), tracks, order) == first + clear + create);
    lemma_run_append(v, first + clear, create);
    lemma_run_append(v, first, clear);
    let v1 = run(v, first);
    assert(first.drop_last() == Seq::<OpModel>::empty());
    assert(first.last() == OpModel::CreateFlag);
    assert(run(v, Seq::<OpModel>::empty()) == v);
    assert(v1 == apply(v, OpModel::CreateFlag));
    lemma_clear_links(v1);
    let v2 = run(v1, clear);
    lemma_creations_effect(v2, tracks, order);
}


/// Links that a shuffle writes: with `p` passes over the `n` tracks of the
/// music directory, the link directory holds `p × n` files, named `0.mp3`,
/// `1.mp3`, … `(p·n − 1).mp3` in that order, and so exactly the set of those
/// names. This holds whatever links the directory held before, so a shuffle
/// after a shuffle leaves none of the earlier ones.
pub proof fn lemma_shuffle_links(v: VolumeModel, durations: Seq<u64>, fill: Option<u64>, order: Seq<usize>)
    requires
        unique_names(v.orig),
        durations.len() == track_names(listing_of(v.orig)).len(),
        durations.len() <= usize::MAX,
        pass_count_spec(durations, fill) is Ok,
        is_pass_order(order, durations.len(), pass_count_spec(durations, fill)->Ok_0),
    ensures
        ({
            let n = durations.len();
            let p = pass_count_spec(durations, fill)->Ok_0;
            let w = run(v, shuffle_ops_spec(listing_of(v.link), track_names(listing_of(v.orig)), order));
            &&& w.link.len() == p * n
            &&& forall|j: int| 0 <= j < w.link.len() ==> #[trigger] w.link[j].name == link_name_spec(j as nat)
            &&& w.link.map_values(|f: FileModel| f.name).to_set() == Set::new(
                |s: Seq<char>| exists|j: nat| j < p * n && s == link_name_spec(j),
            )
        }),
{
    let n = durations.len();
    let p = pass_count_spec(durations, fill)->Ok_0;
    let tracks = track_names(listing_of(v.orig));
    lemma_pass_order_in_range(order, n, p);
    lemma_shuffle_effect(v, order);
    let w = run(v, shuffle_ops_spec(listing_of(v.link), tracks, order));
    let names = w.link.map_values(|f: FileModel| f.name);
    let target = Set::new(|s: Seq<char>| exists|j: nat| j < p * n && s == link_name_spec(j));
    assert forall|s: Seq<char>| names.to_set().contains(s) <==> target.contains(s) by {
        if names.to_set().contains(s) {
            assert(names.contains(s));
            let j = choose|j: int| 0 <= j < names.len() && names[j] == s;
            assert(s == link_name_spec(j as nat));
        }
        if target.contains(s) {
            let j = choose|j: nat| j < p * n && s == link_name_spec(j);
            assert(names[j as int] == s);
            assert(names.contains(s));
        }
    }
    assert(names.to_set() == target);
}

/// A shuffle over a shuffled volume writes the links of the newer order only.
pub proof fn lemma_reshuffle(v: VolumeModel, first: Seq<usize>, second: Seq<usize>)
    requires
        unique_names(v.orig),
        forall|j: int| 0 <= j < first.len() ==> first[j] < track_names(listing_of(v.orig)).len(),
        forall|j: int| 0 <= j < second.len() ==> second[j] < track_names(listing_of(v.orig)).len(),
    ensures
        ({
            let tracks = track_names(listing_of(v.orig));
            let w1 = run(v, shuffle_ops_spec(listing_of(v.link), tracks, first));
            let w2 = run(w1, shuffle_ops_spec(listing_of(w1.link), tracks, second));
            &&& w2.link == planned_links(v.orig, tracks, second)
            &&& w2.link.len() == second.len()
            &&& w2.orig == v.orig
            &&& w2.dirty
        }),
{
    lemma_shuffle_effect(v, first);
    let tracks = track_names(listing_of(v.orig));
    let w1 = run(v, shuffle_ops_spec(listing_of(v.link), tracks, first));
    lemma_shuffle_effect(w1, second);
}

/// `m` taken `p` times.
pub open spec fn repeat_multiset(m: Multiset<u32>, p: nat) -> Multiset<u32>
    decreases p,
{
    if p == 0 {
        Multiset::empty()
    } else {
        repeat_multiset(m, (p - 1) as nat).add(m)
    }
}

/// The first clusters of the tracks of a music directory, in directory order.
pub open spec fn track_clusters(orig: Seq<FileModel>) -> Seq<u32> {
    track_names(listing_of(orig)).map_values(|t: Seq<char>| cluster_of(orig, t))
}

/// Two sequences with the same elements, counted with multiplicity, still
/// have the same elements after mapping.
proof fn lemma_map_multiset<A, B>(s1: Seq<A>, s2: Seq<A>, f: spec_fn(A) -> B)
    requires
        s1.to_multiset() == s2.to_multiset(),
    ensures
        s1.map_values(f).to_multiset() == s2.map_values(f).to_multiset(),
    decreases s1.len(),
{
    broadcast use vstd::multiset::group_multiset_axioms;
    s1.to_multiset_ensures();
    s2.to_multiset_ensures();
    if s1.len() == 0 {
        assert(s2.len() == 0);
        assert(s1.map_values(f) == s2.map_values(f));
    } else {
        let x = s1.last();
        let init = s1.drop_last();
        init.to_multiset_ensures();
        assert(init.push(x) == s1);
        assert(s1.to_multiset().count(x) > 0);
        assert(s2.contains(x));
        let i = choose|i: int| 0 <= i < s2.len() && s2[i] == x;
        let rest = s2.remove(i);
        assert(rest.to_multiset() == s2.to_multiset().remove(x));
        assert(init.to_multiset() == s1.to_multiset().remove(x));
        lemma_map_multiset(init, rest, f);
        init.lemma_push_map_commute(f, x);
        let m2 = s2.map_values(f);
        m2.to_multiset_ensures();
        assert(m2.remove(i) == rest.map_values(f));
        assert(m2.to_multiset().count(f(x)) > 0) by {
            assert(m2[i] == f(x));
            assert(m2.contains(f(x)));
        }
        assert(m2.to_multiset() == m2.remove(i).to_multiset().insert(f(x)));
        rest.map_values(f).to_multiset_ensures();
        init.map_values(f).to_multiset_ensures();
    }
}

/// Clusters aliased by the links of a shuffle: every track appears once in
/// each pass, so the links share the first clusters of the tracks, each one
/// as many times as there are passes.
pub proof fn lemma_shuffle_clusters(v: VolumeModel, durations: Seq<u64>, fill: Option<u64>, order: Seq<usize>)
    requires
        unique_names(v.orig),
        durations.len() == track_names(listing_of(v.orig)).len(),
        durations.len() <= usize::MAX,
        pass_count_spec(durations, fill) is Ok,
        is_pass_order(order, durations.len(), pass_count_spec(durations, fill)->Ok_0),
    ensures
        ({
            let p = pass_count_spec(durations, fill)->Ok_0;
            let w = run(v, shuffle_ops_spec(listing_of(v.link), track_names(listing_of(v.orig)), order));
            w.link.map_values(|f: FileModel| f.cluster).to_multiset() == repeat_multiset(
                track_clusters(v.orig).to_multiset(),
                p,
            )
        }),
{
    let n = durations.len();
    let p = pass_count_spec(durations, fill)->Ok_0;
    let tracks = track_names(listing_of(v.orig));
    lemma_pass_order_in_range(order, n, p);
    lemma_shuffle_effect(v, order);
    let w = run(v, shuffle_ops_spec(listing_of(v.link), tracks, order));
    let c = |i: usize| cluster_of(v.orig, tracks[i as int]);
    assert(w.link.map_values(|f: FileModel| f.cluster) == order.map_values(c));
    assert(range_seq(n).map_values(c) == track_clusters(v.orig));
    lemma_blocks(order, n, p, p, c);
    assert(order.take((p * n) as int) == order);
}

proof fn lemma_blocks(order: Seq<usize>, n: nat, p: nat, k: nat, c: spec_fn(usize) -> u32)
    requires
        is_pass_order(order, n, p),
        k <= p,
    ensures
        order.take((k * n) as int).map_values(c).to_multiset() == repeat_multiset(range_seq(n).map_values(c).to_multiset(), k),
    decreases k,
{
    if k == 0 {
        broadcast use vstd::multiset::group_multiset_axioms;
        assert(k * n == 0) by (nonlinear_arith)
            requires
                k == 0,
        ;
        let e = order.take(0).map_values(c);
        assert(e == Seq::<u32>::empty());
        e.to_multiset_ensures();
        assert(e.to_multiset() =~= Multiset::<u32>::empty());
        assert(order.take((k * n) as int).map_values(c) == e);
    } else {
        let j = (k - 1) as nat;
        lemma_blocks(order, n, p, j, c);
        assert(0 <= j * n && j * n + n == k * n && k * n <= p * n) by (nonlinear_arith)
            requires
                j + 1 == k,
                k <= p,
        ;
        let block = pass_of(order, n, j as int);
        assert(is_permutation(block, n));
        assert(order.take((k * n) as int) == order.take((j * n) as int) + block);
        assert(order.take((k * n) as int).map_values(c) == order.take((j * n) as int).map_values(c) + block.map_values(c));
        let a = order.take((j * n) as int).map_values(c);
        let b = block.map_values(c);
        lemma_multiset_commutative(a, b);
        lemma_map_multiset(block, range_seq(n), c);
        let m = range_seq(n).map_values(c).to_multiset();
        assert(a.to_multiset() == repeat_multiset(m, j));
        assert(b.to_multiset() == m);
        assert((a + b).to_multiset() == repeat_multiset(m, j).add(m));
        assert(repeat_multiset(m, k) == repeat_multiset(m, j).add(m));
        assert(order.take((k * n) as int).map_values(c) == a + b);
    }
}

/// Cleaning after a shuffle undoes it: the music directory is as before the
/// shuffle, the link directory is empty and the dirty flag is gone.
pub proof fn lemma_clean_undoes_shuffle(v: VolumeModel, order: Seq<usize>)
    requires
        unique_names(v.orig),
        forall|j: int| 0 <= j < order.len() ==> order[j] < track_names(listing_of(v.orig)).len(),
    ensures
        ({
            let w = run(v, shuffle_ops_spec(listing_of(v.link), track_names(listing_of(v.orig)), order));
            let z = run(w, clean_ops_spec(listing_of(w.link), listing_of(w.orig), false));
            &&& z.orig == v.orig
            &&& z.link.len() == 0
            &&& !z.dirty
        }),
{
    lemma_shuffle_effect(v, order);
    let w = run(v, shuffle_ops_spec(listing_of(v.link), track_names(listing_of(v.orig)), order));
    let clear = removals(listing_of(w.link), false);
    let last = seq![OpModel::RemoveFlag];
    assert(clean_ops_spec(listing_of(w.link), listing_of(w.orig), false) == clear + last);
    lemma_clear_links(w);
    lemma_run_append(w, clear, last);
    assert(last.drop_last() == Seq::<OpModel>::empty());
    assert(run(run(w, clear), Seq::<OpModel>::empty()) == run(w, clear));
}


proof fn lemma_keeps_flag(v: VolumeModel, ops: Seq<OpModel>)
    requires
        forall|i: int| 0 <= i < ops.len() ==> !(#[trigger] ops[i] is CreateFlag) && !(ops[i] is RemoveFlag),
    ensures
        run(v, ops).dirty == v.dirty,
    decreases ops.len(),
{
    if ops.len() > 0 {
        let init = ops.drop_last();
        assert forall|i: int| 0 <= i < init.len() implies !(#[trigger] init[i] is CreateFlag) && !(init[i] is RemoveFlag) by {
            assert(init[i] == ops[i]);
        }
        lemma_keeps_flag(v, init);
        assert(!(ops[ops.len() - 1] is CreateFlag));
    }
}

/// The dirty flag around writes to the link directory: a shuffle sets it
/// with its first operation and it stays set after every later one; a clean
/// ends with it absent.
pub proof fn lemma_dirty_flag(v: VolumeModel, link: Seq<EntryView>, orig: Seq<EntryView>, tracks: Seq<Seq<char>>, order: Seq<usize>, songs: bool)
    ensures
        forall|k: int| 1 <= k <= shuffle_ops_spec(link, tracks, order).len() ==>
            (#[trigger] run(v, shuffle_ops_spec(link, tracks, order).take(k))).dirty,
        !run(v, clean_ops_spec(link, orig, songs)).dirty,
{
    let ops = shuffle_ops_spec(link, tracks, order);
    let first = seq![OpModel::CreateFlag];
    let rest = removals(link, false) + link_creations(tracks, order);
    assert(ops == first + rest);
    assert(first.drop_last() == Seq::<OpModel>::empty());
    assert(run(v, Seq::<OpModel>::empty()) == v);
    assert(run(v, first).dirty);
    assert forall|k: int| 1 <= k <= ops.len() implies (#[trigger] run(v, ops.take(k))).dirty by {
        let part = rest.take(k - 1);
        assert(ops.take(k) == first + part);
        lemma_run_append(v, first, part);
        assert forall|i: int| 0 <= i < part.len() implies !(#[trigger] part[i] is CreateFlag) && !(part[i] is RemoveFlag) by {
            assert(part[i] == rest[i]);
            let l = removals(link, false).len();
            if i < l {
                let pred = |e: EntryView| e.is_file;
                assert(rest[i] == removal_op(link.filter(pred)[i].name, false));
            } else {
                assert(rest[i] == link_creations(tracks, order)[i - l]);
            }
        }
        lemma_keeps_flag(run(v, first), part);
    }
    let cops = clean_ops_spec(link, orig, songs);
    assert(cops.last() == OpModel::RemoveFlag);
}


proof fn lemma_plan_prefix(existing: Seq<Seq<char>>, files: Seq<Seq<char>>)
    requires
        files.len() > 0,
    ensures
        import_plan_spec(existing, files).drop_last() == import_plan_spec(existing, files.drop_last()),
{
    let init = files.drop_last();
    assert forall|k: int, x: Seq<char>| 0 <= k < init.len() implies
        #[trigger] taken_before(existing, files, k, x) == taken_before(existing, init, k, x) by {
        if taken_before(existing, files, k, x) && !existing.contains(x) {
            let j = choose|j: int| 0 <= j < k && import_name_spec(files[j]) == x;
            assert(import_name_spec(init[j]) == x);
        }
        if taken_before(existing, init, k, x) && !existing.contains(x) {
            let j = choose|j: int| 0 <= j < k && import_name_spec(init[j]) == x;
            assert(import_name_spec(files[j]) == x);
        }
    }
    assert(import_plan_spec(existing, files).drop_last() =~= import_plan_spec(existing, init));
}

/// Importing keeps every original, adds a file for each source name, and
/// takes one cluster per copied file at most.
proof fn lemma_import_effect(v: VolumeModel, files: Seq<Seq<char>>)
    requires
        v.next_cluster + files.len() < cluster_limit(),
    ensures
        ({
            let w = run(v, import_ops_spec(import_plan_spec(entry_names(listing_of(v.orig)), files)));
            &&& forall|n: Seq<char>| has_file(v.orig, n) ==> #[trigger] has_file(w.orig, n)
            &&& forall|j: int| 0 <= j < files.len() ==> has_file(w.orig, #[trigger] import_name_spec(files[j]))
            &&& w.next_cluster <= v.next_cluster + files.len()
            &&& w.link == v.link
            &&& w.dirty == v.dirty
        }),
    decreases files.len(),
{
    let existing = entry_names(listing_of(v.orig));
    if files.len() > 0 {
        let init = files.drop_last();
        let k = files.len() - 1;
        lemma_import_effect(v, init);
        lemma_plan_prefix(existing, files);
        let plan = import_plan_spec(existing, files);
        let r = run(v, import_ops_spec(import_plan_spec(existing, init)));
        let name = import_name_spec(files[k]);
        assert(plan.last() == crate::import::import_step_spec(existing, files, k));
        if taken_before(existing, files, k, name) {
            assert(import_ops_spec(plan) == import_ops_spec(import_plan_spec(existing, init)));
            if existing.contains(name) {
                let i = choose|i: int| 0 <= i < existing.len() && existing[i] == name;
                assert(v.orig[i].name == name);
                assert(has_file(v.orig, name));
            } else {
                let j = choose|j: int| 0 <= j < k && import_name_spec(files[j]) == name;
                assert(import_name_spec(init[j]) == name);
            }
        } else {
            let op = OpModel::Import { name, index: k as usize };
            assert(import_ops_spec(plan) == import_ops_spec(import_plan_spec(existing, init)).push(op));
            assert(import_ops_spec(plan).drop_last() == import_ops_spec(import_plan_spec(existing, init)));
            let w = apply(r, op);
            if !has_file(r.orig, name) {
                assert(w.orig.last() == (FileModel { name, cluster: r.next_cluster }));
                assert(has_file(w.orig, name)) by {
                    assert(w.orig[w.orig.len() - 1].name == name);
                }
                assert forall|n: Seq<char>| has_file(r.orig, n) implies #[trigger] has_file(w.orig, n) by {
                    let i = choose|i: int| 0 <= i < r.orig.len() && r.orig[i].name == n;
                    assert(w.orig[i] == r.orig[i]);
                }
            }
        }
        let w = run(v, import_ops_spec(plan));
        assert forall|j: int| 0 <= j < files.len() implies has_file(w.orig, #[trigger] import_name_spec(files[j])) by {
            if j < k {
                assert(import_name_spec(init[j]) == import_name_spec(files[j]));
            }
        }
    } else {
        assert(import_plan_spec(existing, files) == Seq::<ImportStepModel>::empty());
        assert(import_ops_spec(Seq::<ImportStepModel>::empty()) == Seq::<OpModel>::empty());
    }
}

proof fn lemma_skips_do_nothing(steps: Seq<ImportStepModel>)
    requires
        forall|k: int| 0 <= k < steps.len() ==> (#[trigger] steps[k] is Skip),
    ensures
        import_ops_spec(steps).len() == 0,
    decreases steps.len(),
{
    if steps.len() > 0 {
        let init = steps.drop_last();
        assert forall|k: int| 0 <= k < init.len() implies (#[trigger] init[k] is Skip) by {
            assert(init[k] == steps[k]);
        }
        lemma_skips_do_nothing(init);
        assert(steps[steps.len() - 1] is Skip);
    }
}

/// Importing the same files twice: the second run skips every file and
/// leaves the volume as the first run left it. The volume has room for the
/// first run's copies.
pub proof fn lemma_import_idempotent(v: VolumeModel, files: Seq<Seq<char>>)
    requires
        v.next_cluster + files.len() < cluster_limit(),
    ensures
        ({
            let w = run(v, import_ops_spec(import_plan_spec(entry_names(listing_of(v.orig)), files)));
            let again = import_plan_spec(entry_names(listing_of(w.orig)), files);
            &&& forall|k: int| 0 <= k < files.len() ==> (#[trigger] again[k] is Skip)
            &&& run(w, import_ops_spec(again)) == w
        }),
{
    lemma_import_effect(v, files);
    let w = run(v, import_ops_spec(import_plan_spec(entry_names(listing_of(v.orig)), files)));
    let names = entry_names(listing_of(w.orig));
    let again = import_plan_spec(names, files);
    assert forall|k: int| 0 <= k < files.len() implies (#[trigger] again[k] is Skip) by {
        let name = import_name_spec(files[k]);
        assert(has_file(w.orig, name));
        let i = choose|i: int| 0 <= i < w.orig.len() && w.orig[i].name == name;
        assert(names[i] == name);
        assert(names.contains(name));
    }
    lemma_skips_do_nothing(again);
    assert(import_ops_spec(again) == Seq::<OpModel>::empty());
}

} // verus!
