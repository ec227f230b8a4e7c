//! The shuffle planner: which originals take part, how many randomised passes
//! are needed to reach a fill duration, and the play order of the links.
use vstd::prelude::*;
use rand::seq::SliceRandom;
use crate::layout::{listing_view, names_view, Entry, EntryView};
use crate::names::{ends_with, is_track_name, track_suffix};

verus! {

/// Why a shuffle is refused.
#[derive(Clone, Debug, PartialEq, Eq)]
pub enum ShuffleError {
    /// Fewer than three tracks are in the music directory.
    TooFewTracks { found: usize },
    /// The tracks already last at least the requested fill duration
    /// (both in nanoseconds).
    FillAlreadyMet { total: u128, fill: u64 },
    /// A fill duration was requested but the tracks have no measurable length.
    NoDuration,
    /// The number of links would not fit in memory.
    TooManyLinks,
}

/// The entry is a regular file named like an imported track.
pub open spec fn is_track(e: EntryView) -> bool {
    e.is_file && ends_with(e.name, track_suffix())
}

/// Names of the tracks of a music directory listing, in directory order.
pub open spec fn track_names(l: Seq<EntryView>) -> Seq<Seq<char>> {
    l.filter(|e: EntryView| is_track(e)).map_values(|e: EntryView| e.name)
}

/// The tracks of the music directory: its regular files whose names end with
/// `.mp3.x`. Subdirectories and other files are ignored.
pub fn select_tracks(orig: &Vec<Entry>) -> (r: Vec<String>)
    ensures
        names_view(r@) == track_names(listing_view(orig@)),
{
    let mut r: Vec<String> = Vec::new();
    let mut i: usize = 0;
    while i < orig.len()
        invariant
            i <= orig.len(),
            names_view(r@) == track_names(listing_view(orig@).take(i as int)),
        decreases orig.len() - i,
    {
        let ghost before = listing_view(orig@).take(i as int);
        let ghost pred = |e: EntryView| is_track(e);
        proof {
            assert(listing_view(orig@).take(i + 1) == before.push(orig@[i as int]@));
            before.lemma_filter_push(orig@[i as int]@, pred);
        }
        let e = &orig[i];
        if e.is_file && is_track_name(e.name.as_str()) {
            r.push(e.name.clone());
            proof {
                before.filter(pred).lemma_push_map_commute(|e: EntryView| e.name, orig@[i as int]@);
                assert(names_view(r@) == names_view(r@.drop_last()).push(e.name@));
            }
        }
        i = i + 1;
    }
    assert(listing_view(orig@).take(orig.len() as int) == listing_view(orig@));
    r
}

/// Sum of the durations in `d`.
pub open spec fn total_duration(d: Seq<u64>) -> nat
    decreases d.len(),
{
    if d.len() == 0 {
        0
    } else {
        total_duration(d.drop_last()) + d.last() as nat
    }
}

/// `a / b` rounded up.
pub open spec fn ceil_div(a: nat, b: nat) -> nat {
    ((a + b - 1) as nat) / b
}

/// How many passes a shuffle of tracks lasting `durations` makes to fill
/// `fill`: one without a fill; the least number of whole passes that reaches
/// the fill otherwise. All durations are in nanoseconds.
pub open spec fn pass_count_spec(durations: Seq<u64>, fill: Option<u64>) -> Result<nat, ShuffleError> {
    let n = durations.len();
    let total = total_duration(durations);
    if n < 3 {
        Err(ShuffleError::TooFewTracks { found: n as usize })
    } else {
        match fill {
            None => Ok(1),
            Some(t) => {
                if total >= t {
                    Err(ShuffleError::FillAlreadyMet { total: total as u128, fill: t })
                } else if total == 0 {
                    Err(ShuffleError::NoDuration)
                } else if ceil_div(t as nat, total) * n > usize::MAX {
                    Err(ShuffleError::TooManyLinks)
                } else {
                    Ok(ceil_div(t as nat, total))
                }
            },
        }
    }
}

/// The sum of `durations`, in the same unit.
pub fn total_of(durations: &Vec<u64>) -> (r: u128)
    ensures
        r == total_duration(durations@),
{
    let n = durations.len();
    let mut total: u128 = 0;
    let mut i: usize = 0;
    while i < n
        invariant
            n == durations@.len(),
            i <= n,
            total == total_duration(durations@.take(i as int)),
            total <= i * 0xFFFF_FFFF_FFFF_FFFFu64,
        decreases n - i,
    {
        assert(durations@.take(i + 1).drop_last() == durations@.take(i as int));
        assert(total + durations@[i as int] <= (i + 1) * 0xFFFF_FFFF_FFFF_FFFFu64) by (nonlinear_arith)
            requires
                total <= i * 0xFFFF_FFFF_FFFF_FFFFu64,
                durations@[i as int] <= 0xFFFF_FFFF_FFFF_FFFFu64,
        ;
        assert((i + 1) * 0xFFFF_FFFF_FFFF_FFFFu64 <= 0x1_0000_0000_0000_0000 * 0xFFFF_FFFF_FFFF_FFFFu64) by (nonlinear_arith)
            requires
                i + 1 <= 0x1_0000_0000_0000_0000,
        ;
        total = total + durations[i] as u128;
        i = i + 1;
    }
    assert(durations@.take(n as int) == durations@);
    total
}

/// A planned number of passes is at least one, and the links it asks for
/// can be counted in a `usize`.
pub proof fn lemma_pass_count_fits(durations: Seq<u64>, fill: Option<u64>)
    requires
        durations.len() <= usize::MAX,
    ensures
        pass_count_spec(durations, fill) is Ok ==> {
            let p = pass_count_spec(durations, fill)->Ok_0;
            &&& p >= 1
            &&& p * durations.len() <= usize::MAX
            &&& p <= usize::MAX
            &&& durations.len() >= 3
        },
{
    let n = durations.len();
    let total = total_duration(durations);
    if n >= 3 {
        match fill {
            None => {
                assert(1 * n == n);
            },
            Some(t) => {
                if total < t && total != 0 {
                    let p = ceil_div(t as nat, total);
                    assert(p >= 1) by (nonlinear_arith)
                        requires
                            total > 0,
                            t > total,
                            p == ((t + total - 1) as nat) / total,
                    ;
                    assert(p * n <= usize::MAX ==> p <= usize::MAX) by (nonlinear_arith)
                        requires
                            n >= 3,
                    ;
                }
            },
        }
    }
}

/// The number of passes for tracks of the given durations (nanoseconds) and
/// an optional fill duration.
pub fn pass_count(durations: &Vec<u64>, fill: Option<u64>) -> (r: Result<usize, ShuffleError>)
    ensures
        match pass_count_spec(durations@, fill) {
            Ok(p) => r == Ok::<usize, ShuffleError>(p as usize),
            Err(e) => r == Err::<usize, ShuffleError>(e),
        },
{
    let n = durations.len();
    if n < 3 {
        return Err(ShuffleError::TooFewTracks { found: n });
    }
    let total = total_of(durations);
    match fill {
        None => Ok(1),
        Some(t) => {
            if total >= t as u128 {
                Err(ShuffleError::FillAlreadyMet { total, fill: t })
            } else if total == 0 {
                Err(ShuffleError::NoDuration)
            } else {
                let passes: u128 = (t as u128 + total - 1) / total;
                assert(passes <= t) by {
                    assert(((t + total - 1) as nat) / (total as nat) <= t) by (nonlinear_arith)
                        requires
                            total >= 1,
                            t > total,
                    ;
                }
                assert(passes * n <= 0xFFFF_FFFF_FFFF_FFFFu64 * 0xFFFF_FFFF_FFFF_FFFFu64) by (nonlinear_arith)
                    requires
                        passes <= 0xFFFF_FFFF_FFFF_FFFFu64,
                        n <= 0xFFFF_FFFF_FFFF_FFFFu64,
                ;
                if passes * (n as u128) > usize::MAX as u128 {
                    Err(ShuffleError::TooManyLinks)
                } else {
                    Ok(passes as usize)
                }
            }
        },
    }
}


/// The sequence `0, 1, …, n - 1`.
pub open spec fn range_seq(n: nat) -> Seq<usize> {
    Seq::new(n, |i: int| i as usize)
}

/// `p` holds each of `0, 1, …, n - 1` exactly once.
pub open spec fn is_permutation(p: Seq<usize>, n: nat) -> bool {
    p.to_multiset() == range_seq(n).to_multiset()
}

/// Pass `k` of a play order over `n` tracks: its `k`-th block of `n` positions.
pub open spec fn pass_of(order: Seq<usize>, n: nat, k: int) -> Seq<usize> {
    order.subrange(k * n, k * n + n)
}

/// `order` is `passes` permutations of the `n` tracks, one after another.
pub open spec fn is_pass_order(order: Seq<usize>, n: nat, passes: nat) -> bool {
    &&& order.len() == passes * n
    &&& forall|k: int| 0 <= k < passes ==> #[trigger] is_permutation(pass_of(order, n, k), n)
}

/// Relies on rand's `SliceRandom::shuffle` with the thread-local generator
/// that the operating system seeds: the items are reordered, none is added or
/// lost.
#[verifier::external_body]
fn shuffle_in_place(v: &mut Vec<usize>)
    ensures
        final(v)@.to_multiset() == old(v)@.to_multiset(),
{
    v.shuffle(&mut rand::rng());
}

fn identity(n: usize) -> (r: Vec<usize>)
    ensures
        r@ == range_seq(n as nat),
{
    let mut r: Vec<usize> = Vec::new();
    let mut i: usize = 0;
    while i < n
        invariant
            i <= n,
            r@ == range_seq(i as nat),
        decreases n - i,
    {
        r.push(i);
        i = i + 1;
        assert(r@ == range_seq(i as nat));
    }
    r
}

proof fn lemma_block_bounds(j: int, k: int, n: int)
    requires
        0 <= j < k,
        0 <= n,
    ensures
        j * n + n <= k * n,
        0 <= j * n,
        (k + 1) * n == k * n + n,
{
    assert(j * n + n <= k * n) by (nonlinear_arith)
        requires
            j < k,
            0 <= n,
    ;
    assert(0 <= j * n) by (nonlinear_arith)
        requires
            0 <= j,
            0 <= n,
    ;
    assert((k + 1) * n == k * n + n) by (nonlinear_arith);
}

/// A random play order: `passes` independently drawn permutations of the `n`
/// tracks, one after another.
pub fn draw_order(n: usize, passes: usize) -> (r: Vec<usize>)
    requires
        passes * n <= usize::MAX,
    ensures
        is_pass_order(r@, n as nat, passes as nat),
{
    let mut order: Vec<usize> = Vec::new();
    let mut k: usize = 0;
    while k < passes
        invariant
            k <= passes,
            passes * n <= usize::MAX,
            order@.len() == k * n,
            forall|j: int| 0 <= j < k ==> #[trigger] is_permutation(pass_of(order@, n as nat, j), n as nat),
        decreases passes - k,
    {
        let mut pass = identity(n);
        shuffle_in_place(&mut pass);
        let ghost before = order@;
        let ghost drawn = pass@;
        proof {
            drawn.to_multiset_ensures();
            range_seq(n as nat).to_multiset_ensures();
            assert(drawn.len() == n);
            assert((k + 1) * n == k * n + n) by (nonlinear_arith);
            assert((k + 1) * n <= passes * n) by (nonlinear_arith)
                requires
                    k + 1 <= passes,
            ;
        }
        order.append(&mut pass);
        proof {
            assert forall|j: int| 0 <= j < k + 1 implies #[trigger] is_permutation(
                pass_of(order@, n as nat, j),
                n as nat,
            ) by {
                if j < k {
                    lemma_block_bounds(j, k as int, n as int);
                    assert(pass_of(order@, n as nat, j) == pass_of(before, n as nat, j));
                } else {
                    assert(pass_of(order@, n as nat, j) == drawn);
                }
            }
        }
        k = k + 1;
    }
    order
}


/// Every position of a play order names one of the `n` tracks.
pub proof fn lemma_pass_order_in_range(order: Seq<usize>, n: nat, passes: nat)
    requires
        is_pass_order(order, n, passes),
        n <= usize::MAX,
    ensures
        forall|j: int| 0 <= j < order.len() ==> order[j] < n,
{
    assert forall|j: int| 0 <= j < order.len() implies order[j] < n by {
        let k = j / (n as int);
        let i = j % (n as int);
        assert(n > 0) by (nonlinear_arith)
            requires
                order.len() == passes * n,
                0 <= j < order.len(),
        ;
        assert(0 <= k < passes && 0 <= i < n && j == k * n + i) by (nonlinear_arith)
            requires
                n > 0,
                0 <= j < passes * n,
                k == j / (n as int),
                i == j % (n as int),
        ;
        assert(0 <= k * n && k * n + n <= passes * n) by (nonlinear_arith)
            requires
                0 <= k < passes,
                n > 0,
        ;
        let p = pass_of(order, n, k);
        assert(is_permutation(p, n));
        assert(p[i] == order[j]);
        p.to_multiset_ensures();
        range_seq(n).to_multiset_ensures();
        assert(p.contains(p[i]));
        assert(p.to_multiset().count(order[j]) > 0);
        assert(range_seq(n).to_multiset().count(order[j]) > 0);
        assert(range_seq(n).contains(order[j]));
        let idx = choose|idx: int| 0 <= idx < n && range_seq(n)[idx] == order[j];
        assert(range_seq(n)[idx] == idx as usize);
        assert(order[j] == idx);
    }
}

} // verus!
