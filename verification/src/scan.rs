//! Decisions of the scan pipeline: the point-count checks, the selection of
//! ground and obstacle points, the RANSAC bookkeeping and its random samples.

use vstd::prelude::*;

verus! {

/// `std::io::Error`, carried opaquely inside `ScanError::Io`.
#[verifier::external_type_specification]
#[verifier::external_body]
pub struct ExIoError(std::io::Error);

/// Errors that can occur during scan processing.
#[derive(Debug)]
pub enum ScanError {
    /// Invalid PLY data.
    InvalidPly(String),
    /// Too few points: `found`, need at least `needed`.
    InsufficientPoints { found: usize, needed: usize },
    /// RANSAC could not find a ground plane.
    NoGroundPlane,
    /// Mesh generation failed.
    MeshGeneration(String),
    /// Export failed.
    ExportError(String),
    /// I/O error.
    Io(std::io::Error),
}

/// Fewest points the pipeline works on: three make a plane.
pub const MIN_SCAN_POINTS: usize = 3;

/// `e` reports `found` points where `needed` are required.
pub open spec fn is_insufficient(e: ScanError, found: int, needed: int) -> bool {
    match e {
        ScanError::InsufficientPoints { found: f, needed: n } => f == found && n == needed,
        _ => false,
    }
}

/// Check that a stage has at least three points to work on.
pub fn require_points(found: usize) -> (r: Result<(), ScanError>)
    ensures
        r is Ok <==> found >= MIN_SCAN_POINTS,
        r matches Err(e) ==> is_insufficient(e, found as int, MIN_SCAN_POINTS as int),
{
    if found < MIN_SCAN_POINTS {
        Err(ScanError::InsufficientPoints { found, needed: MIN_SCAN_POINTS })
    } else {
        Ok(())
    }
}

/// Number of points the outlier filter removed (0 if it somehow grew).
pub fn outliers_removed(downsampled: usize, filtered: usize) -> (r: usize)
    ensures
        r == (if downsampled > filtered { downsampled - filtered } else { 0 }),
{
    downsampled.saturating_sub(filtered)
}

/// The items at `indices`, in the order of `indices`.
pub fn select_by_indices<T: Copy>(items: &[T], indices: &[usize]) -> (r: Vec<T>)
    requires
        forall|k: int| 0 <= k < indices@.len() ==> (#[trigger] indices@[k]) < items@.len(),
    ensures
        r@.len() == indices@.len(),
        forall|k: int| 0 <= k < indices@.len() ==> r@[k] == items@[#[trigger] indices@[k] as int],
{
    let mut r: Vec<T> = Vec::new();
    let mut k: usize = 0;
    while k < indices.len()
        invariant
            k <= indices@.len(),
            r@.len() == k,
            forall|j: int| 0 <= j < indices@.len() ==> (#[trigger] indices@[j]) < items@.len(),
            forall|j: int| 0 <= j < k ==> r@[j] == items@[#[trigger] indices@[j] as int],
        decreases indices@.len() - k,
    {
        let i = indices[k];
        r.push(items[i]);
        k = k + 1;
    }
    r
}

/// Indices `i < n` with `flags[i] == want`, in increasing order.
pub open spec fn indices_where(flags: Seq<bool>, want: bool, n: int) -> Seq<usize>
    decreases n,
{
    if n <= 0 {
        Seq::empty()
    } else {
        let before = indices_where(flags, want, n - 1);
        if flags[n - 1] == want {
            before.push((n - 1) as usize)
        } else {
            before
        }
    }
}

/// Ground and obstacle point indices: a point is ground when it lies within
/// the distance threshold of the plane (`within[i]`), an obstacle otherwise.
pub fn split_ground(within: &[bool]) -> (r: (Vec<usize>, Vec<usize>))
    ensures
        r.0@ == indices_where(within@, true, within@.len() as int),
        r.1@ == indices_where(within@, false, within@.len() as int),
{
    let mut ground: Vec<usize> = Vec::new();
    let mut obstacles: Vec<usize> = Vec::new();
    let mut i: usize = 0;
    while i < within.len()
        invariant
            i <= within@.len(),
            ground@ == indices_where(within@, true, i as int),
            obstacles@ == indices_where(within@, false, i as int),
        decreases within@.len() - i,
    {
        if within[i] {
            ground.push(i);
        } else {
            obstacles.push(i);
        }
        i = i + 1;
    }
    (ground, obstacles)
}

/// Every index is in exactly one of the two lists, and each list is
/// strictly increasing.
pub proof fn lemma_split_partitions(flags: Seq<bool>, n: int)
    requires
        0 <= n <= flags.len(),
        n <= usize::MAX + 1,
    ensures
        indices_where(flags, true, n).len() + indices_where(flags, false, n).len() == n,
        forall|i: int| 0 <= i < n ==> (flags[i] ==> indices_where(flags, true, n).contains(i as usize))
            && (!flags[i] ==> indices_where(flags, false, n).contains(i as usize)),
        forall|w: bool, a: int, b: int| 0 <= a < b < indices_where(flags, w, n).len()
            ==> indices_where(flags, w, n)[a] < indices_where(flags, w, n)[b],
        forall|w: bool, a: int| 0 <= a < indices_where(flags, w, n).len()
            ==> (indices_where(flags, w, n)[a] as int) < n && flags[indices_where(flags, w, n)[a] as int] == w,
    decreases n,
{
    if n > 0 {
        lemma_split_partitions(flags, n - 1);
        assert forall|i: int| 0 <= i < n implies (flags[i] ==> indices_where(flags, true, n).contains(i as usize))
            && (!flags[i] ==> indices_where(flags, false, n).contains(i as usize)) by {
            let w = flags[i];
            let before = indices_where(flags, w, n - 1);
            let now = indices_where(flags, w, n);
            if i < n - 1 {
                let k = choose|k: int| 0 <= k < before.len() && before[k] == i as usize;
                assert(now[k] == before[k]);
            } else {
                assert(now[now.len() - 1] == i as usize);
            }
        }
    }
}

/// Best RANSAC candidate after the first `n` iterations, as
/// `(inliers, iteration)`: an iteration replaces the best so far only with
/// strictly more inliers; `inliers[i]` is `None` for a degenerate sample.
pub open spec fn ransac_best(inliers: Seq<Option<usize>>, n: int) -> (usize, Option<usize>)
    decreases n,
{
    if n <= 0 {
        (0usize, None)
    } else {
        let best = ransac_best(inliers, n - 1);
        match inliers[n - 1] {
            Some(c) => if c > best.0 { (c, Some((n - 1) as usize)) } else { best },
            None => best,
        }
    }
}

/// The iteration whose plane RANSAC keeps: the first with the most inliers,
/// provided it has any; otherwise there is no ground plane.
pub fn best_ransac_iteration(inliers: &[Option<usize>]) -> (r: Result<usize, ScanError>)
    ensures
        ransac_best(inliers@, inliers@.len() as int).1 matches Some(i) ==> r == Ok::<usize, ScanError>(i),
        ransac_best(inliers@, inliers@.len() as int).1 is None ==> r matches Err(ScanError::NoGroundPlane),
{
    let mut best_count: usize = 0;
    let mut best: Option<usize> = None;
    let mut i: usize = 0;
    while i < inliers.len()
        invariant
            i <= inliers@.len(),
            (best_count, best) == ransac_best(inliers@, i as int),
        decreases inliers@.len() - i,
    {
        match inliers[i] {
            Some(c) => {
                if c > best_count {
                    best_count = c;
                    best = Some(i);
                }
            },
            None => {},
        }
        i = i + 1;
    }
    match best {
        Some(b) => Ok(b),
        None => Err(ScanError::NoGroundPlane),
    }
}

/// The kept iteration has the most inliers of all, strictly more than every
/// earlier one and more than zero; none is kept exactly when no sample found
/// an inlier.
pub proof fn lemma_ransac_best_is_first_max(inliers: Seq<Option<usize>>, n: int)
    requires
        0 <= n <= inliers.len(),
        n <= usize::MAX + 1,
    ensures
        ({
            let (count, best) = ransac_best(inliers, n);
            &&& best matches Some(b) ==> {
                &&& 0 <= b < n
                &&& inliers[b as int] == Some(count)
                &&& count > 0
                &&& forall|j: int| 0 <= j < n && #[trigger] inliers[j] is Some ==> inliers[j]->0 <= count
                &&& forall|j: int| 0 <= j < b && #[trigger] inliers[j] is Some ==> inliers[j]->0 < count
            }
            &&& best is None ==> count == 0 && forall|j: int| 0 <= j < n && #[trigger] inliers[j] is Some ==> inliers[j]->0 == 0
        }),
    decreases n,
{
    if n > 0 {
        lemma_ransac_best_is_first_max(inliers, n - 1);
    }
}

/// Draw three distinct point indices below `n` at random.
///
/// Calls `rand::seq::index::sample` with the thread-local generator from
/// `rand::rng()`, which returns `amount` distinct indices from `0..length`
/// and panics only when `amount > length` (excluded here). Which indices come
/// back is left open; `rand::rng()` panics if the operating system's random
/// source fails when the generator is first seeded, which no argument can rule out.
#[verifier::external_body]
fn sample_three_indices(n: usize) -> (r: [usize; 3])
    requires
        n >= 3,
    ensures
        r[0] < n && r[1] < n && r[2] < n,
        r[0] != r[1] && r[0] != r[2] && r[1] != r[2],
{
    let picked = rand::seq::index::sample(&mut rand::rng(), n, 3);
    [picked.index(0), picked.index(1), picked.index(2)]
}

/// Three distinct random indices of points to fit a candidate plane through;
/// fails as the pipeline does when there are fewer than three points.
pub fn ransac_sample(n: usize) -> (r: Result<[usize; 3], ScanError>)
    ensures
        r is Ok <==> n >= MIN_SCAN_POINTS,
        r matches Err(e) ==> is_insufficient(e, n as int, MIN_SCAN_POINTS as int),
        r matches Ok(s) ==> s[0] < n && s[1] < n && s[2] < n && s[0] != s[1] && s[0] != s[2] && s[1] != s[2],
{
    match require_points(n) {
        Err(e) => Err(e),
        Ok(()) => Ok(sample_three_indices(n)),
    }
}

/// The items among the first `n` whose mark is set, in order.
pub open spec fn kept<T>(items: Seq<T>, keep: Seq<bool>, n: int) -> Seq<T>
    decreases n,
{
    if n <= 0 {
        Seq::empty()
    } else {
        let before = kept(items, keep, n - 1);
        if keep[n - 1] {
            before.push(items[n - 1])
        } else {
            before
        }
    }
}

/// Statistical outlier removal once the mean neighbour distances are known:
/// with no more points than `k` there are too few neighbours for the
/// statistics and every point stays; otherwise the points whose mean
/// distance is within the cutoff (`within_cutoff[i]`) stay, in order.
pub fn remove_outliers_marked<T: Copy>(items: &[T], k: usize, within_cutoff: &[bool]) -> (r: Vec<T>)
    requires
        items@.len() > k ==> within_cutoff@.len() == items@.len(),
    ensures
        items@.len() <= k ==> r@ == items@,
        items@.len() > k ==> r@ == kept(items@, within_cutoff@, items@.len() as int),
{
    let all = items.len() <= k;
    let mut r: Vec<T> = Vec::new();
    let mut i: usize = 0;
    while i < items.len()
        invariant
            i <= items@.len(),
            all == (items@.len() <= k),
            !all ==> within_cutoff@.len() == items@.len(),
            all ==> r@ == items@.take(i as int),
            !all ==> r@ == kept(items@, within_cutoff@, i as int),
        decreases items@.len() - i,
    {
        if all || within_cutoff[i] {
            r.push(items[i]);
        }
        proof {
            if all {
                assert(items@.take(i as int + 1) == items@.take(i as int).push(items@[i as int]));
            }
        }
        i = i + 1;
    }
    proof {
        if all {
            assert(items@.take(items@.len() as int) == items@);
        }
    }
    r
}

/// What outlier removal keeps: exactly the items whose mark is set, in their
/// order. The kept items are `items[pos[0]], items[pos[1]], …` for positions
/// `pos` that increase, each with its mark set, and every position below `n`
/// whose mark is set is among them; an item whose mark is unset is never
/// kept on its own account.
pub proof fn kept_items_are_the_marked_ones<T>(items: Seq<T>, keep: Seq<bool>, n: int) -> (pos: Seq<int>)
    requires
        0 <= n <= items.len(),
        n <= keep.len(),
    ensures
        pos.len() == kept(items, keep, n).len(),
        forall|a: int, b: int| 0 <= a < b < pos.len() ==> pos[a] < pos[b],
        forall|m: int| 0 <= m < pos.len() ==> 0 <= #[trigger] pos[m] < n && keep[pos[m]]
            && kept(items, keep, n)[m] == items[pos[m]],
        forall|i: int| 0 <= i < n && #[trigger] keep[i] ==> pos.contains(i),
    decreases n,
{
    if n <= 0 {
        Seq::empty()
    } else {
        let before = kept_items_are_the_marked_ones(items, keep, n - 1);
        if keep[n - 1] {
            let pos = before.push(n - 1);
            assert forall|i: int| 0 <= i < n && #[trigger] keep[i] implies pos.contains(i) by {
                if i < n - 1 {
                    let m = choose|m: int| 0 <= m < before.len() && before[m] == i;
                    assert(pos[m] == i);
                } else {
                    assert(pos[pos.len() - 1] == i);
                }
            }
            assert forall|m: int| 0 <= m < pos.len() implies 0 <= #[trigger] pos[m] < n && keep[pos[m]]
                && kept(items, keep, n)[m] == items[pos[m]] by {
                if m < before.len() {
                    assert(pos[m] == before[m]);
                }
            }
            pos
        } else {
            assert forall|i: int| 0 <= i < n && #[trigger] keep[i] implies before.contains(i) by {
                assert(i != n - 1);
            }
            before
        }
    }
}

/// The number of items outlier removal keeps is the number of set marks.
pub open spec fn marked_count(keep: Seq<bool>, n: int) -> int
    decreases n,
{
    if n <= 0 { 0 } else { marked_count(keep, n - 1) + if keep[n - 1] { 1int } else { 0int } }
}

/// Outlier removal keeps one item per set mark.
pub proof fn kept_count_is_marked_count<T>(items: Seq<T>, keep: Seq<bool>, n: int)
    requires
        0 <= n <= items.len(),
        n <= keep.len(),
    ensures
        kept(items, keep, n).len() == marked_count(keep, n),
    decreases n,
{
    if n > 0 {
        kept_count_is_marked_count(items, keep, n - 1);
    }
}

} // verus!
