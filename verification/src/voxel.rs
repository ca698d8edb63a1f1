//! Voxel grouping for downsampling: points that share a voxel cell form one
//! output point, whose colour is the average of the members' colours.

use vstd::prelude::*;

verus! {

broadcast use vstd::std_specs::hash::group_hash_axioms;

/// A voxel cell: the floor of each coordinate divided by the voxel size.
pub type VoxelKey = (i32, i32, i32);

/// Offset of a signed 32-bit coordinate into `0..2^32`.
pub open spec fn key_digit(v: i32) -> int {
    v as int + 0x8000_0000
}

/// The cell as one integer: its three offset coordinates as base-2^32 digits.
pub open spec fn pack_key(k: VoxelKey) -> int {
    key_digit(k.0) * 0x1_0000_0000_0000_0000 + key_digit(k.1) * 0x1_0000_0000 + key_digit(k.2)
}

proof fn lemma_pack_key_injective(a: VoxelKey, b: VoxelKey)
    requires
        pack_key(a) == pack_key(b),
    ensures
        a == b,
{
    let (a0, a1, a2) = (key_digit(a.0), key_digit(a.1), key_digit(a.2));
    let (b0, b1, b2) = (key_digit(b.0), key_digit(b.1), key_digit(b.2));
    assert(a0 == b0 && a1 == b1 && a2 == b2) by (nonlinear_arith)
        requires
            0 <= a0 < 0x1_0000_0000,
            0 <= a1 < 0x1_0000_0000,
            0 <= a2 < 0x1_0000_0000,
            0 <= b0 < 0x1_0000_0000,
            0 <= b1 < 0x1_0000_0000,
            0 <= b2 < 0x1_0000_0000,
            a0 * 0x1_0000_0000_0000_0000 + a1 * 0x1_0000_0000 + a2 == b0 * 0x1_0000_0000_0000_0000 + b1
                * 0x1_0000_0000 + b2,
    ;
}

fn pack(k: VoxelKey) -> (r: u128)
    ensures
        r == pack_key(k),
{
    let a = (k.0 as i64 + 0x8000_0000) as u128;
    let b = (k.1 as i64 + 0x8000_0000) as u128;
    let c = (k.2 as i64 + 0x8000_0000) as u128;
    a * 0x1_0000_0000_0000_0000 + b * 0x1_0000_0000 + c
}

/// No key before position `i` equals the key at `i`.
pub open spec fn first_occurrence(keys: Seq<VoxelKey>, i: int) -> bool {
    forall|j: int| 0 <= j < i ==> keys[j] != keys[i]
}

/// Number of distinct keys among the first `n`.
pub open spec fn distinct_before(keys: Seq<VoxelKey>, n: int) -> int
    decreases n,
{
    if n <= 0 {
        0
    } else {
        distinct_before(keys, n - 1) + if first_occurrence(keys, n - 1) { 1int } else { 0int }
    }
}

proof fn lemma_distinct_before_bound(keys: Seq<VoxelKey>, n: int)
    requires
        0 <= n,
    ensures
        0 <= distinct_before(keys, n) <= n,
    decreases n,
{
    if n > 0 {
        lemma_distinct_before_bound(keys, n - 1);
    }
}

/// Voxel cell of every point, numbered by first appearance: `labels[i]`
/// is the cell of point `i`; two points share a label exactly when they
/// share a cell, and the cell first met at point `i` gets the number of
/// distinct cells met before it. `count` is the number of cells.
pub fn voxel_labels(keys: &[VoxelKey]) -> (r: (Vec<usize>, usize))
    ensures
        r.0@.len() == keys@.len(),
        r.1 == distinct_before(keys@, keys@.len() as int),
        forall|i: int| 0 <= i < keys@.len() ==> (#[trigger] r.0@[i]) < r.1,
        forall|i: int, j: int| 0 <= i < keys@.len() && 0 <= j < keys@.len() ==>
            ((#[trigger] r.0@[i] == #[trigger] r.0@[j]) <==> keys@[i] == keys@[j]),
        forall|i: int| 0 <= i < keys@.len() && #[trigger] first_occurrence(keys@, i) ==> r.0@[i] == distinct_before(keys@, i),
{
    let mut cells: std::collections::HashMap<u128, usize> = std::collections::HashMap::new();
    let mut labels: Vec<usize> = Vec::new();
    let mut count: usize = 0;
    let mut i: usize = 0;
    while i < keys.len()
        invariant
            i <= keys@.len(),
            labels@.len() == i,
            count == distinct_before(keys@, i as int),
            forall|j: int| 0 <= j < i ==> (#[trigger] labels@[j]) < count,
            forall|j: int, l: int| 0 <= j < i && 0 <= l < i ==>
                ((#[trigger] labels@[j] == #[trigger] labels@[l]) <==> keys@[j] == keys@[l]),
            forall|j: int| 0 <= j < i && #[trigger] first_occurrence(keys@, j) ==> labels@[j] == distinct_before(keys@, j),
            forall|j: int| 0 <= j < i ==> cells@.contains_key(#[trigger] pack_key(keys@[j]) as u128)
                && cells@[pack_key(keys@[j]) as u128] == labels@[j],
            forall|k: u128| #[trigger] cells@.contains_key(k) ==> exists|j: int| 0 <= j < i && pack_key(keys@[j]) == k,
        decreases keys@.len() - i,
    {
        proof {
            lemma_distinct_before_bound(keys@, i as int);
        }
        let k = pack(keys[i]);
        let ghost before = labels@;
        match cells.get(&k) {
            Some(g) => {
                let g = *g;
                let ghost w = choose|j: int| 0 <= j < i && pack_key(keys@[j]) == k;
                proof {
                    lemma_pack_key_injective(keys@[w], keys@[i as int]);
                    assert(cells@[pack_key(keys@[w]) as u128] == labels@[w]);
                    assert(!first_occurrence(keys@, i as int));
                    assert(distinct_before(keys@, i as int + 1) == count);
                }
                labels.push(g);
                proof {
                    assert forall|j: int, l: int| 0 <= j < i + 1 && 0 <= l < i + 1 implies
                        ((#[trigger] labels@[j] == #[trigger] labels@[l]) <==> keys@[j] == keys@[l]) by {
                        if j == i as int || l == i as int {
                            assert(labels@[i as int] == labels@[w]);
                        }
                    }
                }
            },
            None => {
                proof {
                    assert forall|j: int| 0 <= j < i implies keys@[j] != keys@[i as int] by {
                        if keys@[j] == keys@[i as int] {
                            assert(cells@.contains_key(pack_key(keys@[j]) as u128));
                        }
                    }
                    assert(first_occurrence(keys@, i as int));
                    assert(distinct_before(keys@, i as int + 1) == count + 1);
                }
                cells.insert(k, count);
                labels.push(count);
                count = count + 1;
                proof {
                    assert forall|j: int, l: int| 0 <= j < i + 1 && 0 <= l < i + 1 implies
                        ((#[trigger] labels@[j] == #[trigger] labels@[l]) <==> keys@[j] == keys@[l]) by {
                        if j < i && l < i {
                            assert(labels@[j] == before[j] && labels@[l] == before[l]);
                        }
                    }
                    assert forall|j: int| 0 <= j < i + 1 implies cells@.contains_key(#[trigger] pack_key(keys@[j]) as u128)
                        && cells@[pack_key(keys@[j]) as u128] == labels@[j] by {
                        if j < i {
                            assert(labels@[j] == before[j]);
                            if pack_key(keys@[j]) as u128 == k {
                                lemma_pack_key_injective(keys@[j], keys@[i as int]);
                            }
                        }
                    }
                    assert forall|kk: u128| #[trigger] cells@.contains_key(kk) implies exists|j: int| 0 <= j < i + 1 && pack_key(keys@[j]) == kk by {
                        if kk == k {
                            assert(pack_key(keys@[i as int]) == kk);
                        }
                    }
                }
            },
        }
        i = i + 1;
    }
    (labels, count)
}

/// Sum of colour channel `ch` over the first `n` points of cell `g` that
/// have a colour.
pub open spec fn channel_sum(colors: Seq<Option<[u8; 3]>>, labels: Seq<usize>, g: int, ch: int, n: int) -> int
    decreases n,
{
    if n <= 0 {
        0
    } else {
        channel_sum(colors, labels, g, ch, n - 1) + match colors[n - 1] {
            Some(c) => if labels[n - 1] == g { c[ch] as int } else { 0int },
            None => 0int,
        }
    }
}

/// Number of the first `n` points of cell `g` that have a colour.
pub open spec fn colored_count(colors: Seq<Option<[u8; 3]>>, labels: Seq<usize>, g: int, n: int) -> int
    decreases n,
{
    if n <= 0 {
        0
    } else {
        colored_count(colors, labels, g, n - 1) + if colors[n - 1] is Some && labels[n - 1] == g { 1int } else { 0int }
    }
}

proof fn lemma_channel_sum_bound(colors: Seq<Option<[u8; 3]>>, labels: Seq<usize>, g: int, ch: int, n: int)
    requires
        0 <= n,
        0 <= ch < 3,
    ensures
        0 <= channel_sum(colors, labels, g, ch, n) <= 255 * colored_count(colors, labels, g, n),
        0 <= colored_count(colors, labels, g, n) <= n,
    decreases n,
{
    if n > 0 {
        lemma_channel_sum_bound(colors, labels, g, ch, n - 1);
    }
}

/// Average colour of cell `g`: each channel's sum over the coloured members
/// divided by their number (rounded down), or none when no member has one.
pub open spec fn cell_color(colors: Seq<Option<[u8; 3]>>, labels: Seq<usize>, g: int) -> Option<[u8; 3]> {
    let n = colors.len() as int;
    let cnt = colored_count(colors, labels, g, n);
    if cnt > 0 {
        Some([
            (channel_sum(colors, labels, g, 0, n) / cnt) as u8,
            (channel_sum(colors, labels, g, 1, n) / cnt) as u8,
            (channel_sum(colors, labels, g, 2, n) / cnt) as u8,
        ])
    } else {
        None
    }
}

/// The average colour of every cell, by cell number.
pub fn cell_colors(colors: &[Option<[u8; 3]>], labels: &[usize], count: usize) -> (r: Vec<Option<[u8; 3]>>)
    requires
        labels@.len() == colors@.len(),
        forall|i: int| 0 <= i < labels@.len() ==> (#[trigger] labels@[i]) < count,
    ensures
        r@.len() == count,
        forall|g: int| 0 <= g < count ==> #[trigger] r@[g] == cell_color(colors@, labels@, g),
{
    let n = colors.len();
    let mut sums: Vec<[u128; 3]> = Vec::new();
    let mut counts: Vec<u128> = Vec::new();
    let mut g: usize = 0;
    while g < count
        invariant
            g <= count,
            sums@.len() == g,
            counts@.len() == g,
            forall|h: int| 0 <= h < g ==> (#[trigger] sums@[h])[0] == 0 && sums@[h][1] == 0 && sums@[h][2] == 0 && counts@[h] == 0,
        decreases count - g,
    {
        sums.push([0, 0, 0]);
        counts.push(0);
        g = g + 1;
    }
    proof {
        assert forall|h: int| 0 <= h < count implies sums@[h][0] == channel_sum(colors@, labels@, h, 0, 0)
            && sums@[h][1] == channel_sum(colors@, labels@, h, 1, 0)
            && sums@[h][2] == channel_sum(colors@, labels@, h, 2, 0)
            && counts@[h] == colored_count(colors@, labels@, h, 0) by {
            assert(sums@[h][0] == 0);
        }
    }
    let mut i: usize = 0;
    while i < n
        invariant
            n == colors@.len() == labels@.len(),
            i <= n,
            sums@.len() == count,
            counts@.len() == count,
            forall|j: int| 0 <= j < labels@.len() ==> (#[trigger] labels@[j]) < count,
            forall|h: int| #![trigger counts@[h]] #![trigger sums@[h]] 0 <= h < count ==> {
                &&& counts@[h] == colored_count(colors@, labels@, h, i as int)
                &&& sums@[h][0] == channel_sum(colors@, labels@, h, 0, i as int)
                &&& sums@[h][1] == channel_sum(colors@, labels@, h, 1, i as int)
                &&& sums@[h][2] == channel_sum(colors@, labels@, h, 2, i as int)
            },
        decreases n - i,
    {
        proof {
            let h = labels@[i as int] as int;
            lemma_channel_sum_bound(colors@, labels@, h, 0, i as int);
            lemma_channel_sum_bound(colors@, labels@, h, 1, i as int);
            lemma_channel_sum_bound(colors@, labels@, h, 2, i as int);
            assert(channel_sum(colors@, labels@, h, 0, i as int) <= 255 * (i as int));
            assert(channel_sum(colors@, labels@, h, 1, i as int) <= 255 * (i as int));
            assert(channel_sum(colors@, labels@, h, 2, i as int) <= 255 * (i as int));
        }
        match colors[i] {
            Some(c) => {
                let h = labels[i];
                let s = sums[h];
                sums.set(h, [s[0] + c[0] as u128, s[1] + c[1] as u128, s[2] + c[2] as u128]);
                let k = counts[h];
                counts.set(h, k + 1);
            },
            None => {},
        }
        i = i + 1;
    }
    let mut r: Vec<Option<[u8; 3]>> = Vec::new();
    let mut g: usize = 0;
    while g < count
        invariant
            g <= count,
            n == colors@.len() == labels@.len(),
            sums@.len() == count,
            counts@.len() == count,
            r@.len() == g,
            forall|h: int| #![trigger counts@[h]] #![trigger sums@[h]] 0 <= h < count ==> {
                &&& counts@[h] == colored_count(colors@, labels@, h, n as int)
                &&& sums@[h][0] == channel_sum(colors@, labels@, h, 0, n as int)
                &&& sums@[h][1] == channel_sum(colors@, labels@, h, 1, n as int)
                &&& sums@[h][2] == channel_sum(colors@, labels@, h, 2, n as int)
            },
            forall|h: int| 0 <= h < g ==> #[trigger] r@[h] == cell_color(colors@, labels@, h),
        decreases count - g,
    {
        let k = counts[g];
        let s = sums[g];
        if k > 0 {
            proof {
                let h = g as int;
                lemma_channel_sum_bound(colors@, labels@, h, 0, n as int);
                lemma_channel_sum_bound(colors@, labels@, h, 1, n as int);
                lemma_channel_sum_bound(colors@, labels@, h, 2, n as int);
                assert forall|ch: int| 0 <= ch < 3 implies #[trigger] channel_sum(colors@, labels@, h, ch, n as int) / (k as int) <= 255 by {
                    lemma_channel_sum_bound(colors@, labels@, h, ch, n as int);
                    let sm = channel_sum(colors@, labels@, h, ch, n as int);
                    assert(sm / (k as int) <= 255) by (nonlinear_arith)
                        requires
                            0 <= sm <= 255 * (k as int),
                            k > 0,
                    ;
                }
                assert(channel_sum(colors@, labels@, h, 0, n as int) / (k as int) <= 255);
                assert(channel_sum(colors@, labels@, h, 1, n as int) / (k as int) <= 255);
                assert(channel_sum(colors@, labels@, h, 2, n as int) / (k as int) <= 255);
            }
            r.push(Some([(s[0] / k) as u8, (s[1] / k) as u8, (s[2] / k) as u8]));
        } else {
            r.push(None);
        }
        g = g + 1;
    }
    r
}

} // verus!
