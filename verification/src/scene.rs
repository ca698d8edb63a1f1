//! Scene generation plan: which zone is built with which material, and the
//! material lookup that fails the whole scene.

use vstd::prelude::*;

verus! {

/// Position of the first entry of `s` equal to `x`.
pub open spec fn first_index(s: Seq<u128>, x: u128) -> Option<int>
    decreases s.len(),
{
    if s.len() == 0 {
        None
    } else {
        match first_index(s.drop_last(), x) {
            Some(i) => Some(i),
            None => if s.last() == x { Some(s.len() - 1) } else { None },
        }
    }
}

/// The zones to build and the failure, for the assignments taken in order:
/// an assignment whose material is not in the catalog fails the scene, and no
/// later assignment is looked at; otherwise one whose zone is unknown is
/// skipped.
pub open spec fn scene_plan(zones: Seq<u128>, materials: Seq<u128>, assignments: Seq<(u128, u128)>)
    -> (Seq<(int, int)>, Option<(u128, u128)>)
    decreases assignments.len(),
{
    if assignments.len() == 0 {
        (Seq::empty(), None)
    } else {
        let (steps, missing) = scene_plan(zones, materials, assignments.drop_last());
        let a = assignments.last();
        if missing is Some {
            (steps, missing)
        } else {
            match first_index(materials, a.1) {
                None => (steps, Some(a)),
                Some(mi) => match first_index(zones, a.0) {
                    None => (steps, None),
                    Some(zi) => (steps.push((zi, mi)), None),
                },
            }
        }
    }
}

/// Zones to build, each with the material assigned to it.
#[derive(Debug, Clone)]
pub struct ScenePlan {
    /// `(zone index, material index)` for each zone mesh, in assignment order.
    pub steps: Vec<(usize, usize)>,
    /// `(zone id, material id)` of the first assignment whose material is not
    /// in the catalog.
    pub missing_material: Option<(u128, u128)>,
}

fn find_first(ids: &Vec<u128>, x: u128) -> (r: Option<usize>)
    ensures
        match r {
            Some(i) => first_index(ids@, x) == Some(i as int),
            None => first_index(ids@, x) is None,
        },
{
    let mut i: usize = 0;
    while i < ids.len()
        invariant
            i <= ids@.len(),
            first_index(ids@.take(i as int), x) is None,
        decreases ids@.len() - i,
    {
        proof {
            assert(ids@.take(i + 1).drop_last() =~= ids@.take(i as int));
        }
        if ids[i] == x {
            proof {
                lemma_first_index_prefix(ids@, i as int + 1, x);
            }
            return Some(i);
        }
        i = i + 1;
    }
    proof {
        assert(ids@.take(ids@.len() as int) =~= ids@);
    }
    None
}

proof fn lemma_first_index_prefix(s: Seq<u128>, n: int, x: u128)
    requires
        0 <= n <= s.len(),
        first_index(s.take(n), x) is Some,
    ensures
        first_index(s, x) == first_index(s.take(n), x),
    decreases s.len(),
{
    if n < s.len() {
        assert(s.drop_last().take(n) =~= s.take(n));
        lemma_first_index_prefix(s.drop_last(), n, x);
    } else {
        assert(s.take(n) =~= s);
    }
}

/// Plan a scene: each assignment in turn names a zone (by id) and a material
/// (by id) to build it with.
pub fn plan_scene(zone_ids: &Vec<u128>, assignments: &Vec<(u128, u128)>, material_ids: &Vec<u128>) -> (p: ScenePlan)
    ensures
        ({
            let (steps, missing) = scene_plan(zone_ids@, material_ids@, assignments@);
            &&& p.steps@.len() == steps.len()
            &&& forall|k: int| 0 <= k < steps.len() ==>
                (#[trigger] p.steps@[k]).0 as int == steps[k].0 && p.steps@[k].1 as int == steps[k].1
            &&& p.missing_material == missing
        }),
{
    let mut steps: Vec<(usize, usize)> = Vec::new();
    let mut k: usize = 0;
    while k < assignments.len()
        invariant
            k <= assignments@.len(),
            scene_plan(zone_ids@, material_ids@, assignments@.take(k as int)).1 is None,
            steps@.len() == scene_plan(zone_ids@, material_ids@, assignments@.take(k as int)).0.len(),
            forall|q: int| 0 <= q < steps@.len() ==>
                (#[trigger] steps@[q]).0 as int == scene_plan(zone_ids@, material_ids@, assignments@.take(k as int)).0[q].0
                && steps@[q].1 as int == scene_plan(zone_ids@, material_ids@, assignments@.take(k as int)).0[q].1,
        decreases assignments@.len() - k,
    {
        let (zone_id, material_id) = assignments[k];
        proof {
            assert(assignments@.take(k + 1).drop_last() =~= assignments@.take(k as int));
        }
        match find_first(material_ids, material_id) {
            None => {
                proof {
                    lemma_plan_stops(zone_ids@, material_ids@, assignments@, k as int + 1);
                    assert(assignments@.take(assignments@.len() as int) =~= assignments@);
                }
                return ScenePlan { steps, missing_material: Some((zone_id, material_id)) };
            },
            Some(mi) => match find_first(zone_ids, zone_id) {
                None => {},
                Some(zi) => {
                    steps.push((zi, mi));
                },
            },
        }
        k = k + 1;
    }
    proof {
        assert(assignments@.take(assignments@.len() as int) =~= assignments@);
    }
    ScenePlan { steps, missing_material: None }
}

/// Once a material lookup failed, later assignments change nothing.
proof fn lemma_plan_stops(zones: Seq<u128>, materials: Seq<u128>, a: Seq<(u128, u128)>, n: int)
    requires
        0 <= n <= a.len(),
        scene_plan(zones, materials, a.take(n)).1 is Some,
    ensures
        scene_plan(zones, materials, a) == scene_plan(zones, materials, a.take(n)),
    decreases a.len(),
{
    if n < a.len() {
        assert(a.drop_last().take(n) =~= a.take(n));
        lemma_plan_stops(zones, materials, a.drop_last(), n);
    } else {
        assert(a.take(n) =~= a);
    }
}

/// A scene fails exactly when some assignment names a material that is not in
/// the catalog, whether or not its zone exists; the failure reported is the
/// first such assignment.
pub proof fn scene_fails_iff_unknown_material(zones: Seq<u128>, materials: Seq<u128>, a: Seq<(u128, u128)>)
    ensures
        scene_plan(zones, materials, a).1 is Some <==>
            exists|i: int| 0 <= i < a.len() && (#[trigger] first_index(materials, a[i].1)) is None,
        scene_plan(zones, materials, a).1 matches Some(x) ==> exists|i: int| {
            &&& 0 <= i < a.len()
            &&& a[i] == x
            &&& (#[trigger] first_index(materials, a[i].1)) is None
            &&& forall|j: int| 0 <= j < i ==> (#[trigger] first_index(materials, a[j].1)) is Some
        },
    decreases a.len(),
{
    if a.len() > 0 {
        let p = a.drop_last();
        scene_fails_iff_unknown_material(zones, materials, p);
        assert forall|i: int| 0 <= i < p.len() implies #[trigger] p[i] == a[i] by {}
        if scene_plan(zones, materials, p).1 is Some {
            let x = scene_plan(zones, materials, p).1->0;
            let i = choose|i: int| {
                &&& 0 <= i < p.len()
                &&& p[i] == x
                &&& (#[trigger] first_index(materials, p[i].1)) is None
                &&& forall|j: int| 0 <= j < i ==> (#[trigger] first_index(materials, p[j].1)) is Some
            };
            assert(a[i] == p[i]);
            assert forall|j: int| 0 <= j < i implies (#[trigger] first_index(materials, a[j].1)) is Some by {
                assert(a[j] == p[j]);
            }
        } else {
            assert forall|j: int| 0 <= j < p.len() implies (#[trigger] first_index(materials, a[j].1)) is Some by {
                assert(a[j] == p[j]);
                if first_index(materials, p[j].1) is None {
                    assert(exists|i: int| 0 <= i < p.len() && (#[trigger] first_index(materials, p[i].1)) is None);
                }
            }
            let n = a.len() - 1;
            assert(a[n] == a.last());
            if first_index(materials, a.last().1) is None {
                assert(first_index(materials, a[n].1) is None);
            } else {
                assert forall|i: int| 0 <= i < a.len() implies (#[trigger] first_index(materials, a[i].1)) is Some by {
                    if i < n {
                    } else {
                        assert(a[i] == a.last());
                    }
                }
            }
        }
    }
}

/// `first_index` finds the first occurrence: the entry there is `x` and no
/// earlier entry is; `None` means `x` does not occur.
pub proof fn first_index_is_first_occurrence(s: Seq<u128>, x: u128)
    ensures
        first_index(s, x) matches Some(i) ==> 0 <= i < s.len() && s[i] == x && forall|j: int| 0 <= j < i ==> s[j] != x,
        first_index(s, x) is None ==> forall|j: int| 0 <= j < s.len() ==> s[j] != x,
    decreases s.len(),
{
    if s.len() > 0 {
        let d = s.drop_last();
        first_index_is_first_occurrence(d, x);
        assert forall|j: int| 0 <= j < d.len() implies #[trigger] d[j] == s[j] by {}
        match first_index(d, x) {
            Some(i) => {
                assert(first_index(s, x) == Some(i));
                assert(s[i] == d[i]);
                assert forall|j: int| 0 <= j < i implies s[j] != x by {
                    assert(d[j] == s[j]);
                }
            },
            None => {
                assert forall|j: int| 0 <= j < d.len() implies s[j] != x by {
                    assert(d[j] == s[j]);
                }
                if s.last() != x {
                    assert forall|j: int| 0 <= j < s.len() implies s[j] != x by {
                        if j < d.len() {
                            assert(d[j] == s[j]);
                        }
                    }
                }
            },
        }
    }
}

/// The zones a scene builds: one step per assignment, in assignment order,
/// for every assignment whose zone exists and that comes before the first
/// assignment with a missing material (with one only when its own material
/// and all earlier ones exist). Step `q` comes from assignment `pos[q]` and
/// builds its zone's first index with its material's first index; assignments
/// that reuse a zone or a material still get their own step.
pub proof fn scene_steps_follow_assignments(zones: Seq<u128>, materials: Seq<u128>, a: Seq<(u128, u128)>) -> (pos: Seq<int>)
    ensures
        pos.len() == scene_plan(zones, materials, a).0.len(),
        forall|p: int, q: int| 0 <= p < q < pos.len() ==> pos[p] < pos[q],
        forall|q: int| 0 <= q < pos.len() ==> {
            &&& 0 <= #[trigger] pos[q] < a.len()
            &&& first_index(zones, a[pos[q]].0) is Some
            &&& forall|j: int| 0 <= j <= pos[q] ==> first_index(materials, #[trigger] a[j].1) is Some
            &&& scene_plan(zones, materials, a).0[q]
                == (first_index(zones, a[pos[q]].0)->0, first_index(materials, a[pos[q]].1)->0)
        },
        forall|i: int| 0 <= i < a.len() && first_index(zones, #[trigger] a[i].0) is Some
            && (forall|j: int| 0 <= j <= i ==> first_index(materials, #[trigger] a[j].1) is Some)
            ==> pos.contains(i),
    decreases a.len(),
{
    if a.len() == 0 {
        Seq::empty()
    } else {
        let p = a.drop_last();
        let n = a.len() - 1;
        let before = scene_steps_follow_assignments(zones, materials, p);
        assert forall|i: int| 0 <= i < p.len() implies #[trigger] p[i] == a[i] by {}
        let plan0 = scene_plan(zones, materials, p);
        let last = a.last();
        assert(a[n] == last);
        if plan0.1 is Some {
            scene_fails_iff_unknown_material(zones, materials, p);
            let w = choose|w: int| 0 <= w < p.len() && (#[trigger] first_index(materials, p[w].1)) is None;
            assert(a[w] == p[w]);
            assert forall|q: int| 0 <= q < before.len() implies {
                &&& 0 <= #[trigger] before[q] < a.len()
                &&& first_index(zones, a[before[q]].0) is Some
                &&& forall|j: int| 0 <= j <= before[q] ==> first_index(materials, #[trigger] a[j].1) is Some
                &&& scene_plan(zones, materials, a).0[q]
                    == (first_index(zones, a[before[q]].0)->0, first_index(materials, a[before[q]].1)->0)
            } by {
                assert(a[before[q]] == p[before[q]]);
                assert forall|j: int| 0 <= j <= before[q] implies first_index(materials, #[trigger] a[j].1) is Some by {
                    assert(a[j] == p[j]);
                    assert(first_index(materials, p[j].1) is Some);
                }
            }
            assert forall|i: int| 0 <= i < a.len() && first_index(zones, #[trigger] a[i].0) is Some
                && (forall|j: int| 0 <= j <= i ==> first_index(materials, #[trigger] a[j].1) is Some)
                implies before.contains(i) by {
                if i == n {
                    assert(first_index(materials, a[w].1) is Some);
                } else {
                    assert(a[i] == p[i]);
                    assert forall|j: int| 0 <= j <= i implies first_index(materials, #[trigger] p[j].1) is Some by {
                        assert(a[j] == p[j]);
                        assert(first_index(materials, a[j].1) is Some);
                    }
                }
            }
            before
        } else {
            scene_fails_iff_unknown_material(zones, materials, p);
            assert forall|j: int| 0 <= j < n implies first_index(materials, #[trigger] a[j].1) is Some by {
                assert(a[j] == p[j]);
                if first_index(materials, p[j].1) is None {
                    assert(exists|w: int| 0 <= w < p.len() && (#[trigger] first_index(materials, p[w].1)) is None);
                }
            }
            let grows = first_index(materials, last.1) is Some && first_index(zones, last.0) is Some;
            let pos = if grows { before.push(n) } else { before };
            assert forall|q: int| 0 <= q < before.len() implies {
                &&& 0 <= #[trigger] pos[q] < a.len()
                &&& first_index(zones, a[pos[q]].0) is Some
                &&& forall|j: int| 0 <= j <= pos[q] ==> first_index(materials, #[trigger] a[j].1) is Some
                &&& scene_plan(zones, materials, a).0[q]
                    == (first_index(zones, a[pos[q]].0)->0, first_index(materials, a[pos[q]].1)->0)
            } by {
                assert(pos[q] == before[q]);
                assert(a[before[q]] == p[before[q]]);
            }
            if grows {
                assert(pos[before.len() as int] == n);
                assert forall|j: int| 0 <= j <= n implies first_index(materials, #[trigger] a[j].1) is Some by {
                    if j == n {
                        assert(a[j] == last);
                    }
                }
            }
            assert forall|i: int| 0 <= i < a.len() && first_index(zones, #[trigger] a[i].0) is Some
                && (forall|j: int| 0 <= j <= i ==> first_index(materials, #[trigger] a[j].1) is Some)
                implies pos.contains(i) by {
                if i == n {
                    assert(first_index(materials, a[n].1) is Some);
                    assert(grows);
                    assert(pos[pos.len() - 1] == i);
                } else {
                    assert(a[i] == p[i]);
                    assert forall|j: int| 0 <= j <= i implies first_index(materials, #[trigger] p[j].1) is Some by {
                        assert(a[j] == p[j]);
                        assert(first_index(materials, a[j].1) is Some);
                    }
                    assert(before.contains(i));
                    let m = choose|m: int| 0 <= m < before.len() && before[m] == i;
                    assert(pos[m] == i);
                }
            }
            pos
        }
    }
}

} // verus!
