use vstd::prelude::*;

use itertools::Itertools;

use crate::fleet::{first_hit_from, position_from, FleetTag, Order};
use crate::side::Side;

verus! {

/// A mouse button, as the event source reports it.
#[derive(Clone, Copy, Debug, PartialEq, Eq, Structural)]
pub enum MouseButton {
    Unknown,
    Left,
    Middle,
    Right,
    X1,
    X2,
}

/// An input event, with what the scene reads of it: the button and the
/// point of a mouse click.
#[derive(Clone, Copy, Debug, PartialEq, Eq, Structural)]
pub enum Event {
    MouseButtonDown { mouse_btn: MouseButton, x: i32, y: i32 },
    MouseButtonUp { mouse_btn: MouseButton, x: i32, y: i32 },
    Other,
}

/// How the scene answered an event.
#[derive(Clone, Copy, Debug, PartialEq, Eq, Structural)]
pub enum Reaction {
    /// Nothing took the event.
    Ignored,
    /// The event was used (a fleet took a target, or a fleet was selected).
    Handled,
    /// Fleet `fleet` (a position) is to head for the point `(x, y)`.
    MoveFleet { fleet: usize, x: i32, y: i32 },
}

/// The fleets of the battle, their sides, the groups they were last put
/// in, and the fleet the player has selected (by number).
#[derive(Debug)]
pub struct Scene {
    pub fleets: Vec<FleetTag>,
    pub groups: Vec<Group>,
    pub sides: Vec<Side>,
    pub selected: Option<u64>,
}

/// A run of neighbouring fleets of one side that fight together.
#[derive(Debug)]
pub struct Group {
    pub id: usize,
    /// The numbers of the group's fleets.
    pub fleets: Vec<u64>,
    pub side: Side,
}

pub open spec fn fleet_ids(fleets: Seq<FleetTag>) -> Seq<u64> {
    fleets.map_values(|f: FleetTag| f.id)
}

pub open spec fn fleet_sides(fleets: Seq<FleetTag>) -> Seq<u64> {
    fleets.map_values(|f: FleetTag| f.side.id)
}

pub open spec fn fleet_groups(fleets: Seq<FleetTag>) -> Seq<usize> {
    fleets.map_values(|f: FleetTag| f.group)
}

impl Group {
    /// A group of the given fleets, on the side of the first of them.
    pub fn new(id: usize, fleets: Vec<FleetTag>) -> (g: Group)
        requires
            fleets.len() > 0,
        ensures
            g.id == id,
            g.fleets@ == fleet_ids(fleets@),
            g.side == fleets@[0].side,
    {
        let side = fleets[0].side.clone();
        let mut ids: Vec<u64> = Vec::new();
        for i in 0..fleets.len()
            invariant
                ids@ == fleet_ids(fleets@).take(i as int),
        {
            ids.push(fleets[i].id);
            assert(ids@ =~= fleet_ids(fleets@).take(i + 1));
        }
        assert(ids@ =~= fleet_ids(fleets@));
        Group { id: id, fleets: ids, side: side }
    }
}

// ---------------------------------------------------------------------
// Runs of equal keys
// ---------------------------------------------------------------------

/// `runs` cuts the positions `0 .. keys.len()` into runs of neighbours:
/// each run is a non-empty stretch of consecutive positions, the runs
/// follow each other without gap from the first position to the last,
/// every position of a run has the run's key, and two runs that follow
/// each other have different keys.
pub open spec fn is_run_split(keys: Seq<usize>, runs: Seq<(usize, Seq<usize>)>) -> bool {
    &&& (keys.len() == 0 <==> runs.len() == 0)
    &&& forall|t: int| 0 <= t < runs.len() ==> #[trigger] runs[t].1.len() > 0
    &&& forall|t: int, u: int|
        0 <= t < runs.len() && 0 <= u < runs[t].1.len() ==> #[trigger] runs[t].1[u] == runs[t].1[0] + u
    &&& forall|t: int, u: int|
        0 <= t < runs.len() && 0 <= u < runs[t].1.len() ==> #[trigger] runs[t].1[u] < keys.len()
    &&& runs.len() > 0 ==> runs[0].1[0] == 0
    &&& runs.len() > 0 ==> runs.last().1.last() == keys.len() - 1
    &&& forall|t: int|
        0 <= t < runs.len() - 1 ==> #[trigger] runs[t + 1].1[0] == runs[t].1.last() + 1
    &&& forall|t: int, u: int|
        0 <= t < runs.len() && 0 <= u < runs[t].1.len() ==> keys[#[trigger] runs[t].1[u] as int]
            == runs[t].0
    &&& forall|t: int| 0 <= t < runs.len() - 1 ==> #[trigger] runs[t].0 != runs[t + 1].0
}

pub open spec fn runs_view(runs: Seq<(usize, Vec<usize>)>) -> Seq<(usize, Seq<usize>)> {
    runs.map_values(|r: (usize, Vec<usize>)| (r.0, r.1@))
}

/// itertools' `Itertools::group_by` over the fleets, keyed by their group,
/// each group's members taken by position: the documentation promises
/// that consecutive elements with the same key ("runs") form one group,
/// in the order of the iteration.
#[verifier::external_body]
fn group_runs(fleets: &Vec<FleetTag>) -> (runs: Vec<(usize, Vec<usize>)>)
    ensures
        is_run_split(fleet_groups(fleets@), runs_view(runs@)),
{
    fleets.iter().enumerate().group_by(|p| p.1.group).into_iter().map(
        |(k, g)| (k, g.map(|p| p.0).collect()),
    ).collect()
}

// ---------------------------------------------------------------------
// Group assignment
// ---------------------------------------------------------------------

/// Whether fleets `f` and `o` are close (as the caller measured) and of
/// the same side.
pub open spec fn linked(sides: Seq<u64>, near: Seq<Seq<bool>>, f: int, o: int) -> bool {
    near[f][o] && sides[f] == sides[o]
}

/// One step of the group assignment, for fleet `f` looking at fleet `o`,
/// on the group numbers `st.0` with `st.1` the next unused number.
/// A fleet does not look at itself.
pub open spec fn pair_step(
    st: (Seq<usize>, int),
    ids: Seq<u64>,
    sides: Seq<u64>,
    near: Seq<Seq<bool>>,
    f: int,
    o: int,
) -> (Seq<usize>, int) {
    let g = st.0;
    let next: int = st.1;
    if ids[f] == ids[o] {
        st
    } else if linked(sides, near, f, o) {
        if g[f] == 0 && g[o] == 0 {
            (g.update(f, next as usize).update(o, next as usize), next + 1)
        } else if g[f] == 0 {
            (g.update(f, g[o]), next)
        } else {
            (g.update(o, g[f]), next)
        }
    } else {
        if g[f] == 0 {
            (g.update(f, next as usize), next + 1)
        } else if g[o] == 0 {
            (g.update(o, next as usize), next + 1)
        } else {
            st
        }
    }
}

/// The steps of fleet `f` looking at fleets `0 .. k`, in order.
pub open spec fn row_steps(
    st: (Seq<usize>, int),
    ids: Seq<u64>,
    sides: Seq<u64>,
    near: Seq<Seq<bool>>,
    f: int,
    k: int,
) -> (Seq<usize>, int)
    decreases k,
{
    if k <= 0 {
        st
    } else {
        pair_step(row_steps(st, ids, sides, near, f, k - 1), ids, sides, near, f, k - 1)
    }
}

/// The group numbers (and the next unused number) once fleets `0 .. k`
/// have each looked at every fleet, starting from no fleet in a group and
/// 1 as the first number.
pub open spec fn grouping(ids: Seq<u64>, sides: Seq<u64>, near: Seq<Seq<bool>>, k: int) -> (
    Seq<usize>,
    int,
)
    decreases k,
{
    if k <= 0 {
        (Seq::new(ids.len(), |i: int| 0usize), 1)
    } else {
        row_steps(grouping(ids, sides, near, k - 1), ids, sides, near, k - 1, ids.len() as int)
    }
}

/// The group numbers that fleets with numbers `ids`, sides numbered `sides`
/// and closeness `near` end up with.
pub open spec fn assigned_groups(ids: Seq<u64>, sides: Seq<u64>, near: Seq<Seq<bool>>) -> Seq<usize> {
    grouping(ids, sides, near, ids.len() as int).0
}

/// `near` is an `n` by `n` table.
pub open spec fn is_square(near: Seq<Seq<bool>>, n: int) -> bool {
    near.len() == n && forall|i: int| 0 <= i < n ==> #[trigger] near[i].len() == n
}

pub open spec fn table_view(near: Seq<Vec<bool>>) -> Seq<Seq<bool>> {
    near.map_values(|r: Vec<bool>| r@)
}

/// How many of the first `k` numbers of `s` are not 0.
pub open spec fn nonzero_count(s: Seq<usize>, k: int) -> int
    decreases k,
{
    if k <= 0 {
        0
    } else {
        nonzero_count(s, k - 1) + if s[k - 1] != 0 {
            1int
        } else {
            0int
        }
    }
}

proof fn lemma_count_update(s: Seq<usize>, j: int, v: usize, k: int)
    requires
        0 <= j < s.len(),
        0 <= k <= s.len(),
    ensures
        nonzero_count(s.update(j, v), k) == nonzero_count(s, k) - (if j < k && s[j] != 0 {
            1int
        } else {
            0int
        }) + (if j < k && v != 0 {
            1int
        } else {
            0int
        }),
    decreases k,
{
    if k > 0 {
        lemma_count_update(s, j, v, k - 1);
    }
}

proof fn lemma_count_bound(s: Seq<usize>, k: int)
    requires
        0 <= k <= s.len(),
    ensures
        0 <= nonzero_count(s, k) <= k,
        (exists|j: int| 0 <= j < k && s[j] == 0) ==> nonzero_count(s, k) < k,
    decreases k,
{
    if k > 0 {
        lemma_count_bound(s, k - 1);
        if exists|j: int| 0 <= j < k && s[j] == 0 {
            let j: int = choose|j: int| 0 <= j < k && s[j] == 0;
            if j < k - 1 {
                assert(exists|j2: int| 0 <= j2 < k - 1 && s[j2] == 0);
            }
        }
    }
}

/// Fleets that share a group number other than 0 are of one and the same side.
pub open spec fn side_pure(g: Seq<usize>, sides: Seq<u64>) -> bool {
    forall|i: int, j: int|
        0 <= i < g.len() && 0 <= j < g.len() && #[trigger] g[i] == #[trigger] g[j] && g[i] != 0
            ==> sides[i] == sides[j]
}

/// What holds of the group numbers at every step: `st.1` is above every
/// number given out, and exceeds the count of fleets in a group by at
/// most 1; fleets sharing a number are of one side.
pub open spec fn step_inv(st: (Seq<usize>, int), sides: Seq<u64>, n: int) -> bool {
    &&& st.0.len() == n
    &&& sides.len() == n
    &&& 1 <= st.1 <= 1 + nonzero_count(st.0, n)
    &&& forall|i: int| 0 <= i < n ==> #[trigger] st.0[i] < st.1
    &&& side_pure(st.0, sides)
}

proof fn lemma_pair_step(
    st: (Seq<usize>, int),
    ids: Seq<u64>,
    sides: Seq<u64>,
    near: Seq<Seq<bool>>,
    f: int,
    o: int,
)
    requires
        ids.len() == sides.len(),
        is_square(near, ids.len() as int),
        step_inv(st, sides, ids.len() as int),
        ids.len() < usize::MAX,
        0 <= f < ids.len(),
        0 <= o < ids.len(),
    ensures
        step_inv(pair_step(st, ids, sides, near, f, o), sides, ids.len() as int),
        forall|i: int|
            0 <= i < ids.len() && st.0[i] != 0 ==> #[trigger] pair_step(
                st,
                ids,
                sides,
                near,
                f,
                o,
            ).0[i] != 0,
        ids[f] != ids[o] ==> pair_step(st, ids, sides, near, f, o).0[f] != 0,
{
    let n: int = ids.len() as int;
    let g = st.0;
    let next: int = st.1;
    let r = pair_step(st, ids, sides, near, f, o);
    lemma_count_bound(g, n);
    if g[f] == 0 || g[o] == 0 {
        assert(next < usize::MAX);
        assert((next as usize) as int == next);
    }
    if ids[f] == ids[o] {
    } else if linked(sides, near, f, o) {
        assert(f != o);
        if g[f] == 0 && g[o] == 0 {
            let g1 = g.update(f, next as usize);
            lemma_count_update(g, f, next as usize, n);
            lemma_count_update(g1, o, next as usize, n);
            assert forall|i: int, j: int|
                0 <= i < n && 0 <= j < n && #[trigger] r.0[i] == #[trigger] r.0[j] && r.0[i]
                    != 0 implies sides[i] == sides[j] by {
                if i != f && i != o && j != f && j != o {
                    assert(g[i] == g[j]);
                }
            }
        } else if g[f] == 0 {
            lemma_count_update(g, f, g[o], n);
            assert forall|i: int, j: int|
                0 <= i < n && 0 <= j < n && #[trigger] r.0[i] == #[trigger] r.0[j] && r.0[i]
                    != 0 implies sides[i] == sides[j] by {
                if i == f && j != f {
                    assert(g[o] == g[j]);
                } else if j == f && i != f {
                    assert(g[o] == g[i]);
                } else if i != f && j != f {
                    assert(g[i] == g[j]);
                }
            }
        } else {
            lemma_count_update(g, o, g[f], n);
            assert forall|i: int, j: int|
                0 <= i < n && 0 <= j < n && #[trigger] r.0[i] == #[trigger] r.0[j] && r.0[i]
                    != 0 implies sides[i] == sides[j] by {
                if i == o && j != o {
                    assert(g[f] == g[j]);
                } else if j == o && i != o {
                    assert(g[f] == g[i]);
                } else if i != o && j != o {
                    assert(g[i] == g[j]);
                }
            }
        }
    } else {
        if g[f] == 0 {
            lemma_count_update(g, f, next as usize, n);
            assert forall|i: int, j: int|
                0 <= i < n && 0 <= j < n && #[trigger] r.0[i] == #[trigger] r.0[j] && r.0[i]
                    != 0 implies sides[i] == sides[j] by {
                if i != f && j != f {
                    assert(g[i] == g[j]);
                }
            }
        } else if g[o] == 0 {
            lemma_count_update(g, o, next as usize, n);
            assert forall|i: int, j: int|
                0 <= i < n && 0 <= j < n && #[trigger] r.0[i] == #[trigger] r.0[j] && r.0[i]
                    != 0 implies sides[i] == sides[j] by {
                if i != o && j != o {
                    assert(g[i] == g[j]);
                }
            }
        }
    }
}


proof fn lemma_count_zeros(n: int, k: int)
    requires
        0 <= k <= n,
    ensures
        nonzero_count(Seq::new(n as nat, |i: int| 0usize), k) == 0,
    decreases k,
{
    if k > 0 {
        lemma_count_zeros(n, k - 1);
    }
}

proof fn lemma_row_steps(
    st: (Seq<usize>, int),
    ids: Seq<u64>,
    sides: Seq<u64>,
    near: Seq<Seq<bool>>,
    f: int,
    k: int,
)
    requires
        ids.len() == sides.len(),
        is_square(near, ids.len() as int),
        step_inv(st, sides, ids.len() as int),
        ids.len() < usize::MAX,
        0 <= f < ids.len(),
        0 <= k <= ids.len(),
    ensures
        step_inv(row_steps(st, ids, sides, near, f, k), sides, ids.len() as int),
        forall|i: int|
            0 <= i < ids.len() && st.0[i] != 0 ==> #[trigger] row_steps(
                st,
                ids,
                sides,
                near,
                f,
                k,
            ).0[i] != 0,
        (exists|o: int| 0 <= o < k && ids[o] != ids[f]) ==> row_steps(
            st,
            ids,
            sides,
            near,
            f,
            k,
        ).0[f] != 0,
    decreases k,
{
    if k > 0 {
        lemma_row_steps(st, ids, sides, near, f, k - 1);
        let prev = row_steps(st, ids, sides, near, f, k - 1);
        lemma_pair_step(prev, ids, sides, near, f, k - 1);
        if exists|o: int| 0 <= o < k && ids[o] != ids[f] {
            if ids[k - 1] == ids[f] {
                let o: int = choose|o: int| 0 <= o < k && ids[o] != ids[f];
                assert(0 <= o < k - 1);
            }
        }
    }
}

proof fn lemma_grouping(ids: Seq<u64>, sides: Seq<u64>, near: Seq<Seq<bool>>, k: int)
    requires
        ids.len() == sides.len(),
        is_square(near, ids.len() as int),
        ids.len() < usize::MAX,
        0 <= k <= ids.len(),
    ensures
        step_inv(grouping(ids, sides, near, k), sides, ids.len() as int),
        forall|i: int|
            0 <= i < k && (exists|o: int| 0 <= o < ids.len() && ids[o] != ids[i]) ==> #[trigger] grouping(
                ids,
                sides,
                near,
                k,
            ).0[i] != 0,
    decreases k,
{
    let n: int = ids.len() as int;
    if k == 0 {
        lemma_count_zeros(n, n);
    } else {
        lemma_grouping(ids, sides, near, k - 1);
        let prev = grouping(ids, sides, near, k - 1);
        lemma_row_steps(prev, ids, sides, near, k - 1, n);
    }
}

proof fn lemma_row_links(
    st: (Seq<usize>, int),
    ids: Seq<u64>,
    sides: Seq<u64>,
    near: Seq<Seq<bool>>,
    f: int,
    k: int,
)
    requires
        ids.len() == sides.len(),
        is_square(near, ids.len() as int),
        step_inv(st, sides, ids.len() as int),
        ids.len() < usize::MAX,
        0 <= f < ids.len(),
        0 <= k <= ids.len(),
    ensures
        forall|o: int|
            0 <= o < k && ids[o] != ids[f] && near[f][o] && sides[f] == sides[o] ==> #[trigger] row_steps(
                st,
                ids,
                sides,
                near,
                f,
                k,
            ).0[o] == row_steps(st, ids, sides, near, f, k).0[f],
    decreases k,
{
    if k > 0 {
        lemma_row_links(st, ids, sides, near, f, k - 1);
        lemma_row_steps(st, ids, sides, near, f, k - 1);
        let prev = row_steps(st, ids, sides, near, f, k - 1);
        let o2 = k - 1;
        lemma_pair_step(prev, ids, sides, near, f, o2);
        let r = pair_step(prev, ids, sides, near, f, o2);
        lemma_count_bound(prev.0, ids.len() as int);
        if prev.0[f] == 0 || prev.0[o2] == 0 {
            assert((prev.1 as usize) as int == prev.1);
        }
        assert forall|o: int|
            0 <= o < k && ids[o] != ids[f] && near[f][o] && sides[f] == sides[o] implies #[trigger] r.0[o]
            == r.0[f] by {
            if o < k - 1 {
                assert(exists|o3: int| 0 <= o3 < k - 1 && ids[o3] != ids[f]);
                assert(prev.0[f] != 0);
                assert(prev.0[o] == prev.0[f]);
            }
        }
    }
}

/// Once the fleets are regrouped, the last fleet shares its group number
/// with every other fleet that it found close and that is of its side,
/// wherever that fleet stands, before or after others.
pub proof fn lemma_last_fleet_groups_with_close_fleets(
    ids: Seq<u64>,
    sides: Seq<u64>,
    near: Seq<Seq<bool>>,
)
    requires
        ids.len() == sides.len(),
        is_square(near, ids.len() as int),
        ids.len() < usize::MAX,
        ids.len() >= 1,
    ensures
        forall|o: int|
            0 <= o < ids.len() && ids[o] != ids[ids.len() - 1] && near[ids.len() - 1][o] && sides[o]
                == sides[ids.len() - 1] ==> #[trigger] assigned_groups(ids, sides, near)[o]
                == assigned_groups(ids, sides, near)[ids.len() - 1],
{
    let n: int = ids.len() as int;
    lemma_grouping(ids, sides, near, n - 1);
    lemma_row_links(grouping(ids, sides, near, n - 1), ids, sides, near, n - 1, n);
}

/// Once every fleet has looked at every other, a fleet that has any other
/// fleet to look at belongs to a group: its group number is not 0.
pub proof fn lemma_every_fleet_grouped(
    ids: Seq<u64>,
    sides: Seq<u64>,
    near: Seq<Seq<bool>>,
    i: int,
)
    requires
        ids.len() == sides.len(),
        is_square(near, ids.len() as int),
        ids.len() < usize::MAX,
        0 <= i < ids.len(),
        exists|o: int| 0 <= o < ids.len() && ids[o] != ids[i],
    ensures
        assigned_groups(ids, sides, near)[i] != 0,
{
    lemma_grouping(ids, sides, near, ids.len() as int);
}

/// Group numbers are handed out from 1 upwards, at most one new number
/// for each fleet: no fleet's number exceeds the number of fleets.
pub proof fn lemma_group_numbers_bounded(ids: Seq<u64>, sides: Seq<u64>, near: Seq<Seq<bool>>)
    requires
        ids.len() == sides.len(),
        is_square(near, ids.len() as int),
        ids.len() < usize::MAX,
    ensures
        forall|i: int| 0 <= i < ids.len() ==> #[trigger] assigned_groups(ids, sides, near)[i] <= ids.len(),
{
    let n: int = ids.len() as int;
    lemma_grouping(ids, sides, near, n);
    lemma_count_bound(grouping(ids, sides, near, n).0, n);
}

/// No group mixes sides: fleets given the same group number are of one
/// and the same side.
pub proof fn lemma_groups_one_side(ids: Seq<u64>, sides: Seq<u64>, near: Seq<Seq<bool>>)
    requires
        ids.len() == sides.len(),
        is_square(near, ids.len() as int),
        ids.len() < usize::MAX,
    ensures
        side_pure(assigned_groups(ids, sides, near), sides),
        assigned_groups(ids, sides, near).len() == ids.len(),
{
    lemma_grouping(ids, sides, near, ids.len() as int);
}


/// `fs` with the group numbers `g`, all else kept.
pub open spec fn with_groups(fs: Seq<FleetTag>, g: Seq<usize>) -> Seq<FleetTag> {
    Seq::new(fs.len(), |i: int| FleetTag { id: fs[i].id, side: fs[i].side, group: g[i], target: fs[i].target })
}

/// Group `grp` is made of run `run` of `fleets`: it has the run's key as
/// its number, the numbers of the run's fleets, and the side of the
/// run's first fleet.
pub open spec fn group_of_run(grp: Group, run: (usize, Seq<usize>), fleets: Seq<FleetTag>) -> bool {
    &&& grp.id == run.0
    &&& grp.fleets@ == run.1.map_values(|i: usize| fleets[i as int].id)
    &&& grp.side == fleets[run.1[0] as int].side
}

/// The groups are the runs of neighbouring fleets with equal group
/// numbers, in order.
pub open spec fn groups_follow_runs(groups: Seq<Group>, fleets: Seq<FleetTag>) -> bool {
    exists|runs: Seq<(usize, Seq<usize>)>|
        {
            &&& #[trigger] is_run_split(fleet_groups(fleets), runs)
            &&& groups.len() == runs.len()
            &&& forall|t: int| 0 <= t < runs.len() ==> group_of_run(#[trigger] groups[t], runs[t], fleets)
        }
}


/// The fleets at the given positions, in order.
fn run_members(fleets: &Vec<FleetTag>, run: &Vec<usize>) -> (r: Vec<FleetTag>)
    requires
        forall|u: int| 0 <= u < run.len() ==> #[trigger] run@[u] < fleets.len(),
    ensures
        r@ == run@.map_values(|i: usize| fleets@[i as int]),
{
    let mut members: Vec<FleetTag> = Vec::new();
    for u in 0..run.len()
        invariant
            forall|u2: int| 0 <= u2 < run.len() ==> #[trigger] run@[u2] < fleets.len(),
            members@ =~= run@.take(u as int).map_values(|i: usize| fleets@[i as int]),
    {
        let idx: usize = run[u];
        members.push(fleets[idx].clone());
    }
    assert(members@ =~= run@.map_values(|i: usize| fleets@[i as int]));
    members
}

/// One group for each run.
fn groups_of_runs(fleets: &Vec<FleetTag>, runs: &Vec<(usize, Vec<usize>)>) -> (groups: Vec<Group>)
    requires
        is_run_split(fleet_groups(fleets@), runs_view(runs@)),
    ensures
        groups.len() == runs.len(),
        forall|t: int| 0 <= t < runs.len() ==> group_of_run(#[trigger] groups@[t], runs_view(runs@)[t], fleets@),
{
    let ghost rv = runs_view(runs@);
    let mut groups: Vec<Group> = Vec::new();
    for t in 0..runs.len()
        invariant
            rv == runs_view(runs@),
            is_run_split(fleet_groups(fleets@), rv),
            groups.len() == t,
            forall|t2: int| 0 <= t2 < t ==> group_of_run(#[trigger] groups@[t2], rv[t2], fleets@),
    {
        let run = &runs[t];
        assert(rv[t as int] == (run.0, run.1@));
        assert forall|u: int| 0 <= u < run.1.len() implies #[trigger] run.1@[u] < fleets.len() by {
            assert(rv[t as int].1[u] < fleets.len());
        }
        let members = run_members(fleets, &run.1);
        let grp = Group::new(run.0, members);
        assert(grp.fleets@ =~= run.1@.map_values(|i: usize| fleets@[i as int].id));
        groups.push(grp);
    }
    groups
}

impl Scene {
    /// Puts the fleets into groups. `near[f][o]` tells whether fleet `f`
    /// is close enough to fleet `o` to join it (the caller measures the
    /// distance). Every fleet, in order, looks at every other fleet in
    /// order: two close fleets of one side share a group (a new one if
    /// neither has one yet, else the looking fleet's, or the other's if
    /// the looking fleet has none); otherwise the first of the two without
    /// a group gets a new one. The groups are then the runs of neighbouring
    /// fleets with equal numbers; with no fleets the groups are kept.
    pub fn recalculate_groups(&mut self, near: &Vec<Vec<bool>>)
        requires
            old(self).fleets.len() < usize::MAX,
            is_square(table_view(near@), old(self).fleets.len() as int),
        ensures
            final(self).fleets@ == with_groups(
                old(self).fleets@,
                assigned_groups(
                    fleet_ids(old(self).fleets@),
                    fleet_sides(old(self).fleets@),
                    table_view(near@),
                ),
            ),
            old(self).fleets.len() > 0 ==> groups_follow_runs(final(self).groups@, final(self).fleets@),
            old(self).fleets.len() == 0 ==> final(self).groups == old(self).groups,
            final(self).sides == old(self).sides,
            final(self).selected == old(self).selected,
    {
        let n: usize = self.fleets.len();
        let ghost ids = fleet_ids(self.fleets@);
        let ghost sides = fleet_sides(self.fleets@);
        let ghost nv = table_view(near@);
        let mut g: Vec<usize> = Vec::new();
        for i in 0..n
            invariant
                g@ =~= Seq::new(i as nat, |j: int| 0usize),
        {
            g.push(0);
        }
        let mut next_group: usize = 1;
        assert(grouping(ids, sides, nv, 0) == (g@, next_group as int));
        for fi in 0..n
            invariant
                n == self.fleets.len(),
                n < usize::MAX,
                ids == fleet_ids(self.fleets@),
                sides == fleet_sides(self.fleets@),
                nv == table_view(near@),
                is_square(nv, n as int),
                g.len() == n,
                (g@, next_group as int) == grouping(ids, sides, nv, fi as int),
        {
            proof {
                lemma_grouping(ids, sides, nv, fi as int);
            }
            for oi in 0..n
                invariant
                    n == self.fleets.len(),
                    n < usize::MAX,
                    0 <= fi < n,
                    ids == fleet_ids(self.fleets@),
                    sides == fleet_sides(self.fleets@),
                    nv == table_view(near@),
                    is_square(nv, n as int),
                    step_inv(grouping(ids, sides, nv, fi as int), sides, n as int),
                    g.len() == n,
                    (g@, next_group as int) == row_steps(
                        grouping(ids, sides, nv, fi as int),
                        ids,
                        sides,
                        nv,
                        fi as int,
                        oi as int,
                    ),
            {
                let ghost st = (g@, next_group as int);
                proof {
                    lemma_row_steps(grouping(ids, sides, nv, fi as int), ids, sides, nv, fi as int, oi as int);
                    lemma_count_bound(g@, n as int);
                }
                if self.fleets[fi].id != self.fleets[oi].id {
                    let link = near[fi][oi] && !self.fleets[fi].is_enemy(&self.fleets[oi]);
                    let gf: usize = g[fi];
                    let go: usize = g[oi];
                    if link {
                        if gf == 0 && go == 0 {
                            g.set(fi, next_group);
                            g.set(oi, next_group);
                            next_group = next_group + 1;
                        } else if gf == 0 {
                            g.set(fi, go);
                        } else {
                            g.set(oi, gf);
                        }
                    } else {
                        if gf == 0 {
                            g.set(fi, next_group);
                            next_group = next_group + 1;
                        } else if go == 0 {
                            g.set(oi, next_group);
                            next_group = next_group + 1;
                        }
                    }
                }
                assert((g@, next_group as int) =~= pair_step(st, ids, sides, nv, fi as int, oi as int));
            }
        }
        let ghost final_groups = g@;
        let mut fleets: Vec<FleetTag> = Vec::new();
        for i in 0..n
            invariant
                n == self.fleets.len(),
                g.len() == n,
                fleets@ =~= with_groups(self.fleets@, g@).take(i as int),
        {
            let mut f = self.fleets[i].clone();
            f.group = g[i];
            fleets.push(f);
        }
        assert(fleets@ =~= with_groups(self.fleets@, g@));
        self.fleets = fleets;
        assert(fleet_groups(self.fleets@) =~= g@);
        if n > 0 {
            let runs = group_runs(&self.fleets);
            self.groups = groups_of_runs(&self.fleets, &runs);
        }
    }
}


/// The position of the first of `groups[k..]` whose number is `id`.
pub open spec fn first_group_from(groups: Seq<Group>, id: usize, k: int) -> Option<int>
    decreases groups.len() - k,
{
    if k < 0 || k >= groups.len() {
        None
    } else if groups[k].id == id {
        Some(k)
    } else {
        first_group_from(groups, id, k + 1)
    }
}

proof fn lemma_first_group_found(groups: Seq<Group>, id: usize, k: int, t: int)
    requires
        0 <= k <= t < groups.len(),
        groups[t].id == id,
    ensures
        first_group_from(groups, id, k) matches Some(t0) && k <= t0 <= t && groups[t0].id == id,
    decreases t - k,
{
    if groups[k].id != id {
        lemma_first_group_found(groups, id, k + 1, t);
    }
}

pub open spec fn covered_by(runs: Seq<(usize, Seq<usize>)>, t: int, i: int) -> bool {
    exists|t2: int, u: int| 0 <= t2 <= t && 0 <= u < runs[t2].1.len() && #[trigger] runs[t2].1[u] == i
}

proof fn lemma_runs_cover(keys: Seq<usize>, runs: Seq<(usize, Seq<usize>)>, t: int)
    requires
        is_run_split(keys, runs),
        0 <= t < runs.len(),
    ensures
        forall|i: int| 0 <= i <= runs[t].1.last() ==> #[trigger] covered_by(runs, t, i),
    decreases t,
{
    let r = runs[t].1;
    assert(r[r.len() - 1] == r[0] + (r.len() - 1));
    if t > 0 {
        lemma_runs_cover(keys, runs, t - 1);
    }
    assert forall|i: int| 0 <= i <= runs[t].1.last() implies #[trigger] covered_by(runs, t, i) by {
        if i >= r[0] {
            let u: int = i - r[0];
            assert(runs[t].1[u] == i);
        } else {
            assert(t > 0);
            assert(runs[t].1[0] == runs[t - 1].1.last() + 1);
            assert(covered_by(runs, t - 1, i));
            let (t2, u) = choose|t2: int, u: int|
                0 <= t2 <= t - 1 && 0 <= u < runs[t2].1.len() && #[trigger] runs[t2].1[u] == i;
            assert(runs[t2].1[u] == i);
        }
    }
}


/// The numbers of each group's fleets, group by group.
pub open spec fn group_members(groups: Seq<Group>) -> Seq<Seq<u64>> {
    groups.map_values(|g: Group| g.fleets@)
}

/// Each group's own number, once for each of its fleets, group by group.
pub open spec fn group_numbers(groups: Seq<Group>) -> Seq<Seq<usize>> {
    groups.map_values(|g: Group| Seq::new(g.fleets@.len(), |u: int| g.id))
}

/// Where the first `k` runs end (one past their last position).
pub open spec fn runs_end(runs: Seq<(usize, Seq<usize>)>, k: int) -> int {
    if k <= 0 {
        0
    } else {
        runs[k - 1].1.last() + 1
    }
}

proof fn lemma_groups_prefix(
    groups: Seq<Group>,
    fleets: Seq<FleetTag>,
    runs: Seq<(usize, Seq<usize>)>,
    k: int,
)
    requires
        is_run_split(fleet_groups(fleets), runs),
        groups.len() == runs.len(),
        forall|t: int| 0 <= t < runs.len() ==> group_of_run(#[trigger] groups[t], runs[t], fleets),
        0 <= k <= runs.len(),
    ensures
        0 <= runs_end(runs, k) <= fleets.len(),
        group_members(groups.take(k)).flatten() =~= fleet_ids(fleets).take(runs_end(runs, k)),
        group_numbers(groups.take(k)).flatten() =~= fleet_groups(fleets).take(runs_end(runs, k)),
    decreases k,
{
    broadcast use Seq::lemma_flatten_push;

    if k > 0 {
        lemma_groups_prefix(groups, fleets, runs, k - 1);
        let t = k - 1;
        let r = runs[t].1;
        let e0 = runs_end(runs, t);
        assert(r[0] == e0) by {
            if t > 0 {
                assert(runs[t].1[0] == runs[t - 1].1.last() + 1);
            }
        }
        assert(r[r.len() - 1] == r[0] + (r.len() - 1));
        assert(r[r.len() - 1] < fleets.len());
        assert(group_of_run(groups[t], runs[t], fleets));
        assert(group_members(groups.take(k)) =~= group_members(groups.take(t)).push(groups[t].fleets@));
        assert(group_numbers(groups.take(k)) =~= group_numbers(groups.take(t)).push(
            Seq::new(groups[t].fleets@.len(), |u: int| groups[t].id),
        ));
        assert forall|u: int| 0 <= u < r.len() implies #[trigger] fleet_groups(fleets)[e0 + u]
            == groups[t].id by {
            assert(r[u] == r[0] + u);
        }
        assert(fleet_ids(fleets).take(runs_end(runs, k)) =~= fleet_ids(fleets).take(e0)
            + groups[t].fleets@) by {
            assert forall|u: int| 0 <= u < r.len() implies groups[t].fleets@[u] == fleet_ids(
                fleets,
            )[e0 + u] by {
                assert(r[u] == r[0] + u);
            }
        }
        assert(fleet_groups(fleets).take(runs_end(runs, k)) =~= fleet_groups(fleets).take(e0)
            + Seq::new(groups[t].fleets@.len(), |u: int| groups[t].id)) by {
            assert(groups[t].fleets@.len() == r.len());
            assert forall|j: int| e0 <= j < e0 + r.len() implies fleet_groups(fleets)[j]
                == groups[t].id by {
                assert(fleet_groups(fleets)[e0 + (j - e0)] == groups[t].id);
            }
        }
    }
}

/// Regrouped fleets fall into their groups exactly once and in order: the
/// groups' members, one group after the other, are all the fleets in
/// order; each fleet's group number is the number of the group it falls
/// in; no group is empty; and two groups that follow each other have
/// different numbers.
pub proof fn lemma_groups_partition_fleets(groups: Seq<Group>, fleets: Seq<FleetTag>)
    requires
        groups_follow_runs(groups, fleets),
    ensures
        group_members(groups).flatten() == fleet_ids(fleets),
        group_numbers(groups).flatten() == fleet_groups(fleets),
        forall|t: int| 0 <= t < groups.len() ==> #[trigger] groups[t].fleets.len() > 0,
        forall|t: int| 0 <= t < groups.len() - 1 ==> #[trigger] groups[t].id != groups[t + 1].id,
{
    let runs = choose|runs: Seq<(usize, Seq<usize>)>|
        {
            &&& #[trigger] is_run_split(fleet_groups(fleets), runs)
            &&& groups.len() == runs.len()
            &&& forall|t: int| 0 <= t < runs.len() ==> group_of_run(#[trigger] groups[t], runs[t], fleets)
        };
    let m = runs.len() as int;
    lemma_groups_prefix(groups, fleets, runs, m);
    assert(groups.take(m) =~= groups);
    if m > 0 {
        assert(runs_end(runs, m) == fleets.len());
    }
    assert(fleet_ids(fleets).take(runs_end(runs, m)) =~= fleet_ids(fleets));
    assert(fleet_groups(fleets).take(runs_end(runs, m)) =~= fleet_groups(fleets));
    assert forall|t: int| 0 <= t < groups.len() implies #[trigger] groups[t].fleets.len() > 0 by {
        assert(group_of_run(groups[t], runs[t], fleets));
    }
    assert forall|t: int| 0 <= t < groups.len() - 1 implies #[trigger] groups[t].id != groups[t
        + 1].id by {
        assert(group_of_run(groups[t], runs[t], fleets));
        assert(group_of_run(groups[t + 1], runs[t + 1], fleets));
        assert(runs[t].0 != runs[t + 1].0);
    }
}

/// After the fleets have been regrouped, a fleet that had another fleet
/// to look at finds, among the groups, one with its own group number,
/// and the first such group is on the fleet's side.
pub proof fn lemma_fleet_finds_own_group(
    before: Seq<FleetTag>,
    near: Seq<Seq<bool>>,
    after: Seq<FleetTag>,
    groups: Seq<Group>,
    i: int,
)
    requires
        before.len() < usize::MAX,
        is_square(near, before.len() as int),
        after == with_groups(
            before,
            assigned_groups(fleet_ids(before), fleet_sides(before), near),
        ),
        groups_follow_runs(groups, after),
        0 <= i < before.len(),
        exists|o: int| 0 <= o < before.len() && before[o].id != before[i].id,
    ensures
        first_group_from(groups, after[i].group, 0) matches Some(t) && groups[t].id == after[i].group
            && groups[t].side.same_side(&after[i].side),
{
    let ids = fleet_ids(before);
    let sides = fleet_sides(before);
    let n: int = before.len() as int;
    assert(exists|o: int| 0 <= o < ids.len() && ids[o] != ids[i]) by {
        let o: int = choose|o: int| 0 <= o < before.len() && before[o].id != before[i].id;
        assert(ids[o] != ids[i]);
    }
    lemma_every_fleet_grouped(ids, sides, near, i);
    lemma_groups_one_side(ids, sides, near);
    let keys = fleet_groups(after);
    let runs = choose|runs: Seq<(usize, Seq<usize>)>|
        {
            &&& #[trigger] is_run_split(fleet_groups(after), runs)
            &&& groups.len() == runs.len()
            &&& forall|t: int| 0 <= t < runs.len() ==> group_of_run(#[trigger] groups[t], runs[t], after)
        };
    lemma_runs_cover(keys, runs, runs.len() - 1);
    assert(covered_by(runs, runs.len() - 1, i));
    let (t, u) = choose|t: int, u: int|
        0 <= t <= runs.len() - 1 && 0 <= u < runs[t].1.len() && #[trigger] runs[t].1[u] == i;
    assert(keys[i] == runs[t].0);
    assert(group_of_run(groups[t], runs[t], after));
    lemma_first_group_found(groups, keys[i], 0, t);
    let t0: int = first_group_from(groups, keys[i], 0).unwrap();
    assert(group_of_run(groups[t0], runs[t0], after));
    let j: int = runs[t0].1[0] as int;
    assert(keys[j] == runs[t0].0);
    assert(assigned_groups(ids, sides, near)[j] == assigned_groups(ids, sides, near)[i]);
    assert(sides[i] == sides[j]);
}

impl Scene {
    /// The first group whose number is the fleet's group number.
    pub fn group_by_fleet(&self, fleet: &FleetTag) -> (r: Option<&Group>)
        ensures
            match first_group_from(self.groups@, fleet.group, 0) {
                Some(t) => r matches Some(g) && *g == self.groups@[t],
                None => r is None,
            },
    {
        for t in 0..self.groups.len()
            invariant
                first_group_from(self.groups@, fleet.group, 0) == first_group_from(
                    self.groups@,
                    fleet.group,
                    t as int,
                ),
        {
            if self.groups[t].id == fleet.group {
                return Some(&self.groups[t]);
            }
        }
        None
    }
}


// ---------------------------------------------------------------------
// Positions picked by a test
// ---------------------------------------------------------------------

/// The positions `0 .. n`, in order.
pub open spec fn positions(n: nat) -> Seq<usize> {
    Seq::new(n, |i: int| i as usize)
}

/// The positions below `n` that pass `pred`, in increasing order, and
/// all of them.
pub proof fn lemma_picked_positions(n: nat, pred: spec_fn(usize) -> bool)
    requires
        n <= usize::MAX + 1,
    ensures
        forall|t: int|
            0 <= t < positions(n).filter(pred).len() ==> #[trigger] positions(n).filter(pred)[t] < n
                && pred(positions(n).filter(pred)[t]),
        forall|t1: int, t2: int|
            0 <= t1 < t2 < positions(n).filter(pred).len() ==> #[trigger] positions(n).filter(pred)[t1]
                < #[trigger] positions(n).filter(pred)[t2],
        forall|i: int| 0 <= i < n && pred(i as usize) ==> #[trigger] positions(n).filter(pred).contains(i as usize),
    decreases n,
{
    reveal(Seq::filter);
    let f = positions(n).filter(pred);
    if n > 0 {
        let m: nat = (n - 1) as nat;
        lemma_picked_positions(m, pred);
        assert(positions(n).drop_last() =~= positions(m));
        let g = positions(m).filter(pred);
        assert(positions(n).last() == m as usize);
        if pred(m as usize) {
            assert(f =~= g.push(m as usize));
            assert forall|i: int| 0 <= i < n && pred(i as usize) implies #[trigger] f.contains(i as usize) by {
                if i < m {
                    assert(g.contains(i as usize));
                    let t: int = choose|t: int| 0 <= t < g.len() && g[t] == i as usize;
                    assert(f[t] == i as usize);
                } else {
                    assert(f[f.len() - 1] == i as usize);
                }
            }
        } else {
            assert(f =~= g);
        }
    }
}


// ---------------------------------------------------------------------
// Sides of a scene
// ---------------------------------------------------------------------

/// Position `i` holds the first fleet of its side.
pub open spec fn starts_side(fleets: Seq<FleetTag>) -> spec_fn(usize) -> bool {
    |i: usize| forall|j: int| 0 <= j < i ==> fleets[j].side.name@ != fleets[i as int].side.name@
}

/// Position `i` holds a fleet of the side numbered `side`.
pub open spec fn on_side(fleets: Seq<FleetTag>, side: u64) -> spec_fn(usize) -> bool {
    |i: usize| fleets[i as int].side.id == side
}

/// Position `i` holds a fleet of a side other than the one numbered `side`.
pub open spec fn off_side(fleets: Seq<FleetTag>, side: u64) -> spec_fn(usize) -> bool {
    |i: usize| fleets[i as int].side.id != side
}

/// The sides of the fleets, each once, in the order in which they first
/// appear.
pub open spec fn sides_of(fleets: Seq<FleetTag>) -> Seq<Side> {
    positions(fleets.len()).filter(starts_side(fleets)).map_values(|i: usize| fleets[i as int].side)
}

/// itertools' `Itertools::unique_by` over the fleets keyed by the name of
/// their side, each kept fleet taken by position: the documentation
/// promises that an element is kept when no earlier element had an equal
/// key, and that the kept elements come in their original order.
#[verifier::external_body]
fn first_fleet_of_each_side(fleets: &Vec<FleetTag>) -> (r: Vec<usize>)
    ensures
        r@ == positions(fleets.len() as nat).filter(starts_side(fleets@)),
{
    fleets.iter().enumerate().unique_by(|p| &p.1.side.name).map(|p| p.0).collect()
}

impl Scene {
    /// A scene of the given fleets, with the side of each fleet (once per
    /// name, in order of first appearance), no groups and nothing
    /// selected.
    pub fn from(fleets: Vec<FleetTag>) -> (s: Scene)
        ensures
            s.fleets@ == fleets@,
            s.sides@ == sides_of(fleets@),
            s.groups@ == Seq::<Group>::empty(),
            s.selected is None,
    {
        let firsts = first_fleet_of_each_side(&fleets);
        proof {
            lemma_picked_positions(fleets.len() as nat, starts_side(fleets@));
        }
        let mut sides: Vec<Side> = Vec::new();
        for t in 0..firsts.len()
            invariant
                firsts@ == positions(fleets.len() as nat).filter(starts_side(fleets@)),
                forall|t2: int| 0 <= t2 < firsts.len() ==> #[trigger] firsts@[t2] < fleets.len(),
                sides@ =~= firsts@.take(t as int).map_values(|i: usize| fleets@[i as int].side),
        {
            let i: usize = firsts[t];
            sides.push(fleets[i].side.clone());
        }
        assert(sides@ =~= sides_of(fleets@));
        Scene { fleets: fleets, groups: Vec::new(), sides: sides, selected: None }
    }

    pub fn fleets(&self) -> (r: &Vec<FleetTag>)
        ensures
            *r == self.fleets,
    {
        &self.fleets
    }

    /// The positions of the fleets that are enemies of `fleet` (of
    /// another side), in order: the fleets a computer-controlled side may
    /// attack with it.
    pub fn enemies_of(&self, fleet: &FleetTag) -> (r: Vec<usize>)
        ensures
            r@ == positions(self.fleets.len() as nat).filter(off_side(self.fleets@, fleet.side.id)),
    {
        let mut r: Vec<usize> = Vec::new();
        for i in 0..self.fleets.len()
            invariant
                r@ == positions(i as nat).filter(off_side(self.fleets@, fleet.side.id)),
        {
            proof {
                reveal(Seq::filter);
                assert(positions((i + 1) as nat).drop_last() =~= positions(i as nat));
            }
            if self.fleets[i].is_enemy(fleet) {
                r.push(i);
            }
        }
        r
    }

    /// The positions of the fleets of `side` (that very side, by its
    /// number), in order.
    pub fn fleets_by_side(&self, side: &Side) -> (r: Vec<usize>)
        ensures
            r@ == positions(self.fleets.len() as nat).filter(on_side(self.fleets@, side.id)),
    {
        let mut r: Vec<usize> = Vec::new();
        for i in 0..self.fleets.len()
            invariant
                r@ == positions(i as nat).filter(on_side(self.fleets@, side.id)),
        {
            proof {
                reveal(Seq::filter);
                assert(positions((i + 1) as nat).drop_last() =~= positions(i as nat));
            }
            if self.fleets[i].side.id == side.id {
                r.push(i);
            }
        }
        r
    }
}

/// The sides of a scene made from fleets are listed once per name: no two
/// have the same name, and every fleet's side has its name among them.
pub proof fn lemma_sides_of_distinct_and_complete(fleets: Seq<FleetTag>)
    requires
        fleets.len() <= usize::MAX,
    ensures
        forall|t1: int, t2: int|
            #![trigger sides_of(fleets)[t1], sides_of(fleets)[t2]]
            0 <= t1 < t2 < sides_of(fleets).len() ==> !sides_of(fleets)[t1].same_name(
                &sides_of(fleets)[t2],
            ),
        forall|i: int|
            #![trigger fleets[i]]
            0 <= i < fleets.len() ==> exists|t: int|
                0 <= t < sides_of(fleets).len() && (#[trigger] sides_of(fleets)[t]).same_name(
                    &fleets[i].side,
                ),
{
    let pred = starts_side(fleets);
    let f = positions(fleets.len()).filter(pred);
    lemma_picked_positions(fleets.len(), pred);
    assert forall|t1: int, t2: int|
        #![trigger sides_of(fleets)[t1], sides_of(fleets)[t2]]
        0 <= t1 < t2 < sides_of(fleets).len() implies !sides_of(fleets)[t1].same_name(
        &sides_of(fleets)[t2],
    ) by {
        assert(f[t1] < f[t2]);
        assert(pred(f[t2]));
    }
    assert forall|i: int| #![trigger fleets[i]] 0 <= i < fleets.len() implies exists|t: int|
        0 <= t < sides_of(fleets).len() && (#[trigger] sides_of(fleets)[t]).same_name(
            &fleets[i].side,
        ) by {
        let j: int = lemma_first_of_side(fleets, i);
        assert(f.contains(j as usize));
        let t: int = choose|t: int| 0 <= t < f.len() && f[t] == j as usize;
        assert(sides_of(fleets)[t] == fleets[j].side);
    }
}

proof fn lemma_first_of_side(fleets: Seq<FleetTag>, i: int) -> (j: int)
    requires
        0 <= i < fleets.len(),
        fleets.len() <= usize::MAX,
    ensures
        0 <= j <= i,
        fleets[j].side.name@ == fleets[i].side.name@,
        starts_side(fleets)(j as usize),
    decreases i,
{
    if starts_side(fleets)(i as usize) {
        i
    } else {
        let k: int = choose|k: int| 0 <= k < i && fleets[k].side.name@ == fleets[i].side.name@;
        lemma_first_of_side(fleets, k)
    }
}

impl Default for Scene {
    /// An empty scene.
    fn default() -> (s: Scene)
        ensures
            s.fleets@ == Seq::<FleetTag>::empty(),
            s.groups@ == Seq::<Group>::empty(),
            s.sides@ == Seq::<Side>::empty(),
            s.selected is None,
    {
        Scene { fleets: Vec::new(), groups: Vec::new(), sides: Vec::new(), selected: None }
    }
}


// ---------------------------------------------------------------------
// Events
// ---------------------------------------------------------------------

/// The point of a right-button press, if `e` is one.
pub open spec fn right_click(e: Event) -> Option<(i32, i32)> {
    match e {
        Event::MouseButtonDown { mouse_btn: MouseButton::Right, x, y } => Some((x, y)),
        _ => None,
    }
}

pub open spec fn is_left_click(e: Event) -> bool {
    e matches Event::MouseButtonDown { mouse_btn: MouseButton::Left, .. }
}

/// Where the selected fleet stands among the fleets, if it is there.
pub open spec fn selected_position(s: Scene) -> Option<int> {
    match s.selected {
        Some(sid) => position_from(s.fleets@, sid, 0),
        None => None,
    }
}

/// The position of the first of `fleets[k..]` that the player controls
/// and that the click hit.
pub open spec fn first_selectable_from(fleets: Seq<FleetTag>, hits: Seq<bool>, k: int) -> Option<int>
    decreases fleets.len() - k,
{
    if k < 0 || k >= fleets.len() {
        None
    } else if fleets[k].side.player_controled && hits[k] {
        Some(k)
    } else {
        first_selectable_from(fleets, hits, k + 1)
    }
}

/// Fleet `f` with target `t`.
pub open spec fn retargeted(f: FleetTag, t: u64) -> FleetTag {
    FleetTag { id: f.id, side: f.side, group: f.group, target: Some(t) }
}

/// The fleets that pass `keep`, in order.
pub open spec fn kept_fleets(fleets: Seq<FleetTag>, keep: Seq<bool>) -> Seq<FleetTag> {
    positions(fleets.len()).filter(|i: usize| keep[i as int]).map_values(|i: usize| fleets[i as int])
}

impl Scene {
    /// A left click selects the first fleet of a player-controlled side
    /// that it hit (`hits[i]` tells whether the click point lies in fleet
    /// `i`'s box), or clears the selection when it hit none; it tells
    /// whether a fleet was selected. Other events change nothing.
    pub fn process_event(&mut self, e: &Event, hits: &Vec<bool>) -> (r: bool)
        requires
            hits.len() == old(self).fleets.len(),
        ensures
            final(self).fleets == old(self).fleets,
            final(self).groups == old(self).groups,
            final(self).sides == old(self).sides,
            if is_left_click(*e) {
                match first_selectable_from(old(self).fleets@, hits@, 0) {
                    Some(j) => r && final(self).selected == Some(old(self).fleets@[j].id),
                    None => !r && final(self).selected is None,
                }
            } else {
                !r && final(self).selected == old(self).selected
            },
    {
        match e {
            Event::MouseButtonDown { mouse_btn, x, y } => {
                if *mouse_btn == MouseButton::Left {
                    let n: usize = self.fleets.len();
                    for i in 0..n
                        invariant
                            n == self.fleets.len(),
                            is_left_click(*e),
                            hits.len() == self.fleets.len(),
                            *self == *old(self),
                            first_selectable_from(self.fleets@, hits@, 0) == first_selectable_from(
                                self.fleets@,
                                hits@,
                                i as int,
                            ),
                    {
                        if self.fleets[i].side.player_controled && hits[i] {
                            assert(first_selectable_from(self.fleets@, hits@, i as int) == Some(i as int));
                            self.selected = Some(self.fleets[i].id);
                            return true;
                        }
                    }
                    self.selected = None;
                    false
                } else {
                    false
                }
            },
            Event::MouseButtonUp { .. } => false,
            _ => false,
        }
    }

    /// Hands the event to each fleet in turn; a right click reaches the
    /// selected fleet, which takes the clicked fleet as target or is sent
    /// to the clicked point. When no fleet takes the event, the scene
    /// handles it itself (see `process_event`).
    pub fn event(&mut self, e: &Event, hits: &Vec<bool>) -> (r: Reaction)
        requires
            hits.len() == old(self).fleets.len(),
        ensures
            final(self).groups == old(self).groups,
            final(self).sides == old(self).sides,
            if right_click(*e) is Some && selected_position(*old(self)) is Some {
                let i: int = selected_position(*old(self)).unwrap();
                let (x, y) = right_click(*e).unwrap();
                &&& final(self).selected == old(self).selected
                &&& match first_hit_from(old(self).fleets@, hits@, old(self).fleets@[i].id, 0) {
                    Some(j) => r == Reaction::Handled && final(self).fleets@ == old(
                        self,
                    ).fleets@.update(i, retargeted(old(self).fleets@[i], old(self).fleets@[j].id)),
                    None => r == (Reaction::MoveFleet { fleet: i as usize, x: x, y: y })
                        && final(self).fleets@ == old(self).fleets@,
                }
            } else {
                &&& final(self).fleets@ == old(self).fleets@
                &&& if is_left_click(*e) {
                    match first_selectable_from(old(self).fleets@, hits@, 0) {
                        Some(j) => r == Reaction::Handled && final(self).selected == Some(
                            old(self).fleets@[j].id,
                        ),
                        None => r == Reaction::Ignored && final(self).selected is None,
                    }
                } else {
                    r == Reaction::Ignored && final(self).selected == old(self).selected
                }
            },
    {
        let selected = self.selected;
        let n: usize = self.fleets.len();
        for i in 0..n
            invariant
                n == self.fleets.len(),
                hits.len() == n,
                *self == *old(self),
                selected == self.selected,
                right_click(*e) is Some ==> selected_position(*self) == match selected {
                    Some(sid) => position_from(self.fleets@, sid, i as int),
                    None => None,
                },
        {
            let s = match selected {
                Some(sid) => sid == self.fleets[i].id,
                None => false,
            };
            let mut f = self.fleets[i].clone();
            let o = f.event(e, self, hits, s);
            match o {
                Order::Ignored => {},
                Order::Targeted => {
                    self.fleets.set(i, f);
                    return Reaction::Handled;
                },
                Order::MoveTo { x, y } => {
                    return Reaction::MoveFleet { fleet: i, x: x, y: y };
                },
            }
        }
        if self.process_event(e, hits) {
            Reaction::Handled
        } else {
            Reaction::Ignored
        }
    }

    /// Keeps the fleets for which `keep` holds, in order, and drops the
    /// others (the fleets that were destroyed).
    pub fn keep_fleets(&mut self, keep: &Vec<bool>)
        requires
            keep.len() == old(self).fleets.len(),
        ensures
            final(self).fleets@ == kept_fleets(old(self).fleets@, keep@),
            final(self).groups == old(self).groups,
            final(self).sides == old(self).sides,
            final(self).selected == old(self).selected,
    {
        let mut kept: Vec<FleetTag> = Vec::new();
        let ghost pred = |i: usize| keep@[i as int];
        let n: usize = self.fleets.len();
        for i in 0..n
            invariant
                n == self.fleets.len(),
                keep.len() == self.fleets.len(),
                pred == (|i: usize| keep@[i as int]),
                kept@ =~= positions(i as nat).filter(pred).map_values(|j: usize| self.fleets@[j as int]),
        {
            proof {
                reveal(Seq::filter);
                assert(positions((i + 1) as nat).drop_last() =~= positions(i as nat));
            }
            if keep[i] {
                kept.push(self.fleets[i].clone());
            }
        }
        self.fleets = kept;
    }
}

/// The fleets listed as enemies of `fleet` are exactly the fleets of
/// other sides, each once and in order; the fleet itself is never among
/// them.
pub proof fn lemma_enemies_listed(fleets: Seq<FleetTag>, fleet: FleetTag)
    requires
        fleets.len() <= usize::MAX,
    ensures
        forall|t: int|
            0 <= t < positions(fleets.len()).filter(off_side(fleets, fleet.side.id)).len() ==> {
                let i = #[trigger] positions(fleets.len()).filter(off_side(fleets, fleet.side.id))[t];
                &&& i < fleets.len()
                &&& fleets[i as int].side.id != fleet.side.id
            },
        forall|i: int|
            0 <= i < fleets.len() && fleets[i].side.id != fleet.side.id ==> #[trigger] positions(
                fleets.len(),
            ).filter(off_side(fleets, fleet.side.id)).contains(i as usize),
{
    lemma_picked_positions(fleets.len(), off_side(fleets, fleet.side.id));
}

/// Only fleets of a player-controlled side get selected, and only when
/// the click hit them.
pub proof fn lemma_selection_player_controlled(fleets: Seq<FleetTag>, hits: Seq<bool>, k: int)
    requires
        hits.len() == fleets.len(),
        0 <= k,
    ensures
        first_selectable_from(fleets, hits, k) matches Some(j) ==> k <= j < fleets.len()
            && fleets[j].side.player_controled && hits[j],
    decreases fleets.len() - k,
{
    if k < fleets.len() && !(fleets[k].side.player_controled && hits[k]) {
        lemma_selection_player_controlled(fleets, hits, k + 1);
    }
}


proof fn lemma_first_selectable_from(fleets: Seq<FleetTag>, hits: Seq<bool>, k: int)
    requires
        hits.len() == fleets.len(),
        0 <= k <= fleets.len(),
    ensures
        match first_selectable_from(fleets, hits, k) {
            Some(j) => k <= j < fleets.len() && fleets[j].side.player_controled && hits[j] && forall|m: int|
                k <= m < j ==> !(#[trigger] hits[m] && fleets[m].side.player_controled),
            None => forall|m: int|
                k <= m < fleets.len() ==> !(#[trigger] hits[m] && fleets[m].side.player_controled),
        },
    decreases fleets.len() - k,
{
    if k < fleets.len() {
        lemma_first_selectable_from(fleets, hits, k + 1);
    }
}

/// Selecting by a left click: the fleet selected is a player-controlled
/// fleet the click hit, with no such fleet before it; and whenever the
/// click hit a player-controlled fleet at any position (the first one
/// included), a fleet is selected, at that position or before it. When
/// the click hit no player-controlled fleet, none is selected.
pub proof fn lemma_selects_first_player_fleet_hit(fleets: Seq<FleetTag>, hits: Seq<bool>)
    requires
        hits.len() == fleets.len(),
    ensures
        first_selectable_from(fleets, hits, 0) matches Some(j) ==> {
            &&& 0 <= j < fleets.len()
            &&& fleets[j].side.player_controled
            &&& hits[j]
            &&& forall|m: int| 0 <= m < j ==> !(#[trigger] hits[m] && fleets[m].side.player_controled)
        },
        forall|i: int|
            0 <= i < fleets.len() && #[trigger] hits[i] && fleets[i].side.player_controled ==> (
            first_selectable_from(fleets, hits, 0) matches Some(j) && j <= i),
        (forall|i: int| 0 <= i < fleets.len() ==> !(#[trigger] hits[i] && fleets[i].side.player_controled))
            ==> first_selectable_from(fleets, hits, 0) is None,
{
    lemma_first_selectable_from(fleets, hits, 0);
}

/// How many entries of `keep` are true.
pub open spec fn true_count(keep: Seq<bool>) -> int
    decreases keep.len(),
{
    if keep.len() == 0 {
        0
    } else {
        true_count(keep.drop_last()) + if keep.last() {
            1int
        } else {
            0int
        }
    }
}

proof fn lemma_true_count_filter(keep: Seq<bool>, k: nat)
    requires
        k <= keep.len(),
        k <= usize::MAX + 1,
    ensures
        positions(k).filter(|i: usize| keep[i as int]).len() == true_count(keep.take(k as int)),
    decreases k,
{
    reveal(Seq::filter);
    if k > 0 {
        let m: nat = (k - 1) as nat;
        lemma_true_count_filter(keep, m);
        assert(positions(k).drop_last() =~= positions(m));
        assert(keep.take(k as int).drop_last() =~= keep.take(m as int));
    }
}

/// Dropping destroyed fleets keeps exactly the fleets marked to keep, in
/// their order: there is a rising list of positions, one for each entry
/// of `keep` that is true and no other, such that the fleets kept are the
/// fleets at those positions; so as many fleets stay as `keep` has true
/// entries, and when all are kept the fleets are unchanged.
pub proof fn lemma_keep_fleets_exactly(fleets: Seq<FleetTag>, keep: Seq<bool>)
    requires
        keep.len() == fleets.len(),
        fleets.len() <= usize::MAX,
    ensures
        exists|idx: Seq<int>|
            {
                &&& #[trigger] idx.len() == kept_fleets(fleets, keep).len()
                &&& forall|t: int|
                    0 <= t < idx.len() ==> 0 <= #[trigger] idx[t] < fleets.len() && keep[idx[t]]
                        && kept_fleets(fleets, keep)[t] == fleets[idx[t]]
                &&& forall|t1: int, t2: int|
                    0 <= t1 < t2 < idx.len() ==> #[trigger] idx[t1] < #[trigger] idx[t2]
                &&& forall|i: int| 0 <= i < fleets.len() && keep[i] ==> #[trigger] idx.contains(i)
            },
        kept_fleets(fleets, keep).len() == true_count(keep),
        (forall|i: int| 0 <= i < keep.len() ==> #[trigger] keep[i]) ==> kept_fleets(fleets, keep)
            == fleets,
{
    let pred = |i: usize| keep[i as int];
    let p = positions(fleets.len()).filter(pred);
    lemma_picked_positions(fleets.len(), pred);
    let idx = p.map_values(|x: usize| x as int);
    assert forall|i: int| 0 <= i < fleets.len() && keep[i] implies #[trigger] idx.contains(i) by {
        assert(pred(i as usize));
        assert(p.contains(i as usize));
        let t: int = choose|t: int| 0 <= t < p.len() && p[t] == i as usize;
        assert(idx[t] == i);
    }
    assert(kept_fleets(fleets, keep).len() == idx.len());
    lemma_true_count_filter(keep, fleets.len());
    assert(keep.take(keep.len() as int) =~= keep);
    if forall|i: int| 0 <= i < keep.len() ==> #[trigger] keep[i] {
        lemma_true_count_all(keep);
        assert(p.len() == fleets.len());
        assert forall|t: int| 0 <= t < p.len() implies p[t] == t as usize by {
            lemma_all_kept_positions(p, fleets.len() as int, t);
        }
        assert(kept_fleets(fleets, keep) =~= fleets);
    }
}

proof fn lemma_true_count_all(keep: Seq<bool>)
    requires
        forall|i: int| 0 <= i < keep.len() ==> #[trigger] keep[i],
    ensures
        true_count(keep) == keep.len(),
    decreases keep.len(),
{
    if keep.len() > 0 {
        lemma_true_count_all(keep.drop_last());
    }
}

/// A rising list of `n` positions below `n` is `0 .. n` itself.
proof fn lemma_all_kept_positions(p: Seq<usize>, n: int, t: int)
    requires
        p.len() == n,
        forall|t1: int| 0 <= t1 < p.len() ==> #[trigger] p[t1] < n,
        forall|t1: int, t2: int| 0 <= t1 < t2 < p.len() ==> #[trigger] p[t1] < #[trigger] p[t2],
        0 <= t < n,
    ensures
        p[t] == t,
{
    lemma_rising_lower(p, t);
    lemma_rising_upper(p, n, t);
}

proof fn lemma_rising_lower(p: Seq<usize>, t: int)
    requires
        forall|t1: int, t2: int| 0 <= t1 < t2 < p.len() ==> #[trigger] p[t1] < #[trigger] p[t2],
        0 <= t < p.len(),
    ensures
        p[t] >= t,
    decreases t,
{
    if t > 0 {
        lemma_rising_lower(p, t - 1);
        assert(p[t - 1] < p[t]);
    }
}

proof fn lemma_rising_upper(p: Seq<usize>, n: int, t: int)
    requires
        p.len() == n,
        forall|t1: int| 0 <= t1 < p.len() ==> #[trigger] p[t1] < n,
        forall|t1: int, t2: int| 0 <= t1 < t2 < p.len() ==> #[trigger] p[t1] < #[trigger] p[t2],
        0 <= t < n,
    ensures
        p[t] <= t,
    decreases n - t,
{
    if t < n - 1 {
        lemma_rising_upper(p, n, t + 1);
        assert(p[t] < p[t + 1]);
    }
}

} // verus!
