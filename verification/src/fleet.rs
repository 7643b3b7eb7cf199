use vstd::prelude::*;

use crate::scene::{Event, MouseButton, Scene};
use crate::side::Side;

verus! {

/// The shape in which a fleet's ships are drawn up.
#[derive(Clone, Copy, Debug, PartialEq, Eq, Structural)]
pub enum Formation {
    Triangle,
    Rect,
}

/// What the scene's bookkeeping knows of a fleet: the number that tells
/// it apart from every other fleet, its side, the group it was put in
/// (0 for none) and the fleet it has been ordered to attack, by number.
#[derive(Debug)]
pub struct FleetTag {
    pub id: u64,
    pub side: Side,
    pub group: usize,
    pub target: Option<u64>,
}

impl Clone for FleetTag {
    fn clone(&self) -> (r: Self)
        ensures
            r == *self,
    {
        FleetTag { id: self.id, side: self.side.clone(), group: self.group, target: self.target }
    }
}

impl FleetTag {
    /// A fleet of `side`, in no group and with no target yet.
    pub fn new(id: u64, side: Side) -> (f: FleetTag)
        ensures
            f.id == id,
            f.side == side,
            f.group == 0,
            f.target is None,
    {
        FleetTag { id: id, side: side, group: 0, target: None }
    }

    pub fn side(&self) -> (s: &Side)
        ensures
            *s == self.side,
    {
        &self.side
    }

    pub open spec fn spec_is_enemy(&self, other: &FleetTag) -> bool {
        !self.side.same_side(&other.side)
    }

    /// Fleets of different sides are enemies.
    pub fn is_enemy(&self, other: &FleetTag) -> (r: bool)
        ensures
            r == self.spec_is_enemy(other),
    {
        self.side.id != other.side.id
    }
}

/// Enmity is symmetric, and no fleet is its own enemy.
pub proof fn lemma_enmity_symmetric_irreflexive(a: FleetTag, b: FleetTag)
    ensures
        a.spec_is_enemy(&b) == b.spec_is_enemy(&a),
        !a.spec_is_enemy(&a),
{
}


/// How a fleet answered an event.
#[derive(Clone, Copy, Debug, PartialEq, Eq, Structural)]
pub enum Order {
    /// The event was not for this fleet.
    Ignored,
    /// The fleet took a clicked fleet as its target.
    Targeted,
    /// The fleet is to head for the clicked point.
    MoveTo { x: i32, y: i32 },
}

/// The position of the first of `fleets[k..]` that the click hit and
/// that is not the fleet numbered `me`.
pub open spec fn first_hit_from(fleets: Seq<FleetTag>, hits: Seq<bool>, me: u64, k: int) -> Option<int>
    decreases fleets.len() - k,
{
    if k < 0 || k >= fleets.len() {
        None
    } else if fleets[k].id != me && hits[k] {
        Some(k)
    } else {
        first_hit_from(fleets, hits, me, k + 1)
    }
}

/// The position of the first of `fleets[k..]` numbered `id`.
pub open spec fn position_from(fleets: Seq<FleetTag>, id: u64, k: int) -> Option<int>
    decreases fleets.len() - k,
{
    if k < 0 || k >= fleets.len() {
        None
    } else if fleets[k].id == id {
        Some(k)
    } else {
        position_from(fleets, id, k + 1)
    }
}

/// Where the fleet's target stands in `fleets`: nowhere when it has no
/// target, when the target is the fleet itself, or when the target is no
/// longer among the fleets.
pub open spec fn target_position(me: FleetTag, fleets: Seq<FleetTag>) -> Option<int> {
    match me.target {
        None => None,
        Some(t) => if t == me.id {
            None
        } else {
            position_from(fleets, t, 0)
        },
    }
}

impl FleetTag {
    /// Takes as target the first other fleet of the scene that the click
    /// hit (`hits[i]` tells whether the click point lies in fleet `i`'s
    /// box), and tells whether there was one; without one the target is
    /// kept.
    pub fn set_target(&mut self, hits: &Vec<bool>, scene: &Scene) -> (r: bool)
        requires
            hits.len() == scene.fleets.len(),
        ensures
            final(self).id == old(self).id,
            final(self).side == old(self).side,
            final(self).group == old(self).group,
            match first_hit_from(scene.fleets@, hits@, old(self).id, 0) {
                Some(i) => r && final(self).target == Some(scene.fleets@[i].id),
                None => !r && final(self).target == old(self).target,
            },
    {
        for i in 0..scene.fleets.len()
            invariant
                hits.len() == scene.fleets.len(),
                *self == *old(self),
                first_hit_from(scene.fleets@, hits@, self.id, 0) == first_hit_from(
                    scene.fleets@,
                    hits@,
                    self.id,
                    i as int,
                ),
        {
            if scene.fleets[i].id != self.id && hits[i] {
                self.target = Some(scene.fleets[i].id);
                return true;
            }
        }
        false
    }

    /// The position in the scene of the fleet this fleet targets, for the
    /// caller to read (see `target_position`).
    pub fn map_target(&self, scene: &Scene) -> (r: Option<usize>)
        ensures
            match target_position(*self, scene.fleets@) {
                Some(i) => r == Some(i as usize),
                None => r is None,
            },
    {
        match self.target {
            None => None,
            Some(t) => {
                if t == self.id {
                    None
                } else {
                    for i in 0..scene.fleets.len()
                        invariant
                            self.target == Some(t),
                            t != self.id,
                            position_from(scene.fleets@, t, 0) == position_from(
                                scene.fleets@,
                                t,
                                i as int,
                            ),
                    {
                        if scene.fleets[i].id == t {
                            assert(position_from(scene.fleets@, t, i as int) == Some(i as int));
                            return Some(i);
                        }
                    }
                    None
                }
            },
        }
    }

    /// The position in the scene of the fleet this fleet targets, for the
    /// caller to change; found as `map_target` finds it.
    pub fn map_target_mut(&self, scene: &Scene) -> (r: Option<usize>)
        ensures
            match target_position(*self, scene.fleets@) {
                Some(i) => r == Some(i as usize),
                None => r is None,
            },
    {
        self.map_target(scene)
    }

    /// A right click, when this fleet is the selected one, sets its
    /// target to the clicked fleet or, when no other fleet was clicked,
    /// sends it to the clicked point. Other events leave it alone.
    pub fn event(&mut self, e: &Event, scene: &Scene, hits: &Vec<bool>, selected: bool) -> (r: Order)
        requires
            hits.len() == scene.fleets.len(),
        ensures
            final(self).id == old(self).id,
            final(self).side == old(self).side,
            final(self).group == old(self).group,
            match *e {
                Event::MouseButtonDown { mouse_btn: MouseButton::Right, x, y } if selected => {
                    match first_hit_from(scene.fleets@, hits@, old(self).id, 0) {
                        Some(i) => r == Order::Targeted && final(self).target == Some(
                            scene.fleets@[i].id,
                        ),
                        None => r == (Order::MoveTo { x: x, y: y }) && final(self).target
                            == old(self).target,
                    }
                },
                _ => r == Order::Ignored && *final(self) == *old(self),
            },
    {
        match e {
            Event::MouseButtonDown { mouse_btn, x, y } => {
                if *mouse_btn == MouseButton::Right {
                    if selected {
                        if !self.set_target(hits, scene) {
                            Order::MoveTo { x: *x, y: *y }
                        } else {
                            Order::Targeted
                        }
                    } else {
                        Order::Ignored
                    }
                } else {
                    Order::Ignored
                }
            },
            Event::MouseButtonUp { .. } => Order::Ignored,
            _ => Order::Ignored,
        }
    }
}

/// A fleet never takes itself as target, and a target it finds is a
/// fleet the click hit.
pub proof fn lemma_target_is_another_hit_fleet(fleets: Seq<FleetTag>, hits: Seq<bool>, me: u64, k: int)
    requires
        hits.len() == fleets.len(),
        0 <= k,
    ensures
        first_hit_from(fleets, hits, me, k) matches Some(i) ==> k <= i < fleets.len() && fleets[i].id
            != me && hits[i],
    decreases fleets.len() - k,
{
    if k < fleets.len() && !(fleets[k].id != me && hits[k]) {
        lemma_target_is_another_hit_fleet(fleets, hits, me, k + 1);
    }
}

/// What `map_target` hands out is the position of a fleet numbered as the
/// target, and never the fleet itself.
pub proof fn lemma_target_position_is_target(me: FleetTag, fleets: Seq<FleetTag>)
    ensures
        target_position(me, fleets) matches Some(i) ==> 0 <= i < fleets.len() && me.target == Some(
            fleets[i].id,
        ) && fleets[i].id != me.id,
{
    if let Some(t) = me.target {
        if t != me.id {
            lemma_position_found(fleets, t, 0);
        }
    }
}

proof fn lemma_position_found(fleets: Seq<FleetTag>, id: u64, k: int)
    requires
        0 <= k,
    ensures
        position_from(fleets, id, k) matches Some(i) ==> k <= i < fleets.len() && fleets[i].id == id,
    decreases fleets.len() - k,
{
    if k < fleets.len() && fleets[k].id != id {
        lemma_position_found(fleets, id, k + 1);
    }
}


/// A child of a `Parent`, known by its name, with a link to a sibling
/// that nothing sets.
#[derive(Debug)]
#[allow(dead_code)]
struct Child {
    id: String,
    target: Option<usize>,
}

/// A holder of children that lets each look at the others.
#[derive(Debug)]
#[allow(dead_code)]
struct Parent {
    childs: Vec<Child>,
}

impl Clone for Child {
    fn clone(&self) -> (r: Self)
        ensures
            r == *self,
    {
        Child { id: self.id.clone(), target: self.target }
    }
}

#[allow(dead_code)]
impl Parent {
    /// Lets every child, in turn, look at its siblings.
    fn update(&self) {
        for k in 0..self.childs.len() {
            let mut c = self.childs[k].clone();
            c.update(k, self);
        }
    }
}

#[allow(dead_code)]
impl Child {
    /// Looks among the siblings (the child at position `me` being itself)
    /// for the first one named "C" with a name other than its own; it
    /// keeps no link to what it finds, so nothing changes.
    fn update(&mut self, me: usize, parent: &Parent)
        ensures
            *final(self) == *old(self),
    {
        let c_name = "C".to_owned();
        for k in 0..parent.childs.len() {
            if k != me {
                if parent.childs[k].id == c_name && self.id != parent.childs[k].id {
                    return;
                }
            }
        }
    }

    fn new(id: String) -> (c: Child)
        ensures
            c.id == id,
            c.target is None,
    {
        Child { id: id, target: None }
    }
}


/// No two fleets carry the same number.
pub open spec fn distinct_ids(fleets: Seq<FleetTag>) -> bool {
    forall|i: int, j: int|
        0 <= i < fleets.len() && 0 <= j < fleets.len() && i != j ==> #[trigger] fleets[i].id
            != #[trigger] fleets[j].id
}

/// Where no two fleets share a number, looking a fleet up by its number
/// finds that very fleet.
pub proof fn lemma_position_of_distinct(fleets: Seq<FleetTag>, i: int)
    requires
        distinct_ids(fleets),
        0 <= i < fleets.len(),
    ensures
        position_from(fleets, fleets[i].id, 0) == Some(i),
{
    lemma_position_from_below(fleets, i, 0);
}

proof fn lemma_position_from_below(fleets: Seq<FleetTag>, i: int, k: int)
    requires
        distinct_ids(fleets),
        0 <= k <= i < fleets.len(),
    ensures
        position_from(fleets, fleets[i].id, k) == Some(i),
    decreases i - k,
{
    if k < i {
        assert(fleets[k].id != fleets[i].id);
        lemma_position_from_below(fleets, i, k + 1);
    }
}


/// A click hit fleet `i`, and it is not the fleet numbered `me`.
pub open spec fn hit_other(fleets: Seq<FleetTag>, hits: Seq<bool>, me: u64, i: int) -> bool {
    hits[i] && fleets[i].id != me
}

proof fn lemma_first_hit_from(fleets: Seq<FleetTag>, hits: Seq<bool>, me: u64, k: int)
    requires
        hits.len() == fleets.len(),
        0 <= k <= fleets.len(),
    ensures
        match first_hit_from(fleets, hits, me, k) {
            Some(j) => k <= j < fleets.len() && hit_other(fleets, hits, me, j) && forall|m: int|
                k <= m < j ==> !#[trigger] hit_other(fleets, hits, me, m),
            None => forall|m: int| k <= m < fleets.len() ==> !#[trigger] hit_other(fleets, hits, me, m),
        },
    decreases fleets.len() - k,
{
    if k < fleets.len() {
        lemma_first_hit_from(fleets, hits, me, k + 1);
    }
}

/// Taking a clicked fleet as target: the target found is a fleet the
/// click hit, other than the fleet numbered `me`, with no such fleet
/// before it; and whenever the click hit such a fleet at any position
/// (the first fleet of the scene included), a target is found at that
/// position or before it.
pub proof fn lemma_target_is_first_other_hit(fleets: Seq<FleetTag>, hits: Seq<bool>, me: u64)
    requires
        hits.len() == fleets.len(),
    ensures
        first_hit_from(fleets, hits, me, 0) matches Some(j) ==> {
            &&& 0 <= j < fleets.len()
            &&& hits[j]
            &&& fleets[j].id != me
            &&& forall|m: int| 0 <= m < j ==> !(#[trigger] hits[m] && fleets[m].id != me)
        },
        forall|i: int|
            0 <= i < fleets.len() && #[trigger] hits[i] && fleets[i].id != me ==> (first_hit_from(
                fleets,
                hits,
                me,
                0,
            ) matches Some(j) && j <= i),
{
    lemma_first_hit_from(fleets, hits, me, 0);
    if let Some(j) = first_hit_from(fleets, hits, me, 0) {
        assert forall|m: int| 0 <= m < j implies !(#[trigger] hits[m] && fleets[m].id != me) by {
            assert(!hit_other(fleets, hits, me, m));
        }
    }
    assert forall|i: int| 0 <= i < fleets.len() && #[trigger] hits[i] && fleets[i].id != me implies (
    first_hit_from(fleets, hits, me, 0) matches Some(j) && j <= i) by {
        assert(hit_other(fleets, hits, me, i));
    }
}

proof fn lemma_position_from_first(fleets: Seq<FleetTag>, id: u64, k: int)
    requires
        0 <= k <= fleets.len(),
    ensures
        match position_from(fleets, id, k) {
            Some(j) => k <= j < fleets.len() && fleets[j].id == id && forall|m: int|
                k <= m < j ==> #[trigger] fleets[m].id != id,
            None => forall|m: int| k <= m < fleets.len() ==> #[trigger] fleets[m].id != id,
        },
    decreases fleets.len() - k,
{
    if k < fleets.len() {
        lemma_position_from_first(fleets, id, k + 1);
    }
}

/// Finding the target again: what is found is a fleet bearing the
/// target's number, not the fleet itself, with no fleet bearing that
/// number before it; and whenever the target is another fleet that stands
/// anywhere in the scene (the first position included), it is found, at
/// that position or before it. With no target, or the fleet itself as
/// target, nothing is found.
pub proof fn lemma_target_found_wherever_it_stands(me: FleetTag, fleets: Seq<FleetTag>)
    ensures
        target_position(me, fleets) matches Some(j) ==> {
            &&& 0 <= j < fleets.len()
            &&& me.target == Some(fleets[j].id)
            &&& fleets[j].id != me.id
            &&& forall|m: int| 0 <= m < j ==> #[trigger] fleets[m].id != fleets[j].id
        },
        forall|i: int|
            0 <= i < fleets.len() && me.target == Some(#[trigger] fleets[i].id) && fleets[i].id != me.id
                ==> (target_position(me, fleets) matches Some(j) && j <= i),
        (me.target is None || me.target == Some(me.id)) ==> target_position(me, fleets) is None,
{
    if let Some(t) = me.target {
        lemma_position_from_first(fleets, t, 0);
    }
}

} // verus!
