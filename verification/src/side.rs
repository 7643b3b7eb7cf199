use vstd::prelude::*;

use crate::scene::{Group, Scene};

verus! {

/// How a computer-controlled side weighs the enemy fleets it may attack.
#[derive(Clone, Copy, Debug, PartialEq, Eq, Structural)]
pub enum ChooseEnemy {
    ByStrength,
    ByGroupStrength,
    MulBoth,
}

/// A colour as four channels, red, green, blue and alpha.
#[derive(Clone, Copy, Debug, PartialEq, Eq, Structural)]
pub struct Color {
    pub r: u8,
    pub g: u8,
    pub b: u8,
    pub a: u8,
}

/// One of the parties of the battle. `id` is the number that tells this
/// side apart from every other side; `==` on sides compares their names.
#[derive(Debug)]
pub struct Side {
    pub id: u64,
    pub name: String,
    pub color: Color,
    pub player_controled: bool,
    pub choose_enemy: ChooseEnemy,
}

impl PartialEq for Side {
    fn eq(&self, other: &Self) -> (r: bool) {
        self.name == other.name
    }
}

impl vstd::std_specs::cmp::PartialEqSpecImpl for Side {
    open spec fn obeys_eq_spec() -> bool {
        true
    }

    open spec fn eq_spec(&self, other: &Self) -> bool {
        self.name@ == other.name@
    }
}

impl Eq for Side {}

impl Clone for Side {
    fn clone(&self) -> (r: Self)
        ensures
            r == *self,
    {
        Side {
            id: self.id,
            name: self.name.clone(),
            color: self.color,
            player_controled: self.player_controled,
            choose_enemy: self.choose_enemy,
        }
    }
}

impl Side {
    /// Whether `self` and `other` are one and the same side.
    pub open spec fn same_side(&self, other: &Side) -> bool {
        self.id == other.id
    }

    /// Whether `self` and `other` have the same name.
    pub open spec fn same_name(&self, other: &Side) -> bool {
        self.name@ == other.name@
    }

    /// A new side numbered `id`; computer-controlled sides choose their
    /// enemies by group strength.
    pub fn new(id: u64, name: String, color: Color, player_controled: bool) -> (s: Side)
        ensures
            s.id == id,
            s.name == name,
            s.color == color,
            s.player_controled == player_controled,
            s.choose_enemy == ChooseEnemy::ByGroupStrength,
    {
        Side { id: id, name: name, color: color, player_controled: player_controled, choose_enemy: ChooseEnemy::ByGroupStrength }
    }

    /// What a side does for each of its groups on a turn: nothing.
    pub fn each_group(&mut self, group: &Group, scene: &Scene)
        ensures
            *final(self) == *old(self),
    {
    }
}

} // verus!
