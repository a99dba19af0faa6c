//! The environment contract: grid bounds, the legal actions, persistent
//! elements of the terrain and a store of auxiliary scenario data.
use std::collections::HashMap;

use vstd::prelude::*;

use crate::agent::random_index;
use crate::value::Value;

verus! {

broadcast use vstd::std_specs::hash::group_hash_axioms;

/// The size of the grid, in cells.
#[derive(Debug, Clone, Copy, PartialEq, Eq, Structural)]
pub struct GridSize {
    pub width: usize,
    pub heigth: usize,
}

/// A cell of the grid.
#[derive(Debug, Clone, Copy, PartialEq, Eq, Hash, Structural)]
pub struct Position {
    pub x: i32,
    pub y: i32,
}

/// The key under which the persistent element of a cell is stored: the two
/// coordinates' bit patterns side by side.
pub open spec fn cell_key(p: Position) -> u64 {
    ((p.x as u32) as int * 0x1_0000_0000 + (p.y as u32) as int) as u64
}

/// Computes [`cell_key`].
pub fn cell_key_of(p: Position) -> (r: u64)
    ensures
        r == cell_key(p),
{
    let hi = p.x as u32 as u64;
    let lo = p.y as u32 as u64;
    hi * 0x1_0000_0000 + lo
}

/// A grid world. `C` is the attribute of a persistent element, such as its
/// display color.
pub struct Env<C> {
    pub size: GridSize,
    /// The legal actions.
    pub actions: Vec<u32>,
    /// Elements with a long-lived position (walls, goals, ...), by [`cell_key`].
    pub persistent_elements: HashMap<u64, (Position, C)>,
    /// Auxiliary data that transition functions keep.
    pub data: HashMap<u32, Value>,
}

/// The map of persistent elements that a list of them gives; a later element
/// of a cell replaces an earlier one.
pub open spec fn elements_map<C>(elements: Seq<(Position, C)>) -> Map<u64, (Position, C)>
    decreases elements.len(),
{
    if elements.len() == 0 {
        Map::empty()
    } else {
        let e = elements.last();
        elements_map(elements.drop_last()).insert(cell_key(e.0), e)
    }
}

impl<C: Copy> Env<C> {
    /// Whether `p` lies on the grid.
    pub open spec fn inbound(&self, p: Position) -> bool {
        0 <= p.x < self.size.width && 0 <= p.y < self.size.heigth
    }

    /// A grid of `size` with the given legal actions, persistent elements and data.
    pub fn new(
        size: GridSize,
        persistent_elements: Vec<(Position, C)>,
        actions: Vec<u32>,
        data: HashMap<u32, Value>,
    ) -> (r: Env<C>)
        ensures
            r.size == size,
            r.actions == actions,
            r.persistent_elements@ == elements_map(persistent_elements@),
            r.data == data,
    {
        let mut env = Env { size, actions, persistent_elements: HashMap::new(), data };
        env.set_persitent_elements(persistent_elements);
        env
    }

    pub fn get_width(&self) -> (r: usize)
        ensures
            r == self.size.width,
    {
        self.size.width
    }

    pub fn get_heigth(&self) -> (r: usize)
        ensures
            r == self.size.heigth,
    {
        self.size.heigth
    }

    /// Whether `position` lies on the grid.
    pub fn position_inbound(&self, position: Position) -> (r: bool)
        ensures
            r == self.inbound(position),
    {
        position.x >= 0 && (position.x as usize) < self.size.width && position.y >= 0
            && (position.y as usize) < self.size.heigth
    }

    /// A cell of the grid drawn uniformly at random.
    pub fn get_random_position(&self) -> (r: Position)
        requires
            0 < self.size.width <= i32::MAX,
            0 < self.size.heigth <= i32::MAX,
        ensures
            self.inbound(r),
    {
        let x = random_index(self.size.width);
        let y = random_index(self.size.heigth);
        Position { x: x as i32, y: y as i32 }
    }

    /// Replaces every persistent element by the given ones.
    pub fn set_persitent_elements(&mut self, persistent_elements: Vec<(Position, C)>)
        ensures
            final(self).persistent_elements@ == elements_map(persistent_elements@),
            final(self).size == old(self).size,
            final(self).actions == old(self).actions,
            final(self).data == old(self).data,
    {
        let mut elements: HashMap<u64, (Position, C)> = HashMap::new();
        let mut i: usize = 0;
        while i < persistent_elements.len()
            invariant
                0 <= i <= persistent_elements@.len(),
                elements@ == elements_map(persistent_elements@.take(i as int)),
            decreases persistent_elements.len() - i,
        {
            let e = persistent_elements[i];
            let k = cell_key_of(e.0);
            elements.insert(k, e);
            assert(persistent_elements@.take(i as int + 1).drop_last() =~= persistent_elements@.take(
                i as int,
            ));
            i = i + 1;
        }
        assert(persistent_elements@.take(i as int) =~= persistent_elements@);
        self.persistent_elements = elements;
    }

    /// Places (or replaces) the persistent element of `position`.
    pub fn update_persistent_element(&mut self, position: Position, element: C)
        ensures
            final(self).persistent_elements@ == old(self).persistent_elements@.insert(
                cell_key(position),
                (position, element),
            ),
            final(self).size == old(self).size,
            final(self).actions == old(self).actions,
            final(self).data == old(self).data,
    {
        let k = cell_key_of(position);
        self.persistent_elements.insert(k, (position, element));
    }

    /// Moves the persistent element of `current_position`, if any, to `new_position`.
    pub fn move_persistent_element(&mut self, current_position: Position, new_position: Position)
        ensures
            ({
                let before = old(self).persistent_elements@;
                let from = cell_key(current_position);
                let after = final(self).persistent_elements@;
                if before.contains_key(from) {
                    after == before.remove(from).insert(
                        cell_key(new_position),
                        (new_position, before[from].1),
                    )
                } else {
                    after == before
                }
            }),
            final(self).size == old(self).size,
            final(self).actions == old(self).actions,
            final(self).data == old(self).data,
    {
        let from = cell_key_of(current_position);
        if let Some(element) = self.persistent_elements.remove(&from) {
            let to = cell_key_of(new_position);
            self.persistent_elements.insert(to, (new_position, element.1));
        }
    }

    /// The persistent element of `position`, if any.
    pub fn persistent_element_at(&self, position: Position) -> (r: Option<&C>)
        ensures
            r is Some <==> self.persistent_elements@.contains_key(cell_key(position)),
            r matches Some(c) ==> *c == self.persistent_elements@[cell_key(position)].1,
    {
        let k = cell_key_of(position);
        match self.persistent_elements.get(&k) {
            Some(e) => Some(&e.1),
            None => None,
        }
    }
}

} // verus!
