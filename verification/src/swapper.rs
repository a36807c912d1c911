//! A toy view that shows one city of a list at a time and, on each click,
//! swaps it for a different one at random.

use rand::rngs::ThreadRng;
use rand::Rng;
use vstd::prelude::*;

verus! {

#[verifier::external_type_specification]
#[verifier::external_body]
pub struct ExThreadRng(ThreadRng);

pub struct Swapper {
    pub swap_started: bool,
    pub city_list: Vec<String>,
    pub city_index: usize,
}

/// `rand::thread_rng`: the thread's generator, seeded by the system.
/// Nothing is stated of it.
#[verifier::external_body]
fn thread_rng() -> ThreadRng {
    rand::thread_rng()
}

/// `Rng::gen_range` over `0..n`, which panics only on an empty range: some
/// number below `n`, which one being up to chance.
#[verifier::external_body]
fn below(rng: &mut ThreadRng, n: usize) -> (r: usize)
    requires
        n > 0,
    ensures
        r < n,
{
    rng.gen_range(0..n)
}

/// The position that draw `draw` lands on among the cities other than
/// `current`: the draws below `current` keep their place, the rest move up
/// one to step over it.
pub open spec fn other_index(draw: int, current: int) -> int {
    if draw < current {
        draw
    } else {
        draw + 1
    }
}

impl Swapper {
    /// Whether there is a city other than the current one to swap to.
    pub open spec fn can_swap(&self) -> bool {
        self.city_list@.len() > 1 || (self.city_list@.len() == 1 && self.city_index != 0)
    }

    /// How many cities a swap draws among: all of them when the current index
    /// is out of the list, otherwise all but the current one.
    pub open spec fn draw_count(&self) -> int {
        if self.city_index < self.city_list@.len() {
            self.city_list@.len() - 1
        } else {
            self.city_list@.len() as int
        }
    }

    /// The position draw `draw` lands on.
    pub open spec fn lands_on(&self, draw: int) -> int {
        if self.city_index < self.city_list@.len() {
            other_index(draw, self.city_index as int)
        } else {
            draw
        }
    }

    /// The range a swap draws from: `0..r`.
    pub fn draw_range(&self) -> (r: usize)
        requires
            self.can_swap(),
        ensures
            r == self.draw_count(),
            r > 0,
    {
        let city_count = self.city_list.len();
        if self.city_index < city_count {
            city_count - 1
        } else {
            city_count
        }
    }

    /// The position a draw lands on: among all the cities when the current
    /// index is out of the list, otherwise among the others.
    pub fn landing(&self, draw: usize) -> (r: usize)
        requires
            self.can_swap(),
            draw < self.draw_count(),
        ensures
            r < self.city_list@.len(),
            r != self.city_index,
            r == self.lands_on(draw as int),
    {
        if self.city_index >= self.city_list.len() {
            draw
        } else if draw < self.city_index {
            draw
        } else {
            draw + 1
        }
    }

    /// Shows a different city, every other one being as likely: a number
    /// drawn from `0..draw_range()` picks it through `landing`.
    pub fn swap_city(&mut self)
        requires
            old(self).can_swap(),
        ensures
            exists|draw: int|
                0 <= draw < old(self).draw_count() && final(self).city_index == old(self).lands_on(
                    draw,
                ),
            final(self).city_index < final(self).city_list@.len(),
            final(self).city_index != old(self).city_index,
            final(self).city_list == old(self).city_list,
            final(self).swap_started == old(self).swap_started,
    {
        let mut rng = thread_rng();
        let choices = self.draw_range();
        let draw = below(&mut rng, choices);
        self.city_index = self.landing(draw);
    }
    /// What the view shows: a welcome until the first click, then the
    /// current city.
    pub fn text(&self) -> (r: String)
        requires
            self.swap_started ==> self.city_index < self.city_list@.len(),
        ensures
            !self.swap_started ==> r@ == "welcome"@,
            self.swap_started ==> r@ == self.city_list@[self.city_index as int]@,
    {
        if self.swap_started {
            self.city_list[self.city_index].clone()
        } else {
            String::from_str("welcome")
        }
    }

    /// A click: the first one leaves the welcome, each later one swaps the
    /// city.
    pub fn click(&mut self)
        requires
            old(self).swap_started ==> old(self).can_swap(),
        ensures
            final(self).swap_started,
            final(self).city_list == old(self).city_list,
            !old(self).swap_started ==> final(self).city_index == old(self).city_index,
            old(self).swap_started ==> final(self).city_index < final(self).city_list@.len()
                && final(self).city_index != old(self).city_index,
    {
        if self.swap_started {
            self.swap_city();
        } else {
            self.swap_started = true;
        }
    }
}

} // verus!
