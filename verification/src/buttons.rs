use vstd::prelude::*;

verus! {

/// The buttons held during one tick, one bit each. The set is sampled afresh
/// every tick and keeps nothing between ticks.
#[derive(Copy, Clone, Debug, PartialEq, Eq, Structural)]
pub struct Buttons {
    pub bits: u8,
}

pub const LEFT_BIT: u8 = 0x01;

pub const RIGHT_BIT: u8 = 0x02;

pub const DOWN_BIT: u8 = 0x04;

pub const RUN_BIT: u8 = 0x08;

pub const JUMP_BIT: u8 = 0x10;

pub const ALL_BITS: u8 = 0x1f;

impl Buttons {
    /// Move left.
    pub fn left() -> (r: Buttons)
        ensures
            r.bits == LEFT_BIT,
    {
        Buttons { bits: LEFT_BIT }
    }

    /// Move right.
    pub fn right() -> (r: Buttons)
        ensures
            r.bits == RIGHT_BIT,
    {
        Buttons { bits: RIGHT_BIT }
    }

    /// Fall faster. Reserved by the host; the kernel reads it while falling.
    pub fn down() -> (r: Buttons)
        ensures
            r.bits == DOWN_BIT,
    {
        Buttons { bits: DOWN_BIT }
    }

    /// Run. Reserved by the host; the kernel scales the top speed by it.
    pub fn run() -> (r: Buttons)
        ensures
            r.bits == RUN_BIT,
    {
        Buttons { bits: RUN_BIT }
    }

    /// Jump.
    pub fn jump() -> (r: Buttons)
        ensures
            r.bits == JUMP_BIT,
    {
        Buttons { bits: JUMP_BIT }
    }

    pub open spec fn left_held(self) -> bool {
        self.bits & LEFT_BIT == LEFT_BIT
    }

    pub open spec fn right_held(self) -> bool {
        self.bits & RIGHT_BIT == RIGHT_BIT
    }

    pub open spec fn down_held(self) -> bool {
        self.bits & DOWN_BIT == DOWN_BIT
    }

    pub open spec fn run_held(self) -> bool {
        self.bits & RUN_BIT == RUN_BIT
    }

    pub open spec fn jump_held(self) -> bool {
        self.bits & JUMP_BIT == JUMP_BIT
    }

    /// Whether every button of `other` is held.
    pub open spec fn holds(self, other: Buttons) -> bool {
        self.bits & other.bits == other.bits
    }

    /// No button.
    pub fn empty() -> (r: Buttons)
        ensures
            r.bits == 0,
    {
        Buttons { bits: 0 }
    }

    /// The buttons that `bits` names; bits that name none are dropped.
    pub fn from_bits_truncate(bits: u8) -> (r: Buttons)
        ensures
            r.bits == bits & ALL_BITS,
    {
        Buttons { bits: bits & ALL_BITS }
    }

    /// The set as bits.
    pub fn bits(&self) -> (r: u8)
        ensures
            r == self.bits,
    {
        self.bits
    }

    /// Whether every button of `other` is held.
    pub fn contains(&self, other: Buttons) -> (r: bool)
        ensures
            r == self.holds(other),
    {
        self.bits & other.bits == other.bits
    }

    /// Both sets together.
    pub fn union(self, other: Buttons) -> (r: Buttons)
        ensures
            r.bits == self.bits | other.bits,
    {
        Buttons { bits: self.bits | other.bits }
    }

    /// Adds the buttons of `other`.
    pub fn insert(&mut self, other: Buttons)
        ensures
            final(self).bits == old(self).bits | other.bits,
    {
        self.bits = self.bits | other.bits;
    }
}

} // verus!
