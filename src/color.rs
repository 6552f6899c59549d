use vstd::prelude::*;

verus! {

/// One symbol of the alphabet.
#[derive(Clone, Copy, PartialEq, Eq, Structural, Debug)]
pub enum Color {
    Red,
    Green,
    Blue,
    Yellow,
}

/// The alphabet in its fixed enumeration order.
pub open spec fn alphabet() -> Seq<Color> {
    seq![Color::Red, Color::Green, Color::Blue, Color::Yellow]
}

/// The number of symbols in the alphabet.
pub const ALPHABET_SIZE: usize = 4;

impl Color {
    /// Position of the colour in the enumeration order, counted from one.
    pub open spec fn spec_index(self) -> nat {
        match self {
            Color::Red => 1,
            Color::Green => 2,
            Color::Blue => 3,
            Color::Yellow => 4,
        }
    }

    /// Position of the colour in the enumeration order, counted from one.
    pub fn index(&self) -> (r: usize)
        ensures
            r == self.spec_index(),
            1 <= r <= ALPHABET_SIZE,
            alphabet()[r - 1] == *self,
    {
        match self {
            Color::Red => 1,
            Color::Green => 2,
            Color::Blue => 3,
            Color::Yellow => 4,
        }
    }

    /// One-letter abbreviation of the colour.
    pub fn abbrev(&self) -> (r: char)
        ensures
            r == match *self {
                Color::Red => 'r',
                Color::Green => 'g',
                Color::Blue => 'b',
                Color::Yellow => 'y',
            },
    {
        match self {
            Color::Red => 'r',
            Color::Green => 'g',
            Color::Blue => 'b',
            Color::Yellow => 'y',
        }
    }

    /// Every colour, in enumeration order.
    pub fn all() -> (r: [Color; 4])
        ensures
            r@ == alphabet(),
    {
        let r = [Color::Red, Color::Green, Color::Blue, Color::Yellow];
        assert(r@ =~= alphabet());
        r
    }

    /// The colour at a zero-based position of the enumeration order.
    pub fn from_position(i: usize) -> (r: Color)
        requires
            i < ALPHABET_SIZE,
        ensures
            r == alphabet()[i as int],
    {
        if i == 0 {
            Color::Red
        } else if i == 1 {
            Color::Green
        } else if i == 2 {
            Color::Blue
        } else {
            Color::Yellow
        }
    }
}

} // verus!
