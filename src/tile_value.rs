use vstd::prelude::*;

verus! {

/// `n` is 1, 2, 4, 8, ...
pub open spec fn is_power_of_two(n: nat) -> bool
    decreases n,
{
    if n <= 1 {
        n == 1
    } else {
        n % 2 == 0 && is_power_of_two(n / 2)
    }
}

/// The magnitudes a tile can carry: powers of two from 2 upward.
pub open spec fn is_tile_magnitude(n: nat) -> bool {
    n >= 2 && is_power_of_two(n)
}

/// The face value of a merge tile: a power of two, at least 2.
#[derive(Debug, Clone, Copy, PartialEq, Eq, Structural)]
pub struct TileValue(usize);

impl View for TileValue {
    type V = nat;

    closed spec fn view(&self) -> nat {
        self.0 as nat
    }
}

/// Doubling a power of two gives a power of two.
pub proof fn lemma_power_of_two_double(n: nat)
    requires
        is_power_of_two(n),
    ensures
        is_power_of_two(2 * n),
{
    assert((2 * n) / 2 == n);
}

impl TileValue {
    #[verifier::type_invariant]
    spec fn well_formed(self) -> bool {
        is_tile_magnitude(self.0 as nat)
    }

    /// A tile of the given magnitude, or `None` where it is not a power of two of at least 2.
    pub fn new(value: usize) -> (r: Option<TileValue>)
        ensures
            r is Some <==> is_tile_magnitude(value as nat),
            r matches Some(t) ==> t@ == value,
    {
        if value < 2 {
            return None;
        }
        let mut v: usize = value;
        while v % 2 == 0
            invariant
                v >= 1,
                is_power_of_two(value as nat) == is_power_of_two(v as nat),
            decreases v,
        {
            v = v / 2;
        }
        if v == 1 {
            Some(TileValue(value))
        } else {
            None
        }
    }

    /// The tile that two equal tiles of this value merge into: double the magnitude.
    pub fn next_value(&self) -> (r: TileValue)
        requires
            2 * self@ <= usize::MAX,
        ensures
            r@ == 2 * self@,
    {
        proof {
            use_type_invariant(self);
            lemma_power_of_two_double(self.0 as nat);
        }
        TileValue(self.0 * 2)
    }

    /// The magnitude as an unsigned integer, for scoring and display.
    pub fn get(&self) -> (r: usize)
        ensures
            r == self@,
            is_tile_magnitude(r as nat),
    {
        proof {
            use_type_invariant(self);
        }
        self.0
    }
}

impl From<TileValue> for usize {
    fn from(t: TileValue) -> (r: usize) {
        t.get()
    }
}

impl vstd::std_specs::convert::FromSpecImpl<TileValue> for usize {
    open spec fn obeys_from_spec() -> bool {
        true
    }

    open spec fn from_spec(t: TileValue) -> usize {
        t@ as usize
    }
}

} // verus!
