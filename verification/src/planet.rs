use vstd::prelude::*;

verus! {

/// The nine bodies the VSOP2013 tables cover, in the order of their
/// coefficient blocks within a table.
#[derive(Copy, Clone, Debug, PartialEq, Eq, Structural)]
pub enum Planet {
    Mercury,
    Venus,
    Earth,
    Mars,
    Jupiter,
    Saturn,
    Uranus,
    Neptune,
    Pluto,
}

impl Planet {
    /// Position of this body in the layout order.
    pub open spec fn index_spec(self) -> u32 {
        match self {
            Planet::Mercury => 0,
            Planet::Venus => 1,
            Planet::Earth => 2,
            Planet::Mars => 3,
            Planet::Jupiter => 4,
            Planet::Saturn => 5,
            Planet::Uranus => 6,
            Planet::Neptune => 7,
            Planet::Pluto => 8,
        }
    }

    /// Stable integer encoding of this body.
    pub fn index(self) -> (i: u32)
        ensures
            i == self.index_spec(),
            i < 9,
    {
        match self {
            Planet::Mercury => 0,
            Planet::Venus => 1,
            Planet::Earth => 2,
            Planet::Mars => 3,
            Planet::Jupiter => 4,
            Planet::Saturn => 5,
            Planet::Uranus => 6,
            Planet::Neptune => 7,
            Planet::Pluto => 8,
        }
    }

    /// All nine bodies in layout order.
    pub fn iter() -> (r: Vec<Planet>)
        ensures
            r@.len() == 9,
            forall|i: int| 0 <= i < 9 ==> (#[trigger] r@[i]).index_spec() == i,
    {
        let r = vec![
            Planet::Mercury,
            Planet::Venus,
            Planet::Earth,
            Planet::Mars,
            Planet::Jupiter,
            Planet::Saturn,
            Planet::Uranus,
            Planet::Neptune,
            Planet::Pluto,
        ];
        assert(forall|i: int| 0 <= i < 9 ==> (#[trigger] r@[i]).index_spec() == i);
        r
    }

    /// Characters of this body's display name.
    pub open spec fn name_spec(self) -> Seq<char> {
        match self {
            Planet::Mercury => "Mercury"@,
            Planet::Venus => "Venus"@,
            Planet::Earth => "Earth-Moon"@,
            Planet::Mars => "Mars"@,
            Planet::Jupiter => "Jupiter"@,
            Planet::Saturn => "Saturn"@,
            Planet::Uranus => "Uranus"@,
            Planet::Neptune => "Neptune"@,
            Planet::Pluto => "Pluto"@,
        }
    }

    /// Display name of this body.
    pub fn name(self) -> (r: &'static str)
        ensures
            r@ == self.name_spec(),
    {
        match self {
            Planet::Mercury => "Mercury",
            Planet::Venus => "Venus",
            Planet::Earth => "Earth-Moon",
            Planet::Mars => "Mars",
            Planet::Jupiter => "Jupiter",
            Planet::Saturn => "Saturn",
            Planet::Uranus => "Uranus",
            Planet::Neptune => "Neptune",
            Planet::Pluto => "Pluto",
        }
    }
}

} // verus!
