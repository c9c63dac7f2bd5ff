use vstd::prelude::*;

verus! {

/// Parts of the UK with shared bank holiday dates.
#[derive(Debug, Copy, Clone, PartialEq, Eq, Structural, Hash)]
pub enum Division {
    /// England and Wales
    EnglandAndWales,
    /// Scotland
    Scotland,
    /// Northern Ireland
    NorthernIreland,
}

/// Position of a division in the canonical order.
pub open spec fn division_index(d: Division) -> int {
    match d {
        Division::EnglandAndWales => 0,
        Division::Scotland => 1,
        Division::NorthernIreland => 2,
    }
}

/// The division at a position of the canonical order.
pub open spec fn division_at(i: int) -> Division
    recommends
        0 <= i < 3,
{
    if i == 0 {
        Division::EnglandAndWales
    } else if i == 1 {
        Division::Scotland
    } else {
        Division::NorthernIreland
    }
}

/// English name of a division.
pub open spec fn division_name(d: Division) -> Seq<char> {
    match d {
        Division::EnglandAndWales => "England and Wales"@,
        Division::Scotland => "Scotland"@,
        Division::NorthernIreland => "Northern Ireland"@,
    }
}

/// Index and division correspond one to one.
pub proof fn lemma_division_index(d: Division)
    ensures
        0 <= division_index(d) < 3,
        division_at(division_index(d)) == d,
{
}

impl Division {
    /// All divisions, in canonical order; England and Wales is first and is the default.
    pub fn all() -> (r: [Division; 3])
        ensures
            forall|i: int| 0 <= i < 3 ==> #[trigger] r@[i] == division_at(i),
    {
        [Division::EnglandAndWales, Division::Scotland, Division::NorthernIreland]
    }

    /// English name of this division.
    pub fn name(self) -> (r: &'static str)
        ensures
            r@ == division_name(self),
    {
        match self {
            Division::EnglandAndWales => "England and Wales",
            Division::Scotland => "Scotland",
            Division::NorthernIreland => "Northern Ireland",
        }
    }
}

} // verus!
