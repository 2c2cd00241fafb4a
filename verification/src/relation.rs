use vstd::prelude::*;

verus! {

/// How one address range lies relative to another.
#[derive(Debug, Clone, Copy, PartialEq, Eq, Structural)]
pub enum Relation {
    Before,
    AdjacentBefore,
    Overlapping,
    AdjacentAfter,
    After,
}

/// The number that stands for a relation in a machine word.
pub open spec fn relation_code(relation: Relation) -> usize {
    match relation {
        Relation::Before => 0,
        Relation::AdjacentBefore => 1,
        Relation::Overlapping => 2,
        Relation::AdjacentAfter => 3,
        Relation::After => 4,
    }
}

/// The number that stands for `relation` in a machine word.
pub fn code_of(relation: Relation) -> (code: usize)
    ensures
        code == relation_code(relation),
        code <= 4,
{
    match relation {
        Relation::Before => 0,
        Relation::AdjacentBefore => 1,
        Relation::Overlapping => 2,
        Relation::AdjacentAfter => 3,
        Relation::After => 4,
    }
}

/// The relation that the number `code` stands for.
pub fn relation_of(code: usize) -> (relation: Relation)
    requires
        code <= 4,
    ensures
        relation_code(relation) == code,
{
    if code == 0 {
        Relation::Before
    } else if code == 1 {
        Relation::AdjacentBefore
    } else if code == 2 {
        Relation::Overlapping
    } else if code == 3 {
        Relation::AdjacentAfter
    } else {
        Relation::After
    }
}

/// A cell that holds a relation as a machine word.
pub struct AtomicRelation {
    value: usize,
}

impl View for AtomicRelation {
    type V = Relation;

    /// The relation that the cell holds.
    closed spec fn view(&self) -> Relation {
        if self.value == 0 {
            Relation::Before
        } else if self.value == 1 {
            Relation::AdjacentBefore
        } else if self.value == 2 {
            Relation::Overlapping
        } else if self.value == 3 {
            Relation::AdjacentAfter
        } else {
            Relation::After
        }
    }
}

impl AtomicRelation {
    /// The word in the cell stands for a relation.
    #[verifier::type_invariant]
    closed spec fn holds_code(&self) -> bool {
        self.value <= 4
    }

    /// Makes a cell that holds `relation`.
    pub fn new(relation: Relation) -> (cell: Self)
        ensures
            cell@ == relation,
    {
        AtomicRelation { value: code_of(relation) }
    }

    /// The relation in the cell.
    pub fn load(&self) -> (relation: Relation)
        ensures
            relation == self@,
    {
        proof {
            use_type_invariant(self);
        }
        relation_of(self.value)
    }

    /// Puts `relation` into the cell.
    pub fn store(&mut self, relation: Relation)
        ensures
            final(self)@ == relation,
    {
        self.value = code_of(relation);
    }

    /// Puts `new` into the cell if it holds `current`. Returns `new` if it
    /// did, and otherwise, as an error, the relation that the cell holds.
    pub fn compare_exchange(&mut self, current: Relation, new: Relation) -> (outcome: Result<
        Relation,
        Relation,
    >)
        ensures
            old(self)@ == current ==> {
                &&& outcome == Ok::<Relation, Relation>(new)
                &&& final(self)@ == new
            },
            old(self)@ != current ==> {
                &&& outcome == Err::<Relation, Relation>(old(self)@)
                &&& final(self)@ == old(self)@
            },
    {
        proof {
            use_type_invariant(&*self);
        }
        if self.value == code_of(current) {
            self.value = code_of(new);
            Ok(new)
        } else {
            Err(relation_of(self.value))
        }
    }
}

} // verus!
