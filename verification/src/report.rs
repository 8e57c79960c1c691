use vstd::prelude::*;

verus! {

/// Where one correlation stands against another on a given day.
#[derive(Clone, Copy, Debug, PartialEq, Eq, Structural)]
pub enum Relation {
    /// Strictly above the other.
    Above,
    /// Equal to or below the other.
    AtOrBelow,
    /// Neither: one of the two is not a number.
    Unordered,
}

/// Day `i` is a crossover: at or below the other on day `i - 1`, above it on day `i`.
pub open spec fn crossover_at(relations: Seq<Relation>, i: int) -> bool {
    &&& 1 <= i < relations.len()
    &&& relations[i - 1] == Relation::AtOrBelow
    &&& relations[i] == Relation::Above
}

/// The last day on which the series crosses from at-or-below to above the
/// other one, or `None` if it never does.
pub fn last_crossover(relations: &Vec<Relation>) -> (r: Option<usize>)
    ensures
        r matches Some(i) ==> crossover_at(relations@, i as int),
        r matches Some(i) ==> forall|j: int| i < j ==> !crossover_at(relations@, j),
        r is None ==> forall|j: int| !crossover_at(relations@, j),
        r matches Some(i) ==> 1 <= i < relations.len() && relations@[i - 1] == Relation::AtOrBelow
            && relations@[i as int] == Relation::Above,
        r matches Some(i) ==> forall|p: int, q: int|
            0 <= p && q == p + 1 && i < q < relations.len() ==> !(#[trigger] relations@[p]
                == Relation::AtOrBelow && #[trigger] relations@[q] == Relation::Above),
        r is None ==> forall|p: int, q: int|
            0 <= p && q == p + 1 && q < relations.len() ==> !(#[trigger] relations@[p]
                == Relation::AtOrBelow && #[trigger] relations@[q] == Relation::Above),
{
    let mut i = relations.len();
    while i > 1
        invariant
            i <= relations.len(),
            forall|j: int| i <= j ==> !crossover_at(relations@, j),
        decreases i,
    {
        i -= 1;
        if relations[i - 1] == Relation::AtOrBelow && relations[i] == Relation::Above {
            assert forall|p: int, q: int|
                0 <= p && q == p + 1 && i < q < relations.len() implies !(#[trigger] relations@[p]
                == Relation::AtOrBelow && #[trigger] relations@[q] == Relation::Above) by {
                assert(!crossover_at(relations@, q));
            }
            return Some(i);
        }
    }
    assert forall|p: int, q: int|
        0 <= p && q == p + 1 && q < relations.len() implies !(#[trigger] relations@[p]
        == Relation::AtOrBelow && #[trigger] relations@[q] == Relation::Above) by {
        assert(!crossover_at(relations@, q));
    }
    None
}

} // verus!
