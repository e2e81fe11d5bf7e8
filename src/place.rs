//! Places: a root variable followed by field, index and dereference projections.
use vstd::prelude::*;

verus! {

/// One step of a projection path.
#[derive(Clone, Copy, Debug, PartialEq, Eq, Structural)]
pub enum Proj {
    /// A named field, identified by its index in the declaring type.
    Field(u32),
    /// Some element of an indexed collection; all elements are one place.
    Index,
    /// The target of a reference (or of an owning box).
    Deref,
}

/// A variable, identified by its interned id, followed by a projection path.
#[derive(Clone, Debug)]
pub struct Place {
    pub var: usize,
    pub path: Vec<Proj>,
}

/// The mathematical value of a place.
pub struct PlaceView {
    pub var: usize,
    pub path: Seq<Proj>,
}

impl View for Place {
    type V = PlaceView;

    open spec fn view(&self) -> PlaceView {
        PlaceView { var: self.var, path: self.path@ }
    }
}

/// `a` is `b` or an ancestor of `b`.
pub open spec fn is_prefix(a: PlaceView, b: PlaceView) -> bool {
    &&& a.var == b.var
    &&& a.path.len() <= b.path.len()
    &&& b.path.subrange(0, a.path.len() as int) == a.path
}

/// Two places share storage: one of them is a prefix of the other.
pub open spec fn overlaps(a: PlaceView, b: PlaceView) -> bool {
    is_prefix(a, b) || is_prefix(b, a)
}

/// The path goes through a dereference.
pub open spec fn has_deref(p: PlaceView) -> bool {
    exists|k: int| 0 <= k < p.path.len() && p.path[k] == Proj::Deref
}

impl Place {
    /// A bare variable.
    pub fn var(var: usize) -> (r: Place)
        ensures
            r@ == (PlaceView { var, path: Seq::empty() }),
    {
        Place { var, path: Vec::new() }
    }

    /// This place extended by one projection.
    pub fn project(&self, proj: Proj) -> (r: Place)
        ensures
            r@ == (PlaceView { var: self.var, path: self.path@.push(proj) }),
    {
        let mut path = self.path.clone();
        proof {
            assert(path@ =~= self.path@);
        }
        path.push(proj);
        Place { var: self.var, path }
    }

    /// Whether `self` is `other` or one of its ancestors.
    pub fn is_prefix_of(&self, other: &Place) -> (r: bool)
        ensures
            r == is_prefix(self@, other@),
    {
        if self.var != other.var || self.path.len() > other.path.len() {
            return false;
        }
        let mut k: usize = 0;
        while k < self.path.len()
            invariant
                k <= self.path.len() <= other.path.len(),
                forall|j: int| 0 <= j < k ==> self.path@[j] == other.path@[j],
            decreases self.path.len() - k,
        {
            if self.path[k] != other.path[k] {
                return false;
            }
            k = k + 1;
        }
        proof {
            assert(other.path@.subrange(0, self.path@.len() as int) =~= self.path@);
        }
        true
    }

    /// Whether the two places share storage.
    pub fn overlaps(&self, other: &Place) -> (r: bool)
        ensures
            r == overlaps(self@, other@),
    {
        self.is_prefix_of(other) || other.is_prefix_of(self)
    }

    /// Whether the path goes through a dereference.
    pub fn has_deref(&self) -> (r: bool)
        ensures
            r == has_deref(self@),
    {
        let mut k: usize = 0;
        while k < self.path.len()
            invariant
                k <= self.path.len(),
                forall|j: int| 0 <= j < k ==> self.path@[j] != Proj::Deref,
            decreases self.path.len() - k,
        {
            if self.path[k] == Proj::Deref {
                return true;
            }
            k = k + 1;
        }
        false
    }

    /// The same place, as a value of its own.
    pub fn duplicate(&self) -> (r: Place)
        ensures
            r@ == self@,
    {
        let path = self.path.clone();
        proof {
            assert(path@ =~= self.path@);
        }
        Place { var: self.var, path }
    }
}

} // verus!
