//! Plain-data model of the puzzle: facelet colors, orbits of pieces, and
//! permutations as explicit mappings.
//!
//! A permutation maps each facelet to the facelet whose sticker currently
//! occupies it. An orbit lists its pieces, each piece as its home facelets in
//! cyclic order; one reorientation step rotates that list, so a piece's
//! orientation count equals its sticker count.

use vstd::prelude::*;

verus! {

/// A bijection on `0..len`, written out as a mapping.
pub open spec fn is_perm(s: Seq<usize>) -> bool {
    &&& forall|i: int| 0 <= i < s.len() ==> (#[trigger] s[i]) < s.len()
    &&& forall|i: int, j: int| 0 <= i < j < s.len() ==> s[i] != s[j]
}

/// A puzzle state: `map[f]` is the home facelet of the sticker now at `f`.
#[derive(Debug, Clone, PartialEq, Eq)]
pub struct Perm {
    pub map: Vec<usize>,
}

impl Perm {
    pub open spec fn valid(&self, n: int) -> bool {
        self.map@.len() == n && is_perm(self.map@)
    }

    /// The identity state: every sticker at its home facelet.
    pub fn identity(n: usize) -> (r: Perm)
        ensures
            r.valid(n as int),
            forall|i: int| 0 <= i < n ==> (#[trigger] r.map@[i]) == i,
    {
        let mut map: Vec<usize> = Vec::new();
        let mut k: usize = 0;
        while k < n
            invariant
                k <= n,
                map@.len() == k,
                forall|i: int| 0 <= i < k ==> (#[trigger] map@[i]) == i,
            decreases n - k,
        {
            map.push(k);
            k = k + 1;
        }
        Perm { map }
    }
}

/// The abstract puzzle model the vision core consumes: a color per facelet
/// and the orbit decomposition into pieces.
#[derive(Debug, Clone)]
pub struct GroupModel {
    /// Color id of each facelet under the identity state.
    pub facelet_colors: Vec<usize>,
    /// Number of distinct colors; every color id is below this.
    pub num_colors: usize,
    /// Orbits, each a list of pieces, each piece its facelets in cyclic
    /// orientation order.
    pub orbits: Vec<Vec<Vec<usize>>>,
}

pub open spec fn orbit_wf(pieces: Seq<Vec<usize>>, facelet_count: int) -> bool {
    &&& 1 <= pieces.len() <= 0x10000
    &&& 1 <= pieces[0]@.len() <= 0x10000
    &&& forall|p: int| 0 <= p < pieces.len() ==> (#[trigger] pieces[p]@.len()) == pieces[0]@.len()
    &&& forall|p: int, t: int|
        0 <= p < pieces.len() && 0 <= t < pieces[p]@.len() ==> (#[trigger] pieces[p]@[t])
            < facelet_count
}

impl GroupModel {
    pub open spec fn facelet_count(&self) -> int {
        self.facelet_colors@.len() as int
    }

    /// The facelet at one listing position of the orbit decomposition.
    pub open spec fn orbit_facelet(&self, ob: int, p: int, t: int) -> int {
        self.orbits@[ob]@[p]@[t] as int
    }

    pub open spec fn wf(&self) -> bool {
        &&& 1 <= self.num_colors <= 0x10000
        &&& self.facelet_colors@.len() <= 0x10000
        &&& self.orbits@.len() <= 0x10000
        &&& forall|f: int|
            0 <= f < self.facelet_colors@.len() ==> (#[trigger] self.facelet_colors@[f])
                < self.num_colors
        &&& forall|ob: int|
            0 <= ob < self.orbits@.len() ==> orbit_wf(
                (#[trigger] self.orbits@[ob])@,
                self.facelet_count(),
            )
        &&& forall|ob1: int, p1: int, t1: int, ob2: int, p2: int, t2: int|
            0 <= ob1 < self.orbits@.len() && 0 <= p1 < self.orbits@[ob1]@.len() && 0 <= t1
                < self.orbits@[ob1]@[p1]@.len() && 0 <= ob2 < self.orbits@.len() && 0 <= p2
                < self.orbits@[ob2]@.len() && 0 <= t2 < self.orbits@[ob2]@[p2]@.len() && !(ob1
                == ob2 && p1 == p2 && t1 == t2) ==> #[trigger] self.orbit_facelet(ob1, p1, t1)
                != #[trigger] self.orbit_facelet(ob2, p2, t2)
    }
}

} // verus!
