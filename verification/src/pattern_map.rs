use vstd::prelude::*;

use crate::error::Error;

verus! {

/// Mathematical model of a [`PatternMap`]: the registry of pattern lengths,
/// and for each original position the pattern ids recorded there, in
/// discovery order.
#[verifier::ext_equal]
pub struct PatternMapView {
    pub patterns: Seq<u32>,
    pub order: Seq<Seq<u32>>,
}

/// A fresh map over `n` positions: no patterns, every occurrence list empty.
pub open spec fn pm_new(n: nat) -> PatternMapView {
    PatternMapView { patterns: Seq::empty(), order: Seq::new(n, |i: int| Seq::empty()) }
}

/// The map after registering one more pattern of the given length.
pub open spec fn pm_new_pattern(m: PatternMapView, length: u32) -> PatternMapView {
    PatternMapView { patterns: m.patterns.push(length), order: m.order }
}

/// The map after recording an occurrence of pattern `p` at position `index`.
pub open spec fn pm_use_pattern(m: PatternMapView, index: int, p: u32) -> PatternMapView {
    PatternMapView { patterns: m.patterns, order: m.order.update(index, m.order[index].push(p)) }
}

/// Registry of discovered patterns plus, for each position of the original
/// sequence, the ordered list of pattern ids occurring there.
pub struct PatternMap {
    /// Length of each pattern, indexed by pattern id.
    patterns: Vec<u32>,
    /// For each original position, the ids of the patterns occurring there.
    order: Vec<Vec<u32>>,
}

impl View for PatternMap {
    type V = PatternMapView;

    closed spec fn view(&self) -> PatternMapView {
        PatternMapView { patterns: self.patterns@, order: self.order.deep_view() }
    }
}

impl PatternMap {
    /// A map over `num_indices` original positions with nothing recorded yet.
    pub fn new(num_indices: usize) -> (r: PatternMap)
        ensures
            r@ == pm_new(num_indices as nat),
    {
        let mut order: Vec<Vec<u32>> = Vec::new();
        let mut i: usize = 0;
        while i < num_indices
            invariant
                i <= num_indices,
                order@.len() == i,
                forall|k: int| 0 <= k < i ==> (#[trigger] order@[k])@ == Seq::<u32>::empty(),
            decreases num_indices - i,
        {
            order.push(Vec::new());
            i = i + 1;
        }
        let r = PatternMap { patterns: Vec::new(), order };
        proof {
            assert forall|k: int| 0 <= k < num_indices implies r@.order[k]
                =~= Seq::<u32>::empty() by {
                assert(order@[k]@ == Seq::<u32>::empty());
            }
            assert(r@ =~~= pm_new(num_indices as nat));
        }
        r
    }

    /// The length of the pattern with id `index`, or `InvalidPatternId` when
    /// no such pattern exists.
    pub fn pattern_length_at(&self, index: u32) -> (r: Result<u32, Error>)
        ensures
            index < self@.patterns.len() ==> r == Ok::<u32, Error>(self@.patterns[index as int]),
            index >= self@.patterns.len() ==> r == Err::<u32, Error>(Error::InvalidPatternId),
    {
        if (index as usize) < self.patterns.len() {
            Ok(self.patterns[index as usize])
        } else {
            Err(Error::InvalidPatternId)
        }
    }

    /// The ids of the patterns with an occurrence starting at `index`, in
    /// discovery order, or `InvalidPosition` when the position is out of
    /// range.
    pub fn patterns_at(&self, index: usize) -> (r: Result<&Vec<u32>, Error>)
        ensures
            index < self@.order.len() ==> (r matches Ok(v) && v@ == self@.order[index as int]),
            index >= self@.order.len() ==> r == Err::<&Vec<u32>, Error>(Error::InvalidPosition),
    {
        if index < self.order.len() {
            Ok(&self.order[index])
        } else {
            Err(Error::InvalidPosition)
        }
    }

    /// How many patterns the registry holds.
    pub fn num_patterns(&self) -> (r: usize)
        ensures
            r == self@.patterns.len(),
    {
        self.patterns.len()
    }

    /// How many original positions the map covers.
    pub fn num_indices(&self) -> (r: usize)
        ensures
            r == self@.order.len(),
    {
        self.order.len()
    }

    /// Append a pattern of the given length to the registry and hand back its
    /// id.
    pub(crate) fn new_pattern(&mut self, length: u32) -> (r: u32)
        requires
            old(self)@.patterns.len() < u32::MAX,
        ensures
            final(self)@ == pm_new_pattern(old(self)@, length),
            r == old(self)@.patterns.len(),
    {
        self.patterns.push(length);
        self.patterns.len() as u32 - 1
    }

    /// Record an occurrence of the pattern `pattern_index` at the original
    /// position `index`.
    pub(crate) fn use_pattern(&mut self, index: u32, pattern_index: u32)
        requires
            index < old(self)@.order.len(),
        ensures
            final(self)@ == pm_use_pattern(old(self)@, index as int, pattern_index),
    {
        let mut list: Vec<u32> = self.order.remove(index as usize);
        list.push(pattern_index);
        self.order.insert(index as usize, list);
        proof {
            assert(self@ =~~= pm_use_pattern(old(self)@, index as int, pattern_index));
        }
    }
}


/// Well-formedness of a pattern map: every pattern id recorded in an
/// occurrence list is a valid index into the pattern registry.
pub open spec fn pm_wf(m: PatternMapView) -> bool {
    forall|i: int, k: int|
        0 <= i < m.order.len() && 0 <= k < m.order[i].len() ==> (#[trigger] m.order[i][k] as int)
            < m.patterns.len()
}

/// A fresh map is well formed.
pub proof fn lemma_pm_new_wf(n: nat)
    ensures
        pm_wf(pm_new(n)),
{
}

/// Registering a pattern keeps the map well formed.
pub proof fn lemma_pm_new_pattern_wf(m: PatternMapView, length: u32)
    requires
        pm_wf(m),
    ensures
        pm_wf(pm_new_pattern(m, length)),
{
}

/// Recording an occurrence of a valid pattern id at a valid position keeps
/// the map well formed and its position count unchanged.
pub proof fn lemma_pm_use_pattern_wf(m: PatternMapView, index: int, p: u32)
    requires
        pm_wf(m),
        (p as int) < m.patterns.len(),
        0 <= index < m.order.len(),
    ensures
        pm_wf(pm_use_pattern(m, index, p)),
        pm_use_pattern(m, index, p).order.len() == m.order.len(),
{
    let m2 = pm_use_pattern(m, index, p);
    assert forall|i: int, k: int|
        0 <= i < m2.order.len() && 0 <= k < m2.order[i].len() implies (
    #[trigger] m2.order[i][k] as int) < m2.patterns.len() by {
        if i == index {
            if k < m.order[i].len() {
                assert(m2.order[i][k] == m.order[i][k]);
            } else {
                assert(m2.order[i][k] == p);
            }
        } else {
            assert(m2.order[i] == m.order[i]);
        }
    }
}

} // verus!
