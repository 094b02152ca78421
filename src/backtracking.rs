use vstd::prelude::*;

verus! {

/// A search state that can be checked, narrowed by propagation, and split
/// into alternatives.
pub trait State: Sized {
    /// The state is internally consistent.
    spec fn state_wf(&self) -> bool;

    /// The state is a full solution.
    spec fn state_solved(&self) -> bool;

    /// A size that propagation never raises and that every child of a split
    /// lowers.
    spec fn state_measure(&self) -> nat;

    /// Every fact holds in the state.
    spec fn state_facts_hold(&self) -> bool;

    /// Every predicate that applies accepts the state.
    spec fn state_predicates_hold(&self) -> bool;

    /// No choice that some object holds is open to another object.
    spec fn state_permutations_closed(&self) -> bool;

    /// Assignment `a`, one value for each attribute and object, solves the
    /// puzzle and is still possible in the state.
    spec fn state_solution(&self, a: spec_fn(int, int) -> int) -> bool;

    /// Everything still possible in `self` is possible in `other`.
    spec fn state_narrows(&self, other: &Self) -> bool;

    /// Narrowing is reflexive.
    proof fn lemma_narrows_refl(&self)
        ensures
            self.state_narrows(self),
    ;

    /// Narrowing is transitive.
    proof fn lemma_narrows_trans(a: &Self, b: &Self, c: &Self)
        requires
            a.state_narrows(b),
            b.state_narrows(c),
        ensures
            a.state_narrows(c),
    ;

    /// The measure of a consistent state fits a machine word.
    proof fn lemma_measure_fits(&self)
        requires
            self.state_wf(),
        ensures
            self.state_measure() <= usize::MAX,
    ;

    /// Whether the state is a full solution.
    fn is_solution(&self) -> (r: bool)
        requires
            self.state_wf(),
        ensures
            r == self.state_solved(),
    ;

    /// The alternatives of the state, each narrower; a solution still open
    /// in an unsolved state is open in one of them.
    fn split(&self) -> (r: Vec<Self>)
        requires
            self.state_wf(),
        ensures
            forall|i: int|
                0 <= i < r.len() ==> (#[trigger] r[i]).state_wf() && r[i].state_measure()
                    < self.state_measure() && r[i].state_narrows(self),
            !self.state_solved() ==> forall|a: spec_fn(int, int) -> int|
                #[trigger] self.state_solution(a) ==> exists|i: int| 0 <= i < r.len() && #[trigger] r[i].state_solution(a),
    ;

    /// One pass of the facts; `false` on a contradiction. The counter grows
    /// by no more than the measure falls.
    fn apply_facts(&mut self, change_counter: &mut usize) -> (r: bool)
        requires
            old(self).state_wf(),
            *old(change_counter) + old(self).state_measure() <= usize::MAX,
        ensures
            final(self).state_wf(),
            final(self).state_narrows(old(self)),
            *old(change_counter) <= *final(change_counter),
            final(self).state_measure() + (*final(change_counter) - *old(change_counter)) <= old(
                self,
            ).state_measure(),
            *final(change_counter) == *old(change_counter) ==> *final(self) == *old(self),
            r && *final(change_counter) == *old(change_counter) ==> final(self).state_facts_hold(),
            old(self).state_facts_hold() ==> r && *final(change_counter) == *old(change_counter),
            forall|a: spec_fn(int, int) -> int| #[trigger] old(self).state_solution(a) ==> r && final(self).state_solution(a),
    ;

    /// Checks the predicates without changing the state; `false` on a veto.
    fn apply_predicates(&mut self) -> (r: bool)
        requires
            old(self).state_wf(),
        ensures
            *final(self) == *old(self),
            r ==> final(self).state_predicates_hold(),
            forall|a: spec_fn(int, int) -> int| #[trigger] old(self).state_solution(a) ==> r,
    ;

    /// One pass of the permutation rule; `false` on a contradiction.
    fn apply_permutations(&mut self, change_counter: &mut usize) -> (r: bool)
        requires
            old(self).state_wf(),
            *old(change_counter) + old(self).state_measure() <= usize::MAX,
        ensures
            final(self).state_wf(),
            final(self).state_narrows(old(self)),
            *old(change_counter) <= *final(change_counter),
            final(self).state_measure() + (*final(change_counter) - *old(change_counter)) <= old(
                self,
            ).state_measure(),
            *final(change_counter) == *old(change_counter) ==> *final(self) == *old(self),
            *final(change_counter) == *old(change_counter) ==> final(self).state_permutations_closed(),
            old(self).state_permutations_closed() ==> *final(change_counter) == *old(change_counter),
            forall|a: spec_fn(int, int) -> int| #[trigger] old(self).state_solution(a) ==> r && final(self).state_solution(a),
    ;
}

/// After propagation stopped changing anything: every fact holds, every
/// predicate accepts, and no choice is held twice.
pub open spec fn settled<T: State>(s: T) -> bool {
    s.state_facts_hold() && s.state_predicates_hold() && s.state_permutations_closed()
}

/// Depth-first search for the first solution reachable from `s`.
pub fn find_first<T: State>(s: T) -> (r: Option<T>)
    requires
        s.state_wf(),
    ensures
        r matches Some(t) ==> t.state_wf() && t.state_solved() && settled(t) && t.state_narrows(&s),
        r is None ==> forall|a: spec_fn(int, int) -> int| !#[trigger] s.state_solution(a),
{
    let mut nodes: u64 = 0;
    find_first_from(s, &mut nodes)
}

/// Propagates `s` to a fixed point, returns it if it is a solution, and
/// otherwise tries its children in order; `nodes` counts the states entered,
/// stopping at `u64::MAX`.
pub fn find_first_from<T: State>(ss: T, nodes: &mut u64) -> (r: Option<T>)
    requires
        ss.state_wf(),
    ensures
        r matches Some(t) ==> t.state_wf() && t.state_solved() && settled(t) && t.state_narrows(&ss),
        r is None ==> forall|a: spec_fn(int, int) -> int| !#[trigger] ss.state_solution(a),
        *old(nodes) <= *final(nodes),
    decreases ss.state_measure(),
{
    let mut s = ss;
    proof {
        s.lemma_narrows_refl();
    }
    assert(forall|a: spec_fn(int, int) -> int| #[trigger] ss.state_solution(a) ==> s.state_solution(a));
    if *nodes < u64::MAX {
        *nodes = *nodes + 1;
    }
    loop
        invariant_except_break
            s.state_wf(),
            s.state_measure() <= ss.state_measure(),
            s.state_narrows(&ss),
            *old(nodes) <= *nodes,
            forall|a: spec_fn(int, int) -> int| #[trigger] ss.state_solution(a) ==> s.state_solution(a),
        ensures
            s.state_wf(),
            s.state_measure() <= ss.state_measure(),
            s.state_narrows(&ss),
            *old(nodes) <= *nodes,
            settled(s),
            forall|a: spec_fn(int, int) -> int| #[trigger] ss.state_solution(a) ==> s.state_solution(a),
        decreases s.state_measure(),
    {
        proof {
            s.lemma_measure_fits();
        }
        let mut change_counter: usize = 0;
        let ghost s0 = s;
        if !s.apply_facts(&mut change_counter) {
            return None;
        }
        let ghost after_facts = change_counter;
        let ghost s1 = s;
        if !s.apply_predicates() {
            return None;
        }
        if !s.apply_permutations(&mut change_counter) {
            return None;
        }
        proof {
            T::lemma_narrows_trans(&s1, &s0, &ss);
            T::lemma_narrows_trans(&s, &s1, &ss);
        }
        if change_counter == 0 {
            assert(after_facts == 0);
            assert(settled(s));
            break;
        }
    }
    if s.is_solution() {
        return Some(s);
    }
    let mut children = s.split();
    while children.len() > 0
        invariant
            forall|i: int|
                0 <= i < children.len() ==> (#[trigger] children[i]).state_wf()
                    && children[i].state_measure() < ss.state_measure() && children[i].state_narrows(&s),
            s.state_narrows(&ss),
            forall|a: spec_fn(int, int) -> int|
                #[trigger] ss.state_solution(a) ==> exists|i: int| 0 <= i < children.len() && #[trigger] children[i].state_solution(a),
            *old(nodes) <= *nodes,
        decreases children.len(),
    {
        let ghost before = children@;
        let c = children.remove(0);
        let ghost c0 = c;
        let cs = find_first_from(c, nodes);
        proof {
            if cs.is_none() {
                assert forall|a: spec_fn(int, int) -> int|
                    #[trigger] ss.state_solution(a) implies exists|i: int| 0 <= i < children.len() && #[trigger] children[i].state_solution(a) by {
                    let i = choose|i: int| 0 <= i < before.len() && #[trigger] before[i].state_solution(a);
                    assert(!c0.state_solution(a));
                    assert(children[i - 1] == before[i]);
                }
            }
        }
        if cs.is_some() {
            proof {
                let t = cs.unwrap();
                T::lemma_narrows_trans(&c0, &s, &ss);
                T::lemma_narrows_trans(&t, &c0, &ss);
            }
            return cs;
        }
    }
    None
}

} // verus!
