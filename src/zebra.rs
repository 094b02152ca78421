use crate::backtracking::State;
use crate::bits::{bits_of, max_bits, Bits};
use crate::matrix::{
    cell_index, count_true, lemma_cell_index, lemma_count_le_len, lemma_count_narrow, lemma_count_update,
};
use std::rc::Rc;
use vstd::prelude::*;

verus! {

/// Whichever object holds `choice1` (a property and a choice of it) also
/// holds `choice2`, and the other way round.
pub struct Fact {
    pub choice1: (usize, usize),
    pub choice2: (usize, usize),
}

/// A veto between the object pinned to `choice1` and the object pinned to
/// `choice2`: once the first is determined on `property3` and the second on
/// `property4`, `test` must accept the two choice names.
pub struct Predicate<F> {
    pub choice1: (usize, usize),
    pub choice2: (usize, usize),
    pub property3: usize,
    pub property4: usize,
    pub test: F,
}

/// The catalog of a puzzle: its properties, their named choices, and the
/// facts and predicates that bind them.
pub struct ZebraProperties<F> {
    pub object_count: usize,
    pub properties: Vec<String>,
    pub options: Vec<Vec<String>>,
    pub facts: Vec<Fact>,
    pub predicates: Vec<Predicate<F>>,
}

/// One search state: for every property, object and choice, whether the
/// object may still take that choice.
pub struct Zebra<F> {
    pub props: Rc<ZebraProperties<F>>,
    pub values: Bits,
}

/// Whatever `f` returns on two strings that read `a` and `b` is `true`.
pub open spec fn test_accepts<F: Fn(&str, &str) -> bool>(f: F, a: Seq<char>, b: Seq<char>) -> bool {
    forall|x: &str, y: &str, r: bool| x@ == a && y@ == b && #[trigger] f.ensures((x, y), r) ==> r
}

/// `f` may return `r` when handed two strings that read `a` and `b`.
pub open spec fn test_may_return<F: Fn(&str, &str) -> bool>(f: F, a: Seq<char>, b: Seq<char>, r: bool) -> bool {
    exists|x: &str, y: &str| x@ == a && y@ == b && #[trigger] f.ensures((x, y), r)
}

impl<F: Fn(&str, &str) -> bool> ZebraProperties<F> {
    /// The catalog is complete: every property has one choice per object,
    /// every fact and predicate names existing properties and choices, and
    /// the bit matrix fits.
    pub open spec fn wf(&self) -> bool {
        &&& self.options.len() == self.properties.len()
        &&& forall|p: int|
            0 <= p < self.options.len() ==> #[trigger] self.options[p].len() == self.object_count
        &&& forall|k: int| 0 <= k < self.facts.len() ==> self.fact_in_range(#[trigger] self.facts[k])
        &&& forall|k: int|
            0 <= k < self.predicates.len() ==> self.predicate_in_range(#[trigger] self.predicates[k])
        &&& self.properties.len() * self.object_count * self.object_count <= max_bits()
    }

    /// Assignment `a` keeps fact `k`, both ways, for object `o`.
    pub open spec fn keeps_fact(&self, a: spec_fn(int, int) -> int, k: int, o: int) -> bool {
        let f = self.facts[k];
        a(f.choice1.0 as int, o) == f.choice1.1 as int <==> a(f.choice2.0 as int, o) == f.choice2.1 as int
    }

    /// Assignment `a` keeps every fact for every object.
    pub open spec fn keeps_facts(&self, a: spec_fn(int, int) -> int) -> bool {
        forall|k: int, o: int|
            0 <= k < self.facts.len() && 0 <= o < self.object_count ==> #[trigger] self.keeps_fact(a, k, o)
    }

    /// Assignment `a` gives no two objects the same choice of a property.
    pub open spec fn one_to_one(&self, a: spec_fn(int, int) -> int) -> bool {
        forall|p: int, o1: int, o2: int|
            0 <= p < self.properties.len() && 0 <= o1 < self.object_count && 0 <= o2 < self.object_count && o1 != o2 ==> #[trigger] a(p, o1) != #[trigger] a(p, o2)
    }

    /// Assignment `a` pins objects `o1` and `o2` to the two choices of
    /// predicate `k`.
    pub open spec fn predicate_pins(&self, a: spec_fn(int, int) -> int, k: int, o1: int, o2: int) -> bool {
        let pr = self.predicates[k];
        a(pr.choice1.0 as int, o1) == pr.choice1.1 as int && a(pr.choice2.0 as int, o2) == pr.choice2.1 as int
    }

    /// Every test of a predicate that assignment `a` pins can only accept
    /// the names that `a` gives.
    pub open spec fn keeps_predicates(&self, a: spec_fn(int, int) -> int) -> bool {
        forall|k: int, o1: int, o2: int|
            0 <= k < self.predicates.len() && 0 <= o1 < self.object_count && 0 <= o2 < self.object_count
                && #[trigger] self.predicate_pins(a, k, o1, o2) ==> test_accepts(
                self.predicates[k].test,
                self.options[self.predicates[k].property3 as int][a(
                    self.predicates[k].property3 as int,
                    o1,
                )]@,
                self.options[self.predicates[k].property4 as int][a(
                    self.predicates[k].property4 as int,
                    o2,
                )]@,
            )
    }

    /// Assignment `a` keeps every fact and every predicate, and gives each
    /// choice of a property to one object.
    pub open spec fn solves(&self, a: spec_fn(int, int) -> int) -> bool {
        &&& self.keeps_facts(a)
        &&& self.one_to_one(a)
        &&& self.keeps_predicates(a)
    }

    pub open spec fn choice_in_range(&self, ch: (usize, usize)) -> bool {
        ch.0 < self.options.len() && ch.1 < self.options[ch.0 as int].len()
    }

    pub open spec fn fact_in_range(&self, f: Fact) -> bool {
        self.choice_in_range(f.choice1) && self.choice_in_range(f.choice2)
    }

    pub open spec fn predicate_in_range(&self, pr: Predicate<F>) -> bool {
        &&& self.choice_in_range(pr.choice1)
        &&& self.choice_in_range(pr.choice2)
        &&& pr.property3 < self.options.len()
        &&& pr.property4 < self.options.len()
        &&& forall|a: &str, b: &str| pr.test.requires((a, b))
    }
}

impl<F: Fn(&str, &str) -> bool> Zebra<F> {
    pub open spec fn oc(&self) -> int {
        self.props.object_count as int
    }

    pub open spec fn pc(&self) -> int {
        self.props.properties.len() as int
    }

    pub open spec fn bits(&self) -> Seq<bool> {
        bits_of(self.values)
    }

    pub open spec fn wf(&self) -> bool {
        &&& self.props.wf()
        &&& self.bits().len() == self.pc() * self.oc() * self.oc()
    }

    pub open spec fn cell_in_range(&self, p: int, o: int) -> bool {
        0 <= p < self.pc() && 0 <= o < self.oc()
    }

    /// Object `o` may still take choice `c` of property `p`.
    pub open spec fn enabled(&self, p: int, o: int, c: int) -> bool {
        self.bits()[cell_index(self.oc(), p, o, c)]
    }

    /// Choice `c` is the one choice still enabled in cell `(p, o)`.
    pub open spec fn determined_to(&self, p: int, o: int, c: int) -> bool {
        &&& 0 <= c < self.oc()
        &&& self.enabled(p, o, c)
        &&& forall|d: int| 0 <= d < self.oc() && d != c ==> !#[trigger] self.enabled(p, o, d)
    }

    /// Exactly one choice is enabled in cell `(p, o)`.
    pub open spec fn determined(&self, p: int, o: int) -> bool {
        exists|c: int| self.determined_to(p, o, c)
    }

    /// Every bit of `self` is set in `other` too, over the same catalog.
    pub open spec fn narrows(&self, other: &Self) -> bool {
        &&& self.props == other.props
        &&& self.bits().len() == other.bits().len()
        &&& forall|i: int| 0 <= i < self.bits().len() && #[trigger] self.bits()[i] ==> other.bits()[i]
    }

    /// The number of choices still enabled, over all cells.
    pub open spec fn measure(&self) -> nat {
        count_true(self.bits())
    }

    /// Every cell that `other` determines, `self` determines the same way.
    pub open spec fn keeps_determined(&self, other: &Self) -> bool {
        forall|p: int, o: int, c: int|
            #[trigger] other.determined_to(p, o, c) && other.cell_in_range(p, o)
                ==> self.determined_to(p, o, c)
    }

    pub fn is_choice_enabled(&self, property: usize, object: usize, choice: usize) -> (r: bool)
        requires
            self.wf(),
            self.cell_in_range(property as int, object as int),
            choice < self.oc(),
        ensures
            r == self.enabled(property as int, object as int, choice as int),
    {
        let ix = self.index(property, object, choice);
        self.values.get(ix)
    }

    pub fn set_choice_enabled(&mut self, property: usize, object: usize, choice: usize, value: bool)
        requires
            old(self).wf(),
            old(self).cell_in_range(property as int, object as int),
            choice < old(self).oc(),
        ensures
            final(self).props == old(self).props,
            final(self).bits() == old(self).bits().update(
                cell_index(old(self).oc(), property as int, object as int, choice as int),
                value,
            ),
            final(self).wf(),
    {
        let ix = self.index(property, object, choice);
        self.values.set(ix, value);
    }

    /// Leaves `choice` as the one enabled choice of cell `(property, object)`.
    pub fn determine_choice(&mut self, property: usize, object: usize, choice: usize)
        requires
            old(self).wf(),
            old(self).cell_in_range(property as int, object as int),
            choice < old(self).oc(),
        ensures
            final(self).wf(),
            final(self).props == old(self).props,
            final(self).bits().len() == old(self).bits().len(),
            forall|i: int|
                0 <= i < old(self).bits().len() ==> #[trigger] final(self).bits()[i] == if cell_index(
                    old(self).oc(),
                    property as int,
                    object as int,
                    0,
                ) <= i < cell_index(old(self).oc(), property as int, object as int, 0) + old(
                    self,
                ).oc() {
                    i == cell_index(old(self).oc(), property as int, object as int, choice as int)
                } else {
                    old(self).bits()[i]
                },
            final(self).fixes(old(self), property as int, object as int, choice as int),
            old(self).enabled(property as int, object as int, choice as int)
                ==> final(self).narrows(old(self)),
            old(self).enabled(property as int, object as int, choice as int)
                ==> final(self).measure() <= old(self).measure(),
            old(self).enabled(property as int, object as int, choice as int)
                && !old(self).determined(property as int, object as int)
                ==> final(self).measure() < old(self).measure(),
    {
        let cnt = self.props.object_count;
        let ghost base = cell_index(self.oc(), property as int, object as int, 0);
        let mut ch: usize = 0;
        while ch < cnt
            invariant
                self.wf(),
                self.props == old(self).props,
                cnt == self.oc(),
                old(self).cell_in_range(property as int, object as int),
                choice < cnt,
                ch <= cnt,
                base == cell_index(self.oc(), property as int, object as int, 0),
                self.bits().len() == old(self).bits().len(),
                forall|i: int|
                    0 <= i < old(self).bits().len() ==> #[trigger] self.bits()[i] == if base <= i
                        < base + ch {
                        i == base + choice
                    } else {
                        old(self).bits()[i]
                    },
            decreases cnt - ch,
        {
            let ghost prev = self.bits();
            proof {
                lemma_cell_index(
                    self.oc(),
                    self.pc(),
                    property as int,
                    object as int,
                    ch as int,
                    property as int,
                    object as int,
                    ch as int,
                );
            }
            self.set_choice_enabled(property, object, ch, choice == ch);
            assert(cell_index(self.oc(), property as int, object as int, ch as int) == base + ch);
            assert forall|i: int| 0 <= i < old(self).bits().len() implies #[trigger] self.bits()[i]
                == if base <= i < base + ch + 1 {
                i == base + choice
            } else {
                old(self).bits()[i]
            } by {
            }
            ch += 1;
        }
        proof {
            let p = property as int;
            let o = object as int;
            let oc = self.oc();
            let pc = self.pc();
            assert forall|q: int, x: int, d: int|
                self.cell_in_range(q, x) && 0 <= d < oc implies #[trigger] self.enabled(q, x, d) == if q
                == p && x == o {
                d == choice
            } else {
                old(self).enabled(q, x, d)
            } by {
                lemma_cell_index(oc, pc, p, o, choice as int, q, x, d);
                lemma_cell_index(oc, pc, q, x, d, q, x, d);
            }
            if old(self).enabled(p, o, choice as int) {
                lemma_cell_index(oc, pc, p, o, choice as int, p, o, choice as int);
                lemma_count_narrow(old(self).bits(), self.bits());
                if !old(self).determined(p, o) {
                    if forall|d: int| 0 <= d < oc && d != choice ==> !#[trigger] old(self).enabled(p, o, d) {
                        assert(old(self).determined_to(p, o, choice as int));
                    }
                    let d = choose|d: int| 0 <= d < oc && d != choice && #[trigger] old(self).enabled(p, o, d);
                    lemma_cell_index(oc, pc, p, o, d, p, o, d);
                    assert(!self.bits()[cell_index(oc, p, o, d)]);
                }
            }
        }
    }

    /// `self` is `other` with cell `(p, o)` determined to `c` and every other
    /// cell as it was.
    pub open spec fn fixes(&self, other: &Self, p: int, o: int, c: int) -> bool {
        &&& self.props == other.props
        &&& self.bits().len() == other.bits().len()
        &&& self.determined_to(p, o, c)
        &&& forall|q: int, x: int, d: int|
            self.cell_in_range(q, x) && 0 <= d < self.oc() && !(q == p && x == o) ==> #[trigger] self.enabled(
                q,
                x,
                d,
            ) == other.enabled(q, x, d)
    }

    /// Exactly one choice is enabled in cell `(property, object)`.
    pub fn is_determined(&self, property: usize, object: usize) -> (r: bool)
        requires
            self.wf(),
            self.cell_in_range(property as int, object as int),
        ensures
            r == self.determined(property as int, object as int),
    {
        let cnt = self.props.object_count;
        let mut found: Option<usize> = None;
        let mut ch: usize = 0;
        while ch < cnt
            invariant
                self.wf(),
                cnt == self.oc(),
                self.cell_in_range(property as int, object as int),
                ch <= cnt,
                found is None ==> forall|d: int|
                    0 <= d < ch ==> !#[trigger] self.enabled(property as int, object as int, d),
                found matches Some(f) ==> f < ch && self.enabled(
                    property as int,
                    object as int,
                    f as int,
                ) && forall|d: int|
                    0 <= d < ch && d != f ==> !#[trigger] self.enabled(
                        property as int,
                        object as int,
                        d,
                    ),
            decreases cnt - ch,
        {
            if self.is_choice_enabled(property, object, ch) {
                if found.is_some() {
                    proof {
                        let f = found.unwrap() as int;
                        if self.determined(property as int, object as int) {
                            let c = choose|c: int|
                                self.determined_to(property as int, object as int, c);
                            assert(!self.enabled(property as int, object as int, f) || !self.enabled(
                                property as int,
                                object as int,
                                ch as int,
                            ));
                        }
                    }
                    return false;
                }
                found = Some(ch);
            }
            ch += 1;
        }
        proof {
            if let Some(f) = found {
                assert(self.determined_to(property as int, object as int, f as int));
            } else if self.determined(property as int, object as int) {
                let c = choose|c: int| self.determined_to(property as int, object as int, c);
                assert(self.enabled(property as int, object as int, c));
            }
        }
        found.is_some()
    }

    /// The choice that a determined cell holds.
    pub fn find_determined(&self, property: usize, object: usize) -> (r: usize)
        requires
            self.wf(),
            self.cell_in_range(property as int, object as int),
            self.determined(property as int, object as int),
        ensures
            self.determined_to(property as int, object as int, r as int),
    {
        let ghost c = choose|c: int| self.determined_to(property as int, object as int, c);
        let mut ch: usize = 0;
        while ch < self.props.object_count
            invariant
                self.wf(),
                self.cell_in_range(property as int, object as int),
                self.determined_to(property as int, object as int, c),
                ch <= c,
            decreases self.oc() - ch,
        {
            if self.is_choice_enabled(property, object, ch) {
                return ch;
            }
            ch += 1;
        }
        ch
    }

    /// Object `i` takes choice `i` of the first property.
    pub fn fix_first_property(&mut self)
        requires
            old(self).wf(),
            old(self).pc() > 0,
        ensures
            final(self).wf(),
            final(self).props == old(self).props,
            forall|o: int| 0 <= o < final(self).oc() ==> #[trigger] final(self).determined_to(0, o, o),
            forall|q: int, x: int, d: int|
                final(self).cell_in_range(q, x) && 0 <= d < final(self).oc() && q != 0
                    ==> #[trigger] final(self).enabled(q, x, d) == old(self).enabled(q, x, d),
    {
        let cnt = self.props.object_count;
        let mut object: usize = 0;
        while object < cnt
            invariant
                self.wf(),
                self.props == old(self).props,
                cnt == self.oc(),
                self.pc() > 0,
                object <= cnt,
                forall|o: int| 0 <= o < object ==> #[trigger] self.determined_to(0, o, o),
                forall|q: int, x: int, d: int|
                    self.cell_in_range(q, x) && 0 <= d < self.oc() && q != 0
                        ==> #[trigger] self.enabled(q, x, d) == old(self).enabled(q, x, d),
            decreases cnt - object,
        {
            let ghost prev = *self;
            self.determine_choice(0, object, object);
            assert forall|o: int| 0 <= o < object + 1 implies #[trigger] self.determined_to(0, o, o) by {
                if o < object {
                    assert(prev.determined_to(0, o, o));
                    assert forall|d: int| 0 <= d < self.oc() implies #[trigger] self.enabled(0, o, d)
                        == prev.enabled(0, o, d) by {}
                }
            }
            object += 1;
        }
    }

    /// Every cell is determined.
    pub open spec fn solved(&self) -> bool {
        forall|p: int, o: int| self.cell_in_range(p, o) ==> #[trigger] self.determined(p, o)
    }

    pub fn is_solution(&self) -> (r: bool)
        requires
            self.wf(),
        ensures
            r == self.solved(),
    {
        let pc = self.props.properties.len();
        let oc = self.props.object_count;
        let mut property: usize = 0;
        while property < pc
            invariant
                self.wf(),
                pc == self.pc(),
                oc == self.oc(),
                property <= pc,
                forall|p: int, o: int|
                    0 <= p < property && 0 <= o < oc ==> #[trigger] self.determined(p, o),
            decreases pc - property,
        {
            let mut object: usize = 0;
            while object < oc
                invariant
                    self.wf(),
                    pc == self.pc(),
                    oc == self.oc(),
                    property < pc,
                    object <= oc,
                    forall|p: int, o: int|
                        0 <= p < property && 0 <= o < oc ==> #[trigger] self.determined(p, o),
                    forall|o: int| 0 <= o < object ==> #[trigger] self.determined(property as int, o),
                decreases oc - object,
            {
                if !self.is_determined(property, object) {
                    return false;
                }
                object += 1;
            }
            property += 1;
        }
        true
    }

    /// Cell `(p, o)` is the first undetermined one, properties first, then
    /// objects, in ascending order.
    pub open spec fn first_open(&self, p: int, o: int) -> bool {
        &&& self.cell_in_range(p, o)
        &&& !self.determined(p, o)
        &&& forall|q: int, x: int|
            self.cell_in_range(q, x) && (q < p || (q == p && x < o)) ==> #[trigger] self.determined(q, x)
    }

    /// The enabled choices of cell `(p, o)` below `n`, in ascending order.
    pub open spec fn enabled_below(&self, p: int, o: int, n: int) -> Seq<int>
        decreases n,
    {
        if n <= 0 {
            Seq::empty()
        } else if self.enabled(p, o, n - 1) {
            self.enabled_below(p, o, n - 1).push(n - 1)
        } else {
            self.enabled_below(p, o, n - 1)
        }
    }

    /// An enabled choice below `n` is listed among the enabled choices below `n`.
    pub proof fn lemma_enabled_below_has(&self, p: int, o: int, n: int, c: int)
        requires
            0 <= c < n,
            self.enabled(p, o, c),
        ensures
            exists|i: int| 0 <= i < self.enabled_below(p, o, n).len() && #[trigger] self.enabled_below(p, o, n)[i] == c,
        decreases n,
    {
        if c < n - 1 {
            self.lemma_enabled_below_has(p, o, n - 1, c);
            let i = choose|i: int| 0 <= i < self.enabled_below(p, o, n - 1).len() && #[trigger] self.enabled_below(p, o, n - 1)[i] == c;
            if self.enabled(p, o, n - 1) {
                assert(self.enabled_below(p, o, n) == self.enabled_below(p, o, n - 1).push(n - 1));
                assert(self.enabled_below(p, o, n)[i] == c);
            } else {
                assert(self.enabled_below(p, o, n) == self.enabled_below(p, o, n - 1));
                assert(self.enabled_below(p, o, n)[i] == c);
            }
        } else {
            let l = self.enabled_below(p, o, n - 1).len() as int;
            assert(self.enabled_below(p, o, n) == self.enabled_below(p, o, n - 1).push(n - 1));
            assert(self.enabled_below(p, o, n)[l] == c);
        }
    }

    /// One child per enabled choice of the first undetermined cell, in
    /// ascending order of the choice, each with that cell fixed to it; none
    /// when every cell is determined.
    pub fn split(&self) -> (r: Vec<Self>)
        requires
            self.wf(),
        ensures
            self.solved() ==> r.len() == 0,
            forall|p: int, o: int| #[trigger] self.first_open(p, o) ==> {
                &&& r.len() == self.enabled_below(p, o, self.oc()).len()
                &&& forall|i: int| 0 <= i < r.len() ==> #[trigger] r[i].fixes(
                    self,
                    p,
                    o,
                    self.enabled_below(p, o, self.oc())[i],
                )
            },
            forall|i: int|
                0 <= i < r.len() ==> (#[trigger] r[i]).wf() && r[i].measure() < self.measure() && r[i].narrows(self),
            !self.solved() ==> forall|a: spec_fn(int, int) -> int|
                #[trigger] self.solution(a) ==> exists|i: int| 0 <= i < r.len() && #[trigger] r[i].solution(a),
    {
        let pc = self.props.properties.len();
        let oc = self.props.object_count;
        let mut property: usize = 0;
        while property < pc
            invariant
                self.wf(),
                pc == self.pc(),
                oc == self.oc(),
                property <= pc,
                forall|p: int, o: int|
                    0 <= p < property && 0 <= o < oc ==> #[trigger] self.determined(p, o),
            decreases pc - property,
        {
            let mut object: usize = 0;
            while object < oc
                invariant
                    self.wf(),
                    pc == self.pc(),
                    oc == self.oc(),
                    property < pc,
                    object <= oc,
                    forall|p: int, o: int|
                        0 <= p < property && 0 <= o < oc ==> #[trigger] self.determined(p, o),
                    forall|o: int| 0 <= o < object ==> #[trigger] self.determined(property as int, o),
                decreases oc - object,
            {
                if !self.is_determined(property, object) {
                    let ghost p = property as int;
                    let ghost o = object as int;
                    assert(self.first_open(p, o));
                    let mut result: Vec<Self> = Vec::new();
                    let mut choice: usize = 0;
                    while choice < oc
                        invariant
                            self.wf(),
                            oc == self.oc(),
                            self.first_open(p, o),
                            p == property,
                            o == object,
                            choice <= oc,
                            result.len() == self.enabled_below(p, o, choice as int).len(),
                            forall|i: int| 0 <= i < result.len() ==> #[trigger] result[i].fixes(self, p, o, self.enabled_below(p, o, choice as int)[i]),
                            forall|i: int| 0 <= i < result.len() ==> (#[trigger] result[i]).wf() && result[i].measure() < self.measure() && result[i].narrows(self),
                        decreases oc - choice,
                    {
                        let ghost before = result@;
                        if self.is_choice_enabled(property, object, choice) {
                            let mut z = self.clone();
                            proof {
                                if z.determined(p, o) {
                                    let c = choose|c: int| z.determined_to(p, o, c);
                                    assert forall|d: int| 0 <= d < self.oc() && d != c implies !#[trigger] self.enabled(p, o, d) by {
                                        assert(!z.enabled(p, o, d));
                                    }
                                    assert(self.determined_to(p, o, c));
                                }
                            }
                            z.determine_choice(property, object, choice);
                            assert(z.fixes(self, p, o, choice as int));
                            result.push(z);
                            assert(self.enabled_below(p, o, choice + 1) == self.enabled_below(p, o, choice as int).push(choice as int));
                            assert forall|i: int| 0 <= i < result.len() implies #[trigger] result[i].fixes(self, p, o, self.enabled_below(p, o, choice + 1)[i]) && result[i].wf() && result[i].measure() < self.measure() && result[i].narrows(self) by {
                                if i < before.len() {
                                    assert(result[i] == before[i]);
                                }
                            }
                        } else {
                            assert(self.enabled_below(p, o, choice + 1) == self.enabled_below(p, o, choice as int));
                        }
                        choice += 1;
                    }
                    proof {
                        assert forall|a: spec_fn(int, int) -> int|
                            #[trigger] self.solution(a) implies exists|i: int| 0 <= i < result.len() && #[trigger] result[i].solution(a) by {
                            assert(0 <= #[trigger] a(p, o) < self.oc());
                            self.lemma_enabled_below_has(p, o, self.oc(), a(p, o));
                            let i = choose|i: int| 0 <= i < self.enabled_below(p, o, self.oc()).len()
                                && #[trigger] self.enabled_below(p, o, self.oc())[i] == a(p, o);
                            let child = result[i];
                            assert(child.fixes(self, p, o, a(p, o)));
                            assert forall|q: int, x: int| child.cell_in_range(q, x) implies 0 <= #[trigger] a(q, x) < child.oc()
                                && child.enabled(q, x, a(q, x)) by {
                                assert(0 <= a(q, x) < self.oc());
                            }
                            assert(child.solution(a));
                        }
                        assert forall|q: int, x: int| #[trigger] self.first_open(q, x) implies q == p && x == o by {
                            if q < p || (q == p && x < o) {
                            } else if p < q || (p == q && o < x) {
                                assert(self.determined(p, o));
                            }
                        }
                    }
                    return result;
                }
                object += 1;
            }
            property += 1;
        }
        proof {
            assert forall|q: int, x: int| #[trigger] self.first_open(q, x) implies false by {
                assert(self.determined(q, x));
            }
        }
        Vec::new()
    }

    /// Once cell `(c1.0, o)` is determined to `c1.1`, cell `(c2.0, o)` is
    /// determined to `c2.1`.
    pub open spec fn half_fact_holds(&self, c1: (usize, usize), c2: (usize, usize), o: int) -> bool {
        self.determined_to(c1.0 as int, o, c1.1 as int) ==> self.determined_to(c2.0 as int, o, c2.1 as int)
    }

    /// Cell `(c1.0, o)` is determined to `c1.1` while `c2.1` is no longer
    /// possible in cell `(c2.0, o)`.
    pub open spec fn half_fact_broken(&self, c1: (usize, usize), c2: (usize, usize), o: int) -> bool {
        self.determined_to(c1.0 as int, o, c1.1 as int) && !self.enabled(c2.0 as int, o, c2.1 as int)
    }

    /// Every fact holds, both ways, for every object.
    pub open spec fn facts_hold(&self) -> bool {
        forall|k: int, o: int|
            0 <= k < self.props.facts.len() && 0 <= o < self.oc() ==> {
                &&& #[trigger] self.half_fact_holds(self.props.facts[k].choice1, self.props.facts[k].choice2, o)
                &&& self.half_fact_holds(self.props.facts[k].choice2, self.props.facts[k].choice1, o)
            }
    }

    /// Some fact is contradicted for some object.
    pub open spec fn fact_broken(&self) -> bool {
        exists|k: int, o: int|
            0 <= k < self.props.facts.len() && 0 <= o < self.oc() && #[trigger] self.fact_broken_at(k, o)
    }

    /// Fact `k` is contradicted, one way or the other, for object `o`.
    pub open spec fn fact_broken_at(&self, k: int, o: int) -> bool {
        ||| self.half_fact_broken(self.props.facts[k].choice1, self.props.facts[k].choice2, o)
        ||| self.half_fact_broken(self.props.facts[k].choice2, self.props.facts[k].choice1, o)
    }

    /// Every fact, either way round, whose first choice `other` determines
    /// for an object has its second choice determined in `self`.
    pub open spec fn facts_carried(&self, other: &Self, nk: int) -> bool {
        forall|k: int, o: int|
            0 <= k < nk && 0 <= o < self.oc() ==> {
                &&& (other.determined_to(
                    self.props.facts[k].choice1.0 as int,
                    o,
                    self.props.facts[k].choice1.1 as int,
                ) ==> #[trigger] self.determined_to(
                    self.props.facts[k].choice2.0 as int,
                    o,
                    self.props.facts[k].choice2.1 as int,
                ))
                &&& (other.determined_to(
                    self.props.facts[k].choice2.0 as int,
                    o,
                    self.props.facts[k].choice2.1 as int,
                ) ==> self.determined_to(
                    self.props.facts[k].choice1.0 as int,
                    o,
                    self.props.facts[k].choice1.1 as int,
                ))
            }
    }

    /// Assignment `a`, which gives each object one choice of each property,
    /// is still open in `self`.
    pub open spec fn allows(&self, a: spec_fn(int, int) -> int) -> bool {
        forall|p: int, o: int|
            self.cell_in_range(p, o) ==> 0 <= #[trigger] a(p, o) < self.oc() && self.enabled(p, o, a(p, o))
    }

    /// Assignment `a` solves the puzzle and is still open in `self`.
    pub open spec fn solution(&self, a: spec_fn(int, int) -> int) -> bool {
        &&& self.allows(a)
        &&& self.props.solves(a)
    }

    fn apply_half_fact(
        &mut self,
        object: usize,
        choice1: (usize, usize),
        choice2: (usize, usize),
        change_counter: &mut usize,
    ) -> (r: bool)
        requires
            old(self).wf(),
            object < old(self).oc(),
            old(self).props.choice_in_range(choice1),
            old(self).props.choice_in_range(choice2),
            *old(change_counter) + old(self).measure() <= usize::MAX,
        ensures
            final(self).wf(),
            final(self).narrows(old(self)),
            final(self).keeps_determined(old(self)),
            *old(change_counter) <= *final(change_counter),
            final(self).measure() + (*final(change_counter) - *old(change_counter)) <= old(self).measure(),
            *final(change_counter) == *old(change_counter) ==> *final(self) == *old(self),
            !r ==> old(self).half_fact_broken(choice1, choice2, object as int) && *final(self) == *old(self),
            r ==> (old(self).determined_to(choice1.0 as int, object as int, choice1.1 as int)
                ==> final(self).determined_to(choice2.0 as int, object as int, choice2.1 as int)),
            old(self).half_fact_holds(choice1, choice2, object as int) ==> r && *final(change_counter)
                == *old(change_counter),
            forall|a: spec_fn(int, int) -> int|
                #[trigger] old(self).allows(a) && (a(choice1.0 as int, object as int) == choice1.1
                    ==> a(choice2.0 as int, object as int) == choice2.1) ==> r && final(self).allows(a),
    {
        let (p1, ch1) = choice1;
        let (p2, ch2) = choice2;
        if self.is_determined(p1, object) && self.is_choice_enabled(p1, object, ch1) {
            proof {
                let c = choose|c: int| self.determined_to(p1 as int, object as int, c);
                assert(c == ch1);
            }
            if !self.is_choice_enabled(p2, object, ch2) {
                proof {
                    assert forall|a: spec_fn(int, int) -> int|
                        #[trigger] old(self).allows(a) && (a(choice1.0 as int, object as int) == choice1.1
                            ==> a(choice2.0 as int, object as int) == choice2.1) implies false by {
                        assert(self.enabled(p1 as int, object as int, a(p1 as int, object as int)));
                        assert(self.enabled(p2 as int, object as int, a(p2 as int, object as int)));
                    }
                }
                return false;
            }
            if !self.is_determined(p2, object) {
                let ghost prev = *self;
                assert(prev.determined_to(p1 as int, object as int, ch1 as int));
                self.determine_choice(p2, object, ch2);
                proof {
                    assert forall|p: int, o: int, c: int|
                        #[trigger] prev.determined_to(p, o, c) && prev.cell_in_range(p, o) implies self.determined_to(p, o, c) by {
                        if p == p2 && o == object {
                        } else {
                            assert forall|d: int| 0 <= d < self.oc() implies #[trigger] self.enabled(p, o, d) == prev.enabled(p, o, d) by {}
                        }
                    }
                    if prev.determined_to(p2 as int, object as int, ch2 as int) {
                        assert(prev.determined(p2 as int, object as int));
                    }
                    assert forall|a: spec_fn(int, int) -> int|
                        #[trigger] prev.allows(a) && (a(choice1.0 as int, object as int) == choice1.1
                            ==> a(choice2.0 as int, object as int) == choice2.1) implies self.allows(a) by {
                        assert(prev.enabled(p1 as int, object as int, a(p1 as int, object as int)));
                        assert(a(p1 as int, object as int) == ch1);
                        assert forall|p: int, o: int| self.cell_in_range(p, o) implies 0 <= #[trigger] a(p, o) < self.oc()
                            && self.enabled(p, o, a(p, o)) by {
                            assert(prev.enabled(p, o, a(p, o)));
                            assert(0 <= a(p, o) < prev.oc());
                            if p == p2 && o == object {
                                assert(a(p, o) == ch2);
                            }
                        }
                    }
                }
                *change_counter = *change_counter + 1;
            } else {
                proof {
                    let c = choose|c: int| self.determined_to(p2 as int, object as int, c);
                    assert(c == ch2);
                }
            }
        } else {
            proof {
                if self.determined_to(p1 as int, object as int, ch1 as int) {
                    assert(self.determined(p1 as int, object as int));
                }
            }
        }
        true
    }

    /// One pass of the facts over every object.
    pub fn apply_facts(&mut self, change_counter: &mut usize) -> (r: bool)
        requires
            old(self).wf(),
            *old(change_counter) + old(self).measure() <= usize::MAX,
        ensures
            final(self).wf(),
            final(self).narrows(old(self)),
            final(self).keeps_determined(old(self)),
            *old(change_counter) <= *final(change_counter),
            final(self).measure() + (*final(change_counter) - *old(change_counter)) <= old(self).measure(),
            *final(change_counter) == *old(change_counter) ==> *final(self) == *old(self),
            !r ==> final(self).fact_broken(),
            r ==> final(self).facts_carried(old(self), old(self).props.facts.len() as int),
            r && *final(change_counter) == *old(change_counter) ==> final(self).facts_hold(),
            old(self).facts_hold() ==> r && *final(change_counter) == *old(change_counter),
            forall|a: spec_fn(int, int) -> int|
                #[trigger] old(self).allows(a) && old(self).props.keeps_facts(a) ==> r && final(self).allows(a),
            forall|a: spec_fn(int, int) -> int| #[trigger] old(self).solution(a) ==> r && final(self).solution(a),
    {
        let props = Rc::clone(&self.props);
        let nf = props.facts.len();
        let oc = props.object_count;
        let ghost cc0 = *change_counter;
        let mut k: usize = 0;
        while k < nf
            invariant
                self.wf(),
                *props == *self.props,
                self.props == old(self).props,
                nf == props.facts.len(),
                oc == self.oc(),
                k <= nf,
                self.narrows(old(self)),
                self.keeps_determined(old(self)),
                cc0 == *old(change_counter),
                cc0 + old(self).measure() <= usize::MAX,
                cc0 <= *change_counter,
                self.measure() + (*change_counter - cc0) <= old(self).measure(),
                *change_counter == cc0 ==> *self == *old(self),
                self.facts_carried(old(self), k as int),
                old(self).facts_hold() ==> *change_counter == cc0,
                forall|a: spec_fn(int, int) -> int|
                    #[trigger] old(self).allows(a) && old(self).props.keeps_facts(a) ==> self.allows(a),
            decreases nf - k,
        {
            let c1 = props.facts[k].choice1;
            let c2 = props.facts[k].choice2;
            let mut object: usize = 0;
            while object < oc
                invariant
                    self.wf(),
                    *props == *self.props,
                    self.props == old(self).props,
                    nf == props.facts.len(),
                    oc == self.oc(),
                    k < nf,
                    c1 == props.facts[k as int].choice1,
                    c2 == props.facts[k as int].choice2,
                    object <= oc,
                    self.narrows(old(self)),
                    self.keeps_determined(old(self)),
                    cc0 == *old(change_counter),
                    cc0 + old(self).measure() <= usize::MAX,
                    cc0 <= *change_counter,
                    self.measure() + (*change_counter - cc0) <= old(self).measure(),
                    *change_counter == cc0 ==> *self == *old(self),
                    self.facts_carried(old(self), k as int),
                    forall|o: int| 0 <= o < object ==> {
                        &&& (old(self).determined_to(c1.0 as int, o, c1.1 as int)
                            ==> #[trigger] self.determined_to(c2.0 as int, o, c2.1 as int))
                        &&& (old(self).determined_to(c2.0 as int, o, c2.1 as int)
                            ==> self.determined_to(c1.0 as int, o, c1.1 as int))
                    },
                    old(self).facts_hold() ==> *change_counter == cc0,
                    forall|a: spec_fn(int, int) -> int|
                        #[trigger] old(self).allows(a) && old(self).props.keeps_facts(a) ==> self.allows(a),
                decreases oc - object,
            {
                assert(props.fact_in_range(props.facts[k as int]));
                let ghost s0 = *self;
                proof {
                    assert forall|a: spec_fn(int, int) -> int|
                        #[trigger] old(self).allows(a) && old(self).props.keeps_facts(a) implies {
                        &&& s0.allows(a)
                        &&& (a(c1.0 as int, object as int) == c1.1 ==> a(c2.0 as int, object as int) == c2.1)
                        &&& (a(c2.0 as int, object as int) == c2.1 ==> a(c1.0 as int, object as int) == c1.1)
                    } by {
                        assert(old(self).props.keeps_fact(a, k as int, object as int));
                    }
                }
                if !self.apply_half_fact(object, c1, c2, change_counter) {
                    proof {
                        assert(self.half_fact_broken(c1, c2, object as int));
                        assert(self.fact_broken_at(k as int, object as int));
                    }
                    return false;
                }
                let ghost s1 = *self;
                if !self.apply_half_fact(object, c2, c1, change_counter) {
                    proof {
                        if old(self).facts_hold() {
                            assert(s0.half_fact_holds(c1, c2, object as int));
                            assert(s1.half_fact_holds(c2, c1, object as int));
                        }
                        let fk = self.props.facts[k as int];
                        assert(self.half_fact_broken(fk.choice2, fk.choice1, object as int));
                        assert(self.fact_broken_at(k as int, object as int));
                    }
                    return false;
                }
                proof {
                    let fs = self.props.facts;
                    assert forall|j: int, o: int| 0 <= j < k && 0 <= o < self.oc() implies {
                        &&& (old(self).determined_to(fs[j].choice1.0 as int, o, fs[j].choice1.1 as int)
                            ==> #[trigger] self.determined_to(fs[j].choice2.0 as int, o, fs[j].choice2.1 as int))
                        &&& (old(self).determined_to(fs[j].choice2.0 as int, o, fs[j].choice2.1 as int)
                            ==> self.determined_to(fs[j].choice1.0 as int, o, fs[j].choice1.1 as int))
                    } by {
                        if old(self).determined_to(fs[j].choice1.0 as int, o, fs[j].choice1.1 as int) {
                            assert(s0.determined_to(fs[j].choice2.0 as int, o, fs[j].choice2.1 as int));
                            assert(s1.determined_to(fs[j].choice2.0 as int, o, fs[j].choice2.1 as int));
                        }
                        if old(self).determined_to(fs[j].choice2.0 as int, o, fs[j].choice2.1 as int) {
                            assert(s0.determined_to(fs[j].choice1.0 as int, o, fs[j].choice1.1 as int));
                            assert(s1.determined_to(fs[j].choice1.0 as int, o, fs[j].choice1.1 as int));
                        }
                    }
                    if old(self).facts_hold() {
                        assert(s0.half_fact_holds(c1, c2, object as int));
                        assert(s1.half_fact_holds(c2, c1, object as int));
                    }
                    assert forall|o: int| 0 <= o < object + 1 implies {
                        &&& (old(self).determined_to(c1.0 as int, o, c1.1 as int)
                            ==> #[trigger] self.determined_to(c2.0 as int, o, c2.1 as int))
                        &&& (old(self).determined_to(c2.0 as int, o, c2.1 as int)
                            ==> self.determined_to(c1.0 as int, o, c1.1 as int))
                    } by {
                        if o < object {
                            if old(self).determined_to(c1.0 as int, o, c1.1 as int) {
                                assert(s0.determined_to(c2.0 as int, o, c2.1 as int));
                            }
                            if old(self).determined_to(c2.0 as int, o, c2.1 as int) {
                                assert(s0.determined_to(c1.0 as int, o, c1.1 as int));
                            }
                        } else {
                            if old(self).determined_to(c1.0 as int, o, c1.1 as int) {
                                assert(s0.determined_to(c1.0 as int, o, c1.1 as int));
                                assert(s1.determined_to(c2.0 as int, o, c2.1 as int));
                            }
                            if old(self).determined_to(c2.0 as int, o, c2.1 as int) {
                                assert(s0.determined_to(c2.0 as int, o, c2.1 as int));
                                assert(s1.determined_to(c2.0 as int, o, c2.1 as int));
                            }
                        }
                    }
                }
                object += 1;
            }
            k += 1;
        }
        true
    }

    /// Cells `(p3, o1)` and `(p4, o2)` are determined to `c3` and `c4`
    /// while `o1` and `o2` are pinned to the two choices of predicate `k`.
    pub open spec fn predicate_applies(&self, k: int, o1: int, o2: int, c3: int, c4: int) -> bool {
        let pr = self.props.predicates[k];
        &&& self.determined_to(pr.choice1.0 as int, o1, pr.choice1.1 as int)
        &&& self.determined_to(pr.choice2.0 as int, o2, pr.choice2.1 as int)
        &&& self.determined_to(pr.property3 as int, o1, c3)
        &&& self.determined_to(pr.property4 as int, o2, c4)
    }

    /// The test of predicate `k` may answer `r` on the names of choices `c3`
    /// of its third property and `c4` of its fourth.
    pub open spec fn predicate_verdict(&self, k: int, c3: int, c4: int, r: bool) -> bool {
        let pr = self.props.predicates[k];
        test_may_return(
            pr.test,
            self.props.options[pr.property3 as int][c3]@,
            self.props.options[pr.property4 as int][c4]@,
            r,
        )
    }

    /// Every predicate that applies is accepted by its test.
    pub open spec fn predicates_hold(&self) -> bool {
        forall|k: int, o1: int, o2: int, c3: int, c4: int|
            0 <= k < self.props.predicates.len() && 0 <= o1 < self.oc() && 0 <= o2 < self.oc()
                && #[trigger] self.predicate_applies(k, o1, o2, c3, c4)
                ==> self.predicate_verdict(k, c3, c4, true)
    }

    /// Some predicate that applies is refused by its test.
    pub open spec fn predicate_broken(&self) -> bool {
        exists|k: int, o1: int, o2: int, c3: int, c4: int|
            0 <= k < self.props.predicates.len() && 0 <= o1 < self.oc() && 0 <= o2 < self.oc()
                && #[trigger] self.predicate_applies(k, o1, o2, c3, c4)
                && self.predicate_verdict(k, c3, c4, false)
    }

    /// Runs the test of every predicate on every pair of objects that it
    /// applies to; the state is left as it is.
    pub fn apply_predicates(&mut self) -> (r: bool)
        requires
            old(self).wf(),
        ensures
            *final(self) == *old(self),
            r ==> final(self).predicates_hold(),
            !r ==> final(self).predicate_broken(),
            forall|a: spec_fn(int, int) -> int| #[trigger] old(self).solution(a) ==> r,
    {
        let props = Rc::clone(&self.props);
        let np = props.predicates.len();
        let oc = props.object_count;
        let mut k: usize = 0;
        while k < np
            invariant
                self.wf(),
                *self == *old(self),
                *props == *self.props,
                np == props.predicates.len(),
                oc == self.oc(),
                k <= np,
                forall|j: int, o1: int, o2: int, c3: int, c4: int|
                    0 <= j < k && 0 <= o1 < oc && 0 <= o2 < oc
                        && #[trigger] self.predicate_applies(j, o1, o2, c3, c4)
                        ==> self.predicate_verdict(j, c3, c4, true),
            decreases np - k,
        {
            let pred = &props.predicates[k];
            assert(props.predicate_in_range(props.predicates[k as int]));
            let (p1, ch1) = pred.choice1;
            let (p2, ch2) = pred.choice2;
            let p3 = pred.property3;
            let p4 = pred.property4;
            let mut object1: usize = 0;
            while object1 < oc
                invariant
                    self.wf(),
                    *self == *old(self),
                    *props == *self.props,
                    np == props.predicates.len(),
                    oc == self.oc(),
                    k < np,
                    *pred == props.predicates[k as int],
                    props.predicate_in_range(*pred),
                    (p1, ch1) == pred.choice1,
                    (p2, ch2) == pred.choice2,
                    p3 == pred.property3,
                    p4 == pred.property4,
                    object1 <= oc,
                    forall|j: int, o1: int, o2: int, c3: int, c4: int|
                        0 <= j < k && 0 <= o1 < oc && 0 <= o2 < oc
                            && #[trigger] self.predicate_applies(j, o1, o2, c3, c4)
                            ==> self.predicate_verdict(j, c3, c4, true),
                    forall|o1: int, o2: int, c3: int, c4: int|
                        0 <= o1 < object1 && 0 <= o2 < oc
                            && #[trigger] self.predicate_applies(k as int, o1, o2, c3, c4)
                            ==> self.predicate_verdict(k as int, c3, c4, true),
                decreases oc - object1,
            {
                let mut object2: usize = 0;
                while object2 < oc
                    invariant
                        self.wf(),
                        *self == *old(self),
                        *props == *self.props,
                        np == props.predicates.len(),
                        oc == self.oc(),
                        k < np,
                        *pred == props.predicates[k as int],
                        props.predicate_in_range(*pred),
                        (p1, ch1) == pred.choice1,
                        (p2, ch2) == pred.choice2,
                        p3 == pred.property3,
                        p4 == pred.property4,
                        object1 < oc,
                        object2 <= oc,
                        forall|j: int, o1: int, o2: int, c3: int, c4: int|
                            0 <= j < k && 0 <= o1 < oc && 0 <= o2 < oc
                                && #[trigger] self.predicate_applies(j, o1, o2, c3, c4)
                                ==> self.predicate_verdict(j, c3, c4, true),
                        forall|o1: int, o2: int, c3: int, c4: int|
                            0 <= o1 < object1 && 0 <= o2 < oc
                                && #[trigger] self.predicate_applies(k as int, o1, o2, c3, c4)
                                ==> self.predicate_verdict(k as int, c3, c4, true),
                        forall|o2: int, c3: int, c4: int|
                            0 <= o2 < object2
                                && #[trigger] self.predicate_applies(k as int, object1 as int, o2, c3, c4)
                                ==> self.predicate_verdict(k as int, c3, c4, true),
                    decreases oc - object2,
                {
                    let ghost o1 = object1 as int;
                    let ghost o2 = object2 as int;
                    if self.is_determined(p1, object1) && self.is_determined(p2, object2)
                        && self.is_choice_enabled(p1, object1, ch1)
                        && self.is_choice_enabled(p2, object2, ch2)
                        && self.is_determined(p3, object1) && self.is_determined(p4, object2) {
                        let ch3 = self.find_determined(p3, object1);
                        let ch4 = self.find_determined(p4, object2);
                        assert(props.options[p3 as int].len() == oc);
                        assert(props.options[p4 as int].len() == oc);
                        let s1 = props.options[p3][ch3].as_str();
                        let s2 = props.options[p4][ch4].as_str();
                        proof {
                            let c1 = choose|c: int| self.determined_to(p1 as int, o1, c);
                            assert(c1 == ch1);
                            let c2 = choose|c: int| self.determined_to(p2 as int, o2, c);
                            assert(c2 == ch2);
                            assert(self.predicate_applies(k as int, o1, o2, ch3 as int, ch4 as int));
                        }
                        let verdict = (pred.test)(s1, s2);
                        proof {
                            assert(self.predicate_verdict(k as int, ch3 as int, ch4 as int, verdict));
                            assert forall|c3: int, c4: int|
                                #[trigger] self.predicate_applies(k as int, o1, o2, c3, c4)
                                implies c3 == ch3 && c4 == ch4 by {
                                assert(self.enabled(p3 as int, o1, ch3 as int));
                                assert(self.enabled(p4 as int, o2, ch4 as int));
                            }
                        }
                        if !verdict {
                            proof {
                                assert forall|a: spec_fn(int, int) -> int| #[trigger] old(self).solution(a) implies false by {
                                    assert(0 <= #[trigger] a(p1 as int, o1) < oc);
                                    assert(0 <= a(p2 as int, o2) < oc);
                                    assert(0 <= a(p3 as int, o1) < oc);
                                    assert(0 <= a(p4 as int, o2) < oc);
                                    assert(self.props.predicate_pins(a, k as int, o1, o2));
                                }
                            }
                            return false;
                        }
                    } else {
                        proof {
                            assert forall|c3: int, c4: int|
                                !#[trigger] self.predicate_applies(k as int, o1, o2, c3, c4) by {
                                if self.predicate_applies(k as int, o1, o2, c3, c4) {
                                    assert(self.determined(p1 as int, o1));
                                    assert(self.determined(p2 as int, o2));
                                    assert(self.determined(p3 as int, o1));
                                    assert(self.determined(p4 as int, o2));
                                }
                            }
                        }
                    }
                    object2 += 1;
                }
                object1 += 1;
            }
            k += 1;
        }
        true
    }

    /// Where a determined cell excludes its choice from every other object
    /// under the same property.
    pub open spec fn permutations_closed(&self) -> bool {
        forall|p: int, o: int, c: int, o2: int|
            self.cell_in_range(p, o) && 0 <= o2 < self.oc() && o2 != o && #[trigger] self.determined_to(p, o, c)
                ==> !#[trigger] self.enabled(p, o2, c)
    }

    /// Clears, for every determined cell, its choice from the other objects
    /// under the same property; the counter grows by the number of bits
    /// cleared.
    pub fn apply_permutations(&mut self, change_counter: &mut usize) -> (r: bool)
        requires
            old(self).wf(),
            *old(change_counter) + old(self).measure() <= usize::MAX,
        ensures
            r,
            final(self).wf(),
            final(self).narrows(old(self)),
            *old(change_counter) <= *final(change_counter),
            final(self).measure() + (*final(change_counter) - *old(change_counter)) == old(self).measure(),
            *final(change_counter) == *old(change_counter) ==> *final(self) == *old(self),
            *final(change_counter) == *old(change_counter) ==> final(self).permutations_closed(),
            old(self).permutations_closed() ==> *final(change_counter) == *old(change_counter),
            forall|a: spec_fn(int, int) -> int|
                #[trigger] old(self).allows(a) && old(self).props.one_to_one(a) ==> final(self).allows(a),
            forall|a: spec_fn(int, int) -> int| #[trigger] old(self).solution(a) ==> final(self).solution(a),
    {
        let pc = self.props.properties.len();
        let oc = self.props.object_count;
        let ghost cc0 = *change_counter;
        let mut property: usize = 0;
        while property < pc
            invariant
                self.wf(),
                self.props == old(self).props,
                pc == self.pc(),
                oc == self.oc(),
                property <= pc,
                self.narrows(old(self)),
                cc0 == *old(change_counter),
                cc0 + old(self).measure() <= usize::MAX,
                cc0 <= *change_counter,
                self.measure() + (*change_counter - cc0) == old(self).measure(),
                *change_counter == cc0 ==> *self == *old(self),
                old(self).permutations_closed() ==> *change_counter == cc0,
                forall|a: spec_fn(int, int) -> int|
                    #[trigger] old(self).allows(a) && old(self).props.one_to_one(a) ==> self.allows(a),
                *change_counter == cc0 ==> forall|p: int, o: int, c: int, o2: int|
                    0 <= p < property && 0 <= o < oc && 0 <= o2 < oc && o2 != o
                        && #[trigger] self.determined_to(p, o, c) ==> !#[trigger] self.enabled(p, o2, c),
            decreases pc - property,
        {
            let mut object: usize = 0;
            while object < oc
                invariant
                    self.wf(),
                    self.props == old(self).props,
                    pc == self.pc(),
                    oc == self.oc(),
                    property < pc,
                    object <= oc,
                    self.narrows(old(self)),
                    cc0 == *old(change_counter),
                    cc0 + old(self).measure() <= usize::MAX,
                    cc0 <= *change_counter,
                    self.measure() + (*change_counter - cc0) == old(self).measure(),
                    *change_counter == cc0 ==> *self == *old(self),
                    old(self).permutations_closed() ==> *change_counter == cc0,
                    forall|a: spec_fn(int, int) -> int|
                        #[trigger] old(self).allows(a) && old(self).props.one_to_one(a) ==> self.allows(a),
                    *change_counter == cc0 ==> forall|p: int, o: int, c: int, o2: int|
                        0 <= p < property && 0 <= o < oc && 0 <= o2 < oc && o2 != o
                            && #[trigger] self.determined_to(p, o, c) ==> !#[trigger] self.enabled(p, o2, c),
                    *change_counter == cc0 ==> forall|o: int, c: int, o2: int|
                        0 <= o < object && 0 <= o2 < oc && o2 != o
                            && #[trigger] self.determined_to(property as int, o, c)
                            ==> !#[trigger] self.enabled(property as int, o2, c),
                decreases oc - object,
            {
                if self.is_determined(property, object) {
                    let choice = self.find_determined(property, object);
                    proof {
                        assert forall|a: spec_fn(int, int) -> int|
                            #[trigger] old(self).allows(a) && old(self).props.one_to_one(a) implies a(property as int, object as int) == choice by {
                            assert(self.enabled(property as int, object as int, a(property as int, object as int)));
                        }
                    }
                    let mut object2: usize = 0;
                    while object2 < oc
                        invariant
                            self.wf(),
                            self.props == old(self).props,
                            pc == self.pc(),
                            oc == self.oc(),
                            property < pc,
                            object < oc,
                            choice < oc,
                            object2 <= oc,
                            self.narrows(old(self)),
                            cc0 == *old(change_counter),
                            cc0 + old(self).measure() <= usize::MAX,
                            cc0 <= *change_counter,
                            self.measure() + (*change_counter - cc0) == old(self).measure(),
                            *change_counter == cc0 ==> *self == *old(self),
                            *change_counter == cc0 ==> self.determined_to(property as int, object as int, choice as int),
                            old(self).permutations_closed() ==> *change_counter == cc0,
                            forall|a: spec_fn(int, int) -> int|
                                #[trigger] old(self).allows(a) && old(self).props.one_to_one(a) ==> self.allows(a),
                            *change_counter == cc0 ==> forall|p: int, o: int, c: int, o2: int|
                                0 <= p < property && 0 <= o < oc && 0 <= o2 < oc && o2 != o
                                    && #[trigger] self.determined_to(p, o, c) ==> !#[trigger] self.enabled(p, o2, c),
                            *change_counter == cc0 ==> forall|o: int, c: int, o2: int|
                                0 <= o < object && 0 <= o2 < oc && o2 != o
                                    && #[trigger] self.determined_to(property as int, o, c)
                                    ==> !#[trigger] self.enabled(property as int, o2, c),
                            forall|a: spec_fn(int, int) -> int|
                                #[trigger] old(self).allows(a) && old(self).props.one_to_one(a) ==> a(property as int, object as int) == choice,
                            *change_counter == cc0 ==> forall|o2: int|
                                0 <= o2 < object2 && o2 != object ==> !#[trigger] self.enabled(
                                    property as int,
                                    o2,
                                    choice as int,
                                ),
                        decreases oc - object2,
                    {
                        if object != object2 && self.is_choice_enabled(property, object2, choice) {
                            let ghost prev = self.bits();
                            let ghost i = cell_index(self.oc(), property as int, object2 as int, choice as int);
                            proof {
                                lemma_cell_index(
                                    self.oc(),
                                    self.pc(),
                                    property as int,
                                    object2 as int,
                                    choice as int,
                                    property as int,
                                    object2 as int,
                                    choice as int,
                                );
                                lemma_count_update(prev, i, false);
                                if old(self).permutations_closed() {
                                    assert(!old(self).enabled(property as int, object2 as int, choice as int));
                                }
                            }
                            *change_counter = *change_counter + 1;
                            let ghost cur = *self;
                            self.set_choice_enabled(property, object2, choice, false);
                            proof {
                                assert forall|a: spec_fn(int, int) -> int|
                                    #[trigger] old(self).allows(a) && old(self).props.one_to_one(a) implies self.allows(a) by {
                                    assert(cur.allows(a));
                                    assert forall|p: int, o: int| self.cell_in_range(p, o) implies 0 <= #[trigger] a(p, o) < self.oc()
                                        && self.enabled(p, o, a(p, o)) by {
                                        assert(cur.enabled(p, o, a(p, o)));
                                        if p == property && o == object2 {
                                            assert(a(p, o) != a(property as int, object as int));
                                        }
                                        lemma_cell_index(self.oc(), self.pc(), p, o, a(p, o), property as int, object2 as int, choice as int);
                                    }
                                }
                            }
                        }
                        object2 += 1;
                    }
                    proof {
                        if *change_counter == cc0 {
                            assert forall|o: int, c: int, o2: int|
                                0 <= o < object + 1 && 0 <= o2 < oc && o2 != o
                                    && #[trigger] self.determined_to(property as int, o, c)
                                    implies !#[trigger] self.enabled(property as int, o2, c) by {
                                if o == object {
                                    assert(self.enabled(property as int, object as int, choice as int));
                                }
                            }
                        }
                    }
                } else {
                    proof {
                        if *change_counter == cc0 {
                            assert forall|o: int, c: int, o2: int|
                                0 <= o < object + 1 && 0 <= o2 < oc && o2 != o
                                    && #[trigger] self.determined_to(property as int, o, c)
                                    implies !#[trigger] self.enabled(property as int, o2, c) by {
                                if o == object {
                                    assert(self.determined(property as int, object as int));
                                }
                            }
                        }
                    }
                }
                object += 1;
            }
            property += 1;
        }
        true
    }

    fn index(&self, property: usize, object: usize, choice: usize) -> (r: usize)
        requires
            self.wf(),
            self.cell_in_range(property as int, object as int),
            choice < self.oc(),
        ensures
            r == cell_index(self.oc(), property as int, object as int, choice as int),
            r < self.bits().len(),
    {
        let oc = self.props.object_count;
        proof {
            lemma_cell_index(
                self.oc(),
                self.pc(),
                property as int,
                object as int,
                choice as int,
                property as int,
                object as int,
                choice as int,
            );
            assert(property * oc <= property * oc * oc) by (nonlinear_arith)
                requires
                    oc >= 1,
            ;
            assert(0 <= object * oc) by (nonlinear_arith);
        }
        property * oc * oc + object * oc + choice
    }
}

impl<F: Fn(&str, &str) -> bool> ZebraProperties<F> {
    /// Every fact and predicate names existing properties and choices, and
    /// every test accepts any two strings; the choice counts may still be
    /// short of the object count.
    pub open spec fn partial_wf(&self) -> bool {
        &&& self.options.len() == self.properties.len()
        &&& forall|k: int| 0 <= k < self.facts.len() ==> self.fact_in_range(#[trigger] self.facts[k])
        &&& forall|k: int|
            0 <= k < self.predicates.len() ==> self.predicate_in_range(#[trigger] self.predicates[k])
    }

    /// `self` holds what `other` holds, properties and choices at the same
    /// indices, possibly with more.
    pub open spec fn extends(&self, other: &Self) -> bool {
        &&& self.object_count == other.object_count
        &&& self.properties.len() >= other.properties.len()
        &&& self.options.len() >= other.options.len()
        &&& forall|p: int| 0 <= p < other.properties.len() ==> #[trigger] self.properties[p] == other.properties[p]
        &&& forall|p: int|
            0 <= p < other.options.len() ==> {
                &&& #[trigger] self.options[p].len() >= other.options[p].len()
                &&& forall|c: int| 0 <= c < other.options[p].len() ==> #[trigger] self.options[p][c] == other.options[p][c]
            }
    }

    pub fn get_object_count(&self) -> (r: usize)
        ensures
            r == self.object_count,
    {
        self.object_count
    }

    pub fn get_property_count(&self) -> (r: usize)
        ensures
            r == self.properties.len(),
    {
        self.properties.len()
    }

    pub fn get_property_name(&self, i: usize) -> (r: &str)
        requires
            i < self.properties.len(),
        ensures
            r@ == self.properties[i as int]@,
    {
        self.properties[i].as_str()
    }

    /// The index of the property called `name`, if there is one.
    pub fn get_property(&self, name: &str) -> (r: Option<usize>)
        ensures
            r matches Some(i) ==> i < self.properties.len() && self.properties[i as int]@ == name@
                && forall|j: int| 0 <= j < i ==> #[trigger] self.properties[j]@ != name@,
            r is None ==> forall|j: int| 0 <= j < self.properties.len() ==> #[trigger] self.properties[j]@ != name@,
    {
        let key = name.to_owned();
        let mut i: usize = 0;
        while i < self.properties.len()
            invariant
                key@ == name@,
                i <= self.properties.len(),
                forall|j: int| 0 <= j < i ==> #[trigger] self.properties[j]@ != name@,
            decreases self.properties.len() - i,
        {
            if self.properties[i] == key {
                return Some(i);
            }
            i += 1;
        }
        None
    }

    /// `p` is the first property called `name`.
    pub open spec fn first_property(&self, name: Seq<char>, p: int) -> bool {
        &&& 0 <= p < self.properties.len()
        &&& self.properties[p]@ == name
        &&& forall|j: int| 0 <= j < p ==> #[trigger] self.properties[j]@ != name
    }

    /// The name of choice `i` of the property called `property`.
    pub fn get_property_choice_name(&self, property: &str, i: usize) -> (r: &str)
        requires
            self.options.len() == self.properties.len(),
            exists|p: int| #[trigger] self.first_property(property@, p) && i < self.options[p].len(),
        ensures
            exists|p: int| #[trigger] self.first_property(property@, p) && r@ == self.options[p][i as int]@,
    {
        let p = self.get_property(property);
        let ghost q = choose|q: int| #[trigger] self.first_property(property@, q) && i < self.options[q].len();
        proof {
            if p is None {
                assert(self.properties[q]@ != property@);
            }
        }
        let p = p.unwrap();
        proof {
            if q < p {
                assert(self.properties[q]@ != property@);
            } else if p < q {
                assert(self.properties[p as int]@ != property@);
            }
            assert(self.first_property(property@, p as int));
        }
        self.options[p][i].as_str()
    }

    pub fn get_property_choice_name_by_nr(&self, p: usize, i: usize) -> (r: &str)
        requires
            p < self.options.len(),
            i < self.options[p as int].len(),
        ensures
            r@ == self.options[p as int][i as int]@,
    {
        self.options[p][i].as_str()
    }

    /// The index of the choice called `name` of the property called
    /// `property`; `None` where either is unknown.
    pub fn get_property_choice(&self, property: &str, name: &str) -> (r: Option<usize>)
        requires
            self.options.len() == self.properties.len(),
        ensures
            r matches Some(c) ==> exists|p: int| {
                &&& #[trigger] self.first_property(property@, p)
                &&& c < self.options[p].len()
                &&& self.options[p][c as int]@ == name@
                &&& forall|d: int| 0 <= d < c ==> #[trigger] self.options[p][d]@ != name@
            },
            r is None ==> forall|p: int| #[trigger] self.first_property(property@, p)
                ==> forall|d: int| 0 <= d < self.options[p].len() ==> #[trigger] self.options[p][d]@ != name@,
    {
        match self.get_property(property) {
            None => {
                proof {
                    assert forall|q: int| #[trigger] self.first_property(property@, q) implies false by {
                        assert(self.properties[q]@ != property@);
                    }
                }
                None
            },
            Some(p) => {
                assert(self.first_property(property@, p as int));
                let key = name.to_owned();
                let opts = &self.options[p];
                let mut c: usize = 0;
                while c < opts.len()
                    invariant
                        key@ == name@,
                        *opts == self.options[p as int],
                        self.first_property(property@, p as int),
                        c <= opts.len(),
                        forall|d: int| 0 <= d < c ==> #[trigger] opts[d]@ != name@,
                    decreases opts.len() - c,
                {
                    if opts[c] == key {
                        return Some(c);
                    }
                    c += 1;
                }
                proof {
                    assert forall|q: int| #[trigger] self.first_property(property@, q) implies q == p by {
                        if q < p {
                            assert(self.properties[q]@ != property@);
                        } else if p < q {
                            assert(self.properties[p as int]@ != property@);
                        }
                    }
                }
                None
            },
        }
    }
}

/// Why a catalog cannot be turned into a search state.
#[derive(Debug, PartialEq, Eq)]
pub enum BuildError {
    /// `property` has `count` choices where there are `expected` objects.
    ChoiceCount { property: usize, count: usize, expected: usize },
    /// The bit matrix would exceed what a bit-vector can hold.
    TooLarge,
}

/// Collects properties, choices, facts and predicates by name, and builds
/// the first search state.
pub struct ZebraBuilder<F> {
    pub zebra: ZebraProperties<F>,
}

impl<F: Fn(&str, &str) -> bool> ZebraProperties<F> {
    /// Choice `ch` is the choice called `choice` of the first property
    /// called `property`.
    pub open spec fn names(&self, ch: (usize, usize), property: Seq<char>, choice: Seq<char>) -> bool {
        &&& self.first_property(property, ch.0 as int)
        &&& ch.1 < self.options[ch.0 as int].len()
        &&& self.options[ch.0 as int][ch.1 as int]@ == choice
    }

    /// Some choice of the first property called `property` is called `choice`.
    pub open spec fn has_choice(&self, property: Seq<char>, choice: Seq<char>) -> bool {
        exists|c: (usize, usize)| #[trigger] self.names(c, property, choice)
    }
}

proof fn lemma_extends_trans<F: Fn(&str, &str) -> bool>(
    a: ZebraProperties<F>,
    b: ZebraProperties<F>,
    c: ZebraProperties<F>,
)
    requires
        b.extends(&a),
        c.extends(&b),
    ensures
        c.extends(&a),
{
    assert forall|p: int| 0 <= p < a.options.len() implies {
        &&& #[trigger] c.options[p].len() >= a.options[p].len()
        &&& forall|k: int| 0 <= k < a.options[p].len() ==> #[trigger] c.options[p][k] == a.options[p][k]
    } by {
        assert(b.options[p].len() >= a.options[p].len());
        assert(c.options[p].len() >= b.options[p].len());
        assert forall|k: int| 0 <= k < a.options[p].len() implies #[trigger] c.options[p][k] == a.options[p][k] by {
            assert(b.options[p][k] == a.options[p][k]);
        }
    }
    assert forall|p: int| 0 <= p < a.properties.len() implies #[trigger] c.properties[p] == a.properties[p] by {
        assert(b.properties[p] == a.properties[p]);
    }
}

proof fn lemma_first_unique<F: Fn(&str, &str) -> bool>(z: ZebraProperties<F>, name: Seq<char>, p: int, q: int)
    requires
        z.first_property(name, p),
        z.first_property(name, q),
    ensures
        p == q,
{
    if q < p {
        assert(z.properties[q]@ != name);
    } else if p < q {
        assert(z.properties[p]@ != name);
    }
}

impl<F: Fn(&str, &str) -> bool> ZebraBuilder<F> {
    pub fn new() -> (r: Self)
        ensures
            r.zebra.object_count == 0,
            r.zebra.properties.len() == 0,
            r.zebra.options.len() == 0,
            r.zebra.facts.len() == 0,
            r.zebra.predicates.len() == 0,
            r.zebra.partial_wf(),
    {
        ZebraBuilder {
            zebra: ZebraProperties {
                object_count: 0,
                properties: Vec::new(),
                options: Vec::new(),
                facts: Vec::new(),
                predicates: Vec::new(),
            },
        }
    }

    pub fn set_object_count(self, size: usize) -> (r: Self)
        ensures
            r.zebra.object_count == size,
            r.zebra.properties == self.zebra.properties,
            r.zebra.options == self.zebra.options,
            r.zebra.facts == self.zebra.facts,
            r.zebra.predicates == self.zebra.predicates,
    {
        let mut b = self;
        b.zebra.object_count = size;
        b
    }

    /// The index of the property called `property`, added at the end when
    /// it is new.
    fn ensure_property(&mut self, property: &str) -> (r: usize)
        requires
            old(self).zebra.partial_wf(),
        ensures
            final(self).zebra.partial_wf(),
            final(self).zebra.extends(&old(self).zebra),
            final(self).zebra.facts == old(self).zebra.facts,
            final(self).zebra.predicates == old(self).zebra.predicates,
            final(self).zebra.first_property(property@, r as int),
            final(self).zebra.options[r as int].len() == if r < old(self).zebra.options.len() {
                old(self).zebra.options[r as int].len()
            } else {
                0
            },
            forall|p: int| 0 <= p < final(self).zebra.options.len() && p != r
                ==> #[trigger] final(self).zebra.options[p] == old(self).zebra.options[p],
    {
        match self.zebra.get_property(property) {
            Some(i) => i,
            None => {
                let ghost z0 = self.zebra;
                self.zebra.properties.push(property.to_owned());
                self.zebra.options.push(Vec::new());
                proof {
                    let z = self.zebra;
                    assert forall|k: int| 0 <= k < z.facts.len() implies z.fact_in_range(#[trigger] z.facts[k]) by {
                        assert(z0.fact_in_range(z0.facts[k]));
                    }
                    assert forall|k: int| 0 <= k < z.predicates.len() implies z.predicate_in_range(#[trigger] z.predicates[k]) by {
                        assert(z0.predicate_in_range(z0.predicates[k]));
                    }
                }
                self.zebra.properties.len() - 1
            },
        }
    }

    /// The property and choice indices of `choice` of `property`, added when
    /// either is new.
    fn ensure_choice(&mut self, property: &str, choice: &str) -> (r: (usize, usize))
        requires
            old(self).zebra.partial_wf(),
        ensures
            final(self).zebra.partial_wf(),
            final(self).zebra.extends(&old(self).zebra),
            final(self).zebra.facts == old(self).zebra.facts,
            final(self).zebra.predicates == old(self).zebra.predicates,
            final(self).zebra.names(r, property@, choice@),
    {
        let prix = self.ensure_property(property);
        let ch = self.zebra.get_property_choice(property, choice);
        match ch {
            Some(c) => {
                proof {
                    let p = choose|p: int| {
                        &&& #[trigger] self.zebra.first_property(property@, p)
                        &&& c < self.zebra.options[p].len()
                        &&& self.zebra.options[p][c as int]@ == choice@
                        &&& forall|d: int| 0 <= d < c ==> #[trigger] self.zebra.options[p][d]@ != choice@
                    };
                    lemma_first_unique(self.zebra, property@, p, prix as int);
                }
                (prix, c)
            },
            None => {
                let ghost z0 = self.zebra;
                let mut v = self.zebra.options.remove(prix);
                v.push(choice.to_owned());
                self.zebra.options.insert(prix, v);
                proof {
                    let z = self.zebra;
                    assert forall|p: int| 0 <= p < z.options.len() && p != prix implies #[trigger] z.options[p]
                        == z0.options[p] by {
                        if p < prix {
                            assert(z0.options@.remove(prix as int)[p] == z0.options[p]);
                        } else {
                            assert(z0.options@.remove(prix as int)[p - 1] == z0.options[p]);
                        }
                    }
                    assert(z.options[prix as int]@ == z0.options[prix as int]@.push(z.options[prix as int][z0.options[prix as int].len() as int]));
                    assert forall|k: int| 0 <= k < z.facts.len() implies z.fact_in_range(#[trigger] z.facts[k]) by {
                        assert(z0.fact_in_range(z0.facts[k]));
                    }
                    assert forall|k: int| 0 <= k < z.predicates.len() implies z.predicate_in_range(#[trigger] z.predicates[k]) by {
                        assert(z0.predicate_in_range(z0.predicates[k]));
                    }
                    assert(z.first_property(property@, prix as int));
                }
                (prix, self.zebra.options[prix].len() - 1)
            },
        }
    }

    /// Records that `choice1` of `property1` and `choice2` of `property2`
    /// go together, naming them first where they are new.
    pub fn fact(self, property1: &str, choice1: &str, property2: &str, choice2: &str) -> (r: Self)
        requires
            self.zebra.partial_wf(),
        ensures
            r.zebra.partial_wf(),
            r.zebra.extends(&self.zebra),
            r.zebra.predicates == self.zebra.predicates,
            r.zebra.facts.len() == self.zebra.facts.len() + 1,
            forall|k: int| 0 <= k < self.zebra.facts.len() ==> #[trigger] r.zebra.facts[k] == self.zebra.facts[k],
            r.zebra.names(r.zebra.facts@.last().choice1, property1@, choice1@),
            r.zebra.names(r.zebra.facts@.last().choice2, property2@, choice2@),
    {
        let mut b = self;
        let c1 = b.ensure_choice(property1, choice1);
        let ghost z1 = b.zebra;
        let c2 = b.ensure_choice(property2, choice2);
        proof {
            let z = b.zebra;
            lemma_extends_trans(self.zebra, z1, z);
            assert(z.options[c1.0 as int].len() >= z1.options[c1.0 as int].len());
            assert(z.options[c1.0 as int][c1.1 as int] == z1.options[c1.0 as int][c1.1 as int]);
            assert(z.properties[c1.0 as int] == z1.properties[c1.0 as int]);
            assert forall|j: int| 0 <= j < c1.0 implies #[trigger] z.properties[j]@ != property1@ by {
                assert(z1.properties[j]@ != property1@);
            }
        }
        b.zebra.facts.push(Fact { choice1: c1, choice2: c2 });
        proof {
            let z = b.zebra;
            assert forall|k: int| 0 <= k < z.facts.len() implies z.fact_in_range(#[trigger] z.facts[k]) by {
                if k < z.facts.len() - 1 {
                    assert(z1.fact_in_range(z1.facts[k]));
                }
            }
        }
        b
    }

    /// Records a test between the object pinned to `choice1` of `property1`
    /// and the object pinned to `choice2` of `property2`, on their choices
    /// of `property3` and `property4`.
    pub fn predicate(
        self,
        property1: &str,
        choice1: &str,
        property2: &str,
        choice2: &str,
        property3: &str,
        property4: &str,
        test: F,
    ) -> (r: Self)
        requires
            self.zebra.partial_wf(),
            forall|a: &str, b: &str| test.requires((a, b)),
        ensures
            r.zebra.partial_wf(),
            r.zebra.extends(&self.zebra),
            r.zebra.facts == self.zebra.facts,
            r.zebra.predicates.len() == self.zebra.predicates.len() + 1,
            forall|k: int|
                0 <= k < self.zebra.predicates.len() ==> #[trigger] r.zebra.predicates[k] == self.zebra.predicates[k],
            r.zebra.names(r.zebra.predicates@.last().choice1, property1@, choice1@),
            r.zebra.names(r.zebra.predicates@.last().choice2, property2@, choice2@),
            r.zebra.first_property(property3@, r.zebra.predicates@.last().property3 as int),
            r.zebra.first_property(property4@, r.zebra.predicates@.last().property4 as int),
            r.zebra.predicates@.last().test == test,
    {
        let mut b = self;
        let c1 = b.ensure_choice(property1, choice1);
        let ghost z1 = b.zebra;
        let c2 = b.ensure_choice(property2, choice2);
        let ghost z2 = b.zebra;
        let p3 = b.ensure_property(property3);
        let ghost z3 = b.zebra;
        let p4 = b.ensure_property(property4);
        proof {
            let z = b.zebra;
            lemma_extends_trans(self.zebra, z1, z2);
            lemma_extends_trans(self.zebra, z2, z3);
            lemma_extends_trans(self.zebra, z3, z);
            assert(z.options[c1.0 as int].len() >= z1.options[c1.0 as int].len());
            assert(z.options[c1.0 as int][c1.1 as int] == z1.options[c1.0 as int][c1.1 as int]);
            assert forall|j: int| 0 <= j < c1.0 implies #[trigger] z.properties[j]@ != property1@ by {
                assert(z1.properties[j]@ != property1@);
            }
            assert(z.options[c2.0 as int].len() >= z2.options[c2.0 as int].len());
            assert(z.options[c2.0 as int][c2.1 as int] == z2.options[c2.0 as int][c2.1 as int]);
            assert forall|j: int| 0 <= j < c2.0 implies #[trigger] z.properties[j]@ != property2@ by {
                assert(z2.properties[j]@ != property2@);
            }
            assert forall|j: int| 0 <= j < p3 implies #[trigger] z.properties[j]@ != property3@ by {
                assert(z3.properties[j]@ != property3@);
            }
        }
        b.zebra.predicates.push(Predicate { choice1: c1, choice2: c2, property3: p3, property4: p4, test });
        proof {
            let z = b.zebra;
            assert forall|k: int| 0 <= k < z.predicates.len() implies z.predicate_in_range(#[trigger] z.predicates[k]) by {
                if k < z.predicates.len() - 1 {
                    assert(z1.predicate_in_range(z1.predicates[k]));
                }
            }
        }
        b
    }

    /// The first property whose choice count differs from the object count.
    pub open spec fn first_short(&self, p: int) -> bool {
        &&& 0 <= p < self.zebra.options.len()
        &&& self.zebra.options[p].len() != self.zebra.object_count
        &&& forall|q: int| 0 <= q < p ==> #[trigger] self.zebra.options[q].len() == self.zebra.object_count
    }

    /// Every property has exactly one choice per object.
    pub open spec fn counts_match(&self) -> bool {
        forall|p: int| 0 <= p < self.zebra.options.len() ==> #[trigger] self.zebra.options[p].len() == self.zebra.object_count
    }

    /// Freezes the catalog and returns the first state, where object `i`
    /// holds choice `i` of the first property and every other choice is
    /// open; fails when a property's choice count is not the object count,
    /// or when the bit matrix would be too large.
    pub fn build(self) -> (r: Result<Zebra<F>, BuildError>)
        requires
            self.zebra.partial_wf(),
        ensures
            !self.counts_match() <==> r matches Err(BuildError::ChoiceCount { .. }),
            r matches Err(BuildError::ChoiceCount { property, count, expected }) ==> {
                &&& self.first_short(property as int)
                &&& count == self.zebra.options[property as int].len()
                &&& expected == self.zebra.object_count
            },
            r matches Err(BuildError::TooLarge) <==> self.counts_match()
                && self.zebra.properties.len() * self.zebra.object_count * self.zebra.object_count > max_bits(),
            r matches Ok(z) ==> {
                &&& z.wf()
                &&& *z.props == self.zebra
                &&& forall|o: int| 0 <= o < z.oc() && z.pc() > 0 ==> #[trigger] z.determined_to(0, o, o)
                &&& forall|q: int, x: int, d: int|
                    z.cell_in_range(q, x) && 0 <= d < z.oc() && q != 0 ==> #[trigger] z.enabled(q, x, d)
            },
    {
        let zebra = self.zebra;
        let oc = zebra.object_count;
        let mut i: usize = 0;
        while i < zebra.options.len()
            invariant
                zebra == self.zebra,
                oc == zebra.object_count,
                i <= zebra.options.len(),
                forall|q: int| 0 <= q < i ==> #[trigger] zebra.options[q].len() == oc,
            decreases zebra.options.len() - i,
        {
            let chlen = zebra.options[i].len();
            if chlen != oc {
                proof {
                    assert(self.first_short(i as int));
                }
                return Err(BuildError::ChoiceCount { property: i, count: chlen, expected: oc });
            }
            i += 1;
        }
        let pc = zebra.properties.len();
        let n = match pc.checked_mul(oc) {
            Some(m) => m.checked_mul(oc),
            None => None,
        };
        proof {
            if pc * oc > usize::MAX {
                assert(pc * oc * oc >= pc * oc) by (nonlinear_arith)
                    requires
                        pc * oc > usize::MAX,
                        oc >= 0,
                ;
            }
        }
        let bit_count = match n {
            Some(b) => b,
            None => {
                return Err(BuildError::TooLarge);
            },
        };
        if bit_count > usize::MAX / 8 {
            return Err(BuildError::TooLarge);
        }
        let ghost zb = zebra;
        let mut result = Zebra { props: Rc::new(zebra), values: Bits::repeat(true, bit_count) };
        assert(*result.props == zb);
        assert(zb.wf());
        assert(result.wf());
        assert forall|q: int, x: int, d: int|
            result.cell_in_range(q, x) && 0 <= d < result.oc() implies #[trigger] result.enabled(q, x, d) by {
            lemma_cell_index(result.oc(), result.pc(), q, x, d, q, x, d);
        }
        if pc > 0 {
            result.fix_first_property();
        }
        Ok(result)
    }

    /// Names extra choices of `property`, in order, without a constraint.
    pub fn choice(self, property: &str, choices: Vec<&str>) -> (r: Self)
        requires
            self.zebra.partial_wf(),
        ensures
            r.zebra.partial_wf(),
            r.zebra.extends(&self.zebra),
            r.zebra.facts == self.zebra.facts,
            r.zebra.predicates == self.zebra.predicates,
            forall|i: int| 0 <= i < choices.len() ==> #[trigger] r.zebra.has_choice(property@, choices[i]@),
    {
        let mut b = self;
        let mut i: usize = 0;
        while i < choices.len()
            invariant
                b.zebra.partial_wf(),
                b.zebra.extends(&self.zebra),
                b.zebra.facts == self.zebra.facts,
                b.zebra.predicates == self.zebra.predicates,
                i <= choices.len(),
                forall|j: int| 0 <= j < i ==> #[trigger] b.zebra.has_choice(property@, choices[j]@),
            decreases choices.len() - i,
        {
            let ghost z0 = b.zebra;
            let c = b.ensure_choice(property, choices[i]);
            proof {
                let z = b.zebra;
                lemma_extends_trans(self.zebra, z0, z);
                assert forall|j: int| 0 <= j < i + 1 implies #[trigger] z.has_choice(property@, choices[j]@) by {
                    if j < i {
                        assert(z0.has_choice(property@, choices[j]@));
                        let c0 = choose|c: (usize, usize)| #[trigger] z0.names(c, property@, choices[j]@);
                        assert(z.options[c0.0 as int].len() >= z0.options[c0.0 as int].len());
                        assert(z.options[c0.0 as int][c0.1 as int] == z0.options[c0.0 as int][c0.1 as int]);
                        assert forall|k: int| 0 <= k < c0.0 implies #[trigger] z.properties[k]@ != property@ by {
                            assert(z0.properties[k]@ != property@);
                        }
                        assert(z.names(c0, property@, choices[j]@));
                    } else {
                        assert(z.names(c, property@, choices[j]@));
                    }
                }
            }
            i += 1;
        }
        b
    }
}

impl<F: Fn(&str, &str) -> bool> Clone for Zebra<F> {
    /// A copy with its own bits over the same shared catalog.
    fn clone(&self) -> (r: Self)
        ensures
            r.props == self.props,
            r.bits() == self.bits(),
    {
        Zebra { props: Rc::clone(&self.props), values: self.values.duplicate() }
    }
}

impl<F: Fn(&str, &str) -> bool> State for Zebra<F> {
    open spec fn state_wf(&self) -> bool {
        self.wf()
    }

    open spec fn state_solved(&self) -> bool {
        self.solved()
    }

    open spec fn state_measure(&self) -> nat {
        self.measure()
    }

    open spec fn state_facts_hold(&self) -> bool {
        self.facts_hold()
    }

    open spec fn state_predicates_hold(&self) -> bool {
        self.predicates_hold()
    }

    open spec fn state_permutations_closed(&self) -> bool {
        self.permutations_closed()
    }

    open spec fn state_solution(&self, a: spec_fn(int, int) -> int) -> bool {
        self.solution(a)
    }

    open spec fn state_narrows(&self, other: &Self) -> bool {
        self.narrows(other)
    }

    proof fn lemma_narrows_refl(&self) {
    }

    proof fn lemma_narrows_trans(a: &Self, b: &Self, c: &Self) {
    }

    proof fn lemma_measure_fits(&self) {
        lemma_count_le_len(self.bits());
    }

    fn is_solution(&self) -> (r: bool) {
        Zebra::is_solution(self)
    }

    fn split(&self) -> (r: Vec<Self>) {
        let r = Zebra::split(self);
        proof {
            assert forall|a: spec_fn(int, int) -> int|
                !self.state_solved() && #[trigger] self.state_solution(a) implies exists|i: int|
                    0 <= i < r.len() && #[trigger] r[i].state_solution(a) by {
                let i = choose|i: int| 0 <= i < r.len() && #[trigger] r[i].solution(a);
                assert(r[i].state_solution(a));
            }
        }
        r
    }

    fn apply_facts(&mut self, change_counter: &mut usize) -> (r: bool) {
        Zebra::apply_facts(self, change_counter)
    }

    fn apply_predicates(&mut self) -> (r: bool) {
        Zebra::apply_predicates(self)
    }

    fn apply_permutations(&mut self, change_counter: &mut usize) -> (r: bool) {
        Zebra::apply_permutations(self, change_counter)
    }
}

/// Once the permutation rule has nothing left to clear, no two objects are
/// determined to the same choice of a property.
pub proof fn lemma_permutation_unique<F: Fn(&str, &str) -> bool>(
    z: Zebra<F>,
    p: int,
    c: int,
    o1: int,
    o2: int,
)
    requires
        z.wf(),
        z.permutations_closed(),
        z.cell_in_range(p, o1),
        z.cell_in_range(p, o2),
        z.determined_to(p, o1, c),
        z.determined_to(p, o2, c),
    ensures
        o1 == o2,
{
    if o1 != o2 {
        assert(!z.enabled(p, o2, c));
    }
}

} // verus!
