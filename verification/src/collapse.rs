use crate::iter::filter::{
    accepted, candidates, lemma_accepted_concat, lemma_accepted_push, lemma_candidates_agree,
    lemma_candidates_none, AccumulateFilter, Domain, Predicate,
};
use vstd::prelude::*;

verus! {

/// Values that can be told apart at run time exactly as specifications
/// tell them apart.
pub trait Identical: Sized {
    /// Whether the two values are the same value.
    fn same(&self, other: &Self) -> (b: bool)
        ensures
            b == (*self == *other),
    ;

    /// The same value once more.
    fn duplicate(&self) -> (out: Self)
        ensures
            out == *self,
    ;
}

impl Identical for u8 {
    fn same(&self, other: &Self) -> (b: bool) {
        *self == *other
    }

    fn duplicate(&self) -> (out: Self) {
        *self
    }
}

impl Identical for usize {
    fn same(&self, other: &Self) -> (b: bool) {
        *self == *other
    }

    fn duplicate(&self) -> (out: Self) {
        *self
    }
}

impl Identical for (usize, usize) {
    fn same(&self, other: &Self) -> (b: bool) {
        self.0 == other.0 && self.1 == other.1
    }

    fn duplicate(&self) -> (out: Self) {
        (self.0, self.1)
    }
}

/// The search found no assignment for some coordinate on every path.
#[derive(Debug)]
pub struct NoSolution;

/// A rule on the items of one coordinate: either the coordinate is
/// pinned to one item, or a rule of the puzzle applies.
#[derive(Clone, Copy)]
pub enum Restriction<I, R> {
    /// Admits only this exact item.
    Only(I),
    /// Admits what the puzzle's rule admits.
    Rule(R),
}

impl<I: Copy + Identical, R: Predicate<I>> Predicate<I> for Restriction<I, R> {
    open spec fn admits(&self, item: I) -> bool {
        match self {
            Restriction::Only(pinned) => item == *pinned,
            Restriction::Rule(rule) => rule.admits(item),
        }
    }

    fn test(&self, item: &I) -> (b: bool) {
        match self {
            Restriction::Only(pinned) => item.same(pinned),
            Restriction::Rule(rule) => rule.test(item),
        }
    }
}

/// The domains of a search tree node, one per coordinate. Later
/// insertions under a coordinate replace earlier ones.
pub struct SearchState<C, T, P> {
    entries: Vec<(C, AccumulateFilter<T, P>)>,
}

/// The mapping that a list of entries stands for.
pub open spec fn entries_map<C, T: Copy, P: Predicate<T>>(
    entries: Seq<(C, AccumulateFilter<T, P>)>,
) -> Map<C, Domain<T, P>>
    decreases entries.len(),
{
    if entries.len() == 0 {
        Map::empty()
    } else {
        entries_map(entries.drop_last()).insert(entries.last().0, entries.last().1@)
    }
}

impl<C: Identical, T: Copy, P: Predicate<T> + Copy> View for SearchState<C, T, P> {
    type V = Map<C, Domain<T, P>>;

    closed spec fn view(&self) -> Map<C, Domain<T, P>> {
        entries_map(self.entries@)
    }
}

impl<C: Identical, T: Copy, P: Predicate<T> + Copy> SearchState<C, T, P> {
    /// A state with no coordinate.
    pub fn new() -> (out: Self)
        ensures
            out@ == Map::<C, Domain<T, P>>::empty(),
    {
        Self { entries: Vec::new() }
    }

    /// Gives `coord` the domain `domain`.
    pub fn insert(&mut self, coord: C, domain: AccumulateFilter<T, P>)
        ensures
            final(self)@ == old(self)@.insert(coord, domain@),
    {
        self.entries.push((coord, domain));
        proof {
            assert(self.entries@.drop_last() == old(self).entries@);
        }
    }

    /// The place of the entry that decides the domain of `coord`.
    fn position(&self, coord: &C) -> (at: Option<usize>)
        ensures
            match at {
                Some(i) => {
                    &&& i < self.entries@.len()
                    &&& self.entries@[i as int].0 == *coord
                    &&& forall|j: int|
                        i < j < self.entries@.len() ==> (#[trigger] self.entries@[j]).0 != *coord
                    &&& self@.contains_key(*coord)
                    &&& self@[*coord] == self.entries@[i as int].1@
                },
                None => !self@.contains_key(*coord),
            },
    {
        let mut i: usize = self.entries.len();
        while i > 0
            invariant
                i <= self.entries@.len(),
                forall|j: int|
                    i <= j < self.entries@.len() ==> (#[trigger] self.entries@[j]).0 != *coord,
            decreases i,
        {
            i -= 1;
            if self.entries[i].0.same(coord) {
                proof {
                    lemma_entries_map_last(self.entries@, *coord, i as int);
                }
                return Some(i);
            }
        }
        proof {
            lemma_entries_map_absent(self.entries@, *coord);
        }
        None
    }

    /// The domain of `coord`, if the state has one.
    pub fn get(&self, coord: &C) -> (out: Option<&AccumulateFilter<T, P>>)
        ensures
            match out {
                Some(domain) => self@.contains_key(*coord) && domain@ == self@[*coord],
                None => !self@.contains_key(*coord),
            },
    {
        match self.position(coord) {
            Some(i) => Some(&self.entries[i].1),
            None => None,
        }
    }
}

impl<C: Identical, T: Copy, P: Predicate<T> + Copy> SearchState<C, T, P> {
    /// Appends `filter` to the rules of the domain of `coord`.
    pub fn restrict(&mut self, coord: &C, filter: P)
        requires
            old(self)@.contains_key(*coord),
        ensures
            final(self)@ == old(self)@.insert(
                *coord,
                Domain {
                    rest: old(self)@[*coord].rest,
                    filters: old(self)@[*coord].filters.push(filter),
                },
            ),
    {
        let i = self.position(coord).unwrap();
        self.entries[i].1.add(filter);
        proof {
            lemma_entries_map_update(old(self).entries@, self.entries@, *coord, i as int);
        }
    }
}

impl<C: Identical, T: Copy, P: Predicate<T> + Copy> Clone for SearchState<C, T, P> {
    /// An independent state with the same domains.
    fn clone(&self) -> (out: Self)
        ensures
            out@ == self@,
    {
        let mut entries: Vec<(C, AccumulateFilter<T, P>)> = Vec::new();
        let mut i: usize = 0;
        while i < self.entries.len()
            invariant
                i <= self.entries@.len(),
                entries@.len() == i,
                entries_map(entries@) == entries_map(self.entries@.take(i as int)),
            decreases self.entries.len() - i,
        {
            let coord = self.entries[i].0.duplicate();
            let domain = self.entries[i].1.clone();
            let ghost copied = entries@;
            entries.push((coord, domain));
            proof {
                assert(entries@.drop_last() == copied);
                assert(self.entries@.take(i + 1).drop_last() == self.entries@.take(i as int));
                assert(self.entries@.take(i + 1).last() == self.entries@[i as int]);
            }
            i += 1;
        }
        proof {
            assert(self.entries@.take(i as int) == self.entries@);
        }
        Self { entries }
    }
}

/// The entry at `i` decides the domain of `coord` when no later entry
/// has that coordinate.
pub proof fn lemma_entries_map_last<C, T: Copy, P: Predicate<T>>(
    entries: Seq<(C, AccumulateFilter<T, P>)>,
    coord: C,
    i: int,
)
    requires
        0 <= i < entries.len(),
        entries[i].0 == coord,
        forall|j: int| i < j < entries.len() ==> (#[trigger] entries[j]).0 != coord,
    ensures
        entries_map(entries).contains_key(coord),
        entries_map(entries)[coord] == entries[i].1@,
    decreases entries.len(),
{
    if i < entries.len() - 1 {
        lemma_entries_map_last(entries.drop_last(), coord, i);
    }
}

/// A coordinate that no entry has is not in the mapping.
pub proof fn lemma_entries_map_absent<C, T: Copy, P: Predicate<T>>(
    entries: Seq<(C, AccumulateFilter<T, P>)>,
    coord: C,
)
    requires
        forall|j: int| 0 <= j < entries.len() ==> (#[trigger] entries[j]).0 != coord,
    ensures
        !entries_map(entries).contains_key(coord),
    decreases entries.len(),
{
    if entries.len() > 0 {
        lemma_entries_map_absent(entries.drop_last(), coord);
    }
}

/// Replacing the domain of the deciding entry of `coord` replaces the
/// domain of `coord` in the mapping and nothing else.
pub proof fn lemma_entries_map_update<C, T: Copy, P: Predicate<T>>(
    before: Seq<(C, AccumulateFilter<T, P>)>,
    after: Seq<(C, AccumulateFilter<T, P>)>,
    coord: C,
    i: int,
)
    requires
        0 <= i < before.len(),
        before[i].0 == coord,
        forall|j: int| i < j < before.len() ==> (#[trigger] before[j]).0 != coord,
        after.len() == before.len(),
        after[i].0 == coord,
        forall|j: int| 0 <= j < before.len() && j != i ==> after[j] == before[j],
    ensures
        entries_map(after) == entries_map(before).insert(coord, after[i].1@),
    decreases before.len(),
{
    let n = before.len() - 1;
    if i < n {
        lemma_entries_map_update(before.drop_last(), after.drop_last(), coord, i);
        assert(after.last() == before.last());
        assert(entries_map(after) =~= entries_map(before).insert(coord, after[i].1@));
    } else {
        assert(after.drop_last() =~= before.drop_last());
        assert(entries_map(after) =~= entries_map(before).insert(coord, after[i].1@));
    }
}

/// The rules that one propagation pair appends at `at`: its rule, once
/// for each time that `targets` names `at`.
pub open spec fn hits<C, I, R>(targets: Seq<C>, rule: R, at: C) -> Seq<Restriction<I, R>>
    decreases targets.len(),
{
    if targets.len() == 0 {
        Seq::empty()
    } else if targets.last() == at {
        hits(targets.drop_last(), rule, at).push(Restriction::Rule(rule))
    } else {
        hits(targets.drop_last(), rule, at)
    }
}

/// The rules that the propagation `pairs` of an assignment at `source`
/// appends at `at`, in order. The source itself gets none.
pub open spec fn added<C, I, R>(pairs: Seq<(Seq<C>, R)>, source: C, at: C) -> Seq<
    Restriction<I, R>,
>
    decreases pairs.len(),
{
    if at == source || pairs.len() == 0 {
        Seq::empty()
    } else {
        added(pairs.drop_last(), source, at) + hits(pairs.last().0, pairs.last().1, at)
    }
}

/// The state after the propagation `pairs` of an assignment at `source`.
pub open spec fn propagated<C, I, R>(
    state: Map<C, Domain<I, Restriction<I, R>>>,
    pairs: Seq<(Seq<C>, R)>,
    source: C,
) -> Map<C, Domain<I, Restriction<I, R>>> {
    Map::new(
        |at: C| state.contains_key(at),
        |at: C|
            Domain {
                rest: state[at].rest,
                filters: state[at].filters + added(pairs, source, at),
            },
    )
}

/// The state in the middle of one propagation pair: the pairs `done`
/// are applied in full, and the rule `rule` at the targets `targets`.
pub open spec fn partly<C, I, R>(
    state: Map<C, Domain<I, Restriction<I, R>>>,
    done: Seq<(Seq<C>, R)>,
    targets: Seq<C>,
    rule: R,
    source: C,
) -> Map<C, Domain<I, Restriction<I, R>>> {
    Map::new(
        |at: C| state.contains_key(at),
        |at: C|
            Domain {
                rest: state[at].rest,
                filters: state[at].filters + added(done.push((targets, rule)), source, at),
            },
    )
}

/// The propagation pairs of a vector, as plain sequences.
pub open spec fn pairs_of<C, R>(pairs: Seq<(Vec<C>, R)>) -> Seq<(Seq<C>, R)> {
    pairs.map_values(|pair: (Vec<C>, R)| (pair.0@, pair.1))
}

/// Every coordinate that `pairs` names is one of `space`.
pub open spec fn within<C, R>(pairs: Seq<(Seq<C>, R)>, space: Seq<C>) -> bool {
    forall|i: int, j: int|
        0 <= i < pairs.len() && 0 <= j < pairs[i].0.len() ==> space.contains(
            #[trigger] pairs[i].0[j],
        )
}

/// The state has a domain for every coordinate of `space`.
pub open spec fn covers<C, D>(state: Map<C, D>, space: Seq<C>) -> bool {
    forall|i: int| 0 <= i < space.len() ==> state.contains_key(#[trigger] space[i])
}

/// What one more pair adds at `at`.
pub proof fn lemma_added_push<C, I, R>(
    done: Seq<(Seq<C>, R)>,
    targets: Seq<C>,
    rule: R,
    source: C,
    at: C,
)
    ensures
        added::<C, I, R>(done.push((targets, rule)), source, at) == if at == source {
            Seq::<Restriction<I, R>>::empty()
        } else {
            added::<C, I, R>(done, source, at) + hits::<C, I, R>(targets, rule, at)
        },
{
    assert(done.push((targets, rule)).drop_last() == done);
}

/// A pair with no target yet changes nothing.
pub proof fn lemma_partly_start<C, I, R>(
    state: Map<C, Domain<I, Restriction<I, R>>>,
    done: Seq<(Seq<C>, R)>,
    rule: R,
    source: C,
)
    ensures
        partly(state, done, Seq::empty(), rule, source) == propagated(state, done, source),
{
    assert forall|at: C|
        added::<C, I, R>(done.push((Seq::empty(), rule)), source, at) == added::<C, I, R>(
            done,
            source,
            at,
        ) by {
        lemma_added_push::<C, I, R>(done, Seq::empty(), rule, source, at);
        assert(added::<C, I, R>(done, source, at) + Seq::<Restriction<I, R>>::empty()
            =~= added::<C, I, R>(done, source, at));
    }
    assert(partly(state, done, Seq::empty(), rule, source) =~= propagated(state, done, source));
}

/// One more target of a pair appends the pair's rule there, unless the
/// target is the source of the assignment.
pub proof fn lemma_partly_step<C, I, R>(
    state: Map<C, Domain<I, Restriction<I, R>>>,
    done: Seq<(Seq<C>, R)>,
    targets: Seq<C>,
    rule: R,
    source: C,
)
    requires
        targets.len() > 0,
        state.contains_key(targets.last()),
    ensures
        partly(state, done, targets, rule, source) == if targets.last() == source {
            partly(state, done, targets.drop_last(), rule, source)
        } else {
            let earlier = partly(state, done, targets.drop_last(), rule, source);
            earlier.insert(
                targets.last(),
                Domain {
                    rest: earlier[targets.last()].rest,
                    filters: earlier[targets.last()].filters.push(Restriction::Rule(rule)),
                },
            )
        },
{
    let earlier = partly(state, done, targets.drop_last(), rule, source);
    let later = partly(state, done, targets, rule, source);
    let target = targets.last();
    assert forall|at: C| state.contains_key(at) implies #[trigger] later[at] == (if at == target
        && target != source {
        Domain {
            rest: earlier[at].rest,
            filters: earlier[at].filters.push(Restriction::Rule(rule)),
        }
    } else {
        earlier[at]
    }) by {
        lemma_added_push::<C, I, R>(done, targets, rule, source, at);
        lemma_added_push::<C, I, R>(done, targets.drop_last(), rule, source, at);
        if at == target && target != source {
            assert(later[at].filters =~= earlier[at].filters.push(Restriction::Rule(rule)));
        }
    }
    if target == source {
        assert(later =~= earlier);
    } else {
        assert(later =~= earlier.insert(
            target,
            Domain {
                rest: earlier[target].rest,
                filters: earlier[target].filters.push(Restriction::Rule(rule)),
            },
        ));
    }
}

/// What a concrete puzzle supplies, and the search that it gets.
pub trait Collapse: Sized {
    /// A candidate value.
    type Item: Copy + Identical;

    /// A position to fill.
    type Coordinate: Identical;

    /// An exclusion rule, as plain data.
    type Rule: Copy + Predicate<Self::Item>;

    /// Every coordinate, in the order in which the search visits them.
    spec fn space(&self) -> Seq<Self::Coordinate>;

    /// The full candidate sequence of a coordinate.
    spec fn base(&self, coord: Self::Coordinate) -> Seq<Self::Item>;

    /// The rules that follow from giving `coord` the item `item`, each
    /// with the coordinates that it constrains.
    spec fn updates(&self, coord: Self::Coordinate, item: Self::Item) -> Seq<
        (Seq<Self::Coordinate>, Self::Rule),
    >;

    /// Computes `updates`.
    fn update(&self, coord: Self::Coordinate, item: Self::Item) -> (out: Vec<
        (Vec<Self::Coordinate>, Self::Rule),
    >)
        requires
            self.space().contains(coord),
        ensures
            pairs_of(out@) == self.updates(coord, item),
            within(self.updates(coord, item), self.space()),
    ;

    /// Enumerates the coordinate space, each coordinate once.
    fn get_coords(&self) -> (out: Vec<Self::Coordinate>)
        ensures
            out@ == self.space(),
            out@.no_duplicates(),
    ;

    /// Gives every coordinate its full domain, with no rule yet.
    fn get_initial(&self) -> (out: SearchState<
        Self::Coordinate,
        Self::Item,
        Restriction<Self::Item, Self::Rule>,
    >)
        ensures
            forall|coord: Self::Coordinate|
                out@.contains_key(coord) <==> self.space().contains(coord),
            forall|coord: Self::Coordinate|
                self.space().contains(coord) ==> #[trigger] out@[coord] == (Domain {
                    rest: self.base(coord),
                    filters: Seq::<Restriction<Self::Item, Self::Rule>>::empty(),
                }),
    ;
}

/// The state in which every coordinate has its full domain and no rule.
pub open spec fn initial_state<S: Collapse>(solver: &S) -> Map<
    S::Coordinate,
    Domain<S::Item, Restriction<S::Item, S::Rule>>,
> {
    Map::new(
        |coord: S::Coordinate| solver.space().contains(coord),
        |coord: S::Coordinate| Domain { rest: solver.base(coord), filters: Seq::empty() },
    )
}

/// The state from which `solve` starts.
pub open spec fn start_of<S: Collapse>(
    solver: &S,
    initial: Option<SearchState<S::Coordinate, S::Item, Restriction<S::Item, S::Rule>>>,
) -> Map<S::Coordinate, Domain<S::Item, Restriction<S::Item, S::Rule>>> {
    match initial {
        Some(state) => state@,
        None => initial_state(solver),
    }
}

/// The state after `coord` is pinned to `item`.
pub open spec fn seeded<S: Collapse>(
    solver: &S,
    state: Map<S::Coordinate, Domain<S::Item, Restriction<S::Item, S::Rule>>>,
    coord: S::Coordinate,
    item: S::Item,
) -> Map<S::Coordinate, Domain<S::Item, Restriction<S::Item, S::Rule>>> {
    propagated(
        state.insert(
            coord,
            Domain {
                rest: state[coord].rest,
                filters: state[coord].filters.push(Restriction::Only(item)),
            },
        ),
        solver.updates(coord, item),
        coord,
    )
}

/// The state of the child node that tries `item` at `coord`.
pub open spec fn child<S: Collapse>(
    solver: &S,
    state: Map<S::Coordinate, Domain<S::Item, Restriction<S::Item, S::Rule>>>,
    coord: S::Coordinate,
    item: S::Item,
) -> Map<S::Coordinate, Domain<S::Item, Restriction<S::Item, S::Rule>>> {
    propagated(state, solver.updates(coord, item), coord)
}

/// The first assignment of `coords` that depth-first search reaches
/// from `state`: coordinates in the given order, the items of each
/// domain in the order of its base sequence.
pub open spec fn first_solution<S: Collapse>(
    solver: &S,
    coords: Seq<S::Coordinate>,
    state: Map<S::Coordinate, Domain<S::Item, Restriction<S::Item, S::Rule>>>,
) -> Option<Seq<(S::Coordinate, S::Item)>>
    decreases coords.len(), 1nat, 0nat,
{
    if coords.len() == 0 {
        Some(Seq::empty())
    } else {
        first_from(
            solver,
            coords,
            state,
            candidates(state[coords[0]].rest, state[coords[0]].filters),
        )
    }
}

/// The first assignment that gives the first coordinate one of `moves`,
/// tried in order.
pub open spec fn first_from<S: Collapse>(
    solver: &S,
    coords: Seq<S::Coordinate>,
    state: Map<S::Coordinate, Domain<S::Item, Restriction<S::Item, S::Rule>>>,
    moves: Seq<S::Item>,
) -> Option<Seq<(S::Coordinate, S::Item)>>
    decreases coords.len(), 0nat, moves.len(),
{
    if coords.len() == 0 || moves.len() == 0 {
        None
    } else {
        match first_solution(
            solver,
            coords.drop_first(),
            child(solver, state, coords[0], moves[0]),
        ) {
            Some(rest) => Some(seq![(coords[0], moves[0])] + rest),
            None => first_from(solver, coords, state, moves.drop_first()),
        }
    }
}

/// Whether `result` reports the outcome `expected` of a search.
pub open spec fn reports<C, I>(
    result: Result<Vec<(C, I)>, NoSolution>,
    expected: Option<Seq<(C, I)>>,
) -> bool {
    match result {
        Ok(solution) => expected == Some(solution@),
        Err(_) => expected.is_none(),
    }
}

/// Depth-first search over the coordinates of `coords` from the place
/// `from` on.
pub fn search<S: Collapse>(
    solver: &S,
    coords: &Vec<S::Coordinate>,
    from: usize,
    state: &SearchState<S::Coordinate, S::Item, Restriction<S::Item, S::Rule>>,
) -> (result: Result<Vec<(S::Coordinate, S::Item)>, NoSolution>)
    requires
        from <= coords@.len(),
        covers(state@, solver.space()),
        forall|i: int| 0 <= i < coords@.len() ==> solver.space().contains(#[trigger] coords@[i]),
    ensures
        reports(result, first_solution(solver, coords@.skip(from as int), state@)),
    decreases coords@.len() - from,
{
    if from >= coords.len() {
        return Ok(Vec::new());
    }
    let coord = coords[from].duplicate();
    let ghost ahead = coords@.skip(from as int);
    proof {
        assert(ahead[0] == coord);
        assert(ahead.drop_first() == coords@.skip(from + 1));
        assert(solver.space().contains(coords@[from as int]));
    }
    let mut moves = state.get(&coord).unwrap().clone();
    loop
        invariant
            from < coords@.len(),
            from < usize::MAX,
            coord == coords@[from as int],
            ahead == coords@.skip(from as int),
            ahead.drop_first() == coords@.skip(from + 1),
            covers(state@, solver.space()),
            solver.space().contains(coord),
            forall|i: int|
                0 <= i < coords@.len() ==> solver.space().contains(#[trigger] coords@[i]),
            first_solution(solver, ahead, state@) == first_from(
                solver,
                ahead,
                state@,
                moves.candidates(),
            ),
        decreases moves.candidates().len(),
    {
        let item = match moves.next() {
            Some(item) => item,
            None => { return Err(NoSolution); },
        };
        let mut next = state.clone();
        solver.apply_update(coord.duplicate(), item, &mut next);
        match search(solver, coords, from + 1, &next) {
            Ok(mut solution) => {
                solution.insert(0, (coord, item));
                proof {
                    let rest = first_solution(
                        solver,
                        ahead.drop_first(),
                        child(solver, state@, coord, item),
                    ).unwrap();
                    assert(solution@ =~= seq![(coord, item)] + rest);
                }
                return Ok(solution);
            },
            Err(_) => {},
        }
    }
}

/// The search that every puzzle gets from what it supplies.
pub trait Search: Collapse {
    /// Adds to `state` the rules that follow from giving `coord` the
    /// item `item`, at every coordinate that they name but `coord`.
    fn apply_update(
        &self,
        coord: Self::Coordinate,
        item: Self::Item,
        state: &mut SearchState<
            Self::Coordinate,
            Self::Item,
            Restriction<Self::Item, Self::Rule>,
        >,
    )
        requires
            self.space().contains(coord),
            covers(old(state)@, self.space()),
        ensures
            final(state)@ == propagated(old(state)@, self.updates(coord, item), coord),
    ;

    /// Pins `coord` to `item`: the domain of `coord` admits only
    /// `item` from now on, and the rules that follow from the assignment
    /// are added as the search would add them.
    fn apply_single(
        &self,
        coord: Self::Coordinate,
        item: Self::Item,
        state: &mut SearchState<
            Self::Coordinate,
            Self::Item,
            Restriction<Self::Item, Self::Rule>,
        >,
    )
        requires
            self.space().contains(coord),
            covers(old(state)@, self.space()),
        ensures
            final(state)@ == seeded(self, old(state)@, coord, item),
            covers(final(state)@, self.space()),
    ;

    /// Searches the coordinates `coords` in order, from `state`.
    fn try_state(
        &self,
        coords: Vec<Self::Coordinate>,
        state: SearchState<Self::Coordinate, Self::Item, Restriction<Self::Item, Self::Rule>>,
    ) -> (result: Result<Vec<(Self::Coordinate, Self::Item)>, NoSolution>)
        requires
            covers(state@, self.space()),
            forall|i: int| 0 <= i < coords@.len() ==> self.space().contains(#[trigger] coords@[i]),
        ensures
            reports(result, first_solution(self, coords@, state@)),
            result matches Ok(solution) ==> coordinates_of(solution@) == coords@,
    ;

    /// Searches the whole coordinate space, from `initial` or, without
    /// one, from the full domains.
    fn solve(
        &mut self,
        initial: Option<
            SearchState<Self::Coordinate, Self::Item, Restriction<Self::Item, Self::Rule>>,
        >,
    ) -> (result: Result<Vec<(Self::Coordinate, Self::Item)>, NoSolution>)
        requires
            initial matches Some(state) ==> covers(state@, old(self).space()),
        ensures
            *final(self) == *old(self),
            reports(
                result,
                first_solution(old(self), old(self).space(), start_of(old(self), initial)),
            ),
            result matches Ok(solution) ==> {
                &&& coordinates_of(solution@) == old(self).space()
                &&& coordinates_of(solution@).no_duplicates()
            },
    ;
}

impl<S: Collapse> Search for S {
    fn apply_update(
        &self,
        coord: Self::Coordinate,
        item: Self::Item,
        state: &mut SearchState<
            Self::Coordinate,
            Self::Item,
            Restriction<Self::Item, Self::Rule>,
        >,
    )
    {
        let pairs = self.update(coord.duplicate(), item);
        let ghost spec_pairs = self.updates(coord, item);
        let ghost before = state@;
        let mut i: usize = 0;
        proof {
            assert(state@ =~= propagated(before, spec_pairs.take(0), coord));
        }
        while i < pairs.len()
            invariant
                i <= pairs.len(),
                pairs_of(pairs@) == spec_pairs,
                within(spec_pairs, self.space()),
                covers(before, self.space()),
                state@ == propagated(before, spec_pairs.take(i as int), coord),
            decreases pairs.len() - i,
        {
            let rule = pairs[i].1;
            let ghost targets = spec_pairs[i as int].0;
            let ghost done = spec_pairs.take(i as int);
            let mut j: usize = 0;
            proof {
                assert(spec_pairs[i as int] == (pairs@[i as int].0@, pairs@[i as int].1));
                assert(targets.take(0) =~= Seq::empty());
                lemma_partly_start(before, done, rule, coord);
            }
            while j < pairs[i].0.len()
                invariant
                    i < pairs.len(),
                    j <= targets.len(),
                    targets == pairs@[i as int].0@,
                    forall|k: int| 0 <= k < targets.len() ==> self.space().contains(targets[k]),
                    covers(before, self.space()),
                    state@ == partly(before, done, targets.take(j as int), rule, coord),
                decreases targets.len() - j,
            {
                let target = &pairs[i].0[j];
                proof {
                    assert(targets.take(j + 1).drop_last() == targets.take(j as int));
                    assert(targets.take(j + 1).last() == *target);
                    assert(self.space().contains(targets[j as int]));
                }
                if !target.same(&coord) {
                    state.restrict(target, Restriction::Rule(rule));
                }
                proof {
                    lemma_partly_step(before, done, targets.take(j + 1), rule, coord);
                }
                j += 1;
            }
            proof {
                assert(targets.take(j as int) == targets);
                assert(spec_pairs.take(i + 1).drop_last() == done);
                assert(spec_pairs.take(i + 1).last() == spec_pairs[i as int]);
                assert(spec_pairs.take(i + 1) =~= done.push((targets, rule)));
            }
            i += 1;
        }
        proof {
            assert(spec_pairs.take(i as int) == spec_pairs);
        }
    }

    fn apply_single(
        &self,
        coord: Self::Coordinate,
        item: Self::Item,
        state: &mut SearchState<
            Self::Coordinate,
            Self::Item,
            Restriction<Self::Item, Self::Rule>,
        >,
    )
    {
        state.restrict(&coord, Restriction::Only(item));
        self.apply_update(coord, item, state);
    }

    fn try_state(
        &self,
        coords: Vec<Self::Coordinate>,
        state: SearchState<Self::Coordinate, Self::Item, Restriction<Self::Item, Self::Rule>>,
    ) -> (result: Result<Vec<(Self::Coordinate, Self::Item)>, NoSolution>)
    {
        proof {
            assert(coords@.skip(0) == coords@);
            if first_solution(self, coords@, state@).is_some() {
                lemma_solution_is_complete(self, coords@, state@);
            }
        }
        search(self, &coords, 0, &state)
    }

    fn solve(
        &mut self,
        initial: Option<
            SearchState<Self::Coordinate, Self::Item, Restriction<Self::Item, Self::Rule>>,
        >,
    ) -> (result: Result<Vec<(Self::Coordinate, Self::Item)>, NoSolution>)
    {
        let coords = self.get_coords();
        let state = match initial {
            Some(state) => state,
            None => self.get_initial(),
        };
        proof {
            if initial.is_none() {
                assert(state@ =~= initial_state(self));
            }
            assert forall|i: int| 0 <= i < self.space().len() implies state@.contains_key(
                #[trigger] self.space()[i],
            ) by {
                assert(self.space().contains(self.space()[i]));
            }
        }
        self.try_state(coords, state)
    }
}

/// The coordinates of an assignment, in order.
pub open spec fn coordinates_of<C, I>(solution: Seq<(C, I)>) -> Seq<C> {
    solution.map_values(|pair: (C, I)| pair.0)
}

/// The items of an assignment, in order.
pub open spec fn items_of<C, I>(solution: Seq<(C, I)>) -> Seq<I> {
    solution.map_values(|pair: (C, I)| pair.1)
}

/// The items `items` can be given to the coordinates `coords` one after
/// the other: each is a candidate of its coordinate once the rules of
/// all earlier assignments are in force.
pub open spec fn completes<S: Collapse>(
    solver: &S,
    coords: Seq<S::Coordinate>,
    state: Map<S::Coordinate, Domain<S::Item, Restriction<S::Item, S::Rule>>>,
    items: Seq<S::Item>,
) -> bool
    decreases coords.len(),
{
    if coords.len() == 0 {
        items.len() == 0
    } else {
        &&& items.len() == coords.len()
        &&& candidates(state[coords[0]].rest, state[coords[0]].filters).contains(items[0])
        &&& completes(
            solver,
            coords.drop_first(),
            child(solver, state, coords[0], items[0]),
            items.drop_first(),
        )
    }
}

/// A solution that the search returns covers the coordinates that it
/// was given, each at its place, and its items complete them: the
/// result is never partial.
pub proof fn lemma_solution_is_complete<S: Collapse>(
    solver: &S,
    coords: Seq<S::Coordinate>,
    state: Map<S::Coordinate, Domain<S::Item, Restriction<S::Item, S::Rule>>>,
)
    requires
        first_solution(solver, coords, state).is_some(),
    ensures
        coordinates_of(first_solution(solver, coords, state).unwrap()) == coords,
        completes(solver, coords, state, items_of(first_solution(solver, coords, state).unwrap())),
    decreases coords.len(), 1nat, 0nat,
{
    let solution = first_solution(solver, coords, state).unwrap();
    if coords.len() == 0 {
        assert(coordinates_of(solution) =~= coords);
        assert(items_of(solution) =~= Seq::empty());
    } else {
        let moves = candidates(state[coords[0]].rest, state[coords[0]].filters);
        lemma_first_from_is_complete(solver, coords, state, moves);
        assert forall|i: int| 0 <= i < moves.len() implies moves.contains(
            #[trigger] moves[i],
        ) by {}
    }
}

/// What `lemma_solution_is_complete` says, for the search through the
/// moves `moves` of the first coordinate.
pub proof fn lemma_first_from_is_complete<S: Collapse>(
    solver: &S,
    coords: Seq<S::Coordinate>,
    state: Map<S::Coordinate, Domain<S::Item, Restriction<S::Item, S::Rule>>>,
    moves: Seq<S::Item>,
)
    requires
        first_from(solver, coords, state, moves).is_some(),
    ensures
        coordinates_of(first_from(solver, coords, state, moves).unwrap()) == coords,
        moves.contains(items_of(first_from(solver, coords, state, moves).unwrap())[0]),
        items_of(first_from(solver, coords, state, moves).unwrap()).len() == coords.len(),
        completes(
            solver,
            coords.drop_first(),
            child(
                solver,
                state,
                coords[0],
                items_of(first_from(solver, coords, state, moves).unwrap())[0],
            ),
            items_of(first_from(solver, coords, state, moves).unwrap()).drop_first(),
        ),
    decreases coords.len(), 0nat, moves.len(),
{
    let solution = first_from(solver, coords, state, moves).unwrap();
    let next = child(solver, state, coords[0], moves[0]);
    match first_solution(solver, coords.drop_first(), next) {
        Some(rest) => {
            lemma_solution_is_complete(solver, coords.drop_first(), next);
            assert(solution == seq![(coords[0], moves[0])] + rest);
            assert(coordinates_of(rest) == coords.drop_first());
            assert(coordinates_of(solution) =~= seq![coords[0]] + coordinates_of(rest));
            assert(coords =~= seq![coords[0]] + coords.drop_first());
            assert(items_of(solution).drop_first() =~= items_of(rest));
            assert(moves[0] == items_of(solution)[0]);
        },
        None => {
            lemma_first_from_is_complete(solver, coords, state, moves.drop_first());
            let found = items_of(solution)[0];
            let i = choose|i: int| 0 <= i < moves.drop_first().len() && moves.drop_first()[i] == found;
            assert(moves[i + 1] == found);
        },
    }
}

/// The search fails only where no items complete the coordinates.
pub proof fn lemma_search_is_exhaustive<S: Collapse>(
    solver: &S,
    coords: Seq<S::Coordinate>,
    state: Map<S::Coordinate, Domain<S::Item, Restriction<S::Item, S::Rule>>>,
    items: Seq<S::Item>,
)
    requires
        completes(solver, coords, state, items),
    ensures
        first_solution(solver, coords, state).is_some(),
    decreases coords.len(), 1nat, 0nat,
{
    if coords.len() > 0 {
        let moves = candidates(state[coords[0]].rest, state[coords[0]].filters);
        let i = choose|i: int| 0 <= i < moves.len() && moves[i] == items[0];
        lemma_first_from_is_exhaustive(solver, coords, state, moves, items, i);
    }
}

/// What `lemma_search_is_exhaustive` says, for the search through the
/// moves `moves`, of which the one at `i` starts a completion.
pub proof fn lemma_first_from_is_exhaustive<S: Collapse>(
    solver: &S,
    coords: Seq<S::Coordinate>,
    state: Map<S::Coordinate, Domain<S::Item, Restriction<S::Item, S::Rule>>>,
    moves: Seq<S::Item>,
    items: Seq<S::Item>,
    i: int,
)
    requires
        coords.len() > 0,
        items.len() == coords.len(),
        0 <= i < moves.len(),
        moves[i] == items[0],
        completes(
            solver,
            coords.drop_first(),
            child(solver, state, coords[0], items[0]),
            items.drop_first(),
        ),
    ensures
        first_from(solver, coords, state, moves).is_some(),
    decreases coords.len(), 0nat, moves.len(),
{
    if i == 0 {
        lemma_search_is_exhaustive(
            solver,
            coords.drop_first(),
            child(solver, state, coords[0], items[0]),
            items.drop_first(),
        );
    } else if first_solution(
        solver,
        coords.drop_first(),
        child(solver, state, coords[0], moves[0]),
    ).is_none() {
        lemma_first_from_is_exhaustive(solver, coords, state, moves.drop_first(), items, i - 1);
    }
}

/// Two searches of the same coordinates from the same state end alike:
/// both fail, or both return the same solution.
pub proof fn lemma_search_is_deterministic<S: Collapse>(
    solver: &S,
    coords: Seq<S::Coordinate>,
    state: Map<S::Coordinate, Domain<S::Item, Restriction<S::Item, S::Rule>>>,
    first: Result<Vec<(S::Coordinate, S::Item)>, NoSolution>,
    second: Result<Vec<(S::Coordinate, S::Item)>, NoSolution>,
)
    requires
        reports(first, first_solution(solver, coords, state)),
        reports(second, first_solution(solver, coords, state)),
    ensures
        first is Ok <==> second is Ok,
        first matches Ok(one) ==> second matches Ok(other) && one@ == other@,
{
}

/// The rule of one propagation pair is in force at `at` exactly when
/// the pair names `at`.
pub proof fn lemma_hits_admit<C, I: Copy + Identical, R: Predicate<I>>(
    targets: Seq<C>,
    rule: R,
    at: C,
    item: I,
)
    ensures
        accepted(hits::<C, I, R>(targets, rule, at), item) <==> (targets.contains(at)
            ==> rule.admits(item)),
    decreases targets.len(),
{
    if targets.len() > 0 {
        let earlier = targets.drop_last();
        lemma_hits_admit::<C, I, R>(earlier, rule, at, item);
        lemma_accepted_push(hits::<C, I, R>(earlier, rule, at), Restriction::Rule(rule), item);
        if earlier.contains(at) {
            let i = choose|i: int| 0 <= i < earlier.len() && earlier[i] == at;
            assert(targets[i] == at);
        }
        if targets.contains(at) && targets.last() != at {
            let i = choose|i: int| 0 <= i < targets.len() && targets[i] == at;
            assert(earlier[i] == at);
        }
        if targets.last() == at {
            assert(targets[targets.len() - 1] == at);
        }
    }
}

/// Away from the source of an assignment, its propagation admits an
/// item exactly when every pair that names the coordinate admits it.
pub proof fn lemma_added_admit<C, I: Copy + Identical, R: Predicate<I>>(
    pairs: Seq<(Seq<C>, R)>,
    source: C,
    at: C,
    item: I,
)
    requires
        at != source,
    ensures
        accepted(added::<C, I, R>(pairs, source, at), item) <==> (forall|i: int|
            0 <= i < pairs.len() && (#[trigger] pairs[i]).0.contains(at) ==> pairs[i].1.admits(
                item,
            )),
    decreases pairs.len(),
{
    if pairs.len() > 0 {
        let earlier = pairs.drop_last();
        let last = pairs.last();
        lemma_added_admit::<C, I, R>(earlier, source, at, item);
        lemma_hits_admit::<C, I, R>(last.0, last.1, at, item);
        lemma_accepted_concat(
            added::<C, I, R>(earlier, source, at),
            hits::<C, I, R>(last.0, last.1, at),
            item,
        );
        if accepted(added::<C, I, R>(pairs, source, at), item) {
            assert forall|i: int|
                0 <= i < pairs.len() && (#[trigger] pairs[i]).0.contains(at) implies pairs[i].1.admits(
                item,
            ) by {
                if i < pairs.len() - 1 {
                    assert(earlier[i] == pairs[i]);
                }
            }
        } else {
            if !accepted(added::<C, I, R>(earlier, source, at), item) {
                let i = choose|i: int|
                    0 <= i < earlier.len() && (#[trigger] earlier[i]).0.contains(at)
                        && !earlier[i].1.admits(item);
                assert(pairs[i] == earlier[i]);
            } else {
                assert(pairs[pairs.len() - 1] == last);
            }
        }
    }
}

/// After `coord` is pinned to `item`, the domain of every other
/// coordinate has the base sequence that it had, and admits exactly
/// the items that it admitted before and that every propagated rule
/// naming the coordinate admits: what such a rule rejects is rejected
/// on every later scan, and nothing else is lost.
pub proof fn lemma_seeding_propagates<S: Collapse>(
    solver: &S,
    state: Map<S::Coordinate, Domain<S::Item, Restriction<S::Item, S::Rule>>>,
    coord: S::Coordinate,
    item: S::Item,
    at: S::Coordinate,
    other: S::Item,
)
    requires
        state.contains_key(at),
        at != coord,
    ensures
        seeded(solver, state, coord, item).contains_key(at),
        seeded(solver, state, coord, item)[at].rest == state[at].rest,
        accepted(seeded(solver, state, coord, item)[at].filters, other) <==> accepted(
            state[at].filters,
            other,
        ) && (forall|i: int|
            0 <= i < solver.updates(coord, item).len() && (#[trigger] solver.updates(
                coord,
                item,
            )[i]).0.contains(at) ==> solver.updates(coord, item)[i].1.admits(other)),
{
    let pairs = solver.updates(coord, item);
    lemma_added_admit::<S::Coordinate, S::Item, S::Rule>(pairs, coord, at, other);
    lemma_accepted_concat(
        state[at].filters,
        added::<S::Coordinate, S::Item, S::Rule>(pairs, coord, at),
        other,
    );
}

/// After `coord` is pinned to `item`, its own domain has the base
/// sequence that it had, and admits `item` alone, if it admitted it.
pub proof fn lemma_seeding_pins<S: Collapse>(
    solver: &S,
    state: Map<S::Coordinate, Domain<S::Item, Restriction<S::Item, S::Rule>>>,
    coord: S::Coordinate,
    item: S::Item,
    other: S::Item,
)
    requires
        state.contains_key(coord),
    ensures
        seeded(solver, state, coord, item).contains_key(coord),
        seeded(solver, state, coord, item)[coord].rest == state[coord].rest,
        accepted(seeded(solver, state, coord, item)[coord].filters, other) <==> accepted(
            state[coord].filters,
            other,
        ) && other == item,
{
    let pinned = state[coord].filters.push(Restriction::Only(item));
    lemma_accepted_push(state[coord].filters, Restriction::<S::Item, S::Rule>::Only(item), other);
    assert(pinned + Seq::<Restriction<S::Item, S::Rule>>::empty() =~= pinned);
}

/// Pinning the same coordinate to the same item a second time changes
/// no base sequence and nothing that any domain admits, so every
/// domain yields what it yielded after the first time.
pub proof fn lemma_seeding_is_idempotent<S: Collapse>(
    solver: &S,
    state: Map<S::Coordinate, Domain<S::Item, Restriction<S::Item, S::Rule>>>,
    coord: S::Coordinate,
    item: S::Item,
    at: S::Coordinate,
)
    requires
        state.contains_key(coord),
        state.contains_key(at),
    ensures
        ({
            let once = seeded(solver, state, coord, item);
            let twice = seeded(solver, once, coord, item);
            &&& twice.contains_key(at)
            &&& twice[at].rest == once[at].rest
            &&& forall|other: S::Item|
                accepted(twice[at].filters, other) == accepted(once[at].filters, other)
            &&& candidates(twice[at].rest, twice[at].filters) == candidates(
                once[at].rest,
                once[at].filters,
            )
        }),
{
    let once = seeded(solver, state, coord, item);
    let twice = seeded(solver, once, coord, item);
    assert forall|other: S::Item|
        accepted(twice[at].filters, other) == accepted(once[at].filters, other) by {
        if at == coord {
            lemma_seeding_pins(solver, state, coord, item, other);
            lemma_seeding_pins(solver, once, coord, item, other);
        } else {
            lemma_seeding_propagates(solver, state, coord, item, at, other);
            lemma_seeding_propagates(solver, once, coord, item, at, other);
        }
    }
    if at == coord {
        lemma_seeding_pins(solver, state, coord, item, item);
        lemma_seeding_pins(solver, once, coord, item, item);
    } else {
        lemma_seeding_propagates(solver, state, coord, item, at, item);
        lemma_seeding_propagates(solver, once, coord, item, at, item);
    }
    lemma_candidates_agree(once[at].rest, twice[at].filters, once[at].filters);
}

/// A coordinate that is pinned to two different items has no candidate
/// left.
pub proof fn lemma_conflicting_pins_leave_nothing<S: Collapse>(
    solver: &S,
    state: Map<S::Coordinate, Domain<S::Item, Restriction<S::Item, S::Rule>>>,
    coord: S::Coordinate,
    one: S::Item,
    other: S::Item,
)
    requires
        state.contains_key(coord),
        one != other,
    ensures
        ({
            let twice = seeded(solver, seeded(solver, state, coord, one), coord, other);
            candidates(twice[coord].rest, twice[coord].filters).len() == 0
        }),
{
    let once = seeded(solver, state, coord, one);
    let twice = seeded(solver, once, coord, other);
    assert forall|i: int| 0 <= i < twice[coord].rest.len() implies !accepted(
        twice[coord].filters,
        #[trigger] twice[coord].rest[i],
    ) by {
        let item = twice[coord].rest[i];
        lemma_seeding_pins(solver, state, coord, one, item);
        lemma_seeding_pins(solver, once, coord, other, item);
    }
    lemma_candidates_none(twice[coord].rest, twice[coord].filters);
}

/// A search whose first coordinate has no candidate fails at once,
/// however many coordinates follow.
pub proof fn lemma_no_candidate_no_solution<S: Collapse>(
    solver: &S,
    coords: Seq<S::Coordinate>,
    state: Map<S::Coordinate, Domain<S::Item, Restriction<S::Item, S::Rule>>>,
)
    requires
        coords.len() > 0,
        candidates(state[coords[0]].rest, state[coords[0]].filters).len() == 0,
    ensures
        first_solution(solver, coords, state).is_none(),
{
}

/// The item that the last assignment of `solution` at `coord` gives, or
/// `otherwise` where there is none.
pub open spec fn placed<C, I>(solution: Seq<(C, I)>, coord: C, otherwise: I) -> I
    decreases solution.len(),
{
    if solution.len() == 0 {
        otherwise
    } else if solution.last().0 == coord {
        solution.last().1
    } else {
        placed(solution.drop_last(), coord, otherwise)
    }
}

/// A display structure that is built from a solution.
pub trait FromCollapse: Sized {
    /// The puzzle whose solutions are laid out.
    type Collapser: Collapse;

    /// Whether every assignment of `solution` has a place in the
    /// structure.
    spec fn fits(
        solution: Seq<
            (<Self::Collapser as Collapse>::Coordinate, <Self::Collapser as Collapse>::Item),
        >,
    ) -> bool;

    /// Whether the structure holds the assignments of `solution`, a
    /// later one replacing an earlier one at the same coordinate.
    spec fn shows(
        &self,
        solution: Seq<
            (<Self::Collapser as Collapse>::Coordinate, <Self::Collapser as Collapse>::Item),
        >,
    ) -> bool;

    /// Lays the assignments of `solution` out.
    fn from_collapse(
        solution: Vec<
            (<Self::Collapser as Collapse>::Coordinate, <Self::Collapser as Collapse>::Item),
        >,
    ) -> (out: Self)
        requires
            Self::fits(solution@),
        ensures
            out.shows(solution@),
    ;
}

} // verus!
