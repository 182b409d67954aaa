use vstd::prelude::*;

verus! {

/// A pure boolean rule over items of type `T`.
pub trait Predicate<T> {
    /// Whether the rule lets `item` stay.
    spec fn admits(&self, item: T) -> bool;

    /// Evaluates the rule on one item.
    fn test(&self, item: &T) -> (b: bool)
        ensures
            b == self.admits(*item),
    ;
}

/// Every rule of `filters` admits `item`.
pub open spec fn accepted<T, P: Predicate<T>>(filters: Seq<P>, item: T) -> bool {
    forall|i: int| 0 <= i < filters.len() ==> (#[trigger] filters[i]).admits(item)
}

/// The items of `rest`, in order, that every rule of `filters` admits.
pub open spec fn candidates<T, P: Predicate<T>>(rest: Seq<T>, filters: Seq<P>) -> Seq<T>
    decreases rest.len(),
{
    if rest.len() == 0 {
        Seq::empty()
    } else if accepted(filters, rest[0]) {
        seq![rest[0]] + candidates(rest.drop_first(), filters)
    } else {
        candidates(rest.drop_first(), filters)
    }
}

/// A rule list admits an item exactly when each of its two parts does.
pub proof fn lemma_accepted_concat<T, P: Predicate<T>>(first: Seq<P>, second: Seq<P>, item: T)
    ensures
        accepted(first + second, item) <==> accepted(first, item) && accepted(second, item),
{
    if accepted(first + second, item) {
        assert forall|i: int| 0 <= i < first.len() implies (#[trigger] first[i]).admits(item) by {
            assert((first + second)[i] == first[i]);
        }
        assert forall|i: int| 0 <= i < second.len() implies (#[trigger] second[i]).admits(
            item,
        ) by {
            assert((first + second)[first.len() + i] == second[i]);
        }
    }
}

/// One more rule narrows what is admitted by exactly what it rejects.
pub proof fn lemma_accepted_push<T, P: Predicate<T>>(filters: Seq<P>, filter: P, item: T)
    ensures
        accepted(filters.push(filter), item) <==> accepted(filters, item) && filter.admits(item),
{
    assert(filters.push(filter) =~= filters + seq![filter]);
    lemma_accepted_concat(filters, seq![filter], item);
    assert(seq![filter][0] == filter);
}

/// Rule lists that admit the same items of a sequence yield the same
/// candidates from it.
pub proof fn lemma_candidates_agree<T, P: Predicate<T>>(rest: Seq<T>, first: Seq<P>, second: Seq<P>)
    requires
        forall|i: int|
            0 <= i < rest.len() ==> accepted(first, #[trigger] rest[i]) == accepted(
                second,
                rest[i],
            ),
    ensures
        candidates(rest, first) == candidates(rest, second),
    decreases rest.len(),
{
    if rest.len() > 0 {
        assert forall|i: int| 0 <= i < rest.drop_first().len() implies accepted(
            first,
            #[trigger] rest.drop_first()[i],
        ) == accepted(second, rest.drop_first()[i]) by {
            assert(rest.drop_first()[i] == rest[i + 1]);
        }
        lemma_candidates_agree(rest.drop_first(), first, second);
        assert(accepted(first, rest[0]) == accepted(second, rest[0]));
    }
}

/// What a filter yields is what its base sequence holds and its rules
/// admit, and nothing else.
pub proof fn lemma_candidates_are_accepted<T, P: Predicate<T>>(
    rest: Seq<T>,
    filters: Seq<P>,
    item: T,
)
    ensures
        candidates(rest, filters).contains(item) <==> rest.contains(item) && accepted(
            filters,
            item,
        ),
    decreases rest.len(),
{
    if rest.len() > 0 {
        let tail = candidates(rest.drop_first(), filters);
        lemma_candidates_are_accepted(rest.drop_first(), filters, item);
        if rest.contains(item) && rest[0] != item {
            let i = choose|i: int| 0 <= i < rest.len() && rest[i] == item;
            assert(rest.drop_first()[i - 1] == item);
        }
        if rest.drop_first().contains(item) {
            let i = choose|i: int| 0 <= i < rest.drop_first().len() && rest.drop_first()[i] == item;
            assert(rest[i + 1] == item);
        }
        if accepted(filters, rest[0]) {
            let all = seq![rest[0]] + tail;
            if tail.contains(item) {
                let i = choose|i: int| 0 <= i < tail.len() && tail[i] == item;
                assert(all[i + 1] == item);
            }
            if all.contains(item) {
                let i = choose|i: int| 0 <= i < all.len() && all[i] == item;
                if i > 0 {
                    assert(tail[i - 1] == item);
                }
            }
            assert(all[0] == rest[0]);
        }
    }
}

/// A filter whose rules admit no item of its base sequence yields
/// nothing.
pub proof fn lemma_candidates_none<T, P: Predicate<T>>(rest: Seq<T>, filters: Seq<P>)
    requires
        forall|i: int| 0 <= i < rest.len() ==> !accepted(filters, #[trigger] rest[i]),
    ensures
        candidates(rest, filters).len() == 0,
{
    let yielded = candidates(rest, filters);
    if yielded.len() > 0 {
        lemma_candidates_are_accepted(rest, filters, yielded[0]);
        assert(yielded.contains(yielded[0]));
    }
}

/// After one more rule, a filter yields what it yielded before, less
/// what the new rule rejects, in the same order.
pub proof fn lemma_add_filters_candidates<T, P: Predicate<T>>(
    rest: Seq<T>,
    filters: Seq<P>,
    filter: P,
)
    ensures
        candidates(rest, filters.push(filter)) == candidates(
            candidates(rest, filters),
            seq![filter],
        ),
    decreases rest.len(),
{
    if rest.len() > 0 {
        lemma_add_filters_candidates(rest.drop_first(), filters, filter);
        lemma_accepted_push(filters, filter, rest[0]);
        let tail = candidates(rest.drop_first(), filters);
        if accepted(filters, rest[0]) {
            let all = seq![rest[0]] + tail;
            assert(all.drop_first() =~= tail);
            assert(all[0] == rest[0]);
            assert(accepted(seq![filter], rest[0]) <==> filter.admits(rest[0])) by {
                assert(seq![filter][0] == filter);
            }
        }
    }
}

/// A copy of `v`, element by element.
pub fn copy_items<T: Copy>(v: &Vec<T>) -> (out: Vec<T>)
    ensures
        out@ == v@,
{
    let mut out: Vec<T> = Vec::new();
    let mut i: usize = 0;
    while i < v.len()
        invariant
            i <= v.len(),
            out@ == v@.take(i as int),
        decreases v.len() - i,
    {
        out.push(v[i]);
        i += 1;
    }
    out
}

/// What a filter holds, as plain sequences.
pub ghost struct Domain<T, P> {
    /// The part of the base sequence not scanned yet.
    pub rest: Seq<T>,
    /// The rules, in the order of their addition.
    pub filters: Seq<P>,
}

/// A base sequence of candidates, scanned front to back, together with
/// an append-only list of rules. Only items that every rule admits are
/// yielded.
pub struct AccumulateFilter<T, P> {
    iter: Vec<T>,
    cursor: usize,
    filters: Vec<P>,
}

impl<T: Copy, P: Predicate<T>> AccumulateFilter<T, P> {
    /// The part of the base sequence that has not been scanned yet.
    pub closed spec fn remaining(&self) -> Seq<T> {
        if self.cursor <= self.iter@.len() {
            self.iter@.skip(self.cursor as int)
        } else {
            Seq::empty()
        }
    }

    /// The rules added so far, in the order of their addition.
    pub closed spec fn filters(&self) -> Seq<P> {
        self.filters@
    }

    /// What repeated calls of `next` would yield, were no rule added.
    pub open spec fn candidates(&self) -> Seq<T> {
        candidates(self.remaining(), self.filters())
    }

    /// A filter over `iter` with no rule yet.
    pub fn new(iter: Vec<T>) -> (out: Self)
        ensures
            out.remaining() == iter@,
            out.filters() == Seq::<P>::empty(),
    {
        Self { iter, cursor: 0, filters: Vec::new() }
    }

    /// Appends one rule; what has been scanned stays scanned.
    pub fn add(&mut self, filter: P)
        ensures
            final(self).remaining() == old(self).remaining(),
            final(self).filters() == old(self).filters().push(filter),
    {
        self.filters.push(filter);
    }

    /// Whether every rule admits `item`; stops at the first that does not.
    fn passes(&self, item: &T) -> (b: bool)
        ensures
            b == accepted(self.filters(), *item),
    {
        let mut i: usize = 0;
        while i < self.filters.len()
            invariant
                i <= self.filters.len(),
                forall|j: int| 0 <= j < i ==> (#[trigger] self.filters@[j]).admits(*item),
            decreases self.filters.len() - i,
        {
            if !self.filters[i].test(item) {
                return false;
            }
            i += 1;
        }
        true
    }

    /// Scans on to the first item that every rule admits and yields it;
    /// yields nothing once the base sequence is used up.
    pub fn next(&mut self) -> (result: Option<T>)
        ensures
            final(self).filters() == old(self).filters(),
            match result {
                Some(item) => exists|k: int|
                    {
                        &&& 0 <= k < old(self).remaining().len()
                        &&& #[trigger] old(self).remaining()[k] == item
                        &&& accepted(old(self).filters(), item)
                        &&& forall|j: int|
                            0 <= j < k ==> !accepted(
                                old(self).filters(),
                                #[trigger] old(self).remaining()[j],
                            )
                        &&& final(self).remaining() == old(self).remaining().skip(k + 1)
                    },
                None => {
                    &&& final(self).remaining().len() == 0
                    &&& forall|j: int|
                        0 <= j < old(self).remaining().len() ==> !accepted(
                            old(self).filters(),
                            #[trigger] old(self).remaining()[j],
                        )
                },
            },
            result == if old(self).candidates().len() == 0 {
                None
            } else {
                Some(old(self).candidates()[0])
            },
            final(self).candidates() == if old(self).candidates().len() == 0 {
                old(self).candidates()
            } else {
                old(self).candidates().drop_first()
            },
    {
        if self.cursor >= self.iter.len() {
            return None;
        }
        let ghost rest = self.remaining();
        let ghost start = self.cursor as int;
        while self.cursor < self.iter.len()
            invariant
                self.iter == old(self).iter,
                self.filters == old(self).filters,
                start <= self.cursor <= self.iter.len(),
                rest == old(self).remaining(),
                rest == self.iter@.skip(start),
                rest.len() == self.iter@.len() - start,
                forall|j: int|
                    0 <= j < self.cursor - start ==> !accepted(self.filters(), #[trigger] rest[j]),
                candidates(self.remaining(), self.filters()) == candidates(rest, self.filters()),
            decreases self.iter.len() - self.cursor,
        {
            let item = self.iter[self.cursor];
            let ghost before = self.remaining();
            self.cursor += 1;
            proof {
                assert(before[0] == item);
                assert(before.drop_first() == self.remaining());
                assert(rest[self.cursor - 1 - start] == self.iter@[self.cursor - 1]);
            }
            if self.passes(&item) {
                proof {
                    let k = self.cursor - 1 - start;
                    assert(self.remaining() =~= rest.skip(k + 1));
                }
                return Some(item);
            }
        }
        proof {
            assert(self.remaining().len() == 0);
        }
        None
    }
}

impl<T: Copy, P: Predicate<T>> View for AccumulateFilter<T, P> {
    type V = Domain<T, P>;

    open spec fn view(&self) -> Domain<T, P> {
        Domain { rest: self.remaining(), filters: self.filters() }
    }
}

impl<T: Copy, P: Predicate<T> + Copy> Clone for AccumulateFilter<T, P> {
    /// An independent filter at the same scan position with the same rules.
    fn clone(&self) -> (out: Self)
        ensures
            out@ == self@,
    {
        Self {
            iter: copy_items(&self.iter),
            cursor: self.cursor,
            filters: copy_items(&self.filters),
        }
    }
}

} // verus!
