use crate::containers::traits::ReadableContainer;
use crate::order::key_lt;
use crate::order::less;
use crate::order::total_order;
use crate::subcontainers::resizable_array::is_default;
use core::ops::Add;
use vstd::multiset::Multiset;
use vstd::prelude::*;
use vstd::std_specs::ops::AddSpec;

verus! {

enum TripleReplacement {
    NotReplaced,
    ReplacedNone,
    ReplacedMax,
}

/// Up to three elements, the best first.
#[derive(Debug, PartialEq, Eq)]
pub struct Triple<T: Ord> {
    pub first: Option<T>,
    pub second: Option<T>,
    pub third: Option<T>,
}

/// The three greatest elements that were pushed, the greatest first.
#[derive(Debug, PartialEq, Eq)]
pub struct MaxsTriple<T: Ord> {
    pub triple: Triple<T>,
}

/// The three least elements that were pushed, the least first.
#[derive(Debug, PartialEq, Eq)]
pub struct MinsTriple<T: Ord> {
    pub triple: Triple<T>,
}

/// The order in which a lesser element is the better one.
pub open spec fn lesser_first<T: Ord>() -> spec_fn(T, T) -> bool {
    |a: T, b: T| key_lt(a, b)
}

/// The order in which a greater element is the better one.
pub open spec fn greater_first<T: Ord>() -> spec_fn(T, T) -> bool {
    |a: T, b: T| key_lt(b, a)
}

/// `compare_fn` accepts every pair and decides as `better` does.
pub open spec fn decides<T, F: Fn(&T, &T) -> bool>(
    compare_fn: F,
    better: spec_fn(T, T) -> bool,
) -> bool {
    forall|a: T, b: T|
        #![trigger compare_fn.requires((&a, &b))]
        #![trigger better(a, b)]
        compare_fn.requires((&a, &b)) && forall|r: bool|
            compare_fn.ensures((&a, &b), r) ==> r == better(a, b)
}

/// What a slot holds after `element` was offered to it.
pub open spec fn slot_after<T>(
    slot: Option<T>,
    element: T,
    better: spec_fn(T, T) -> bool,
) -> Option<T> {
    match slot {
        None => Some(element),
        Some(held) => if better(element, held) {
            Some(element)
        } else {
            slot
        },
    }
}

/// What goes on to the next slot after `element` was offered to `slot`: the
/// element that it displaced, or `element` itself where the slot kept what it
/// held; nothing where the slot was empty.
pub open spec fn carried_on<T>(
    slot: Option<T>,
    element: T,
    better: spec_fn(T, T) -> bool,
) -> Option<T> {
    match slot {
        None => None,
        Some(held) => if better(element, held) {
            Some(held)
        } else {
            Some(element)
        },
    }
}

impl<T: Ord> Triple<T> {
    /// The triple that holds nothing.
    pub open spec fn empty() -> Self {
        Triple { first: None, second: None, third: None }
    }

    /// The slot with the index `ndx`: 0 for the first, 1 for the second, else
    /// the third.
    pub open spec fn slot(self, ndx: int) -> Option<T> {
        if ndx == 0 {
            self.first
        } else if ndx == 1 {
            self.second
        } else {
            self.third
        }
    }

    /// The triple with `value` in the slot with the index `ndx`.
    pub open spec fn with_slot(self, ndx: int, value: Option<T>) -> Self {
        if ndx == 0 {
            Triple { first: value, ..self }
        } else if ndx == 1 {
            Triple { second: value, ..self }
        } else {
            Triple { third: value, ..self }
        }
    }

    /// The triple after `element` was offered to the slots from `ndx` on:
    /// it takes the first slot that is empty or holds something worse, and
    /// what it displaces is offered to the slots behind.
    pub open spec fn pushed_from(self, ndx: int, element: T, better: spec_fn(T, T) -> bool) -> Self
        decreases 3 - ndx,
    {
        if 0 <= ndx < 3 {
            let next = self.with_slot(ndx, slot_after(self.slot(ndx), element, better));
            match carried_on(self.slot(ndx), element, better) {
                Some(carry) => next.pushed_from(ndx + 1, carry, better),
                None => next,
            }
        } else {
            self
        }
    }

    /// The triple after `element` was pushed.
    pub open spec fn pushed(self, element: T, better: spec_fn(T, T) -> bool) -> Self {
        self.pushed_from(0, element, better)
    }

    /// The triple after all of `items` were pushed, one after the other.
    pub open spec fn pushed_all(self, items: Seq<T>, better: spec_fn(T, T) -> bool) -> Self
        decreases items.len(),
    {
        if items.len() == 0 {
            self
        } else {
            self.pushed(items[0], better).pushed_all(items.drop_first(), better)
        }
    }

    /// The slots are filled from the first on, and no element is better than
    /// one in a slot before it.
    pub open spec fn in_order(self, better: spec_fn(T, T) -> bool) -> bool {
        &&& self.first is None ==> self.second is None
        &&& self.second is None ==> self.third is None
        &&& self.second is Some ==> !better(self.second.unwrap(), self.first.unwrap())
        &&& self.third is Some ==> !better(self.third.unwrap(), self.second.unwrap())
    }

    /// The element that falls out behind the third slot when `element` is
    /// pushed; none while a slot is empty.
    pub open spec fn dropped(self, element: T, better: spec_fn(T, T) -> bool) -> Option<T> {
        match carried_on(self.first, element, better) {
            Some(carry) => match carried_on(self.second, carry, better) {
                Some(carry) => carried_on(self.third, carry, better),
                None => None,
            },
            None => None,
        }
    }

    /// The elements that the triple holds.
    pub open spec fn held(self) -> Multiset<T> {
        held_in(self.first).add(held_in(self.second)).add(held_in(self.third))
    }

    fn push<F: Fn(&T, &T) -> bool>(
        &mut self,
        element: T,
        compare_fn: F,
        Ghost(better): Ghost<spec_fn(T, T) -> bool>,
    )
        requires
            decides::<T, F>(compare_fn, better),
        ensures
            *final(self) == old(self).pushed(element, better),
    {
        self.push_utility(0, element, &compare_fn, Ghost(better));
    }

    fn push_utility<F: Fn(&T, &T) -> bool>(
        &mut self,
        ndx: usize,
        element: T,
        compare_fn: &F,
        Ghost(better): Ghost<spec_fn(T, T) -> bool>,
    )
        requires
            decides::<T, F>(*compare_fn, better),
        ensures
            *final(self) == old(self).pushed_from(ndx as int, element, better),
        decreases 3 - ndx,
    {
        if ndx >= 3 {
            return ;
        }
        let (carry, kind) = if ndx == 0 {
            Self::try_replace(&mut self.first, element, compare_fn, Ghost(better))
        } else if ndx == 1 {
            Self::try_replace(&mut self.second, element, compare_fn, Ghost(better))
        } else {
            Self::try_replace(&mut self.third, element, compare_fn, Ghost(better))
        };
        match (carry, kind) {
            (Some(replaced), TripleReplacement::ReplacedMax) => {
                self.push_utility(ndx + 1, replaced, compare_fn, Ghost(better));
            },
            (Some(rejected), TripleReplacement::NotReplaced) => {
                self.push_utility(ndx + 1, rejected, compare_fn, Ghost(better));
            },
            _ => {},
        }
    }

    /// Offers `element` to one slot, and hands back what goes on to the
    /// next: the element that was displaced, or `element` itself.
    fn try_replace<F: Fn(&T, &T) -> bool>(
        max: &mut Option<T>,
        element: T,
        compare_fn: &F,
        Ghost(better): Ghost<spec_fn(T, T) -> bool>,
    ) -> (result: (Option<T>, TripleReplacement))
        requires
            decides::<T, F>(*compare_fn, better),
        ensures
            *final(max) == slot_after(*old(max), element, better),
            result.0 == carried_on(*old(max), element, better),
            match result.1 {
                TripleReplacement::ReplacedNone => *old(max) is None,
                TripleReplacement::ReplacedMax => *old(max) is Some && better(
                    element,
                    old(max).unwrap(),
                ),
                TripleReplacement::NotReplaced => *old(max) is Some && !better(
                    element,
                    old(max).unwrap(),
                ),
            },
    {
        let replace = match max {
            None => true,
            Some(held) => {
                assert(compare_fn.requires((&element, &*held)));
                compare_fn(&element, held)
            },
        };
        if replace {
            let mut replaced = Some(element);
            core::mem::swap(max, &mut replaced);
            let replacement_type = if replaced.is_some() {
                TripleReplacement::ReplacedMax
            } else {
                TripleReplacement::ReplacedNone
            };
            (replaced, replacement_type)
        } else {
            (Some(element), TripleReplacement::NotReplaced)
        }
    }
}

impl<T: Ord> Default for Triple<T> {
    fn default() -> (triple: Self)
        ensures
            triple == Triple::<T>::empty(),
    {
        Triple { first: None, second: None, third: None }
    }
}

impl<T: Ord> Default for MaxsTriple<T> {
    fn default() -> (maxs: Self)
        ensures
            maxs.triple == Triple::<T>::empty(),
    {
        MaxsTriple { triple: Triple { first: None, second: None, third: None } }
    }
}

impl<T: Ord> Default for MinsTriple<T> {
    fn default() -> (mins: Self)
        ensures
            mins.triple == Triple::<T>::empty(),
    {
        MinsTriple { triple: Triple { first: None, second: None, third: None } }
    }
}

impl<T: Ord> MaxsTriple<T> {
    fn push_max(&mut self, element: T)
        requires
            total_order::<T>(),
        ensures
            final(self).triple == old(self).triple.pushed(element, greater_first::<T>()),
    {
        let compare_fn = |a: &T, b: &T| -> (r: bool)
            requires
                total_order::<T>(),
            ensures
                r == key_lt(*b, *a),
            { less(b, a) };
        self.triple.push(element, compare_fn, Ghost(greater_first::<T>()));
    }
}

impl<T: Ord> MinsTriple<T> {
    fn push_min(&mut self, element: T)
        requires
            total_order::<T>(),
        ensures
            final(self).triple == old(self).triple.pushed(element, lesser_first::<T>()),
    {
        let compare_fn = |a: &T, b: &T| -> (r: bool)
            requires
                total_order::<T>(),
            ensures
                r == key_lt(*a, *b),
            { less(a, b) };
        self.triple.push(element, compare_fn, Ghost(lesser_first::<T>()));
    }
}

/// The sum of `items` added one after the other to `start`.
pub open spec fn sum_from<T: Add<T, Output = T>>(start: T, items: Seq<T>) -> T
    decreases items.len(),
{
    if items.len() == 0 {
        start
    } else {
        sum_from(start.add_spec(items[0]), items.drop_first())
    }
}

/// Every addition on the way to `sum_from(start, items)` is one that `+`
/// accepts (for integers: one that does not overflow).
pub open spec fn sums_fit<T: Add<T, Output = T>>(start: T, items: Seq<T>) -> bool
    decreases items.len(),
{
    if items.len() == 0 {
        true
    } else {
        start.add_req(items[0]) && sums_fit(start.add_spec(items[0]), items.drop_first())
    }
}

/// Empties the container and returns the sum of its elements, added to a
/// default value in the order in which they come out.
pub fn sum<T, C: ReadableContainer<T>>(container: C) -> (total: T) where
    T: Default + Add<T, Output = T>,

    requires
        container.wf(),
        T::obeys_add_spec(),
        forall|zero: T| #[trigger] is_default(zero) ==> sums_fit(zero, container.pending()),
    ensures
        exists|zero: T| is_default(zero) && total == #[trigger] sum_from(zero, container.pending()),
{
    let (total, _) = sum_and_count(container);
    total
}

/// Empties the container and returns the sum of its elements together with
/// their number.
pub fn sum_and_count<T, C: ReadableContainer<T>>(container: C) -> (result: (T, usize)) where
    T: Default + Add<T, Output = T>,

    requires
        container.wf(),
        T::obeys_add_spec(),
        forall|zero: T| #[trigger] is_default(zero) ==> sums_fit(zero, container.pending()),
    ensures
        exists|zero: T|
            is_default(zero) && result.0 == #[trigger] sum_from(zero, container.pending()),
        result.1 == container.pending().len(),
{
    let mut container = container;
    let ghost all = container.pending();
    let mut sum = T::default();
    let ghost zero = sum;
    assert(is_default(zero));
    let mut size: usize = 0;
    proof {
        container.lemma_pending_size();
    }
    let full_size = container.size();
    loop
        invariant
            container.wf(),
            T::obeys_add_spec(),
            sums_fit(sum, container.pending()),
            sum_from(sum, container.pending()) == sum_from(zero, all),
            size + container.pending().len() == all.len(),
            all.len() == full_size,
        ensures
            sum == sum_from(zero, all),
            size == all.len(),
        decreases container.pending().len(),
    {
        match container.pop() {
            Some(pivot) => {
                sum = sum + pivot;
                size += 1;
            },
            None => {
                break ;
            },
        }
    }
    (sum, size)
}

/// Empties the container and returns the three least and the three greatest
/// of its elements. Each element goes into the one triple itself and into
/// the other as a clone.
pub fn evaluate_mins_and_maxs_triples<T, C: ReadableContainer<T>>(container: C) -> (result: (
    MinsTriple<T>,
    MaxsTriple<T>,
)) where T: Clone + Ord
    requires
        container.wf(),
        total_order::<T>(),
    ensures
        exists|clones: Seq<T>|
            {
                &&& clones.len() == container.pending().len()
                &&& forall|i: int| 0 <= i < clones.len() ==> cloned(container.pending()[i], clones[i])
                &&& result.0.triple == #[trigger] Triple::<T>::empty().pushed_all(
                    clones,
                    lesser_first::<T>(),
                )
            },
        result.1.triple == Triple::<T>::empty().pushed_all(
            container.pending(),
            greater_first::<T>(),
        ),
        result.0.triple.in_order(lesser_first::<T>()),
        result.1.triple.in_order(greater_first::<T>()),
{
    let mut container = container;
    let ghost all = container.pending();
    let ghost mut clones: Seq<T> = Seq::empty();
    let mut mins = MinsTriple::<T>::default();
    let mut maxs = MaxsTriple::<T>::default();
    loop
        invariant
            container.wf(),
            total_order::<T>(),
            clones.len() + container.pending().len() == all.len(),
            all.subrange(clones.len() as int, all.len() as int) == container.pending(),
            forall|i: int| 0 <= i < clones.len() ==> cloned(all[i], #[trigger] clones[i]),
            mins.triple == Triple::<T>::empty().pushed_all(clones, lesser_first::<T>()),
            maxs.triple == Triple::<T>::empty().pushed_all(
                all.subrange(0, clones.len() as int),
                greater_first::<T>(),
            ),
        ensures
            clones.len() == all.len(),
            maxs.triple == Triple::<T>::empty().pushed_all(all, greater_first::<T>()),
            mins.triple.in_order(lesser_first::<T>()),
            maxs.triple.in_order(greater_first::<T>()),
        decreases container.pending().len(),
    {
        match container.pop() {
            Some(pivot) => {
                let copy = pivot.clone();
                proof {
                    let n = clones.len() as int;
                    assert(pivot == all[n]);
                    lemma_pushed_all_one_more(
                        Triple::<T>::empty(),
                        clones,
                        copy,
                        lesser_first::<T>(),
                    );
                    lemma_pushed_all_one_more(
                        Triple::<T>::empty(),
                        all.subrange(0, n),
                        pivot,
                        greater_first::<T>(),
                    );
                    assert(all.subrange(0, n).push(pivot) =~= all.subrange(0, n + 1));
                    assert(all.subrange(n + 1, all.len() as int) =~= all.subrange(
                        n,
                        all.len() as int,
                    ).drop_first());
                    clones = clones.push(copy);
                }
                mins.push_min(copy);
                maxs.push_max(pivot);
            },
            None => {
                proof {
                    assert(all.subrange(0, all.len() as int) =~= all);
                    lemma_orders_rank::<T>();
                    lemma_pushed_all_in_order(Triple::<T>::empty(), clones, lesser_first::<T>());
                    lemma_pushed_all_in_order(Triple::<T>::empty(), all, greater_first::<T>());
                }
                break ;
            },
        }
    }
    (mins, maxs)
}

/// The element of a slot, as a multiset of at most one element.
pub open spec fn held_in<T>(slot: Option<T>) -> Multiset<T> {
    match slot {
        Some(x) => Multiset::singleton(x),
        None => Multiset::empty(),
    }
}

/// `better` ranks the elements: of two elements at most one is better than
/// the other, and an element that is not better than a second, which is not
/// better than a third, is not better than the third.
pub open spec fn ranks<T>(better: spec_fn(T, T) -> bool) -> bool {
    &&& forall|a: T, b: T| #[trigger] better(a, b) ==> !better(b, a)
    &&& forall|a: T, b: T, c: T|
        #![trigger better(a, b), better(b, c)]
        !better(a, b) && !better(b, c) ==> !better(a, c)
}

/// A push into a triple that holds its elements best first keeps them best
/// first; it keeps every element but the one that falls out behind the third
/// slot, and that one is better than none of those that stay.
pub proof fn lemma_push_keeps_the_best<T: Ord>(
    triple: Triple<T>,
    element: T,
    better: spec_fn(T, T) -> bool,
)
    requires
        ranks(better),
        triple.in_order(better),
    ensures
        triple.pushed(element, better).in_order(better),
        triple.pushed(element, better).held().add(held_in(triple.dropped(element, better)))
            == triple.held().insert(element),
        triple.dropped(element, better) matches Some(out) ==> {
            let kept = triple.pushed(element, better);
            &&& kept.third is Some
            &&& !better(out, kept.third.unwrap())
            &&& !better(out, kept.second.unwrap())
            &&& !better(out, kept.first.unwrap())
        },
{
    broadcast use vstd::multiset::group_multiset_axioms;

    reveal_with_fuel(Triple::pushed_from, 4);
    let kept = triple.pushed(element, better);
    assert(kept.held().add(held_in(triple.dropped(element, better))) =~= triple.held().insert(
        element,
    ));
    if triple.third is Some {
        let f = triple.first.unwrap();
        let s = triple.second.unwrap();
        let t = triple.third.unwrap();
        let e = element;
        assert(!better(t, f)) by {
            assert(!better(t, s) && !better(s, f));
        }
        if better(e, f) {
            assert(!better(f, e));
        } else if better(e, s) {
            assert(!better(s, e));
            if !better(s, t) {
                assert(!better(t, e)) by {
                    assert(!better(t, s) && !better(s, e));
                }
            }
        } else if better(e, t) {
            assert(!better(t, e));
        } else {
            assert(!better(e, s) && !better(s, f));
        }
        let out = triple.dropped(element, better).unwrap();
        let k3 = kept.third.unwrap();
        let k2 = kept.second.unwrap();
        let k1 = kept.first.unwrap();
        assert(!better(out, k3));
        assert(!better(out, k2)) by {
            assert(!better(out, k3) && !better(k3, k2));
        }
        assert(!better(out, k1)) by {
            assert(!better(out, k2) && !better(k2, k1));
        }
    } else if triple.second is Some {
        let f = triple.first.unwrap();
        let s = triple.second.unwrap();
        let e = element;
        if better(e, f) {
            assert(!better(f, e));
        } else if better(e, s) {
            assert(!better(s, e));
        }
    } else if triple.first is Some {
        if better(element, triple.first.unwrap()) {
            assert(!better(triple.first.unwrap(), element));
        }
    }
}

/// Under a total order both "lesser first" and "greater first" rank the
/// elements.
pub proof fn lemma_orders_rank<T: Ord>()
    requires
        total_order::<T>(),
    ensures
        ranks(lesser_first::<T>()),
        ranks(greater_first::<T>()),
{
    let less_than = lesser_first::<T>();
    let more_than = greater_first::<T>();
    assert forall|a: T, b: T| #[trigger] less_than(a, b) implies !less_than(b, a) by {
        crate::order::lemma_lt_asymmetric(a, b);
    }
    assert forall|a: T, b: T| #[trigger] more_than(a, b) implies !more_than(b, a) by {
        crate::order::lemma_lt_asymmetric(b, a);
    }
    assert forall|a: T, b: T, c: T|
        #![trigger less_than(a, b), less_than(b, c)]
        !less_than(a, b) && !less_than(b, c) implies !less_than(a, c) by {
        if key_lt(a, c) {
            crate::order::lemma_lt_total(a, b);
            crate::order::lemma_lt_total(b, c);
            if key_lt(b, a) {
                crate::order::lemma_lt_transitive(b, a, c);
            }
            if key_lt(c, b) {
                crate::order::lemma_lt_transitive(a, c, b);
            }
        }
    }
    assert forall|a: T, b: T, c: T|
        #![trigger more_than(a, b), more_than(b, c)]
        !more_than(a, b) && !more_than(b, c) implies !more_than(a, c) by {
        if key_lt(c, a) {
            crate::order::lemma_lt_total(a, b);
            crate::order::lemma_lt_total(b, c);
            if key_lt(a, b) {
                crate::order::lemma_lt_transitive(c, a, b);
            }
            if key_lt(b, c) {
                crate::order::lemma_lt_transitive(b, c, a);
            }
        }
    }
}

/// Pushes into an empty triple leave a triple that holds its elements best
/// first.
pub proof fn lemma_pushed_all_in_order<T: Ord>(
    start: Triple<T>,
    items: Seq<T>,
    better: spec_fn(T, T) -> bool,
)
    requires
        ranks(better),
        start.in_order(better),
    ensures
        start.pushed_all(items, better).in_order(better),
    decreases items.len(),
{
    if items.len() > 0 {
        lemma_push_keeps_the_best(start, items[0], better);
        lemma_pushed_all_in_order(start.pushed(items[0], better), items.drop_first(), better);
    }
}

/// Pushing one more element after a sequence is pushing the longer sequence.
proof fn lemma_pushed_all_one_more<T: Ord>(
    start: Triple<T>,
    items: Seq<T>,
    last: T,
    better: spec_fn(T, T) -> bool,
)
    ensures
        start.pushed_all(items.push(last), better) == start.pushed_all(items, better).pushed(
            last,
            better,
        ),
    decreases items.len(),
{
    if items.len() == 0 {
        assert(items.push(last).drop_first() =~= Seq::<T>::empty());
        assert(start.pushed(last, better).pushed_all(Seq::<T>::empty(), better) == start.pushed(
            last,
            better,
        ));
    } else {
        assert(items.push(last).drop_first() =~= items.drop_first().push(last));
        lemma_pushed_all_one_more(start.pushed(items[0], better), items.drop_first(), last, better);
    }
}

/// Empties the container up to its middle and returns the element there:
/// of `n` elements the one that comes out after `n / 2` others.
pub fn central_element<T, C: ReadableContainer<T>>(container: C) -> (central: Option<T>)
    requires
        container.wf(),
    ensures
        central == if container.pending().len() > 0 {
            Some(container.pending()[(container.pending().len() / 2) as int])
        } else {
            None
        },
{
    let mut container = container;
    let ghost all = container.pending();
    proof {
        container.lemma_pending_size();
    }
    let mut central_index = container.size() / 2;
    while central_index > 0
        invariant
            container.wf(),
            central_index <= all.len() / 2,
            container.pending() == all.subrange(all.len() / 2 - central_index, all.len() as int),
        decreases central_index,
    {
        let ghost before = container.pending();
        let _ = container.pop();
        proof {
            assert(before.drop_first() =~= all.subrange(
                all.len() / 2 - central_index + 1,
                all.len() as int,
            ));
        }
        central_index -= 1;
    }
    container.pop()
}

} // verus!
