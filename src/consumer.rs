//! Consumers of generated items: a producer offers items one at a time and
//! stops as soon as the consumer answers that it wants no more.
use vstd::prelude::*;

verus! {

/// Takes items one at a time, by side effect. `accept` answers `true` to ask
/// for more and `false` to stop the producer.
pub trait Consumer<T>: View + Sized {
    /// The consumer's model after it is offered `t`.
    spec fn after(v: Self::V, t: T) -> Self::V;

    /// What `accept` answers when the consumer with model `v` is offered `t`.
    spec fn goes_on(v: Self::V, t: T) -> bool;

    /// Performs this operation on the given item.
    fn accept(&mut self, t: T) -> (r: bool)
        ensures
            final(self)@ == Self::after(old(self)@, t),
            r == Self::goes_on(old(self)@, t),
    ;
}

/// Whether a producer that offers `s` in order to a consumer with model `v`
/// is still asked for more after the last item of `s`.
pub open spec fn running<T, C: Consumer<T>>(v: C::V, s: Seq<T>) -> bool
    decreases s.len(),
{
    s.len() == 0 || (running::<T, C>(v, s.drop_last()) && C::goes_on(
        fed::<T, C>(v, s.drop_last()),
        s.last(),
    ))
}

/// The model of a consumer with model `v` after a producer offered it the items
/// of `s` in order, stopping at the first answer `false`.
pub open spec fn fed<T, C: Consumer<T>>(v: C::V, s: Seq<T>) -> C::V
    decreases s.len(),
{
    if s.len() == 0 {
        v
    } else if running::<T, C>(v, s.drop_last()) {
        C::after(fed::<T, C>(v, s.drop_last()), s.last())
    } else {
        fed::<T, C>(v, s.drop_last())
    }
}

/// Once the consumer has stopped the producer, nothing offered later counts.
pub proof fn lemma_fed_stopped<T, C: Consumer<T>>(v: C::V, s: Seq<T>, more: Seq<T>)
    requires
        !running::<T, C>(v, s),
    ensures
        fed::<T, C>(v, s + more) == fed::<T, C>(v, s),
        !running::<T, C>(v, s + more),
    decreases more.len(),
{
    if more.len() == 0 {
        assert(s + more =~= s);
    } else {
        lemma_fed_stopped::<T, C>(v, s, more.drop_last());
        assert((s + more).drop_last() =~= s + more.drop_last());
    }
}

/// A producer that offers `s` and then `more` feeds as one that offers `s + more`.
pub proof fn lemma_fed_append<T, C: Consumer<T>>(v: C::V, s: Seq<T>, more: Seq<T>)
    requires
        running::<T, C>(v, s),
    ensures
        fed::<T, C>(v, s + more) == fed::<T, C>(fed::<T, C>(v, s), more),
        running::<T, C>(v, s + more) == running::<T, C>(fed::<T, C>(v, s), more),
    decreases more.len(),
{
    if more.len() == 0 {
        assert(s + more =~= s);
    } else {
        lemma_fed_append::<T, C>(v, s, more.drop_last());
        assert((s + more).drop_last() =~= s + more.drop_last());
    }
}

/// Keeps the first item offered and stops the producer.
pub struct SingleConsumer<T>(Option<T>);

/// Collects every item offered into a `Vec` and never stops the producer.
pub struct TotalConsumer<T>(Vec<T>);

impl<T> View for SingleConsumer<T> {
    type V = Option<T>;

    closed spec fn view(&self) -> Option<T> {
        self.0
    }
}

impl<T> View for TotalConsumer<T> {
    type V = Seq<T>;

    closed spec fn view(&self) -> Seq<T> {
        self.0@
    }
}

impl<T> Consumer<T> for SingleConsumer<T> {
    open spec fn after(v: Option<T>, t: T) -> Option<T> {
        if v is None {
            Some(t)
        } else {
            v
        }
    }

    open spec fn goes_on(v: Option<T>, t: T) -> bool {
        false
    }

    fn accept(&mut self, t: T) -> (r: bool) {
        if self.0.is_none() {
            self.0 = Some(t);
        }
        false
    }
}

impl<T> Consumer<T> for TotalConsumer<T> {
    open spec fn after(v: Seq<T>, t: T) -> Seq<T> {
        v.push(t)
    }

    open spec fn goes_on(v: Seq<T>, t: T) -> bool {
        true
    }

    fn accept(&mut self, t: T) -> (r: bool) {
        self.0.push(t);
        true
    }
}

impl<T> SingleConsumer<T> {
    pub fn new() -> (r: Self)
        ensures
            r@ is None,
    {
        SingleConsumer(None)
    }

    /// Takes the item out, leaving `None`.
    pub fn take(&mut self) -> (r: Option<T>)
        ensures
            r == old(self)@,
            final(self)@ is None,
    {
        self.0.take()
    }

    pub fn is_some(&self) -> (r: bool)
        ensures
            r == self@ is Some,
    {
        self.0.is_some()
    }
}

impl<T> TotalConsumer<T> {
    pub fn new() -> (r: Self)
        ensures
            r@ == Seq::<T>::empty(),
    {
        TotalConsumer(Vec::new())
    }

    pub fn into_vec(self) -> (r: Vec<T>)
        ensures
            r@ == self@,
    {
        self.0
    }
}

/// A single consumer fed from empty holds the first item offered, if any.
pub proof fn lemma_single_fed<T>(s: Seq<T>)
    ensures
        fed::<T, SingleConsumer<T>>(None, s) == (if s.len() > 0 {
            Some(s[0])
        } else {
            None
        }),
        s.len() > 0 ==> !running::<T, SingleConsumer<T>>(None, s),
    decreases s.len(),
{
    if s.len() > 0 {
        lemma_single_fed(s.drop_last());
        let p = s.drop_last();
        if s.len() > 1 {
            assert(p[0] == s[0]);
            assert(!running::<T, SingleConsumer<T>>(None, p));
            assert(fed::<T, SingleConsumer<T>>(None, s) == fed::<T, SingleConsumer<T>>(None, p));
        } else {
            assert(running::<T, SingleConsumer<T>>(None, p));
            assert(fed::<T, SingleConsumer<T>>(None, p) == None::<T>);
            assert(SingleConsumer::<T>::after(None, s[0]) == Some(s[0]));
        }
    }
}

/// A total consumer collects everything offered, in order.
pub proof fn lemma_total_fed<T>(v: Seq<T>, s: Seq<T>)
    ensures
        fed::<T, TotalConsumer<T>>(v, s) == v + s,
        running::<T, TotalConsumer<T>>(v, s),
    decreases s.len(),
{
    if s.len() > 0 {
        lemma_total_fed(v, s.drop_last());
        assert(v + s =~= (v + s.drop_last()).push(s.last()));
    } else {
        assert(v + s =~= v);
    }
}

} // verus!
