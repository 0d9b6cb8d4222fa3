use vstd::prelude::*;
use vstd::string::StringSliceAdditionalSpecFns;

verus! {

/// A value that can be taken out once.
pub struct Consumable<T> {
    inner: Option<T>,
}

impl<T> View for Consumable<T> {
    type V = Option<T>;

    /// The value still held; none once it has been consumed.
    closed spec fn view(&self) -> Option<T> {
        self.inner
    }
}

impl<T> Consumable<T> {
    pub fn new(inner: T) -> (c: Self)
        ensures
            c@ == Some(inner),
    {
        Consumable { inner: Some(inner) }
    }

    /// Takes the value out: the first call gets it, every later call gets nothing.
    pub fn consume(&mut self) -> (r: Option<T>)
        ensures
            r == old(self)@,
            final(self)@ == None::<T>,
    {
        self.inner.take()
    }

    pub fn is_consumed(&self) -> (b: bool)
        ensures
            b == (self@ is None),
    {
        self.inner.is_none()
    }

    /// The state that the value is shown with.
    pub fn state_label(&self) -> (s: &'static str)
        ensures
            s@ == (if self@ is None {
                "Consumed"@
            } else {
                "Unconsumed"@
            }),
    {
        if self.inner.is_none() {
            "Consumed"
        } else {
            "Unconsumed"
        }
    }
}

/// The view left, and the results given, by `k` successive `consume` calls on a consumable
/// whose view is `held`: each call gives what was held and leaves nothing.
pub open spec fn consume_run<T>(held: Option<T>, k: nat) -> (Option<T>, Seq<Option<T>>)
    decreases k,
{
    if k == 0 {
        (held, Seq::empty())
    } else {
        let prev = consume_run(held, (k - 1) as nat);
        (None, prev.1.push(prev.0))
    }
}

/// A consumable made with `x` and consumed `k` times gives `x` at the first call and nothing at
/// the others, and is consumed exactly when `k > 0`.
pub proof fn lemma_consumed_after_first_consume<T>(x: T, k: nat)
    ensures
        consume_run(Some(x), k).1.len() == k,
        k > 0 ==> consume_run(Some(x), k).1[0] == Some(x),
        forall|i: int| 0 < i < k ==> #[trigger] consume_run(Some(x), k).1[i] == None::<T>,
        (consume_run(Some(x), k).0 is None) == (k > 0),
    decreases k,
{
    if k > 0 {
        lemma_consumed_after_first_consume(x, (k - 1) as nat);
        let prev = consume_run(Some(x), (k - 1) as nat);
        assert forall|i: int| 0 < i < k implies #[trigger] consume_run(Some(x), k).1[i] == None::<T> by {
            if i < k - 1 {
                assert(consume_run(Some(x), k).1[i] == prev.1[i]);
            }
        }
    }
}

/// The event that a `Var<T>` sends after its value is first changed.
pub struct Changed<T>(pub core::marker::PhantomData<T>);

impl<T> Default for Changed<T> {
    fn default() -> (c: Self)
        ensures
            c == Changed::<T>(core::marker::PhantomData),
    {
        Changed(core::marker::PhantomData)
    }
}

/// A value held by an event system, that reports its first change until the report is handled.
pub struct Var<T, C> {
    ctx: C,
    val: T,
    changed: bool,
}

impl<T, C> Var<T, C> {
    pub closed spec fn spec_ctx(&self) -> C {
        self.ctx
    }

    pub closed spec fn spec_val(&self) -> T {
        self.val
    }

    /// A change was reported and its report not yet handled.
    pub closed spec fn is_changed(&self) -> bool {
        self.changed
    }

    pub fn new(ctx: C, val: T) -> (v: Self)
        ensures
            v.spec_ctx() == ctx,
            v.spec_val() == val,
            !v.is_changed(),
    {
        Var { ctx, val, changed: false }
    }

    pub fn ctx(&self) -> (c: &C)
        ensures
            *c == self.spec_ctx(),
    {
        &self.ctx
    }

    pub fn val(&self) -> (v: &T)
        ensures
            *v == self.spec_val(),
    {
        &self.val
    }

    /// Gives the value to change, with whether a `Changed` event is now owed: it is on the
    /// first change since the last report was handled.
    pub fn val_mut(&mut self) -> (r: (bool, &mut T))
        ensures
            r.0 == !old(self).is_changed(),
            *r.1 == old(self).spec_val(),
            final(self).is_changed(),
            final(self).spec_ctx() == old(self).spec_ctx(),
            final(self).spec_val() == *final(r.1),
            *final(self) == old(self).changed_to(*final(r.1)),
    {
        let notify = !self.changed;
        self.changed = true;
        (notify, &mut self.val)
    }

    /// Handles the report of a change: the next change is reported again.
    pub fn on_changed(&mut self, _event: &Changed<T>)
        ensures
            !final(self).is_changed(),
            final(self).spec_ctx() == old(self).spec_ctx(),
            final(self).spec_val() == old(self).spec_val(),
            *final(self) == old(self).handled(),
    {
        self.changed = false;
    }

    /// What changing the value to `val` leaves: `val`, in the same context, with a change pending.
    pub closed spec fn changed_to(&self, val: T) -> Self {
        Var { ctx: self.ctx, val, changed: true }
    }

    /// What handling the report of a change leaves: the same value and context, nothing pending.
    pub closed spec fn handled(&self) -> Self {
        Var { ctx: self.ctx, val: self.val, changed: false }
    }
}

/// The `Var` left by changing the value of `v` to each of `vals` in turn.
pub open spec fn after_changes<T, C>(v: Var<T, C>, vals: Seq<T>) -> Var<T, C>
    decreases vals.len(),
{
    if vals.len() == 0 {
        v
    } else {
        after_changes(v, vals.drop_last()).changed_to(vals.last())
    }
}

/// Of successive changes to a `Var` with no report handled between them, only the first can
/// report: a change reports exactly when none is pending (`val_mut`), and after the first `i >= 1`
/// changes one is pending. The value is the last one given and the context is kept.
pub proof fn lemma_var_reports_first_change_only<T, C>(v: Var<T, C>, vals: Seq<T>)
    ensures
        forall|i: int| 1 <= i <= vals.len() ==> (#[trigger] after_changes(v, vals.take(i))).is_changed(),
        after_changes(v, vals).spec_ctx() == v.spec_ctx(),
        vals.len() > 0 ==> after_changes(v, vals).spec_val() == vals.last(),
        vals.len() == 0 ==> after_changes(v, vals) == v,
    decreases vals.len(),
{
    if vals.len() > 0 {
        lemma_var_reports_first_change_only(v, vals.drop_last());
        assert forall|i: int| 1 <= i <= vals.len() implies (#[trigger] after_changes(v, vals.take(i))).is_changed() by {
            assert(vals.take(i).len() > 0);
        }
    }
}

/// Once the report of a change is handled, the next change reports again, whatever happened
/// before: handling keeps the value and context and leaves no change pending, and a change then
/// leaves one pending.
pub proof fn lemma_var_reports_again_after_handled<T, C>(v: Var<T, C>, val: T)
    ensures
        !v.handled().is_changed(),
        v.handled().spec_val() == v.spec_val(),
        v.handled().spec_ctx() == v.spec_ctx(),
        v.handled().changed_to(val).is_changed(),
        v.handled().changed_to(val).spec_val() == val,
{
}

/// The bytes of "ref".
pub open spec fn ref_bytes() -> Seq<u8> {
    seq![0x72u8, 0x65u8, 0x66u8]
}

/// The bytes of "mut".
pub open spec fn mut_bytes() -> Seq<u8> {
    seq![0x6du8, 0x75u8, 0x74u8]
}

/// `b` begins with `p`.
pub open spec fn starts_with(b: Seq<u8>, p: Seq<u8>) -> bool {
    p.len() <= b.len() && b.subrange(0, p.len() as int) == p
}

/// Whether a dependency written as `s` (beginning with "ref" or "mut") is a mutable one.
pub fn is_mut(s: &str) -> (b: bool)
    requires
        starts_with(s.spec_bytes(), ref_bytes()) || starts_with(s.spec_bytes(), mut_bytes()),
    ensures
        b == !starts_with(s.spec_bytes(), ref_bytes()),
{
    let bytes = s.as_bytes();
    if bytes.len() >= 3 && bytes[0] == 0x72u8 && bytes[1] == 0x65u8 && bytes[2] == 0x66u8 {
        assert(bytes@.subrange(0, 3) =~= ref_bytes());
        return false;
    }
    assert(!starts_with(s.spec_bytes(), ref_bytes())) by {
        if starts_with(s.spec_bytes(), ref_bytes()) {
            assert(bytes@.subrange(0, 3)[0] == bytes@[0]);
            assert(bytes@.subrange(0, 3)[1] == bytes@[1]);
            assert(bytes@.subrange(0, 3)[2] == bytes@[2]);
        }
    }
    true
}

} // verus!
