//! Fine-grained reactivity: signals, effects, memos and batches.
//!
//! The runtime state that a single-threaded host keeps in globals (the
//! effect that is running, the batch depth, the queue of deferred effects,
//! the effect registry) is an explicit [`Runtime`] value here, and the state
//! of one signal (its value and the effects subscribed to it) is a
//! [`SignalState`].  Read and write handles name a signal by its id.
//!
//! Running an effect's body is the caller's work: the functions that would
//! run effects return the ids of the effects to run, in order, and
//! [`begin_effect`] / [`end_effect`] bracket each run so that signal reads
//! made by the body are tracked as dependencies of that effect.
use std::collections::HashSet;
use std::marker::PhantomData;
use vstd::prelude::*;
use vstd::std_specs::iter::IteratorSpec;

verus! {

broadcast use vstd::std_specs::hash::group_hash_axioms;

// ── Models ────────────────────────────────────────────────────────

/// Abstract state of the runtime.
pub struct RuntimeModel {
    /// The effect whose body is running, if any.
    pub current: Option<usize>,
    /// How many batches are open.
    pub batch_depth: nat,
    /// Effects notified while a batch was open, in notification order.
    pub pending: Seq<usize>,
    /// Effects registered so far; their ids are `0 .. effect_count`.
    pub effect_count: nat,
    /// Signals created so far; their ids are `0 .. signal_count`.
    pub signal_count: nat,
}

impl RuntimeModel {
    /// Every effect id the runtime holds names a registered effect.
    pub open spec fn wf(self) -> bool {
        &&& (self.current matches Some(e) ==> e < self.effect_count)
        &&& forall|i: int| 0 <= i < self.pending.len() ==> #[trigger] self.pending[i] < self.effect_count
    }

    /// The subscribers that name registered effects.
    pub open spec fn live(self, subscribers: Set<usize>) -> Set<usize> {
        subscribers.filter(|e: usize| e < self.effect_count)
    }
}

/// `q` lists the elements of `s`, each exactly once.
pub open spec fn lists(q: Seq<usize>, s: Set<usize>) -> bool {
    q.no_duplicates() && q.to_set() == s
}

/// The effects of `q` in order of first appearance, each once.
pub open spec fn first_occurrences(q: Seq<usize>) -> Seq<usize>
    decreases q.len(),
{
    if q.len() == 0 {
        Seq::empty()
    } else {
        let d = first_occurrences(q.drop_last());
        if d.contains(q.last()) {
            d
        } else {
            d.push(q.last())
        }
    }
}

/// What notifying `subscribers` does: outside a batch every registered
/// subscriber is to run now, each once; inside a batch none runs and each is
/// queued, once, behind the effects already pending.
pub open spec fn notified(
    before: RuntimeModel,
    subscribers: Set<usize>,
    after: RuntimeModel,
    run: Seq<usize>,
) -> bool {
    let live = before.live(subscribers);
    &&& after.current == before.current
    &&& after.batch_depth == before.batch_depth
    &&& after.effect_count == before.effect_count
    &&& after.signal_count == before.signal_count
    &&& if before.batch_depth > 0 {
        &&& run.len() == 0
        &&& after.pending.len() >= before.pending.len()
        &&& after.pending.take(before.pending.len() as int) == before.pending
        &&& lists(after.pending.skip(before.pending.len() as int), live)
    } else {
        &&& after.pending == before.pending
        &&& lists(run, live)
    }
}

/// The runtime after a batch opens.
pub open spec fn batch_opened(before: RuntimeModel) -> RuntimeModel {
    RuntimeModel { batch_depth: before.batch_depth + 1, ..before }
}

/// What closing a batch does: the depth drops by one; when no batch is left
/// open the deferred effects are to run, each once, in order of first
/// deferral, and the queue empties; otherwise nothing is to run.
pub open spec fn batch_closed(before: RuntimeModel, after: RuntimeModel, run: Seq<usize>) -> bool {
    &&& after.batch_depth == before.batch_depth - 1
    &&& after.current == before.current
    &&& after.effect_count == before.effect_count
    &&& after.signal_count == before.signal_count
    &&& if after.batch_depth > 0 {
        run.len() == 0 && after.pending == before.pending
    } else {
        run == first_occurrences(before.pending) && after.pending.len() == 0
    }
}

/// Abstract state of one signal.
pub struct SignalModel<T> {
    pub id: usize,
    pub value: T,
    /// Effects that read this signal while they ran.
    pub subscribers: Set<usize>,
}

impl<T> SignalModel<T> {
    /// The state after a tracked read made while `current` runs.
    pub open spec fn tracked_by(self, current: Option<usize>) -> Self {
        match current {
            Some(e) => SignalModel { subscribers: self.subscribers.insert(e), ..self },
            None => self,
        }
    }

    /// The state after the value is replaced by `value`.
    pub open spec fn with_value(self, value: T) -> Self {
        SignalModel { value: value, ..self }
    }
}

// ── Runtime ───────────────────────────────────────────────────────

/// The reactive runtime: the running effect, the batch depth, the deferred
/// effects and the counters that hand out effect and signal ids.
pub struct Runtime {
    current: Option<usize>,
    batch_depth: u32,
    pending: Vec<usize>,
    effect_count: usize,
    signal_count: usize,
}

impl View for Runtime {
    type V = RuntimeModel;

    closed spec fn view(&self) -> RuntimeModel {
        RuntimeModel {
            current: self.current,
            batch_depth: self.batch_depth as nat,
            pending: self.pending@,
            effect_count: self.effect_count as nat,
            signal_count: self.signal_count as nat,
        }
    }
}

/// One run of an effect's body: the effect, and the effect that was running
/// before it, to be restored by [`end_effect`].
pub struct EffectRun {
    pub id: usize,
    pub prev: Option<usize>,
}

impl Runtime {
    /// A runtime with no effects, no signals, no open batch.
    pub fn new() -> (rt: Runtime)
        ensures
            rt@ == (RuntimeModel {
                current: None,
                batch_depth: 0,
                pending: Seq::empty(),
                effect_count: 0,
                signal_count: 0,
            }),
            rt@.wf(),
    {
        Runtime { current: None, batch_depth: 0, pending: Vec::new(), effect_count: 0, signal_count: 0 }
    }

    /// The effect whose body is running, if any.
    pub fn current(&self) -> (r: Option<usize>)
        ensures
            r == self@.current,
    {
        self.current
    }

    /// How many batches are open.
    pub fn batch_depth(&self) -> (r: u32)
        ensures
            r == self@.batch_depth,
    {
        self.batch_depth
    }

    /// How many effects have been registered.
    pub fn effect_count(&self) -> (r: usize)
        ensures
            r == self@.effect_count,
    {
        self.effect_count
    }

    /// How many signals have been created.
    pub fn signal_count(&self) -> (r: usize)
        ensures
            r == self@.signal_count,
    {
        self.signal_count
    }

    /// The effects deferred by the open batches, in notification order.
    pub fn pending(&self) -> (r: Vec<usize>)
        ensures
            r@ == self@.pending,
    {
        self.pending.clone()
    }
}

// ── Signal ────────────────────────────────────────────────────────

/// The state of one signal: its value and the effects subscribed to it.
pub struct SignalState<T> {
    id: usize,
    value: Option<T>,
    subscribers: HashSet<usize>,
}

impl<T> SignalState<T> {
    /// The value is present.
    pub closed spec fn wf(&self) -> bool {
        self.value is Some
    }

    /// The abstract state of the signal.
    pub closed spec fn model(&self) -> SignalModel<T> {
        SignalModel { id: self.id, value: self.value->0, subscribers: self.subscribers@ }
    }

    /// The id of the signal.
    pub fn id(&self) -> (r: usize)
        ensures
            r == self.model().id,
    {
        self.id
    }

    /// Whether effect `e` is subscribed to the signal.
    pub fn is_subscribed(&self, e: usize) -> (r: bool)
        ensures
            r == self.model().subscribers.contains(e),
    {
        self.subscribers.contains(&e)
    }

    /// How many effects are subscribed to the signal.
    pub fn subscriber_count(&self) -> (r: usize)
        ensures
            r == self.model().subscribers.len(),
    {
        self.subscribers.len()
    }
}

/// Readable handle on a signal.
pub struct ReadSignal<T> {
    id: usize,
    marker: PhantomData<T>,
}

/// Writable handle on a signal.
pub struct WriteSignal<T> {
    id: usize,
    marker: PhantomData<T>,
}

impl<T> Clone for ReadSignal<T> {
    fn clone(&self) -> (r: Self)
        ensures
            r.spec_id() == self.spec_id(),
    {
        ReadSignal { id: self.id, marker: PhantomData }
    }
}

impl<T> Clone for WriteSignal<T> {
    fn clone(&self) -> (r: Self)
        ensures
            r.spec_id() == self.spec_id(),
    {
        WriteSignal { id: self.id, marker: PhantomData }
    }
}

impl<T> ReadSignal<T> {
    /// The id of the signal this handle reads.
    pub closed spec fn spec_id(&self) -> usize {
        self.id
    }

    /// The id of the signal this handle reads.
    pub fn id(&self) -> (r: usize)
        ensures
            r == self.spec_id(),
    {
        self.id
    }
}

impl<T: Clone> ReadSignal<T> {
    /// Reads the value and, when an effect is running, subscribes that effect
    /// to the signal.
    pub fn get(&self, state: &mut SignalState<T>, rt: &Runtime) -> (r: T)
        requires
            old(state).wf(),
            old(state).model().id == self.spec_id(),
        ensures
            final(state).wf(),
            final(state).model() == old(state).model().tracked_by(rt@.current),
            cloned(old(state).model().value, r),
    {
        if let Some(e) = rt.current {
            state.subscribers.insert(e);
        }
        state.value.as_ref().unwrap().clone()
    }

    /// Reads the value without subscribing anything.
    pub fn get_untracked(&self, state: &SignalState<T>) -> (r: T)
        requires
            state.wf(),
            state.model().id == self.spec_id(),
        ensures
            cloned(state.model().value, r),
    {
        state.value.as_ref().unwrap().clone()
    }
}

impl<T> WriteSignal<T> {
    /// The id of the signal this handle writes.
    pub closed spec fn spec_id(&self) -> usize {
        self.id
    }

    /// The id of the signal this handle writes.
    pub fn id(&self) -> (r: usize)
        ensures
            r == self.spec_id(),
    {
        self.id
    }

    /// Replaces the value and notifies the subscribers.  Returns the effects
    /// to run now, in order; inside a batch they are queued instead.
    pub fn set(&self, state: &mut SignalState<T>, rt: &mut Runtime, value: T) -> (run: Vec<usize>)
        requires
            old(state).wf(),
            old(state).model().id == self.spec_id(),
            old(rt)@.wf(),
        ensures
            final(state).wf(),
            final(state).model() == old(state).model().with_value(value),
            final(rt)@.wf(),
            notified(old(rt)@, old(state).model().subscribers, final(rt)@, run@),
    {
        state.value = Some(value);
        notify(rt, &state.subscribers)
    }

    /// Replaces the value by `f` of the value and notifies the subscribers.
    /// Returns the effects to run now, in order; inside a batch they are
    /// queued instead.
    pub fn update(&self, state: &mut SignalState<T>, rt: &mut Runtime, f: impl FnOnce(T) -> T) -> (run: Vec<usize>)
        requires
            old(state).wf(),
            old(state).model().id == self.spec_id(),
            old(rt)@.wf(),
            f.requires((old(state).model().value,)),
        ensures
            final(state).wf(),
            f.ensures((old(state).model().value,), final(state).model().value),
            final(state).model().id == old(state).model().id,
            final(state).model().subscribers == old(state).model().subscribers,
            final(rt)@.wf(),
            notified(old(rt)@, old(state).model().subscribers, final(rt)@, run@),
    {
        let v = state.value.take().unwrap();
        state.value = Some(f(v));
        notify(rt, &state.subscribers)
    }
}

/// Creates a signal holding `initial`, with no subscribers.  Returns its
/// read handle, its write handle and its state.
pub fn signal<T>(rt: &mut Runtime, initial: T) -> (r: (ReadSignal<T>, WriteSignal<T>, SignalState<T>))
    requires
        old(rt)@.wf(),
        old(rt)@.signal_count < usize::MAX,
    ensures
        final(rt)@ == (RuntimeModel { signal_count: old(rt)@.signal_count + 1, ..old(rt)@ }),
        final(rt)@.wf(),
        r.2.wf(),
        r.2.model() == (SignalModel { id: old(rt)@.signal_count as usize, value: initial, subscribers: Set::<usize>::empty() }),
        r.0.spec_id() == r.2.model().id,
        r.1.spec_id() == r.2.model().id,
{
    let id = rt.signal_count;
    rt.signal_count = rt.signal_count + 1;
    let state = SignalState { id, value: Some(initial), subscribers: HashSet::new() };
    (ReadSignal { id, marker: PhantomData }, WriteSignal { id, marker: PhantomData }, state)
}

// ── Effect ────────────────────────────────────────────────────────

/// Starts a run of effect `id`: it becomes the running effect, so that the
/// signals its body reads subscribe it.  Returns the effect that was running.
pub fn begin_effect(rt: &mut Runtime, id: usize) -> (prev: Option<usize>)
    requires
        old(rt)@.wf(),
        id < old(rt)@.effect_count,
    ensures
        prev == old(rt)@.current,
        final(rt)@ == (RuntimeModel { current: Some(id), ..old(rt)@ }),
        final(rt)@.wf(),
{
    let prev = rt.current;
    rt.current = Some(id);
    prev
}

/// Ends a run: `prev`, the effect that was running before, runs again.
pub fn end_effect(rt: &mut Runtime, prev: Option<usize>)
    requires
        old(rt)@.wf(),
        prev matches Some(p) ==> p < old(rt)@.effect_count,
    ensures
        final(rt)@ == (RuntimeModel { current: prev, ..old(rt)@ }),
        final(rt)@.wf(),
{
    rt.current = prev;
}

/// Registers a new effect and starts its first run.
pub fn effect(rt: &mut Runtime) -> (run: EffectRun)
    requires
        old(rt)@.wf(),
        old(rt)@.effect_count < usize::MAX,
    ensures
        run.id == old(rt)@.effect_count,
        run.prev == old(rt)@.current,
        final(rt)@ == (RuntimeModel {
            current: Some(run.id),
            effect_count: old(rt)@.effect_count + 1,
            ..old(rt)@
        }),
        final(rt)@.wf(),
{
    let id = rt.effect_count;
    rt.effect_count = rt.effect_count + 1;
    let prev = begin_effect(rt, id);
    EffectRun { id, prev }
}

// ── Memo ──────────────────────────────────────────────────────────

/// Creates a derived signal holding `initial` (the first value of its
/// function) and registers the effect that keeps it up to date, with its
/// first run started: that run computes the function again, writes it with
/// the returned write handle, and ends.
pub fn memo<T>(rt: &mut Runtime, initial: T) -> (r: (ReadSignal<T>, WriteSignal<T>, SignalState<T>, EffectRun))
    requires
        old(rt)@.wf(),
        old(rt)@.signal_count < usize::MAX,
        old(rt)@.effect_count < usize::MAX,
    ensures
        r.2.wf(),
        r.2.model() == (SignalModel { id: old(rt)@.signal_count as usize, value: initial, subscribers: Set::<usize>::empty() }),
        r.0.spec_id() == r.2.model().id,
        r.1.spec_id() == r.2.model().id,
        r.3.id == old(rt)@.effect_count,
        r.3.prev == old(rt)@.current,
        final(rt)@ == (RuntimeModel {
            current: Some(r.3.id),
            effect_count: old(rt)@.effect_count + 1,
            signal_count: old(rt)@.signal_count + 1,
            ..old(rt)@
        }),
        final(rt)@.wf(),
{
    let (read, write, state) = signal(rt, initial);
    let run = effect(rt);
    (read, write, state, run)
}

// ── Batch ─────────────────────────────────────────────────────────

/// Opens a batch: effects notified until it closes are deferred.
pub fn batch(rt: &mut Runtime)
    requires
        old(rt)@.wf(),
        old(rt)@.batch_depth < u32::MAX,
    ensures
        final(rt)@ == batch_opened(old(rt)@),
        final(rt)@.wf(),
{
    rt.batch_depth = rt.batch_depth + 1;
}

/// Closes a batch.  When it was the outermost one, the deferred effects are
/// returned, each once, in the order they were first deferred, and the queue
/// is emptied; otherwise nothing is to run.
pub fn end_batch(rt: &mut Runtime) -> (run: Vec<usize>)
    requires
        old(rt)@.wf(),
        old(rt)@.batch_depth > 0,
    ensures
        final(rt)@.wf(),
        batch_closed(old(rt)@, final(rt)@, run@),
{
    rt.batch_depth = rt.batch_depth - 1;
    assert(rt@.pending == old(rt)@.pending);
    assert(rt@.current == old(rt)@.current);
    if rt.batch_depth == 0 {
        flush_pending(rt)
    } else {
        Vec::new()
    }
}

// ── Internals ─────────────────────────────────────────────────────

/// Notifies `subscribers`: outside a batch returns the registered ones to
/// run now; inside a batch queues them and returns nothing.
pub fn notify(rt: &mut Runtime, subscribers: &HashSet<usize>) -> (run: Vec<usize>)
    requires
        old(rt)@.wf(),
    ensures
        final(rt)@.wf(),
        notified(old(rt)@, subscribers@, final(rt)@, run@),
{
    let count = rt.effect_count;
    let mut listed: Vec<usize> = Vec::new();
    let it = subscribers.iter();
    let ghost keys: Seq<usize> = it.remaining().unref();
    let ghost pred = |e: usize| e < count;
    assert(keys.to_set() == subscribers@);
    for id in iter: it
        invariant
            keys == iter.seq().unref(),
            keys.to_set() == subscribers@,
            keys.no_duplicates(),
            listed@.no_duplicates(),
            listed@.to_set() == keys.take(iter.index() as int).to_set().filter(pred),
            pred == (|e: usize| e < count),
            rt@ == old(rt)@,
            count == rt@.effect_count,
    {
        let e = *id;
        let ghost k = iter.index() as int;
        proof {
            assert(keys[k] == e);
            assert(keys.take(k + 1) == keys.take(k).push(e));
            assert(!keys.take(k).contains(e)) by {
                if keys.take(k).contains(e) {
                    let j = choose|j: int| 0 <= j < k && keys.take(k)[j] == e;
                    assert(keys[j] == keys[k]);
                }
            }
            keys.take(k).lemma_push_to_set_commute(e);
        }
        if e < count {
            let ghost old_listed = listed@;
            proof {
                assert(!listed@.contains(e)) by {
                    if listed@.contains(e) {
                        assert(listed@.to_set().contains(e));
                    }
                }
            }
            listed.push(e);
            proof {
                old_listed.lemma_push_to_set_commute(e);
                assert(listed@.to_set() =~= keys.take(k + 1).to_set().filter(pred));
            }
        } else {
            proof {
                assert(listed@.to_set() =~= keys.take(k + 1).to_set().filter(pred));
            }
        }
    }
    proof {
        assert(keys.take(keys.len() as int) == keys);
        assert(listed@.to_set() =~= rt@.live(subscribers@));
        assert forall|i: int| 0 <= i < listed@.len() implies #[trigger] listed@[i] < count by {
            assert(listed@.to_set().contains(listed@[i]));
        }
    }
    if rt.batch_depth > 0 {
        let ghost pending0 = rt.pending@;
        let ghost queued = listed@;
        rt.pending.append(&mut listed);
        proof {
            assert(rt.pending@.take(pending0.len() as int) =~= pending0);
            assert(rt.pending@.skip(pending0.len() as int) =~= queued);
            assert forall|i: int| 0 <= i < rt.pending@.len() implies #[trigger] rt.pending@[i] < count by {
                if i >= pending0.len() {
                    assert(rt.pending@[i] == queued[i - pending0.len()]);
                    assert(queued.to_set().contains(queued[i - pending0.len()]));
                } else {
                    assert(rt.pending@[i] == pending0[i]);
                    assert(old(rt)@.pending[i] == pending0[i]);
                }
            }
        }
        Vec::new()
    } else {
        listed
    }
}

/// The listing of first occurrences lists the same effects, each once.
pub proof fn lemma_first_occurrences(q: Seq<usize>)
    ensures
        first_occurrences(q).no_duplicates(),
        first_occurrences(q).to_set() == q.to_set(),
    decreases q.len(),
{
    if q.len() > 0 {
        let d = first_occurrences(q.drop_last());
        lemma_first_occurrences(q.drop_last());
        assert(q.to_set() =~= q.drop_last().to_set().insert(q.last())) by {
            assert(q == q.drop_last().push(q.last()));
        }
        if d.contains(q.last()) {
            assert(d.to_set().contains(q.last()));
            assert(q.to_set() =~= q.drop_last().to_set());
        } else {
            d.lemma_push_to_set_commute(q.last());
        }
    }
}

/// Takes the deferred effects and returns them, each once, in the order in
/// which they were first deferred.
pub fn flush_pending(rt: &mut Runtime) -> (run: Vec<usize>)
    requires
        old(rt)@.wf(),
    ensures
        final(rt)@ == (RuntimeModel { pending: Seq::empty(), ..old(rt)@ }),
        final(rt)@.wf(),
        run@ == first_occurrences(old(rt)@.pending),
{
    let mut pending: Vec<usize> = Vec::new();
    std::mem::swap(&mut pending, &mut rt.pending);
    let mut seen: HashSet<usize> = HashSet::new();
    let mut run: Vec<usize> = Vec::new();
    let n = pending.len();
    for i in 0..n
        invariant
            n == pending@.len(),
            run@ == first_occurrences(pending@.take(i as int)),
            seen@ == run@.to_set(),
    {
        let e = pending[i];
        proof {
            assert(pending@.take(i + 1).drop_last() == pending@.take(i as int));
            assert(pending@.take(i + 1).last() == e);
        }
        if seen.insert(e) {
            proof {
                assert(!run@.contains(e)) by {
                    if run@.contains(e) {
                        assert(run@.to_set().contains(e));
                    }
                }
            }
            let ghost old_run = run@;
            run.push(e);
            proof {
                old_run.lemma_push_to_set_commute(e);
            }
        } else {
            proof {
                assert(run@.to_set().contains(e));
                let j = choose|j: int| 0 <= j < run@.len() && run@[j] == e;
                assert(run@.contains(e));
            }
        }
    }
    proof {
        assert(pending@.take(n as int) == pending@);
    }
    run
}


// ── Laws ──────────────────────────────────────────────────────────

/// A read after a write gives back the value written, whether or not the
/// read is tracked, and writing leaves the subscribers as they were.
pub proof fn law_read_after_write<T>(s: SignalModel<T>, v: T, current: Option<usize>)
    ensures
        s.with_value(v).value == v,
        s.with_value(v).tracked_by(current).value == v,
        s.with_value(v).subscribers == s.subscribers,
{
}

/// A read made while no effect runs subscribes nothing; a read made while
/// effect `e` runs subscribes `e` and keeps every earlier subscriber.
pub proof fn law_tracking<T>(s: SignalModel<T>, e: usize)
    ensures
        s.tracked_by(None) == s,
        s.tracked_by(Some(e)).subscribers.contains(e),
        s.subscribers.subset_of(s.tracked_by(Some(e)).subscribers),
        s.tracked_by(Some(e)).value == s.value,
{
}

/// Outside a batch, a notification runs every registered subscriber exactly
/// once and nothing else, and defers nothing.
pub proof fn law_notify_runs_each_subscriber_once(
    before: RuntimeModel,
    subscribers: Set<usize>,
    after: RuntimeModel,
    run: Seq<usize>,
)
    requires
        before.batch_depth == 0,
        notified(before, subscribers, after, run),
    ensures
        after == before,
        forall|e: usize| run.contains(e) <==> subscribers.contains(e) && e < before.effect_count,
        forall|i: int, j: int| 0 <= i < run.len() && 0 <= j < run.len() && i != j ==> run[i] != run[j],
{
    assert forall|e: usize| run.contains(e) <==> subscribers.contains(e) && e < before.effect_count by {
        if run.contains(e) {
            assert(run.to_set().contains(e));
        }
        if subscribers.contains(e) && e < before.effect_count {
            assert(run.to_set().contains(e));
        }
    }
}

/// Inside a batch, a notification runs nothing and leaves every registered
/// subscriber deferred, behind the effects deferred before.
pub proof fn law_notify_in_batch_defers(
    before: RuntimeModel,
    subscribers: Set<usize>,
    after: RuntimeModel,
    run: Seq<usize>,
)
    requires
        before.batch_depth > 0,
        notified(before, subscribers, after, run),
    ensures
        run.len() == 0,
        after.pending.take(before.pending.len() as int) == before.pending,
        forall|e: usize| subscribers.contains(e) && e < before.effect_count ==> after.pending.contains(e),
{
    assert forall|e: usize| subscribers.contains(e) && e < before.effect_count implies after.pending.contains(e) by {
        let q = after.pending.skip(before.pending.len() as int);
        assert(q.to_set().contains(e));
        let k = choose|k: int| 0 <= k < q.len() && q[k] == e;
        assert(after.pending[before.pending.len() + k] == e);
    }
}

/// When the outermost batch closes, every effect deferred during it runs
/// exactly once, and nothing else runs.
pub proof fn law_batch_runs_each_deferred_once(before: RuntimeModel, after: RuntimeModel, run: Seq<usize>)
    requires
        before.batch_depth == 1,
        batch_closed(before, after, run),
    ensures
        after.batch_depth == 0,
        after.pending.len() == 0,
        forall|e: usize| run.contains(e) <==> before.pending.contains(e),
        run.no_duplicates(),
{
    lemma_first_occurrences(before.pending);
    assert forall|e: usize| run.contains(e) <==> before.pending.contains(e) by {
        if run.contains(e) {
            assert(run.to_set().contains(e));
        }
        if before.pending.contains(e) {
            assert(before.pending.to_set().contains(e));
        }
    }
}

/// Writing a signal that no effect has read runs nothing and defers
/// nothing, inside a batch or not.
pub proof fn law_unread_signal_write_runs_nothing(before: RuntimeModel, after: RuntimeModel, run: Seq<usize>)
    requires
        notified(before, Set::<usize>::empty(), after, run),
    ensures
        run.len() == 0,
        after.pending == before.pending,
{
    assert(before.live(Set::<usize>::empty()) =~= Set::<usize>::empty());
    if before.batch_depth > 0 {
        let n0 = before.pending.len() as int;
        let q = after.pending.skip(n0);
        if q.len() > 0 {
            assert(q.to_set().contains(q[0]));
        }
        assert(after.pending =~= after.pending.take(n0) + q);
    } else if run.len() > 0 {
        assert(run.to_set().contains(run[0]));
    }
}

/// The registered subscribers of the first `i` notifications, each taken
/// in the runtime state it was made in.
pub open spec fn notified_upto(states: Seq<RuntimeModel>, subs: Seq<Set<usize>>, i: int) -> Set<usize>
    decreases i,
{
    if i <= 0 {
        Set::empty()
    } else {
        notified_upto(states, subs, i - 1).union(states[i - 1].live(subs[i - 1]))
    }
}

/// The elements of a concatenation are those of its parts.
proof fn lemma_concat_to_set(a: Seq<usize>, b: Seq<usize>)
    ensures
        (a + b).to_set() == a.to_set().union(b.to_set()),
{
    assert forall|x: usize| #[trigger] (a + b).to_set().contains(x) <==> a.to_set().union(b.to_set()).contains(x) by {
        if (a + b).contains(x) {
            let i = choose|i: int| 0 <= i < (a + b).len() && (a + b)[i] == x;
            if i < a.len() {
                assert(a[i] == x);
                assert(a.contains(x));
            } else {
                assert(b[i - a.len()] == x);
                assert(b.contains(x));
            }
        }
        if a.contains(x) {
            let i = choose|i: int| 0 <= i < a.len() && a[i] == x;
            assert((a + b)[i] == x);
            assert((a + b).contains(x));
        }
        if b.contains(x) {
            let i = choose|i: int| 0 <= i < b.len() && b[i] == x;
            assert((a + b)[a.len() + i] == x);
            assert((a + b).contains(x));
        }
    }
    assert((a + b).to_set() =~= a.to_set().union(b.to_set()));
}

/// Through the first `i` notifications of a batch opened on `before`, the
/// batch stays open at one level deeper, no effect is registered, and the
/// queue holds what it held before and the registered subscribers notified.
proof fn lemma_batch_prefix(
    before: RuntimeModel,
    states: Seq<RuntimeModel>,
    subs: Seq<Set<usize>>,
    runs: Seq<Seq<usize>>,
    i: int,
)
    requires
        states.len() == subs.len() + 1,
        runs.len() == subs.len(),
        states[0] == batch_opened(before),
        forall|j: int| 0 <= j < subs.len() ==> notified(states[j], subs[j], #[trigger] states[j + 1], runs[j]),
        0 <= i <= subs.len(),
    ensures
        states[i].batch_depth == before.batch_depth + 1,
        states[i].effect_count == before.effect_count,
        states[i].pending.to_set() == before.pending.to_set().union(notified_upto(states, subs, i)),
        forall|j: int| 0 <= j < i ==> (#[trigger] runs[j]).len() == 0,
    decreases i,
{
    if i == 0 {
        assert(before.pending.to_set().union(Set::empty()) =~= before.pending.to_set());
    } else {
        lemma_batch_prefix(before, states, subs, runs, i - 1);
        let prev = states[i - 1];
        let next = states[i];
        let j = i - 1;
        assert(notified(states[j], subs[j], states[j + 1], runs[j]));
        let n0 = prev.pending.len() as int;
        assert(next.pending =~= next.pending.take(n0) + next.pending.skip(n0));
        lemma_concat_to_set(next.pending.take(n0), next.pending.skip(n0));
        assert(next.pending.to_set() =~= before.pending.to_set().union(notified_upto(states, subs, i)));
    }
}

/// A whole batch of writes: while the batch is open no write runs an
/// effect; when it closes, if it was the outermost one, every effect
/// deferred before it or notified by a write inside it runs exactly once
/// and the queue is empty; if it was nested, nothing runs yet.  The depth
/// is back where it was.
pub proof fn law_batch_of_writes(
    before: RuntimeModel,
    states: Seq<RuntimeModel>,
    subs: Seq<Set<usize>>,
    runs: Seq<Seq<usize>>,
    after: RuntimeModel,
    run: Seq<usize>,
)
    requires
        states.len() == subs.len() + 1,
        runs.len() == subs.len(),
        states[0] == batch_opened(before),
        forall|j: int| 0 <= j < subs.len() ==> notified(states[j], subs[j], #[trigger] states[j + 1], runs[j]),
        batch_closed(states[subs.len() as int], after, run),
    ensures
        forall|j: int| 0 <= j < runs.len() ==> (#[trigger] runs[j]).len() == 0,
        after.batch_depth == before.batch_depth,
        before.batch_depth == 0 ==> {
            &&& run.no_duplicates()
            &&& run.to_set() == before.pending.to_set().union(notified_upto(states, subs, subs.len() as int))
            &&& after.pending.len() == 0
        },
        before.batch_depth > 0 ==> run.len() == 0 && after.pending == states[subs.len() as int].pending,
{
    let k = subs.len() as int;
    lemma_batch_prefix(before, states, subs, runs, k);
    if before.batch_depth == 0 {
        lemma_first_occurrences(states[k].pending);
    }
}

/// Opening and closing a batch inside another batch changes nothing and
/// runs nothing.
pub proof fn law_nested_batch_is_inert(before: RuntimeModel, after: RuntimeModel, run: Seq<usize>)
    requires
        before.batch_depth > 0,
        batch_closed(batch_opened(before), after, run),
    ensures
        after == before,
        run.len() == 0,
{
}

/// An effect that read a signal while it ran runs again when the signal is
/// written outside a batch, and is deferred when it is written inside one.
pub proof fn law_dependency_reruns<T>(
    s: SignalModel<T>,
    e: usize,
    v: T,
    before: RuntimeModel,
    after: RuntimeModel,
    run: Seq<usize>,
)
    requires
        e < before.effect_count,
        notified(before, s.tracked_by(Some(e)).with_value(v).subscribers, after, run),
    ensures
        before.batch_depth == 0 ==> run.contains(e),
        before.batch_depth > 0 ==> after.pending.contains(e) && run.len() == 0,
{
    let subs = s.tracked_by(Some(e)).with_value(v).subscribers;
    assert(subs.contains(e));
    if before.batch_depth == 0 {
        law_notify_runs_each_subscriber_once(before, subs, after, run);
    } else {
        law_notify_in_batch_defers(before, subs, after, run);
    }
}

/// Ending a run restores the effect that was running when it began.
pub proof fn law_effect_run_restores(rt: RuntimeModel, id: usize)
    ensures
        (RuntimeModel { current: rt.current, ..RuntimeModel { current: Some(id), ..rt } }) == rt,
{
}

} // verus!
