use vstd::prelude::*;

verus! {

/// Whether a key went down or came up.
#[derive(Clone, Copy, Debug, PartialEq, Eq, Structural)]
pub enum KeyState {
    Pressed,
    Released,
}

/// One raw occurrence delivered by the windowing layer.
#[derive(Clone, Copy, Debug, PartialEq, Eq, Structural)]
pub enum RawEvent {
    /// A key changed state; `key` is the host's key code, absent when the host could not name the key.
    Keyboard { state: KeyState, key: Option<u32> },
    /// Any other occurrence, identified by the host's event kind.
    Other { kind: u32 },
}

/// What is tracked of one key: whether it is held, and its transition in the current batch.
pub type KeyTrack = (bool, Option<bool>);

/// The event is a key event for the key with host code `code`.
pub open spec fn concerns_key(ev: RawEvent, code: u32) -> bool {
    match ev {
        RawEvent::Keyboard { key: Option::Some(c), .. } => c == code,
        _ => false,
    }
}

/// The event is an occurrence of the non-keyboard kind `kind`.
pub open spec fn is_signal(ev: RawEvent, kind: u32) -> bool {
    match ev {
        RawEvent::Other { kind: k } => k == kind,
        _ => false,
    }
}

/// Effect of one event on the key with host code `code`.
pub open spec fn key_step(code: u32, st: KeyTrack, ev: RawEvent) -> KeyTrack {
    if concerns_key(ev, code) {
        match ev {
            RawEvent::Keyboard { state: KeyState::Pressed, .. } => (
                true,
                if !st.0 && st.1 is None { Option::Some(true) } else { st.1 },
            ),
            _ => (false, Option::Some(false)),
        }
    } else {
        st
    }
}

/// Effect of a sequence of events, in delivery order, on the key with host code `code`.
pub open spec fn key_after(code: u32, st: KeyTrack, evs: Seq<RawEvent>) -> KeyTrack
    decreases evs.len(),
{
    if evs.len() == 0 {
        st
    } else {
        key_step(code, key_after(code, st, evs.drop_last()), evs.last())
    }
}

/// Held flag and transition of a key after a poll of `batch`, from its held flag before:
/// the transition starts out absent.
pub open spec fn key_poll(code: u32, held: bool, batch: Seq<RawEvent>) -> KeyTrack {
    key_after(code, (held, Option::None), batch)
}

/// The batch holds at least one occurrence of the kind `kind`.
pub open spec fn signal_seen(kind: u32, batch: Seq<RawEvent>) -> bool {
    exists|i: int| 0 <= i < batch.len() && #[trigger] is_signal(batch[i], kind)
}

/// Transitions observed in the most recent batch.
pub struct ImmediateEvents {
    keys: Vec<Option<bool>>,
    signals: Vec<bool>,
}

impl ImmediateEvents {
    /// Transition of each tracked key, by its index in the key table.
    pub closed spec fn key_view(&self) -> Seq<Option<bool>> {
        self.keys@
    }

    /// Whether each tracked signal occurred, by its index in the signal table.
    pub closed spec fn signal_view(&self) -> Seq<bool> {
        self.signals@
    }

    /// No transition for any of `key_count` keys, no occurrence of any of `signal_count` signals.
    pub fn new(key_count: usize, signal_count: usize) -> (r: ImmediateEvents)
        ensures
            r.key_view() == Seq::new(key_count as nat, |i: int| Option::<bool>::None),
            r.signal_view() == Seq::new(signal_count as nat, |i: int| false),
    {
        let mut keys: Vec<Option<bool>> = Vec::with_capacity(key_count);
        let mut i: usize = 0;
        while i < key_count
            invariant
                i <= key_count,
                keys@ == Seq::new(i as nat, |j: int| Option::<bool>::None),
            decreases key_count - i,
        {
            keys.push(Option::None);
            i = i + 1;
        }
        let mut signals: Vec<bool> = Vec::with_capacity(signal_count);
        let mut j: usize = 0;
        while j < signal_count
            invariant
                j <= signal_count,
                signals@ == Seq::new(j as nat, |k: int| false),
            decreases signal_count - j,
        {
            signals.push(false);
            j = j + 1;
        }
        ImmediateEvents { keys, signals }
    }

    /// Transition of the key at index `key` in this batch: `Some(false)` when it came up at
    /// least once, else `Some(true)` when it went down while not held, `None` otherwise or
    /// when no such key is tracked.
    pub fn key(&self, key: usize) -> (r: Option<bool>)
        ensures
            r == (if key < self.key_view().len() { self.key_view()[key as int] } else { Option::None }),
    {
        if key < self.keys.len() {
            self.keys[key]
        } else {
            Option::None
        }
    }

    /// Whether the signal at index `signal` occurred in this batch; false when no such signal is tracked.
    pub fn signal(&self, signal: usize) -> (r: bool)
        ensures
            r == (signal < self.signal_view().len() && self.signal_view()[signal as int]),
    {
        signal < self.signals.len() && self.signals[signal]
    }
}

/// The aggregator: a fixed table of tracked keys and signals, the held flag of each key,
/// and the transitions of the most recent poll.
pub struct Events {
    key_codes: Vec<u32>,
    signal_kinds: Vec<u32>,
    held: Vec<bool>,
    now: ImmediateEvents,
}

impl Events {
    /// Host key code of each tracked key, by index.
    pub closed spec fn key_codes_view(&self) -> Seq<u32> {
        self.key_codes@
    }

    /// Host event kind of each tracked signal, by index.
    pub closed spec fn signal_kinds_view(&self) -> Seq<u32> {
        self.signal_kinds@
    }

    /// Held flag of each tracked key, by index.
    pub closed spec fn held_view(&self) -> Seq<bool> {
        self.held@
    }

    /// Transitions of the most recent poll.
    pub closed spec fn now_view(&self) -> ImmediateEvents {
        self.now
    }

    /// Every per-key and per-signal table has one entry for each tracked key or signal.
    pub open spec fn wf(&self) -> bool {
        &&& self.held_view().len() == self.key_codes_view().len()
        &&& self.now_view().key_view().len() == self.key_codes_view().len()
        &&& self.now_view().signal_view().len() == self.signal_kinds_view().len()
    }

    /// Tracked state of the key at index `i`.
    pub open spec fn track(&self, i: int) -> KeyTrack {
        (self.held_view()[i], self.now_view().key_view()[i])
    }

    /// Tracks the keys whose host codes are `key_codes` and the signals whose host event kinds
    /// are `signal_kinds`, each by its index; no key is held and no transition is recorded.
    pub fn new(key_codes: Vec<u32>, signal_kinds: Vec<u32>) -> (r: Events)
        ensures
            r.wf(),
            r.key_codes_view() == key_codes@,
            r.signal_kinds_view() == signal_kinds@,
            r.held_view() == Seq::new(key_codes@.len(), |i: int| false),
            r.now_view().key_view() == Seq::new(key_codes@.len(), |i: int| Option::<bool>::None),
            r.now_view().signal_view() == Seq::new(signal_kinds@.len(), |i: int| false),
    {
        let now = ImmediateEvents::new(key_codes.len(), signal_kinds.len());
        let mut held: Vec<bool> = Vec::with_capacity(key_codes.len());
        let mut i: usize = 0;
        while i < key_codes.len()
            invariant
                i <= key_codes@.len(),
                held@ == Seq::new(i as nat, |j: int| false),
            decreases key_codes@.len() - i,
        {
            held.push(false);
            i = i + 1;
        }
        Events { key_codes, signal_kinds, held, now }
    }

    /// Folds one event into the held flags and the current transitions.
    fn apply(&mut self, ev: RawEvent)
        requires
            old(self).wf(),
        ensures
            final(self).wf(),
            final(self).key_codes_view() == old(self).key_codes_view(),
            final(self).signal_kinds_view() == old(self).signal_kinds_view(),
            forall|i: int|
                0 <= i < old(self).key_codes_view().len() ==> #[trigger] final(self).track(i)
                    == key_step(old(self).key_codes_view()[i], old(self).track(i), ev),
            forall|j: int|
                0 <= j < old(self).signal_kinds_view().len() ==> #[trigger] final(self).now_view().signal_view()[j]
                    == (old(self).now_view().signal_view()[j] || is_signal(ev, old(self).signal_kinds_view()[j])),
    {
        match ev {
            RawEvent::Keyboard { state, key: Option::Some(code) } => {
                let mut i: usize = 0;
                while i < self.key_codes.len()
                    invariant
                        old(self).wf(),
                        self.wf(),
                        ev == (RawEvent::Keyboard { state, key: Option::Some(code) }),
                        self.key_codes@ == old(self).key_codes@,
                        self.signal_kinds@ == old(self).signal_kinds@,
                        self.now.signals@ == old(self).now.signals@,
                        i <= self.key_codes@.len(),
                        forall|k: int| 0 <= k < i ==> #[trigger] self.track(k)
                            == key_step(self.key_codes@[k], old(self).track(k), ev),
                        forall|k: int| i <= k < self.key_codes@.len() ==> #[trigger] self.track(k)
                            == old(self).track(k),
                    decreases self.key_codes@.len() - i,
                {
                    let ghost before = *self;
                    if self.key_codes[i] == code {
                        match state {
                            KeyState::Pressed => {
                                if !self.held[i] && self.now.keys[i].is_none() {
                                    self.now.keys.set(i, Option::Some(true));
                                }
                                self.held.set(i, true);
                            },
                            KeyState::Released => {
                                self.now.keys.set(i, Option::Some(false));
                                self.held.set(i, false);
                            },
                        }
                    }
                    assert(self.track(i as int) == key_step(self.key_codes@[i as int], before.track(i as int), ev));
                    assert(forall|k: int| 0 <= k < self.key_codes@.len() && k != i ==> #[trigger] self.track(k)
                        == before.track(k));
                    i = i + 1;
                }
            },
            RawEvent::Keyboard { key: Option::None, .. } => {},
            RawEvent::Other { kind } => {
                let mut j: usize = 0;
                while j < self.signal_kinds.len()
                    invariant
                        old(self).wf(),
                        self.wf(),
                        ev == (RawEvent::Other { kind }),
                        self.key_codes@ == old(self).key_codes@,
                        self.signal_kinds@ == old(self).signal_kinds@,
                        self.held@ == old(self).held@,
                        self.now.keys@ == old(self).now.keys@,
                        j <= self.signal_kinds@.len(),
                        forall|k: int| 0 <= k < j ==> #[trigger] self.now.signals@[k]
                            == (old(self).now.signals@[k] || is_signal(ev, self.signal_kinds@[k])),
                        forall|k: int| j <= k < self.signal_kinds@.len() ==> #[trigger] self.now.signals@[k]
                            == old(self).now.signals@[k],
                    decreases self.signal_kinds@.len() - j,
                {
                    let ghost before = self.now.signals@;
                    if self.signal_kinds[j] == kind {
                        self.now.signals.set(j, true);
                    }
                    assert(self.now.signals@[j as int] == (before[j as int] || is_signal(ev, self.signal_kinds@[j as int])));
                    assert(forall|k: int| 0 <= k < self.signal_kinds@.len() && k != j ==> #[trigger] self.now.signals@[k]
                        == before[k]);
                    j = j + 1;
                }
            },
        }
    }

    /// Starts a new batch: clears every transition and signal flag, then folds the events of
    /// `batch` in delivery order. A key-down holds the key, and records `Some(true)` when the
    /// key was not held and no transition is recorded for it yet in this batch; a key-up
    /// records `Some(false)`, overwriting any earlier transition, and releases the key;
    /// an occurrence of a tracked signal sets its flag. Events for untracked keys or kinds
    /// are ignored.
    pub fn poll(&mut self, batch: &[RawEvent])
        requires
            old(self).wf(),
        ensures
            final(self).wf(),
            final(self).key_codes_view() == old(self).key_codes_view(),
            final(self).signal_kinds_view() == old(self).signal_kinds_view(),
            forall|i: int|
                0 <= i < old(self).key_codes_view().len() ==> #[trigger] final(self).track(i)
                    == key_poll(old(self).key_codes_view()[i], old(self).held_view()[i], batch@),
            forall|j: int|
                0 <= j < old(self).signal_kinds_view().len() ==> #[trigger] final(self).now_view().signal_view()[j]
                    == signal_seen(old(self).signal_kinds_view()[j], batch@),
    {
        self.now = ImmediateEvents::new(self.key_codes.len(), self.signal_kinds.len());
        let ghost start = *old(self);
        let mut b: usize = 0;
        while b < batch.len()
            invariant
                start == *old(self),
                start.wf(),
                self.wf(),
                self.key_codes@ == start.key_codes@,
                self.signal_kinds@ == start.signal_kinds@,
                b <= batch@.len(),
                forall|i: int| 0 <= i < self.key_codes@.len() ==> #[trigger] self.track(i)
                    == key_poll(self.key_codes@[i], start.held@[i], batch@.take(b as int)),
                forall|j: int| 0 <= j < self.signal_kinds@.len() ==> #[trigger] self.now.signals@[j]
                    == signal_seen(self.signal_kinds@[j], batch@.take(b as int)),
            decreases batch@.len() - b,
        {
            let ghost seen = batch@.take(b as int);
            let ghost next = batch@.take(b as int + 1);
            assert(next.drop_last() =~= seen);
            assert(next.last() == batch@[b as int]);
            let ghost pre = *self;
            self.apply(batch[b]);
            assert forall|j: int| 0 <= j < self.signal_kinds@.len() implies
                #[trigger] self.now.signals@[j] == signal_seen(self.signal_kinds@[j], next) by {
                let kind = self.signal_kinds@[j];
                assert(self.now_view().signal_view()[j] == (pre.now_view().signal_view()[j]
                    || is_signal(batch@[b as int], kind)));
                if signal_seen(kind, seen) {
                    let w = choose|w: int| 0 <= w < seen.len() && #[trigger] is_signal(seen[w], kind);
                    assert(is_signal(next[w], kind));
                }
                if is_signal(batch@[b as int], kind) {
                    assert(is_signal(next[b as int], kind));
                }
                if signal_seen(kind, next) {
                    let w = choose|w: int| 0 <= w < next.len() && #[trigger] is_signal(next[w], kind);
                    if w < b {
                        assert(is_signal(seen[w], kind));
                    }
                }
            }
            b = b + 1;
        }
        assert(batch@.take(batch@.len() as int) =~= batch@);
    }

    /// Whether the key at index `key` is currently held; false when no such key is tracked.
    pub fn is_held(&self, key: usize) -> (r: bool)
        requires
            self.wf(),
        ensures
            r == (key < self.key_codes_view().len() && self.held_view()[key as int]),
    {
        key < self.held.len() && self.held[key]
    }

    /// Transitions of the most recent poll.
    pub fn now(&self) -> (r: &ImmediateEvents)
        ensures
            *r == self.now_view(),
    {
        &self.now
    }

    /// Number of tracked keys.
    pub fn key_count(&self) -> (r: usize)
        ensures
            r == self.key_codes_view().len(),
    {
        self.key_codes.len()
    }

    /// Number of tracked signals.
    pub fn signal_count(&self) -> (r: usize)
        ensures
            r == self.signal_kinds_view().len(),
    {
        self.signal_kinds.len()
    }
}

/// A key-down event for the key with host code `code`.
pub open spec fn press(code: u32) -> RawEvent {
    RawEvent::Keyboard { state: KeyState::Pressed, key: Option::Some(code) }
}

/// A key-up event for the key with host code `code`.
pub open spec fn release(code: u32) -> RawEvent {
    RawEvent::Keyboard { state: KeyState::Released, key: Option::Some(code) }
}

/// No event of `evs` is for the key with host code `code`.
pub open spec fn untouched(code: u32, evs: Seq<RawEvent>) -> bool {
    forall|i: int| 0 <= i < evs.len() ==> !#[trigger] concerns_key(evs[i], code)
}

/// Folding two sequences one after the other is folding their concatenation.
pub proof fn lemma_key_after_concat(code: u32, st: KeyTrack, a: Seq<RawEvent>, b: Seq<RawEvent>)
    ensures
        key_after(code, st, a + b) == key_after(code, key_after(code, st, a), b),
    decreases b.len(),
{
    if b.len() > 0 {
        assert((a + b).drop_last() =~= a + b.drop_last());
        assert((a + b).last() == b.last());
        lemma_key_after_concat(code, st, a, b.drop_last());
    }
}

/// Events for other keys leave a key's tracked state as it was.
pub proof fn lemma_key_after_untouched(code: u32, st: KeyTrack, evs: Seq<RawEvent>)
    requires
        untouched(code, evs),
    ensures
        key_after(code, st, evs) == st,
    decreases evs.len(),
{
    if evs.len() > 0 {
        assert(!concerns_key(evs[evs.len() - 1], code));
        assert(untouched(code, evs.drop_last()));
        lemma_key_after_untouched(code, st, evs.drop_last());
    }
}

/// Folding `before`, then one event `ev`, then `after` that does not touch the key.
proof fn lemma_key_after_around(
    code: u32,
    st: KeyTrack,
    before: Seq<RawEvent>,
    ev: RawEvent,
    after: Seq<RawEvent>,
)
    requires
        untouched(code, after),
    ensures
        key_after(code, st, before + seq![ev] + after)
            == key_step(code, key_after(code, st, before), ev),
{
    lemma_key_after_concat(code, st, before + seq![ev], after);
    lemma_key_after_untouched(code, key_after(code, st, before + seq![ev]), after);
    lemma_key_after_concat(code, st, before, seq![ev]);
    let mid = key_after(code, st, before);
    assert(seq![ev].drop_last() =~= Seq::<RawEvent>::empty());
    assert(key_after(code, mid, Seq::<RawEvent>::empty()) == mid);
    assert(key_after(code, mid, seq![ev]) == key_step(code, mid, ev));
}

/// A poll of a batch that holds no event for a key leaves the key's held flag as it was
/// and records no transition for it.
pub proof fn untouched_key_keeps_state(code: u32, held: bool, batch: Seq<RawEvent>)
    requires
        untouched(code, batch),
    ensures
        key_poll(code, held, batch) == (held, Option::<bool>::None),
{
    lemma_key_after_untouched(code, (held, Option::None), batch);
}

/// When a key is not held and the only event for it in a batch is a key-down, the poll
/// holds the key and records `Some(true)`.
pub proof fn press_of_released_key(code: u32, before: Seq<RawEvent>, after: Seq<RawEvent>)
    requires
        untouched(code, before),
        untouched(code, after),
    ensures
        key_poll(code, false, before + seq![press(code)] + after) == (true, Option::Some(true)),
{
    lemma_key_after_around(code, (false, Option::None), before, press(code), after);
    lemma_key_after_untouched(code, (false, Option::None), before);
}

/// When a key is held and the only event for it in a batch is a key-down, the key stays
/// held and no transition is recorded.
pub proof fn press_of_held_key(code: u32, before: Seq<RawEvent>, after: Seq<RawEvent>)
    requires
        untouched(code, before),
        untouched(code, after),
    ensures
        key_poll(code, true, before + seq![press(code)] + after) == (true, Option::<bool>::None),
{
    lemma_key_after_around(code, (true, Option::None), before, press(code), after);
    lemma_key_after_untouched(code, (true, Option::None), before);
}

/// When the last event for a key in a batch is a key-up, the poll releases the key and
/// records `Some(false)`, whatever came before and whether or not the key was held.
pub proof fn release_of_key(code: u32, held: bool, before: Seq<RawEvent>, after: Seq<RawEvent>)
    requires
        untouched(code, after),
    ensures
        key_poll(code, held, before + seq![release(code)] + after) == (false, Option::Some(false)),
{
    lemma_key_after_around(code, (held, Option::None), before, release(code), after);
}

/// A key-down immediately followed by a key-up of the same key, with no later event for
/// it, leaves the key released with transition `Some(false)`: the last event wins.
pub proof fn press_then_release(code: u32, held: bool, before: Seq<RawEvent>, after: Seq<RawEvent>)
    requires
        untouched(code, after),
    ensures
        key_poll(code, held, before + seq![press(code), release(code)] + after)
            == (false, Option::Some(false)),
{
    assert(before + seq![press(code), release(code)] + after
        =~= (before + seq![press(code)]) + seq![release(code)] + after);
    release_of_key(code, held, before + seq![press(code)], after);
}

/// A poll of an empty batch records no transition and no signal, whatever the previous poll
/// recorded, and keeps every held flag.
pub proof fn empty_batch_clears(code: u32, kind: u32, held: bool)
    ensures
        key_poll(code, held, Seq::<RawEvent>::empty()) == (held, Option::<bool>::None),
        !signal_seen(kind, Seq::<RawEvent>::empty()),
{
}

/// A key whose transition is `Some(true)` after a poll is held.
pub proof fn pressed_transition_means_held(code: u32, held: bool, batch: Seq<RawEvent>)
    ensures
        key_poll(code, held, batch).1 == Option::Some(true) ==> key_poll(code, held, batch).0,
    decreases batch.len(),
{
    if batch.len() > 0 {
        pressed_transition_means_held(code, held, batch.drop_last());
    }
}

/// Once `Some(false)` is recorded for a key, later events of the batch keep it.
proof fn lemma_release_sticks(code: u32, st: KeyTrack, evs: Seq<RawEvent>)
    requires
        st.1 == Option::Some(false),
    ensures
        key_after(code, st, evs).1 == Option::Some(false),
    decreases evs.len(),
{
    if evs.len() > 0 {
        lemma_release_sticks(code, st, evs.drop_last());
    }
}

/// A poll in which a key-up for a key is seen records `Some(false)` for it, whatever events
/// come before or after and whether or not the key was held.
pub proof fn release_seen_in_poll(code: u32, held: bool, before: Seq<RawEvent>, after: Seq<RawEvent>)
    ensures
        key_poll(code, held, before + seq![release(code)] + after).1 == Option::Some(false),
{
    let st = (held, Option::<bool>::None);
    lemma_key_after_concat(code, st, before + seq![release(code)], after);
    lemma_key_after_concat(code, st, before, seq![release(code)]);
    let mid = key_after(code, st, before);
    assert(seq![release(code)].drop_last() =~= Seq::<RawEvent>::empty());
    assert(key_after(code, mid, Seq::<RawEvent>::empty()) == mid);
    assert(key_after(code, mid, seq![release(code)]) == key_step(code, mid, release(code)));
    lemma_release_sticks(code, key_after(code, st, before + seq![release(code)]), after);
}

/// Every event of `evs` for the key with host code `code` is a key-down.
pub open spec fn only_presses(code: u32, evs: Seq<RawEvent>) -> bool {
    forall|i: int| 0 <= i < evs.len() && #[trigger] concerns_key(evs[i], code) ==> evs[i] == press(code)
}

/// When a key is held and every event for it in a batch is a key-down, however many, the key
/// stays held and no transition is recorded: a held key is never triggered again.
pub proof fn presses_of_held_key(code: u32, batch: Seq<RawEvent>)
    requires
        only_presses(code, batch),
    ensures
        key_poll(code, true, batch) == (true, Option::<bool>::None),
    decreases batch.len(),
{
    if batch.len() > 0 {
        let i = batch.len() - 1;
        assert(concerns_key(batch[i], code) ==> batch[i] == press(code));
        assert(only_presses(code, batch.drop_last())) by {
            assert forall|k: int| 0 <= k < batch.drop_last().len() && #[trigger] concerns_key(
                batch.drop_last()[k],
                code,
            ) implies batch.drop_last()[k] == press(code) by {
                assert(batch.drop_last()[k] == batch[k]);
            }
        }
        presses_of_held_key(code, batch.drop_last());
    }
}

} // verus!
