use vstd::prelude::*;

use crate::event_model::{EventKind, kind_of};
use crate::event_router::{DeviceId, RoutedEvent, Tag};

verus! {

/// Whether a matching rule lets the event through or keeps it out.
#[derive(Debug, Clone, Copy, PartialEq, Eq, Structural)]
pub enum RuleAction {
    Include,
    Exclude,
}

/// One include/exclude rule of a subscriber's filter. A field left at
/// `None` matches anything; the first matching rule decides.
#[derive(Debug, Clone, Copy, PartialEq, Eq, Structural)]
pub struct FilterRule {
    pub action: RuleAction,
    pub device: Option<DeviceId>,
    pub kind: Option<EventKind>,
    pub tag: Option<Tag>,
}

/// Whether a rule matches the triple a routed event presents.
pub open spec fn rule_matches(r: FilterRule, source: DeviceId, kind: EventKind, tag: Tag) -> bool {
    &&& match r.device {
        Some(d) => d == source,
        None => true,
    }
    &&& match r.kind {
        Some(k) => k == kind,
        None => true,
    }
    &&& match r.tag {
        Some(t) => t == tag,
        None => true,
    }
}

/// The decision of the rules at or after position `i`: the first
/// matching rule decides, and an event no rule matches is received.
pub open spec fn filter_decision_from(
    rules: Seq<FilterRule>,
    i: int,
    source: DeviceId,
    kind: EventKind,
    tag: Tag,
) -> bool
    decreases rules.len() - i,
{
    if i < 0 || i >= rules.len() {
        true
    } else if rule_matches(rules[i], source, kind, tag) {
        rules[i].action == RuleAction::Include
    } else {
        filter_decision_from(rules, i + 1, source, kind, tag)
    }
}

/// Whether a filter accepts an event. An empty filter — a subscriber
/// that never sent one — accepts everything.
pub open spec fn filter_accepts(
    rules: Seq<FilterRule>,
    source: DeviceId,
    kind: EventKind,
    tag: Tag,
) -> bool {
    filter_decision_from(rules, 0, source, kind, tag)
}

/// A filter with no rules accepts every event.
pub proof fn lemma_empty_filter_accepts_all(source: DeviceId, kind: EventKind, tag: Tag)
    ensures
        filter_accepts(Seq::<FilterRule>::empty(), source, kind, tag),
{
}

/// A filter whose single rule excludes the `Suppressed` tag passes
/// exactly the `Propagate` events, whatever their device and kind.
pub proof fn lemma_exclude_suppressed_passes_propagate(source: DeviceId, kind: EventKind, tag: Tag)
    ensures
        filter_accepts(
            seq![
                (FilterRule {
                    action: RuleAction::Exclude,
                    device: None,
                    kind: None,
                    tag: Some(Tag::Suppressed),
                }),
            ],
            source,
            kind,
            tag,
        ) <==> tag == Tag::Propagate,
{
    let rule = FilterRule {
        action: RuleAction::Exclude,
        device: None,
        kind: None,
        tag: Some(Tag::Suppressed),
    };
    let rules = seq![rule];
    assert(rules[0] == rule);
    if tag != Tag::Suppressed {
        assert(!rule_matches(rules[0], source, kind, tag));
        assert(filter_decision_from(rules, 1, source, kind, tag));
    }
}

/// Evaluates a filter, agreeing with `filter_accepts`.
fn filter_accepts_exec(rules: &Vec<FilterRule>, source: DeviceId, kind: EventKind, tag: Tag) -> (r:
    bool)
    ensures
        r == filter_accepts(rules@, source, kind, tag),
{
    let mut i: usize = 0;
    while i < rules.len()
        invariant
            0 <= i <= rules@.len(),
            filter_accepts(rules@, source, kind, tag) == filter_decision_from(
                rules@,
                i as int,
                source,
                kind,
                tag,
            ),
        decreases rules@.len() - i,
    {
        let rule = &rules[i];
        let dev_ok = match rule.device {
            Some(d) => d == source,
            None => true,
        };
        let kind_ok = match rule.kind {
            Some(k) => k == kind,
            None => true,
        };
        let tag_ok = match rule.tag {
            Some(t) => t == tag,
            None => true,
        };
        if dev_ok && kind_ok && tag_ok {
            return matches!(rule.action, RuleAction::Include);
        }
        i += 1;
    }
    true
}

/// One remote subscriber: its filter, its bounded outbound queue
/// (oldest event first) and its backpressure bookkeeping.
pub struct Subscriber {
    pub id: u64,
    pub filter: Vec<FilterRule>,
    pub queue: Vec<RoutedEvent>,
    pub dropped: u64,
    pub consecutive_drops: u64,
    pub degraded: bool,
}

/// The mathematical shape of one subscriber.
pub struct SubscriberModel {
    pub id: u64,
    pub filter: Seq<FilterRule>,
    pub queue: Seq<RoutedEvent>,
    pub dropped: u64,
    pub consecutive_drops: u64,
    pub degraded: bool,
}

impl View for Subscriber {
    type V = SubscriberModel;

    open spec fn view(&self) -> SubscriberModel {
        SubscriberModel {
            id: self.id,
            filter: self.filter@,
            queue: self.queue@,
            dropped: self.dropped,
            consecutive_drops: self.consecutive_drops,
            degraded: self.degraded,
        }
    }
}

/// A counter that sticks at its ceiling instead of wrapping.
pub open spec fn sat_inc_spec(x: u64) -> u64 {
    if x == u64::MAX {
        x
    } else {
        (x + 1) as u64
    }
}

fn sat_inc(x: u64) -> (r: u64)
    ensures
        r == sat_inc_spec(x),
{
    if x == u64::MAX {
        x
    } else {
        x + 1
    }
}

/// What one delivery attempt does to one subscriber. A rejected event
/// leaves the subscriber alone. An accepted event enters the queue;
/// on overflow the oldest queued event is dropped for it, the drop
/// counters rise, and a long enough run of consecutive drops marks
/// the subscriber degraded. A delivery without a drop ends the run.
pub open spec fn offer_model(
    s: SubscriberModel,
    ev: RoutedEvent,
    cap: int,
    threshold: u64,
) -> SubscriberModel {
    if !filter_accepts(s.filter, ev.source, kind_of(ev.payload), ev.tag) {
        s
    } else if s.queue.len() < cap {
        SubscriberModel {
            id: s.id,
            filter: s.filter,
            queue: s.queue.push(ev),
            dropped: s.dropped,
            consecutive_drops: 0,
            degraded: s.degraded,
        }
    } else {
        let consec = sat_inc_spec(s.consecutive_drops);
        SubscriberModel {
            id: s.id,
            filter: s.filter,
            queue: s.queue.remove(0).push(ev),
            dropped: sat_inc_spec(s.dropped),
            consecutive_drops: consec,
            degraded: s.degraded || consec >= threshold,
        }
    }
}

/// Delivers one event to one subscriber, agreeing with `offer_model`.
fn offer(sub: &mut Subscriber, ev: RoutedEvent, cap: usize, threshold: u64)
    requires
        cap >= 1,
        old(sub)@.queue.len() <= cap as int,
    ensures
        final(sub)@ == offer_model(old(sub)@, ev, cap as int, threshold),
        final(sub)@.queue.len() <= cap as int,
{
    let accepted = filter_accepts_exec(&sub.filter, ev.source, ev.payload.kind(), ev.tag);
    if accepted {
        if sub.queue.len() < cap {
            sub.queue.push(ev);
            sub.consecutive_drops = 0;
        } else {
            sub.queue.remove(0);
            sub.queue.push(ev);
            sub.dropped = sat_inc(sub.dropped);
            sub.consecutive_drops = sat_inc(sub.consecutive_drops);
            if sub.consecutive_drops >= threshold {
                sub.degraded = true;
            }
        }
    }
}

/// The fan-out stage: at most one local sink, any number of remote
/// subscribers, each with an independent filter and queue. The local
/// sink alone enforces suppression; remote subscribers see suppressed
/// events unless their own filter opts out.
pub struct Dispatcher {
    pub has_local_sink: bool,
    pub sink_warnings: u64,
    pub queue_capacity: usize,
    pub degrade_threshold: u64,
    pub subscribers: Vec<Subscriber>,
}

/// The mathematical shape of the dispatcher.
pub struct DispatcherModel {
    pub has_local_sink: bool,
    pub sink_warnings: u64,
    pub queue_capacity: usize,
    pub degrade_threshold: u64,
    pub subscribers: Seq<SubscriberModel>,
}

impl View for Dispatcher {
    type V = DispatcherModel;

    open spec fn view(&self) -> DispatcherModel {
        DispatcherModel {
            has_local_sink: self.has_local_sink,
            sink_warnings: self.sink_warnings,
            queue_capacity: self.queue_capacity,
            degrade_threshold: self.degrade_threshold,
            subscribers: self.subscribers@.map_values(|s: Subscriber| s@),
        }
    }
}

/// What dispatching one event does to the subscriber set: every
/// subscriber is offered the event independently.
pub open spec fn dispatch_subs_model(
    subs: Seq<SubscriberModel>,
    ev: RoutedEvent,
    cap: int,
    threshold: u64,
) -> Seq<SubscriberModel> {
    subs.map_values(|s: SubscriberModel| offer_model(s, ev, cap, threshold))
}

/// A subscriber whose single rule excludes the `Suppressed` tag is
/// left untouched by every suppressed event, and — given room in its
/// queue — receives every propagated one: it sees exactly the
/// `Propagate` traffic.
pub proof fn lemma_exclude_suppressed_subscriber(
    s: SubscriberModel,
    ev: RoutedEvent,
    cap: int,
    threshold: u64,
)
    requires
        s.filter =~= seq![
            (FilterRule {
                action: RuleAction::Exclude,
                device: None,
                kind: None,
                tag: Some(Tag::Suppressed),
            }),
        ],
        s.queue.len() < cap,
    ensures
        ev.tag == Tag::Suppressed ==> offer_model(s, ev, cap, threshold) == s,
        ev.tag == Tag::Propagate ==> offer_model(s, ev, cap, threshold).queue == s.queue.push(ev),
{
    lemma_exclude_suppressed_passes_propagate(ev.source, kind_of(ev.payload), ev.tag);
}

/// A subscriber without a filter receives everything: given room in
/// its queue, every event enters it, whatever its device, kind or
/// tag.
pub proof fn lemma_no_filter_receives_everything(
    s: SubscriberModel,
    ev: RoutedEvent,
    cap: int,
    threshold: u64,
)
    requires
        s.filter =~= Seq::<FilterRule>::empty(),
        s.queue.len() < cap,
    ensures
        offer_model(s, ev, cap, threshold).queue == s.queue.push(ev),
{
    lemma_empty_filter_accepts_all(ev.source, kind_of(ev.payload), ev.tag);
}

/// Remote fan-out is blind to the local sink: two dispatchers that
/// agree on their subscribers and queue configuration hand those
/// subscribers identical events, however their local sinks differ —
/// present, absent, or refusing input. A stalled local sink costs
/// remote subscribers nothing beyond the bounded local wait.
pub proof fn lemma_local_sink_independence(d1: DispatcherModel, d2: DispatcherModel, ev: RoutedEvent)
    requires
        d1.subscribers == d2.subscribers,
        d1.queue_capacity == d2.queue_capacity,
        d1.degrade_threshold == d2.degrade_threshold,
    ensures
        dispatch_subs_model(d1.subscribers, ev, d1.queue_capacity as int, d1.degrade_threshold)
            == dispatch_subs_model(
            d2.subscribers,
            ev,
            d2.queue_capacity as int,
            d2.degrade_threshold,
        ),
{
}

/// The position of the subscriber with `id` at or after `i`, or -1.
pub open spec fn sub_idx_from(s: Seq<Subscriber>, id: u64, i: int) -> int
    decreases s.len() - i,
{
    if i < 0 || i >= s.len() {
        -1
    } else if s[i].id == id {
        i
    } else {
        sub_idx_from(s, id, i + 1)
    }
}

/// The position of the subscriber with `id`, or -1 when absent.
pub open spec fn sub_idx(s: Seq<Subscriber>, id: u64) -> int {
    sub_idx_from(s, id, 0)
}

/// What a subscriber index means: -1 exactly when no subscriber at or
/// after `i` carries the id, and otherwise a position that does.
proof fn lemma_sub_idx_props(s: Seq<Subscriber>, id: u64, i: int)
    requires
        0 <= i <= s.len(),
    ensures
        sub_idx_from(s, id, i) == -1 ==> forall|k: int|
            i <= k < s.len() ==> (#[trigger] s[k]).id != id,
        sub_idx_from(s, id, i) != -1 ==> i <= sub_idx_from(s, id, i) < s.len() && s[sub_idx_from(
            s,
            id,
            i,
        )].id == id,
    decreases s.len() - i,
{
    if i < s.len() {
        if s[i].id != id {
            lemma_sub_idx_props(s, id, i + 1);
        }
    }
}

/// Finds the subscriber with `id`, agreeing with `sub_idx`.
fn find_subscriber(s: &Vec<Subscriber>, id: u64) -> (r: Option<usize>)
    ensures
        match r {
            Some(i) => sub_idx(s@, id) == i && i < s@.len() && s@[i as int].id == id,
            None => sub_idx(s@, id) == -1,
        },
{
    let mut i: usize = 0;
    while i < s.len()
        invariant
            0 <= i <= s@.len(),
            sub_idx(s@, id) == sub_idx_from(s@, id, i as int),
        decreases s@.len() - i,
    {
        if s[i].id == id {
            return Some(i);
        }
        i += 1;
    }
    None
}

impl Dispatcher {
    /// Subscriber ids are unique, queues respect the configured bound,
    /// and the bound and the degrade threshold are meaningful.
    pub open spec fn wf(&self) -> bool {
        &&& self.queue_capacity >= 1
        &&& self.degrade_threshold >= 1
        &&& forall|i: int, j: int|
            0 <= i < j < self.subscribers@.len() ==> self.subscribers@[i].id
                != self.subscribers@[j].id
        &&& forall|i: int|
            0 <= i < self.subscribers@.len() ==> (#[trigger] self.subscribers@[i]).queue@.len()
                <= self.queue_capacity as int
    }

    /// A fresh dispatcher: no sink, no subscribers, clean counters.
    pub fn new(queue_capacity: usize, degrade_threshold: u64) -> (r: Dispatcher)
        requires
            queue_capacity >= 1,
            degrade_threshold >= 1,
        ensures
            r.wf(),
            r@.subscribers =~= Seq::<SubscriberModel>::empty(),
            !r.has_local_sink,
            r.sink_warnings == 0,
            r.queue_capacity == queue_capacity,
            r.degrade_threshold == degrade_threshold,
    {
        Dispatcher {
            has_local_sink: false,
            sink_warnings: 0,
            queue_capacity,
            degrade_threshold,
            subscribers: Vec::new(),
        }
    }

    /// Installs or removes the single local sink reference.
    pub fn set_local_sink(&mut self, present: bool)
        requires
            old(self).wf(),
        ensures
            final(self).wf(),
            *final(self) == (Dispatcher { has_local_sink: present, ..*old(self) }),
    {
        self.has_local_sink = present;
    }

    /// Fans one routed event out: offers it to every subscriber's
    /// queue independently, and says whether the local sink is owed a
    /// delivery — exactly when a sink is present and the event's tag
    /// propagates. Suppressed events never reach the local sink.
    pub fn dispatch(&mut self, ev: RoutedEvent) -> (deliver_local: bool)
        requires
            old(self).wf(),
        ensures
            final(self).wf(),
            deliver_local == (old(self).has_local_sink && ev.tag == Tag::Propagate),
            final(self)@.subscribers =~= dispatch_subs_model(
                old(self)@.subscribers,
                ev,
                old(self).queue_capacity as int,
                old(self).degrade_threshold,
            ),
            final(self).has_local_sink == old(self).has_local_sink,
            final(self).sink_warnings == old(self).sink_warnings,
            final(self).queue_capacity == old(self).queue_capacity,
            final(self).degrade_threshold == old(self).degrade_threshold,
    {
        let ghost subs0 = self.subscribers@;
        let cap = self.queue_capacity;
        let thr = self.degrade_threshold;
        let mut i: usize = 0;
        while i < self.subscribers.len()
            invariant
                0 <= i <= self.subscribers@.len(),
                self.subscribers@.len() == subs0.len(),
                cap == self.queue_capacity,
                thr == self.degrade_threshold,
                self.wf(),
                self.has_local_sink == old(self).has_local_sink,
                self.sink_warnings == old(self).sink_warnings,
                self.queue_capacity == old(self).queue_capacity,
                self.degrade_threshold == old(self).degrade_threshold,
                subs0 == old(self).subscribers@,
                forall|j: int|
                    0 <= j < i ==> (#[trigger] self.subscribers@[j])@ == offer_model(
                        subs0[j]@,
                        ev,
                        cap as int,
                        thr,
                    ),
                forall|j: int| i <= j < subs0.len() ==> self.subscribers@[j] == subs0[j],
            decreases self.subscribers@.len() - i,
        {
            proof {
                assert(self.subscribers@[i as int] == subs0[i as int]);
            }
            offer(&mut self.subscribers[i], ev, cap, thr);
            i += 1;
        }
        proof {
            assert(final(self)@.subscribers =~= dispatch_subs_model(
                old(self)@.subscribers,
                ev,
                old(self).queue_capacity as int,
                old(self).degrade_threshold,
            ));
        }
        self.has_local_sink && matches!(ev.tag, Tag::Propagate)
    }

    /// Records the outcome of one bounded-wait local delivery: a sink
    /// that did not accept within the budget costs that event for the
    /// sink only and raises the warning counter. Subscribers are
    /// untouched — the pipeline never stalls on a slow local consumer.
    pub fn record_local_delivery(&mut self, accepted: bool)
        requires
            old(self).wf(),
        ensures
            final(self).wf(),
            final(self).sink_warnings == if accepted {
                old(self).sink_warnings
            } else {
                sat_inc_spec(old(self).sink_warnings)
            },
            final(self).subscribers == old(self).subscribers,
            final(self).has_local_sink == old(self).has_local_sink,
            final(self).queue_capacity == old(self).queue_capacity,
            final(self).degrade_threshold == old(self).degrade_threshold,
    {
        if !accepted {
            self.sink_warnings = sat_inc(self.sink_warnings);
        }
    }

    /// Registers a remote subscriber at connect time. A subscriber
    /// arriving without a filter receives everything. Fails exactly
    /// when the id is already taken.
    pub fn add_subscriber(&mut self, id: u64, filter: Vec<FilterRule>) -> (r: bool)
        requires
            old(self).wf(),
        ensures
            final(self).wf(),
            r == (sub_idx(old(self).subscribers@, id) == -1),
            r ==> final(self)@.subscribers =~= old(self)@.subscribers.push(
                (SubscriberModel {
                    id,
                    filter: filter@,
                    queue: Seq::empty(),
                    dropped: 0,
                    consecutive_drops: 0,
                    degraded: false,
                }),
            ),
            !r ==> *final(self) == *old(self),
            final(self).has_local_sink == old(self).has_local_sink,
            final(self).sink_warnings == old(self).sink_warnings,
            final(self).queue_capacity == old(self).queue_capacity,
            final(self).degrade_threshold == old(self).degrade_threshold,
    {
        let ghost s0 = self.subscribers@;
        match find_subscriber(&self.subscribers, id) {
            Some(_) => false,
            None => {
                proof {
                    lemma_sub_idx_props(s0, id, 0);
                }
                let fresh = Subscriber {
                    id,
                    filter,
                    queue: Vec::new(),
                    dropped: 0,
                    consecutive_drops: 0,
                    degraded: false,
                };
                self.subscribers.push(fresh);
                true
            },
        }
    }

    /// Removes a subscriber at disconnect time; it receives nothing
    /// further. Fails exactly when the id is unknown.
    pub fn remove_subscriber(&mut self, id: u64) -> (r: bool)
        requires
            old(self).wf(),
        ensures
            final(self).wf(),
            r == (sub_idx(old(self).subscribers@, id) >= 0),
            r ==> final(self).subscribers@ == old(self).subscribers@.remove(
                sub_idx(old(self).subscribers@, id),
            ),
            !r ==> *final(self) == *old(self),
            final(self).has_local_sink == old(self).has_local_sink,
            final(self).sink_warnings == old(self).sink_warnings,
            final(self).queue_capacity == old(self).queue_capacity,
            final(self).degrade_threshold == old(self).degrade_threshold,
    {
        match find_subscriber(&self.subscribers, id) {
            Some(i) => {
                self.subscribers.remove(i);
                true
            },
            None => false,
        }
    }

    /// Replaces a subscriber's filter, effective for every subsequent
    /// event; queued events are unaffected. Fails exactly when the id
    /// is unknown.
    pub fn set_filter(&mut self, id: u64, filter: Vec<FilterRule>) -> (r: bool)
        requires
            old(self).wf(),
        ensures
            final(self).wf(),
            r == (sub_idx(old(self).subscribers@, id) >= 0),
            r ==> ({
                let i = sub_idx(old(self).subscribers@, id);
                &&& final(self).subscribers@.len() == old(self).subscribers@.len()
                &&& final(self).subscribers@[i]@ == (SubscriberModel {
                    filter: filter@,
                    ..old(self).subscribers@[i]@
                })
                &&& forall|j: int|
                    0 <= j < old(self).subscribers@.len() && j != i
                        ==> final(self).subscribers@[j] == old(self).subscribers@[j]
            }),
            !r ==> *final(self) == *old(self),
            final(self).has_local_sink == old(self).has_local_sink,
            final(self).sink_warnings == old(self).sink_warnings,
            final(self).queue_capacity == old(self).queue_capacity,
            final(self).degrade_threshold == old(self).degrade_threshold,
    {
        match find_subscriber(&self.subscribers, id) {
            Some(i) => {
                let sub = &mut self.subscribers[i];
                sub.filter = filter;
                true
            },
            None => false,
        }
    }

    /// Hands the transport the oldest queued event of one subscriber,
    /// or nothing when its queue is empty or the id is unknown.
    pub fn next_outbound(&mut self, id: u64) -> (r: Option<RoutedEvent>)
        requires
            old(self).wf(),
        ensures
            final(self).wf(),
            ({
                let i = sub_idx(old(self).subscribers@, id);
                if i >= 0 && old(self).subscribers@[i].queue@.len() > 0 {
                    &&& r == Some(old(self).subscribers@[i].queue@[0])
                    &&& final(self).subscribers@.len() == old(self).subscribers@.len()
                    &&& final(self).subscribers@[i]@ == (SubscriberModel {
                        queue: old(self).subscribers@[i].queue@.remove(0),
                        ..old(self).subscribers@[i]@
                    })
                    &&& forall|j: int|
                        0 <= j < old(self).subscribers@.len() && j != i
                            ==> final(self).subscribers@[j] == old(self).subscribers@[j]
                } else {
                    r is None && *final(self) == *old(self)
                }
            }),
            final(self).has_local_sink == old(self).has_local_sink,
            final(self).sink_warnings == old(self).sink_warnings,
            final(self).queue_capacity == old(self).queue_capacity,
            final(self).degrade_threshold == old(self).degrade_threshold,
    {
        match find_subscriber(&self.subscribers, id) {
            Some(i) => {
                if self.subscribers[i].queue.len() > 0 {
                    let sub = &mut self.subscribers[i];
                    Some(sub.queue.remove(0))
                } else {
                    None
                }
            },
            None => None,
        }
    }
}

} // verus!
