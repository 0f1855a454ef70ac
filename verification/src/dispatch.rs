use vstd::prelude::*;
use crate::bus::EventBus;
use crate::frame::{text_frame, text_message};
use warp::ws::Message;
use crate::registry::{
    ids_of, lemma_active_until_removed, lemma_register_keeps_wf, lemma_remove_keeps_wf,
    lemma_retired_forever, Connection, Registry, RegistryModel,
};

verus! {

/// What a delivery pass is, mathematically: the payload, the connections of
/// the snapshot in their order, and how many of them have had their one send
/// attempt.
pub struct PassModel<C> {
    pub message: Seq<char>,
    pub targets: Seq<Connection<C>>,
    pub attempted: nat,
}

impl<C> PassModel<C> {
    /// The identifiers of the snapshot, in its order.
    pub open spec fn target_ids(self) -> Seq<u64> {
        ids_of(self.targets)
    }

    /// The identifiers that have had their send attempt, in the order of the
    /// attempts.
    pub open spec fn attempted_ids(self) -> Seq<u64> {
        self.target_ids().take(self.attempted as int)
    }

    /// No more attempts than targets, and no connection is a target twice.
    pub open spec fn wf(self) -> bool {
        &&& self.attempted <= self.targets.len()
        &&& self.target_ids().no_duplicates()
    }

    /// Every target has had its attempt.
    pub open spec fn done(self) -> bool {
        self.attempted >= self.targets.len()
    }

    /// Every target got its identifier from the registry `m`, or from an
    /// earlier state of it.
    pub open spec fn drawn_from(self, m: RegistryModel<C>) -> bool {
        forall|i: int|
            0 <= i < self.target_ids().len() ==> #[trigger] self.target_ids()[i] < m.issued
    }

    /// The pass after the send attempt on its next target.
    pub open spec fn after_attempt(self) -> PassModel<C> {
        PassModel { attempted: self.attempted + 1, ..self }
    }
}

/// The registry after a send attempt on the connection `id`: a failed send
/// removes the connection, a successful one changes nothing.
pub open spec fn after_outcome<C>(
    m: RegistryModel<C>,
    id: u64,
    delivered: bool,
) -> RegistryModel<C> {
    if delivered {
        m
    } else {
        m.after_remove(id)
    }
}

/// The registry after a whole pass over the targets `ids`, in which the send
/// to `ids[i]` went as `outcomes[i]` says and nothing else touched the
/// registry.
pub open spec fn after_pass<C>(
    m: RegistryModel<C>,
    ids: Seq<u64>,
    outcomes: Seq<bool>,
) -> RegistryModel<C>
    recommends
        ids.len() == outcomes.len(),
    decreases ids.len(),
{
    if ids.len() == 0 || outcomes.len() == 0 {
        m
    } else {
        after_pass(
            after_outcome(m, ids[0], outcomes[0]),
            ids.drop_first(),
            outcomes.drop_first(),
        )
    }
}

/// The send to `id` failed in the pass over `ids` with these outcomes.
pub open spec fn failed_in(ids: Seq<u64>, outcomes: Seq<bool>, id: u64) -> bool {
    exists|i: int|
        0 <= i < ids.len() && i < outcomes.len() && #[trigger] ids[i] == id && !outcomes[i]
}

/// The test that a connection passes when its send did not fail in the pass
/// over `ids` with these outcomes.
pub open spec fn stays<C>(ids: Seq<u64>, outcomes: Seq<bool>) -> spec_fn(Connection<C>) -> bool {
    |c: Connection<C>| !failed_in(ids, outcomes, c.id)
}

/// One pass of the dispatch loop over a snapshot of the registry: one
/// message, one send attempt for each connection of the snapshot.
pub struct DispatchPass<C> {
    message: String,
    targets: Vec<Connection<C>>,
    cursor: usize,
}

impl<C> View for DispatchPass<C> {
    type V = PassModel<C>;

    closed spec fn view(&self) -> PassModel<C> {
        PassModel { message: self.message@, targets: self.targets@, attempted: self.cursor as nat }
    }
}

impl<C> DispatchPass<C> {
    /// The pass is well formed when its model is.
    pub open spec fn wf(&self) -> bool {
        self@.wf()
    }

    /// The payload that every target is sent.
    pub fn payload(&self) -> (p: &str)
        ensures
            p@ == self@.message,
    {
        self.message.as_str()
    }

    /// The payload as the WebSocket text frame that is sent to a target.
    pub fn frame(&self) -> (f: Message)
        ensures
            f == text_message(self@.message),
    {
        text_frame(self.message.as_str())
    }

    /// Whether every target has had its send attempt.
    pub fn is_done(&self) -> (b: bool)
        ensures
            b == self@.done(),
    {
        self.cursor >= self.targets.len()
    }

    /// The connection whose send attempt is due, if the pass is not done.
    pub fn next_target(&self) -> (target: Option<&Connection<C>>)
        ensures
            self@.done() ==> target.is_none(),
            !self@.done() ==> target == Some(&self@.targets[self@.attempted as int]),
    {
        if self.cursor < self.targets.len() {
            Some(&self.targets[self.cursor])
        } else {
            None
        }
    }

    /// Takes note of how the send to the due target went. A failed send takes
    /// the connection out of `registry` at once; the pass then goes on to the
    /// next target either way.
    pub fn record(&mut self, registry: &mut Registry<C>, delivered: bool)
        requires
            old(self).wf(),
            !old(self)@.done(),
            old(registry).wf(),
            old(self)@.drawn_from(old(registry)@),
        ensures
            final(self)@ == old(self)@.after_attempt(),
            final(self).wf(),
            final(registry)@ == after_outcome(
                old(registry)@,
                old(self)@.target_ids()[old(self)@.attempted as int],
                delivered,
            ),
            final(registry).wf(),
            final(self)@.drawn_from(final(registry)@),
            !delivered ==> final(registry)@.retired(
                old(self)@.target_ids()[old(self)@.attempted as int],
            ),
    {
        let total: usize = self.targets.len();
        let id: u64 = self.targets[self.cursor].id;
        proof {
            assert(self.cursor < total);
            assert(self@.target_ids()[self.cursor as int] == id);
            lemma_remove_keeps_wf(registry@, id);
        }
        if !delivered {
            registry.remove(id);
        }
        self.cursor = self.cursor + 1;
    }
}

impl<C: Clone> DispatchPass<C> {
    /// Starts the pass for `message`: its targets are the connections that
    /// are active in `registry` now, in registration order.
    pub fn begin(registry: &Registry<C>, message: String) -> (pass: Self)
        requires
            registry.wf(),
        ensures
            pass@.message == message@,
            pass@.target_ids() == registry@.ids(),
            forall|i: int|
                0 <= i < pass@.targets.len() ==> cloned(
                    registry@.entries[i].sender,
                    #[trigger] pass@.targets[i].sender,
                ),
            pass@.attempted == 0,
            pass.wf(),
            pass@.drawn_from(registry@),
    {
        let targets = registry.snapshot();
        DispatchPass { message, targets, cursor: 0 }
    }
}

/// Takes the oldest message off `bus`, if there is one, and starts its pass
/// over the connections that are active in `registry` at that moment.
pub fn next_pass<C: Clone>(bus: &mut EventBus, registry: &Registry<C>) -> (pass: Option<
    DispatchPass<C>,
>)
    requires
        registry.wf(),
    ensures
        old(bus)@.len() == 0 ==> pass.is_none() && final(bus)@ == old(bus)@,
        old(bus)@.len() > 0 ==> {
            &&& pass.is_some()
            &&& final(bus)@ == old(bus)@.drop_first()
            &&& pass.unwrap()@.message == old(bus)@[0]@
            &&& pass.unwrap()@.target_ids() == registry@.ids()
            &&& forall|i: int|
                0 <= i < pass.unwrap()@.targets.len() ==> cloned(
                    registry@.entries[i].sender,
                    #[trigger] pass.unwrap()@.targets[i].sender,
                )
            &&& pass.unwrap()@.attempted == 0
            &&& pass.unwrap().wf()
            &&& pass.unwrap()@.drawn_from(registry@)
        },
{
    match bus.next_message() {
        Some(message) => Some(DispatchPass::begin(registry, message)),
        None => None,
    }
}

/// A finished pass has attempted exactly the connections that were active
/// when its snapshot was taken, each of them once, in the snapshot's order.
pub proof fn lemma_pass_reaches_each_once<C>(m: RegistryModel<C>, p: PassModel<C>)
    requires
        m.wf(),
        p.wf(),
        p.target_ids() == m.ids(),
        p.done(),
    ensures
        p.attempted_ids() == m.ids(),
        p.attempted_ids().no_duplicates(),
        forall|id: u64| m.contains(id) <==> p.attempted_ids().contains(id),
{
    assert(p.attempted_ids() =~= p.target_ids());
}

/// While a pass runs, no connection is attempted twice: the attempts so far
/// are distinct, and the due target is not among them.
pub proof fn lemma_no_second_attempt<C>(p: PassModel<C>)
    requires
        p.wf(),
        !p.done(),
    ensures
        p.attempted_ids().no_duplicates(),
        !p.attempted_ids().contains(p.target_ids()[p.attempted as int]),
        p.after_attempt().attempted_ids() == p.attempted_ids().push(
            p.target_ids()[p.attempted as int],
        ),
{
    let due = p.target_ids()[p.attempted as int];
    if p.attempted_ids().contains(due) {
        let i = choose|i: int| 0 <= i < p.attempted_ids().len() && p.attempted_ids()[i] == due;
        assert(p.target_ids()[i] == due);
    }
    assert(p.after_attempt().attempted_ids() =~= p.attempted_ids().push(due));
}

/// After a whole pass, the registered connections are those that were
/// registered before it and whose send did not fail; the pass hands out no
/// identifier.
pub proof fn lemma_pass_prunes_failed<C>(m: RegistryModel<C>, ids: Seq<u64>, outcomes: Seq<bool>)
    requires
        m.wf(),
        ids.len() == outcomes.len(),
    ensures
        after_pass(m, ids, outcomes).wf(),
        after_pass(m, ids, outcomes).issued == m.issued,
        forall|id: u64|
            after_pass(m, ids, outcomes).contains(id) <==> m.contains(id) && !failed_in(
                ids,
                outcomes,
                id,
            ),
    decreases ids.len(),
{
    if ids.len() > 0 {
        let first = after_outcome(m, ids[0], outcomes[0]);
        let rest = ids.drop_first();
        let rest_outcomes = outcomes.drop_first();
        lemma_remove_keeps_wf(m, ids[0]);
        lemma_pass_prunes_failed(first, rest, rest_outcomes);
        let end = after_pass(m, ids, outcomes);
        assert(end == after_pass(first, rest, rest_outcomes));
        assert forall|id: u64| end.contains(id) <==> m.contains(id) && !failed_in(
            ids,
            outcomes,
            id,
        ) by {
            if failed_in(ids, outcomes, id) {
                let i = choose|i: int|
                    0 <= i < ids.len() && i < outcomes.len() && #[trigger] ids[i] == id
                        && !outcomes[i];
                if i > 0 {
                    assert(rest[i - 1] == id && !rest_outcomes[i - 1]);
                    assert(failed_in(rest, rest_outcomes, id));
                }
            }
            if failed_in(rest, rest_outcomes, id) {
                let i = choose|i: int|
                    0 <= i < rest.len() && i < rest_outcomes.len() && #[trigger] rest[i] == id
                        && !rest_outcomes[i];
                assert(ids[i + 1] == id && !outcomes[i + 1]);
            }
            if ids[0] == id && !outcomes[0] {
                assert(failed_in(ids, outcomes, id));
            }
        }
    }
}

/// Filtering a sequence with one more item filters the item on its own.
proof fn lemma_filter_push<T>(s: Seq<T>, x: T, p: spec_fn(T) -> bool)
    ensures
        s.push(x).filter(p) == if p(x) {
            s.filter(p).push(x)
        } else {
            s.filter(p)
        },
{
    reveal(Seq::filter);
    assert(s.push(x).drop_last() =~= s);
}

/// A test that every item passes keeps the whole sequence.
proof fn lemma_filter_all<T>(s: Seq<T>, p: spec_fn(T) -> bool)
    requires
        forall|i: int| 0 <= i < s.len() ==> p(#[trigger] s[i]),
    ensures
        s.filter(p) == s,
    decreases s.len(),
{
    reveal(Seq::filter);
    if s.len() > 0 {
        lemma_filter_all(s.drop_last(), p);
        assert(s.drop_last().push(s.last()) =~= s);
    }
}

/// Filtering twice is filtering once with both tests.
proof fn lemma_filter_twice<T>(
    s: Seq<T>,
    p: spec_fn(T) -> bool,
    q: spec_fn(T) -> bool,
    both: spec_fn(T) -> bool,
)
    requires
        forall|x: T| #[trigger] both(x) == (p(x) && q(x)),
    ensures
        s.filter(p).filter(q) == s.filter(both),
    decreases s.len(),
{
    reveal(Seq::filter);
    if s.len() > 0 {
        lemma_filter_twice(s.drop_last(), p, q, both);
        if p(s.last()) {
            lemma_filter_push(s.drop_last().filter(p), s.last(), q);
        }
    }
}

/// Where identifiers are unique, keeping all but `id` takes out the one
/// entry that carries it.
proof fn lemma_filter_drops_one<C>(
    e: Seq<Connection<C>>,
    id: u64,
    k: int,
    p: spec_fn(Connection<C>) -> bool,
)
    requires
        ids_of(e).no_duplicates(),
        0 <= k < e.len(),
        e[k].id == id,
        forall|c: Connection<C>| #[trigger] p(c) == (c.id != id),
    ensures
        e.filter(p) == e.remove(k),
    decreases e.len(),
{
    reveal(Seq::filter);
    let head = e.drop_last();
    let last = e.len() - 1;
    assert(ids_of(e)[k] == id);
    assert forall|i: int| 0 <= i < head.len() implies ids_of(head)[i] == ids_of(e)[i] by {}
    if k == last {
        assert forall|i: int| 0 <= i < head.len() implies p(#[trigger] head[i]) by {
            assert(ids_of(e)[i] != ids_of(e)[k]);
        }
        lemma_filter_all(head, p);
        assert(e.remove(k) =~= head);
    } else {
        assert(ids_of(head).no_duplicates());
        lemma_filter_drops_one(head, id, k, p);
        assert(ids_of(e)[last] != ids_of(e)[k]);
        assert(head.remove(k).push(e.last()) =~= e.remove(k));
    }
}

/// After a whole pass, the registry holds the connections that it held
/// before and whose send did not fail, in the order that they had.
pub proof fn lemma_pass_keeps_the_rest<C>(m: RegistryModel<C>, ids: Seq<u64>, outcomes: Seq<bool>)
    requires
        m.wf(),
        ids.len() == outcomes.len(),
    ensures
        after_pass(m, ids, outcomes).entries == m.entries.filter(stays(ids, outcomes)),
    decreases ids.len(),
{
    let stay = stays::<C>(ids, outcomes);
    if ids.len() == 0 {
        lemma_filter_all(m.entries, stay);
    } else {
        let first = after_outcome(m, ids[0], outcomes[0]);
        let rest = ids.drop_first();
        let rest_outcomes = outcomes.drop_first();
        let here = |c: Connection<C>| outcomes[0] || c.id != ids[0];
        let later = stays::<C>(rest, rest_outcomes);
        lemma_remove_keeps_wf(m, ids[0]);
        lemma_pass_keeps_the_rest(first, rest, rest_outcomes);
        assert(first.entries == m.entries.filter(here)) by {
            if outcomes[0] || !m.contains(ids[0]) {
                assert forall|i: int| 0 <= i < m.entries.len() implies here(
                    #[trigger] m.entries[i],
                ) by {
                    assert(m.ids()[i] == m.entries[i].id);
                }
                lemma_filter_all(m.entries, here);
            } else {
                let k = m.ids().index_of(ids[0]);
                assert(m.ids()[k] == ids[0]);
                lemma_filter_drops_one(m.entries, ids[0], k, here);
            }
        }
        assert forall|c: Connection<C>| #[trigger] stay(c) == (here(c) && later(c)) by {
            let id = c.id;
            if failed_in(ids, outcomes, id) {
                let i = choose|i: int|
                    0 <= i < ids.len() && i < outcomes.len() && #[trigger] ids[i] == id
                        && !outcomes[i];
                if i > 0 {
                    assert(rest[i - 1] == id && !rest_outcomes[i - 1]);
                }
            }
            if failed_in(rest, rest_outcomes, id) {
                let i = choose|i: int|
                    0 <= i < rest.len() && i < rest_outcomes.len() && #[trigger] rest[i] == id
                        && !rest_outcomes[i];
                assert(ids[i + 1] == id && !outcomes[i + 1]);
            }
            if ids[0] == id && !outcomes[0] {
                assert(failed_in(ids, outcomes, id));
            }
        }
        lemma_filter_twice(m.entries, here, later, stay);
    }
}

/// A pass over an empty registry has nothing to send.
pub proof fn lemma_empty_registry_no_attempts<C>(m: RegistryModel<C>, p: PassModel<C>)
    requires
        m.entries.len() == 0,
        p.target_ids() == m.ids(),
        p.attempted == 0,
    ensures
        p.done(),
        p.attempted_ids() == Seq::<u64>::empty(),
{
    assert(p.target_ids().len() == 0);
    assert(p.attempted_ids() =~= Seq::<u64>::empty());
}

/// A connection that is registered after a pass took its snapshot is not a
/// target of that pass, and is a target of every later pass whose snapshot is
/// taken before the connection is removed.
pub proof fn lemma_late_registration<C>(
    m: RegistryModel<C>,
    p: PassModel<C>,
    sender: C,
    trace: Seq<RegistryModel<C>>,
    k: int,
    q: PassModel<C>,
)
    requires
        m.wf(),
        m.issued < u64::MAX,
        p.drawn_from(m),
        0 <= k < trace.len(),
        trace[0] == m.after_register(sender),
        forall|i: int| 0 <= i < trace.len() - 1 ==> #[trigger] trace[i].step(trace[i + 1]),
        forall|i: int| 0 <= i < k ==> trace[i + 1] != (#[trigger] trace[i]).after_remove(m.issued),
        q.target_ids() == trace[k].ids(),
    ensures
        !p.target_ids().contains(m.issued),
        q.target_ids().contains(m.issued),
{
    lemma_register_keeps_wf(m, sender);
    let n = m.after_register(sender);
    assert(n.ids()[m.ids().len() as int] == m.issued);
    if p.target_ids().contains(m.issued) {
        let i = choose|i: int| 0 <= i < p.target_ids().len() && p.target_ids()[i] == m.issued;
        assert(p.target_ids()[i] < m.issued);
    }
    lemma_active_until_removed(trace, m.issued, k);
}

/// A connection whose send failed in a pass is a target of no later pass,
/// whatever is done to the registry in between.
pub proof fn lemma_failed_target_stays_absent<C>(
    m: RegistryModel<C>,
    p: PassModel<C>,
    trace: Seq<RegistryModel<C>>,
    k: int,
    q: PassModel<C>,
)
    requires
        m.wf(),
        p.wf(),
        !p.done(),
        p.drawn_from(m),
        0 <= k < trace.len(),
        trace[0] == after_outcome(m, p.target_ids()[p.attempted as int], false),
        forall|i: int| 0 <= i < trace.len() - 1 ==> #[trigger] trace[i].step(trace[i + 1]),
        q.target_ids() == trace[k].ids(),
    ensures
        !q.target_ids().contains(p.target_ids()[p.attempted as int]),
{
    let id = p.target_ids()[p.attempted as int];
    lemma_remove_keeps_wf(m, id);
    lemma_retired_forever(trace, id, k);
}

} // verus!
