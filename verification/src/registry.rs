use vstd::prelude::*;

verus! {

/// One registered subscriber: its identifier and the capability used to send
/// it a frame. The registry never looks inside the capability.
pub struct Connection<C> {
    pub id: u64,
    pub sender: C,
}

/// The identifiers of a sequence of connections, in the same order.
pub open spec fn ids_of<C>(entries: Seq<Connection<C>>) -> Seq<u64> {
    entries.map_values(|e: Connection<C>| e.id)
}

/// The entries that are left when `id` is removed: the sequence without the
/// entry that carries `id`, or the sequence itself when no entry does.
pub open spec fn without<C>(entries: Seq<Connection<C>>, id: u64) -> Seq<Connection<C>> {
    if ids_of(entries).contains(id) {
        entries.remove(ids_of(entries).index_of(id))
    } else {
        entries
    }
}

/// What a registry is, mathematically: the active connections in the order
/// in which they were registered, and the number of identifiers handed out so
/// far (which is also the next identifier).
pub struct RegistryModel<C> {
    pub entries: Seq<Connection<C>>,
    pub issued: u64,
}

impl<C> RegistryModel<C> {
    /// The identifiers of the active connections, in registration order.
    pub open spec fn ids(self) -> Seq<u64> {
        ids_of(self.entries)
    }

    /// A connection is registered under `id`.
    pub open spec fn contains(self, id: u64) -> bool {
        self.ids().contains(id)
    }

    /// Each identifier maps to at most one connection, and every identifier
    /// in use was handed out earlier.
    pub open spec fn wf(self) -> bool {
        &&& self.ids().no_duplicates()
        &&& forall|i: int| 0 <= i < self.ids().len() ==> #[trigger] self.ids()[i] < self.issued
    }

    /// `id` was handed out once and its connection is gone.
    pub open spec fn retired(self, id: u64) -> bool {
        id < self.issued && !self.contains(id)
    }

    /// The registry after `sender` has been registered: it comes last and
    /// gets the next identifier.
    pub open spec fn after_register(self, sender: C) -> RegistryModel<C> {
        RegistryModel {
            entries: self.entries.push(Connection { id: self.issued, sender }),
            issued: (self.issued + 1) as u64,
        }
    }

    /// The registry after `id` has been removed.
    pub open spec fn after_remove(self, id: u64) -> RegistryModel<C> {
        RegistryModel { entries: without(self.entries, id), issued: self.issued }
    }

    /// One operation on the registry leads from `self` to `next`.
    pub open spec fn step(self, next: RegistryModel<C>) -> bool {
        ||| (self.issued < u64::MAX && exists|sender: C|
            next == #[trigger] self.after_register(sender))
        ||| exists|id: u64| next == #[trigger] self.after_remove(id)
    }
}

/// What the receive side of a subscriber's connection can show. The channel
/// is for broadcast only, so what a subscriber sends is never looked at.
#[derive(Clone, Copy, Debug, PartialEq, Eq)]
pub enum Inbound {
    /// The subscriber sent something.
    Data,
    /// The remote end closed the connection, or reading from it failed.
    Closed,
}

/// The active subscriber connections, keyed by identifier.
pub struct Registry<C> {
    next_id: u64,
    entries: Vec<Connection<C>>,
}

impl<C> View for Registry<C> {
    type V = RegistryModel<C>;

    closed spec fn view(&self) -> RegistryModel<C> {
        RegistryModel { entries: self.entries@, issued: self.next_id }
    }
}

impl<C> Registry<C> {
    /// The registry is well formed when its model is.
    pub open spec fn wf(&self) -> bool {
        self@.wf()
    }

    /// An empty registry, whose first identifier will be 0.
    pub fn new() -> (r: Self)
        ensures
            r@.entries == Seq::<Connection<C>>::empty(),
            r@.issued == 0,
            r.wf(),
    {
        let r = Registry { next_id: 0, entries: Vec::new() };
        assert(r@.ids() =~= Seq::<u64>::empty());
        r
    }

    /// The number of active connections.
    pub fn len(&self) -> (n: usize)
        ensures
            n == self@.entries.len(),
    {
        self.entries.len()
    }

    /// Whether no connection is active.
    pub fn is_empty(&self) -> (b: bool)
        ensures
            b == (self@.entries.len() == 0),
    {
        self.entries.len() == 0
    }

    /// Whether a connection is registered under `id`.
    pub fn contains(&self, id: u64) -> (b: bool)
        ensures
            b == self@.contains(id),
    {
        let mut i: usize = 0;
        while i < self.entries.len()
            invariant
                i <= self.entries.len(),
                forall|k: int| 0 <= k < i ==> self@.ids()[k] != id,
            decreases self.entries.len() - i,
        {
            if self.entries[i].id == id {
                assert(self@.ids()[i as int] == id);
                return true;
            }
            i += 1;
        }
        false
    }

    /// Whether an identifier is left to hand out.
    pub fn can_register(&self) -> (b: bool)
        ensures
            b == (self@.issued < u64::MAX),
    {
        self.next_id < u64::MAX
    }

    /// Stores `sender` as a new active connection, after all the others, and
    /// returns its identifier, which no connection has had before.
    pub fn register(&mut self, sender: C) -> (id: u64)
        requires
            old(self).wf(),
            old(self)@.issued < u64::MAX,
        ensures
            id == old(self)@.issued,
            !old(self)@.contains(id),
            final(self)@ == old(self)@.after_register(sender),
            final(self)@.contains(id),
            final(self).wf(),
    {
        let id: u64 = self.next_id;
        self.entries.push(Connection { id, sender });
        self.next_id = id + 1;
        proof {
            lemma_register_keeps_wf(old(self)@, sender);
            assert(final(self)@.ids()[old(self)@.ids().len() as int] == id);
        }
        id
    }

    /// Takes the connection registered under `id` out of the registry. Where
    /// there is none, nothing changes.
    pub fn remove(&mut self, id: u64)
        requires
            old(self).wf(),
        ensures
            final(self)@ == old(self)@.after_remove(id),
            final(self).wf(),
    {
        let mut i: usize = 0;
        while i < self.entries.len()
            invariant
                i <= self.entries.len(),
                *self == *old(self),
                self.wf(),
                forall|k: int| 0 <= k < i ==> self@.ids()[k] != id,
            decreases self.entries.len() - i,
        {
            if self.entries[i].id == id {
                proof {
                    assert(self@.ids()[i as int] == id);
                    assert(self@.ids().index_of(id) == i);
                    lemma_remove_keeps_wf(self@, id);
                }
                let _ = self.entries.remove(i);
                return ;
            }
            i += 1;
        }
        proof {
            lemma_remove_keeps_wf(self@, id);
        }
    }
}

impl<C> Registry<C> {
    /// Takes note of what the receive side of connection `id` showed:
    /// data is ignored, a closed connection is removed. Says whether the
    /// connection is still to be watched.
    pub fn observe(&mut self, id: u64, inbound: Inbound) -> (watching: bool)
        requires
            old(self).wf(),
        ensures
            watching == (inbound is Data),
            final(self)@ == if inbound is Data {
                old(self)@
            } else {
                old(self)@.after_remove(id)
            },
            final(self).wf(),
    {
        match inbound {
            Inbound::Data => true,
            Inbound::Closed => {
                self.remove(id);
                false
            },
        }
    }
}

impl<C: Clone> Registry<C> {
    /// A copy of the active connections at this moment, in registration
    /// order. Later changes of the registry do not touch it.
    pub fn snapshot(&self) -> (snap: Vec<Connection<C>>)
        ensures
            ids_of(snap@) == self@.ids(),
            forall|i: int|
                0 <= i < snap@.len() ==> cloned(self@.entries[i].sender, #[trigger] snap@[i].sender),
    {
        let mut snap: Vec<Connection<C>> = Vec::new();
        let mut i: usize = 0;
        while i < self.entries.len()
            invariant
                i <= self.entries.len(),
                snap@.len() == i,
                forall|k: int| 0 <= k < i ==> (#[trigger] snap@[k]).id == self@.entries[k].id,
                forall|k: int|
                    0 <= k < i ==> cloned(self@.entries[k].sender, #[trigger] snap@[k].sender),
            decreases self.entries.len() - i,
        {
            let sender = self.entries[i].sender.clone();
            snap.push(Connection { id: self.entries[i].id, sender });
            i += 1;
        }
        assert(ids_of(snap@) =~= self@.ids());
        snap
    }
}

/// Registering keeps every identifier unique and below the counter.
pub proof fn lemma_register_keeps_wf<C>(m: RegistryModel<C>, sender: C)
    requires
        m.wf(),
        m.issued < u64::MAX,
    ensures
        m.after_register(sender).wf(),
        m.after_register(sender).ids() == m.ids().push(m.issued),
        !m.contains(m.issued),
{
    let n = m.after_register(sender);
    assert(n.ids() =~= m.ids().push(m.issued));
    if m.contains(m.issued) {
        let i = choose|i: int| 0 <= i < m.ids().len() && m.ids()[i] == m.issued;
        assert(m.ids()[i] < m.issued);
    }
    assert forall|i: int, j: int|
        0 <= i < n.ids().len() && 0 <= j < n.ids().len() && i != j implies n.ids()[i]
            != n.ids()[j] by {
        if i < m.ids().len() {
            assert(m.ids()[i] < m.issued);
        }
        if j < m.ids().len() {
            assert(m.ids()[j] < m.issued);
        }
    }
    assert forall|i: int| 0 <= i < n.ids().len() implies #[trigger] n.ids()[i] < n.issued by {
        if i < m.ids().len() {
            assert(m.ids()[i] < m.issued);
        }
    }
}

/// Removing keeps every identifier unique and below the counter, leaves
/// `id` absent, and keeps each other identifier exactly where it was active.
pub proof fn lemma_remove_keeps_wf<C>(m: RegistryModel<C>, id: u64)
    requires
        m.wf(),
    ensures
        m.after_remove(id).wf(),
        !m.after_remove(id).contains(id),
        forall|other: u64| other != id ==> (m.after_remove(id).contains(other) <==> m.contains(other)),
        m.contains(id) ==> m.after_remove(id).ids() == m.ids().remove(m.ids().index_of(id)),
        !m.contains(id) ==> m.after_remove(id) == m,
{
    let n = m.after_remove(id);
    if m.contains(id) {
        let p = m.ids().index_of(id);
        assert(0 <= p < m.ids().len() && m.ids()[p] == id);
        assert(n.ids() =~= m.ids().remove(p));
        assert forall|i: int, j: int|
            0 <= i < n.ids().len() && 0 <= j < n.ids().len() && i != j implies n.ids()[i]
                != n.ids()[j] by {
            let a = if i < p { i } else { i + 1 };
            let b = if j < p { j } else { j + 1 };
            assert(n.ids()[i] == m.ids()[a]);
            assert(n.ids()[j] == m.ids()[b]);
        }
        assert forall|i: int| 0 <= i < n.ids().len() implies #[trigger] n.ids()[i] < n.issued by {
            let a = if i < p { i } else { i + 1 };
            assert(n.ids()[i] == m.ids()[a]);
        }
        if n.contains(id) {
            let i = choose|i: int| 0 <= i < n.ids().len() && n.ids()[i] == id;
            let a = if i < p { i } else { i + 1 };
            assert(n.ids()[i] == m.ids()[a]);
        }
        assert forall|other: u64| other != id implies (n.contains(other) <==> m.contains(other)) by {
            if n.contains(other) {
                let i = choose|i: int| 0 <= i < n.ids().len() && n.ids()[i] == other;
                let a = if i < p { i } else { i + 1 };
                assert(m.ids()[a] == other);
            }
            if m.contains(other) {
                let a = choose|a: int| 0 <= a < m.ids().len() && m.ids()[a] == other;
                let i = if a < p { a } else { a - 1 };
                assert(n.ids()[i] == other);
            }
        }
    }
}

/// Removing the same identifier a second time changes nothing.
pub proof fn lemma_remove_idempotent<C>(m: RegistryModel<C>, id: u64)
    requires
        m.wf(),
    ensures
        m.after_remove(id).after_remove(id) == m.after_remove(id),
{
    lemma_remove_keeps_wf(m, id);
}

/// An identifier whose connection is gone stays gone, whatever is done to
/// the registry afterwards: identifiers are never handed out twice.
pub proof fn lemma_retired_forever<C>(trace: Seq<RegistryModel<C>>, id: u64, k: int)
    requires
        0 <= k < trace.len(),
        trace[0].wf(),
        trace[0].retired(id),
        forall|i: int| 0 <= i < trace.len() - 1 ==> #[trigger] trace[i].step(trace[i + 1]),
    ensures
        trace[k].wf(),
        trace[k].retired(id),
    decreases k,
{
    if k > 0 {
        lemma_retired_forever(trace, id, k - 1);
        let pre = trace[k - 1];
        let post = trace[k];
        assert(trace[k - 1].step(trace[k - 1 + 1]));
        lemma_step_keeps_retired(pre, post, id);
    }
}

/// One operation keeps the registry well formed and keeps a retired
/// identifier retired.
pub proof fn lemma_step_keeps_retired<C>(pre: RegistryModel<C>, post: RegistryModel<C>, id: u64)
    requires
        pre.wf(),
        pre.step(post),
    ensures
        post.wf(),
        pre.retired(id) ==> post.retired(id),
{
    if pre.issued < u64::MAX && exists|sender: C| post == #[trigger] pre.after_register(sender) {
        let sender = choose|sender: C| post == #[trigger] pre.after_register(sender);
        lemma_register_keeps_wf(pre, sender);
        if pre.retired(id) && post.contains(id) {
            let i = choose|i: int| 0 <= i < post.ids().len() && post.ids()[i] == id;
            if i < pre.ids().len() {
                assert(pre.ids()[i] == id);
            }
        }
    } else {
        let gone = choose|gone: u64| post == #[trigger] pre.after_remove(gone);
        lemma_remove_keeps_wf(pre, gone);
    }
}

/// A registered connection stays registered through every operation but
/// its own removal.
pub proof fn lemma_step_keeps_active<C>(pre: RegistryModel<C>, post: RegistryModel<C>, id: u64)
    requires
        pre.wf(),
        pre.contains(id),
        pre.step(post),
        post != pre.after_remove(id),
    ensures
        post.contains(id),
{
    if pre.issued < u64::MAX && exists|sender: C| post == #[trigger] pre.after_register(sender) {
        let sender = choose|sender: C| post == #[trigger] pre.after_register(sender);
        lemma_register_keeps_wf(pre, sender);
        let i = choose|i: int| 0 <= i < pre.ids().len() && pre.ids()[i] == id;
        assert(post.ids()[i] == id);
    } else {
        let gone = choose|gone: u64| post == #[trigger] pre.after_remove(gone);
        lemma_remove_keeps_wf(pre, gone);
    }
}

/// A registered connection stays registered for as long as no operation
/// removes it.
pub proof fn lemma_active_until_removed<C>(trace: Seq<RegistryModel<C>>, id: u64, k: int)
    requires
        0 <= k < trace.len(),
        trace[0].wf(),
        trace[0].contains(id),
        forall|i: int| 0 <= i < trace.len() - 1 ==> #[trigger] trace[i].step(trace[i + 1]),
        forall|i: int| 0 <= i < k ==> trace[i + 1] != (#[trigger] trace[i]).after_remove(id),
    ensures
        trace[k].wf(),
        trace[k].contains(id),
    decreases k,
{
    if k > 0 {
        lemma_active_until_removed(trace, id, k - 1);
        assert(trace[k - 1].step(trace[k - 1 + 1]));
        assert(trace[k - 1 + 1] != trace[k - 1].after_remove(id));
        lemma_step_keeps_retired(trace[k - 1], trace[k], id);
        lemma_step_keeps_active(trace[k - 1], trace[k], id);
    }
}

} // verus!
