//! Identifier allocation, one counter per resource category.
use vstd::prelude::*;

verus! {

/// The resource categories that identifiers are issued for.
#[derive(Clone, Copy, PartialEq, Eq, Structural, Hash, Debug)]
pub enum IDType {
    Being,
    World,
    Vertex,
    Index,
    Texture,
    DrawParameter,
    Perspective,
    View,
    Model,
}

/// Number of identifier categories.
pub const ID_TYPE_COUNT: usize = 9;

impl IDType {
    /// Position of the category's counter.
    pub open spec fn index(self) -> int {
        match self {
            IDType::Being => 0,
            IDType::World => 1,
            IDType::Vertex => 2,
            IDType::Index => 3,
            IDType::Texture => 4,
            IDType::DrawParameter => 5,
            IDType::Perspective => 6,
            IDType::View => 7,
            IDType::Model => 8,
        }
    }

    pub fn slot(self) -> (r: usize)
        ensures
            r as int == self.index(),
            r < ID_TYPE_COUNT,
    {
        match self {
            IDType::Being => 0,
            IDType::World => 1,
            IDType::Vertex => 2,
            IDType::Index => 3,
            IDType::Texture => 4,
            IDType::DrawParameter => 5,
            IDType::Perspective => 6,
            IDType::View => 7,
            IDType::Model => 8,
        }
    }
}

/// An identifier: a category together with the counter value it was issued at.
#[derive(Clone, Copy, PartialEq, Eq, Structural, Hash, Debug)]
pub struct ID {
    pub kind: IDType,
    pub value: u64,
}

/// Issues identifiers; each category has its own increasing counter.
pub struct IDManager {
    counters: Vec<u64>,
}

impl IDManager {
    /// The counters, one per category, at the category's index.
    pub closed spec fn counts(&self) -> Seq<u64> {
        self.counters@
    }

    pub open spec fn wf(&self) -> bool {
        self.counts().len() == ID_TYPE_COUNT
    }

    /// How many identifiers of `kind` have been issued so far; the next one
    /// carries this value.
    pub open spec fn issued(&self, kind: IDType) -> nat {
        self.counts()[kind.index()] as nat
    }

    /// `v` was issued for `kind` by this allocator.
    pub open spec fn has_issued(&self, kind: IDType, v: u64) -> bool {
        v < self.issued(kind)
    }

    /// `next` is this allocator after handing out `v` for `kind`.
    pub open spec fn issues(&self, next: &IDManager, kind: IDType, v: u64) -> bool {
        &&& next.wf()
        &&& v as nat == self.issued(kind)
        &&& next.issued(kind) == self.issued(kind) + 1
        &&& forall|k: IDType| k != kind ==> next.issued(k) == self.issued(k)
    }

    /// Every counter of `next` is at least the one of `self`.
    pub open spec fn precedes(&self, next: &IDManager) -> bool {
        forall|k: IDType| self.issued(k) <= #[trigger] next.issued(k)
    }

    pub fn new() -> (r: IDManager)
        ensures
            r.wf(),
            forall|k: IDType| r.issued(k) == 0,
    {
        IDManager { counters: vec![0, 0, 0, 0, 0, 0, 0, 0, 0] }
    }

    /// Whether another identifier of `kind` can be issued.
    pub fn can_issue(&self, kind: IDType) -> (r: bool)
        requires
            self.wf(),
        ensures
            r == (self.issued(kind) < u64::MAX),
            self.issued(kind) <= u64::MAX,
    {
        self.counters[kind.slot()] < u64::MAX
    }

    /// How many more identifiers of `kind` can be issued.
    pub fn remaining(&self, kind: IDType) -> (r: u64)
        requires
            self.wf(),
        ensures
            r == u64::MAX - self.issued(kind),
    {
        u64::MAX - self.counters[kind.slot()]
    }

    /// Hands out the next value for `kind`.
    pub fn get_id(&mut self, kind: IDType) -> (r: u64)
        requires
            old(self).wf(),
            old(self).issued(kind) < u64::MAX,
        ensures
            old(self).issues(final(self), kind, r),
            r == old(self).counts()[kind.index()],
            final(self).counts() == old(self).counts().update(kind.index(), (r + 1) as u64),
    {
        let i = kind.slot();
        let v = self.counters[i];
        self.counters.set(i, v + 1);
        v
    }
}

impl ID {
    /// Issues a fresh identifier of category `kind`.
    pub fn new(manager: &mut IDManager, kind: IDType) -> (r: ID)
        requires
            old(manager).wf(),
            old(manager).issued(kind) < u64::MAX,
        ensures
            r.kind == kind,
            old(manager).issues(final(manager), kind, r.value),
            r.value == old(manager).counts()[kind.index()],
            final(manager).counts() == old(manager).counts().update(kind.index(), (r.value + 1) as u64),
    {
        ID { kind, value: manager.get_id(kind) }
    }
}

/// Issuing never lowers a counter, and the value handed out was not issued
/// before but is issued afterwards.
pub proof fn lemma_issue_fresh(m: IDManager, n: IDManager, kind: IDType, v: u64)
    requires
        m.issues(&n, kind, v),
    ensures
        m.precedes(&n),
        !m.has_issued(kind, v),
        n.has_issued(kind, v),
        forall|w: u64| #[trigger] n.has_issued(kind, w) <==> (m.has_issued(kind, w) || w == v),
{
}

/// Two identifiers of one category issued by the same allocator, the first
/// before the second with any issues in between, are different.
pub proof fn lemma_issued_distinct(
    m0: IDManager,
    m1: IDManager,
    m2: IDManager,
    m3: IDManager,
    kind: IDType,
    a: u64,
    b: u64,
)
    requires
        m0.issues(&m1, kind, a),
        m1.precedes(&m2),
        m2.issues(&m3, kind, b),
    ensures
        a != b,
        a < b,
{
    assert(m1.issued(kind) <= m2.issued(kind));
}

} // verus!
