use vstd::prelude::*;

verus! {

// The pool of candidate outbound addresses. Every connection that
// wants a dedicated source address claims the first free entry of the
// matching family; the claim is a hold count, and an entry is free
// exactly when only the pool itself holds it.

/// A candidate outbound address, by family, as plain octets.
#[derive(Debug, PartialEq, Eq, Clone, Copy)]
pub enum SourceIp {
    V4([u8; 4]),
    V6([u8; 16]),
}

/// One pool entry: an address and how many owners it currently has.
/// The pool's own listing counts as one, so `holders == 1` means free.
#[derive(Debug, Clone, Copy)]
pub struct SourceEntry {
    pub ip: SourceIp,
    pub holders: u64,
}

/// Why no source address could be granted.
#[derive(Debug, PartialEq, Eq, Structural, Clone, Copy)]
pub enum PoolError {
    /// Every entry of a matching family is already held.
    OutOfSourceIps,
}

/// Whether an entry can serve a request for the given families.
pub open spec fn spec_eligible(e: SourceEntry, v4: bool, v6: bool) -> bool {
    e.holders == 1 && ((v4 && e.ip is V4) || (v6 && e.ip is V6))
}

/// The first entry that can serve the request, if any.
pub open spec fn spec_first_eligible(s: Seq<SourceEntry>, v4: bool, v6: bool) -> Option<int>
    decreases s.len(),
{
    if s.len() == 0 {
        None
    } else if spec_eligible(s[0], v4, v6) {
        Some(0)
    } else {
        match spec_first_eligible(s.drop_first(), v4, v6) {
            Some(i) => Some(i + 1),
            None => None,
        }
    }
}

/// What `spec_first_eligible` finds is the first eligible entry.
pub proof fn lemma_first_eligible(s: Seq<SourceEntry>, v4: bool, v6: bool)
    ensures
        match spec_first_eligible(s, v4, v6) {
            Some(i) => 0 <= i < s.len() && spec_eligible(s[i], v4, v6) && (forall|j: int|
                0 <= j < i ==> !spec_eligible(#[trigger] s[j], v4, v6)),
            None => forall|j: int| 0 <= j < s.len() ==> !spec_eligible(#[trigger] s[j], v4, v6),
        },
    decreases s.len(),
{
    if s.len() > 0 && !spec_eligible(s[0], v4, v6) {
        lemma_first_eligible(s.drop_first(), v4, v6);
        assert(forall|j: int| 1 <= j < s.len() ==> #[trigger] s[j] == s.drop_first()[j - 1]);
    }
}

/// The registry of candidate outbound addresses.
pub struct SourceIpPool {
    pub entries: Vec<SourceEntry>,
}

impl SourceIpPool {
    /// Every entry is held at least by the pool itself.
    pub open spec fn wf(&self) -> bool {
        forall|i: int| 0 <= i < self.entries@.len() ==> (#[trigger] self.entries@[i]).holders >= 1
    }

    pub fn new() -> (p: SourceIpPool)
        ensures
            p.wf(),
            p.entries@.len() == 0,
    {
        SourceIpPool { entries: Vec::new() }
    }

    /// Registers one more candidate address, initially free.
    pub fn add_source(&mut self, ip: SourceIp)
        requires
            old(self).wf(),
        ensures
            final(self).wf(),
            final(self).entries@ == old(self).entries@.push((SourceEntry { ip, holders: 1 })),
    {
        self.entries.push(SourceEntry { ip, holders: 1 });
    }

    /// Claims the first free entry whose family matches the request.
    ///
    /// An empty pool grants no preference (`Ok(None)`): the caller then
    /// uses default local-address selection. A non-empty pool with no
    /// free matching entry refuses the connection. The whole scan and
    /// claim happen in this one call, so two callers serialized on the
    /// pool can never claim the same entry.
    pub fn get_available_source_ip(&mut self, v4: bool, v6: bool) -> (res: Result<
        Option<usize>,
        PoolError,
    >)
        requires
            old(self).wf(),
        ensures
            final(self).wf(),
            final(self).entries@.len() == old(self).entries@.len(),
            match res {
                Ok(None) => old(self).entries@.len() == 0 && final(self).entries@ == old(
                    self,
                ).entries@,
                Ok(Some(i)) => spec_first_eligible(old(self).entries@, v4, v6) == Some(i as int)
                    && final(self).entries@ == old(self).entries@.update(
                    i as int,
                    (SourceEntry {
                        ip: old(self).entries@[i as int].ip,
                        holders: (old(self).entries@[i as int].holders + 1) as u64,
                    }),
                ),
                Err(e) => e == PoolError::OutOfSourceIps && old(self).entries@.len() > 0 && (
                spec_first_eligible(old(self).entries@, v4, v6) is None) && final(self).entries@
                    == old(self).entries@,
            },
    {
        if self.entries.len() == 0 {
            return Ok(None);
        }
        proof {
            lemma_first_eligible(self.entries@, v4, v6);
        }
        let mut i: usize = 0;
        while i < self.entries.len()
            invariant
                old(self).wf(),
                self.entries@ == old(self).entries@,
                i <= self.entries@.len(),
                forall|j: int| 0 <= j < i ==> !spec_eligible(#[trigger] self.entries@[j], v4, v6),
            decreases self.entries@.len() - i,
        {
            let e = self.entries[i];
            let family_match = match e.ip {
                SourceIp::V4(_) => v4,
                SourceIp::V6(_) => v6,
            };
            if e.holders == 1 && family_match {
                proof {
                    lemma_first_eligible(self.entries@, v4, v6);
                }
                let claimed = SourceEntry { ip: e.ip, holders: 2 };
                self.entries.set(i, claimed);
                return Ok(Some(i));
            }
            i += 1;
        }
        proof {
            lemma_first_eligible(self.entries@, v4, v6);
        }
        Err(PoolError::OutOfSourceIps)
    }

    /// Gives a claimed entry back; with its last outside hold gone it
    /// becomes eligible again.
    pub fn release(&mut self, i: usize)
        requires
            old(self).wf(),
            i < old(self).entries@.len(),
            old(self).entries@[i as int].holders >= 2,
        ensures
            final(self).wf(),
            final(self).entries@ == old(self).entries@.update(
                i as int,
                (SourceEntry {
                    ip: old(self).entries@[i as int].ip,
                    holders: (old(self).entries@[i as int].holders - 1) as u64,
                }),
            ),
    {
        let e = self.entries[i];
        self.entries.set(i, SourceEntry { ip: e.ip, holders: e.holders - 1 });
    }

    /// The address held at an index, for the caller that must bind to
    /// it.
    pub fn ip_at(&self, i: usize) -> (r: SourceIp)
        requires
            i < self.entries@.len(),
        ensures
            r == self.entries@[i as int].ip,
    {
        self.entries[i].ip
    }
}

/// With exactly one configured address of a matching family, the first
/// claim takes it, a second request while the first hold is out finds
/// nothing, and after a release it is granted again.
pub proof fn lemma_single_source_exclusive(e: SourceEntry, v4: bool, v6: bool)
    requires
        spec_eligible(e, v4, v6),
    ensures
        spec_first_eligible(seq![e], v4, v6) == Some(0int),
        spec_first_eligible(
            seq![(SourceEntry { ip: e.ip, holders: (e.holders + 1) as u64 })],
            v4,
            v6,
        ) is None,
        spec_first_eligible(
            seq![(SourceEntry { ip: e.ip, holders: ((e.holders + 1) - 1) as u64 })],
            v4,
            v6,
        ) == Some(0int),
{
    assert(spec_first_eligible(Seq::<SourceEntry>::empty(), v4, v6) is None);
    assert(seq![e][0] == e);
    assert(seq![e].len() == 1);
    assert(seq![e].drop_first() =~= Seq::<SourceEntry>::empty());
    assert(spec_first_eligible(seq![e], v4, v6) == Some(0int));
    let held = SourceEntry { ip: e.ip, holders: (e.holders + 1) as u64 };
    assert(seq![held][0] == held);
    assert(!spec_eligible(held, v4, v6));
    assert(seq![held].drop_first() =~= Seq::<SourceEntry>::empty());
    assert(spec_first_eligible(seq![held], v4, v6) is None);
    let back = SourceEntry { ip: e.ip, holders: ((e.holders + 1) - 1) as u64 };
    assert(seq![back][0] == back);
    assert(spec_eligible(back, v4, v6));
}

} // verus!
