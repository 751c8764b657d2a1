use vstd::prelude::*;

verus! {

/// What the cache remembers after `s` is marked seen, starting from `ids`
/// (oldest first) with room for `max` identifiers.
pub open spec fn mark_ids(ids: Seq<Seq<char>>, s: Seq<char>, max: nat) -> Seq<Seq<char>> {
    if ids.contains(s) {
        ids
    } else if ids.len() + 1 > max {
        ids.push(s).drop_first()
    } else {
        ids.push(s)
    }
}

/// What the cache remembers after each of `sigs` is marked seen in turn.
pub open spec fn mark_all(ids: Seq<Seq<char>>, sigs: Seq<Seq<char>>, max: nat) -> Seq<Seq<char>>
    decreases sigs.len(),
{
    if sigs.len() == 0 {
        ids
    } else {
        mark_ids(mark_all(ids, sigs.drop_last(), max), sigs.last(), max)
    }
}

/// Marking every signature of `sigs` in turn, from any well-formed state, never
/// leaves more than `max` signatures remembered, nor one of them twice.
pub proof fn lemma_mark_all_bounded(ids: Seq<Seq<char>>, sigs: Seq<Seq<char>>, max: nat)
    requires
        ids.len() <= max,
        ids.no_duplicates(),
    ensures
        mark_all(ids, sigs, max).len() <= max,
        mark_all(ids, sigs, max).no_duplicates(),
    decreases sigs.len(),
{
    if sigs.len() > 0 {
        lemma_mark_all_bounded(ids, sigs.drop_last(), max);
        lemma_mark_keeps_wf(mark_all(ids, sigs.drop_last(), max), sigs.last(), max);
    }
}

proof fn lemma_mark_keeps_wf(ids: Seq<Seq<char>>, s: Seq<char>, max: nat)
    requires
        ids.len() <= max,
        ids.no_duplicates(),
    ensures
        mark_ids(ids, s, max).len() <= max,
        mark_ids(ids, s, max).no_duplicates(),
{
    if !ids.contains(s) {
        let n = ids.push(s);
        assert forall|a: int, b: int| 0 <= a < n.len() && 0 <= b < n.len() && a != b
            implies n[a] != n[b] by {
            if a == ids.len() as int {
                assert(ids.contains(n[b]));
            } else if b == ids.len() as int {
                assert(ids.contains(n[a]));
            }
        }
        assert forall|a: int, b: int| 0 <= a < n.len() - 1 && 0 <= b < n.len() - 1 && a != b
            implies n.drop_first()[a] != n.drop_first()[b] by {
            assert(n[a + 1] != n[b + 1]);
        }
    }
}

/// Marking a signature that is already remembered changes nothing: neither
/// what is remembered nor the order in which it will be evicted.
pub proof fn lemma_mark_seen_idempotent(ids: Seq<Seq<char>>, s: Seq<char>, max: nat)
    requires
        ids.contains(s),
    ensures
        mark_ids(ids, s, max) == ids,
{
}

/// Distinct signatures marked into an empty cache with room for all of them
/// are all remembered, in the order they came.
pub proof fn lemma_mark_all_fits(sigs: Seq<Seq<char>>, max: nat)
    requires
        sigs.no_duplicates(),
        sigs.len() <= max,
    ensures
        mark_all(Seq::empty(), sigs, max) == sigs,
    decreases sigs.len(),
{
    if sigs.len() > 0 {
        let p = sigs.drop_last();
        assert(p.no_duplicates());
        lemma_mark_all_fits(p, max);
        assert(!p.contains(sigs.last())) by {
            if p.contains(sigs.last()) {
                let k = choose|k: int| 0 <= k < p.len() && p[k] == sigs.last();
                assert(sigs[k] == sigs[sigs.len() - 1]);
            }
        }
        assert(p.push(sigs.last()) =~= sigs);
    }
}

/// With room for `max` signatures, marking `max + 1` distinct signatures into
/// an empty cache evicts exactly the first one and keeps all the others.
pub proof fn lemma_fifo_evicts_first(sigs: Seq<Seq<char>>, max: nat)
    requires
        sigs.no_duplicates(),
        sigs.len() == max + 1,
    ensures
        mark_all(Seq::empty(), sigs, max) == sigs.drop_first(),
        !mark_all(Seq::empty(), sigs, max).contains(sigs[0]),
        forall|i: int| 1 <= i < sigs.len() ==> mark_all(Seq::empty(), sigs, max).contains(#[trigger] sigs[i]),
{
    let p = sigs.drop_last();
    assert(p.no_duplicates());
    lemma_mark_all_fits(p, max);
    assert(!p.contains(sigs.last())) by {
        if p.contains(sigs.last()) {
            let k = choose|k: int| 0 <= k < p.len() && p[k] == sigs.last();
            assert(sigs[k] == sigs[sigs.len() - 1]);
        }
    }
    assert(p.push(sigs.last()) =~= sigs);
    let r = sigs.drop_first();
    assert forall|i: int| 1 <= i < sigs.len() implies r.contains(#[trigger] sigs[i]) by {
        assert(r[i - 1] == sigs[i]);
    }
    assert(!r.contains(sigs[0])) by {
        if r.contains(sigs[0]) {
            let k = choose|k: int| 0 <= k < r.len() && r[k] == sigs[0];
            assert(sigs[k + 1] == sigs[0]);
        }
    }
}

/// Bounded set of transaction signatures with first-in, first-out eviction.
pub struct SignatureCache {
    max_entries: usize,
    order: Vec<String>,
}

impl SignatureCache {
    /// The remembered signatures, oldest insertion first.
    pub closed spec fn ids(&self) -> Seq<Seq<char>> {
        self.order@.map_values(|s: String| s@)
    }

    /// The bound the cache was made with.
    pub closed spec fn max(&self) -> nat {
        self.max_entries as nat
    }

    /// Each signature is remembered once, and never more than the bound.
    pub open spec fn wf(&self) -> bool {
        &&& self.ids().no_duplicates()
        &&& self.ids().len() <= self.max()
    }

    pub fn new(max_entries: usize) -> (r: Self)
        ensures
            r.wf(),
            r.ids() == Seq::<Seq<char>>::empty(),
            r.max() == max_entries as nat,
    {
        let r = SignatureCache { max_entries, order: Vec::new() };
        assert(r.ids() =~= Seq::<Seq<char>>::empty());
        r
    }

    pub fn is_seen(&self, signature: &str) -> (r: bool)
        ensures
            r == self.ids().contains(signature@),
    {
        let target = signature.to_owned();
        let mut i: usize = 0;
        while i < self.order.len()
            invariant
                0 <= i <= self.order.len(),
                target@ == signature@,
                forall|j: int| 0 <= j < i ==> self.ids()[j] != signature@,
            decreases self.order.len() - i,
        {
            if self.order[i] == target {
                assert(self.ids()[i as int] == signature@);
                return true;
            }
            i = i + 1;
        }
        false
    }

    pub fn mark_seen(&mut self, signature: String)
        requires
            old(self).wf(),
        ensures
            final(self).wf(),
            final(self).max() == old(self).max(),
            final(self).ids() == mark_ids(old(self).ids(), signature@, old(self).max()),
    {
        if self.is_seen(signature.as_str()) {
            return;
        }
        let ghost before = self.ids();
        self.order.push(signature);
        assert(self.ids() =~= before.push(signature@));
        if self.order.len() > self.max_entries {
            self.order.remove(0);
            assert(self.ids() =~= before.push(signature@).drop_first());
        }
        proof {
            lemma_mark_keeps_wf(before, signature@, self.max());
        }
    }
}

} // verus!
