use vstd::prelude::*;
use crate::cache::{SignatureCache, mark_all, lemma_mark_all_fits};

verus! {

/// A signature listed for the tracked address, with the slot it landed in.
pub struct SignatureStatus {
    pub signature: String,
    pub slot: u64,
}

/// Settings of one page request.
pub struct PollerConfig {
    pub poll_interval_ms: u64,
    pub max_signatures: usize,
}

/// Settings of the polling service.
pub struct PollingServiceConfig {
    pub poll_interval_ms: u64,
    pub max_signatures: usize,
    pub cache_size: usize,
    pub max_concurrent: usize,
    pub state_path: Option<String>,
}

pub open spec fn status_view(s: SignatureStatus) -> (Seq<char>, u64) {
    (s.signature@, s.slot)
}

pub open spec fn statuses_view(v: Seq<SignatureStatus>) -> Seq<(Seq<char>, u64)> {
    v.map_values(|s: SignatureStatus| status_view(s))
}

pub open spec fn sigs_of(v: Seq<(Seq<char>, u64)>) -> Seq<Seq<char>> {
    v.map_values(|p: (Seq<char>, u64)| p.0)
}

/// `v` in the opposite order.
pub open spec fn reversed<A>(v: Seq<A>) -> Seq<A> {
    Seq::new(v.len(), |i: int| v[v.len() - 1 - i])
}

/// The entries of `v` whose signature is not among `ids`, in order.
pub open spec fn unseen(ids: Seq<Seq<char>>, v: Seq<(Seq<char>, u64)>) -> Seq<(Seq<char>, u64)>
    decreases v.len(),
{
    if v.len() == 0 {
        Seq::empty()
    } else if ids.contains(v.last().0) {
        unseen(ids, v.drop_last())
    } else {
        unseen(ids, v.drop_last()).push(v.last())
    }
}

pub open spec fn opt_view(o: Option<String>) -> Option<Seq<char>> {
    match o {
        Some(s) => Some(s@),
        None => None,
    }
}

/// The paging through a listing: pages come newest first, each one asked for
/// with the oldest signature of the page before as its cursor, until a page
/// comes back empty or shorter than the limit.
pub struct CatchUp {
    before: Option<String>,
    collected: Vec<SignatureStatus>,
    done: bool,
}

impl CatchUp {
    /// Everything listed so far, in the order the pages came.
    pub closed spec fn listed(&self) -> Seq<(Seq<char>, u64)> {
        statuses_view(self.collected@)
    }

    /// The cursor for the next page request; none asks for the newest page.
    pub closed spec fn cursor(&self) -> Option<Seq<char>> {
        opt_view(self.before)
    }

    pub closed spec fn finished(&self) -> bool {
        self.done
    }

    pub fn new() -> (r: Self)
        ensures
            r.listed() == Seq::<(Seq<char>, u64)>::empty(),
            r.cursor() is None,
            !r.finished(),
    {
        let r = CatchUp { before: None, collected: Vec::new(), done: false };
        assert(r.listed() =~= Seq::<(Seq<char>, u64)>::empty());
        r
    }

    pub fn before(&self) -> (r: Option<String>)
        ensures
            opt_view(r) == self.cursor(),
    {
        match &self.before {
            Some(s) => Some(s.clone()),
            None => None,
        }
    }

    pub fn is_done(&self) -> (r: bool)
        ensures
            r == self.finished(),
    {
        self.done
    }

    /// Takes in one page that was asked for with at most `limit` entries. A
    /// full page means more may exist, and the next request starts below its
    /// oldest signature.
    pub fn accept_page(&mut self, page: Vec<SignatureStatus>, limit: usize)
        requires
            !old(self).finished(),
        ensures
            final(self).listed() == old(self).listed() + statuses_view(page@),
            final(self).finished() == (page@.len() == 0 || page@.len() != limit),
            !final(self).finished() ==> final(self).cursor() == Some(page@.last().signature@),
            final(self).finished() ==> final(self).cursor() == old(self).cursor(),
    {
        let ghost before = self.listed();
        if page.len() == 0 {
            self.done = true;
            assert(statuses_view(page@) =~= Seq::<(Seq<char>, u64)>::empty());
            assert(self.listed() =~= before);
            return;
        }
        let reached_limit = page.len() == limit;
        let last = page[page.len() - 1].signature.clone();
        let mut page = page;
        let ghost pv = statuses_view(page@);
        self.collected.append(&mut page);
        assert(self.listed() =~= before + pv);
        if !reached_limit {
            self.done = true;
        } else {
            self.before = Some(last);
        }
    }

    /// Everything listed, in the order the pages came (newest first).
    pub fn into_collected(self) -> (r: Vec<SignatureStatus>)
        ensures
            statuses_view(r@) == self.listed(),
    {
        self.collected
    }
}

/// Names what `str::trim` returns: the text without leading and trailing
/// whitespace.
pub uninterp spec fn trimmed(s: Seq<char>) -> Seq<char>;

/// Relies on str::trim: the result is the argument with whitespace removed
/// from both ends, and depends on the argument alone.
#[verifier::external_body]
fn trim_text(s: &str) -> (r: &str)
    ensures
        r@ == trimmed(s@),
{
    s.trim()
}

/// The checkpoint held by the text of a state file: the text trimmed, or none
/// where nothing is left.
pub fn parse_checkpoint(contents: &str) -> (r: Option<String>)
    ensures
        trimmed(contents@).len() == 0 <==> r is None,
        r is Some ==> r->Some_0@ == trimmed(contents@),
{
    let t = trim_text(contents);
    if t.is_empty() {
        None
    } else {
        Some(t.to_owned())
    }
}

/// The text written to a state file for checkpoint `signature`: the signature
/// and a line break.
pub fn checkpoint_line(signature: &str) -> (r: String)
    ensures
        r@ == signature@.push('\n'),
{
    let mut r = String::from_str(signature);
    r.append("\n");
    proof {
        reveal_strlit("\n");
    }
    r
}

/// The checkpoint that a cycle writes names the newest signature it listed:
/// where the listing comes newest first and is newer than the previous
/// checkpoint, its slot is the largest listed, and not below the previous one.
pub proof fn lemma_checkpoint_newest(prev_slot: u64, newest_first: Seq<(Seq<char>, u64)>)
    requires
        newest_first.len() > 0,
        forall|i: int, j: int| 0 <= i <= j < newest_first.len() ==> newest_first[j].1 <= newest_first[i].1,
        forall|i: int| 0 <= i < newest_first.len() ==> (#[trigger] newest_first[i]).1 > prev_slot,
    ensures
        reversed(newest_first).last() == newest_first[0],
        newest_first[0].1 >= prev_slot,
        forall|i: int| 0 <= i < newest_first.len() ==> (#[trigger] newest_first[i]).1 <= newest_first[0].1,
{
    assert(newest_first[0].1 > prev_slot);
}

/// With a cache that has forgotten everything (as after a restart), a cycle
/// examines every signature it listed, oldest first.
pub proof fn lemma_fresh_cache_keeps_all(v: Seq<(Seq<char>, u64)>)
    ensures
        unseen(Seq::empty(), v) == v,
    decreases v.len(),
{
    if v.len() > 0 {
        lemma_fresh_cache_keeps_all(v.drop_last());
        assert(v.drop_last().push(v.last()) =~= v);
    }
}

/// Two cycles from an empty cache with room enough: the second examines only
/// the signatures that the first one did not list.
pub proof fn lemma_overlap_skipped(first: Seq<(Seq<char>, u64)>, second: Seq<(Seq<char>, u64)>, max: nat)
    requires
        sigs_of(reversed(first)).no_duplicates(),
        first.len() <= max,
    ensures
        ({
            let done = unseen(Seq::empty(), reversed(first));
            let ids = mark_all(Seq::empty(), sigs_of(done), max);
            forall|i: int| 0 <= i < unseen(ids, second).len()
                ==> !sigs_of(first).contains(#[trigger] unseen(ids, second)[i].0)
        }),
        ({
            let done = unseen(Seq::empty(), reversed(first));
            let ids = mark_all(Seq::empty(), sigs_of(done), max);
            unseen(ids, second) == unseen(sigs_of(reversed(first)), second)
        }),
{
    lemma_fresh_cache_keeps_all(reversed(first));
    lemma_mark_all_fits(sigs_of(reversed(first)), max);
    let ids = sigs_of(reversed(first));
    lemma_unseen_excludes(ids, second);
    assert forall|x: Seq<char>| ids.contains(x) implies sigs_of(first).contains(x) by {
        let k = choose|k: int| 0 <= k < ids.len() && ids[k] == x;
        assert(sigs_of(first)[first.len() - 1 - k] == x);
    }
    assert forall|x: Seq<char>| sigs_of(first).contains(x) implies ids.contains(x) by {
        let k = choose|k: int| 0 <= k < first.len() && sigs_of(first)[k] == x;
        assert(ids[first.len() - 1 - k] == x);
    }
}

proof fn lemma_unseen_excludes(ids: Seq<Seq<char>>, v: Seq<(Seq<char>, u64)>)
    ensures
        forall|i: int| 0 <= i < unseen(ids, v).len() ==> !ids.contains(#[trigger] unseen(ids, v)[i].0),
    decreases v.len(),
{
    if v.len() > 0 {
        lemma_unseen_excludes(ids, v.drop_last());
        let p = unseen(ids, v.drop_last());
        if !ids.contains(v.last().0) {
            assert forall|i: int| 0 <= i < p.push(v.last()).len()
                implies !ids.contains(#[trigger] p.push(v.last())[i].0) by {
                if i < p.len() {
                    assert(p.push(v.last())[i] == p[i]);
                }
            }
        }
    }
}

/// What one polling cycle does with the signatures it listed.
pub struct CyclePlan {
    /// The new checkpoint, to be written to durable storage.
    pub persist: Option<String>,
    /// The signatures to fetch and examine, oldest first.
    pub to_process: Vec<SignatureStatus>,
}

/// The decisions of one polling cycle on a listing `newest_first` (newest
/// signature first): the checkpoint moves to the newest listed signature, the
/// signatures already in the cache are dropped, and the rest are marked seen
/// and returned oldest first.
pub fn plan_cycle(cache: &mut SignatureCache, last_seen: &mut Option<String>, newest_first: Vec<SignatureStatus>) -> (r: CyclePlan)
    requires
        old(cache).wf(),
    ensures
        final(cache).wf(),
        final(cache).max() == old(cache).max(),
        newest_first@.len() > 0 ==> opt_view(*final(last_seen)) == Some(newest_first@[0].signature@)
            && opt_view(r.persist) == Some(newest_first@[0].signature@),
        newest_first@.len() == 0 ==> *final(last_seen) == *old(last_seen) && r.persist is None,
        statuses_view(r.to_process@) == unseen(old(cache).ids(), reversed(statuses_view(newest_first@))),
        final(cache).ids() == mark_all(old(cache).ids(), sigs_of(statuses_view(r.to_process@)), old(cache).max()),
{
    let ghost listed = statuses_view(newest_first@);
    let ghost ids0 = cache.ids();
    let mut ordered: Vec<SignatureStatus> = Vec::new();
    let mut n: usize = newest_first.len();
    let mut rest = newest_first;
    while n > 0
        invariant
            n == rest.len(),
            n <= listed.len(),
            statuses_view(rest@) == listed.subrange(0, n as int),
            statuses_view(ordered@) == reversed(listed).subrange(0, listed.len() - n),
        decreases n,
    {
        let ghost prev = rest@;
        let s = rest.pop().unwrap();
        assert(status_view(s) == statuses_view(prev)[n - 1]);
        assert(status_view(s) == reversed(listed)[listed.len() - n]);
        let ghost before = ordered@;
        ordered.push(s);
        assert(statuses_view(ordered@) =~= statuses_view(before).push(status_view(s)));
        n = n - 1;
        assert(statuses_view(rest@) =~= listed.subrange(0, n as int));
        assert(statuses_view(ordered@) =~= reversed(listed).subrange(0, listed.len() - n));
    }
    assert(statuses_view(ordered@) =~= reversed(listed));
    let mut persist: Option<String> = None;
    if ordered.len() > 0 {
        let newest = ordered[ordered.len() - 1].signature.clone();
        *last_seen = Some(newest.clone());
        persist = Some(newest);
    }
    let mut to_process: Vec<SignatureStatus> = Vec::new();
    let mut i: usize = 0;
    let ghost ord = statuses_view(ordered@);
    while i < ordered.len()
        invariant
            i <= ordered.len(),
            ord == statuses_view(ordered@),
            cache.ids() == ids0,
            cache.wf(),
            statuses_view(to_process@) == unseen(ids0, ord.subrange(0, i as int)),
        decreases ordered.len() - i,
    {
        let seen = cache.is_seen(ordered[i].signature.as_str());
        assert(ord.subrange(0, i + 1).drop_last() =~= ord.subrange(0, i as int));
        if !seen {
            let s = SignatureStatus { signature: ordered[i].signature.clone(), slot: ordered[i].slot };
            to_process.push(s);
            assert(statuses_view(to_process@) =~= unseen(ids0, ord.subrange(0, i as int)).push(ord[i as int]));
        }
        i = i + 1;
    }
    assert(ord.subrange(0, ord.len() as int) =~= ord);
    let mut j: usize = 0;
    let ghost tp = sigs_of(statuses_view(to_process@));
    while j < to_process.len()
        invariant
            j <= to_process.len(),
            tp == sigs_of(statuses_view(to_process@)),
            cache.wf(),
            cache.max() == old(cache).max(),
            cache.ids() == mark_all(ids0, tp.subrange(0, j as int), old(cache).max()),
        decreases to_process.len() - j,
    {
        cache.mark_seen(to_process[j].signature.clone());
        assert(tp.subrange(0, j + 1).drop_last() =~= tp.subrange(0, j as int));
        j = j + 1;
    }
    assert(tp.subrange(0, tp.len() as int) =~= tp);
    CyclePlan { persist, to_process }
}

} // verus!
