//! In-memory answer cache with TTL expiry.
//!
//! The cache maps a fully qualified domain to the address it resolved to,
//! the wall-clock second the entry was installed, and its time to live. An
//! entry is live while `now <= inserted + ttl`; once stale it is never
//! returned and the periodic sweep removes it. The surrounding application
//! serialises access behind a single lock and supplies the wall clock; the
//! operations here are verified against that explicit `now`.

use vstd::prelude::*;

verus! {

/// An entry of the answer cache.
pub struct CacheEntry {
    /// The fully qualified domain this entry answers for.
    pub domain: String,
    /// The address text the domain resolved to.
    pub ip: String,
    /// Wall-clock second the entry was installed.
    pub inserted: u64,
    /// Time to live in seconds.
    pub ttl: u64,
}

/// An entry answers at `now` while no more than `ttl` seconds have passed
/// since it was installed. A clock that moved backwards leaves the entry
/// live.
pub open spec fn entry_live(e: CacheEntry, now: u64) -> bool {
    now <= e.inserted + e.ttl
}

/// No two entries of the sequence share a domain.
pub open spec fn distinct_domains(s: Seq<CacheEntry>) -> bool {
    forall|i: int, j: int|
        0 <= i < j < s.len() ==> #[trigger] s[i].domain@ != #[trigger] s[j].domain@
}

/// The answer cache. At most one entry exists per domain.
pub struct DnsCache {
    /// The entries, at most one per domain; `wf` states that invariant.
    pub entries: Vec<CacheEntry>,
    /// NS names of the zones this server is authoritative for.
    pub ns_records: Vec<String>,
}

impl DnsCache {
    /// The entries the cache currently holds.
    pub open spec fn entries_view(self) -> Seq<CacheEntry> {
        self.entries@
    }

    /// No two entries share a domain.
    pub open spec fn wf(self) -> bool {
        distinct_domains(self.entries@)
    }

    /// Some entry for the domain is live at `now`.
    pub open spec fn has_live_entry(self, domain: Seq<char>, now: u64) -> bool {
        exists|i: int|
            0 <= i < self.entries_view().len() && #[trigger] self.entries_view()[i].domain@
                == domain && entry_live(self.entries_view()[i], now)
    }

    /// The address and TTL of a live entry for `domain`; under `wf` at
    /// most one entry carries the domain, so the pair is determined.
    pub open spec fn live_data(self, domain: Seq<char>, now: u64) -> (Seq<char>, u64)
        recommends
            self.has_live_entry(domain, now),
    {
        let i = choose|i: int|
            0 <= i < self.entries_view().len() && #[trigger] self.entries_view()[i].domain@
                == domain && entry_live(self.entries_view()[i], now);
        (self.entries_view()[i].ip@, self.entries_view()[i].ttl)
    }

    /// Some entry holds exactly these fields.
    pub open spec fn has_entry(self, domain: Seq<char>, ip: Seq<char>, inserted: u64, ttl: u64) -> bool {
        exists|i: int|
            0 <= i < self.entries_view().len() && {
                let e = #[trigger] self.entries_view()[i];
                e.domain@ == domain && e.ip@ == ip && e.inserted == inserted && e.ttl == ttl
            }
    }

    /// Create an empty cache.
    pub fn new(ns_records: Vec<String>) -> (r: DnsCache)
        ensures
            r.wf(),
            r.entries_view().len() == 0,
            r.ns_records == ns_records,
    {
        DnsCache { entries: Vec::new(), ns_records }
    }

    /// Look the domain up; a stale entry is never returned.
    #[verifier::loop_isolation(false)]
    pub fn get(&self, domain: &str, now: u64) -> (r: Option<(String, u64)>)
        ensures
            r matches Some((ip, ttl)) ==> exists|i: int|
                0 <= i < self.entries_view().len() && {
                    let e = #[trigger] self.entries_view()[i];
                    e.domain@ == domain@ && entry_live(e, now) && e.ip@ == ip@ && e.ttl == ttl
                },
            r is None ==> forall|i: int|
                0 <= i < self.entries_view().len() && #[trigger] self.entries_view()[i].domain@
                    == domain@ ==> !entry_live(self.entries_view()[i], now),
    {
        let n = self.entries.len();
        let mut i: usize = 0;
        while i < n
            invariant
                0 <= i <= n,
                forall|j: int|
                    0 <= j < i && #[trigger] self.entries_view()[j].domain@ == domain@
                        ==> !entry_live(self.entries_view()[j], now),
            decreases n - i,
        {
            let e = &self.entries[i];
            if crate::utils::str_eq(e.domain.as_str(), domain) {
                if now <= e.inserted || now - e.inserted <= e.ttl {
                    let ip = e.ip.clone();
                    let ttl = e.ttl;
                    proof {
                        let w = self.entries_view()[i as int];
                        assert(w.domain@ == domain@ && entry_live(w, now) && w.ip@ == ip@ && w.ttl
                            == ttl);
                    }
                    return Some((ip, ttl));
                }
            }
            i += 1;
        }
        None
    }

    /// Install or overwrite the entry for the domain, stamped `now`.
    #[verifier::loop_isolation(false)]
    #[verifier::rlimit(60)]
    pub fn set(&mut self, domain: String, ip: String, ttl: u64, now: u64)
        requires
            old(self).wf(),
        ensures
            final(self).wf(),
            final(self).ns_records == old(self).ns_records,
            cache_updated(*old(self), *final(self), domain@, ip@, now, ttl),
    {
        let ghost prior = self.entries@;
        let ghost gdom = domain@;
        let ghost gip = ip@;
        let n = self.entries.len();
        let mut i: usize = 0;
        let mut found: bool = false;
        while !found && i < n
            invariant
                0 <= i <= n,
                self.entries@ == prior,
                !found ==> forall|j: int| 0 <= j < i ==> #[trigger] prior[j].domain@ != domain@,
                found ==> i < n && prior[i as int].domain@ == domain@,
            decreases n - i + (if found { 0int } else { 1int }),
        {
            if crate::utils::str_eq(self.entries[i].domain.as_str(), domain.as_str()) {
                found = true;
            } else {
                i += 1;
            }
        }
        if found {
            self.entries.remove(i);
            proof {
                let ii = i as int;
                prior.remove_ensures(ii);
                assert(self.entries@ == prior.remove(ii));
                assert forall|j: int, k: int|
                    0 <= j < k < prior.remove(ii).len() implies #[trigger] prior.remove(
                    ii,
                )[j].domain@ != #[trigger] prior.remove(ii)[k].domain@ by {
                    if k < ii {
                        assert(prior.remove(ii)[j] == prior[j]);
                        assert(prior.remove(ii)[k] == prior[k]);
                    } else if j < ii {
                        assert(prior.remove(ii)[j] == prior[j]);
                        assert(prior.remove(ii)[k] == prior[k + 1]);
                    } else {
                        assert(prior.remove(ii)[j] == prior[j + 1]);
                        assert(prior.remove(ii)[k] == prior[k + 1]);
                    }
                }
                assert(distinct_domains(prior.remove(ii)));
                assert forall|j: int| 0 <= j < prior.remove(ii).len() implies #[trigger] prior.remove(
                    ii,
                )[j].domain@ != gdom by {
                    if j < ii {
                        assert(prior.remove(ii)[j] == prior[j]);
                        assert(prior[j].domain@ != prior[ii].domain@);
                    } else {
                        assert(prior.remove(ii)[j] == prior[j + 1]);
                        assert(prior[j + 1].domain@ != prior[ii].domain@);
                    }
                }
                assert forall|e: CacheEntry| #[trigger] prior.remove(ii).contains(e) implies
                    prior.contains(e) by {
                    let j = choose|j: int|
                        0 <= j < prior.remove(ii).len() && prior.remove(ii)[j] == e;
                    if j < ii {
                        assert(prior.remove(ii)[j] == prior[j]);
                        assert(prior.contains(e));
                    } else {
                        assert(prior.remove(ii)[j] == prior[j + 1]);
                        assert(prior.contains(e));
                    }
                }
                assert forall|e: CacheEntry| prior.contains(e) && e.domain@ != gdom implies
                    #[trigger] prior.remove(ii).contains(e) by {
                    let j = choose|j: int| 0 <= j < prior.len() && prior[j] == e;
                    if j < ii {
                        assert(prior.remove(ii)[j] == prior[j]);
                        assert(prior.remove(ii).contains(e));
                    } else {
                        assert(j != ii);
                        assert(prior.remove(ii)[j - 1] == prior[j]);
                        assert(prior.remove(ii).contains(e));
                    }
                }
            }
        }
        let ghost mid = self.entries@;
        proof {
            assert(distinct_domains(mid));
            assert(forall|j: int| 0 <= j < mid.len() ==> #[trigger] mid[j].domain@ != gdom);
            assert forall|e: CacheEntry| #[trigger] mid.contains(e) implies prior.contains(e)
                && e.domain@ != gdom by {
                let j = choose|j: int| 0 <= j < mid.len() && mid[j] == e;
            }
            assert(forall|e: CacheEntry|
                prior.contains(e) && e.domain@ != gdom ==> #[trigger] mid.contains(e));
        }
        self.entries.push(CacheEntry { domain, ip, inserted: now, ttl });
        proof {
            let fin = self.entries@;
            let e_new = fin[fin.len() - 1];
            assert(fin == mid.push(e_new));
            assert(e_new.domain@ == gdom && e_new.ip@ == gip && e_new.inserted == now && e_new.ttl
                == ttl);
            assert forall|j: int, k: int|
                0 <= j < k < fin.len() implies #[trigger] fin[j].domain@
                != #[trigger] fin[k].domain@ by {
                assert(mid.push(e_new)[j] == mid[j]);
                if k < fin.len() - 1 {
                    assert(mid.push(e_new)[k] == mid[k]);
                }
            }
            assert(distinct_domains(fin));
            assert forall|e: CacheEntry| #[trigger] fin.contains(e) implies (e.domain@ == gdom
                && e.ip@ == gip && e.inserted == now && e.ttl == ttl) || (prior.contains(e)
                && e.domain@ != gdom) by {
                let j = choose|j: int| 0 <= j < fin.len() && fin[j] == e;
                if j < fin.len() - 1 {
                    assert(mid.push(e_new)[j] == mid[j]);
                    assert(mid.contains(e));
                }
            }
            assert forall|e: CacheEntry| prior.contains(e) && e.domain@ != gdom implies
                #[trigger] fin.contains(e) by {
                assert(mid.contains(e));
                let j = choose|j: int| 0 <= j < mid.len() && mid[j] == e;
                assert(mid.push(e_new)[j] == mid[j]);
                assert(fin[j] == e);
            }
            let w = self.entries_view()[self.entries_view().len() - 1];
            assert(w.domain@ == gdom && w.ip@ == gip && w.inserted == now && w.ttl == ttl);
            assert(self.has_entry(gdom, gip, now, ttl));
        }
    }

    /// Remove every stale entry.
    #[verifier::loop_isolation(false)]
    pub fn cleanup(&mut self, now: u64)
        requires
            old(self).wf(),
        ensures
            final(self).wf(),
            final(self).ns_records == old(self).ns_records,
            forall|e: CacheEntry| #[trigger]
                final(self).entries_view().contains(e) <==> (old(self).entries_view().contains(e)
                    && entry_live(e, now)),
    {
        let ghost prior = self.entries@;
        let mut kept: Vec<CacheEntry> = Vec::new();
        proof {
            assert(prior.subrange(0, prior.len() as int) =~= prior);
        }
        loop
            invariant
                self.ns_records == old(self).ns_records,
                self.entries@.len() <= prior.len(),
                self.entries@ == prior.subrange(0, self.entries@.len() as int),
                forall|e: CacheEntry| #[trigger]
                    kept@.contains(e) <==> (exists|j: int|
                        self.entries@.len() <= j < prior.len() && prior[j] == e && entry_live(
                            e,
                            now,
                        )),
                forall|m: int, m2: int|
                    0 <= m < m2 < kept@.len() ==> #[trigger] kept@[m].domain@
                        != #[trigger] kept@[m2].domain@,
            decreases self.entries@.len(),
        {
            let ghost k = self.entries@.len() as int;
            match self.entries.pop() {
                None => {
                    break;
                },
                Some(e) => {
                    proof {
                        assert(prior.subrange(0, k)[k - 1] == prior[k - 1]);
                        assert(self.entries@ =~= prior.subrange(0, k - 1));
                    }
                    assert(e == prior[k - 1]);
                    let live = now <= e.inserted || now - e.inserted <= e.ttl;
                    let ghost kept_before = kept@;
                    if live {
                        proof {
                            assert forall|m: int| 0 <= m < kept_before.len() implies
                                #[trigger] kept_before[m].domain@ != prior[k - 1].domain@ by {
                                assert(kept_before.contains(kept_before[m]));
                                let j = choose|j: int|
                                    k <= j < prior.len() && prior[j] == kept_before[m]
                                        && entry_live(kept_before[m], now);
                                assert(prior[j].domain@ != prior[k - 1].domain@);
                            }
                        }
                        kept.push(e);
                    }
                    proof {
                        assert forall|x: CacheEntry| #[trigger] kept@.contains(x) implies (exists|
                            j: int,
                        |
                            k - 1 <= j < prior.len() && prior[j] == x && entry_live(x, now)) by {
                            let m = choose|m: int| 0 <= m < kept@.len() && kept@[m] == x;
                            if m < kept_before.len() {
                                assert(kept_before.contains(x));
                            } else {
                                assert(x == prior[k - 1]);
                            }
                        }
                        assert forall|j: int|
                            k - 1 <= j < prior.len() && entry_live(prior[j], now) implies
                            #[trigger] kept@.contains(prior[j]) by {
                            if j >= k {
                                assert(kept_before.contains(prior[j]));
                                let m = choose|m: int|
                                    0 <= m < kept_before.len() && kept_before[m] == prior[j];
                                assert(kept@[m] == prior[j]);
                            } else {
                                if live {
                                    assert(kept@[kept@.len() - 1] == prior[k - 1]);
                                }
                            }
                        }
                    }
                },
            }
        }
        self.entries = kept;
        proof {
            assert(prior.subrange(0, 0) =~= Seq::<CacheEntry>::empty());
        }
    }
}

/// What `set(domain, ip, ttl)` at time `now` does to the cache: the
/// domain's entry now holds exactly these fields, every other domain's
/// entry is kept, and nothing else appears.
pub open spec fn cache_updated(
    pre: DnsCache,
    post: DnsCache,
    domain: Seq<char>,
    ip: Seq<char>,
    now: u64,
    ttl: u64,
) -> bool {
    &&& post.has_entry(domain, ip, now, ttl)
    &&& forall|e: CacheEntry| #[trigger]
        post.entries_view().contains(e) ==> (e.domain@ == domain && e.ip@ == ip && e.inserted
            == now && e.ttl == ttl) || (pre.entries_view().contains(e) && e.domain@ != domain)
    &&& forall|e: CacheEntry| #[trigger]
        pre.entries_view().contains(e) && e.domain@ != domain ==> post.entries_view().contains(e)
}

/// Under the one-entry-per-domain invariant, any live entry for the
/// domain carries exactly what `live_data` names.
pub proof fn lemma_live_data(c: DnsCache, domain: Seq<char>, now: u64, i: int)
    requires
        c.wf(),
        0 <= i < c.entries_view().len(),
        c.entries_view()[i].domain@ == domain,
        entry_live(c.entries_view()[i], now),
    ensures
        c.live_data(domain, now) == (c.entries_view()[i].ip@, c.entries_view()[i].ttl),
{
    let j = choose|j: int|
        0 <= j < c.entries_view().len() && #[trigger] c.entries_view()[j].domain@ == domain
            && entry_live(c.entries_view()[j], now);
    if i < j {
        assert(c.entries_view()[i].domain@ != c.entries_view()[j].domain@);
    }
    if j < i {
        assert(c.entries_view()[j].domain@ != c.entries_view()[i].domain@);
    }
}

/// After `set(domain, ip, ttl)` at time `now`, and at any `later` no more
/// than `ttl` seconds past `now`, the entry for `domain` is present, live,
/// and holds exactly `(ip, ttl)` — and it is the only entry for `domain`,
/// so a lookup can return nothing else.
pub proof fn lemma_set_then_get(
    c: DnsCache,
    domain: Seq<char>,
    ip: Seq<char>,
    ttl: u64,
    now: u64,
    later: u64,
)
    requires
        c.wf(),
        c.has_entry(domain, ip, now, ttl),
        now <= later,
        later - now <= ttl,
    ensures
        exists|i: int|
            0 <= i < c.entries_view().len() && {
                let e = #[trigger] c.entries_view()[i];
                e.domain@ == domain && entry_live(e, later) && e.ip@ == ip && e.ttl == ttl
            },
        forall|i: int, j: int|
            0 <= i < c.entries_view().len() && 0 <= j < c.entries_view().len()
                && #[trigger] c.entries_view()[i].domain@ == domain
                && #[trigger] c.entries_view()[j].domain@ == domain ==> i == j,
{
    let w = choose|i: int|
        0 <= i < c.entries_view().len() && {
            let e = #[trigger] c.entries_view()[i];
            e.domain@ == domain && e.ip@ == ip && e.inserted == now && e.ttl == ttl
        };
    assert(entry_live(c.entries_view()[w], later));
    assert forall|i: int, j: int|
        0 <= i < c.entries_view().len() && 0 <= j < c.entries_view().len()
            && #[trigger] c.entries_view()[i].domain@ == domain
            && #[trigger] c.entries_view()[j].domain@ == domain implies i == j by {
        if i < j {
            assert(c.entries_view()[i].domain@ != c.entries_view()[j].domain@);
        }
        if j < i {
            assert(c.entries_view()[j].domain@ != c.entries_view()[i].domain@);
        }
    }
}

/// Once wall-clock time strictly exceeds `inserted + ttl`, the entry is
/// stale: `get` cannot return it, and `cleanup` at that time removes it.
pub proof fn lemma_expiry(e: CacheEntry, now: u64)
    requires
        now > e.inserted + e.ttl,
    ensures
        !entry_live(e, now),
{
}

} // verus!
