//! Per-source-address admission control: a counter per address, bumped on
//! every request, periodically decayed and pruned.
use vstd::prelude::*;
use vstd::pervasive::VecAdditionalExecFns;

verus! {

/// An address may be admitted while its counter is strictly below this.
pub const THRESHOLD: usize = 10;

/// Every decay tick lowers each tracked counter by this much, floored at zero.
pub const DECAY: usize = 10;

/// The map that a sequence of (address, counter) entries denotes:
/// later entries win, although a well-formed limiter never repeats a key.
pub open spec fn map_of(s: Seq<(u128, usize)>) -> Map<u128, nat>
    decreases s.len(),
{
    if s.len() == 0 {
        Map::empty()
    } else {
        map_of(s.drop_last()).insert(s.last().0, s.last().1 as nat)
    }
}

/// The counter that a limiter state charges to an address: the tracked
/// value, or zero for an address the map does not hold.
pub open spec fn counter(m: Map<u128, nat>, addr: u128) -> nat {
    if m.dom().contains(addr) {
        m[addr]
    } else {
        0
    }
}

/// The decision `Accept` makes: admit while the counter sits strictly
/// below the threshold.
pub open spec fn admits(m: Map<u128, nat>, addr: u128) -> bool {
    counter(m, addr) < THRESHOLD
}

/// What one `Accept` call does to the state: the address's counter rises
/// by one, whether or not the call admits.
pub open spec fn spec_accept(m: Map<u128, nat>, addr: u128) -> Map<u128, nat> {
    m.insert(addr, counter(m, addr) + 1)
}

/// What one `Decay` tick does to the state: every counter drops by the
/// decay amount, floored at zero, and addresses that reach zero are pruned.
pub open spec fn spec_decay(m: Map<u128, nat>) -> Map<u128, nat> {
    Map::new(
        |a: u128| m.dom().contains(a) && m[a] > DECAY,
        |a: u128| (m[a] - DECAY) as nat,
    )
}

proof fn lemma_map_of_dom(s: Seq<(u128, usize)>, a: u128)
    ensures
        map_of(s).dom().contains(a) <==> exists|i: int| 0 <= i < s.len() && s[i].0 == a,
    decreases s.len(),
{
    if s.len() > 0 {
        lemma_map_of_dom(s.drop_last(), a);
        if map_of(s).dom().contains(a) {
            if a == s.last().0 {
                assert(s[s.len() - 1].0 == a);
            } else {
                let i = choose|i: int| 0 <= i < s.drop_last().len() && s.drop_last()[i].0 == a;
                assert(s[i].0 == a);
            }
        }
        if exists|i: int| 0 <= i < s.len() && s[i].0 == a {
            let i = choose|i: int| 0 <= i < s.len() && s[i].0 == a;
            if i < s.len() - 1 {
                assert(s.drop_last()[i].0 == a);
            }
        }
    }
}

proof fn lemma_map_of_val(s: Seq<(u128, usize)>, i: int)
    requires
        0 <= i < s.len(),
        forall|p: int, q: int| 0 <= p < q < s.len() ==> s[p].0 != s[q].0,
    ensures
        map_of(s).dom().contains(s[i].0),
        map_of(s)[s[i].0] == s[i].1 as nat,
    decreases s.len(),
{
    if i == s.len() - 1 {
    } else {
        assert(s[i].0 != s.last().0);
        assert(s.drop_last()[i] == s[i]);
        lemma_map_of_val(s.drop_last(), i);
    }
}

proof fn lemma_map_of_push(s: Seq<(u128, usize)>, a: u128, v: usize)
    ensures
        map_of(s.push((a, v))) == map_of(s).insert(a, v as nat),
{
    assert(s.push((a, v)).drop_last() =~= s);
}

proof fn lemma_map_of_update(s: Seq<(u128, usize)>, i: int, v: usize)
    requires
        0 <= i < s.len(),
        forall|p: int, q: int| 0 <= p < q < s.len() ==> s[p].0 != s[q].0,
    ensures
        map_of(s.update(i, (s[i].0, v))) == map_of(s).insert(s[i].0, v as nat),
    decreases s.len(),
{
    let a = s[i].0;
    let t = s.update(i, (a, v));
    if i == s.len() - 1 {
        assert(t.drop_last() =~= s.drop_last());
        assert(map_of(t) == map_of(s.drop_last()).insert(a, v as nat));
        assert(map_of(s.drop_last()).insert(a, v as nat) =~= map_of(s).insert(a, v as nat));
    } else {
        assert(t.drop_last() =~= s.drop_last().update(i, (a, v)));
        assert(s.drop_last()[i] == s[i]);
        lemma_map_of_update(s.drop_last(), i, v);
        assert(a != s.last().0);
        assert(map_of(t) == map_of(s.drop_last()).insert(a, v as nat).insert(
            s.last().0,
            s.last().1 as nat,
        ));
        assert(map_of(s.drop_last()).insert(a, v as nat).insert(s.last().0, s.last().1 as nat)
            =~= map_of(s).insert(a, v as nat));
    }
}

/// Tracks one counter per source address.
pub struct RateLimits {
    entries: Vec<(u128, usize)>,
}

impl RateLimits {
    /// No two entries share an address, and no entry sits at zero
    /// (a zero counter is expressed by absence).
    pub closed spec fn wf(self) -> bool {
        &&& forall|i: int, j: int|
            0 <= i < j < self.entries@.len() ==> self.entries@[i].0 != self.entries@[j].0
        &&& forall|i: int| 0 <= i < self.entries@.len() ==> self.entries@[i].1 >= 1
    }

    pub closed spec fn view(self) -> Map<u128, nat> {
        map_of(self.entries@)
    }

    /// A fresh limiter tracks nothing: every address starts at counter zero.
    pub fn new() -> (r: RateLimits)
        ensures
            r.wf(),
            r@ == Map::<u128, nat>::empty(),
    {
        RateLimits { entries: Vec::new() }
    }

    fn find(&self, addr: u128) -> (r: Option<usize>)
        ensures
            match r {
                Some(i) => i < self.entries@.len() && self.entries@[i as int].0 == addr,
                None => forall|i: int|
                    0 <= i < self.entries@.len() ==> self.entries@[i].0 != addr,
            },
    {
        let n = self.entries.len();
        let mut i: usize = 0;
        while i < n
            invariant
                i <= n,
                n == self.entries@.len(),
                forall|j: int| 0 <= j < i ==> self.entries@[j].0 != addr,
            decreases n - i,
        {
            if self.entries[i].0 == addr {
                return Some(i);
            }
            i = i + 1;
        }
        None
    }

    /// The counter currently charged to an address; zero for one not tracked.
    pub fn counter_of(&self, addr: u128) -> (r: usize)
        requires
            self.wf(),
        ensures
            r == counter(self@, addr),
    {
        match self.find(addr) {
            Some(i) => {
                proof {
                    lemma_map_of_val(self.entries@, i as int);
                }
                self.entries[i].1
            },
            None => {
                proof {
                    lemma_map_of_dom(self.entries@, addr);
                }
                0
            },
        }
    }

    /// One admission check: report whether the address may proceed, and
    /// charge the attempt to its counter either way, so that a persistently
    /// abusive address keeps accumulating count.
    pub fn accept(&mut self, addr: u128) -> (admitted: bool)
        requires
            old(self).wf(),
            counter(old(self)@, addr) < usize::MAX,
        ensures
            final(self).wf(),
            final(self)@ == spec_accept(old(self)@, addr),
            admitted == admits(old(self)@, addr),
    {
        match self.find(addr) {
            Some(i) => {
                proof {
                    lemma_map_of_val(self.entries@, i as int);
                }
                let c = self.entries[i].1;
                let ghost before = self.entries@;
                self.entries.set(i, (addr, c + 1));
                proof {
                    lemma_map_of_update(before, i as int, (c + 1) as usize);
                }
                c < THRESHOLD
            },
            None => {
                proof {
                    lemma_map_of_dom(self.entries@, addr);
                    lemma_map_of_push(self.entries@, addr, 1);
                }
                self.entries.push((addr, 1));
                true
            },
        }
    }

    /// One decay tick: every tracked counter drops by the decay amount,
    /// floored at zero, and addresses whose counter reaches zero are
    /// forgotten entirely.
    pub fn lower(&mut self)
        requires
            old(self).wf(),
        ensures
            final(self).wf(),
            final(self)@ == spec_decay(old(self)@),
    {
        let ghost s = self.entries@;
        let mut kept: Vec<(u128, usize)> = Vec::new();
        let n = self.entries.len();
        let mut i: usize = 0;
        while i < n
            invariant
                i <= n,
                n == self.entries@.len(),
                self.entries@ == s,
                old(self).wf(),
                s == old(self).entries@,
                map_of(kept@) == spec_decay(map_of(s.take(i as int))),
                forall|p: int, q: int| 0 <= p < q < kept@.len() ==> kept@[p].0 != kept@[q].0,
                forall|j: int| 0 <= j < kept@.len() ==> kept@[j].1 >= 1,
                forall|j: int|
                    0 <= j < kept@.len() ==> exists|k: int| 0 <= k < i && #[trigger] kept@[j].0 == s[k].0,
            decreases n - i,
        {
            let (a, c) = self.entries[i];
            proof {
                assert(s.take(i + 1).drop_last() =~= s.take(i as int));
                assert(s.take(i + 1).last() == s[i as int]);
                lemma_map_of_dom(s.take(i as int), a);
                assert(forall|k: int| 0 <= k < i ==> s[k].0 != a);
                assert(!map_of(s.take(i as int)).dom().contains(a));
            }
            if c > DECAY {
                proof {
                    lemma_map_of_push(kept@, a, (c - DECAY) as usize);
                    assert(map_of(kept@).insert(a, (c - DECAY) as nat) =~= spec_decay(
                        map_of(s.take(i + 1)),
                    ));
                }
                kept.push((a, c - DECAY));
            } else {
                proof {
                    assert(map_of(kept@) =~= spec_decay(map_of(s.take(i + 1))));
                }
            }
            i = i + 1;
        }
        proof {
            assert(s.take(n as int) =~= s);
        }
        self.entries = kept;
    }
}

/// The state after a run of `k` admission checks for one address, starting
/// from `m`.
pub open spec fn accepts_n(m: Map<u128, nat>, addr: u128, k: nat) -> Map<u128, nat>
    decreases k,
{
    if k == 0 {
        m
    } else {
        spec_accept(accepts_n(m, addr, (k - 1) as nat), addr)
    }
}

/// Starting from an empty limiter, a run of admission checks for one address
/// leaves its counter at the number of checks, so the next check admits
/// exactly when fewer than the threshold have gone before: the first ten
/// calls admit, every later one rejects.
pub proof fn lemma_first_calls(addr: u128, k: nat)
    ensures
        counter(accepts_n(Map::empty(), addr, k), addr) == k,
        admits(accepts_n(Map::empty(), addr, k), addr) <==> k < THRESHOLD,
    decreases k,
{
    if k > 0 {
        lemma_first_calls(addr, (k - 1) as nat);
    }
}

/// A decay tick never drives a counter negative: an address whose counter
/// sits at the decay amount or below is clamped to zero and pruned from the
/// tracked set.
pub proof fn lemma_decay_clamps(m: Map<u128, nat>, addr: u128)
    requires
        counter(m, addr) <= DECAY,
    ensures
        counter(spec_decay(m), addr) == 0,
        !spec_decay(m).dom().contains(addr),
{
}

/// An address never seen before carries counter zero, so its first
/// admission check always admits.
pub proof fn lemma_fresh_address_admitted(m: Map<u128, nat>, addr: u128)
    requires
        !m.dom().contains(addr),
    ensures
        counter(m, addr) == 0,
        admits(m, addr),
{
}

} // verus!
