//! Bookkeeping for the background endpoint-refresh loop.
//!
//! Peers may be specified by a dynamic hostname. While a tunnel runs, a
//! periodic tick re-resolves each peer's original endpoint and pushes a
//! minimal control-protocol update only when the resolved address differs
//! from the last one pushed for that peer; an unchanged address emits
//! nothing. The loop itself (timer, DNS, socket) lives with the caller,
//! which consults this state before and after each push.

use vstd::prelude::*;

verus! {

/// The last address pushed for one peer, keyed by the peer's public key.
pub struct PeerEndpointRecord {
    pub peer: String,
    pub address: String,
}

/// What the refresh loop remembers between ticks.
pub struct RefreshState {
    pub seen: Vec<PeerEndpointRecord>,
}

impl RefreshState {
    /// At most one record per peer key.
    pub open spec fn wf(self) -> bool {
        forall|i: int, j: int|
            0 <= i < j < self.seen@.len() ==> #[trigger] self.seen@[i].peer@
                != #[trigger] self.seen@[j].peer@
    }

    pub open spec fn has_key(self, pk: Seq<char>) -> bool {
        exists|i: int| 0 <= i < self.seen@.len() && #[trigger] self.seen@[i].peer@ == pk
    }

    pub open spec fn key_index(self, pk: Seq<char>) -> int {
        choose|i: int| 0 <= i < self.seen@.len() && #[trigger] self.seen@[i].peer@ == pk
    }

    /// The address last pushed for this peer; meaningful when `has_key`.
    pub open spec fn last_of(self, pk: Seq<char>) -> Seq<char> {
        self.seen@[self.key_index(pk)].address@
    }

    /// Whether a freshly resolved address calls for a push: yes on the
    /// first resolution of a peer, yes on a changed address, no otherwise.
    pub open spec fn needs_update_spec(self, pk: Seq<char>, resolved: Seq<char>) -> bool {
        !(self.has_key(pk) && self.last_of(pk) == resolved)
    }

    pub fn new() -> (r: RefreshState)
        ensures
            r.wf(),
            forall|pk: Seq<char>| !r.has_key(pk),
    {
        RefreshState { seen: Vec::new() }
    }

    proof fn lemma_found_is_key_index(self, pk: Seq<char>, i: int)
        requires
            self.wf(),
            0 <= i < self.seen@.len(),
            self.seen@[i].peer@ == pk,
        ensures
            self.key_index(pk) == i,
    {
        let j = self.key_index(pk);
        assert(self.has_key(pk));
        if j < i {
            assert(self.seen@[j].peer@ != self.seen@[i].peer@);
        } else if j > i {
            assert(self.seen@[i].peer@ != self.seen@[j].peer@);
        }
    }

    fn find(&self, pk: &str) -> (r: Option<usize>)
        ensures
            r is Some ==> r.unwrap() < self.seen@.len() && self.seen@[
                r.unwrap() as int
            ].peer@ == pk@,
            r is None ==> !self.has_key(pk@),
    {
        let n = self.seen.len();
        let mut i: usize = 0;
        while i < n
            invariant
                0 <= i <= n,
                n == self.seen@.len(),
                forall|j: int| 0 <= j < i ==> #[trigger] self.seen@[j].peer@ != pk@,
            decreases n - i,
        {
            if crate::text::str_eq(self.seen[i].peer.as_str(), pk) {
                return Some(i);
            }
            i += 1;
        }
        None
    }

    /// Decides whether this tick's resolution of `pk` warrants a push.
    pub fn needs_update(&self, pk: &str, resolved: &str) -> (r: bool)
        requires
            self.wf(),
        ensures
            r == self.needs_update_spec(pk@, resolved@),
    {
        match self.find(pk) {
            None => true,
            Some(i) => {
                proof {
                    self.lemma_found_is_key_index(pk@, i as int);
                }
                !crate::text::str_eq(self.seen[i].address.as_str(), resolved)
            },
        }
    }

    /// Records that an update for `pk` with address `resolved` was pushed
    /// successfully; the next tick with the same resolution emits nothing.
    pub fn record_pushed(&mut self, pk: &str, resolved: &str)
        requires
            old(self).wf(),
        ensures
            final(self).wf(),
            final(self).has_key(pk@),
            final(self).last_of(pk@) == resolved@,
            forall|other: Seq<char>|
                other != pk@ ==> (#[trigger] final(self).has_key(other) <==> old(self).has_key(
                    other,
                )),
            forall|other: Seq<char>|
                other != pk@ && old(self).has_key(other) ==> #[trigger] final(self).last_of(other)
                    == old(self).last_of(other),
    {
        let rec = PeerEndpointRecord { peer: pk.to_owned(), address: resolved.to_owned() };
        match self.find(pk) {
            Some(i) => {
                let ghost oldseq = self.seen@;
                self.seen.remove(i);
                self.seen.push(rec);
                proof {
                    let n = self.seen@.len() as int;
                    assert forall|a: int, b: int|
                        0 <= a < b < self.seen@.len() implies #[trigger] self.seen@[a].peer@
                        != #[trigger] self.seen@[b].peer@ by {
                        if b < n - 1 {
                            let oa = if a < i {
                                a
                            } else {
                                a + 1
                            };
                            let ob = if b < i {
                                b
                            } else {
                                b + 1
                            };
                            assert(self.seen@[a] == oldseq[oa]);
                            assert(self.seen@[b] == oldseq[ob]);
                        } else {
                            let oa = if a < i {
                                a
                            } else {
                                a + 1
                            };
                            assert(self.seen@[a] == oldseq[oa]);
                            assert(self.seen@[b].peer@ == pk@);
                            assert(oldseq[i as int].peer@ == pk@);
                            if oa != i {
                                assert(oldseq[oa].peer@ != oldseq[i as int].peer@);
                            }
                        }
                    }
                    assert(self.seen@[n - 1].peer@ == pk@);
                    self.lemma_found_is_key_index(pk@, n - 1);
                    assert forall|other: Seq<char>|
                        other != pk@ implies (#[trigger] self.has_key(other) <==> old(
                        self,
                    ).has_key(other)) by {
                        if old(self).has_key(other) {
                            let oi = choose|x: int|
                                0 <= x < oldseq.len() && #[trigger] oldseq[x].peer@ == other;
                            let ni = if oi < i as int {
                                oi
                            } else {
                                oi - 1
                            };
                            assert(oi != i as int);
                            assert(self.seen@[ni] == oldseq[oi]);
                        }
                        if self.has_key(other) {
                            let x = choose|x: int|
                                0 <= x < self.seen@.len() && #[trigger] self.seen@[x].peer@
                                    == other;
                            assert(x < n - 1);
                            let ox = if x < i as int {
                                x
                            } else {
                                x + 1
                            };
                            assert(self.seen@[x] == oldseq[ox]);
                        }
                    }
                    assert forall|other: Seq<char>|
                        other != pk@ && old(self).has_key(other) implies #[trigger] self.last_of(
                        other,
                    ) == old(self).last_of(other) by {
                        let oi = old(self).key_index(other);
                        old(self).lemma_found_is_key_index(other, oi);
                        let ni = if oi < i as int {
                            oi
                        } else {
                            oi - 1
                        };
                        assert(oi != i as int);
                        assert(self.seen@[ni] == oldseq[oi]);
                        self.lemma_found_is_key_index(other, ni);
                    }
                }
            },
            None => {
                let ghost oldseq = self.seen@;
                self.seen.push(rec);
                proof {
                    let n = self.seen@.len() as int;
                    assert forall|a: int, b: int|
                        0 <= a < b < self.seen@.len() implies #[trigger] self.seen@[a].peer@
                        != #[trigger] self.seen@[b].peer@ by {
                        if b < n - 1 {
                            assert(self.seen@[a] == oldseq[a]);
                            assert(self.seen@[b] == oldseq[b]);
                        } else {
                            assert(self.seen@[a] == oldseq[a]);
                            assert(self.seen@[b].peer@ == pk@);
                            assert(!old(self).has_key(pk@));
                        }
                    }
                    assert(self.seen@[n - 1].peer@ == pk@);
                    self.lemma_found_is_key_index(pk@, n - 1);
                    assert forall|other: Seq<char>|
                        other != pk@ implies (#[trigger] self.has_key(other) <==> old(
                        self,
                    ).has_key(other)) by {
                        if old(self).has_key(other) {
                            let oi = choose|x: int|
                                0 <= x < oldseq.len() && #[trigger] oldseq[x].peer@ == other;
                            assert(self.seen@[oi] == oldseq[oi]);
                        }
                        if self.has_key(other) {
                            let x = choose|x: int|
                                0 <= x < self.seen@.len() && #[trigger] self.seen@[x].peer@
                                    == other;
                            assert(x < n - 1);
                            assert(self.seen@[x] == oldseq[x]);
                        }
                    }
                    assert forall|other: Seq<char>|
                        other != pk@ && old(self).has_key(other) implies #[trigger] self.last_of(
                        other,
                    ) == old(self).last_of(other) by {
                        let oi = old(self).key_index(other);
                        old(self).lemma_found_is_key_index(other, oi);
                        assert(self.seen@[oi] == oldseq[oi]);
                        self.lemma_found_is_key_index(other, oi);
                    }
                }
            },
        }
    }
}

/// Law: a tick whose resolution equals the address last pushed for that
/// peer emits no update; in particular, after any successful push, repeated
/// ticks with an unchanged resolved address emit zero updates.
pub proof fn lemma_unchanged_address_emits_nothing(
    s: RefreshState,
    pk: Seq<char>,
    addr: Seq<char>,
)
    requires
        s.has_key(pk),
        s.last_of(pk) == addr,
    ensures
        !s.needs_update_spec(pk, addr),
{
}

} // verus!
