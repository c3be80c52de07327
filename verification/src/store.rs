use vstd::prelude::*;

use crate::session::{Session, SessionV};
use crate::MAX_TIMEOUT_MS;

verus! {

/// Mathematical image of one store slot. While a relay loop holds the slot's
/// session exclusively, `locked` is true and the session is out of the store.
pub ghost struct EntryV {
    pub id: u64,
    pub locked: bool,
    pub sess: Option<SessionV>,
}

/// A session sat unused past its idle timeout.
pub open spec fn entry_expired(e: EntryV, now_ms: u64) -> bool {
    e.sess matches Some(s) && now_ms > s.last_use && now_ms - s.last_use > s.timeout_ms
}

/// The sweeper keeps a slot when it is held by a live relay or not yet idle.
pub open spec fn keep_entry(e: EntryV, now_ms: u64) -> bool {
    e.locked || !entry_expired(e, now_ms)
}

/// The store after one sweep: the kept slots, in their original order.
pub open spec fn swept(es: Seq<EntryV>, now_ms: u64) -> Seq<EntryV>
    decreases es.len(),
{
    if es.len() == 0 {
        Seq::empty()
    } else {
        let rest = swept(es.drop_last(), now_ms);
        if keep_entry(es.last(), now_ms) {
            rest.push(es.last())
        } else {
            rest
        }
    }
}

/// The ids one sweep removes, in their original order.
pub open spec fn swept_ids(es: Seq<EntryV>, now_ms: u64) -> Seq<u64>
    decreases es.len(),
{
    if es.len() == 0 {
        Seq::empty()
    } else {
        let rest = swept_ids(es.drop_last(), now_ms);
        if keep_entry(es.last(), now_ms) {
            rest
        } else {
            rest.push(es.last().id)
        }
    }
}

pub open spec fn has_id(es: Seq<EntryV>, id: u64) -> bool {
    exists|i: int| 0 <= i < es.len() && es[i].id == id
}

/// The slot of `id`; meaningful only under `has_id`, and unique once the
/// store's ids are distinct.
pub open spec fn idx_of(es: Seq<EntryV>, id: u64) -> int {
    choose|i: int| 0 <= i < es.len() && es[i].id == id
}

/// The store invariant over the slot sequence: ids are distinct, a locked
/// slot is exactly one whose session is out with a relay, and every resting
/// session is well formed and filed under its own id.
pub open spec fn entries_wf(es: Seq<EntryV>) -> bool {
    &&& forall|i: int, j: int| 0 <= i < j < es.len() ==> es[i].id != es[j].id
    &&& forall|i: int| 0 <= i < es.len() ==> (#[trigger] es[i].locked <==> es[i].sess is None)
    &&& forall|i: int|
        0 <= i < es.len() ==> ((#[trigger] es[i].sess) matches Some(s) ==> s.wf() && s.id
            == es[i].id)
}

/// Sweeping preserves the store invariant, and introduces no id that was not
/// already filed.
proof fn lemma_swept_wf(es: Seq<EntryV>, now_ms: u64)
    requires
        entries_wf(es),
    ensures
        entries_wf(swept(es, now_ms)),
        forall|i: int|
            0 <= i < swept(es, now_ms).len() ==> has_id(es, (#[trigger] swept(es, now_ms)[i]).id),
    decreases es.len(),
{
    if es.len() > 0 {
        let d = es.drop_last();
        assert(forall|i: int| 0 <= i < d.len() ==> d[i] == es[i]);
        assert(entries_wf(d));
        lemma_swept_wf(d, now_ms);
        let rest = swept(d, now_ms);
        let w = swept(es, now_ms);
        assert(es[es.len() - 1] == es.last());
        assert forall|i: int| 0 <= i < w.len() implies has_id(es, (#[trigger] w[i]).id) by {
            if i < rest.len() {
                assert(w[i] == rest[i]);
                let k = choose|k: int| 0 <= k < d.len() && d[k].id == rest[i].id;
                assert(es[k].id == w[i].id);
            } else {
                assert(w[i] == es.last());
            }
        }
        assert forall|i: int, j: int| 0 <= i < j < w.len() implies w[i].id != w[j].id by {
            if j < rest.len() {
                assert(w[i] == rest[i] && w[j] == rest[j]);
            } else {
                assert(w[j] == es.last());
                assert(w[i] == rest[i]);
                assert(has_id(d, rest[i].id));
                let k = choose|k: int| 0 <= k < d.len() && d[k].id == rest[i].id;
                assert(es[k].id == rest[i].id);
            }
        }
        assert forall|i: int| 0 <= i < w.len() implies ((#[trigger] w[i]).locked <==> w[i].sess
            is None) by {
            if i < rest.len() {
                assert(w[i] == rest[i]);
            } else {
                assert(w[i] == es.last());
            }
        }
        assert forall|i: int|
            0 <= i < w.len() implies ((#[trigger] w[i]).sess matches Some(s) ==> s.wf() && s.id
            == w[i].id) by {
            if i < rest.len() {
                assert(w[i] == rest[i]);
            } else {
                assert(w[i] == es.last());
            }
        }
    }
}

struct StoreEntry {
    id: u64,
    locked: bool,
    sess: Option<Session>,
}

impl View for StoreEntry {
    type V = EntryV;

    closed spec fn view(&self) -> EntryV {
        EntryV {
            id: self.id,
            locked: self.locked,
            sess: match self.sess {
                Option::Some(s) => Some(s@),
                Option::None => None,
            },
        }
    }
}

/// The terminator's table of sessions by id. Each slot is either occupied by
/// an idle session or locked while exactly one relay loop holds the session;
/// a second attach under a live id is refused without touching anything.
pub struct SessionStore {
    entries: Vec<StoreEntry>,
}

spec fn views_of(es: Seq<StoreEntry>) -> Seq<EntryV> {
    es.map_values(|e: StoreEntry| e@)
}

impl View for SessionStore {
    type V = Seq<EntryV>;

    closed spec fn view(&self) -> Seq<EntryV> {
        views_of(self.entries@)
    }
}

impl SessionStore {
    /// Store invariant: ids are distinct, a locked slot is exactly one whose
    /// session is out with a relay, and every resting session is well formed
    /// and filed under its own id.
    pub open spec fn wf(&self) -> bool {
        entries_wf(self@)
    }

    pub fn new() -> (r: SessionStore)
        ensures
            r.wf(),
            r@.len() == 0,
    {
        SessionStore { entries: Vec::new() }
    }

    pub fn len(&self) -> (r: usize)
        ensures
            r == self@.len(),
    {
        self.entries.len()
    }

    fn find(&self, id: u64) -> (r: Option<usize>)
        requires
            self.wf(),
        ensures
            match r {
                Option::Some(i) => i < self@.len() && self@[i as int].id == id && has_id(
                    self@,
                    id,
                ) && idx_of(self@, id) == i,
                Option::None => !has_id(self@, id),
            },
    {
        let mut i: usize = 0;
        while i < self.entries.len()
            invariant
                self.wf(),
                0 <= i <= self@.len(),
                forall|k: int| 0 <= k < i ==> self@[k].id != id,
            decreases self@.len() - i,
        {
            if self.entries[i].id == id {
                proof {
                    assert(self@[i as int].id == id);
                    let j = idx_of(self@, id);
                    assert(0 <= j < self@.len() && self@[j].id == id);
                }
                return Some(i);
            }
            i += 1;
        }
        None
    }

    /// True when a relay loop currently holds the session of `id`.
    pub fn is_locked(&self, id: u64) -> (r: bool)
        requires
            self.wf(),
        ensures
            r == (has_id(self@, id) && self@[idx_of(self@, id)].locked),
    {
        match self.find(id) {
            Option::Some(i) => self.entries[i].locked,
            Option::None => false,
        }
    }

    /// One WebSocket attach: looks the id up, creating a fresh slot when it
    /// is new, and takes the session out under the slot's exclusive lock.
    /// When the id is already held by a live relay, nothing at all changes
    /// and the attach is refused.
    pub fn try_attach(&mut self, id: u64, timeout_ms: u64, now_ms: u64) -> (r: Option<Session>)
        requires
            old(self).wf(),
            id != 0,
        ensures
            final(self).wf(),
            // refusal of a concurrent attach: the store, and so the live
            // session's slot, is untouched
            (has_id(old(self)@, id) && old(self)@[idx_of(old(self)@, id)].locked) ==> (r is None
                && final(self)@ == old(self)@),
            // reattach to a resting session: it comes out, the slot locks
            (has_id(old(self)@, id) && !old(self)@[idx_of(old(self)@, id)].locked) ==> (r matches
                Some(s) && Some(s@) == old(self)@[idx_of(old(self)@, id)].sess && final(self)@
                == old(self)@.update(
                idx_of(old(self)@, id),
                EntryV { id, locked: true, sess: None },
            )),
            // a new id: a fresh empty session is filed and comes out locked
            !has_id(old(self)@, id) ==> (r matches Some(s) && s.wf() && s@.id == id
                && s@.timeout_ms == (if timeout_ms <= MAX_TIMEOUT_MS {
                timeout_ms
            } else {
                MAX_TIMEOUT_MS
            }) && s@.read_cursor == 0 && s@.write_cursor == 0 && s@.buffer.len() == 0
                && !s@.closed && !s@.has_tcp && s@.last_use == now_ms && final(self)@ == old(
                self,
            )@.push(EntryV { id, locked: true, sess: None })),
            r matches Some(s) ==> s.wf(),
    {
        match self.find(id) {
            Option::Some(i) => {
                if self.entries[i].locked {
                    return None;
                }
                proof {
                    assert(old(self)@[i as int] == old(self).entries@[i as int]@);
                    assert(!old(self)@[i as int].locked);
                    assert(old(self)@[i as int].sess is Some);
                }
                let e = self.entries.remove(i);
                let s = match e.sess {
                    Option::Some(s) => s,
                    Option::None => {
                        proof {
                            assert(e@ == old(self)@[i as int]);
                            assert(e@.sess is None);
                            assert(false);
                        }
                        vstd::pervasive::unreached()
                    },
                };
                self.entries.insert(i, StoreEntry { id, locked: true, sess: None });
                proof {
                    assert(self@ =~= old(self)@.update(
                        i as int,
                        EntryV { id, locked: true, sess: None },
                    ));
                }
                Some(s)
            },
            Option::None => {
                let s = Session::new(id, timeout_ms, false, now_ms);
                self.entries.push(StoreEntry { id, locked: true, sess: None });
                proof {
                    assert(self@ =~= old(self)@.push(
                        EntryV { id, locked: true, sess: None },
                    ));
                }
                Some(s)
            },
        }
    }

    /// Puts a session back into its locked slot when its relay loop ends,
    /// unlocking it and stamping the activity clock.
    pub fn detach(&mut self, id: u64, sess: Session, now_ms: u64)
        requires
            old(self).wf(),
            sess.wf(),
            sess@.id == id,
            has_id(old(self)@, id),
            old(self)@[idx_of(old(self)@, id)].locked,
        ensures
            final(self).wf(),
            final(self)@ == old(self)@.update(
                idx_of(old(self)@, id),
                EntryV { id, locked: false, sess: Some(SessionV { last_use: now_ms, ..sess@ }) },
            ),
    {
        let i = match self.find(id) {
            Option::Some(i) => i,
            Option::None => {
                proof {
                    assert(false);
                }
                vstd::pervasive::unreached()
            },
        };
        let ghost sv = sess@;
        let mut sess = sess;
        sess.touch(now_ms);
        let _ = self.entries.remove(i);
        self.entries.insert(i, StoreEntry { id, locked: false, sess: Some(sess) });
        proof {
            assert(self@ =~= old(self)@.update(
                i as int,
                EntryV { id, locked: false, sess: Some(SessionV { last_use: now_ms, ..sv }) },
            ));
        }
    }

    /// One pass of the background sweeper: every slot that is not locked and
    /// whose session has sat idle past its timeout is removed; everything
    /// else stays, in order. Returns the removed ids.
    pub fn sweep(&mut self, now_ms: u64) -> (removed: Vec<u64>)
        requires
            old(self).wf(),
        ensures
            final(self).wf(),
            final(self)@ == swept(old(self)@, now_ms),
            removed@ == swept_ids(old(self)@, now_ms),
    {
        let mut kept: Vec<StoreEntry> = Vec::new();
        let mut removed: Vec<u64> = Vec::new();
        let ghost orig = self.entries@;
        let total = self.entries.len();
        proof {
            assert(orig.len() == total as int);
        }
        let mut k: usize = 0;
        while self.entries.len() > 0
            invariant
                orig.len() <= usize::MAX,
                self.entries@ =~= orig.skip(k as int),
                0 <= k <= orig.len(),
                views_of(kept@) =~= swept(views_of(orig.take(k as int)), now_ms),
                removed@ =~= swept_ids(views_of(orig.take(k as int)), now_ms),
            decreases self.entries@.len(),
        {
            proof {
                assert(orig.skip(k as int)[0] == orig[k as int]);
            }
            let e = self.entries.remove(0);
            let expired = match &e.sess {
                Option::Some(s) => s.expired(now_ms),
                Option::None => false,
            };
            proof {
                assert(self.entries@ =~= orig.skip(k as int + 1));
                let prev = views_of(orig.take(k as int));
                let cur = views_of(orig.take(k as int + 1));
                assert(cur.drop_last() =~= prev);
                assert(cur.last() == orig[k as int]@);
                assert(keep_entry(e@, now_ms) == (e.locked || !expired));
            }
            if e.locked || !expired {
                let ghost kept0 = kept@;
                kept.push(e);
                proof {
                    assert(views_of(kept@) =~= views_of(kept0).push(kept@.last()@));
                }
            } else {
                removed.push(e.id);
            }
            k += 1;
            proof {
                assert(views_of(kept@) =~= swept(views_of(orig.take(k as int)), now_ms));
                assert(removed@ =~= swept_ids(views_of(orig.take(k as int)), now_ms));
            }
        }
        proof {
            assert(orig.take(k as int) =~= orig);
            lemma_swept_wf(views_of(orig), now_ms);
        }
        self.entries = kept;
        removed
    }
}

/// Law: idle reaping. A sweep removes exactly the slots that are unlocked
/// and expired: everything the swept store keeps is live or fresh, and every
/// slot that was live or fresh is still there.
pub proof fn lemma_sweep_reaps(es: Seq<EntryV>, now_ms: u64)
    ensures
        forall|i: int|
            0 <= i < swept(es, now_ms).len() ==> keep_entry(#[trigger] swept(es, now_ms)[i], now_ms),
        forall|i: int|
            0 <= i < es.len() && keep_entry(#[trigger] es[i], now_ms) ==> swept(
                es,
                now_ms,
            ).contains(es[i]),
    decreases es.len(),
{
    if es.len() > 0 {
        lemma_sweep_reaps(es.drop_last(), now_ms);
        let rest = swept(es.drop_last(), now_ms);
        assert(forall|i: int|
            0 <= i < rest.len() ==> #[trigger] rest.push(es.last())[i] == rest[i]);
        assert(forall|i: int| 0 <= i < es.len() - 1 ==> es[i] == es.drop_last()[i]);
        if keep_entry(es.last(), now_ms) {
            assert(swept(es, now_ms).contains(es.last())) by {
                assert(swept(es, now_ms).last() == es.last());
            }
        }
        assert(forall|x: EntryV| rest.contains(x) ==> swept(es, now_ms).contains(x)) by {
            assert(forall|i: int|
                0 <= i < rest.len() ==> swept(es, now_ms)[i] == #[trigger] rest[i]);
        }
    }
}

} // verus!
