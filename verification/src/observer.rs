//! Rate-limited observer hub.
//!
//! Consumers register per-package observers, each carried under an opaque
//! identity. A notification names a package and an update event; it is
//! rejected wholesale when the package is unknown or when the trailing
//! one-second window already holds at least the configured ceiling of
//! deliveries. On success the hub hands back, in registration order, the
//! identities of every observer to invoke, and stamps each observer's
//! `last_notified` with the delivery time. Callback dispatch itself is a
//! side effect owned by the hosting layer, keyed by those identities.

use crate::keys::str_eq;
use crate::version::SemverX;
use vstd::prelude::*;

verus! {

/// Declares uuid's Uuid, an opaque 128-bit identity value.
#[verifier::external_type_specification]
#[verifier::external_body]
pub struct ExUuid(uuid::Uuid);

/// Relies on uuid's derived Clone (Uuid is Copy): the clone is the same value.
pub assume_specification[ <uuid::Uuid as Clone>::clone ](u: &uuid::Uuid) -> (r: uuid::Uuid)
    ensures
        r == *u,
;

/// Identity of a registered observer.
pub type ObserverId = uuid::Uuid;

/// A registered observer: its identity and the time it was last notified,
/// in milliseconds.
pub struct Observer {
    pub id: ObserverId,
    pub last_notified: u64,
}

/// Update event delivered to observers, immutable once built.
#[derive(Debug, Clone)]
pub struct Update {
    pub package_id: String,
    pub old_version: Option<SemverX>,
    pub new_version: SemverX,
    pub update_type: UpdateType,
}

/// How consumers are expected to take an update.
#[derive(Debug, Clone, Copy, PartialEq, Eq, Structural)]
pub enum UpdateType {
    OptIn,
    Mandatory,
    StaleRelease,
}

/// Failures of the observation layer.
#[derive(Debug, Clone, Copy, PartialEq, Eq, Structural)]
pub enum ObserverError {
    TooManyObservers,
    RateLimitExceeded,
    PackageNotFound,
}

/// Hard cap on observers registered against one package.
pub const MAX_OBSERVERS: usize = 100;

/// Length of the trailing rate-limit window, in milliseconds.
pub const RATE_WINDOW_MS: u64 = 1000;

/// Whether a delivery stamped at `t` still falls in the trailing window at
/// `now`. A stamp in the future (a clock that moved backwards) counts as
/// recent rather than reopening the window.
pub open spec fn is_recent(t: u64, now: u64) -> bool {
    if now >= t {
        now - t < RATE_WINDOW_MS
    } else {
        true
    }
}

/// Number of deliveries in `log` that fall in the trailing window at `now`.
pub open spec fn count_recent(log: Seq<u64>, now: u64) -> int
    decreases log.len(),
{
    if log.len() == 0 {
        0
    } else {
        count_recent(log.drop_last(), now) + if is_recent(log.last(), now) {
            1int
        } else {
            0int
        }
    }
}

struct PackageObservers {
    package_id: String,
    observers: Vec<Observer>,
    delivery_log: Vec<u64>,
}

impl PackageObservers {
    spec fn entry_view(self) -> (Seq<Observer>, Seq<u64>) {
        (self.observers@, self.delivery_log@)
    }
}

spec fn table_map(s: Seq<PackageObservers>) -> Map<Seq<char>, (Seq<Observer>, Seq<u64>)>
    decreases s.len(),
{
    if s.len() == 0 {
        Map::empty()
    } else {
        table_map(s.drop_last()).insert(s.last().package_id@, s.last().entry_view())
    }
}

spec fn keys_distinct(s: Seq<PackageObservers>) -> bool {
    forall|i: int, j: int|
        0 <= i < j < s.len() ==> s[i].package_id@ != s[j].package_id@
}

proof fn lemma_table_map_contains(s: Seq<PackageObservers>, i: int)
    requires
        keys_distinct(s),
        0 <= i < s.len(),
    ensures
        table_map(s).contains_key(s[i].package_id@),
        table_map(s)[s[i].package_id@] == s[i].entry_view(),
    decreases s.len(),
{
    if i < s.len() - 1 {
        assert(keys_distinct(s.drop_last()));
        assert(s.drop_last()[i] == s[i]);
        lemma_table_map_contains(s.drop_last(), i);
        assert(s[i].package_id@ != s.last().package_id@);
    }
}

proof fn lemma_table_map_absent(s: Seq<PackageObservers>, k: Seq<char>)
    requires
        forall|i: int| 0 <= i < s.len() ==> s[i].package_id@ != k,
    ensures
        !table_map(s).contains_key(k),
    decreases s.len(),
{
    if s.len() > 0 {
        assert(forall|i: int|
            0 <= i < s.drop_last().len() ==> s.drop_last()[i].package_id@ != k);
        lemma_table_map_absent(s.drop_last(), k);
    }
}

proof fn lemma_table_map_update(s: Seq<PackageObservers>, i: int, e: PackageObservers)
    requires
        keys_distinct(s),
        0 <= i < s.len(),
        e.package_id@ == s[i].package_id@,
    ensures
        table_map(s.update(i, e)) =~= table_map(s).insert(e.package_id@, e.entry_view()),
    decreases s.len(),
{
    if i == s.len() - 1 {
        assert(s.update(i, e).drop_last() =~= s.drop_last());
        assert(s.update(i, e).last() == e);
    } else {
        assert(s.update(i, e).drop_last() =~= s.drop_last().update(i, e));
        assert(keys_distinct(s.drop_last()));
        assert(s.drop_last()[i] == s[i]);
        lemma_table_map_update(s.drop_last(), i, e);
        assert(s.update(i, e).last() == s.last());
        assert(s.last().package_id@ != e.package_id@);
    }
}

proof fn lemma_table_map_push(s: Seq<PackageObservers>, e: PackageObservers)
    ensures
        table_map(s.push(e)) == table_map(s).insert(e.package_id@, e.entry_view()),
{
    assert(s.push(e).drop_last() =~= s);
    assert(s.push(e).last() == e);
}

/// Per-package registration table with a delivery rate limit.
pub struct ObserverManager {
    max_updates_per_sec: u32,
    active_observers: Vec<PackageObservers>,
}

impl ObserverManager {
    /// The registration table: for each known package identifier, the
    /// registered observers in registration order and the log of delivery
    /// times.
    pub closed spec fn view(&self) -> Map<Seq<char>, (Seq<Observer>, Seq<u64>)> {
        table_map(self.active_observers@)
    }

    /// The configured delivery ceiling for one trailing window.
    pub closed spec fn ceiling(&self) -> int {
        self.max_updates_per_sec as int
    }

    pub closed spec fn inv(&self) -> bool {
        keys_distinct(self.active_observers@)
    }

    /// A fresh hub with no registrations. The ceiling must sit in the valid
    /// operating range of 5 to 10 deliveries per second.
    pub fn new(max_updates_per_sec: u32) -> (r: Self)
        requires
            5 <= max_updates_per_sec <= 10,
        ensures
            r.inv(),
            r@ == Map::<Seq<char>, (Seq<Observer>, Seq<u64>)>::empty(),
            r.ceiling() == max_updates_per_sec,
    {
        ObserverManager { max_updates_per_sec, active_observers: Vec::new() }
    }

    fn find_entry(&self, package_id: &str) -> (r: Option<usize>)
        requires
            self.inv(),
        ensures
            match r {
                Some(i) => i < self.active_observers@.len()
                    && self.active_observers@[i as int].package_id@ == package_id@
                    && self@.contains_key(package_id@)
                    && self@[package_id@] == self.active_observers@[i as int].entry_view(),
                None => !self@.contains_key(package_id@),
            },
    {
        let n = self.active_observers.len();
        let mut i: usize = 0;
        while i < n
            invariant
                n == self.active_observers@.len(),
                i <= n,
                self.inv(),
                forall|j: int| 0 <= j < i ==> self.active_observers@[j].package_id@ != package_id@,
            decreases n - i,
        {
            if str_eq(self.active_observers[i].package_id.as_str(), package_id) {
                proof {
                    lemma_table_map_contains(self.active_observers@, i as int);
                }
                return Some(i);
            }
            i += 1;
        }
        proof {
            lemma_table_map_absent(self.active_observers@, package_id@);
        }
        None
    }

    /// Register an observer against a package. Rejected with
    /// `TooManyObservers` iff the package already carries the hard cap of
    /// registered observers; the prior registrations then stay untouched.
    pub fn register(&mut self, package_id: &str, observer: Observer) -> (r: Result<
        (),
        ObserverError,
    >)
        requires
            old(self).inv(),
        ensures
            final(self).inv(),
            final(self).ceiling() == old(self).ceiling(),
            r is Err <==> old(self)@.contains_key(package_id@) && old(
                self,
            )@[package_id@].0.len() >= MAX_OBSERVERS,
            r is Err ==> r == Result::<(), ObserverError>::Err(ObserverError::TooManyObservers)
                && final(self)@ == old(self)@,
            r is Ok && old(self)@.contains_key(package_id@) ==> final(self)@ == old(self)@.insert(
                package_id@,
                (old(self)@[package_id@].0.push(observer), old(self)@[package_id@].1),
            ),
            r is Ok && !old(self)@.contains_key(package_id@) ==> final(self)@ == old(self)@.insert(
                package_id@,
                (seq![observer], Seq::<u64>::empty()),
            ),
    {
        match self.find_entry(package_id) {
            Some(i) => {
                if self.active_observers[i].observers.len() >= MAX_OBSERVERS {
                    return Err(ObserverError::TooManyObservers);
                }
                let ghost old_table = self.active_observers@;
                let mut entry = self.active_observers.remove(i);
                entry.observers.push(observer);
                self.active_observers.insert(i, entry);
                proof {
                    assert(self.active_observers@ =~= old_table.update(i as int, entry));
                    lemma_table_map_update(old_table, i as int, entry);
                    assert(forall|j: int|
                        0 <= j < old_table.len() ==> self.active_observers@[j].package_id@
                            == old_table[j].package_id@);
                    assert(final(self)@ =~= old(self)@.insert(
                        package_id@,
                        (old(self)@[package_id@].0.push(observer), old(self)@[package_id@].1),
                    ));
                }
                Ok(())
            },
            None => {
                let ghost old_table = self.active_observers@;
                let entry = PackageObservers {
                    package_id: package_id.to_owned(),
                    observers: vec![observer],
                    delivery_log: Vec::new(),
                };
                self.active_observers.push(entry);
                proof {
                    assert forall|j: int|
                        0 <= j < old_table.len() implies old_table[j].package_id@
                        != package_id@ by {
                        if old_table[j].package_id@ == package_id@ {
                            lemma_table_map_contains(old_table, j);
                        }
                    }
                    lemma_table_map_push(old_table, entry);
                    assert(seq![observer] =~= entry.observers@);
                    assert(final(self)@ =~= old(self)@.insert(
                        package_id@,
                        (seq![observer], Seq::<u64>::empty()),
                    ));
                }
                Ok(())
            },
        }
    }

    /// Deliver an update to every observer of a package, subject to the
    /// trailing-window rate limit.
    ///
    /// Fails with `PackageNotFound` iff the package has no registration
    /// entry, and with `RateLimitExceeded` iff the window at `now_ms`
    /// already holds at least the ceiling of deliveries; in both cases the
    /// hub is unchanged and nothing is delivered. On success the result
    /// lists, in registration order, the identity of every observer to
    /// invoke with the update; each observer is stamped with `now_ms`, and
    /// one delivery per observer is appended to the package's log.
    pub fn notify(&mut self, package_id: &str, update: &Update, now_ms: u64) -> (r: Result<
        Vec<ObserverId>,
        ObserverError,
    >)
        requires
            old(self).inv(),
        ensures
            final(self).inv(),
            final(self).ceiling() == old(self).ceiling(),
            r == Result::<Vec<ObserverId>, ObserverError>::Err(ObserverError::PackageNotFound)
                <==> !old(self)@.contains_key(package_id@),
            r == Result::<Vec<ObserverId>, ObserverError>::Err(ObserverError::RateLimitExceeded)
                <==> old(self)@.contains_key(package_id@) && count_recent(
                old(self)@[package_id@].1,
                now_ms,
            ) >= old(self).ceiling(),
            r is Err ==> final(self)@ == old(self)@,
            r is Ok <==> old(self)@.contains_key(package_id@) && count_recent(
                old(self)@[package_id@].1,
                now_ms,
            ) < old(self).ceiling(),
            r matches Ok(ids) ==> {
                let obs = old(self)@[package_id@].0;
                &&& old(self)@.contains_key(package_id@)
                &&& count_recent(old(self)@[package_id@].1, now_ms) < old(self).ceiling()
                &&& ids@.len() == obs.len()
                &&& forall|i: int| 0 <= i < obs.len() ==> ids@[i] == obs[i].id
                &&& final(self)@ == old(self)@.insert(
                    package_id@,
                    (
                        Seq::new(obs.len(), |i: int| Observer { id: obs[i].id, last_notified: now_ms }),
                        old(self)@[package_id@].1 + Seq::new(obs.len(), |i: int| now_ms),
                    ),
                )
            },
    {
        let i = match self.find_entry(package_id) {
            Some(i) => i,
            None => {
                return Err(ObserverError::PackageNotFound);
            },
        };
        let ghost old_table = self.active_observers@;
        let entry = &self.active_observers[i];
        let log_len = entry.delivery_log.len();
        let mut recent: u64 = 0;
        let mut j: usize = 0;
        while j < log_len
            invariant
                log_len == entry.delivery_log@.len(),
                entry == &self.active_observers@[i as int],
                i < self.active_observers@.len(),
                j <= log_len,
                recent == count_recent(entry.delivery_log@.take(j as int), now_ms),
                recent <= j,
            decreases log_len - j,
        {
            let t = entry.delivery_log[j];
            proof {
                assert(entry.delivery_log@.take(j + 1).drop_last() =~= entry.delivery_log@.take(
                    j as int,
                ));
                assert(entry.delivery_log@.take(j + 1).last() == t);
            }
            if now_ms >= t {
                if now_ms - t < RATE_WINDOW_MS {
                    recent += 1;
                }
            } else {
                recent += 1;
            }
            j += 1;
        }
        proof {
            assert(entry.delivery_log@.take(log_len as int) =~= entry.delivery_log@);
        }
        if recent >= self.max_updates_per_sec as u64 {
            return Err(ObserverError::RateLimitExceeded);
        }
        let mut entry = self.active_observers.remove(i);
        let ghost obs0 = entry.observers@;
        let ghost log0 = entry.delivery_log@;
        let n = entry.observers.len();
        let mut ids: Vec<ObserverId> = Vec::new();
        let mut stamped: Vec<Observer> = Vec::new();
        let mut k: usize = 0;
        while k < n
            invariant
                n == entry.observers@.len(),
                entry.observers@ == obs0,
                k <= n,
                ids@.len() == k,
                stamped@.len() == k,
                forall|m: int| 0 <= m < k ==> ids@[m] == obs0[m].id,
                forall|m: int|
                    0 <= m < k ==> stamped@[m] == (Observer {
                        id: obs0[m].id,
                        last_notified: now_ms,
                    }),
            decreases n - k,
        {
            let o = &entry.observers[k];
            ids.push(o.id.clone());
            stamped.push(Observer { id: o.id.clone(), last_notified: now_ms });
            k += 1;
        }
        let mut deliveries = entry.delivery_log;
        let mut d: usize = 0;
        while d < n
            invariant
                d <= n,
                deliveries@ == log0 + Seq::new(d as nat, |i: int| now_ms),
            decreases n - d,
        {
            deliveries.push(now_ms);
            proof {
                assert((log0 + Seq::new(d as nat, |i: int| now_ms)).push(now_ms) =~= log0
                    + Seq::new((d + 1) as nat, |i: int| now_ms));
            }
            d += 1;
        }
        let new_entry = PackageObservers {
            package_id: entry.package_id,
            observers: stamped,
            delivery_log: deliveries,
        };
        self.active_observers.insert(i, new_entry);
        proof {
            assert(self.active_observers@ =~= old_table.update(i as int, new_entry));
            lemma_table_map_update(old_table, i as int, new_entry);
            assert(forall|j: int|
                0 <= j < old_table.len() ==> self.active_observers@[j].package_id@
                    == old_table[j].package_id@);
            assert(new_entry.observers@ =~= Seq::new(
                obs0.len(),
                |i: int| Observer { id: obs0[i].id, last_notified: now_ms },
            ));
            assert(new_entry.delivery_log@ =~= log0 + Seq::new(obs0.len(), |i: int| now_ms));
        }
        Ok(ids)
    }
}

} // verus!
