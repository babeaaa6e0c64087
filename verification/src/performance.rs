//! Performance utilities: frame statistics, a timer, lazy initialisation
//! and a small bounded cache.

use vstd::prelude::*;
use vstd::std_specs::cmp::PartialEqSpec;

verus! {

/// The position of the first entry whose key equals `key`, under the
/// specification of `K`'s equality.
pub open spec fn spec_find_key<K: PartialEq, V>(es: Seq<(K, V)>, key: K) -> Option<int>
    decreases es.len(),
{
    if es.len() == 0 {
        None
    } else if es[0].0.eq_spec(&key) {
        Some(0int)
    } else {
        match spec_find_key(es.drop_first(), key) {
            None => None,
            Some(j) => Some(j + 1),
        }
    }
}

/// `spec_find_key` names the first matching position, or there is none.
proof fn lemma_find_key<K: PartialEq, V>(es: Seq<(K, V)>, key: K)
    ensures
        match spec_find_key(es, key) {
            None => forall|j: int| 0 <= j < es.len() ==> !(#[trigger] es[j]).0.eq_spec(&key),
            Some(j) => 0 <= j < es.len() && es[j].0.eq_spec(&key) && forall|k: int|
                0 <= k < j ==> !(#[trigger] es[k]).0.eq_spec(&key),
        },
    decreases es.len(),
{
    if es.len() > 0 && !es[0].0.eq_spec(&key) {
        let tail = es.drop_first();
        lemma_find_key(tail, key);
        match spec_find_key(tail, key) {
            None => {
                assert forall|j: int| 0 <= j < es.len() implies !(#[trigger] es[j]).0.eq_spec(
                    &key,
                ) by {
                    if j > 0 {
                        assert(tail[j - 1] == es[j]);
                        assert(!tail[j - 1].0.eq_spec(&key));
                    }
                }
            },
            Some(tj) => {
                assert(spec_find_key(es, key) == Some(tj + 1));
                assert(tail[tj] == es[tj + 1]);
                assert forall|k: int| 0 <= k < tj + 1 implies !(#[trigger] es[k]).0.eq_spec(
                    &key,
                ) by {
                    if k > 0 {
                        assert(tail[k - 1] == es[k]);
                        assert(!tail[k - 1].0.eq_spec(&key));
                    }
                }
            },
        }
    }
}

/// A running timer.  The start time is microseconds since the Unix epoch.
#[derive(Debug)]
pub struct PerfTimer {
    pub name: &'static str,
    pub start_micros: u64,
}

impl PerfTimer {
    /// Start timing now.
    pub fn start(name: &'static str) -> (r: Self)
        ensures
            r.name == name,
    {
        PerfTimer { name, start_micros: crate::history::current_micros() }
    }
}

/// Frame statistics of the renderer.  Owned by a single session, like the
/// rest of the engine, so plain counters suffice.
#[derive(Debug, Clone, Copy, Default)]
pub struct PerfStats {
    /// How many frames were recorded.
    pub frame_count: u64,
    /// Total render time over all recorded frames, in microseconds.
    pub total_render_us: u64,
    /// The longest recorded frame, in microseconds.
    pub max_frame_us: u64,
    /// How many entities the document holds.
    pub entity_count: u64,
}

impl PerfStats {
    /// Fresh statistics, all zero.
    pub fn new() -> (r: Self)
        ensures
            r == (PerfStats { frame_count: 0u64, total_render_us: 0u64, max_frame_us: 0u64, entity_count: 0u64 }),
    {
        PerfStats { frame_count: 0, total_render_us: 0, max_frame_us: 0, entity_count: 0 }
    }

    /// Record one frame that took `render_us` microseconds.  Counters
    /// saturate rather than wrap.
    pub fn record_frame(&mut self, render_us: u64)
        ensures
            final(self).frame_count == (if old(self).frame_count < u64::MAX {
                old(self).frame_count + 1
            } else {
                u64::MAX as int
            }),
            final(self).total_render_us == (if old(self).total_render_us + render_us <= u64::MAX {
                old(self).total_render_us + render_us
            } else {
                u64::MAX as int
            }),
            final(self).max_frame_us == (if render_us > old(self).max_frame_us {
                render_us
            } else {
                old(self).max_frame_us
            }),
            final(self).entity_count == old(self).entity_count,
    {
        self.frame_count = if self.frame_count < u64::MAX {
            self.frame_count + 1
        } else {
            u64::MAX
        };
        self.total_render_us = if self.total_render_us <= u64::MAX - render_us {
            self.total_render_us + render_us
        } else {
            u64::MAX
        };
        if render_us > self.max_frame_us {
            self.max_frame_us = render_us;
        }
    }

    /// Clear the frame counters, keeping the entity count.
    pub fn reset(&mut self)
        ensures
            final(self).frame_count == 0,
            final(self).total_render_us == 0,
            final(self).max_frame_us == 0,
            final(self).entity_count == old(self).entity_count,
    {
        self.frame_count = 0;
        self.total_render_us = 0;
        self.max_frame_us = 0;
    }

    /// Record how many entities the document holds.
    pub fn set_entity_count(&mut self, count: u64)
        ensures
            *final(self) == (PerfStats { entity_count: count, ..*old(self) }),
    {
        self.entity_count = count;
    }
}

/// A value initialised on first access by a stored closure.
#[derive(Debug)]
pub struct Lazy<T, F = fn() -> T> {
    init: Option<F>,
    value: Option<T>,
}

impl<T, F: FnOnce() -> T> Lazy<T, F> {
    /// Whether the stored value exists already.
    pub closed spec fn spec_initialized(&self) -> bool {
        self.value is Some
    }

    /// The stored value.
    pub closed spec fn spec_value(&self) -> T {
        self.value->Some_0
    }

    /// A lazy wrapper is usable while it still holds either the initialiser
    /// or the value.
    pub closed spec fn wf(&self) -> bool {
        self.init is Some || self.value is Some
    }

    /// The stored initialiser.
    pub closed spec fn spec_init(&self) -> F {
        self.init->Some_0
    }

    /// Wrap an initialiser; nothing runs yet.
    pub fn new(init: F) -> (r: Self)
        ensures
            r.wf(),
            !r.spec_initialized(),
            r.spec_init() == init,
    {
        Lazy { init: Some(init), value: None }
    }

    /// The value, computing it on first access.
    pub fn get(&mut self) -> (r: &T)
        requires
            old(self).wf(),
            !old(self).spec_initialized() ==> call_requires(old(self).spec_init(), ()),
        ensures
            final(self).wf(),
            final(self).spec_initialized(),
            *r == final(self).spec_value(),
            old(self).spec_initialized() ==> *final(self) == *old(self),
            !old(self).spec_initialized() ==> call_ensures(old(self).spec_init(), (), *r),
    {
        if self.value.is_none() {
            let init = self.init.take();
            match init {
                Some(f) => {
                    self.value = Some(f());
                },
                None => {
                    proof {
                        assert(false);
                    }
                },
            }
        }
        match &self.value {
            Some(v) => v,
            None => {
                proof {
                    assert(false);
                }
                loop
                    invariant
                        false,
                    decreases 0int,
                {
                }
            },
        }
    }

    /// A mutable reference to the value, computing it on first access.
    pub fn get_mut(&mut self) -> (r: &mut T)
        requires
            old(self).wf(),
            !old(self).spec_initialized() ==> call_requires(old(self).spec_init(), ()),
        ensures
            final(self).wf(),
            final(self).spec_initialized(),
            final(self).spec_value() == *final(r),
            old(self).spec_initialized() ==> *r == old(self).spec_value(),
            !old(self).spec_initialized() ==> call_ensures(old(self).spec_init(), (), *r),
    {
        if self.value.is_none() {
            let init = self.init.take();
            match init {
                Some(f) => {
                    self.value = Some(f());
                },
                None => {
                    proof {
                        assert(false);
                    }
                },
            }
        }
        match &mut self.value {
            Some(v) => v,
            None => {
                proof {
                    assert(false);
                }
                loop
                    invariant
                        false,
                    decreases 0int,
                {
                }
            },
        }
    }

    /// Whether the value was computed already.
    pub fn is_initialized(&self) -> (r: bool)
        ensures
            r == self.spec_initialized(),
    {
        self.value.is_some()
    }
}

/// A bounded cache of key-value pairs; when full, the oldest entry leaves.
#[derive(Debug)]
pub struct Cache<K, V> {
    entries: Vec<(K, V)>,
    max_size: usize,
}

impl<K: PartialEq, V> Cache<K, V> {
    /// The stored entries, oldest first.
    pub closed spec fn spec_entries(&self) -> Seq<(K, V)> {
        self.entries@
    }

    /// The configured bound.
    pub closed spec fn spec_max_size(&self) -> nat {
        self.max_size as nat
    }

    /// An empty cache holding at most `max_size` entries.
    pub fn new(max_size: usize) -> (r: Self)
        ensures
            r.spec_entries() == Seq::<(K, V)>::empty(),
            r.spec_max_size() == max_size,
    {
        let r = Cache { entries: Vec::with_capacity(max_size), max_size };
        proof {
            assert(r.spec_entries() =~= Seq::<(K, V)>::empty());
        }
        r
    }

    /// The value under `key`, inserting the result of `f` if no entry
    /// matches.  When the equality of `K` follows its specification, the
    /// result is exact: the stored value of the first entry whose key equals
    /// `key`, with the cache untouched; or, with no match, the freshly
    /// computed value appended at the back, evicting the oldest (front)
    /// entry exactly when the cache is full.
    pub fn get_or_insert<F: FnOnce() -> V>(&mut self, key: K, f: F) -> (r: &V)
        requires
            old(self).spec_max_size() > 0,
            call_requires(f, ()),
            old(self).spec_entries().len() <= old(self).spec_max_size(),
        ensures
            final(self).spec_max_size() == old(self).spec_max_size(),
            final(self).spec_entries().len() <= old(self).spec_max_size(),
            final(self).spec_entries().len() > 0,
            K::obeys_eq_spec() ==> match spec_find_key(old(self).spec_entries(), key) {
                Some(j) => *final(self) == *old(self) && *r == old(self).spec_entries()[j].1,
                None => exists|v: V|
                    {
                        &&& #[trigger] call_ensures(f, (), v)
                        &&& *r == v
                        &&& final(self).spec_entries() == (if old(self).spec_entries().len()
                            >= old(self).spec_max_size() {
                            old(self).spec_entries().drop_first()
                        } else {
                            old(self).spec_entries()
                        }).push((key, v))
                    },
            },
            ({
                let es0 = old(self).spec_entries();
                let es1 = final(self).spec_entries();
                (exists|j: int| 0 <= j < es0.len() && *r == (#[trigger] es0[j]).1) || (
                call_ensures(f, (), es1.last().1) && *r == es1.last().1 && es1.last().0 == key)
            }),
    {
        let ghost es0 = self.entries@;
        let mut found: Option<usize> = None;
        let mut pos: usize = 0;
        let n = self.entries.len();
        while pos < n
            invariant
                self == old(self),
                es0 == self.entries@,
                n == self.entries.len(),
                pos <= n,
                match found {
                    Some(j) => j < pos && (K::obeys_eq_spec() ==> es0[j as int].0.eq_spec(&key)
                        && forall|k: int| 0 <= k < j ==> !(#[trigger] es0[k]).0.eq_spec(&key)),
                    None => K::obeys_eq_spec() ==> forall|k: int|
                        0 <= k < pos ==> !(#[trigger] es0[k]).0.eq_spec(&key),
                },
            decreases n - pos,
        {
            if found.is_none() && self.entries[pos].0 == key {
                found = Some(pos);
            }
            pos = pos + 1;
        }
        proof {
            if K::obeys_eq_spec() {
                lemma_find_key(es0, key);
                match found {
                    Some(j) => {
                        assert(spec_find_key(es0, key) == Some(j as int)) by {
                            match spec_find_key(es0, key) {
                                None => {
                                    assert(!es0[j as int].0.eq_spec(&key));
                                },
                                Some(sj) => {
                                    if sj < j as int {
                                        assert(!es0[sj].0.eq_spec(&key));
                                    }
                                    if (j as int) < sj {
                                        assert(!es0[j as int].0.eq_spec(&key));
                                    }
                                },
                            }
                        }
                    },
                    None => {
                        assert(spec_find_key(es0, key) is None) by {
                            match spec_find_key(es0, key) {
                                None => {},
                                Some(sj) => {
                                    assert(!es0[sj].0.eq_spec(&key));
                                },
                            }
                        }
                    },
                }
            }
        }
        match found {
            Some(j) => {
                let r = &self.entries[j].1;
                proof {
                    assert(*r == old(self).spec_entries()[j as int].1);
                }
                r
            },
            None => {
                if self.entries.len() >= self.max_size {
                    self.entries.remove(0);
                    proof {
                        assert(self.entries@ =~= es0.drop_first());
                    }
                }
                let value = f();
                self.entries.push((key, value));
                let m = self.entries.len();
                &self.entries[m - 1].1
            },
        }
    }

    /// Remove every entry.
    pub fn clear(&mut self)
        ensures
            final(self).spec_entries() == Seq::<(K, V)>::empty(),
            final(self).spec_max_size() == old(self).spec_max_size(),
    {
        self.entries.clear();
        proof {
            assert(self.spec_entries() =~= Seq::<(K, V)>::empty());
        }
    }
}

} // verus!
