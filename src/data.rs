//! The keyed store: values with an optional time to live, read through an
//! expiry check and swept in bulk.
//!
//! Times are milliseconds on a monotonic clock that the caller reads and hands
//! in as `now`.
use crate::text::str_equal;
use vstd::hash_map::StringHashMap;
use vstd::prelude::*;

verus! {

/// A stored value, the time it was stored, and its time to live in milliseconds.
pub struct DataItem {
    pub value: String,
    pub created_at: u64,
    pub px: Option<u64>,
}

/// The model of a stored entry.
pub struct Entry {
    pub value: Seq<char>,
    pub created_at: u64,
    pub px: Option<u64>,
}

impl View for DataItem {
    type V = Entry;

    open spec fn view(&self) -> Entry {
        Entry { value: self.value@, created_at: self.created_at, px: self.px }
    }
}

/// An entry is expired once more than its time to live has passed since it was
/// stored; a time to live of zero expires it at once.
pub open spec fn expired(item: Entry, now: u64) -> bool {
    match item.px {
        Some(ttl) => ttl == 0 || now - item.created_at > ttl,
        None => false,
    }
}

/// What a read of `key` at `now` sees: the value, unless it is absent or expired.
pub open spec fn lookup(m: Map<Seq<char>, Entry>, key: Seq<char>, now: u64) -> Option<
    Seq<char>,
> {
    if m.contains_key(key) && !expired(m[key], now) {
        Some(m[key].value)
    } else {
        None
    }
}

/// The keys whose entries have not expired at `now`.
pub open spec fn live_keys(m: Map<Seq<char>, Entry>, now: u64) -> Set<Seq<char>> {
    m.dom().filter(|k: Seq<char>| !expired(m[k], now))
}

/// The store after removing every entry expired at `now`.
pub open spec fn sweep(m: Map<Seq<char>, Entry>, now: u64) -> Map<Seq<char>, Entry> {
    m.restrict(live_keys(m, now))
}

pub open spec fn option_view(r: Option<String>) -> Option<Seq<char>> {
    match r {
        Some(s) => Some(s@),
        None => None,
    }
}

impl DataItem {
    pub fn new(value: String, created_at: u64, px: Option<u64>) -> (r: DataItem)
        ensures
            r == (DataItem { value, created_at, px }),
    {
        DataItem { value, created_at, px }
    }

    pub fn is_expired(&self, now: u64) -> (r: bool)
        ensures
            r == expired(self@, now),
    {
        match self.px {
            Some(ttl) => ttl == 0 || (now > self.created_at && now - self.created_at > ttl),
            None => false,
        }
    }
}

/// A store of keyed entries with expiry.
pub trait Data {
    /// The entries held, by key, expired ones included until swept.
    spec fn entries(&self) -> Map<Seq<char>, Entry>;

    /// The store's internal invariant.
    spec fn inv(&self) -> bool;

    /// The value of `key` if it is present and not expired at `now`.
    fn get(&self, key: &str, now: u64) -> (r: Option<String>)
        requires
            self.inv(),
        ensures
            option_view(r) == lookup(self.entries(), key@, now),
    ;

    /// Creates or replaces the entry of `key`, stored at `now`.
    fn set(&mut self, key: String, value: String, px: Option<u64>, now: u64)
        requires
            old(self).inv(),
        ensures
            final(self).inv(),
            final(self).entries() == old(self).entries().insert(
                key@,
                Entry { value: value@, created_at: now, px },
            ),
    ;

    /// Removes the entry of `key`, if any.
    fn del(&mut self, key: &str)
        requires
            old(self).inv(),
        ensures
            final(self).inv(),
            final(self).entries() == old(self).entries().remove(key@),
    ;

    /// Removes every entry that has expired at `now`.
    fn expire_keys(&mut self, now: u64)
        requires
            old(self).inv(),
        ensures
            final(self).inv(),
            final(self).entries() == sweep(old(self).entries(), now),
    ;
}

/// A store held in a hash map, with a list of its keys for sweeping.
pub struct InMemoryData {
    data: StringHashMap<DataItem>,
    keys: Vec<String>,
    /// For each stored key, a position in `keys` that holds it.
    index: Ghost<Map<Seq<char>, int>>,
}

impl InMemoryData {
    pub fn new() -> (r: Self)
        ensures
            r.inv(),
            r.entries() == Map::<Seq<char>, Entry>::empty(),
    {
        InMemoryData { data: StringHashMap::new(), keys: Vec::new(), index: Ghost(Map::empty()) }
    }
}

impl Data for InMemoryData {
    closed spec fn entries(&self) -> Map<Seq<char>, Entry> {
        self.data@.map_values(|item: DataItem| item@)
    }

    closed spec fn inv(&self) -> bool {
        forall|k: Seq<char>|
            #[trigger] self.data@.contains_key(k) ==> self.index@.contains_key(k) && 0
                <= self.index@[k] < self.keys@.len() && self.keys@[self.index@[k]]@ == k
    }

    fn get(&self, key: &str, now: u64) -> (r: Option<String>) {
        match self.data.get(key) {
            Some(item) => {
                if item.is_expired(now) {
                    None
                } else {
                    Some(item.value.clone())
                }
            },
            None => None,
        }
    }

    fn set(&mut self, key: String, value: String, px: Option<u64>, now: u64) {
        if !self.data.contains_key(key.as_str()) {
            let ghost at = self.keys@.len() as int;
            self.keys.push(key.clone());
            self.index = Ghost(self.index@.insert(key@, at));
        }
        let ghost k = key@;
        let ghost e = Entry { value: value@, created_at: now, px };
        self.data.insert(key, DataItem { value, created_at: now, px });
        assert(self.entries() =~= old(self).entries().insert(k, e));
        assert forall|j: Seq<char>| #[trigger] self.data@.contains_key(j) implies self.index@.contains_key(
            j,
        ) && 0 <= self.index@[j] < self.keys@.len() && self.keys@[self.index@[j]]@ == j by {
            if j != k {
                assert(old(self).data@.contains_key(j));
            }
        }
    }

    fn del(&mut self, key: &str) {
        if self.data.contains_key(key) {
            let ghost k = key@;
            let ghost keys0 = self.keys@;
            let ghost index0 = self.index@;
            let mut i: usize = 0;
            while i < self.keys.len()
                invariant
                    self.keys@ == keys0,
                    k == key@,
                    index0.contains_key(k),
                    0 <= index0[k] < keys0.len(),
                    keys0[index0[k]]@ == k,
                    i <= keys0.len(),
                    forall|t: int| 0 <= t < i ==> (#[trigger] keys0[t])@ != k,
                ensures
                    i < keys0.len(),
                    keys0[i as int]@ == k,
                decreases keys0.len() - i,
            {
                if str_equal(self.keys[i].as_str(), key) {
                    break;
                }
                i = i + 1;
            }
            let last = self.keys.len() - 1;
            let ghost moved = keys0[last as int]@;
            self.keys.swap_remove(i);
            if i < last {
                self.index = Ghost(index0.insert(moved, i as int));
            }
        }
        self.data.remove(key);
        assert forall|j: Seq<char>| #[trigger] self.data@.contains_key(j) implies self.index@.contains_key(
            j,
        ) && 0 <= self.index@[j] < self.keys@.len() && self.keys@[self.index@[j]]@ == j by {
            assert(old(self).data@.contains_key(j));
        }
        assert(self.entries() =~= old(self).entries().remove(key@));
    }

    fn expire_keys(&mut self, now: u64) {
        let ghost m0 = self.data@;
        assert(old(self).entries() == m0.map_values(|item: DataItem| item@));
        let ghost index0 = self.index@;
        let ghost keys0 = self.keys@;
        let mut kept: Vec<String> = Vec::new();
        let mut kept_index: Ghost<Map<Seq<char>, int>> = Ghost(Map::empty());
        let mut i: usize = 0;
        while i < self.keys.len()
            invariant
                self.keys@ == keys0,
                i <= keys0.len(),
                forall|k: Seq<char>|
                    #[trigger] m0.contains_key(k) ==> index0.contains_key(k) && 0 <= index0[k]
                        < keys0.len() && keys0[index0[k]]@ == k,
                forall|k: Seq<char>| #[trigger]
                    self.data@.contains_key(k) ==> m0.contains_key(k) && self.data@[k] == m0[k],
                forall|k: Seq<char>|
                    #[trigger] m0.contains_key(k) && !expired(m0[k]@, now)
                        ==> self.data@.contains_key(k),
                forall|j: int|
                    0 <= j < i && #[trigger] m0.contains_key(keys0[j]@) && expired(
                        m0[keys0[j]@]@,
                        now,
                    ) ==> !self.data@.contains_key(keys0[j]@),
                forall|k: Seq<char>|
                    #[trigger] self.data@.contains_key(k) && index0[k] < i
                        ==> kept_index@.contains_key(k) && 0 <= kept_index@[k] < kept@.len()
                        && kept@[kept_index@[k]]@ == k,
            decreases keys0.len() - i,
        {
            let key = &self.keys[i];
            let ghost kk = key@;
            let live = match self.data.get(key.as_str()) {
                Some(item) => !item.is_expired(now),
                None => false,
            };
            if live {
                let ghost at = kept@.len() as int;
                kept.push(key.clone());
                kept_index = Ghost(kept_index@.insert(kk, at));
            } else {
                self.data.remove(key.as_str());
            }
            i = i + 1;
            assert forall|k: Seq<char>| #[trigger]
                self.data@.contains_key(k) && index0[k] < i implies kept_index@.contains_key(k)
                && 0 <= kept_index@[k] < kept@.len() && kept@[kept_index@[k]]@ == k by {
                if index0[k] == i - 1 {
                    assert(keys0[index0[k]]@ == k);
                }
            }
        }
        self.keys = kept;
        self.index = kept_index;
        let ghost e0 = m0.map_values(|item: DataItem| item@);
        assert(self.entries() =~= sweep(e0, now)) by {
            assert forall|k: Seq<char>| #[trigger] m0.contains_key(k) && expired(m0[k]@, now) implies !self.data@.contains_key(k) by {
                let j = index0[k];
                assert(keys0[j]@ == k);
            }
        }
    }
}

/// After `set(k, v)` and then `del(k)`, a read of `k` sees nothing.
pub proof fn lemma_get_after_delete(
    m: Map<Seq<char>, Entry>,
    k: Seq<char>,
    item: Entry,
    now: u64,
)
    ensures
        lookup(m.insert(k, item).remove(k), k, now) is None,
{
}

/// After `set(k, v)` with a time to live of zero, a read of `k` sees nothing,
/// at once and ever after.
pub proof fn lemma_zero_ttl_unreadable(
    m: Map<Seq<char>, Entry>,
    k: Seq<char>,
    value: Seq<char>,
    set_at: u64,
    now: u64,
)
    ensures
        lookup(m.insert(k, Entry { value, created_at: set_at, px: Some(0) }), k, now) is None,
{
}

/// A change to the store, as its model sees it: a `set`, a `del` or a sweep.
pub enum StoreOp {
    Write(Seq<char>, Entry),
    Remove(Seq<char>),
    Sweep(u64),
}

pub open spec fn apply_op(m: Map<Seq<char>, Entry>, op: StoreOp) -> Map<Seq<char>, Entry> {
    match op {
        StoreOp::Write(k, e) => m.insert(k, e),
        StoreOp::Remove(k) => m.remove(k),
        StoreOp::Sweep(now) => sweep(m, now),
    }
}

/// The store after the changes `ops`, in order.
pub open spec fn apply_ops(m: Map<Seq<char>, Entry>, ops: Seq<StoreOp>) -> Map<Seq<char>, Entry>
    decreases ops.len(),
{
    if ops.len() == 0 {
        m
    } else {
        apply_ops(apply_op(m, ops[0]), ops.subrange(1, ops.len() as int))
    }
}

/// Whether a change writes or removes `k`.
pub open spec fn touches(op: StoreOp, k: Seq<char>) -> bool {
    match op {
        StoreOp::Write(j, _) => j == k,
        StoreOp::Remove(j) => j == k,
        StoreOp::Sweep(_) => false,
    }
}

/// An entry without a time to live survives every change that does not write
/// or remove its key.
pub proof fn lemma_untouched_entry_stays(m: Map<Seq<char>, Entry>, k: Seq<char>, ops: Seq<StoreOp>)
    requires
        m.contains_key(k),
        m[k].px is None,
        forall|i: int| 0 <= i < ops.len() ==> !touches(#[trigger] ops[i], k),
    ensures
        apply_ops(m, ops).contains_key(k),
        apply_ops(m, ops)[k] == m[k],
    decreases ops.len(),
{
    if ops.len() > 0 {
        let rest = ops.subrange(1, ops.len() as int);
        assert(!touches(ops[0], k));
        assert forall|i: int| 0 <= i < rest.len() implies !touches(#[trigger] rest[i], k) by {
            assert(rest[i] == ops[i + 1]);
        }
        lemma_untouched_entry_stays(apply_op(m, ops[0]), k, rest);
    }
}

/// After `set(k, v)` without a time to live, a read of `k` at any time sees `v`,
/// whatever sweeps and writes or removals of other keys come after, until `k`
/// itself is written or removed.
pub proof fn lemma_no_ttl_persists(
    m: Map<Seq<char>, Entry>,
    k: Seq<char>,
    value: Seq<char>,
    set_at: u64,
    ops: Seq<StoreOp>,
    now: u64,
)
    requires
        forall|i: int| 0 <= i < ops.len() ==> !touches(#[trigger] ops[i], k),
    ensures
        lookup(apply_ops(m.insert(k, Entry { value, created_at: set_at, px: None }), ops), k, now)
            == Some(value),
{
    lemma_untouched_entry_stays(m.insert(k, Entry { value, created_at: set_at, px: None }), k, ops);
}

/// Sweeping twice with no write in between is the same as sweeping once at the
/// later time; at one instant, sweeping is idempotent.
pub proof fn lemma_sweep_idempotent(m: Map<Seq<char>, Entry>, t1: u64, t2: u64)
    requires
        t1 <= t2,
    ensures
        sweep(sweep(m, t1), t2) == sweep(m, t2),
{
    assert(sweep(sweep(m, t1), t2) =~= sweep(m, t2));
}

} // verus!
