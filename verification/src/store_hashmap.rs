//! Key-value storage in memory in which every value carries a timestamp.
//! When a key is written twice, the value with the later timestamp wins.

use vstd::prelude::*;

verus! {

/// The mathematical content of a [`TimestampValue`]: its bytes and its timestamp.
pub type TsView = (Seq<u8>, i64);

/// Last-writer-wins merge of `incoming` into `current`: `incoming` replaces
/// `current` only when its timestamp is strictly later.
pub open spec fn merged(current: TsView, incoming: TsView) -> TsView {
    if current.1 < incoming.1 {
        incoming
    } else {
        current
    }
}

/// A value together with the time (seconds since the Unix epoch) at which it was written.
pub struct TimestampValue {
    value: Vec<u8>,
    timestamp: i64,
}

impl View for TimestampValue {
    type V = TsView;

    closed spec fn view(&self) -> TsView {
        (self.value@, self.timestamp)
    }
}

/// The current time as seconds since the Unix epoch, read from the system
/// clock by `chrono::Local::now().timestamp()`. `chrono` reads the clock
/// through `SystemTime::now().duration_since(UNIX_EPOCH)` and panics where the
/// clock stands before 1970, so what comes back is never negative; which
/// second it is depends on the clock and is not stated.
#[verifier::external_body]
fn unix_time_now() -> (r: i64)
    ensures
        r >= 0,
{
    chrono::Local::now().timestamp()
}

impl TimestampValue {
    /// Stamps `v` with the current time.
    pub fn new(v: Vec<u8>) -> (r: TimestampValue)
        ensures
            r@.0 == v@,
            r@.1 >= 0,
    {
        let ts = unix_time_now();
        TimestampValue::with_timestamp(v, ts)
    }

    /// Builds a value stamped with the given timestamp.
    pub fn with_timestamp(v: Vec<u8>, timestamp: i64) -> (r: TimestampValue)
        ensures
            r@ == (v@, timestamp),
    {
        TimestampValue { value: v, timestamp }
    }

    /// Merges `other` into `self`: when `other` is strictly newer, `self`
    /// takes its timestamp and a copy of its bytes; otherwise nothing changes.
    pub fn merge(&mut self, other: &TimestampValue)
        ensures
            final(self)@ == merged(old(self)@, other@),
    {
        if self.timestamp < other.timestamp {
            self.timestamp = other.timestamp;
            self.value = other.value.clone();
        }
    }
}


/// The map that a list of distinct-keyed entries stands for.
pub closed spec fn entries_map(s: Seq<(Vec<u8>, TimestampValue)>) -> Map<Seq<u8>, TsView> {
    Map::new(
        |k: Seq<u8>| exists|i: int| 0 <= i < s.len() && #[trigger] s[i].0@ == k,
        |k: Seq<u8>| s[choose|i: int| 0 <= i < s.len() && #[trigger] s[i].0@ == k].1@,
    )
}

/// No key occurs twice in the list.
pub closed spec fn distinct_keys(s: Seq<(Vec<u8>, TimestampValue)>) -> bool {
    forall|i: int, j: int| 0 <= i < s.len() && 0 <= j < s.len() && i != j ==> #[trigger] s[i].0@ != #[trigger] s[j].0@
}

proof fn lemma_entries_map_at(s: Seq<(Vec<u8>, TimestampValue)>, i: int)
    requires
        distinct_keys(s),
        0 <= i < s.len(),
    ensures
        entries_map(s).contains_key(s[i].0@),
        entries_map(s)[s[i].0@] == s[i].1@,
{
    let k = s[i].0@;
    assert(exists|j: int| 0 <= j < s.len() && #[trigger] s[j].0@ == k);
    let c = choose|j: int| 0 <= j < s.len() && #[trigger] s[j].0@ == k;
    assert(c == i);
}

proof fn lemma_entries_map_absent(s: Seq<(Vec<u8>, TimestampValue)>, k: Seq<u8>)
    requires
        forall|i: int| 0 <= i < s.len() ==> #[trigger] s[i].0@ != k,
    ensures
        !entries_map(s).contains_key(k),
{
}

proof fn lemma_entries_map_update(s: Seq<(Vec<u8>, TimestampValue)>, i: int, e: (Vec<u8>, TimestampValue))
    requires
        distinct_keys(s),
        0 <= i < s.len(),
        e.0@ == s[i].0@,
    ensures
        distinct_keys(s.update(i, e)),
        entries_map(s.update(i, e)) == entries_map(s).insert(e.0@, e.1@),
{
    let t = s.update(i, e);
    assert(distinct_keys(t)) by {
        assert forall|a: int, b: int| 0 <= a < t.len() && 0 <= b < t.len() && a != b implies #[trigger] t[a].0@ != #[trigger] t[b].0@ by {
            assert(s[a].0@ != s[b].0@);
        }
    }
    let m = entries_map(s).insert(e.0@, e.1@);
    assert forall|k: Seq<u8>| #[trigger] entries_map(t).contains_key(k) <==> m.contains_key(k) by {
        if entries_map(t).contains_key(k) {
            let j = choose|j: int| 0 <= j < t.len() && #[trigger] t[j].0@ == k;
            if j != i {
                lemma_entries_map_at(s, j);
            }
        }
        if m.contains_key(k) && k != e.0@ {
            let j = choose|j: int| 0 <= j < s.len() && #[trigger] s[j].0@ == k;
            lemma_entries_map_at(t, j);
        }
        if k == e.0@ {
            lemma_entries_map_at(t, i);
        }
    }
    assert forall|k: Seq<u8>| #[trigger] entries_map(t).contains_key(k) implies entries_map(t)[k] == m[k] by {
        let j = choose|j: int| 0 <= j < t.len() && #[trigger] t[j].0@ == k;
        lemma_entries_map_at(t, j);
        if j != i {
            lemma_entries_map_at(s, j);
        }
    }
    assert(entries_map(t) =~= m);
}

proof fn lemma_entries_map_push(s: Seq<(Vec<u8>, TimestampValue)>, e: (Vec<u8>, TimestampValue))
    requires
        distinct_keys(s),
        !entries_map(s).contains_key(e.0@),
    ensures
        distinct_keys(s.push(e)),
        entries_map(s.push(e)) == entries_map(s).insert(e.0@, e.1@),
{
    let t = s.push(e);
    assert forall|j: int| 0 <= j < s.len() implies #[trigger] s[j].0@ != e.0@ by {
        if s[j].0@ == e.0@ {
            lemma_entries_map_at(s, j);
        }
    }
    assert(distinct_keys(t)) by {
        assert forall|a: int, b: int| 0 <= a < t.len() && 0 <= b < t.len() && a != b implies #[trigger] t[a].0@ != #[trigger] t[b].0@ by {
            if a < s.len() && b < s.len() {
                assert(s[a].0@ != s[b].0@);
            } else if a < s.len() {
                assert(s[a].0@ != e.0@);
            } else {
                assert(s[b].0@ != e.0@);
            }
        }
    }
    let m = entries_map(s).insert(e.0@, e.1@);
    assert forall|k: Seq<u8>| #[trigger] entries_map(t).contains_key(k) <==> m.contains_key(k) by {
        if entries_map(t).contains_key(k) && k != e.0@ {
            let j = choose|j: int| 0 <= j < t.len() && #[trigger] t[j].0@ == k;
            lemma_entries_map_at(s, j);
        }
        if m.contains_key(k) && k != e.0@ {
            let j = choose|j: int| 0 <= j < s.len() && #[trigger] s[j].0@ == k;
            lemma_entries_map_at(t, j);
        }
        if k == e.0@ {
            lemma_entries_map_at(t, s.len() as int);
        }
    }
    assert forall|k: Seq<u8>| #[trigger] entries_map(t).contains_key(k) implies entries_map(t)[k] == m[k] by {
        let j = choose|j: int| 0 <= j < t.len() && #[trigger] t[j].0@ == k;
        lemma_entries_map_at(t, j);
        if j < s.len() {
            lemma_entries_map_at(s, j);
        }
    }
    assert(entries_map(t) =~= m);
}

/// What a store holds after `put(key, v)`: the key maps to `v` when it was
/// absent, and to the last-writer-wins merge of the old value and `v` otherwise.
pub open spec fn put_spec(m: Map<Seq<u8>, TsView>, key: Seq<u8>, v: TsView) -> Map<Seq<u8>, TsView> {
    if m.contains_key(key) {
        m.insert(key, merged(m[key], v))
    } else {
        m.insert(key, v)
    }
}

/// The error type of [`TsValueStore::put`]. A put always succeeds, so no
/// function of this crate returns it.
#[derive(Debug)]
pub struct PutError;

/// An in-memory key-value store whose values carry timestamps; a write to an
/// existing key keeps whichever value is newer.
pub struct TsValueStore {
    db: Vec<(Vec<u8>, TimestampValue)>,
}

impl View for TsValueStore {
    type V = Map<Seq<u8>, TsView>;

    closed spec fn view(&self) -> Map<Seq<u8>, TsView> {
        entries_map(self.db@)
    }
}

impl TsValueStore {
    #[verifier::type_invariant]
    closed spec fn keys_are_distinct(&self) -> bool {
        distinct_keys(self.db@)
    }

    /// An empty store.
    pub fn new() -> (r: TsValueStore)
        ensures
            r@ == Map::<Seq<u8>, TsView>::empty(),
    {
        let r = TsValueStore { db: Vec::new() };
        assert(entries_map(r.db@) =~= Map::<Seq<u8>, TsView>::empty());
        r
    }

    /// Writes `value` under `key`. A new key is inserted; for a key that is
    /// already there, the stored value is replaced only when `value` is newer.
    pub fn put(&mut self, key: Vec<u8>, value: TimestampValue) -> (r: Result<(), PutError>)
        ensures
            r is Ok,
            final(self)@ == put_spec(old(self)@, key@, value@),
    {
        proof { use_type_invariant(&*self); }
        let mut db = Vec::new();
        std::mem::swap(&mut db, &mut self.db);
        let ghost s = db@;
        match find_key(&db, &key) {
            Some(i) => {
                proof { lemma_entries_map_at(s, i as int); }
                if db[i].1.timestamp < value.timestamp {
                    let e = (key, value);
                    proof { lemma_entries_map_update(s, i as int, e); }
                    db.set(i, e);
                }
            }
            None => {
                proof { lemma_entries_map_absent(s, key@); }
                let e = (key, value);
                proof { lemma_entries_map_push(s, e); }
                db.push(e);
            }
        }
        self.db = db;
        Ok(())
    }

    /// A copy of the bytes stored under `key`, if any.
    pub fn get(&self, key: &Vec<u8>) -> (r: Option<Vec<u8>>)
        ensures
            match r {
                Some(v) => self@.contains_key(key@) && v@ == self@[key@].0,
                None => !self@.contains_key(key@),
            },
    {
        proof { use_type_invariant(self); }
        match find_key(&self.db, key) {
            Some(i) => {
                proof { lemma_entries_map_at(self.db@, i as int); }
                Some(self.db[i].1.value.clone())
            }
            None => {
                proof { lemma_entries_map_absent(self.db@, key@); }
                None
            }
        }
    }
}

/// The position of `key` in an entry list, if it is there.
fn find_key(db: &Vec<(Vec<u8>, TimestampValue)>, key: &Vec<u8>) -> (r: Option<usize>)
    ensures
        match r {
            Some(i) => i < db@.len() && db@[i as int].0@ == key@,
            None => forall|i: int| 0 <= i < db@.len() ==> #[trigger] db@[i].0@ != key@,
        },
{
    let mut i: usize = 0;
    while i < db.len()
        invariant
            i <= db@.len(),
            forall|j: int| 0 <= j < i ==> #[trigger] db@[j].0@ != key@,
        decreases db@.len() - i,
    {
        if bytes_equal(&db[i].0, key) {
            return Some(i);
        }
        i += 1;
    }
    None
}

/// Byte-wise equality of two byte strings.
fn bytes_equal(a: &Vec<u8>, b: &Vec<u8>) -> (r: bool)
    ensures
        r == (a@ == b@),
{
    if a.len() != b.len() {
        return false;
    }
    let mut i: usize = 0;
    while i < a.len()
        invariant
            a@.len() == b@.len(),
            i <= a@.len(),
            forall|j: int| 0 <= j < i ==> a@[j] == b@[j],
        decreases a@.len() - i,
    {
        if a[i] != b[i] {
            return false;
        }
        i += 1;
    }
    assert(a@ =~= b@);
    true
}


/// The merge keeps one of its two arguments, and its timestamp is the later
/// of the two.
pub proof fn law_merge_keeps_latest(a: TsView, b: TsView)
    ensures
        merged(a, b) == a || merged(a, b) == b,
        merged(a, b).1 >= a.1,
        merged(a, b).1 >= b.1,
        merged(a, b).1 == a.1 || merged(a, b).1 == b.1,
{
}

/// Merging a value into itself changes nothing, and merging the same value a
/// second time changes nothing more.
pub proof fn law_merge_idempotent(a: TsView, b: TsView)
    ensures
        merged(a, a) == a,
        merged(merged(a, b), b) == merged(a, b),
{
}

/// Merging is associative: of several writes, the first one with the latest
/// timestamp wins, however the merges are grouped.
pub proof fn law_merge_associative(a: TsView, b: TsView, c: TsView)
    ensures
        merged(merged(a, b), c) == merged(a, merged(b, c)),
{
}

/// Merging two values with different timestamps gives the same result in
/// either order.
pub proof fn law_merge_commutative(a: TsView, b: TsView)
    requires
        a.1 != b.1,
    ensures
        merged(a, b) == merged(b, a),
{
}

/// After a put, the key is present and holds the written value merged into
/// what it held before; every other key is unchanged.
pub proof fn law_put_then_get(m: Map<Seq<u8>, TsView>, key: Seq<u8>, v: TsView, other: Seq<u8>)
    requires
        other != key,
    ensures
        put_spec(m, key, v).contains_key(key),
        put_spec(m, key, v)[key] == (if m.contains_key(key) {
            merged(m[key], v)
        } else {
            v
        }),
        put_spec(m, key, v).contains_key(other) == m.contains_key(other),
        m.contains_key(other) ==> put_spec(m, key, v)[other] == m[other],
{
}

/// A put never makes the timestamp stored under a key older: afterwards it
/// is at least the old one and at least the written one.
pub proof fn law_put_never_goes_back(m: Map<Seq<u8>, TsView>, key: Seq<u8>, v: TsView)
    ensures
        put_spec(m, key, v)[key].1 >= v.1,
        m.contains_key(key) ==> put_spec(m, key, v)[key].1 >= m[key].1,
{
}

/// Writing the same value twice has the effect of writing it once.
pub proof fn law_put_idempotent(m: Map<Seq<u8>, TsView>, key: Seq<u8>, v: TsView)
    ensures
        put_spec(put_spec(m, key, v), key, v) == put_spec(m, key, v),
{
    assert(put_spec(put_spec(m, key, v), key, v) =~= put_spec(m, key, v));
}

/// Two puts give the same store in either order, unless they write different
/// values with equal timestamps under the same key: replicas that receive the
/// same writes in different orders end up equal.
pub proof fn law_puts_commute(
    m: Map<Seq<u8>, TsView>,
    k1: Seq<u8>,
    a: TsView,
    k2: Seq<u8>,
    b: TsView,
)
    requires
        k1 != k2 || a.1 != b.1 || a == b,
    ensures
        put_spec(put_spec(m, k1, a), k2, b) == put_spec(put_spec(m, k2, b), k1, a),
{
    assert(put_spec(put_spec(m, k1, a), k2, b) =~= put_spec(put_spec(m, k2, b), k1, a));
}

/// The store that a sequence of puts leaves behind, the puts applied to `m`
/// in order; each write is a key and the value written under it.
pub open spec fn apply_puts(m: Map<Seq<u8>, TsView>, writes: Seq<(Seq<u8>, TsView)>) -> Map<
    Seq<u8>,
    TsView,
>
    decreases writes.len(),
{
    if writes.len() == 0 {
        m
    } else {
        put_spec(apply_puts(m, writes.drop_last()), writes.last().0, writes.last().1)
    }
}

/// The values written under `key` by a sequence of puts, in order.
pub open spec fn values_written(writes: Seq<(Seq<u8>, TsView)>, key: Seq<u8>) -> Seq<TsView>
    decreases writes.len(),
{
    if writes.len() == 0 {
        Seq::empty()
    } else if writes.last().0 == key {
        values_written(writes.drop_last(), key).push(writes.last().1)
    } else {
        values_written(writes.drop_last(), key)
    }
}

/// `j` is the first position of `vs` at which the greatest timestamp occurs.
pub open spec fn is_first_latest(vs: Seq<TsView>, j: int) -> bool {
    &&& 0 <= j < vs.len()
    &&& forall|i: int| 0 <= i < vs.len() ==> vs[i].1 <= vs[j].1
    &&& forall|i: int| 0 <= i < j ==> vs[i].1 < vs[j].1
}

/// What `key` held before the puts, if anything, followed by the values that
/// the puts wrote under it.
pub open spec fn history(m: Map<Seq<u8>, TsView>, writes: Seq<(Seq<u8>, TsView)>, key: Seq<u8>) -> Seq<
    TsView,
> {
    (if m.contains_key(key) {
        seq![m[key]]
    } else {
        Seq::empty()
    }) + values_written(writes, key)
}

proof fn lemma_apply_puts_key(m: Map<Seq<u8>, TsView>, writes: Seq<(Seq<u8>, TsView)>, key: Seq<u8>) -> (j: int)
    ensures
        apply_puts(m, writes).contains_key(key) <==> history(m, writes, key).len() > 0,
        apply_puts(m, writes).contains_key(key) ==> is_first_latest(history(m, writes, key), j)
            && apply_puts(m, writes)[key] == history(m, writes, key)[j],
    decreases writes.len(),
{
    let all = history(m, writes, key);
    if writes.len() == 0 {
        assert(values_written(writes, key) =~= Seq::<TsView>::empty());
        if m.contains_key(key) {
            assert(all =~= seq![m[key]]);
        }
        0
    } else {
        let prev_writes = writes.drop_last();
        let (k, v) = writes.last();
        let jp = lemma_apply_puts_key(m, prev_writes, key);
        let prev = apply_puts(m, prev_writes);
        let prev_all = history(m, prev_writes, key);
        if k != key {
            assert(all =~= prev_all);
            jp
        } else {
            assert(all =~= prev_all.push(v));
            if !prev.contains_key(key) {
                assert(prev_all.len() == 0);
                assert(all =~= seq![v]);
                0
            } else if prev[key].1 < v.1 {
                let j = prev_all.len() as int;
                assert forall|i: int| 0 <= i < all.len() implies all[i].1 <= all[j].1 by {
                    if i < j {
                        assert(all[i] == prev_all[i]);
                    }
                }
                assert forall|i: int| 0 <= i < j implies all[i].1 < all[j].1 by {
                    assert(all[i] == prev_all[i]);
                }
                j
            } else {
                assert forall|i: int| 0 <= i < all.len() implies all[i].1 <= all[jp].1 by {
                    if i < prev_all.len() {
                        assert(all[i] == prev_all[i]);
                    }
                }
                assert forall|i: int| 0 <= i < jp implies all[i].1 < all[jp].1 by {
                    assert(all[i] == prev_all[i]);
                }
                jp
            }
        }
    }
}

/// A key that is in the store stays in it, whatever puts follow: no operation
/// takes a key out. In particular a key, once put, reads back present after
/// any later sequence of puts.
pub proof fn law_key_stays_present(
    m: Map<Seq<u8>, TsView>,
    key: Seq<u8>,
    v: TsView,
    later: Seq<(Seq<u8>, TsView)>,
)
    ensures
        m.contains_key(key) ==> apply_puts(m, later).contains_key(key),
        apply_puts(put_spec(m, key, v), later).contains_key(key),
{
    lemma_apply_puts_key(m, later, key);
    lemma_apply_puts_key(put_spec(m, key, v), later, key);
}

/// Last writer wins over any sequence of puts: the value under a key is the
/// first one, among what the key held before and what the puts wrote under
/// it, that carries the greatest timestamp. Starting from a store without the
/// key, it is the earliest of the puts to that key with the greatest timestamp;
/// puts to other keys in between do not matter.
pub proof fn law_last_writer_wins(
    m: Map<Seq<u8>, TsView>,
    writes: Seq<(Seq<u8>, TsView)>,
    key: Seq<u8>,
)
    ensures
        apply_puts(m, writes).contains_key(key) <==> history(m, writes, key).len() > 0,
        apply_puts(m, writes).contains_key(key) ==> exists|j: int|
            is_first_latest(history(m, writes, key), j) && apply_puts(m, writes)[key] == #[trigger] history(
                m,
                writes,
                key,
            )[j],
        !m.contains_key(key) && values_written(writes, key).len() > 0 ==> exists|j: int|
            is_first_latest(values_written(writes, key), j) && apply_puts(m, writes)[key]
                == #[trigger] values_written(writes, key)[j],
{
    let j = lemma_apply_puts_key(m, writes, key);
    if !m.contains_key(key) {
        assert(history(m, writes, key) =~= values_written(writes, key));
    }
    if apply_puts(m, writes).contains_key(key) {
        assert(history(m, writes, key)[j] == history(m, writes, key)[j]);
        if !m.contains_key(key) {
            assert(values_written(writes, key)[j] == values_written(writes, key)[j]);
        }
    }
}

} // verus!
