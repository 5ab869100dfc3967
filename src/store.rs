//! The keyed store: strings and streams, each key with an optional expiry time.

use vstd::prelude::*;
use crate::stream::{
    RedisStream, StreamId, StreamEntry, XaddError, Bound, id_text, zero_id, insert_spec,
    view_entries, fields_view, in_range, cmp_bound, format_id, clone_bytes,
};
use crate::decimal::{parse_i64_spec, signed_decimal_of, parse_i64, push_signed_decimal};

verus! {

/// A stored value.
pub enum DataType {
    String(Vec<u8>),
    Stream(RedisStream),
}

/// The model of a stored value: a string's bytes, or a stream's entries and last id.
pub enum DataView {
    Str(Seq<u8>),
    Stream(Seq<(StreamId, Seq<(Seq<u8>, Seq<u8>)>)>, StreamId),
}

impl View for DataType {
    type V = DataView;

    open spec fn view(&self) -> DataView {
        match self {
            DataType::String(s) => DataView::Str(s@),
            DataType::Stream(st) => DataView::Stream(st@, st.last_id()),
        }
    }
}

impl DataType {
    /// A stream value satisfies the stream's invariant.
    pub open spec fn wf(&self) -> bool {
        match self {
            DataType::String(_) => true,
            DataType::Stream(st) => st.wf(),
        }
    }

    pub fn duplicate(&self) -> (r: DataType)
        requires
            self.wf(),
        ensures
            r@ == self@,
            r.wf(),
    {
        match self {
            DataType::String(s) => DataType::String(clone_bytes(s)),
            DataType::Stream(st) => DataType::Stream(st.duplicate()),
        }
    }
}

pub open spec fn opt_view(o: Option<DataType>) -> Option<DataView> {
    match o {
        Some(d) => Some(d@),
        None => None,
    }
}

/// A time `t` (ms) has passed at `now`.
pub open spec fn expired(exp: Option<u64>, now: u64) -> bool {
    match exp {
        Some(t) => now > t,
        None => false,
    }
}

pub type KeyspaceView = Map<Seq<u8>, (DataView, Option<u64>)>;

/// The value under `k` at `now`, unless it is absent or expired.
pub open spec fn live_value(m: KeyspaceView, k: Seq<u8>, now: u64) -> Option<DataView> {
    if m.contains_key(k) && !expired(m[k].1, now) {
        Some(m[k].0)
    } else {
        None
    }
}

/// The store after an expired `k` is dropped.
pub open spec fn without_expired(m: KeyspaceView, k: Seq<u8>, now: u64) -> KeyspaceView {
    if m.contains_key(k) && expired(m[k].1, now) {
        m.remove(k)
    } else {
        m
    }
}

/// Why an increment failed: the value is not a signed 64-bit integer, or adding
/// one overflows.
#[derive(PartialEq, Eq, Structural, Clone, Copy, Debug)]
pub enum IncrError {
    NotAnInteger,
}

/// The new value of an increment of `v` (`None`: the key is missing).
pub open spec fn incremented(v: Option<DataView>) -> Option<i64> {
    match v {
        None => Some(1),
        Some(DataView::Str(s)) => match parse_i64_spec(s) {
            Some(n) => if n < i64::MAX {
                Some((n + 1) as i64)
            } else {
                None
            },
            None => None,
        },
        Some(DataView::Stream(_, _)) => None,
    }
}

/// Field/value pairs from a flat list; an odd last item is left out.
pub open spec fn pairs_of(f: Seq<Seq<u8>>) -> Seq<(Seq<u8>, Seq<u8>)> {
    Seq::new((f.len() / 2) as nat, |i: int| (f[2 * i], f[2 * i + 1]))
}

/// What XADD of `fields` under `id` at `key` returns (`r`) and leaves (`new`).
pub open spec fn xadd_effect(
    old: KeyspaceView,
    key: Seq<u8>,
    id: Seq<u8>,
    fields: Seq<Seq<u8>>,
    now: u64,
    r: Result<StreamId, XaddError>,
    new: KeyspaceView,
) -> bool {
    let m = without_expired(old, key, now);
    match live_value(old, key, now) {
        Some(DataView::Str(_)) => r == Err::<StreamId, XaddError>(XaddError::WrongType) && new == m,
        Some(DataView::Stream(es, last)) => r == insert_spec(last, id, now) && match r {
            Ok(nid) => new == m.insert(
                key,
                (DataView::Stream(es.push((nid, pairs_of(fields))), nid), m[key].1),
            ),
            Err(_) => new == m,
        },
        None => r == insert_spec(zero_id(), id, now) && match r {
            Ok(nid) => new == m.insert(
                key,
                (DataView::Stream(seq![(nid, pairs_of(fields))], nid), None),
            ),
            Err(_) => new == m.insert(key, (DataView::Stream(Seq::empty(), zero_id()), None)),
        },
    }
}

/// The last id of the stream under a key, `0-0` where there is no stream.
pub open spec fn last_id_of(v: Option<DataView>) -> StreamId {
    match v {
        Some(DataView::Stream(_, last)) => last,
        _ => zero_id(),
    }
}

pub open spec fn group_view(g: (Vec<u8>, Vec<StreamEntry>)) -> (Seq<u8>, Seq<(StreamId, Seq<(Seq<u8>, Seq<u8>)>)>) {
    (g.0@, view_entries(g.1@))
}

/// For the first `n` keys, each stream's entries after its start, for the keys
/// where there are any.
pub open spec fn read_groups(m: KeyspaceView, keys: Seq<Seq<u8>>, starts: Seq<Bound>, now: u64, n: int) -> Seq<(Seq<u8>, Seq<(StreamId, Seq<(Seq<u8>, Seq<u8>)>)>)>
    decreases n,
{
    if n <= 0 {
        Seq::empty()
    } else {
        let before = read_groups(m, keys, starts, now, n - 1);
        match live_value(m, keys[n - 1], now) {
            Some(DataView::Stream(es, _)) => {
                let after = es.filter(|e: (StreamId, Seq<(Seq<u8>, Seq<u8>)>)| cmp_bound(e.0, starts[n - 1]) > 0);
                if after.len() > 0 {
                    before.push((keys[n - 1], after))
                } else {
                    before
                }
            },
            _ => before,
        }
    }
}

fn pair_fields(f: &[Vec<u8>]) -> (r: Vec<(Vec<u8>, Vec<u8>)>)
    ensures
        fields_view(r@) == pairs_of(f@.map_values(|b: Vec<u8>| b@)),
{
    let mut out: Vec<(Vec<u8>, Vec<u8>)> = Vec::new();
    let mut i: usize = 0;
    let len = f.len();
    let n = len / 2;
    while i < n
        invariant
            n == f@.len() / 2,
            len == f@.len(),
            i <= n,
            fields_view(out@) == pairs_of(f@.map_values(|b: Vec<u8>| b@)).subrange(0, i as int),
        decreases n - i,
    {
        let ghost before = out@;
        let a = 2 * i;
        out.push((clone_bytes(&f[a]), clone_bytes(&f[a + 1])));
        assert(fields_view(out@) =~= fields_view(before).push((f@[a as int]@, f@[a + 1]@)));
        assert(pairs_of(f@.map_values(|b: Vec<u8>| b@)).subrange(0, i + 1) =~= pairs_of(
            f@.map_values(|b: Vec<u8>| b@),
        ).subrange(0, i as int).push(pairs_of(f@.map_values(|b: Vec<u8>| b@))[i as int]));
        i = i + 1;
    }
    assert(pairs_of(f@.map_values(|b: Vec<u8>| b@)).subrange(0, n as int) =~= pairs_of(
        f@.map_values(|b: Vec<u8>| b@),
    ));
    out
}

struct Slot {
    key: Vec<u8>,
    value: DataType,
    expire_at: Option<u64>,
}

spec fn has_key(s: Seq<Slot>, k: Seq<u8>) -> bool {
    exists|i: int| 0 <= i < s.len() && (#[trigger] s[i]).key@ == k
}

spec fn slot_index(s: Seq<Slot>, k: Seq<u8>) -> int {
    choose|i: int| 0 <= i < s.len() && (#[trigger] s[i]).key@ == k
}

spec fn map_of(s: Seq<Slot>) -> KeyspaceView {
    Map::new(
        |k: Seq<u8>| has_key(s, k),
        |k: Seq<u8>| (s[slot_index(s, k)].value@, s[slot_index(s, k)].expire_at),
    )
}

spec fn distinct_keys(s: Seq<Slot>) -> bool {
    forall|i: int, j: int|
        0 <= i < s.len() && 0 <= j < s.len() && i != j ==> (#[trigger] s[i]).key@ != (#[trigger] s[j]).key@
}

proof fn lemma_map_of_index(s: Seq<Slot>, i: int)
    requires
        distinct_keys(s),
        0 <= i < s.len(),
    ensures
        map_of(s).contains_key(s[i].key@),
        map_of(s)[s[i].key@] == (s[i].value@, s[i].expire_at),
{
    assert(has_key(s, s[i].key@));
    let j = slot_index(s, s[i].key@);
    assert(s[j].key@ == s[i].key@);
}

proof fn lemma_map_of_update(s: Seq<Slot>, i: int, x: Slot)
    requires
        distinct_keys(s),
        0 <= i < s.len(),
        x.key@ == s[i].key@,
    ensures
        distinct_keys(s.update(i, x)),
        map_of(s.update(i, x)) == map_of(s).insert(x.key@, (x.value@, x.expire_at)),
{
    let t = s.update(i, x);
    assert forall|a: int, b: int|
        0 <= a < t.len() && 0 <= b < t.len() && a != b implies (#[trigger] t[a]).key@ != (
        #[trigger] t[b]).key@ by {
        assert(s[a].key@ != s[b].key@);
    }
    assert forall|k: Seq<u8>| #[trigger] has_key(t, k) == has_key(s, k) by {
        if has_key(s, k) {
            let j = choose|j: int| 0 <= j < s.len() && (#[trigger] s[j]).key@ == k;
            assert(t[j].key@ == k);
        }
        if has_key(t, k) {
            let j = choose|j: int| 0 <= j < t.len() && (#[trigger] t[j]).key@ == k;
            assert(s[j].key@ == k);
        }
    }
    assert forall|k: Seq<u8>| has_key(t, k) && k != x.key@ implies #[trigger] map_of(t)[k] == map_of(
        s,
    )[k] by {
        let j = slot_index(t, k);
        let j2 = slot_index(s, k);
        assert(t[j].key@ == k);
        assert(s[j2].key@ == k);
        assert(j != i);
        assert(j2 != i);
        assert(j == j2);
    }
    lemma_map_of_index(t, i);
    assert(map_of(t) =~= map_of(s).insert(x.key@, (x.value@, x.expire_at)));
}

proof fn lemma_map_of_push(s: Seq<Slot>, x: Slot)
    requires
        distinct_keys(s),
        !has_key(s, x.key@),
    ensures
        distinct_keys(s.push(x)),
        map_of(s.push(x)) == map_of(s).insert(x.key@, (x.value@, x.expire_at)),
{
    let t = s.push(x);
    assert forall|a: int, b: int|
        0 <= a < t.len() && 0 <= b < t.len() && a != b implies (#[trigger] t[a]).key@ != (
        #[trigger] t[b]).key@ by {
        if a < s.len() && b < s.len() {
            assert(s[a].key@ != s[b].key@);
        } else if a < s.len() {
            assert(t[a] == s[a]);
        } else {
            assert(t[b] == s[b]);
        }
    }
    assert forall|k: Seq<u8>| k != x.key@ implies #[trigger] has_key(t, k) == has_key(s, k) by {
        if has_key(s, k) {
            let j = choose|j: int| 0 <= j < s.len() && (#[trigger] s[j]).key@ == k;
            assert(t[j].key@ == k);
        }
        if has_key(t, k) {
            let j = choose|j: int| 0 <= j < t.len() && (#[trigger] t[j]).key@ == k;
            assert(s[j].key@ == k);
        }
    }
    assert forall|k: Seq<u8>| has_key(t, k) && k != x.key@ implies #[trigger] map_of(t)[k] == map_of(
        s,
    )[k] by {
        let j = slot_index(t, k);
        let j2 = slot_index(s, k);
        assert(t[j].key@ == k);
        assert(s[j2].key@ == k);
        assert(j == j2);
    }
    lemma_map_of_index(t, s.len() as int);
    assert(map_of(t) =~= map_of(s).insert(x.key@, (x.value@, x.expire_at)));
}

proof fn lemma_map_of_remove(s: Seq<Slot>, i: int)
    requires
        distinct_keys(s),
        0 <= i < s.len(),
    ensures
        distinct_keys(s.remove(i)),
        map_of(s.remove(i)) == map_of(s).remove(s[i].key@),
{
    let t = s.remove(i);
    let key = s[i].key@;
    assert forall|a: int, b: int|
        0 <= a < t.len() && 0 <= b < t.len() && a != b implies (#[trigger] t[a]).key@ != (
        #[trigger] t[b]).key@ by {
        let a2 = if a < i {
            a
        } else {
            a + 1
        };
        let b2 = if b < i {
            b
        } else {
            b + 1
        };
        assert(t[a] == s[a2]);
        assert(t[b] == s[b2]);
        assert(s[a2].key@ != s[b2].key@);
    }
    assert forall|k: Seq<u8>| #[trigger] has_key(t, k) == (has_key(s, k) && k != key) by {
        if has_key(s, k) && k != key {
            let j = choose|j: int| 0 <= j < s.len() && (#[trigger] s[j]).key@ == k;
            assert(j != i);
            if j < i {
                assert(t[j].key@ == k);
            } else {
                assert(t[j - 1].key@ == k);
            }
        }
        if has_key(t, k) {
            let j = choose|j: int| 0 <= j < t.len() && (#[trigger] t[j]).key@ == k;
            let j2 = if j < i {
                j
            } else {
                j + 1
            };
            assert(s[j2].key@ == k);
            assert(j2 != i);
        }
    }
    assert forall|k: Seq<u8>| has_key(t, k) implies #[trigger] map_of(t)[k] == map_of(s)[k] by {
        let j = slot_index(t, k);
        let j2 = slot_index(s, k);
        assert(t[j].key@ == k);
        assert(s[j2].key@ == k);
        let j3 = if j < i {
            j
        } else {
            j + 1
        };
        assert(t[j] == s[j3]);
        assert(j3 == j2);
    }
    assert(map_of(t) =~= map_of(s).remove(key));
}

pub fn bytes_eq(a: &[u8], b: &[u8]) -> (r: bool)
    ensures
        r == (a@ == b@),
{
    if a.len() != b.len() {
        return false;
    }
    let mut i: usize = 0;
    while i < a.len()
        invariant
            i <= a@.len(),
            a@.len() == b@.len(),
            forall|j: int| 0 <= j < i ==> a@[j] == b@[j],
        decreases a@.len() - i,
    {
        if a[i] != b[i] {
            return false;
        }
        i = i + 1;
    }
    assert(a@ =~= b@);
    true
}

/// The key/value store.
pub struct DataStore {
    slots: Vec<Slot>,
}

impl View for DataStore {
    type V = KeyspaceView;

    closed spec fn view(&self) -> KeyspaceView {
        map_of(self.slots@)
    }
}

impl DataStore {
    /// Keys are distinct and every stream satisfies its invariant.
    pub closed spec fn wf(&self) -> bool {
        &&& distinct_keys(self.slots@)
        &&& forall|i: int| 0 <= i < self.slots@.len() ==> (#[trigger] self.slots@[i]).value.wf()
    }

    pub fn new() -> (r: DataStore)
        ensures
            r.wf(),
            r@ == Map::<Seq<u8>, (DataView, Option<u64>)>::empty(),
    {
        let r = DataStore { slots: Vec::new() };
        assert(r@ =~= Map::<Seq<u8>, (DataView, Option<u64>)>::empty());
        r
    }

    fn find(&self, key: &[u8]) -> (r: Option<usize>)
        requires
            self.wf(),
        ensures
            match r {
                Some(i) => i < self.slots@.len() && self.slots@[i as int].key@ == key@
                    && self@.contains_key(key@) && self@[key@] == (
                    self.slots@[i as int].value@,
                    self.slots@[i as int].expire_at,
                ),
                None => !self@.contains_key(key@) && !has_key(self.slots@, key@),
            },
    {
        let mut i: usize = 0;
        while i < self.slots.len()
            invariant
                i <= self.slots@.len(),
                self.wf(),
                forall|j: int| 0 <= j < i ==> (#[trigger] self.slots@[j]).key@ != key@,
            decreases self.slots@.len() - i,
        {
            if bytes_eq(self.slots[i].key.as_slice(), key) {
                proof {
                    lemma_map_of_index(self.slots@, i as int);
                }
                return Some(i);
            }
            i = i + 1;
        }
        None
    }

    /// Drops `key` when its time has passed.
    fn drop_if_expired(&mut self, key: &[u8], now: u64)
        requires
            old(self).wf(),
        ensures
            final(self).wf(),
            final(self)@ == without_expired(old(self)@, key@, now),
    {
        match self.find(key) {
            None => {},
            Some(i) => {
                let gone = match self.slots[i].expire_at {
                    Some(t) => now > t,
                    None => false,
                };
                if gone {
                    proof {
                        lemma_map_of_remove(self.slots@, i as int);
                    }
                    let ghost before = self.slots@;
                    self.slots.remove(i);
                    assert forall|j: int| 0 <= j < self.slots@.len() implies (
                    #[trigger] self.slots@[j]).value.wf() by {
                        if j < i {
                            assert(self.slots@[j] == before[j]);
                        } else {
                            assert(self.slots@[j] == before[j + 1]);
                        }
                    }
                }
            },
        }
    }

    /// The value under `key` at `now` (ms); an expired entry is removed and reads
    /// as missing.
    pub fn get(&mut self, key: &[u8], now: u64) -> (r: Option<DataType>)
        requires
            old(self).wf(),
        ensures
            final(self).wf(),
            opt_view(r) == live_value(old(self)@, key@, now),
            final(self)@ == without_expired(old(self)@, key@, now),
            r matches Some(d) ==> d.wf(),
    {
        self.drop_if_expired(key, now);
        match self.find(key) {
            None => None,
            Some(i) => Some(self.slots[i].value.duplicate()),
        }
    }

    /// Stores `value` under `key`, replacing what was there; the expiry time is
    /// replaced too (`None` clears it).
    pub fn insert(&mut self, key: &[u8], value: DataType, expire_at: Option<u64>)
        requires
            old(self).wf(),
            value.wf(),
        ensures
            final(self).wf(),
            final(self)@ == old(self)@.insert(key@, (value@, expire_at)),
    {
        let ghost before = self.slots@;
        let k = vstd::slice::slice_to_vec(key);
        let slot = Slot { key: k, value, expire_at };
        match self.find(key) {
            Some(i) => {
                proof {
                    lemma_map_of_update(self.slots@, i as int, slot);
                }
                self.slots.set(i, slot);
            },
            None => {
                proof {
                    lemma_map_of_push(self.slots@, slot);
                }
                self.slots.push(slot);
            },
        }
        assert forall|j: int| 0 <= j < self.slots@.len() implies (
        #[trigger] self.slots@[j]).value.wf() by {
            if j < before.len() && self.slots@[j] != slot {
                assert(self.slots@[j] == before[j]);
            }
        }
    }

    /// A capacity hint; the contents do not change.
    pub fn reserve(&mut self, additional: usize)
        requires
            old(self).wf(),
        ensures
            final(self).wf(),
            final(self)@ == old(self)@,
    {
        self.slots.reserve(additional);
        assert(self.slots@ =~= old(self).slots@);
    }

    /// Every key whose time has not passed at `now`, each once.
    pub fn keys(&self, now: u64) -> (r: Vec<Vec<u8>>)
        requires
            self.wf(),
        ensures
            forall|i: int| 0 <= i < r@.len() ==> live_value(self@, (#[trigger] r@[i])@, now) is Some,
            forall|k: Seq<u8>| #[trigger] live_value(self@, k, now) is Some ==> exists|i: int|
                0 <= i < r@.len() && (#[trigger] r@[i])@ == k,
            forall|i: int, j: int|
                0 <= i < j < r@.len() ==> (#[trigger] r@[i])@ != (#[trigger] r@[j])@,
    {
        let mut out: Vec<Vec<u8>> = Vec::new();
        let ghost mut idx: Seq<int> = Seq::empty();
        let mut i: usize = 0;
        while i < self.slots.len()
            invariant
                i <= self.slots@.len(),
                self.wf(),
                idx.len() == out@.len(),
                forall|a: int|
                    0 <= a < idx.len() ==> 0 <= #[trigger] idx[a] < i && out@[a]@
                        == self.slots@[idx[a]].key@ && !expired(self.slots@[idx[a]].expire_at, now),
                forall|a: int, b: int| 0 <= a < b < idx.len() ==> #[trigger] idx[a] < #[trigger] idx[b],
                forall|j: int|
                    0 <= j < i && !expired((#[trigger] self.slots@[j]).expire_at, now) ==> exists|
                        a: int,
                    | 0 <= a < idx.len() && #[trigger] idx[a] == j,
            decreases self.slots@.len() - i,
        {
            let live = match self.slots[i].expire_at {
                Some(t) => !(now > t),
                None => true,
            };
            if live {
                let ghost before = idx;
                out.push(clone_bytes(&self.slots[i].key));
                proof {
                    idx = idx.push(i as int);
                    assert forall|j: int|
                        0 <= j < i + 1 && !expired((#[trigger] self.slots@[j]).expire_at, now)
                            implies exists|a: int| 0 <= a < idx.len() && #[trigger] idx[a] == j by {
                        if j < i {
                            let a = choose|a: int| 0 <= a < before.len() && #[trigger] before[a] == j;
                            assert(idx[a] == j);
                        } else {
                            assert(idx[before.len() as int] == j);
                        }
                    }
                }
            }
            i = i + 1;
        }
        assert forall|a: int| 0 <= a < out@.len() implies live_value(self@, (#[trigger] out@[a])@, now) is Some by {
            lemma_map_of_index(self.slots@, idx[a]);
        }
        assert forall|k: Seq<u8>| #[trigger] live_value(self@, k, now) is Some implies exists|a: int|
            0 <= a < out@.len() && (#[trigger] out@[a])@ == k by {
            let j = slot_index(self.slots@, k);
            lemma_map_of_index(self.slots@, j);
            assert(!expired(self.slots@[j].expire_at, now));
            let a = choose|a: int| 0 <= a < idx.len() && #[trigger] idx[a] == j;
            assert(out@[a]@ == k);
        }
        assert forall|a: int, b: int| 0 <= a < b < out@.len() implies (#[trigger] out@[a])@ != (
            #[trigger] out@[b])@ by {
            assert(idx[a] < idx[b]);
        }
        out
    }

    /// Adds one to the integer under `key`; a missing key counts as `0`. The new
    /// value is stored as decimal text and keeps the key's expiry time.
    pub fn increment(&mut self, key: &[u8], now: u64) -> (r: Result<i64, IncrError>)
        requires
            old(self).wf(),
        ensures
            final(self).wf(),
            r == match incremented(live_value(old(self)@, key@, now)) {
                Some(n) => Ok::<i64, IncrError>(n),
                None => Err(IncrError::NotAnInteger),
            },
            ({
                let m = without_expired(old(self)@, key@, now);
                match r {
                    Ok(n) => final(self)@ == m.insert(
                        key@,
                        (
                            DataView::Str(signed_decimal_of(n as int)),
                            if m.contains_key(key@) {
                                m[key@].1
                            } else {
                                None
                            },
                        ),
                    ),
                    Err(_) => final(self)@ == m,
                }
            }),
    {
        self.drop_if_expired(key, now);
        let (current, expire_at) = match self.find(key) {
            None => (0i64, None),
            Some(i) => {
                let parsed = match &self.slots[i].value {
                    DataType::String(s) => parse_i64(s.as_slice()),
                    DataType::Stream(_) => None,
                };
                match parsed {
                    Some(n) => (n, self.slots[i].expire_at),
                    None => {
                        return Err(IncrError::NotAnInteger);
                    },
                }
            },
        };
        if current == i64::MAX {
            return Err(IncrError::NotAnInteger);
        }
        let next = current + 1;
        let mut text: Vec<u8> = Vec::new();
        push_signed_decimal(&mut text, next);
        assert(text@ =~= signed_decimal_of(next as int));
        self.insert(key, DataType::String(text), expire_at);
        Ok(next)
    }

    /// Appends an entry to the stream under `key`. A missing key first gets an empty
    /// stream with no expiry, which stays even when the id is rejected. `fields` alternate field and value.
    pub fn xadd(&mut self, key: &[u8], id: &[u8], fields: &[Vec<u8>], now: u64) -> (r: Result<
        StreamId,
        XaddError,
    >)
        requires
            old(self).wf(),
        ensures
            final(self).wf(),
            xadd_effect(old(self)@, key@, id@, fields@.map_values(|b: Vec<u8>| b@), now, r, final(self)@),
    {
        self.drop_if_expired(key, now);
        let pairs = pair_fields(fields);
        match self.find(key) {
            None => {
                let mut st = RedisStream::new();
                let r = st.insert(id, now, pairs);
                if r.is_ok() {
                    proof {
                        st.lemma_ids_increase();
                    }
                    assert(st@ =~= seq![(r->Ok_0, pairs_of(fields@.map_values(|b: Vec<u8>| b@)))]);
                    self.insert(key, DataType::Stream(st), None);
                } else {
                    assert(st@ =~= Seq::<(StreamId, Seq<(Seq<u8>, Seq<u8>)>)>::empty());
                    self.insert(key, DataType::Stream(st), None);
                }
                r
            },
            Some(i) => {
                let is_string = match &self.slots[i].value {
                    DataType::String(_) => true,
                    DataType::Stream(_) => false,
                };
                if is_string {
                    return Err(XaddError::WrongType);
                }
                let ghost before = self.slots@;
                proof {
                    lemma_map_of_index(self.slots@, i as int);
                }
                let slot = self.slots.remove(i);
                let Slot { key: k, value, expire_at } = slot;
                match value {
                    DataType::Stream(mut st) => {
                        assert(before[i as int].value.wf());
                        let r = st.insert(id, now, pairs);
                        let back = Slot { key: k, value: DataType::Stream(st), expire_at };
                        self.slots.insert(i, back);
                        assert(self.slots@ =~= before.update(i as int, back));
                        proof {
                            lemma_map_of_update(before, i as int, back);
                        }
                        assert forall|j: int| 0 <= j < self.slots@.len() implies (
                        #[trigger] self.slots@[j]).value.wf() by {
                            if j != i {
                                assert(self.slots@[j] == before[j]);
                            }
                        }
                        if r.is_err() {
                            assert(map_of(self.slots@) =~= map_of(before));
                        }
                        r
                    },
                    DataType::String(_) => Err(XaddError::WrongType),
                }
            },
        }
    }

    /// The entries of the stream under `key` between `start` and `end`, both
    /// included; none when the key holds no live stream.
    pub fn xrange(&self, key: &[u8], start: Bound, end: Bound, now: u64) -> (r: Vec<StreamEntry>)
        requires
            self.wf(),
        ensures
            match live_value(self@, key@, now) {
                Some(DataView::Stream(es, _)) => view_entries(r@) == es.filter(
                    |e: (StreamId, Seq<(Seq<u8>, Seq<u8>)>)| in_range(e.0, start, end),
                ),
                _ => r@.len() == 0,
            },
    {
        match self.find(key) {
            None => Vec::new(),
            Some(i) => {
                let gone = match self.slots[i].expire_at {
                    Some(t) => now > t,
                    None => false,
                };
                if gone {
                    return Vec::new();
                }
                match &self.slots[i].value {
                    DataType::Stream(st) => st.query(start, end),
                    DataType::String(_) => Vec::new(),
                }
            },
        }
    }

    /// The last id of the stream under `key` (`0-0` where there is none).
    fn last_id_under(&self, key: &[u8], now: u64) -> (r: StreamId)
        requires
            self.wf(),
        ensures
            r == last_id_of(live_value(self@, key@, now)),
    {
        match self.find(key) {
            None => StreamId { ms: 0, seq: 0 },
            Some(i) => {
                let gone = match self.slots[i].expire_at {
                    Some(t) => now > t,
                    None => false,
                };
                if gone {
                    return StreamId { ms: 0, seq: 0 };
                }
                match &self.slots[i].value {
                    DataType::Stream(st) => st.last_id_exec(),
                    DataType::String(_) => StreamId { ms: 0, seq: 0 },
                }
            },
        }
    }

    /// Replaces each `$` among `ids` by the last id of the stream under the key at
    /// the same position, so that a later read returns only newer entries.
    pub fn xreadids(&self, keys: &Vec<Vec<u8>>, ids: &mut Vec<Vec<u8>>, now: u64)
        requires
            self.wf(),
            keys@.len() == old(ids)@.len(),
        ensures
            final(ids)@.len() == old(ids)@.len(),
            forall|i: int|
                0 <= i < old(ids)@.len() ==> (#[trigger] final(ids)@[i])@ == if old(ids)@[i]@
                    == seq![36u8] {
                    id_text(last_id_of(live_value(self@, keys@[i]@, now)))
                } else {
                    old(ids)@[i]@
                },
    {
        let mut i: usize = 0;
        while i < ids.len()
            invariant
                i <= ids@.len(),
                self.wf(),
                ids@.len() == old(ids)@.len(),
                keys@.len() == ids@.len(),
                forall|j: int|
                    0 <= j < i ==> (#[trigger] ids@[j])@ == if old(ids)@[j]@ == seq![36u8] {
                        id_text(last_id_of(live_value(self@, keys@[j]@, now)))
                    } else {
                        old(ids)@[j]@
                    },
                forall|j: int| i <= j < ids@.len() ==> #[trigger] ids@[j] == old(ids)@[j],
            decreases ids@.len() - i,
        {
            let is_dollar = ids[i].len() == 1 && ids[i][0] == 36;
            if is_dollar {
                assert(ids@[i as int]@ =~= seq![36u8]);
                let last = self.last_id_under(keys[i].as_slice(), now);
                let text = format_id(last);
                ids.set(i, text);
            } else {
                assert(ids@[i as int]@ != seq![36u8]);
            }
            i = i + 1;
        }
    }

    /// For each key in turn, the entries of its stream strictly after the start at
    /// the same position; keys without such entries are left out.
    pub fn xread(&self, keys: &Vec<Vec<u8>>, starts: &Vec<Bound>, now: u64) -> (r: Vec<(Vec<u8>, Vec<StreamEntry>)>)
        requires
            self.wf(),
            keys@.len() == starts@.len(),
        ensures
            r@.map_values(|g: (Vec<u8>, Vec<StreamEntry>)| group_view(g)) == read_groups(
                self@,
                keys@.map_values(|k: Vec<u8>| k@),
                starts@,
                now,
                keys@.len() as int,
            ),
    {
        let mut out: Vec<(Vec<u8>, Vec<StreamEntry>)> = Vec::new();
        let mut i: usize = 0;
        while i < keys.len()
            invariant
                i <= keys@.len(),
                self.wf(),
                keys@.len() == starts@.len(),
                out@.map_values(|g: (Vec<u8>, Vec<StreamEntry>)| group_view(g)) == read_groups(
                    self@,
                    keys@.map_values(|k: Vec<u8>| k@),
                    starts@,
                    now,
                    i as int,
                ),
            decreases keys@.len() - i,
        {
            let ghost before = out@;
            match self.find(keys[i].as_slice()) {
                None => {},
                Some(j) => {
                    let gone = match self.slots[j].expire_at {
                        Some(t) => now > t,
                        None => false,
                    };
                    if !gone {
                        match &self.slots[j].value {
                            DataType::Stream(st) => {
                                let entries = st.query_after(starts[i]);
                                if entries.len() > 0 {
                                    out.push((clone_bytes(&keys[i]), entries));
                                    assert(out@.map_values(|g: (Vec<u8>, Vec<StreamEntry>)| group_view(g))
                                        =~= before.map_values(|g: (Vec<u8>, Vec<StreamEntry>)| group_view(g)).push(
                                        group_view(out@[before.len() as int]),
                                    ));
                                }
                            },
                            DataType::String(_) => {},
                        }
                    }
                },
            }
            i = i + 1;
        }
        out
    }
}

} // verus!
