//! Tail subscriptions of blocking stream reads: a key set and an id that the
//! waiting side knows its signal by.

use vstd::prelude::*;
use crate::store::bytes_eq;

verus! {

pub struct XreadSubscription {
    id: u64,
    wakeup_keys: Vec<Vec<u8>>,
}

pub open spec fn keys_view(k: Seq<Vec<u8>>) -> Seq<Seq<u8>> {
    k.map_values(|b: Vec<u8>| b@)
}

impl View for XreadSubscription {
    type V = (u64, Seq<Seq<u8>>);

    closed spec fn view(&self) -> (u64, Seq<Seq<u8>>) {
        (self.id, keys_view(self.wakeup_keys@))
    }
}

/// The first subscription at or after `i` whose keys hold `key`.
pub open spec fn first_waiting(s: Seq<(u64, Seq<Seq<u8>>)>, key: Seq<u8>, i: int) -> Option<int>
    decreases s.len() - i,
{
    if i < 0 || i >= s.len() {
        None
    } else if s[i].1.contains(key) {
        Some(i)
    } else {
        first_waiting(s, key, i + 1)
    }
}

impl XreadSubscription {
    pub fn new(id: u64, wakeup_keys: Vec<Vec<u8>>) -> (r: XreadSubscription)
        ensures
            r@ == (id, keys_view(wakeup_keys@)),
    {
        XreadSubscription { id, wakeup_keys }
    }

    pub fn id(&self) -> (r: u64)
        ensures
            r == self@.0,
    {
        self.id
    }

    /// Whether a write to `key` wakes this subscription.
    pub fn attempt_wakeup(&self, key: &[u8]) -> (r: bool)
        ensures
            r == self@.1.contains(key@),
    {
        let mut i: usize = 0;
        while i < self.wakeup_keys.len()
            invariant
                i <= self.wakeup_keys@.len(),
                forall|j: int| 0 <= j < i ==> (#[trigger] self.wakeup_keys@[j])@ != key@,
            decreases self.wakeup_keys@.len() - i,
        {
            if bytes_eq(self.wakeup_keys[i].as_slice(), key) {
                assert(self@.1[i as int] == key@);
                return true;
            }
            i = i + 1;
        }
        assert forall|j: int| 0 <= j < self@.1.len() implies self@.1[j] != key@ by {
            assert(self@.1[j] == self.wakeup_keys@[j]@);
        }
        false
    }
}

/// The subscriptions waiting, oldest first.
pub struct Subscriptions {
    subs: Vec<XreadSubscription>,
}

impl View for Subscriptions {
    type V = Seq<(u64, Seq<Seq<u8>>)>;

    closed spec fn view(&self) -> Seq<(u64, Seq<Seq<u8>>)> {
        self.subs@.map_values(|s: XreadSubscription| s@)
    }
}

impl Subscriptions {
    pub fn new() -> (r: Subscriptions)
        ensures
            r@ == Seq::<(u64, Seq<Seq<u8>>)>::empty(),
    {
        let r = Subscriptions { subs: Vec::new() };
        assert(r@ =~= Seq::<(u64, Seq<Seq<u8>>)>::empty());
        r
    }

    pub fn subscribe(&mut self, s: XreadSubscription)
        ensures
            final(self)@ == old(self)@.push(s@),
    {
        self.subs.push(s);
        assert(self@ =~= old(self)@.push(s@));
    }

    /// A write to `key` wakes the oldest subscription that names it: that one is
    /// removed and its id returned. The others keep waiting.
    pub fn wakeup_subscribers(&mut self, key: &[u8]) -> (r: Option<u64>)
        ensures
            match first_waiting(old(self)@, key@, 0) {
                Some(i) => r == Some(old(self)@[i].0) && final(self)@ == old(self)@.remove(i),
                None => r is None && final(self)@ == old(self)@,
            },
    {
        let ghost all = self@;
        let mut i: usize = 0;
        while i < self.subs.len()
            invariant
                i <= self.subs@.len(),
                all == self@,
                self@ == old(self)@,
                first_waiting(all, key@, 0) == first_waiting(all, key@, i as int),
            decreases self.subs@.len() - i,
        {
            if self.subs[i].attempt_wakeup(key) {
                let s = self.subs.remove(i);
                assert(self@ =~= all.remove(i as int));
                return Some(s.id);
            }
            i = i + 1;
        }
        None
    }
}

} // verus!
