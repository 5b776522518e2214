//! Values by address.

use crate::transport::SocketAddr;
use vstd::prelude::*;

verus! {

/// Values by address. There are few of them, so they are looked through one by one.
pub struct AddrMap<V> {
    entries: Vec<(SocketAddr, V)>,
}

/// Whether entry `i` is the one for an address.
spec fn is_at<V>(entries: Seq<(SocketAddr, V)>, addr: SocketAddr, i: int) -> bool {
    0 <= i < entries.len() && entries[i].0 == addr
}

/// No address occurs twice.
spec fn distinct<V>(entries: Seq<(SocketAddr, V)>) -> bool {
    forall|i: int, j: int|
        0 <= i < j < entries.len() ==> (#[trigger] entries[i]).0 != (#[trigger] entries[j]).0
}

/// The entries as a map.
spec fn as_map<V>(entries: Seq<(SocketAddr, V)>) -> Map<SocketAddr, V> {
    Map::new(
        |addr: SocketAddr| exists|i: int| is_at(entries, addr, i),
        |addr: SocketAddr| entries[choose|i: int| is_at(entries, addr, i)].1,
    )
}

impl<V> View for AddrMap<V> {
    type V = Map<SocketAddr, V>;

    closed spec fn view(&self) -> Map<SocketAddr, V> {
        as_map(self.entries@)
    }
}

proof fn lemma_entry<V>(entries: Seq<(SocketAddr, V)>, i: int)
    requires
        distinct(entries),
        0 <= i < entries.len(),
    ensures
        as_map(entries).contains_key(entries[i].0),
        as_map(entries)[entries[i].0] == entries[i].1,
{
    let addr = entries[i].0;
    assert(is_at(entries, addr, i));
    let j = choose|j: int| is_at(entries, addr, j);
    assert(is_at(entries, addr, j));
    assert(j == i);
}

impl<V> AddrMap<V> {
    /// No address occurs twice.
    pub closed spec fn wf(&self) -> bool {
        distinct(self.entries@)
    }

    /// A map without entries.
    pub fn new() -> (map: AddrMap<V>)
        ensures
            map.wf(),
            map@ == Map::<SocketAddr, V>::empty(),
    {
        let map = AddrMap { entries: Vec::new() };
        assert(map@ =~= Map::<SocketAddr, V>::empty()) by {
            assert forall|addr: SocketAddr| !(#[trigger] map@.contains_key(addr)) by {
                if map@.contains_key(addr) {
                    let i = choose|i: int| is_at(map.entries@, addr, i);
                    assert(is_at(map.entries@, addr, i));
                }
            }
        }
        map
    }

    /// Where the entry for an address is.
    fn position(&self, addr: &SocketAddr) -> (at: Option<usize>)
        requires
            self.wf(),
        ensures
            match at {
                Some(i) => is_at(self.entries@, *addr, i as int) && self@.contains_key(*addr)
                    && self@[*addr] == self.entries@[i as int].1,
                None => !self@.contains_key(*addr),
            },
    {
        let mut i: usize = 0;
        while i < self.entries.len()
            invariant
                i <= self.entries@.len(),
                self.wf(),
                forall|j: int| 0 <= j < i ==> (#[trigger] self.entries@[j]).0 != *addr,
            decreases self.entries@.len() - i,
        {
            if self.entries[i].0 == *addr {
                proof {
                    lemma_entry(self.entries@, i as int);
                }
                return Some(i);
            }
            i += 1;
        }
        proof {
            if self@.contains_key(*addr) {
                let j = choose|j: int| is_at(self.entries@, *addr, j);
                assert(is_at(self.entries@, *addr, j));
            }
        }
        None
    }

    /// The value for an address.
    pub fn get(&self, addr: &SocketAddr) -> (value: Option<&V>)
        requires
            self.wf(),
        ensures
            match value {
                Some(value) => self@.contains_key(*addr) && *value == self@[*addr],
                None => !self@.contains_key(*addr),
            },
    {
        match self.position(addr) {
            Some(i) => Some(&self.entries[i].1),
            None => None,
        }
    }

    /// Whether there is a value for an address.
    pub fn contains(&self, addr: &SocketAddr) -> (found: bool)
        requires
            self.wf(),
        ensures
            found == self@.contains_key(*addr),
    {
        match self.position(addr) {
            Some(_) => true,
            None => false,
        }
    }

    /// How many entries there are.
    pub closed spec fn size(&self) -> nat {
        self.entries@.len()
    }

    /// Takes the value for an address out.
    pub fn remove(&mut self, addr: &SocketAddr) -> (value: Option<V>)
        requires
            old(self).wf(),
        ensures
            final(self).wf(),
            final(self)@ == old(self)@.remove(*addr),
            match value {
                Some(value) => old(self)@.contains_key(*addr) && value == old(self)@[*addr]
                    && final(self).size() + 1 == old(self).size(),
                None => !old(self)@.contains_key(*addr) && final(self).size() == old(self).size(),
            },
    {
        match self.position(addr) {
            Some(i) => {
                let ghost before = self.entries@;
                let (_, value) = self.entries.remove(i);
                proof {
                    lemma_removed(before, i as int);
                }
                Some(value)
            },
            None => {
                assert(self@ =~= self@.remove(*addr));
                None
            },
        }
    }

    /// How many entries there are.
    fn len(&self) -> (n: usize)
        requires
            self.wf(),
        ensures
            n == 0 <==> self@ == Map::<SocketAddr, V>::empty(),
            n == self.size(),
    {
        proof {
            if self.entries@.len() == 0 {
                assert forall|addr: SocketAddr| !(#[trigger] self@.contains_key(addr)) by {
                    if self@.contains_key(addr) {
                        let i = choose|i: int| is_at(self.entries@, addr, i);
                        assert(is_at(self.entries@, addr, i));
                    }
                }
                assert(self@ =~= Map::<SocketAddr, V>::empty());
            } else {
                lemma_entry(self.entries@, 0);
            }
        }
        self.entries.len()
    }

    /// Takes some value out.
    pub fn pop(&mut self) -> (entry: Option<(SocketAddr, V)>)
        requires
            old(self).wf(),
        ensures
            final(self).wf(),
            match entry {
                Some((addr, value)) => {
                    &&& old(self)@.contains_key(addr)
                    &&& value == old(self)@[addr]
                    &&& final(self)@ == old(self)@.remove(addr)
                    &&& final(self).size() + 1 == old(self).size()
                },
                None => old(self)@ == Map::<SocketAddr, V>::empty() && final(self)@ == old(self)@,
            },
    {
        let n: usize = self.len();
        if n == 0 {
            return None;
        }
        let ghost before = self.entries@;
        let entry: (SocketAddr, V) = self.entries.remove(0);
        proof {
            lemma_entry(before, 0);
            lemma_removed(before, 0);
        }
        Some(entry)
    }

    /// Sets the value for an address that has none.
    pub fn insert(&mut self, addr: SocketAddr, value: V)
        requires
            old(self).wf(),
            !old(self)@.contains_key(addr),
        ensures
            final(self).wf(),
            final(self)@ == old(self)@.insert(addr, value),
    {
        let ghost before = self.entries@;
        self.entries.push((addr, value));
        proof {
            let after = self.entries@;
            assert forall|i: int| 0 <= i < before.len() implies (#[trigger] before[i]).0 != addr by {
                lemma_entry(before, i);
            }
            assert forall|a: SocketAddr|
                as_map(after).contains_key(a) == as_map(before).insert(addr, value).contains_key(
                    a,
                ) by {
                if exists|i: int| is_at(after, a, i) {
                    let i = choose|i: int| is_at(after, a, i);
                    assert(is_at(after, a, i));
                    if i < before.len() {
                        assert(is_at(before, a, i));
                    }
                }
                if exists|i: int| is_at(before, a, i) {
                    let i = choose|i: int| is_at(before, a, i);
                    assert(is_at(after, a, i));
                }
                assert(is_at(after, addr, before.len() as int));
            }
            assert forall|a: SocketAddr| #[trigger] as_map(after).contains_key(a) implies as_map(
                after,
            )[a] == as_map(before).insert(addr, value)[a] by {
                let i = choose|i: int| is_at(after, a, i);
                assert(is_at(after, a, i));
                lemma_entry(after, i);
                if i < before.len() {
                    lemma_entry(before, i);
                }
            }
            assert(as_map(after) =~= as_map(before).insert(addr, value));
        }
    }

    /// The addresses.
    pub fn keys(&self) -> (keys: Vec<SocketAddr>)
        requires
            self.wf(),
        ensures
            keys@.no_duplicates(),
            keys@.to_set() == self@.dom(),
    {
        let mut keys: Vec<SocketAddr> = Vec::new();
        let mut i: usize = 0;
        while i < self.entries.len()
            invariant
                i <= self.entries@.len(),
                self.wf(),
                keys@.len() == i,
                forall|j: int| 0 <= j < i ==> #[trigger] keys@[j] == self.entries@[j].0,
            decreases self.entries@.len() - i,
        {
            keys.push(self.entries[i].0);
            i += 1;
        }
        proof {
            assert forall|addr: SocketAddr| keys@.to_set().contains(addr) == self@.dom().contains(
                addr,
            ) by {
                if keys@.contains(addr) {
                    let j = keys@.index_of(addr);
                    lemma_entry(self.entries@, j);
                }
                if self@.contains_key(addr) {
                    let j = choose|j: int| is_at(self.entries@, addr, j);
                    assert(is_at(self.entries@, addr, j));
                    assert(keys@[j] == addr);
                }
            }
            assert(keys@.to_set() =~= self@.dom());
        }
        keys
    }
}

proof fn lemma_removed<V>(before: Seq<(SocketAddr, V)>, i: int)
    requires
        distinct(before),
        0 <= i < before.len(),
    ensures
        distinct(before.remove(i)),
        as_map(before.remove(i)) == as_map(before).remove(before[i].0),
{
    let after = before.remove(i);
    let addr = before[i].0;
    assert forall|j: int, k: int| 0 <= j < k < after.len() implies (#[trigger] after[j]).0 != (
    #[trigger] after[k]).0 by {
        let x = if j < i {
            j
        } else {
            j + 1
        };
        let y = if k < i {
            k
        } else {
            k + 1
        };
        assert(after[j] == before[x] && after[k] == before[y]);
    }
    assert forall|a: SocketAddr|
        as_map(after).contains_key(a) == as_map(before).remove(addr).contains_key(a) by {
        if exists|j: int| is_at(after, a, j) {
            let j = choose|j: int| is_at(after, a, j);
            assert(is_at(after, a, j));
            let x = if j < i {
                j
            } else {
                j + 1
            };
            assert(is_at(before, a, x));
            assert(before[x].0 != before[i].0);
        }
        if a != addr && exists|j: int| is_at(before, a, j) {
            let j = choose|j: int| is_at(before, a, j);
            assert(is_at(before, a, j));
            let x = if j < i {
                j
            } else {
                j - 1
            };
            assert(is_at(after, a, x));
        }
    }
    assert forall|a: SocketAddr| #[trigger] as_map(after).contains_key(a) implies as_map(after)[a]
        == as_map(before).remove(addr)[a] by {
        let j = choose|j: int| is_at(after, a, j);
        assert(is_at(after, a, j));
        lemma_entry(after, j);
        let x = if j < i {
            j
        } else {
            j + 1
        };
        lemma_entry(before, x);
    }
    assert(as_map(after) =~= as_map(before).remove(addr));
}

} // verus!
