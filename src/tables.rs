//! The broker's tables: who owns each object name, who subscribes to each
//! event, and which request ids await a response.
use vstd::prelude::*;

verus! {

/// `m` without the entries whose value is `c`.
pub open spec fn without_value(m: Map<Seq<char>, u64>, c: u64) -> Map<Seq<char>, u64> {
    Map::new(|k: Seq<char>| m.contains_key(k) && m[k] != c, |k: Seq<char>| m[k])
}

/// `s` without the pairs whose connection is `c`.
pub open spec fn without_member(s: Set<(Seq<char>, u64)>, c: u64) -> Set<(Seq<char>, u64)> {
    s.filter(|p: (Seq<char>, u64)| p.1 != c)
}

/// A map from names to connection ids.
pub struct NameTable {
    entries: Vec<(String, u64)>,
    map: Ghost<Map<Seq<char>, u64>>,
}

impl View for NameTable {
    type V = Map<Seq<char>, u64>;

    closed spec fn view(&self) -> Map<Seq<char>, u64> {
        self.map@
    }
}

impl NameTable {
    /// The names, in the order in which they were first added.
    pub closed spec fn names(&self) -> Seq<Seq<char>> {
        self.entries@.map_values(|e: (String, u64)| e.0@)
    }

    pub closed spec fn wf(&self) -> bool {
        &&& forall|i: int|
            0 <= i < self.entries@.len() ==> self.map@.contains_key(#[trigger] self.entries@[i].0@)
                && self.map@[self.entries@[i].0@] == self.entries@[i].1
        &&& forall|k: Seq<char>| #[trigger]
            self.map@.contains_key(k) ==> exists|i: int|
                0 <= i < self.entries@.len() && #[trigger] self.entries@[i].0@ == k
        &&& forall|i: int, j: int|
            0 <= i < self.entries@.len() && 0 <= j < self.entries@.len() && i != j
                ==> #[trigger] self.entries@[i].0@ != #[trigger] self.entries@[j].0@
    }

    pub proof fn lemma_names(&self)
        requires
            self.wf(),
        ensures
            self.names().no_duplicates(),
            forall|k: Seq<char>| self@.contains_key(k) <==> #[trigger] self.names().contains(k),
    {
        assert forall|k: Seq<char>| self@.contains_key(k) implies #[trigger] self.names().contains(
            k,
        ) by {
            let i = choose|i: int| 0 <= i < self.entries@.len() && #[trigger] self.entries@[i].0@ == k;
            assert(self.names()[i] == k);
        }
        assert forall|k: Seq<char>| #[trigger] self.names().contains(k) implies self@.contains_key(
            k,
        ) by {
            let i = choose|i: int| 0 <= i < self.names().len() && self.names()[i] == k;
            assert(self.entries@[i].0@ == k);
        }
        assert forall|i: int, j: int|
            0 <= i < self.names().len() && 0 <= j < self.names().len() && i != j implies self.names()[i]
            != self.names()[j] by {
            assert(self.names()[i] == self.entries@[i].0@);
            assert(self.names()[j] == self.entries@[j].0@);
        }
    }

    pub fn new() -> (r: NameTable)
        ensures
            r.wf(),
            r@ == Map::<Seq<char>, u64>::empty(),
            r.names() == Seq::<Seq<char>>::empty(),
    {
        let r = NameTable { entries: Vec::new(), map: Ghost(Map::empty()) };
        assert(r.names() =~= Seq::<Seq<char>>::empty());
        r
    }

    fn find(&self, name: &String) -> (r: Option<usize>)
        requires
            self.wf(),
        ensures
            match r {
                Some(i) => i < self.entries@.len() && self.entries@[i as int].0@ == name@,
                None => !self@.contains_key(name@),
            },
    {
        let mut i: usize = 0;
        while i < self.entries.len()
            invariant
                self.wf(),
                i <= self.entries@.len(),
                forall|j: int| 0 <= j < i ==> self.entries@[j].0@ != name@,
            decreases self.entries@.len() - i,
        {
            if self.entries[i].0 == *name {
                return Some(i);
            }
            i = i + 1;
        }
        None
    }

    /// The id that `name` maps to.
    pub fn get(&self, name: &String) -> (r: Option<u64>)
        requires
            self.wf(),
        ensures
            match r {
                Some(c) => self@.contains_key(name@) && self@[name@] == c,
                None => !self@.contains_key(name@),
            },
    {
        match self.find(name) {
            Some(i) => Some(self.entries[i].1),
            None => None,
        }
    }

    /// Maps `name` to `conn`, replacing what it mapped to before.
    pub fn insert(&mut self, name: String, conn: u64)
        requires
            old(self).wf(),
        ensures
            final(self).wf(),
            final(self)@ == old(self)@.insert(name@, conn),
            old(self)@.contains_key(name@) ==> final(self).names() == old(self).names(),
            !old(self)@.contains_key(name@) ==> final(self).names() == old(self).names().push(
                name@,
            ),
    {
        let ghost key = name@;
        match self.find(&name) {
            Some(i) => {
                self.entries.set(i, (name, conn));
                self.map = Ghost(self.map@.insert(key, conn));
                proof {
                    assert(final(self).names() =~= old(self).names());
                    assert forall|k: Seq<char>| #[trigger]
                        self.map@.contains_key(k) implies exists|j: int|
                        0 <= j < self.entries@.len() && #[trigger] self.entries@[j].0@ == k by {
                        if k != key {
                            let j = choose|j: int|
                                0 <= j < old(self).entries@.len() && #[trigger] old(
                                    self,
                                ).entries@[j].0@ == k;
                            assert(self.entries@[j].0@ == k);
                        } else {
                            assert(self.entries@[i as int].0@ == k);
                        }
                    }
                }
            },
            None => {
                self.entries.push((name, conn));
                self.map = Ghost(self.map@.insert(key, conn));
                proof {
                    let n = old(self).entries@.len() as int;
                    assert(final(self).names() =~= old(self).names().push(key));
                    assert forall|k: Seq<char>| #[trigger]
                        self.map@.contains_key(k) implies exists|j: int|
                        0 <= j < self.entries@.len() && #[trigger] self.entries@[j].0@ == k by {
                        if k != key {
                            let j = choose|j: int|
                                0 <= j < old(self).entries@.len() && #[trigger] old(
                                    self,
                                ).entries@[j].0@ == k;
                            assert(self.entries@[j].0@ == k);
                        } else {
                            assert(self.entries@[n].0@ == k);
                        }
                    }
                    assert forall|a: int, b: int|
                        0 <= a < self.entries@.len() && 0 <= b < self.entries@.len() && a
                            != b implies #[trigger] self.entries@[a].0@
                        != #[trigger] self.entries@[b].0@ by {
                        if a == n {
                            assert(old(self).map@.contains_key(self.entries@[b].0@));
                        } else if b == n {
                            assert(old(self).map@.contains_key(self.entries@[a].0@));
                        }
                    }
                }
            },
        }
    }

    /// Drops every name that maps to `conn`.
    pub fn remove_value(&mut self, conn: u64)
        requires
            old(self).wf(),
        ensures
            final(self).wf(),
            final(self)@ == without_value(old(self)@, conn),
    {
        let mut i: usize = 0;
        while i < self.entries.len()
            invariant
                self.wf(),
                i <= self.entries@.len(),
                forall|j: int| 0 <= j < i ==> self.entries@[j].1 != conn,
                forall|k: Seq<char>| #[trigger]
                    self.map@.contains_key(k) ==> old(self)@.contains_key(k) && self.map@[k] == old(
                        self,
                    )@[k],
                forall|k: Seq<char>| #[trigger]
                    old(self)@.contains_key(k) && old(self)@[k] != conn ==> self.map@.contains_key(k),
            decreases self.entries@.len() - i,
        {
            if self.entries[i].1 == conn {
                let ghost pre = self.entries@;
                let ghost key = pre[i as int].0@;
                self.entries.remove(i);
                self.map = Ghost(self.map@.remove(key));
                proof {
                    assert forall|j: int| 0 <= j < self.entries@.len() implies self.map@.contains_key(
                        #[trigger] self.entries@[j].0@,
                    ) && self.map@[self.entries@[j].0@] == self.entries@[j].1 by {
                        let o = if j < i { j } else { j + 1 };
                        assert(self.entries@[j] == pre[o]);
                    }
                    assert forall|k: Seq<char>| #[trigger]
                        self.map@.contains_key(k) implies exists|j: int|
                        0 <= j < self.entries@.len() && #[trigger] self.entries@[j].0@ == k by {
                        let o = choose|o: int| 0 <= o < pre.len() && #[trigger] pre[o].0@ == k;
                        let j = if o < i { o } else { o - 1 };
                        assert(self.entries@[j] == pre[if j < i { j } else { j + 1 }]);
                    }
                    assert forall|a: int, b: int|
                        0 <= a < self.entries@.len() && 0 <= b < self.entries@.len() && a
                            != b implies #[trigger] self.entries@[a].0@
                        != #[trigger] self.entries@[b].0@ by {
                        let oa = if a < i { a } else { a + 1 };
                        let ob = if b < i { b } else { b + 1 };
                        assert(self.entries@[a] == pre[oa]);
                        assert(self.entries@[b] == pre[ob]);
                    }
                    assert forall|j: int| 0 <= j < i implies self.entries@[j].1 != conn by {
                        assert(self.entries@[j] == pre[j]);
                    }
                }
            } else {
                i = i + 1;
            }
        }
        proof {
            assert forall|k: Seq<char>| #[trigger]
                self.map@.contains_key(k) implies self.map@[k] != conn by {
                let j = choose|j: int|
                    0 <= j < self.entries@.len() && #[trigger] self.entries@[j].0@ == k;
            }
            assert(self.map@ =~= without_value(old(self)@, conn));
        }
    }

    /// The names, in the order in which they were first added.
    pub fn keys(&self) -> (r: Vec<String>)
        requires
            self.wf(),
        ensures
            r@.map_values(|s: String| s@) == self.names(),
    {
        let mut out: Vec<String> = Vec::new();
        let mut i: usize = 0;
        while i < self.entries.len()
            invariant
                i <= self.entries@.len(),
                out@.len() == i,
                forall|j: int| 0 <= j < i ==> (#[trigger] out@[j])@ == self.entries@[j].0@,
            decreases self.entries@.len() - i,
        {
            let name = self.entries[i].0.clone();
            out.push(name);
            i = i + 1;
        }
        assert(out@.map_values(|s: String| s@) =~= self.names());
        out
    }
}

/// A set of (event name, connection id) pairs.
pub struct PairSet {
    entries: Vec<(String, u64)>,
    set: Ghost<Set<(Seq<char>, u64)>>,
}

impl View for PairSet {
    type V = Set<(Seq<char>, u64)>;

    closed spec fn view(&self) -> Set<(Seq<char>, u64)> {
        self.set@
    }
}

impl PairSet {
    closed spec fn pair_at(&self, i: int) -> (Seq<char>, u64) {
        (self.entries@[i].0@, self.entries@[i].1)
    }

    pub closed spec fn wf(&self) -> bool {
        &&& forall|i: int|
            0 <= i < self.entries@.len() ==> self.set@.contains(#[trigger] self.pair_at(i))
        &&& forall|p: (Seq<char>, u64)| #[trigger]
            self.set@.contains(p) ==> exists|i: int|
                0 <= i < self.entries@.len() && #[trigger] self.pair_at(i) == p
        &&& forall|i: int, j: int|
            0 <= i < self.entries@.len() && 0 <= j < self.entries@.len() && i != j
                ==> #[trigger] self.pair_at(i) != #[trigger] self.pair_at(j)
    }

    pub fn new() -> (r: PairSet)
        ensures
            r.wf(),
            r@ == Set::<(Seq<char>, u64)>::empty(),
    {
        PairSet { entries: Vec::new(), set: Ghost(Set::empty()) }
    }

    /// Adds the pair (`name`, `conn`); adding it again changes nothing.
    pub fn insert(&mut self, name: String, conn: u64)
        requires
            old(self).wf(),
        ensures
            final(self).wf(),
            final(self)@ == old(self)@.insert((name@, conn)),
    {
        let ghost key = (name@, conn);
        let mut i: usize = 0;
        while i < self.entries.len()
            invariant
                self.wf(),
                self.set@ == old(self).set@,
                self.entries@ == old(self).entries@,
                key == (name@, conn),
                i <= self.entries@.len(),
                forall|j: int| 0 <= j < i ==> self.pair_at(j) != key,
            decreases self.entries@.len() - i,
        {
            if self.entries[i].1 == conn && self.entries[i].0 == name {
                assert(self.pair_at(i as int) == key);
                assert(self.set@.insert(key) =~= self.set@);
                return;
            }
            i = i + 1;
        }
        assert(!self.set@.contains(key));
        let n = self.entries.len();
        self.entries.push((name, conn));
        self.set = Ghost(self.set@.insert(key));
        proof {
            assert forall|j: int| 0 <= j < n implies self.pair_at(j) == old(self).pair_at(j) by {}
            assert(self.pair_at(n as int) == key);
            assert forall|p: (Seq<char>, u64)| #[trigger]
                self.set@.contains(p) implies exists|j: int|
                0 <= j < self.entries@.len() && #[trigger] self.pair_at(j) == p by {
                if p != key {
                    let j = choose|j: int|
                        0 <= j < old(self).entries@.len() && #[trigger] old(self).pair_at(j) == p;
                    assert(self.pair_at(j) == p);
                }
            }
            assert forall|a: int, b: int|
                0 <= a < self.entries@.len() && 0 <= b < self.entries@.len() && a
                    != b implies #[trigger] self.pair_at(a) != #[trigger] self.pair_at(b) by {
                if a == n {
                    assert(old(self).set@.contains(self.pair_at(b)));
                } else if b == n {
                    assert(old(self).set@.contains(self.pair_at(a)));
                } else {
                    assert(self.pair_at(a) == old(self).pair_at(a));
                    assert(self.pair_at(b) == old(self).pair_at(b));
                }
            }
        }
    }

    /// Drops every pair whose connection is `conn`.
    pub fn remove_conn(&mut self, conn: u64)
        requires
            old(self).wf(),
        ensures
            final(self).wf(),
            final(self)@ == without_member(old(self)@, conn),
    {
        let mut i: usize = 0;
        while i < self.entries.len()
            invariant
                self.wf(),
                i <= self.entries@.len(),
                forall|j: int| 0 <= j < i ==> self.entries@[j].1 != conn,
                forall|p: (Seq<char>, u64)| #[trigger]
                    self.set@.contains(p) ==> old(self)@.contains(p),
                forall|p: (Seq<char>, u64)| #[trigger]
                    old(self)@.contains(p) && p.1 != conn ==> self.set@.contains(p),
            decreases self.entries@.len() - i,
        {
            if self.entries[i].1 == conn {
                let ghost pre = self.entries@;
                let ghost pre_set = self.set@;
                let ghost key = self.pair_at(i as int);
                assert forall|j: int| 0 <= j < pre.len() implies pre_set.contains(
                    (#[trigger] pre[j].0@, pre[j].1),
                ) by {
                    assert(self.pair_at(j) == (pre[j].0@, pre[j].1));
                }
                assert forall|a: int, b: int|
                    0 <= a < pre.len() && 0 <= b < pre.len() && a != b implies (
                    #[trigger] pre[a].0@,
                    pre[a].1,
                ) != (#[trigger] pre[b].0@, pre[b].1) by {
                    assert(self.pair_at(a) == (pre[a].0@, pre[a].1));
                    assert(self.pair_at(b) == (pre[b].0@, pre[b].1));
                }
                self.entries.remove(i);
                self.set = Ghost(self.set@.remove(key));
                proof {
                    assert forall|j: int| 0 <= j < self.entries@.len() implies #[trigger] self.pair_at(j)
                        == (pre[if j < i { j } else { j + 1 }].0@, pre[if j < i { j } else { j + 1 }].1) by {
                        assert(self.entries@[j] == pre[if j < i { j } else { j + 1 }]);
                    }
                    assert forall|j: int| 0 <= j < self.entries@.len() implies self.set@.contains(
                        #[trigger] self.pair_at(j),
                    ) by {
                        let o = if j < i { j } else { j + 1 };
                        assert(self.pair_at(j) == (pre[o].0@, pre[o].1));
                        assert(pre_set.contains((pre[o].0@, pre[o].1)));
                        assert((pre[o].0@, pre[o].1) != key);
                    }
                    assert forall|p: (Seq<char>, u64)| #[trigger]
                        self.set@.contains(p) implies exists|j: int|
                        0 <= j < self.entries@.len() && #[trigger] self.pair_at(j) == p by {
                        let o = choose|o: int| 0 <= o < pre.len() && (pre[o].0@, pre[o].1) == p;
                        assert(o != i);
                        let j = if o < i { o } else { o - 1 };
                        assert(self.pair_at(j) == p);
                    }
                    assert forall|a: int, b: int|
                        0 <= a < self.entries@.len() && 0 <= b < self.entries@.len() && a
                            != b implies #[trigger] self.pair_at(a) != #[trigger] self.pair_at(b) by {
                        let oa = if a < i { a } else { a + 1 };
                        let ob = if b < i { b } else { b + 1 };
                        assert(self.pair_at(a) == (pre[oa].0@, pre[oa].1));
                        assert(self.pair_at(b) == (pre[ob].0@, pre[ob].1));
                    }
                    assert forall|j: int| 0 <= j < i implies self.entries@[j].1 != conn by {
                        assert(self.entries@[j] == pre[j]);
                    }
                }
            } else {
                i = i + 1;
            }
        }
        proof {
            assert forall|p: (Seq<char>, u64)| #[trigger] self.set@.contains(p) implies p.1 != conn by {
                let j = choose|j: int| 0 <= j < self.entries@.len() && #[trigger] self.pair_at(j) == p;
            }
            assert(self.set@ =~= without_member(old(self)@, conn));
        }
    }

    /// The connections paired with `name`, each once.
    pub fn members(&self, name: &String) -> (r: Vec<u64>)
        requires
            self.wf(),
        ensures
            r@.no_duplicates(),
            forall|c: u64| #[trigger] r@.contains(c) <==> self@.contains((name@, c)),
    {
        let mut out: Vec<u64> = Vec::new();
        let mut i: usize = 0;
        while i < self.entries.len()
            invariant
                self.wf(),
                i <= self.entries@.len(),
                out@.no_duplicates(),
                forall|c: u64| #[trigger]
                    out@.contains(c) <==> exists|j: int|
                        0 <= j < i && #[trigger] self.pair_at(j) == (name@, c),
            decreases self.entries@.len() - i,
        {
            if self.entries[i].0 == *name {
                let c = self.entries[i].1;
                assert(self.pair_at(i as int) == (name@, c));
                assert(!out@.contains(c)) by {
                    if out@.contains(c) {
                        let j = choose|j: int| 0 <= j < i && #[trigger] self.pair_at(j) == (name@, c);
                        assert(self.pair_at(j) == self.pair_at(i as int));
                    }
                }
                let ghost before = out@;
                out.push(c);
                proof {
                    assert forall|a: int, b: int|
                        0 <= a < out@.len() && 0 <= b < out@.len() && a != b implies out@[a]
                        != out@[b] by {
                        if a == before.len() {
                            assert(out@[b] == before[b]);
                            assert(before.contains(before[b]));
                        } else if b == before.len() {
                            assert(out@[a] == before[a]);
                        }
                    }
                    assert forall|x: u64| #[trigger]
                        out@.contains(x) <==> exists|j: int|
                            0 <= j < i + 1 && #[trigger] self.pair_at(j) == (name@, x) by {
                        if out@.contains(x) {
                            let k = choose|k: int| 0 <= k < out@.len() && out@[k] == x;
                            if k < before.len() {
                                assert(before[k] == x);
                                assert(before.contains(x));
                            } else {
                                assert(self.pair_at(i as int) == (name@, x));
                            }
                        }
                        if exists|j: int| 0 <= j < i + 1 && #[trigger] self.pair_at(j) == (name@, x) {
                            let j = choose|j: int| 0 <= j < i + 1 && #[trigger] self.pair_at(j) == (name@, x);
                            if j < i {
                                assert(before.contains(x));
                                let k = choose|k: int| 0 <= k < before.len() && before[k] == x;
                                assert(out@[k] == x);
                            } else {
                                assert(out@[before.len() as int] == x);
                            }
                        }
                    }
                }
            } else {
                proof {
                    assert forall|x: u64| #[trigger]
                        out@.contains(x) <==> exists|j: int|
                            0 <= j < i + 1 && #[trigger] self.pair_at(j) == (name@, x) by {
                        if exists|j: int| 0 <= j < i + 1 && #[trigger] self.pair_at(j) == (name@, x) {
                            let j = choose|j: int| 0 <= j < i + 1 && #[trigger] self.pair_at(j) == (name@, x);
                            assert(j != i);
                        }
                    }
                }
            }
            i = i + 1;
        }
        proof {
            assert forall|c: u64| #[trigger] out@.contains(c) <==> self@.contains((name@, c)) by {
                if self@.contains((name@, c)) {
                    let j = choose|j: int| 0 <= j < self.entries@.len() && #[trigger] self.pair_at(j) == (name@, c);
                }
            }
        }
        out
    }
}

/// `m` without the entries whose caller or owner is `c`.
pub open spec fn without_conn(m: Map<u64, (u64, u64)>, c: u64) -> Map<u64, (u64, u64)> {
    Map::new(|k: u64| m.contains_key(k) && m[k].0 != c && m[k].1 != c, |k: u64| m[k])
}

/// A map from request ids to the (caller, owner) connections of the request.
pub struct IdTable {
    entries: Vec<(u64, u64, u64)>,
    map: Ghost<Map<u64, (u64, u64)>>,
}

impl View for IdTable {
    type V = Map<u64, (u64, u64)>;

    closed spec fn view(&self) -> Map<u64, (u64, u64)> {
        self.map@
    }
}

impl IdTable {
    pub closed spec fn wf(&self) -> bool {
        &&& forall|i: int|
            0 <= i < self.entries@.len() ==> self.map@.contains_key(#[trigger] self.entries@[i].0)
                && self.map@[self.entries@[i].0] == (self.entries@[i].1, self.entries@[i].2)
        &&& forall|k: u64| #[trigger]
            self.map@.contains_key(k) ==> exists|i: int|
                0 <= i < self.entries@.len() && #[trigger] self.entries@[i].0 == k
        &&& forall|i: int, j: int|
            0 <= i < self.entries@.len() && 0 <= j < self.entries@.len() && i != j
                ==> #[trigger] self.entries@[i].0 != #[trigger] self.entries@[j].0
    }

    pub fn new() -> (r: IdTable)
        ensures
            r.wf(),
            r@ == Map::<u64, (u64, u64)>::empty(),
    {
        IdTable { entries: Vec::new(), map: Ghost(Map::empty()) }
    }

    fn find(&self, id: u64) -> (r: Option<usize>)
        requires
            self.wf(),
        ensures
            match r {
                Some(i) => i < self.entries@.len() && self.entries@[i as int].0 == id,
                None => !self@.contains_key(id),
            },
    {
        let mut i: usize = 0;
        while i < self.entries.len()
            invariant
                self.wf(),
                i <= self.entries@.len(),
                forall|j: int| 0 <= j < i ==> self.entries@[j].0 != id,
            decreases self.entries@.len() - i,
        {
            if self.entries[i].0 == id {
                return Some(i);
            }
            i = i + 1;
        }
        None
    }

    /// The (caller, owner) pair recorded for `id`.
    pub fn get(&self, id: u64) -> (r: Option<(u64, u64)>)
        requires
            self.wf(),
        ensures
            match r {
                Some(v) => self@.contains_key(id) && self@[id] == v,
                None => !self@.contains_key(id),
            },
    {
        match self.find(id) {
            Some(i) => Some((self.entries[i].1, self.entries[i].2)),
            None => None,
        }
    }

    /// Records (`caller`, `owner`) for `id`, replacing what was recorded.
    pub fn insert(&mut self, id: u64, caller: u64, owner: u64)
        requires
            old(self).wf(),
        ensures
            final(self).wf(),
            final(self)@ == old(self)@.insert(id, (caller, owner)),
    {
        match self.find(id) {
            Some(i) => {
                self.entries.set(i, (id, caller, owner));
                self.map = Ghost(self.map@.insert(id, (caller, owner)));
                proof {
                    assert forall|k: u64| #[trigger]
                        self.map@.contains_key(k) implies exists|j: int|
                        0 <= j < self.entries@.len() && #[trigger] self.entries@[j].0 == k by {
                        if k != id {
                            let j = choose|j: int|
                                0 <= j < old(self).entries@.len() && #[trigger] old(
                                    self,
                                ).entries@[j].0 == k;
                            assert(self.entries@[j].0 == k);
                        } else {
                            assert(self.entries@[i as int].0 == k);
                        }
                    }
                }
            },
            None => {
                self.entries.push((id, caller, owner));
                self.map = Ghost(self.map@.insert(id, (caller, owner)));
                proof {
                    let n = old(self).entries@.len() as int;
                    assert forall|k: u64| #[trigger]
                        self.map@.contains_key(k) implies exists|j: int|
                        0 <= j < self.entries@.len() && #[trigger] self.entries@[j].0 == k by {
                        if k != id {
                            let j = choose|j: int|
                                0 <= j < old(self).entries@.len() && #[trigger] old(
                                    self,
                                ).entries@[j].0 == k;
                            assert(self.entries@[j].0 == k);
                        } else {
                            assert(self.entries@[n].0 == k);
                        }
                    }
                    assert forall|a: int, b: int|
                        0 <= a < self.entries@.len() && 0 <= b < self.entries@.len() && a
                            != b implies #[trigger] self.entries@[a].0
                        != #[trigger] self.entries@[b].0 by {
                        if a == n {
                            assert(old(self).map@.contains_key(self.entries@[b].0));
                        } else if b == n {
                            assert(old(self).map@.contains_key(self.entries@[a].0));
                        }
                    }
                }
            },
        }
    }

    /// Forgets `id`.
    pub fn remove(&mut self, id: u64)
        requires
            old(self).wf(),
        ensures
            final(self).wf(),
            final(self)@ == old(self)@.remove(id),
    {
        match self.find(id) {
            None => {
                assert(self.map@.remove(id) =~= self.map@);
            },
            Some(i) => {
                let ghost pre = self.entries@;
                self.entries.remove(i);
                self.map = Ghost(self.map@.remove(id));
                proof {
                    assert forall|j: int| 0 <= j < self.entries@.len() implies self.map@.contains_key(
                        #[trigger] self.entries@[j].0,
                    ) && self.map@[self.entries@[j].0] == (self.entries@[j].1, self.entries@[j].2) by {
                        let o = if j < i { j } else { j + 1 };
                        assert(self.entries@[j] == pre[o]);
                    }
                    assert forall|k: u64| #[trigger]
                        self.map@.contains_key(k) implies exists|j: int|
                        0 <= j < self.entries@.len() && #[trigger] self.entries@[j].0 == k by {
                        let o = choose|o: int| 0 <= o < pre.len() && #[trigger] pre[o].0 == k;
                        let j = if o < i { o } else { o - 1 };
                        assert(self.entries@[j] == pre[if j < i { j } else { j + 1 }]);
                    }
                    assert forall|a: int, b: int|
                        0 <= a < self.entries@.len() && 0 <= b < self.entries@.len() && a
                            != b implies #[trigger] self.entries@[a].0
                        != #[trigger] self.entries@[b].0 by {
                        let oa = if a < i { a } else { a + 1 };
                        let ob = if b < i { b } else { b + 1 };
                        assert(self.entries@[a] == pre[oa]);
                        assert(self.entries@[b] == pre[ob]);
                    }
                }
            },
        }
    }

    /// Forgets every id whose caller or owner is `conn`.
    pub fn remove_conn(&mut self, conn: u64)
        requires
            old(self).wf(),
        ensures
            final(self).wf(),
            final(self)@ == without_conn(old(self)@, conn),
    {
        let mut i: usize = 0;
        while i < self.entries.len()
            invariant
                self.wf(),
                i <= self.entries@.len(),
                forall|j: int|
                    0 <= j < i ==> self.entries@[j].1 != conn && self.entries@[j].2 != conn,
                forall|k: u64| #[trigger]
                    self.map@.contains_key(k) ==> old(self)@.contains_key(k) && self.map@[k] == old(
                        self,
                    )@[k],
                forall|k: u64| #[trigger]
                    old(self)@.contains_key(k) && old(self)@[k].0 != conn && old(self)@[k].1 != conn
                        ==> self.map@.contains_key(k),
            decreases self.entries@.len() - i,
        {
            if self.entries[i].1 == conn || self.entries[i].2 == conn {
                let ghost pre = self.entries@;
                let ghost key = pre[i as int].0;
                self.entries.remove(i);
                self.map = Ghost(self.map@.remove(key));
                proof {
                    assert forall|j: int| 0 <= j < self.entries@.len() implies self.map@.contains_key(
                        #[trigger] self.entries@[j].0,
                    ) && self.map@[self.entries@[j].0] == (self.entries@[j].1, self.entries@[j].2) by {
                        let o = if j < i { j } else { j + 1 };
                        assert(self.entries@[j] == pre[o]);
                    }
                    assert forall|k: u64| #[trigger]
                        self.map@.contains_key(k) implies exists|j: int|
                        0 <= j < self.entries@.len() && #[trigger] self.entries@[j].0 == k by {
                        let o = choose|o: int| 0 <= o < pre.len() && #[trigger] pre[o].0 == k;
                        let j = if o < i { o } else { o - 1 };
                        assert(self.entries@[j] == pre[if j < i { j } else { j + 1 }]);
                    }
                    assert forall|a: int, b: int|
                        0 <= a < self.entries@.len() && 0 <= b < self.entries@.len() && a
                            != b implies #[trigger] self.entries@[a].0
                        != #[trigger] self.entries@[b].0 by {
                        let oa = if a < i { a } else { a + 1 };
                        let ob = if b < i { b } else { b + 1 };
                        assert(self.entries@[a] == pre[oa]);
                        assert(self.entries@[b] == pre[ob]);
                    }
                    assert forall|j: int| 0 <= j < i implies self.entries@[j].1 != conn
                        && self.entries@[j].2 != conn by {
                        assert(self.entries@[j] == pre[j]);
                    }
                }
            } else {
                i = i + 1;
            }
        }
        proof {
            assert forall|k: u64| #[trigger]
                self.map@.contains_key(k) implies self.map@[k].0 != conn && self.map@[k].1 != conn by {
                let j = choose|j: int| 0 <= j < self.entries@.len() && #[trigger] self.entries@[j].0 == k;
            }
            assert(self.map@ =~= without_conn(old(self)@, conn));
        }
    }
}

} // verus!
