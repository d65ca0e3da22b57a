//! A map from names to values that is walked in the order of the names.

use vstd::prelude::*;
use vstd::string::*;
use vstd::utf8::*;


verus! {

/// Byte-wise lexicographic order.
pub open spec fn before(a: Seq<u8>, b: Seq<u8>) -> bool
    decreases a.len(),
{
    if b.len() == 0 {
        false
    } else if a.len() == 0 {
        true
    } else if a[0] != b[0] {
        a[0] < b[0]
    } else {
        before(a.subrange(1, a.len() as int), b.subrange(1, b.len() as int))
    }
}

/// The order of two names.
pub open spec fn name_before(a: Seq<char>, b: Seq<char>) -> bool {
    before(encode_utf8(a), encode_utf8(b))
}

pub proof fn lemma_before_transitive(a: Seq<u8>, b: Seq<u8>, c: Seq<u8>)
    requires
        before(a, b),
        before(b, c),
    ensures
        before(a, c),
    decreases a.len(),
{
    if a.len() > 0 && b.len() > 0 && c.len() > 0 && a[0] == b[0] && b[0] == c[0] {
        lemma_before_transitive(
            a.subrange(1, a.len() as int),
            b.subrange(1, b.len() as int),
            c.subrange(1, c.len() as int),
        );
    }
}

pub proof fn lemma_before_total(a: Seq<u8>, b: Seq<u8>)
    ensures
        before(a, b) || before(b, a) || a == b,
        !(before(a, b) && before(b, a)),
        before(a, b) ==> a != b,
    decreases a.len(),
{
    if a.len() > 0 && b.len() > 0 && a[0] == b[0] {
        let x = a.subrange(1, a.len() as int);
        let y = b.subrange(1, b.len() as int);
        lemma_before_total(x, y);
        if x == y {
            assert(a =~= seq![a[0]] + x);
            assert(b =~= seq![b[0]] + y);
        }
    } else if a.len() == 0 && b.len() == 0 {
        assert(a =~= b);
    }
}

fn is_before(a: &[u8], b: &[u8]) -> (r: bool)
    ensures
        r == before(a@, b@),
{
    let mut i: usize = 0;
    assert(a@.subrange(0, a@.len() as int) =~= a@);
    assert(b@.subrange(0, b@.len() as int) =~= b@);
    while i < a.len() && i < b.len()
        invariant
            i <= a@.len(),
            i <= b@.len(),
            before(a@, b@) == before(
                a@.subrange(i as int, a@.len() as int),
                b@.subrange(i as int, b@.len() as int),
            ),
        decreases a@.len() - i,
    {
        let ghost x = a@.subrange(i as int, a@.len() as int);
        let ghost y = b@.subrange(i as int, b@.len() as int);
        assert(x[0] == a@[i as int] && y[0] == b@[i as int]);
        if a[i] != b[i] {
            return a[i] < b[i];
        }
        assert(x.subrange(1, x.len() as int) =~= a@.subrange(i + 1, a@.len() as int));
        assert(y.subrange(1, y.len() as int) =~= b@.subrange(i + 1, b@.len() as int));
        i += 1;
    }
    i < b.len()
}

/// Two names with the same bytes are the same name.
pub proof fn lemma_encode_injective(a: Seq<char>, b: Seq<char>)
    requires
        encode_utf8(a) == encode_utf8(b),
    ensures
        a == b,
{
    encode_utf8_decode_utf8(a);
    encode_utf8_decode_utf8(b);
}

/// Names and values; the names ascend, so none occurs twice.
#[derive(Debug)]
pub struct Table<T> {
    entries: Vec<(String, T)>,
}

impl<T> Table<T> {
    /// The entries in the order of their names.
    pub closed spec fn entries(self) -> Seq<(String, T)> {
        self.entries@
    }

    /// The `i`-th name.
    pub open spec fn key(self, i: int) -> Seq<char> {
        self.entries()[i].0@
    }

    pub open spec fn val(self, i: int) -> T {
        self.entries()[i].1
    }

    /// Whether a name occurs.
    pub open spec fn has(self, name: Seq<char>) -> bool {
        exists|i: int| 0 <= i < self.entries().len() && #[trigger] self.key(i) == name
    }

    /// The value of a name that occurs.
    pub open spec fn at(self, name: Seq<char>) -> T {
        let i = choose|i: int| 0 <= i < self.entries().len() && #[trigger] self.key(i) == name;
        self.val(i)
    }

    /// Two tables hold the same under a name: the same value, or nothing.
    pub open spec fn agrees(self, other: Self, name: Seq<char>) -> bool {
        self.has(name) == other.has(name) && (self.has(name) ==> self.at(name) == other.at(name))
    }

    /// The table as a mathematical map.
    pub open spec fn map(self) -> Map<Seq<char>, T> {
        Map::new(|k: Seq<char>| self.has(k), |k: Seq<char>| self.at(k))
    }

    /// The names in order.
    pub open spec fn keys(self) -> Seq<Seq<char>> {
        self.entries().map_values(|e: (String, T)| e.0@)
    }

    #[verifier::type_invariant]
    spec fn wf(self) -> bool {
        sorted(self.entries@)
    }

    pub fn new() -> (r: Self)
        ensures
            r.entries() == Seq::<(String, T)>::empty(),
    {
        Table { entries: Vec::new() }
    }

    pub fn len(&self) -> (r: usize)
        ensures
            r == self.entries().len(),
    {
        self.entries.len()
    }

    pub fn is_empty(&self) -> (r: bool)
        ensures
            r == (self.entries().len() == 0),
    {
        self.entries.len() == 0
    }

    pub fn name(&self, i: usize) -> (r: &String)
        requires
            i < self.entries().len(),
        ensures
            *r == self.entries()[i as int].0,
    {
        &self.entries[i].0
    }

    pub fn value(&self, i: usize) -> (r: &T)
        requires
            i < self.entries().len(),
        ensures
            *r == self.entries()[i as int].1,
    {
        &self.entries[i].1
    }

    /// Exchange the value of the `i`-th name.
    pub fn swap_value(&mut self, i: usize, v: &mut T)
        requires
            i < old(self).entries().len(),
        ensures
            final(self).entries() == old(self).entries().update(
                i as int,
                (old(self).entries()[i as int].0, *old(v)),
            ),
            *final(v) == old(self).entries()[i as int].1,
            final(self).map() == old(self).map().insert(old(self).key(i as int), *old(v)),
    {
        proof {
            use_type_invariant(&*self);
        }
        let mut e: Vec<(String, T)> = Vec::new();
        std::mem::swap(&mut e, &mut self.entries);
        let ghost was = e@;
        let (name, mut value) = e.remove(i);
        std::mem::swap(&mut value, v);
        e.insert(i, (name, value));
        assert(e@ =~= was.update(i as int, (was[i as int].0, *old(v))));
        proof {
            lemma_sorted_names(was, e@);
        }
        self.entries = e;
        proof {
            let given = old(self).key(i as int);
            assert(self.key(i as int) == given);
            self.lemma_unique(i as int);
            old(self).lemma_other_names(*self, i as int, true);
            assert forall|k: Seq<char>| k != given implies #[trigger] self.has(k) == old(self).has(k)
                && (self.has(k) ==> self.at(k) == old(self).at(k)) by {
                assert(self.agrees(*old(self), k));
            }
            assert(self.map() =~= old(self).map().insert(given, *old(v)));
        }
    }

    /// Where a name stands, or where it would.
    fn find(&self, name: &str) -> (r: Result<usize, usize>)
        ensures
            match r {
                Ok(i) => i < self.entries().len() && self.key(i as int) == name@,
                Err(i) => {
                    &&& i <= self.entries().len()
                    &&& !self.has(name@)
                    &&& forall|j: int| 0 <= j < i ==> name_before(#[trigger] self.key(j), name@)
                    &&& forall|j: int|
                        i <= j < self.entries().len() ==> name_before(
                            name@,
                            #[trigger] self.key(j),
                        )
                },
            },
    {
        proof {
            use_type_invariant(self);
        }
        let mut i: usize = 0;
        while i < self.entries.len()
            invariant
                i <= self.entries@.len(),
                sorted(self.entries@),
                forall|j: int| 0 <= j < i ==> name_before(#[trigger] self.key(j), name@),
            decreases self.entries@.len() - i,
        {
            let k = self.entries[i].0.as_str();
            if is_before(k.as_bytes(), name.as_bytes()) {
                i += 1;
            } else if is_before(name.as_bytes(), k.as_bytes()) {
                proof {
                    assert forall|j: int| i <= j < self.entries@.len() implies name_before(
                        name@,
                        #[trigger] self.key(j),
                    ) by {
                        if j > i {
                            lemma_before_transitive(
                                encode_utf8(name@),
                                encode_utf8(self.key(i as int)),
                                encode_utf8(self.key(j)),
                            );
                        }
                    }
                    self.lemma_absent(name@, i as int);
                }
                return Err(i);
            } else {
                proof {
                    lemma_before_total(encode_utf8(k@), encode_utf8(name@));
                    lemma_encode_injective(k@, name@);
                }
                return Ok(i);
            }
        }
        proof {
            self.lemma_absent(name@, i as int);
        }
        Err(i)
    }

    proof fn lemma_absent(self, name: Seq<char>, i: int)
        requires
            forall|j: int| 0 <= j < i ==> name_before(#[trigger] self.key(j), name),
            forall|j: int|
                i <= j < self.entries().len() ==> name_before(name, #[trigger] self.key(j)),
        ensures
            !self.has(name),
    {
        assert forall|j: int| 0 <= j < self.entries().len() implies #[trigger] self.key(j)
            != name by {
            lemma_before_total(encode_utf8(self.key(j)), encode_utf8(name));
        }
    }

    proof fn lemma_unique(self, i: int)
        requires
            sorted(self.entries()),
            0 <= i < self.entries().len(),
        ensures
            forall|j: int|
                0 <= j < self.entries().len() && #[trigger] self.key(j) == self.key(i) ==> j == i,
            self.has(self.key(i)),
            self.at(self.key(i)) == self.val(i),
    {
        assert forall|j: int|
            0 <= j < self.entries().len() && #[trigger] self.key(j) == self.key(i) implies j
            == i by {
            lemma_before_total(encode_utf8(self.key(i)), encode_utf8(self.key(j)));
            if i < j {
                assert(name_before(self.entries()[i].0@, self.entries()[j].0@));
            }
            if j < i {
                assert(name_before(self.entries()[j].0@, self.entries()[i].0@));
            }
        }
    }

    /// A name occurs exactly when it is one of the names.
    pub proof fn lemma_keys(self)
        ensures
            forall|k: Seq<char>| #[trigger] self.has(k) <==> self.keys().contains(k),
            self.keys().to_set() == self.map().dom(),
            forall|i: int|
                0 <= i < self.entries().len() ==> #[trigger] self.keys()[i] == self.key(i),
    {
        assert forall|k: Seq<char>| #[trigger] self.has(k) <==> self.keys().contains(k) by {
            if self.has(k) {
                let j = choose|j: int| 0 <= j < self.entries().len() && #[trigger] self.key(j) == k;
                assert(self.keys()[j] == k);
            }
            if self.keys().contains(k) {
                let j = choose|j: int| 0 <= j < self.keys().len() && self.keys()[j] == k;
                assert(self.key(j) == k);
            }
        }
        assert(self.keys().to_set() =~= self.map().dom());
    }

    /// Every table holds its names in ascending order; calling this says so.
    pub fn ordered(&self)
        ensures
            ascending(self.keys()),
    {
        proof {
            use_type_invariant(self);
            let all = self.keys();
            assert forall|x: int, y: int| 0 <= x < y < all.len() implies name_before(
                #[trigger] all[x],
                #[trigger] all[y],
            ) by {
                assert(name_before(self.entries@[x].0@, self.entries@[y].0@));
            }
        }
    }

    /// Where a name stands.
    pub fn position(&self, name: &str) -> (r: Option<usize>)
        ensures
            match r {
                Some(i) => {
                    &&& i < self.entries().len()
                    &&& self.key(i as int) == name@
                    &&& forall|j: int|
                        0 <= j < self.entries().len() && #[trigger] self.key(j) == name@ ==> j == i
                },
                None => !self.has(name@),
            },
    {
        match self.find(name) {
            Ok(i) => {
                proof {
                    use_type_invariant(self);
                    self.lemma_unique(i as int);
                }
                Some(i)
            },
            Err(_) => None,
        }
    }

    pub fn contains(&self, name: &str) -> (r: bool)
        ensures
            r == self.has(name@),
    {
        match self.find(name) {
            Ok(_) => true,
            Err(_) => false,
        }
    }

    /// The entries themselves, in order.
    pub fn into_entries(self) -> (r: Vec<(String, T)>)
        ensures
            r@ == self.entries(),
            self.map() == map_of(r@),
    {
        proof {
            use_type_invariant(&self);
            lemma_map_of(self.entries@);
            assert forall|k: Seq<char>| #[trigger] self.has(k) implies self.at(k) == map_of(
                self.entries@,
            )[k] by {
                let i = choose|i: int| 0 <= i < self.entries().len() && #[trigger] self.key(i) == k;
                self.lemma_unique(i);
                assert(self.entries@[i].0@ == k);
            }
            assert forall|k: Seq<char>| map_of(self.entries@).dom().contains(k) implies #[trigger]
                self.has(k) by {
                let i = choose|i: int|
                    0 <= i < self.entries@.len() && (#[trigger] self.entries@[i]).0@ == k;
                assert(self.key(i) == k);
            }
            assert forall|k: Seq<char>| #[trigger] self.has(k) implies map_of(
                self.entries@,
            ).dom().contains(k) by {
                let i = choose|i: int| 0 <= i < self.entries().len() && #[trigger] self.key(i) == k;
                assert(self.entries@[i].0@ == k);
            }
            assert(self.map() =~= map_of(self.entries@));
        }
        self.entries
    }

    pub fn get(&self, name: &str) -> (r: Option<&T>)
        ensures
            match r {
                Some(v) => self.has(name@) && *v == self.at(name@),
                None => !self.has(name@),
            },
    {
        match self.find(name) {
            Ok(i) => {
                proof {
                    use_type_invariant(self);
                    self.lemma_unique(i as int);
                }
                Some(&self.entries[i].1)
            },
            Err(_) => None,
        }
    }

    /// Give a name a value, in place of the one it had if it had one.
    pub fn insert(&mut self, name: String, value: T)
        ensures
            final(self).map() == old(self).map().insert(name@, value),
    {
        proof {
            use_type_invariant(&*self);
        }
        let at = self.find(name.as_str());
        let ghost was = self.entries@;
        let ghost given = name@;
        let mut e: Vec<(String, T)> = Vec::new();
        std::mem::swap(&mut e, &mut self.entries);
        match at {
            Ok(i) => {
                let (kept, _) = e.remove(i);
                e.insert(i, (kept, value));
                assert(e@ =~= was.update(i as int, (was[i as int].0, value)));
                proof {
                    lemma_sorted_names(was, e@);
                    assert(old(self).key(i as int) == given);
                }
            },
            Err(i) => {
                let ghost entry = (name, value);
                e.insert(i, (name, value));
                proof {
                    assert(e@ =~= was.insert(i as int, entry));
                    old(self).lemma_sorted_insert(i as int, entry);
                }
            },
        }
        self.entries = e;
        proof {
            let i = match at {
                Ok(i) => i as int,
                Err(i) => i as int,
            };
            assert(self.key(i) == given);
            self.lemma_unique(i);
            old(self).lemma_other_names(*self, i, at is Ok);
            assert forall|k: Seq<char>| k != given implies #[trigger] self.has(k) == old(self).has(k)
                && (self.has(k) ==> self.at(k) == old(self).at(k)) by {
                assert(self.agrees(*old(self), k));
            }
            assert(self.map() =~= old(self).map().insert(given, value));
        }
    }

    /// The same names with other values, in the same order.
    pub fn with_values<U>(&self, values: Vec<U>) -> (r: Table<U>)
        requires
            values@.len() == self.entries().len(),
        ensures
            r.entries().len() == self.entries().len(),
            forall|i: int|
                0 <= i < self.entries().len() ==> #[trigger] r.entries()[i] == (
                    self.entries()[i].0,
                    values@[i],
                ),
    {
        proof {
            use_type_invariant(self);
        }
        let ghost all = values@;
        let mut rest = values;
        let mut out: Vec<(String, U)> = Vec::new();
        let mut i: usize = 0;
        assert(all.skip(0) =~= all);
        while i < self.entries.len()
            invariant
                i <= self.entries@.len(),
                all.len() == self.entries@.len(),
                rest@ == all.skip(i as int),
                out@.len() == i,
                forall|j: int|
                    0 <= j < i ==> #[trigger] out@[j] == (self.entries@[j].0, all[j]),
            decreases self.entries@.len() - i,
        {
            let v = rest.remove(0);
            assert(v == all[i as int]);
            assert(rest@ =~= all.skip(i + 1));
            out.push((self.entries[i].0.clone(), v));
            i += 1;
        }
        proof {
            assert forall|a: int, b: int| 0 <= a < b < out@.len() implies name_before(
                (#[trigger] out@[a]).0@,
                (#[trigger] out@[b]).0@,
            ) by {
                assert(name_before(self.entries@[a].0@, self.entries@[b].0@));
            }
        }
        Table { entries: out }
    }

    /// The names for a message: in order, with commas between them.
    pub fn available(&self) -> (r: String)
        ensures
            lists(r@, self.map().dom()),
    {
        proof {
            use_type_invariant(self);
        }
        self.ordered();
        if self.entries.len() == 0 {
            assert(self.map().dom() =~= Set::<Seq<char>>::empty());
            return "(none)".to_owned();
        }
        let ghost all = self.keys();
        let mut out: String = self.entries[0].0.clone();
        let mut i: usize = 1;
        assert(all.take(1) =~= seq![all[0]]);
        proof {
            reveal_with_fuel(comma_list, 2);
            assert(all.take(1).drop_last().len() == 0);
        }
        while i < self.entries.len()
            invariant
                1 <= i <= self.entries@.len(),
                all == self.keys(),
                out@ == comma_list(all.take(i as int)),
            decreases self.entries@.len() - i,
        {
            proof {
                assert(all.take(i + 1).drop_last() =~= all.take(i as int));
                assert(all[i as int] == self.entries@[i as int].0@);
            }
            out.append(", ");
            out.append(self.entries[i].0.as_str());
            i += 1;
        }
        proof {
            assert(all.take(i as int) =~= all);
            assert(self.key(0) == all[0]);
            assert(self.map().dom().contains(self.key(0)));
            assert(self.map().dom() != Set::<Seq<char>>::empty());
            assert(all.to_set() =~= self.map().dom()) by {
                assert forall|k: Seq<char>| all.to_set().contains(k) implies self.has(k) by {
                    let j = choose|j: int| 0 <= j < all.len() && all[j] == k;
                    assert(self.key(j) == k);
                }
                assert forall|k: Seq<char>| self.has(k) implies all.to_set().contains(k) by {
                    let j = choose|j: int|
                        0 <= j < self.entries().len() && #[trigger] self.key(j) == k;
                    assert(all[j] == k);
                }
            }
        }
        out
    }

    proof fn lemma_sorted_insert(self, i: int, e: (String, T))
        requires
            sorted(self.entries()),
            0 <= i <= self.entries().len(),
            forall|j: int| 0 <= j < i ==> name_before(#[trigger] self.key(j), e.0@),
            forall|j: int|
                i <= j < self.entries().len() ==> name_before(e.0@, #[trigger] self.key(j)),
        ensures
            sorted(self.entries().insert(i, e)),
    {
        let a = self.entries();
        let b = a.insert(i, e);
        assert forall|x: int, y: int| 0 <= x < y < b.len() implies name_before(
            (#[trigger] b[x]).0@,
            (#[trigger] b[y]).0@,
        ) by {
            if y < i {
                assert(name_before(a[x].0@, a[y].0@));
            } else if y == i {
                assert(name_before(self.key(x), e.0@));
            } else if x == i {
                assert(name_before(e.0@, self.key(y - 1)));
            } else if x < i {
                assert(name_before(a[x].0@, a[y - 1].0@));
            } else {
                assert(name_before(a[x - 1].0@, a[y - 1].0@));
            }
        }
    }

    /// After one name was given a value, every other name is as it was.
    proof fn lemma_other_names(self, new: Self, i: int, found: bool)
        requires
            sorted(self.entries()),
            sorted(new.entries()),
            0 <= i < new.entries().len(),
            found ==> i < self.entries().len() && self.key(i) == new.key(i) && new.entries()
                == self.entries().update(i, new.entries()[i]),
            !found ==> i <= self.entries().len() && new.entries() == self.entries().insert(
                i,
                new.entries()[i],
            ),
        ensures
            forall|k: Seq<char>| k != new.key(i) ==> #[trigger] new.agrees(self, k),
    {
        assert forall|k: Seq<char>| k != new.key(i) implies #[trigger] new.agrees(self, k) by {
            if self.has(k) {
                let j = choose|j: int| 0 <= j < self.entries().len() && #[trigger] self.key(j) == k;
                let n = if found || j < i {
                    j
                } else {
                    j + 1
                };
                assert(new.entries()[n] == self.entries()[j]);
                assert(new.key(n) == k);
                new.lemma_unique(n);
                self.lemma_unique(j);
            }
            if new.has(k) {
                let n = choose|n: int| 0 <= n < new.entries().len() && #[trigger] new.key(n) == k;
                let j = if found || n < i {
                    n
                } else {
                    n - 1
                };
                assert(new.entries()[n] == self.entries()[j]);
                assert(self.key(j) == k);
            }
        }
    }
}

pub open spec fn ascending(ks: Seq<Seq<char>>) -> bool {
    forall|i: int, j: int|
        0 <= i < j < ks.len() ==> name_before(#[trigger] ks[i], #[trigger] ks[j])
}

/// Texts with a comma and a space between them.
pub open spec fn comma_list(ks: Seq<Seq<char>>) -> Seq<char>
    decreases ks.len(),
{
    if ks.len() == 0 {
        seq![]
    } else if ks.len() == 1 {
        ks[0]
    } else {
        comma_list(ks.drop_last()) + ", "@ + ks.last()
    }
}

/// `t` lists the names in order, or says that there is none.
pub open spec fn lists(t: Seq<char>, names: Set<Seq<char>>) -> bool {
    if names == Set::<Seq<char>>::empty() {
        t == "(none)"@
    } else {
        exists|ks: Seq<Seq<char>>|
            #[trigger] ascending(ks) && ks.to_set() == names && t == comma_list(ks)
    }
}

/// The map that entries make, the later ones in place of the earlier.
pub open spec fn map_of<T>(e: Seq<(String, T)>) -> Map<Seq<char>, T>
    decreases e.len(),
{
    if e.len() == 0 {
        Map::empty()
    } else {
        map_of(e.drop_last()).insert(e.last().0@, e.last().1)
    }
}

proof fn lemma_map_of<T>(e: Seq<(String, T)>)
    requires
        sorted(e),
    ensures
        forall|i: int|
            0 <= i < e.len() ==> map_of(e).dom().contains((#[trigger] e[i]).0@) && map_of(
                e,
            )[e[i].0@] == e[i].1,
        forall|k: Seq<char>| #[trigger]
            map_of(e).dom().contains(k) ==> exists|i: int|
                0 <= i < e.len() && (#[trigger] e[i]).0@ == k,
    decreases e.len(),
{
    if e.len() > 0 {
        let init = e.drop_last();
        let n = e.len() - 1;
        assert forall|i: int, j: int| 0 <= i < j < init.len() implies name_before(
            (#[trigger] init[i]).0@,
            (#[trigger] init[j]).0@,
        ) by {
            assert(init[i] == e[i] && init[j] == e[j]);
        }
        lemma_map_of(init);
        assert forall|i: int| 0 <= i < e.len() implies map_of(e).dom().contains(
            (#[trigger] e[i]).0@,
        ) && map_of(e)[e[i].0@] == e[i].1 by {
            if i < n {
                assert(init[i] == e[i]);
                assert(name_before(e[i].0@, e[n].0@));
                lemma_before_total(encode_utf8(e[i].0@), encode_utf8(e[n].0@));
            }
        }
        assert forall|k: Seq<char>| #[trigger] map_of(e).dom().contains(k) implies exists|i: int|
            0 <= i < e.len() && (#[trigger] e[i]).0@ == k by {
            if k == e[n].0@ {
                assert(e[n].0@ == k);
            } else {
                assert(map_of(init).dom().contains(k));
                let i = choose|i: int| 0 <= i < init.len() && (#[trigger] init[i]).0@ == k;
                assert(init[i] == e[i]);
            }
        }
    }
}

pub open spec fn sorted<T>(e: Seq<(String, T)>) -> bool {
    forall|i: int, j: int|
        0 <= i < j < e.len() ==> name_before((#[trigger] e[i]).0@, (#[trigger] e[j]).0@)
}

proof fn lemma_sorted_names<T>(a: Seq<(String, T)>, b: Seq<(String, T)>)
    requires
        sorted(a),
        a.len() == b.len(),
        forall|i: int| 0 <= i < a.len() ==> (#[trigger] a[i]).0@ == b[i].0@,
    ensures
        sorted(b),
{
    assert forall|i: int, j: int| 0 <= i < j < b.len() implies name_before(
        (#[trigger] b[i]).0@,
        (#[trigger] b[j]).0@,
    ) by {
        assert(a[i].0@ == b[i].0@);
        assert(a[j].0@ == b[j].0@);
    }
}

/// The values of a table as texts.
pub open spec fn text_map(t: Table<String>) -> Map<Seq<char>, Seq<char>> {
    t.map().map_values(|s: String| s@)
}

} // verus!
