//! Maps keyed by names: sorted ones for directory entries, and ones keyed by
//! organisation and repository.

use crate::text::{lemma_utf8_injective, same, strings, utf8};
use vstd::prelude::*;
use vstd::relations::{sorted_by, total_ordering};
use vstd::seq_lib::lemma_sorted_unique;
use vstd::string::*;

verus! {

/// The lexicographic order of byte strings.
pub open spec fn bytes_before(a: Seq<u8>, b: Seq<u8>) -> bool
    decreases a.len(),
{
    if b.len() == 0 {
        false
    } else if a.len() == 0 {
        true
    } else if a[0] != b[0] {
        a[0] < b[0]
    } else {
        bytes_before(a.drop_first(), b.drop_first())
    }
}

/// The order in which names are listed: that of their bytes.
pub open spec fn name_before(a: Seq<char>, b: Seq<char>) -> bool {
    bytes_before(utf8(a), utf8(b))
}

/// Nothing comes before itself.
pub proof fn lemma_before_irreflexive(a: Seq<u8>)
    ensures
        !bytes_before(a, a),
    decreases a.len(),
{
    if a.len() > 0 {
        lemma_before_irreflexive(a.drop_first());
    }
}

/// The order is transitive.
pub proof fn lemma_before_transitive(a: Seq<u8>, b: Seq<u8>, c: Seq<u8>)
    requires
        bytes_before(a, b),
        bytes_before(b, c),
    ensures
        bytes_before(a, c),
    decreases a.len(),
{
    if a.len() > 0 && a[0] == b[0] && b[0] == c[0] {
        lemma_before_transitive(a.drop_first(), b.drop_first(), c.drop_first());
    }
}

/// Of two different byte strings one comes before the other.
pub proof fn lemma_before_total(a: Seq<u8>, b: Seq<u8>)
    requires
        a != b,
    ensures
        bytes_before(a, b) || bytes_before(b, a),
    decreases a.len(),
{
    if a.len() > 0 && b.len() > 0 {
        if a[0] == b[0] {
            assert(a =~= seq![a[0]] + a.drop_first());
            assert(b =~= seq![b[0]] + b.drop_first());
            lemma_before_total(a.drop_first(), b.drop_first());
        }
    } else if a.len() == 0 && b.len() == 0 {
        assert(a =~= b);
    }
}

/// How one name stands to another.
#[derive(Clone, Copy, PartialEq, Eq, Structural)]
pub enum Order {
    Before,
    Same,
    After,
}

/// Orders two names.
pub fn order_names(a: &str, b: &str) -> (r: Order)
    ensures
        match r {
            Order::Before => name_before(a@, b@),
            Order::Same => a@ == b@,
            Order::After => name_before(b@, a@),
        },
{
    let x = a.as_bytes();
    let y = b.as_bytes();
    let mut i: usize = 0;
    proof {
        assert(x@.skip(0) =~= x@);
        assert(y@.skip(0) =~= y@);
    }
    while i < x.len() && i < y.len() && x[i] == y[i]
        invariant
            i <= x@.len(),
            i <= y@.len(),
            x@.take(i as int) == y@.take(i as int),
            bytes_before(x@, y@) == bytes_before(x@.skip(i as int), y@.skip(i as int)),
            bytes_before(y@, x@) == bytes_before(y@.skip(i as int), x@.skip(i as int)),
        decreases x@.len() - i,
    {
        proof {
            assert(x@.skip(i as int).drop_first() =~= x@.skip(i + 1));
            assert(y@.skip(i as int).drop_first() =~= y@.skip(i + 1));
            assert(x@.take(i + 1) =~= x@.take(i as int).push(x@[i as int]));
            assert(y@.take(i + 1) =~= y@.take(i as int).push(y@[i as int]));
        }
        i = i + 1;
    }
    if i == x.len() && i == y.len() {
        proof {
            assert(x@.take(i as int) =~= x@);
            assert(y@.take(i as int) =~= y@);
            lemma_utf8_injective(a@, b@);
        }
        Order::Same
    } else if i == x.len() {
        Order::Before
    } else if i == y.len() {
        Order::After
    } else if x[i] < y[i] {
        Order::Before
    } else {
        Order::After
    }
}

/// A map from names that keeps them in order.
#[derive(Debug)]
pub struct NameMap<V> {
    pub keys: Vec<String>,
    pub values: Vec<V>,
}

/// Whether a list of names is in strictly ascending order.
pub open spec fn ascending(names: Seq<Seq<char>>) -> bool {
    forall|i: int, j: int| 0 <= i < j < names.len() ==> name_before(#[trigger] names[i], #[trigger] names[j])
}

/// An ascending list names nothing twice.
pub proof fn lemma_ascending_unique(names: Seq<Seq<char>>, i: int, j: int)
    requires
        ascending(names),
        0 <= i < names.len(),
        0 <= j < names.len(),
        names[i] == names[j],
    ensures
        i == j,
{
    lemma_before_irreflexive(utf8(names[i]));
    if i < j {
        assert(name_before(names[i], names[j]));
    } else if j < i {
        assert(name_before(names[j], names[i]));
    }
}

/// Ascending lists of the same names are the same list.
pub proof fn lemma_ascending_same(a: Seq<Seq<char>>, b: Seq<Seq<char>>)
    requires
        ascending(a),
        ascending(b),
        forall|x: Seq<char>| a.contains(x) <==> b.contains(x),
    ensures
        a == b,
    decreases a.len(),
{
    if a.len() == 0 {
        if b.len() > 0 {
            assert(b.contains(b[0]));
            assert(a.contains(b[0]));
        }
        assert(a =~= b);
    } else {
        assert(a.contains(a.last()));
        assert(b.contains(a.last()));
        let i = choose|i: int| 0 <= i < b.len() && b[i] == a.last();
        assert(b.contains(b.last()));
        assert(a.contains(b.last()));
        let j = choose|j: int| 0 <= j < a.len() && a[j] == b.last();
        if i < b.len() - 1 && j < a.len() - 1 {
            assert(name_before(b[i], b[b.len() - 1]));
            assert(name_before(a[j], a[a.len() - 1]));
            lemma_before_transitive(utf8(a.last()), utf8(b.last()), utf8(a.last()));
            lemma_before_irreflexive(utf8(a.last()));
        }
        assert(a.last() == b.last());
        let x = a.drop_last();
        let y = b.drop_last();
        assert forall|n: Seq<char>| x.contains(n) <==> y.contains(n) by {
            lemma_without_last(a, n);
            lemma_without_last(b, n);
            assert(a.contains(n) <==> b.contains(n));
        }
        assert forall|p: int, q: int| 0 <= p < q < x.len() implies name_before(
            #[trigger] x[p],
            #[trigger] x[q],
        ) by {
            assert(name_before(a[p], a[q]));
        }
        assert forall|p: int, q: int| 0 <= p < q < y.len() implies name_before(
            #[trigger] y[p],
            #[trigger] y[q],
        ) by {
            assert(name_before(b[p], b[q]));
        }
        lemma_ascending_same(x, y);
        assert(a =~= x.push(a.last()));
        assert(b =~= y.push(b.last()));
    }
}

proof fn lemma_without_last(a: Seq<Seq<char>>, n: Seq<char>)
    requires
        ascending(a),
        a.len() > 0,
    ensures
        a.drop_last().contains(n) <==> a.contains(n) && n != a.last(),
{
    if a.drop_last().contains(n) {
        let i = choose|i: int| 0 <= i < a.drop_last().len() && a.drop_last()[i] == n;
        assert(a[i] == n);
        if n == a.last() {
            lemma_ascending_unique(a, i, a.len() - 1);
        }
    }
    if a.contains(n) && n != a.last() {
        let i = choose|i: int| 0 <= i < a.len() && a[i] == n;
        assert(a.drop_last()[i] == n);
    }
}

/// Whether a name comes no later than another.
pub open spec fn no_later(a: Seq<char>, b: Seq<char>) -> bool {
    a == b || name_before(a, b)
}

/// The order of names is total.
pub proof fn lemma_names_are_ordered()
    ensures
        total_ordering(|a: Seq<char>, b: Seq<char>| no_later(a, b)),
{
    let leq = |a: Seq<char>, b: Seq<char>| no_later(a, b);
    assert forall|a: Seq<char>, b: Seq<char>| #[trigger] leq(a, b) && #[trigger] leq(b, a) implies a
        == b by {
        if a != b {
            lemma_before_transitive(utf8(a), utf8(b), utf8(a));
            lemma_before_irreflexive(utf8(a));
        }
    }
    assert forall|a: Seq<char>, b: Seq<char>, c: Seq<char>| #[trigger]
        leq(a, b) && #[trigger] leq(b, c) implies leq(a, c) by {
        if a != b && b != c {
            lemma_before_transitive(utf8(a), utf8(b), utf8(c));
        }
    }
    assert forall|a: Seq<char>, b: Seq<char>| #[trigger] leq(a, b) || #[trigger] leq(b, a) by {
        if a != b {
            if utf8(a) == utf8(b) {
                lemma_utf8_injective(a, b);
            }
            lemma_before_total(utf8(a), utf8(b));
        }
    }
}

/// The names in their order, each as often as it was there.
pub open spec fn sorted(names: Seq<Seq<char>>) -> Seq<Seq<char>> {
    names.sort_by(|a: Seq<char>, b: Seq<char>| no_later(a, b))
}

/// Calls the `sort` of a slice of `String`s: the same strings are there
/// afterwards, each as often as before, ordered by their bytes.
#[verifier::external_body]
fn sort_strings(names: &mut Vec<String>)
    ensures
        sorted_by(strings(final(names)@), |a: Seq<char>, b: Seq<char>| no_later(a, b)),
        strings(final(names)@).to_multiset() == strings(old(names)@).to_multiset(),
{
    names.sort();
}

/// Puts names in order.
pub fn sort_names(names: &mut Vec<String>)
    ensures
        strings(final(names)@) == sorted(strings(old(names)@)),
{
    let ghost before = strings(names@);
    let ghost leq = |a: Seq<char>, b: Seq<char>| no_later(a, b);
    sort_strings(names);
    proof {
        lemma_names_are_ordered();
        before.lemma_sort_by_ensures(leq);
        lemma_sorted_unique(strings(names@), before.sort_by(leq), leq);
    }
}

/// A filter that lets everything through.
pub proof fn lemma_filter_all<A>(s: Seq<A>, keep: spec_fn(A) -> bool)
    requires
        forall|i: int| 0 <= i < s.len() ==> keep(#[trigger] s[i]),
    ensures
        s.filter(keep) == s,
    decreases s.len(),
{
    reveal(Seq::filter);
    if s.len() > 0 {
        lemma_filter_all(s.drop_last(), keep);
        assert(keep(s[s.len() - 1]));
        assert(s.filter(keep) =~= s.drop_last().push(s.last()));
    } else {
        assert(s.filter(keep) =~= s);
    }
}

/// The names of a set in ascending order.
pub open spec fn in_order(names: Set<Seq<char>>) -> Seq<Seq<char>> {
    choose|s: Seq<Seq<char>>| is_in_order(s, names)
}

/// Whether a list holds the names of a set in ascending order.
pub open spec fn is_in_order(s: Seq<Seq<char>>, names: Set<Seq<char>>) -> bool {
    ascending(s) && forall|x: Seq<char>| #[trigger] s.contains(x) <==> names.contains(x)
}

/// There is only one ascending list of the names of a set.
pub proof fn lemma_in_order(s: Seq<Seq<char>>, names: Set<Seq<char>>)
    requires
        is_in_order(s, names),
    ensures
        in_order(names) == s,
{
    lemma_ascending_same(in_order(names), s);
}

impl<V> NameMap<V> {
    /// A map lists its names in order.
    pub proof fn lemma_names(&self)
        requires
            self.wf(),
        ensures
            self.names() == in_order(self@.dom()),
            is_in_order(self.names(), self@.dom()),
    {
        lemma_in_order(self.names(), self@.dom());
    }
}

impl<V> NameMap<V> {
    /// The names in their order.
    pub open spec fn names(&self) -> Seq<Seq<char>> {
        Seq::new(self.keys@.len(), |i: int| self.keys@[i]@)
    }

    /// Every name has one value and the names ascend.
    pub open spec fn wf(&self) -> bool {
        &&& self.keys@.len() == self.values@.len()
        &&& ascending(self.names())
    }

    /// Where a name stands among the others.
    pub open spec fn position(&self, name: Seq<char>) -> int {
        choose|i: int| 0 <= i < self.names().len() && #[trigger] self.names()[i] == name
    }
}

impl<V> View for NameMap<V> {
    type V = Map<Seq<char>, V>;

    open spec fn view(&self) -> Map<Seq<char>, V> {
        Map::new(
            |name: Seq<char>| self.names().contains(name),
            |name: Seq<char>| self.values@[self.position(name)],
        )
    }
}

impl<V> NameMap<V> {
    /// What stands at a position is what the map holds under its name.
    pub proof fn lemma_at(&self, i: int)
        requires
            self.wf(),
            0 <= i < self.keys@.len(),
        ensures
            self@.contains_key(self.keys@[i]@),
            self.names()[i] == self.keys@[i]@,
            self.position(self.keys@[i]@) == i,
            self@[self.keys@[i]@] == self.values@[i],
    {
        let name = self.keys@[i]@;
        assert(self.names()[i] == name);
        let p = self.position(name);
        lemma_ascending_unique(self.names(), i, p);
    }

    /// A name in the map has a position.
    pub proof fn lemma_position(&self, name: Seq<char>)
        requires
            self.wf(),
            self@.contains_key(name),
        ensures
            0 <= self.position(name) < self.keys@.len(),
            self.keys@[self.position(name)]@ == name,
            self@[name] == self.values@[self.position(name)],
    {
        let i = choose|i: int| 0 <= i < self.names().len() && self.names()[i] == name;
        let p = self.position(name);
        assert(self.names()[p] == name);
    }

    /// The empty map.
    pub fn new() -> (r: NameMap<V>)
        ensures
            r.wf(),
            r@ == Map::<Seq<char>, V>::empty(),
    {
        let r = NameMap { keys: Vec::new(), values: Vec::new() };
        assert(r@ =~= Map::<Seq<char>, V>::empty());
        r
    }

    /// How many names the map holds.
    pub fn len(&self) -> (r: usize)
        requires
            self.wf(),
        ensures
            r == self.names().len(),
    {
        self.keys.len()
    }

    /// Whether the map holds no name.
    pub fn is_empty(&self) -> (r: bool)
        requires
            self.wf(),
        ensures
            r == (self@ == Map::<Seq<char>, V>::empty()),
            r == (self.names().len() == 0),
    {
        let r = self.keys.len() == 0;
        proof {
            if !r {
                self.lemma_at(0);
            } else {
                assert(self@ =~= Map::<Seq<char>, V>::empty());
            }
        }
        r
    }

    /// Finds the first position whose name does not come before `name`, and
    /// whether it is that name.
    pub fn search(&self, name: &str) -> (r: (bool, usize))
        requires
            self.wf(),
        ensures
            r.1 <= self.keys@.len(),
            forall|j: int| 0 <= j < r.1 ==> name_before(#[trigger] self.names()[j], name@),
            r.0 ==> r.1 < self.keys@.len() && self.keys@[r.1 as int]@ == name@,
            !r.0 ==> forall|j: int|
                r.1 <= j < self.keys@.len() ==> name_before(name@, #[trigger] self.names()[j]),
            r.0 == self@.contains_key(name@),
    {
        let mut lo: usize = 0;
        let mut hi: usize = self.keys.len();
        while lo < hi
            invariant
                self.wf(),
                lo <= hi <= self.keys@.len(),
                forall|j: int| 0 <= j < lo ==> name_before(#[trigger] self.names()[j], name@),
                forall|j: int|
                    hi <= j < self.keys@.len() ==> name_before(name@, #[trigger] self.names()[j]),
            decreases hi - lo,
        {
            let mid = lo + (hi - lo) / 2;
            assert(self.names()[mid as int] == self.keys@[mid as int]@);
            match order_names(self.keys[mid].as_str(), name) {
                Order::Before => {
                    proof {
                        assert forall|j: int| 0 <= j <= mid implies name_before(
                            #[trigger] self.names()[j],
                            name@,
                        ) by {
                            if lo <= j < mid {
                                assert(name_before(self.names()[j], self.names()[mid as int]));
                                lemma_before_transitive(
                                    utf8(self.names()[j]),
                                    utf8(self.names()[mid as int]),
                                    utf8(name@),
                                );
                            }
                        }
                    }
                    lo = mid + 1;
                },
                Order::Same => {
                    proof {
                        self.lemma_at(mid as int);
                    }
                    return (true, mid);
                },
                Order::After => {
                    proof {
                        assert forall|j: int| mid <= j < self.keys@.len() implies name_before(
                            name@,
                            #[trigger] self.names()[j],
                        ) by {
                            if mid < j < hi {
                                assert(name_before(self.names()[mid as int], self.names()[j]));
                                lemma_before_transitive(
                                    utf8(name@),
                                    utf8(self.names()[mid as int]),
                                    utf8(self.names()[j]),
                                );
                            }
                        }
                    }
                    hi = mid;
                },
            }
        }
        proof {
            if self@.contains_key(name@) {
                self.lemma_position(name@);
                let p = self.position(name@);
                assert(self.names()[p] == name@);
                lemma_before_irreflexive(utf8(name@));
                assert(name_before(self.names()[p], name@) || name_before(name@, self.names()[p]));
            }
        }
        (false, lo)
    }

    /// What the map holds under `name`.
    pub fn get(&self, name: &str) -> (r: Option<&V>)
        requires
            self.wf(),
        ensures
            match r {
                Some(v) => self@.contains_key(name@) && self@[name@] == *v,
                None => !self@.contains_key(name@),
            },
    {
        let (found, i) = self.search(name);
        if found {
            proof {
                self.lemma_at(i as int);
            }
            Some(&self.values[i])
        } else {
            None
        }
    }

    /// Whether the map holds `name`.
    pub fn contains_key(&self, name: &str) -> (r: bool)
        requires
            self.wf(),
        ensures
            r == self@.contains_key(name@),
    {
        self.search(name).0
    }

    /// Puts `value` under `name`, in place of what was there.
    pub fn insert(&mut self, name: String, value: V)
        requires
            old(self).wf(),
        ensures
            final(self).wf(),
            final(self)@ == old(self)@.insert(name@, value),
    {
        let ghost before = *self;
        let ghost n = name@;
        let (found, i) = self.search(name.as_str());
        if found {
            proof {
                self.lemma_at(i as int);
            }
            self.values.set(i, value);
            assert(self.names() =~= before.names());
            proof {
                assert forall|k: Seq<char>| #[trigger]
                    self@.contains_key(k) implies self@[k] == before@.insert(n, value)[k] by {
                    before.lemma_position(k);
                    let p = before.position(k);
                    self.lemma_at(p);
                    before.lemma_at(p);
                }
            }
            assert(self@ =~= before@.insert(n, value));
        } else {
            self.keys.insert(i, name);
            self.values.insert(i, value);
            proof {
                assert(self.names() =~= before.names().insert(i as int, n));
                let names = self.names();
                let old_names = before.names();
                assert forall|a: int, b: int| 0 <= a < b < names.len() implies name_before(
                    #[trigger] names[a],
                    #[trigger] names[b],
                ) by {
                    if a == i {
                        assert(names[b] == old_names[b - 1]);
                    } else if b == i {
                        assert(names[a] == old_names[a]);
                    } else {
                        let x = if a < i { a } else { a - 1 };
                        let y = if b < i { b } else { b - 1 };
                        assert(names[a] == old_names[x]);
                        assert(names[b] == old_names[y]);
                        assert(name_before(old_names[x], old_names[y]));
                    }
                }
                self.lemma_at(i as int);
                assert forall|k: Seq<char>| #[trigger] before@.contains_key(k) implies self@.contains_key(k) && self@[k]
                    == before@[k] by {
                    before.lemma_position(k);
                    let p = before.position(k);
                    before.lemma_at(p);
                    let q = if p < i { p } else { p + 1 };
                    self.lemma_at(q);
                }
                assert forall|k: Seq<char>| #[trigger] self@.contains_key(k) implies k == n || before@.contains_key(k) by {
                    self.lemma_position(k);
                    let q = self.position(k);
                    if q != i {
                        let p = if q < i { q } else { q - 1 };
                        before.lemma_at(p);
                    }
                }
                assert(self@ =~= before@.insert(n, value));
            }
        }
    }

    /// Takes `name` and its value out of the map.
    pub fn remove(&mut self, name: &str) -> (r: Option<V>)
        requires
            old(self).wf(),
        ensures
            final(self).wf(),
            final(self)@ == old(self)@.remove(name@),
            match r {
                Some(v) => old(self)@.contains_key(name@) && old(self)@[name@] == v,
                None => !old(self)@.contains_key(name@) && *final(self) == *old(self),
            },
    {
        let ghost before = *self;
        let ghost n = name@;
        let (found, i) = self.search(name);
        if !found {
            assert(self@ =~= self@.remove(n));
            return None;
        }
        proof {
            before.lemma_at(i as int);
        }
        let key = self.keys.remove(i);
        let value = self.values.remove(i);
        proof {
            let names = self.names();
            let old_names = before.names();
            assert(names =~= old_names.remove(i as int));
            assert forall|a: int, b: int| 0 <= a < b < names.len() implies name_before(
                #[trigger] names[a],
                #[trigger] names[b],
            ) by {
                let x = if a < i { a } else { a + 1 };
                let y = if b < i { b } else { b + 1 };
                assert(names[a] == old_names[x]);
                assert(names[b] == old_names[y]);
                assert(name_before(old_names[x], old_names[y]));
            }
            assert forall|k: Seq<char>| #[trigger]
                before@.contains_key(k) && k != n implies self@.contains_key(k) && self@[k]
                == before@[k] by {
                before.lemma_position(k);
                let p = before.position(k);
                before.lemma_at(p);
                let q = if p < i { p } else { p - 1 };
                self.lemma_at(q);
            }
            assert forall|k: Seq<char>| #[trigger] self@.contains_key(k) implies k != n && before@.contains_key(k) by {
                self.lemma_position(k);
                let q = self.position(k);
                let p = if q < i { q } else { q + 1 };
                before.lemma_at(p);
                if k == n {
                    lemma_ascending_unique(old_names, p, i as int);
                }
            }
            assert(self@ =~= before@.remove(n));
        }
        Some(value)
    }
}

/// One entry of a map keyed by organisation and repository.
#[derive(Debug)]
pub struct RepoEntry<V> {
    pub org: String,
    pub repo: String,
    pub value: V,
}

/// A map keyed by organisation and repository.
#[derive(Debug)]
pub struct RepoMap<V> {
    pub entries: Vec<RepoEntry<V>>,
}

impl<V> RepoEntry<V> {
    /// The organisation and the repository.
    pub open spec fn key(&self) -> (Seq<char>, Seq<char>) {
        (self.org@, self.repo@)
    }
}

impl<V> RepoMap<V> {
    /// No repository has two entries.
    pub open spec fn wf(&self) -> bool {
        forall|i: int, j: int|
            0 <= i < j < self.entries@.len() ==> (#[trigger] self.entries@[i]).key() != (
            #[trigger] self.entries@[j]).key()
    }

    /// Whether the entry at `i` is that of `key`.
    pub open spec fn is_at(&self, key: (Seq<char>, Seq<char>), i: int) -> bool {
        0 <= i < self.entries@.len() && self.entries@[i].key() == key
    }
}

impl<V> View for RepoMap<V> {
    type V = Map<(Seq<char>, Seq<char>), V>;

    open spec fn view(&self) -> Map<(Seq<char>, Seq<char>), V> {
        Map::new(
            |key: (Seq<char>, Seq<char>)| exists|i: int| self.is_at(key, i),
            |key: (Seq<char>, Seq<char>)| self.entries@[choose|i: int| self.is_at(key, i)].value,
        )
    }
}

impl<V> RepoMap<V> {
    proof fn lemma_at(&self, i: int)
        requires
            self.wf(),
            0 <= i < self.entries@.len(),
        ensures
            self@.contains_key(self.entries@[i].key()),
            self@[self.entries@[i].key()] == self.entries@[i].value,
    {
        let key = self.entries@[i].key();
        assert(self.is_at(key, i));
        let j = choose|j: int| self.is_at(key, j);
        if i < j {
            assert(self.entries@[i].key() != self.entries@[j].key());
        } else if j < i {
            assert(self.entries@[j].key() != self.entries@[i].key());
        }
    }

    /// The empty map.
    pub fn new() -> (r: RepoMap<V>)
        ensures
            r.wf(),
            r@ == Map::<(Seq<char>, Seq<char>), V>::empty(),
    {
        let r = RepoMap { entries: Vec::new() };
        assert(r@ =~= Map::<(Seq<char>, Seq<char>), V>::empty());
        r
    }

    /// The position of the entry for `org/repo`.
    fn find(&self, org: &str, repo: &str) -> (r: Option<usize>)
        requires
            self.wf(),
        ensures
            match r {
                Some(i) => self.is_at((org@, repo@), i as int),
                None => !self@.contains_key((org@, repo@)),
            },
    {
        let mut i: usize = 0;
        while i < self.entries.len()
            invariant
                i <= self.entries@.len(),
                forall|j: int| 0 <= j < i ==> !self.is_at((org@, repo@), j),
            decreases self.entries@.len() - i,
        {
            if same(self.entries[i].org.as_str(), org) && same(self.entries[i].repo.as_str(), repo) {
                return Some(i);
            }
            i = i + 1;
        }
        None
    }

    /// What the map holds for `org/repo`.
    pub fn get(&self, org: &str, repo: &str) -> (r: Option<&V>)
        requires
            self.wf(),
        ensures
            match r {
                Some(v) => self@.contains_key((org@, repo@)) && self@[(org@, repo@)] == *v,
                None => !self@.contains_key((org@, repo@)),
            },
    {
        match self.find(org, repo) {
            Some(i) => {
                proof {
                    self.lemma_at(i as int);
                }
                Some(&self.entries[i].value)
            },
            None => None,
        }
    }

    /// Puts `value` under `org/repo`, in place of what was there.
    pub fn insert(&mut self, org: &str, repo: &str, value: V)
        requires
            old(self).wf(),
        ensures
            final(self).wf(),
            final(self)@ == old(self)@.insert((org@, repo@), value),
    {
        self.remove(org, repo);
        let ghost before = *self;
        let ghost n = self.entries@.len() as int;
        let ghost key = (org@, repo@);
        self.entries.push(RepoEntry { org: org.to_owned(), repo: repo.to_owned(), value });
        proof {
            assert forall|i: int, j: int| 0 <= i < j < self.entries@.len() implies (
            #[trigger] self.entries@[i]).key() != (#[trigger] self.entries@[j]).key() by {
                if j == n {
                    before.lemma_at(i);
                }
            }
            self.lemma_at(n);
            assert forall|k: (Seq<char>, Seq<char>)| #[trigger]
                self@.contains_key(k) implies self@[k] == before@.insert(key, value)[k] && before@.insert(
                key,
                value,
            ).contains_key(k) by {
                let i = choose|i: int| self.is_at(k, i);
                self.lemma_at(i);
                if i < n {
                    before.lemma_at(i);
                }
            }
            assert forall|k: (Seq<char>, Seq<char>)| #[trigger] before@.contains_key(k) implies self@.contains_key(k) by {
                let i = choose|i: int| before.is_at(k, i);
                self.lemma_at(i);
            }
            assert(self@ =~= before@.insert(key, value));
            assert(before@.insert(key, value) =~= old(self)@.insert(key, value));
        }
    }

    /// Takes the entry of `org/repo` out of the map.
    pub fn remove(&mut self, org: &str, repo: &str)
        requires
            old(self).wf(),
        ensures
            final(self).wf(),
            final(self)@ == old(self)@.remove((org@, repo@)),
    {
        let ghost before = *self;
        let ghost key = (org@, repo@);
        match self.find(org, repo) {
            Some(at) => {
                self.entries.remove(at);
                proof {
                    assert forall|i: int, j: int| 0 <= i < j < self.entries@.len() implies (
                    #[trigger] self.entries@[i]).key() != (#[trigger] self.entries@[j]).key() by {
                        let x = if i < at { i } else { i + 1 };
                        let y = if j < at { j } else { j + 1 };
                        assert(before.entries@[x].key() != before.entries@[y].key());
                    }
                    assert forall|k: (Seq<char>, Seq<char>)| #[trigger]
                        self@.contains_key(k) implies before@.remove(key).contains_key(k) && self@[k]
                        == before@[k] by {
                        let i = choose|i: int| self.is_at(k, i);
                        self.lemma_at(i);
                        let x = if i < at { i } else { i + 1 };
                        before.lemma_at(x);
                        if x < at {
                            assert(before.entries@[x].key() != before.entries@[at as int].key());
                        } else {
                            assert(before.entries@[at as int].key() != before.entries@[x].key());
                        }
                    }
                    assert forall|k: (Seq<char>, Seq<char>)| #[trigger]
                        before@.remove(key).contains_key(k) implies self@.contains_key(k) by {
                        let x = choose|x: int| before.is_at(k, x);
                        let i = if x < at { x } else { x - 1 };
                        self.lemma_at(i);
                    }
                    assert(self@ =~= before@.remove(key));
                }
            },
            None => {
                assert(self@ =~= before@.remove(key));
            },
        }
    }
}

} // verus!
