//! The replicated append-only keyed log: a grow-only map from
//! `(node, counter)` keys to values.
//!
//! Keys synthesized locally carry this node's own name and a counter that
//! increments on every local insert, so the key space of each node is
//! disjoint from every other node's. Entries are insert-only: a key, once
//! present, is never removed or overwritten; a merge from a remote source
//! inserts a key only if it is absent. That makes merging commutative,
//! associative and idempotent, so replicas converge in any order.

use crate::init_state::{Init, Initable};
use vstd::prelude::*;

verus! {

/// A key of the replicated log: the synthesizing node's name and that
/// node's local insertion counter at the time of the insert.
pub struct LogKey {
    pub node: String,
    pub counter: usize,
}

impl View for LogKey {
    type V = (Seq<char>, int);

    open spec fn view(&self) -> (Seq<char>, int) {
        (self.node@, self.counter as int)
    }
}

impl Clone for LogKey {
    fn clone(&self) -> (r: LogKey)
        ensures
            r == *self,
    {
        LogKey { node: self.node.clone(), counter: self.counter }
    }
}

/// Whether two keys are the same key.
pub fn key_eq(a: &LogKey, b: &LogKey) -> (r: bool)
    ensures
        r == (a@ == b@),
{
    let same_node = a.node == b.node;
    same_node && a.counter == b.counter
}

/// Whether some entry of `s` carries the key `k`.
pub open spec fn seq_has_key<T>(s: Seq<(LogKey, T)>, k: (Seq<char>, int)) -> bool {
    exists|i: int| 0 <= i < s.len() && s[i].0@ == k
}

/// No two entries of `s` carry the same key.
pub open spec fn unique_keys<T>(s: Seq<(LogKey, T)>) -> bool {
    forall|i: int, j: int| 0 <= i < j < s.len() ==> s[i].0@ != s[j].0@
}

/// The map described by an entry sequence, earliest entry winning when a
/// key repeats: exactly the result of inserting each entry in order while
/// refusing to overwrite.
pub open spec fn map_of<T>(s: Seq<(LogKey, T)>) -> Map<(Seq<char>, int), T>
    decreases s.len(),
{
    if s.len() == 0 {
        Map::empty()
    } else {
        let rest = map_of(s.drop_last());
        if rest.contains_key(s.last().0@) {
            rest
        } else {
            rest.insert(s.last().0@, s.last().1)
        }
    }
}

/// `map_of` holds a key exactly when some entry carries it.
pub proof fn lemma_map_of_contains<T>(s: Seq<(LogKey, T)>, k: (Seq<char>, int))
    ensures
        map_of(s).contains_key(k) <==> seq_has_key(s, k),
    decreases s.len(),
{
    if s.len() > 0 {
        lemma_map_of_contains(s.drop_last(), k);
        if seq_has_key(s.drop_last(), k) {
            assert(seq_has_key(s, k)) by {
                let i = choose|i: int|
                    0 <= i < s.drop_last().len() && s.drop_last()[i].0@ == k;
                assert(s[i].0@ == k);
            }
        } else if s.last().0@ == k {
            assert(s[s.len() - 1].0@ == k);
        } else if seq_has_key(s, k) {
            let i = choose|i: int| 0 <= i < s.len() && s[i].0@ == k;
            assert(i < s.len() - 1);
            assert(s.drop_last()[i].0@ == k);
        }
    }
}

/// The domain of `map_of` is finite.
pub proof fn lemma_map_of_finite<T>(s: Seq<(LogKey, T)>)
    ensures
        map_of(s).dom().finite(),
    decreases s.len(),
{
    if s.len() > 0 {
        lemma_map_of_finite(s.drop_last());
    }
}

/// Appending an entry to the sequence inserts it into the map when its key
/// is new, and changes nothing when the key is already present.
pub proof fn lemma_map_of_push<T>(s: Seq<(LogKey, T)>, key: LogKey, val: T)
    ensures
        map_of(s).contains_key(key@) ==> map_of(s.push((key, val))) == map_of(s),
        !map_of(s).contains_key(key@) ==> map_of(s.push((key, val))) == map_of(s).insert(
            key@,
            val,
        ),
{
    assert(s.push((key, val)).drop_last() =~= s);
    assert(s.push((key, val)).last() == (key, val));
}

/// Under unique keys, the map holds exactly the entries, and is as large
/// as the sequence.
pub proof fn lemma_map_of_unique<T>(s: Seq<(LogKey, T)>)
    requires
        unique_keys(s),
    ensures
        map_of(s).dom().len() == s.len(),
        forall|i: int| 0 <= i < s.len() ==> #[trigger] map_of(s)[s[i].0@] == s[i].1,
    decreases s.len(),
{
    broadcast use vstd::set::group_set_axioms;

    lemma_map_of_finite(s);
    if s.len() > 0 {
        let prefix = s.drop_last();
        lemma_map_of_unique(prefix);
        lemma_map_of_contains(prefix, s.last().0@);
        assert(!seq_has_key(prefix, s.last().0@)) by {
            if seq_has_key(prefix, s.last().0@) {
                let i = choose|i: int|
                    0 <= i < prefix.len() && prefix[i].0@ == s.last().0@;
                assert(s[i].0@ == s[s.len() - 1].0@);
            }
        }
        lemma_map_of_finite(prefix);
        assert forall|i: int| 0 <= i < s.len() implies #[trigger] map_of(s)[s[i].0@]
            == s[i].1 by {
            if i < s.len() - 1 {
                assert(prefix[i] == s[i]);
            }
        }
    }
}

/// The replicated log of one node: its name, its local insert counter, and
/// the grow-only keyed entries.
pub struct Log<T> {
    node: String,
    counter: usize,
    entries: Vec<(LogKey, T)>,
}

impl<T> View for Log<T> {
    type V = Map<(Seq<char>, int), T>;

    closed spec fn view(&self) -> Map<(Seq<char>, int), T> {
        map_of(self.entries@)
    }
}

impl<T> Log<T> {
    /// The name of the node that owns this log.
    pub closed spec fn spec_node(&self) -> Seq<char> {
        self.node@
    }

    /// The local insert counter: the counter part of the next synthesized key.
    pub closed spec fn spec_counter(&self) -> int {
        self.counter as int
    }

    /// The entries in insertion order.
    pub closed spec fn spec_entries(&self) -> Seq<(LogKey, T)> {
        self.entries@
    }

    /// The values held, in insertion order.
    pub open spec fn spec_values(&self) -> Seq<T> {
        self.spec_entries().map_values(|p: (LogKey, T)| p.1)
    }

    /// The log's structural invariant: no key occurs twice.
    pub open spec fn wf(&self) -> bool {
        unique_keys(self.spec_entries())
    }

    /// Every entry that carries this node's own name stays below the
    /// counter, so the next synthesized key is fresh. Holds of every log
    /// whose foreign entries really originate from other nodes.
    pub open spec fn fresh_local_keys(&self) -> bool {
        forall|i: int|
            0 <= i < self.spec_entries().len() ==> (#[trigger] self.spec_entries()[i].0@.0
                == self.spec_node() ==> self.spec_entries()[i].0@.1 < self.spec_counter())
    }

    /// The node that owns this log, as a string.
    pub fn node_name(&self) -> (r: &String)
        ensures
            r@ == self.spec_node(),
    {
        &self.node
    }

    /// The counter part of the next key a local insert would synthesize.
    pub fn next_counter(&self) -> (c: usize)
        ensures
            c == self.spec_counter(),
    {
        self.counter
    }

    /// How many entries the log holds.
    pub fn num_entries(&self) -> (n: usize)
        ensures
            n == self.spec_entries().len(),
    {
        self.entries.len()
    }

    /// The entry at position `i`, in insertion order.
    pub fn entry_at(&self, i: usize) -> (r: &(LogKey, T))
        requires
            i < self.spec_entries().len(),
        ensures
            *r == self.spec_entries()[i as int],
    {
        &self.entries[i]
    }

    /// The index of the entry carrying `key`, if one does.
    fn index_of(&self, key: &LogKey) -> (r: Option<usize>)
        ensures
            r matches Some(i) ==> i < self.spec_entries().len() && self.spec_entries()[
                i as int
            ].0@ == key@,
            r is None ==> !seq_has_key(self.spec_entries(), key@),
    {
        let n = self.entries.len();
        let mut i: usize = 0;
        while i < n
            invariant
                n == self.spec_entries().len(),
                i <= n,
                forall|j: int| 0 <= j < i ==> self.spec_entries()[j].0@ != key@,
            decreases n - i,
        {
            if key_eq(&self.entries[i].0, key) {
                return Some(i);
            }
            i = i + 1;
        }
        None
    }

    /// Whether the log already holds `key`.
    pub fn contains_key(&self, key: &LogKey) -> (r: bool)
        ensures
            r == self@.contains_key(key@),
    {
        proof {
            lemma_map_of_contains(self.spec_entries(), key@);
        }
        self.index_of(key).is_some()
    }

    /// The value held under `key`, if any.
    pub fn get(&self, key: &LogKey) -> (r: Option<&T>)
        requires
            self.wf(),
        ensures
            self@.contains_key(key@) ==> (r matches Some(v) && *v == self@[key@]),
            !self@.contains_key(key@) ==> r is None,
    {
        proof {
            lemma_map_of_contains(self.spec_entries(), key@);
            lemma_map_of_unique(self.spec_entries());
        }
        match self.index_of(key) {
            Some(i) => Some(&self.entries[i].1),
            None => None,
        }
    }
}

impl<T: Copy> Log<T> {
    /// Inserts `val` under `key` if the key is absent and returns the
    /// value to signal "new to us"; an already-present key is left
    /// untouched and `None` says so. This first-insert-wins rule is what
    /// makes remote merges idempotent.
    pub fn insert_with_key(&mut self, key: &LogKey, val: &T) -> (r: Option<T>)
        requires
            old(self).wf(),
        ensures
            final(self).wf(),
            final(self).spec_node() == old(self).spec_node(),
            final(self).spec_counter() == old(self).spec_counter(),
            old(self)@.contains_key(key@) ==> r is None && final(self)@ == old(self)@
                && final(self).spec_entries() == old(self).spec_entries(),
            !old(self)@.contains_key(key@) ==> r == Some(*val) && final(self)@ == old(
                self,
            )@.insert(key@, *val) && final(self).spec_entries() == old(
                self,
            ).spec_entries().push((LogKey { node: key.node, counter: key.counter }, *val)),
            old(self).fresh_local_keys() && (key@.0 == old(self).spec_node() ==> key@.1 < old(
                self,
            ).spec_counter()) ==> final(self).fresh_local_keys(),
    {
        proof {
            lemma_map_of_contains(self.spec_entries(), key@);
        }
        if self.contains_key(key) {
            None
        } else {
            let owned = LogKey { node: key.node.clone(), counter: key.counter };
            proof {
                lemma_map_of_push(self.spec_entries(), owned, *val);
            }
            self.entries.push((owned, *val));
            Some(*val)
        }
    }

    /// Synthesizes the fresh key `(node, counter)`, inserts `val` under it,
    /// and advances the counter. Under the counter scheme the key is
    /// genuinely new, so the insert always takes and the value comes back
    /// to signal "new data accepted".
    pub fn insert(&mut self, val: &T) -> (r: Option<T>)
        requires
            old(self).wf(),
            old(self).spec_counter() < usize::MAX,
        ensures
            final(self).wf(),
            final(self).spec_node() == old(self).spec_node(),
            final(self).spec_counter() == old(self).spec_counter() + 1,
            old(self)@.contains_key((old(self).spec_node(), old(self).spec_counter()))
                ==> r is None && final(self)@ == old(self)@,
            !old(self)@.contains_key((old(self).spec_node(), old(self).spec_counter()))
                ==> r == Some(*val) && final(self)@ == old(self)@.insert(
                (old(self).spec_node(), old(self).spec_counter()),
                *val,
            ),
            old(self).fresh_local_keys() ==> r == Some(*val) && !old(self)@.contains_key(
                (old(self).spec_node(), old(self).spec_counter()),
            ) && final(self)@ == old(self)@.insert(
                (old(self).spec_node(), old(self).spec_counter()),
                *val,
            ) && final(self).fresh_local_keys(),
    {
        let key = LogKey { node: self.node.clone(), counter: self.counter };
        proof {
            lemma_map_of_contains(self.spec_entries(), key@);
            if self.fresh_local_keys() && seq_has_key(self.spec_entries(), key@) {
                let i = choose|i: int|
                    0 <= i < self.spec_entries().len() && self.spec_entries()[i].0@ == key@;
                assert(self.spec_entries()[i].0@.0 == self.spec_node());
                assert(false);
            }
        }
        let r = self.insert_with_key(&key, val);
        self.counter = self.counter + 1;
        r
    }

    /// A read-only snapshot of every value held, in insertion order.
    pub fn values(&self) -> (r: Vec<T>)
        ensures
            r@ == self.spec_values(),
    {
        let n = self.entries.len();
        let mut r: Vec<T> = Vec::new();
        let mut i: usize = 0;
        while i < n
            invariant
                n == self.spec_entries().len(),
                i <= n,
                r@.len() == i,
                forall|j: int| 0 <= j < i ==> r@[j] == self.spec_entries()[j].1,
            decreases n - i,
        {
            r.push(self.entries[i].1);
            i = i + 1;
        }
        proof {
            assert(r@ =~= self.spec_values());
        }
        r
    }

    /// Merges entries from a remote source: each key is inserted only if
    /// absent, so replaying or reordering gossip cannot change what a key
    /// holds.
    pub fn merge(&mut self, seen: &Vec<(LogKey, T)>)
        requires
            old(self).wf(),
        ensures
            final(self).wf(),
            final(self).spec_node() == old(self).spec_node(),
            final(self).spec_counter() == old(self).spec_counter(),
            final(self)@ == merge_map(old(self)@, seen@),
            old(self).fresh_local_keys() && (forall|i: int|
                0 <= i < seen@.len() ==> (#[trigger] seen@[i].0@.0 == old(self).spec_node()
                    ==> seen@[i].0@.1 < old(self).spec_counter()))
                ==> final(self).fresh_local_keys(),
    {
        let ghost m0 = old(self)@;
        let ghost keep_fresh = old(self).fresh_local_keys() && (forall|i: int|
            0 <= i < seen@.len() ==> (#[trigger] seen@[i].0@.0 == old(self).spec_node()
                ==> seen@[i].0@.1 < old(self).spec_counter()));
        let n = seen.len();
        let mut i: usize = 0;
        while i < n
            invariant
                n == seen@.len(),
                i <= n,
                self.wf(),
                self.spec_node() == old(self).spec_node(),
                self.spec_counter() == old(self).spec_counter(),
                self@ == merge_map(m0, seen@.take(i as int)),
                keep_fresh ==> self.fresh_local_keys(),
                keep_fresh == (old(self).fresh_local_keys() && (forall|j: int|
                    0 <= j < seen@.len() ==> (#[trigger] seen@[j].0@.0 == old(
                        self,
                    ).spec_node() ==> seen@[j].0@.1 < old(self).spec_counter()))),
            decreases n - i,
        {
            proof {
                lemma_merge_map_take_step(m0, seen@, i as int);
            }
            let _ = self.insert_with_key(&seen[i].0, &seen[i].1);
            i = i + 1;
        }
        proof {
            assert(seen@.take(n as int) =~= seen@);
        }
    }
}

/// The map after merging the entry sequence `seen` into `m`, inserting
/// each entry in order only where its key is absent.
pub open spec fn merge_map<T>(m: Map<(Seq<char>, int), T>, seen: Seq<(LogKey, T)>) -> Map<
    (Seq<char>, int),
    T,
>
    decreases seen.len(),
{
    if seen.len() == 0 {
        m
    } else {
        let rest = merge_map(m, seen.drop_last());
        if rest.contains_key(seen.last().0@) {
            rest
        } else {
            rest.insert(seen.last().0@, seen.last().1)
        }
    }
}

/// One step of `merge_map` along a growing prefix.
pub proof fn lemma_merge_map_take_step<T>(m: Map<(Seq<char>, int), T>, seen: Seq<(LogKey, T)>, i: int)
    requires
        0 <= i < seen.len(),
    ensures
        merge_map(m, seen.take(i + 1)) == (if merge_map(m, seen.take(i)).contains_key(
            seen[i].0@,
        ) {
            merge_map(m, seen.take(i))
        } else {
            merge_map(m, seen.take(i)).insert(seen[i].0@, seen[i].1)
        }),
{
    assert(seen.take(i + 1).drop_last() =~= seen.take(i));
    assert(seen.take(i + 1).last() == seen[i]);
}

/// The value carried by the earliest entry of `s` whose key is `k`.
pub open spec fn seq_first_value<T>(s: Seq<(LogKey, T)>, k: (Seq<char>, int)) -> T
    recommends
        seq_has_key(s, k),
    decreases s.len(),
{
    if s.len() == 0 {
        arbitrary()
    } else if seq_has_key(s.drop_last(), k) {
        seq_first_value(s.drop_last(), k)
    } else {
        s.last().1
    }
}

/// A concatenation carries a key exactly when one of its parts does.
pub proof fn lemma_has_key_concat<T>(
    x: Seq<(LogKey, T)>,
    y: Seq<(LogKey, T)>,
    k: (Seq<char>, int),
)
    ensures
        seq_has_key(x + y, k) <==> (seq_has_key(x, k) || seq_has_key(y, k)),
{
    if seq_has_key(x + y, k) {
        let i = choose|i: int| 0 <= i < (x + y).len() && (x + y)[i].0@ == k;
        if i < x.len() {
            assert(x[i].0@ == k);
        } else {
            assert(y[i - x.len()].0@ == k);
        }
    }
    if seq_has_key(x, k) {
        let i = choose|i: int| 0 <= i < x.len() && x[i].0@ == k;
        assert((x + y)[i].0@ == k);
    }
    if seq_has_key(y, k) {
        let i = choose|i: int| 0 <= i < y.len() && y[i].0@ == k;
        assert((x + y)[x.len() + i].0@ == k);
    }
}

/// A key missing from the prefix but present in `s` is carried by the
/// last entry.
proof fn lemma_key_only_last<T>(s: Seq<(LogKey, T)>, k: (Seq<char>, int))
    requires
        s.len() > 0,
        seq_has_key(s, k),
        !seq_has_key(s.drop_last(), k),
    ensures
        s.last().0@ == k,
{
    let i = choose|i: int| 0 <= i < s.len() && s[i].0@ == k;
    if i < s.len() - 1 {
        assert(s.drop_last()[i].0@ == k);
    }
}

/// `merge_map` holds a key exactly when the base map held it or some
/// merged entry carries it.
pub proof fn lemma_merge_map_contains<T>(
    m: Map<(Seq<char>, int), T>,
    seen: Seq<(LogKey, T)>,
    k: (Seq<char>, int),
)
    ensures
        merge_map(m, seen).contains_key(k) <==> (m.contains_key(k) || seq_has_key(seen, k)),
    decreases seen.len(),
{
    if seen.len() > 0 {
        lemma_merge_map_contains(m, seen.drop_last(), k);
        if seq_has_key(seen.drop_last(), k) {
            let i = choose|i: int|
                0 <= i < seen.drop_last().len() && seen.drop_last()[i].0@ == k;
            assert(seen[i].0@ == k);
        } else if seen.last().0@ == k {
            assert(seen[seen.len() - 1].0@ == k);
        } else if seq_has_key(seen, k) {
            lemma_key_only_last(seen, k);
        }
    }
}

/// A key the base map already holds keeps its value through any merge:
/// merges never overwrite.
pub proof fn lemma_merge_map_base_wins<T>(
    m: Map<(Seq<char>, int), T>,
    seen: Seq<(LogKey, T)>,
    k: (Seq<char>, int),
)
    requires
        m.contains_key(k),
    ensures
        merge_map(m, seen).contains_key(k),
        merge_map(m, seen)[k] == m[k],
    decreases seen.len(),
{
    if seen.len() > 0 {
        lemma_merge_map_base_wins(m, seen.drop_last(), k);
    }
}

/// A merged key the base map did not hold takes the value of its earliest
/// entry.
pub proof fn lemma_merge_map_new_value<T>(
    m: Map<(Seq<char>, int), T>,
    seen: Seq<(LogKey, T)>,
    k: (Seq<char>, int),
)
    requires
        !m.contains_key(k),
        seq_has_key(seen, k),
    ensures
        merge_map(m, seen).contains_key(k),
        merge_map(m, seen)[k] == seq_first_value(seen, k),
    decreases seen.len(),
{
    if seq_has_key(seen.drop_last(), k) {
        lemma_merge_map_new_value(m, seen.drop_last(), k);
        lemma_merge_map_contains(m, seen.drop_last(), seen.last().0@);
    } else {
        lemma_key_only_last(seen, k);
        lemma_merge_map_contains(m, seen.drop_last(), k);
    }
}

/// Merging entries whose keys are all already present changes nothing.
proof fn lemma_merge_map_absorbed<T>(m: Map<(Seq<char>, int), T>, seen: Seq<(LogKey, T)>)
    requires
        forall|i: int| 0 <= i < seen.len() ==> m.contains_key(#[trigger] seen[i].0@),
    ensures
        merge_map(m, seen) == m,
    decreases seen.len(),
{
    if seen.len() > 0 {
        assert(forall|i: int|
            0 <= i < seen.drop_last().len() ==> m.contains_key(
                #[trigger] seen.drop_last()[i].0@,
            ));
        lemma_merge_map_absorbed(m, seen.drop_last());
        assert(seen[seen.len() - 1].0@ == seen.last().0@);
    }
}

/// Idempotence: merging the same gossip payload into a log twice yields
/// the same key set and values as merging it once.
pub proof fn lemma_merge_idempotent<T>(m: Map<(Seq<char>, int), T>, seen: Seq<(LogKey, T)>)
    ensures
        merge_map(merge_map(m, seen), seen) == merge_map(m, seen),
{
    let merged = merge_map(m, seen);
    assert forall|i: int| 0 <= i < seen.len() implies merged.contains_key(
        #[trigger] seen[i].0@,
    ) by {
        lemma_merge_map_contains(m, seen, seen[i].0@);
    }
    lemma_merge_map_absorbed(merged, seen);
}

/// Commutativity: applying two merges with disjoint key sets in either
/// order yields an identical final log.
pub proof fn lemma_merge_commutes<T>(
    m: Map<(Seq<char>, int), T>,
    a: Seq<(LogKey, T)>,
    b: Seq<(LogKey, T)>,
)
    requires
        forall|k: (Seq<char>, int)|
            #![trigger seq_has_key(a, k)]
            #![trigger seq_has_key(b, k)]
            !(seq_has_key(a, k) && seq_has_key(b, k)),
    ensures
        merge_map(merge_map(m, a), b) == merge_map(merge_map(m, b), a),
{
    let left = merge_map(merge_map(m, a), b);
    let right = merge_map(merge_map(m, b), a);
    assert forall|k: (Seq<char>, int)| #[trigger]
        left.contains_key(k) == right.contains_key(k) by {
        lemma_merge_map_contains(m, a, k);
        lemma_merge_map_contains(merge_map(m, a), b, k);
        lemma_merge_map_contains(m, b, k);
        lemma_merge_map_contains(merge_map(m, b), a, k);
    }
    assert forall|k: (Seq<char>, int)| left.contains_key(k) implies #[trigger] left[k]
        == right[k] by {
        lemma_merge_map_contains(m, a, k);
        lemma_merge_map_contains(m, b, k);
        lemma_merge_map_contains(merge_map(m, a), b, k);
        lemma_merge_map_contains(merge_map(m, b), a, k);
        if m.contains_key(k) {
            lemma_merge_map_base_wins(m, a, k);
            lemma_merge_map_base_wins(merge_map(m, a), b, k);
            lemma_merge_map_base_wins(m, b, k);
            lemma_merge_map_base_wins(merge_map(m, b), a, k);
        } else if seq_has_key(a, k) {
            lemma_merge_map_new_value(m, a, k);
            lemma_merge_map_base_wins(merge_map(m, a), b, k);
            lemma_merge_map_contains(m, b, k);
            lemma_merge_map_new_value(merge_map(m, b), a, k);
        } else {
            lemma_merge_map_new_value(m, b, k);
            lemma_merge_map_base_wins(merge_map(m, b), a, k);
            lemma_merge_map_contains(m, a, k);
            lemma_merge_map_new_value(merge_map(m, a), b, k);
        }
    }
    assert(left =~= right);
}

/// The map after one node performs the local inserts of `vals` in order,
/// its counter starting at `c0`: exactly the iteration of `insert`.
pub open spec fn local_inserts<T>(
    m: Map<(Seq<char>, int), T>,
    node: Seq<char>,
    c0: int,
    vals: Seq<T>,
) -> Map<(Seq<char>, int), T>
    decreases vals.len(),
{
    if vals.len() == 0 {
        m
    } else {
        local_inserts(m, node, c0, vals.drop_last()).insert(
            (node, c0 + vals.len() - 1),
            vals.last(),
        )
    }
}

/// Uniqueness: a sequence of `n` local inserts on one node adds exactly
/// `n` distinct keys, increasing one by one with the node's counter, and
/// each holds the value that was inserted under it.
pub proof fn lemma_local_inserts_unique<T>(
    m: Map<(Seq<char>, int), T>,
    node: Seq<char>,
    c0: int,
    vals: Seq<T>,
)
    requires
        m.dom().finite(),
        forall|k: (Seq<char>, int)| #[trigger] m.contains_key(k) ==> (k.0 == node ==> k.1 < c0),
    ensures
        local_inserts(m, node, c0, vals).dom().finite(),
        local_inserts(m, node, c0, vals).dom().len() == m.dom().len() + vals.len(),
        forall|k: (Seq<char>, int)| #[trigger] local_inserts(m, node, c0, vals).contains_key(k)
            <==> (m.contains_key(k) || (k.0 == node && c0 <= k.1 < c0 + vals.len())),
        forall|i: int|
            0 <= i < vals.len() ==> local_inserts(m, node, c0, vals)[(node, c0 + i)]
                == #[trigger] vals[i],
    decreases vals.len(),
{
    broadcast use vstd::set::group_set_axioms;

    if vals.len() > 0 {
        lemma_local_inserts_unique(m, node, c0, vals.drop_last());
        let prefix = local_inserts(m, node, c0, vals.drop_last());
        let key = (node, c0 + vals.len() - 1);
        assert(!prefix.contains_key(key));
        assert forall|i: int| 0 <= i < vals.len() implies local_inserts(m, node, c0, vals)[
            (node, c0 + i)
        ] == #[trigger] vals[i] by {
            if i < vals.len() - 1 {
                assert(vals.drop_last()[i] == vals[i]);
            }
        }
    }
}

impl<T> Initable for Log<T> {
    /// An empty log owned by the node the handshake named.
    fn with_init(init: Init) -> Self {
        Log { node: init.node_id, counter: 0, entries: Vec::new() }
    }
}

} // verus!
