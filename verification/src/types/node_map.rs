//! A map keyed by server identifier that is walked in ascending order of identifier.
//!
//! Replication state, vote sets, and memberships are all keyed by `NodeId`. Keeping them sorted
//! makes the order in which a node talks to its peers a function of its state, so that a run can
//! be reproduced exactly.
use vstd::prelude::*;

use super::primitives::NodeId;

verus! {

/// Whether the identifiers strictly increase.
pub open spec fn strictly_ascending(ids: Seq<NodeId>) -> bool {
    forall|i: int, j: int| 0 <= i < j < ids.len() ==> ids[i].value < ids[j].value
}

/// The identifiers of a finite set in ascending order.
pub open spec fn in_order(ids: Set<NodeId>) -> Seq<NodeId> {
    choose|s: Seq<NodeId>| #[trigger] strictly_ascending(s) && s.to_set() == ids
}

/// Two strictly ascending sequences with the same elements are the same sequence.
proof fn lemma_ascending_unique(a: Seq<NodeId>, b: Seq<NodeId>)
    requires
        strictly_ascending(a),
        strictly_ascending(b),
        a.to_set() == b.to_set(),
    ensures
        a == b,
    decreases a.len(),
{
    if a.len() == 0 {
        if b.len() > 0 {
            assert(b.to_set().contains(b[0]));
            assert(a.to_set().contains(b[0]));
        }
        assert(a =~= b);
    } else {
        let x = a.last();
        assert(a.to_set().contains(x));
        assert(b.to_set().contains(x));
        let y = b.last();
        assert(b.to_set().contains(y));
        assert(a.to_set().contains(y));
        assert(x == y);
        let a2 = a.drop_last();
        let b2 = b.drop_last();
        assert forall|z: NodeId| a2.to_set().contains(z) <==> b2.to_set().contains(z) by {
            if a2.contains(z) {
                let i = choose|i: int| 0 <= i < a2.len() && a2[i] == z;
                assert(a[i] == z && z != x);
                assert(a.to_set().contains(z));
                assert(b.to_set().contains(z));
                let j = choose|j: int| 0 <= j < b.len() && b[j] == z;
                assert(b2[j] == z);
            }
            if b2.contains(z) {
                let i = choose|i: int| 0 <= i < b2.len() && b2[i] == z;
                assert(b[i] == z && z != y);
                assert(b.to_set().contains(z));
                assert(a.to_set().contains(z));
                let j = choose|j: int| 0 <= j < a.len() && a[j] == z;
                assert(a2[j] == z);
            }
        }
        assert(a2.to_set() =~= b2.to_set());
        lemma_ascending_unique(a2, b2);
        assert(a =~= a2.push(x));
        assert(b =~= b2.push(y));
    }
}

/// A strictly ascending sequence is the ordering of the set of its elements.
pub proof fn lemma_in_order_of_ascending(s: Seq<NodeId>)
    requires
        strictly_ascending(s),
    ensures
        in_order(s.to_set()) == s,
        s.to_set().finite(),
        s.to_set().len() == s.len(),
        s.no_duplicates(),
{
    let t = in_order(s.to_set());
    assert(strictly_ascending(s) && s.to_set() == s.to_set());
    lemma_ascending_unique(t, s);
    s.unique_seq_to_set();
}

/// Every finite set of identifiers has an ascending ordering.
pub proof fn lemma_in_order(ids: Set<NodeId>)
    requires
        ids.finite(),
    ensures
        strictly_ascending(in_order(ids)),
        in_order(ids).to_set() == ids,
        in_order(ids).len() == ids.len(),
    decreases ids.len(),
{
    let s = lemma_ordering_exists(ids);
    lemma_in_order_of_ascending(s);
}

proof fn lemma_ordering_exists(ids: Set<NodeId>) -> (s: Seq<NodeId>)
    requires
        ids.finite(),
    ensures
        strictly_ascending(s),
        s.to_set() == ids,
    decreases ids.len(),
{
    if ids.len() == 0 {
        let s = Seq::<NodeId>::empty();
        assert(s.to_set() =~= ids);
        s
    } else {
        let x = lemma_greatest(ids);
        let s = lemma_ordering_exists(ids.remove(x));
        let t = s.push(x);
        assert forall|i: int, j: int| 0 <= i < j < t.len() implies t[i].value < t[j].value by {
            if j == s.len() {
                assert(s.to_set().contains(s[i]));
            }
        }
        assert forall|z: NodeId| t.to_set().contains(z) <==> ids.contains(z) by {
            if t.contains(z) {
                let i = choose|i: int| 0 <= i < t.len() && t[i] == z;
                if i < s.len() {
                    assert(s.to_set().contains(s[i]));
                }
            }
            if ids.contains(z) {
                if z == x {
                    assert(t[s.len() as int] == z);
                } else {
                    assert(s.to_set().contains(z));
                    let i = choose|i: int| 0 <= i < s.len() && s[i] == z;
                    assert(t[i] == z);
                }
            }
        }
        assert(t.to_set() =~= ids);
        t
    }
}

proof fn lemma_greatest(ids: Set<NodeId>) -> (x: NodeId)
    requires
        ids.finite(),
        ids.len() > 0,
    ensures
        ids.contains(x),
        forall|y: NodeId| #[trigger] ids.contains(y) && y != x ==> y.value < x.value,
    decreases ids.len(),
{
    let a = ids.choose();
    if ids.len() == 1 {
        assert(ids.remove(a).len() == 0);
        assert(ids.remove(a) =~= Set::empty());
        assert forall|y: NodeId| #[trigger] ids.contains(y) && y != a implies y.value < a.value by {
            assert(ids.remove(a).contains(y));
        }
        a
    } else {
        let b = lemma_greatest(ids.remove(a));
        let x = if a.value > b.value {
            a
        } else {
            b
        };
        assert forall|y: NodeId| #[trigger] ids.contains(y) && y != x implies y.value < x.value by {
            if y != a {
                assert(ids.remove(a).contains(y));
            }
        }
        x
    }
}

/// A prefix of a list of identifiers with one more element has that element more.
pub proof fn lemma_take_one_more(ids: Seq<NodeId>, i: int)
    requires
        0 <= i < ids.len(),
    ensures
        ids.take(i + 1).to_set() == ids.take(i).to_set().insert(ids[i]),
{
    let more = ids.take(i + 1);
    let head = ids.take(i);
    assert forall|id: NodeId| more.to_set().contains(id) <==> head.to_set().insert(
        ids[i],
    ).contains(id) by {
        if more.contains(id) {
            let k = choose|k: int| 0 <= k < more.len() && more[k] == id;
            if k < i {
                assert(head[k] == id);
            }
        }
        if head.contains(id) {
            let k = choose|k: int| 0 <= k < head.len() && head[k] == id;
            assert(more[k] == id);
        }
        assert(more[i] == ids[i]);
    }
    assert(more.to_set() =~= head.to_set().insert(ids[i]));
}

/// The keys of an association list.
pub open spec fn keys_of<V>(entries: Seq<(NodeId, V)>) -> Seq<NodeId> {
    Seq::new(entries.len(), |i: int| entries[i].0)
}

/// The map an association list with distinct keys stands for.
pub open spec fn map_of<V>(entries: Seq<(NodeId, V)>) -> Map<NodeId, V> {
    Map::new(
        |id: NodeId| keys_of(entries).contains(id),
        |id: NodeId| entries[keys_of(entries).index_of(id)].1,
    )
}

/// Values keyed by `NodeId`, held in ascending order of identifier.
#[derive(Debug, PartialEq, Eq)]
pub struct NodeMap<V> {
    entries: Vec<(NodeId, V)>,
}

impl<V> View for NodeMap<V> {
    type V = Map<NodeId, V>;

    closed spec fn view(&self) -> Map<NodeId, V> {
        map_of(self.entries@)
    }
}

proof fn lemma_map_of<V>(entries: Seq<(NodeId, V)>)
    requires
        strictly_ascending(keys_of(entries)),
    ensures
        map_of(entries).dom() == keys_of(entries).to_set(),
        map_of(entries).dom().finite(),
        map_of(entries).dom().len() == entries.len(),
        in_order(map_of(entries).dom()) == keys_of(entries),
        forall|i: int|
            0 <= i < entries.len() ==> #[trigger] map_of(entries).dom().contains(entries[i].0)
                && map_of(entries)[entries[i].0] == entries[i].1,
{
    let keys = keys_of(entries);
    lemma_in_order_of_ascending(keys);
    assert(map_of(entries).dom() =~= keys.to_set());
    assert forall|i: int| 0 <= i < entries.len() implies #[trigger] map_of(entries).dom().contains(
        entries[i].0,
    ) && map_of(entries)[entries[i].0] == entries[i].1 by {
        assert(keys[i] == entries[i].0);
        let j = keys.index_of(entries[i].0);
        assert(keys.contains(entries[i].0));
        assert(0 <= j < keys.len() && keys[j] == keys[i]);
        assert(i == j);
    }
}

impl<V> NodeMap<V> {
    #[verifier::type_invariant]
    spec fn inv(self) -> bool {
        strictly_ascending(keys_of(self.entries@))
    }
}

impl<V: Copy> NodeMap<V> {
    /// A map without entries.
    pub fn new() -> (map: Self)
        ensures
            map@ == Map::<NodeId, V>::empty(),
    {
        let map = NodeMap { entries: Vec::new() };
        proof {
            assert(map@ =~= Map::<NodeId, V>::empty());
        }
        map
    }

    /// The position of `id`, or the position at which it would have to be inserted.
    fn position(&self, id: NodeId) -> (pos: usize)
        ensures
            pos <= self.entries.len(),
            forall|i: int| 0 <= i < pos ==> self.entries[i].0.value < id.value,
            forall|i: int| pos <= i < self.entries.len() ==> id.value <= self.entries[i].0.value,
            self@.dom().contains(id) <==> pos < self.entries.len() && self.entries[pos as int].0
                == id,
    {
        proof {
            use_type_invariant(self);
            lemma_map_of(self.entries@);
        }
        let ghost keys = keys_of(self.entries@);
        let mut pos: usize = 0;
        while pos < self.entries.len() && self.entries[pos].0.value < id.value
            invariant
                pos <= self.entries.len(),
                forall|i: int| 0 <= i < pos ==> self.entries[i].0.value < id.value,
            decreases self.entries.len() - pos,
        {
            pos = pos + 1;
        }
        proof {
            assert(forall|i: int| 0 <= i < keys.len() ==> #[trigger] keys[i] == self.entries[i].0);
            assert forall|i: int| pos <= i < self.entries.len() implies id.value
                <= self.entries[i].0.value by {
                assert(keys[i] == self.entries[i].0 && keys[pos as int]
                    == self.entries[pos as int].0);
            }
            if self@.dom().contains(id) {
                let i = choose|i: int| 0 <= i < keys.len() && keys[i] == id;
                assert(self.entries[i].0 == id);
                assert(i == pos) by {
                    if i > pos {
                        assert(keys[pos as int].value < keys[i].value);
                    }
                }
            }
        }
        pos
    }

    /// Whether `id` has a value.
    pub fn contains(&self, id: NodeId) -> (found: bool)
        ensures
            found == self@.dom().contains(id),
    {
        let pos = self.position(id);
        pos < self.entries.len() && self.entries[pos].0.value == id.value
    }

    /// The value of `id`.
    pub fn get(&self, id: NodeId) -> (value: Option<V>)
        ensures
            value is Some <==> self@.dom().contains(id),
            value matches Some(v) ==> v == self@[id],
    {
        let pos = self.position(id);
        if pos < self.entries.len() && self.entries[pos].0.value == id.value {
            proof {
                use_type_invariant(self);
                lemma_map_of(self.entries@);
                assert(map_of(self.entries@).dom().contains(self.entries@[pos as int].0));
            }
            Some(self.entries[pos].1)
        } else {
            None
        }
    }

    /// Number of keys.
    pub fn len(&self) -> (len: usize)
        ensures
            self@.dom().finite(),
            len == self@.dom().len(),
    {
        proof {
            use_type_invariant(self);
            lemma_map_of(self.entries@);
        }
        self.entries.len()
    }

    /// The keys in ascending order.
    pub fn keys(&self) -> (keys: Vec<NodeId>)
        ensures
            self@.dom().finite(),
            keys@ == in_order(self@.dom()),
            strictly_ascending(keys@),
            keys@.to_set() == self@.dom(),
    {
        proof {
            use_type_invariant(self);
            lemma_map_of(self.entries@);
        }
        let mut keys: Vec<NodeId> = Vec::new();
        let mut i: usize = 0;
        while i < self.entries.len()
            invariant
                i <= self.entries.len(),
                keys.len() == i,
                forall|k: int| 0 <= k < i ==> keys[k] == self.entries[k].0,
            decreases self.entries.len() - i,
        {
            keys.push(self.entries[i].0);
            i = i + 1;
        }
        assert(keys@ =~= keys_of(self.entries@));
        keys
    }

    /// The keys with their values, in ascending order of key.
    pub fn pairs(&self) -> (pairs: Vec<(NodeId, V)>)
        ensures
            self@.dom().finite(),
            pairs.len() == self@.dom().len(),
            forall|i: int|
                0 <= i < pairs.len() ==> (#[trigger] pairs[i]).0 == in_order(self@.dom())[i]
                    && pairs[i].1 == self@[pairs[i].0],
    {
        proof {
            use_type_invariant(self);
            lemma_map_of(self.entries@);
        }
        let mut pairs: Vec<(NodeId, V)> = Vec::new();
        let mut i: usize = 0;
        while i < self.entries.len()
            invariant
                i <= self.entries.len(),
                pairs.len() == i,
                forall|k: int| 0 <= k < i ==> pairs[k] == self.entries[k],
            decreases self.entries.len() - i,
        {
            pairs.push(self.entries[i]);
            i = i + 1;
        }
        proof {
            assert forall|k: int| 0 <= k < pairs.len() implies (#[trigger] pairs[k]).0 == in_order(
                self@.dom(),
            )[k] && pairs[k].1 == self@[pairs[k].0] by {
                assert(map_of(self.entries@).dom().contains(self.entries@[k].0));
            }
        }
        pairs
    }

    /// The value of every key, in ascending order of key.
    pub fn values(&self) -> (values: Vec<V>)
        ensures
            self@.dom().finite(),
            values@ == in_order(self@.dom()).map_values(|id: NodeId| self@[id]),
    {
        let pairs = self.pairs();
        proof {
            lemma_in_order(self@.dom());
        }
        let mut values: Vec<V> = Vec::new();
        let mut i: usize = 0;
        while i < pairs.len()
            invariant
                i <= pairs.len(),
                values.len() == i,
                forall|k: int| 0 <= k < i ==> values[k] == pairs[k].1,
            decreases pairs.len() - i,
        {
            values.push(pairs[i].1);
            i = i + 1;
        }
        assert(values@ =~= in_order(self@.dom()).map_values(|id: NodeId| self@[id]));
        values
    }

    /// Gives `id` the value `value`, replacing any value it had.
    pub fn insert(&mut self, id: NodeId, value: V)
        ensures
            final(self)@ == old(self)@.insert(id, value),
    {
        let pos = self.position(id);
        let present = pos < self.entries.len() && self.entries[pos].0.value == id.value;
        let ghost before = self.entries@;
        let ghost old_map = self@;
        proof {
            use_type_invariant(&*self);
            lemma_map_of(before);
        }
        let mut entries: Vec<(NodeId, V)> = Vec::new();
        let mut i: usize = 0;
        while i < pos
            invariant
                i <= pos <= self.entries.len(),
                entries.len() == i,
                forall|k: int| 0 <= k < i ==> entries[k] == self.entries[k],
            decreases pos - i,
        {
            entries.push(self.entries[i]);
            i = i + 1;
        }
        entries.push((id, value));
        let skip: usize = if present {
            1
        } else {
            0
        };
        let mut j: usize = pos + skip;
        while j < self.entries.len()
            invariant
                pos + skip <= j <= self.entries.len(),
                entries.len() == j + 1 - skip,
                forall|k: int| 0 <= k < pos ==> entries[k] == self.entries[k],
                entries[pos as int] == (id, value),
                forall|k: int|
                    pos + 1 <= k < entries.len() ==> entries[k] == self.entries[k + skip - 1],
            decreases self.entries.len() - j,
        {
            entries.push(self.entries[j]);
            j = j + 1;
        }
        proof {
            let after = entries@;
            let old_keys = keys_of(before);
            let keys = keys_of(after);
            assert(forall|k: int| 0 <= k < old_keys.len() ==> #[trigger] old_keys[k] == before[k].0);
            assert forall|a: int, b: int| 0 <= a < b < keys.len() implies keys[a].value
                < keys[b].value by {
                assert(keys[a] == after[a].0 && keys[b] == after[b].0);
                if b < pos {
                    assert(old_keys[a].value < old_keys[b].value);
                } else if a > pos {
                    assert(old_keys[a + skip - 1].value < old_keys[b + skip - 1].value);
                } else if b > pos {
                    assert(before[b + skip - 1].0.value >= id.value);
                    if present {
                        assert(old_keys[pos as int].value < old_keys[b + skip - 1].value);
                    }
                }
            }
            lemma_map_of(after);
            let new_map = map_of(after);
            let want = old_map.insert(id, value);
            assert forall|x: NodeId| new_map.dom().contains(x) <==> want.dom().contains(x) by {
                if new_map.dom().contains(x) {
                    let k = choose|k: int| 0 <= k < keys.len() && keys[k] == x;
                    assert(after[k].0 == x);
                    if k < pos {
                        assert(map_of(before).dom().contains(before[k].0));
                    } else if k > pos {
                        assert(map_of(before).dom().contains(before[k + skip - 1].0));
                    }
                }
                if want.dom().contains(x) {
                    if x == id {
                        assert(after[pos as int].0 == x);
                        assert(keys[pos as int] == x);
                    } else {
                        let k = choose|k: int| 0 <= k < old_keys.len() && old_keys[k] == x;
                        assert(before[k].0 == x);
                        if k < pos {
                            assert(keys[k] == x);
                        } else {
                            assert(keys[k + 1 - skip] == x);
                        }
                    }
                }
            }
            assert forall|x: NodeId| new_map.dom().contains(x) implies new_map[x] == want[x] by {
                let k = choose|k: int| 0 <= k < keys.len() && keys[k] == x;
                assert(after[k].0 == x);
                assert(new_map.dom().contains(after[k].0));
                if k < pos {
                    assert(map_of(before).dom().contains(before[k].0));
                    assert(x != id);
                } else if k > pos {
                    assert(map_of(before).dom().contains(before[k + skip - 1].0));
                    assert(keys[pos as int].value < keys[k].value);
                    assert(x != id);
                }
            }
            assert(new_map =~= want);
        }
        self.entries = entries;
    }

    /// Removes `id` and its value, if it has one.
    pub fn remove(&mut self, id: NodeId)
        ensures
            final(self)@ == old(self)@.remove(id),
    {
        let pos = self.position(id);
        let ghost before = self.entries@;
        let ghost old_map = self@;
        proof {
            use_type_invariant(&*self);
            lemma_map_of(before);
        }
        if !(pos < self.entries.len() && self.entries[pos].0.value == id.value) {
            assert(self@ =~= old_map.remove(id));
            return ;
        }
        let mut entries: Vec<(NodeId, V)> = Vec::new();
        let mut i: usize = 0;
        while i < self.entries.len()
            invariant
                i <= self.entries.len(),
                pos < self.entries.len(),
                entries.len() == if i <= pos {
                    i as int
                } else {
                    i - 1
                },
                forall|k: int| 0 <= k < entries.len() && k < pos ==> entries[k] == self.entries[k],
                forall|k: int| pos <= k < entries.len() ==> entries[k] == self.entries[k + 1],
            decreases self.entries.len() - i,
        {
            if i != pos {
                entries.push(self.entries[i]);
            }
            i = i + 1;
        }
        proof {
            let after = entries@;
            let old_keys = keys_of(before);
            let keys = keys_of(after);
            assert(forall|k: int| 0 <= k < old_keys.len() ==> #[trigger] old_keys[k] == before[k].0);
            assert forall|a: int, b: int| 0 <= a < b < keys.len() implies keys[a].value
                < keys[b].value by {
                assert(keys[a] == after[a].0 && keys[b] == after[b].0);
                let a2 = if a < pos {
                    a
                } else {
                    a + 1
                };
                let b2 = if b < pos {
                    b
                } else {
                    b + 1
                };
                assert(old_keys[a2].value < old_keys[b2].value);
            }
            lemma_map_of(after);
            let new_map = map_of(after);
            let want = old_map.remove(id);
            assert forall|x: NodeId| new_map.dom().contains(x) <==> want.dom().contains(x) by {
                if new_map.dom().contains(x) {
                    let k = choose|k: int| 0 <= k < keys.len() && keys[k] == x;
                    assert(after[k].0 == x);
                    if k < pos {
                        assert(map_of(before).dom().contains(before[k].0));
                    } else {
                        assert(map_of(before).dom().contains(before[k + 1].0));
                        assert(old_keys[pos as int].value < old_keys[k + 1].value);
                    }
                }
                if want.dom().contains(x) {
                    let k = choose|k: int| 0 <= k < old_keys.len() && old_keys[k] == x;
                    assert(before[k].0 == x);
                    if k < pos {
                        assert(keys[k] == x);
                    } else {
                        assert(keys[k - 1] == x);
                    }
                }
            }
            assert forall|x: NodeId| new_map.dom().contains(x) implies new_map[x] == want[x] by {
                let k = choose|k: int| 0 <= k < keys.len() && keys[k] == x;
                assert(after[k].0 == x);
                assert(new_map.dom().contains(after[k].0));
                if k < pos {
                    assert(map_of(before).dom().contains(before[k].0));
                } else {
                    assert(map_of(before).dom().contains(before[k + 1].0));
                }
            }
            assert(new_map =~= want);
        }
        self.entries = entries;
    }

    /// A copy of this map.
    pub fn duplicate(&self) -> (copy: Self)
        ensures
            copy@ == self@,
    {
        let entries = self.pairs_in_place();
        proof {
            use_type_invariant(self);
        }
        NodeMap { entries }
    }

    fn pairs_in_place(&self) -> (pairs: Vec<(NodeId, V)>)
        ensures
            pairs@ == self.entries@,
    {
        let mut pairs: Vec<(NodeId, V)> = Vec::new();
        let mut i: usize = 0;
        while i < self.entries.len()
            invariant
                i <= self.entries.len(),
                pairs.len() == i,
                forall|k: int| 0 <= k < i ==> pairs[k] == self.entries[k],
            decreases self.entries.len() - i,
        {
            pairs.push(self.entries[i]);
            i = i + 1;
        }
        assert(pairs@ =~= self.entries@);
        pairs
    }
}

/// The ordering of a finite set lists exactly its elements, each once, from the lowest to the highest.
pub proof fn law_order_lists_each_once(ids: Set<NodeId>, id: NodeId)
    requires
        ids.finite(),
    ensures
        in_order(ids).len() == ids.len(),
        in_order(ids).contains(id) <==> ids.contains(id),
        forall|i: int, j: int|
            0 <= i < j < in_order(ids).len() ==> (#[trigger] in_order(ids)[i]).value < (
            #[trigger] in_order(ids)[j]).value,
{
    lemma_in_order(ids);
    assert(in_order(ids).to_set().contains(id) <==> in_order(ids).contains(id));
}

} // verus!
