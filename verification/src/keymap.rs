//! A map keyed by sequences of candidate ids, kept sorted in lexicographic
//! key order so that lookups use binary search and a walk over the entries
//! visits the keys in order.
use vstd::prelude::*;

verus! {

/// Strict lexicographic order on id sequences (a proper prefix comes first).
pub open spec fn lex_lt(a: Seq<u16>, b: Seq<u16>) -> bool
    decreases a.len(),
{
    if a.len() == 0 {
        b.len() > 0
    } else if b.len() == 0 {
        false
    } else if a[0] != b[0] {
        a[0] < b[0]
    } else {
        lex_lt(a.drop_first(), b.drop_first())
    }
}

pub proof fn lemma_lex_irreflexive(a: Seq<u16>)
    ensures
        !lex_lt(a, a),
    decreases a.len(),
{
    if a.len() > 0 {
        lemma_lex_irreflexive(a.drop_first());
    }
}

pub proof fn lemma_lex_transitive(a: Seq<u16>, b: Seq<u16>, c: Seq<u16>)
    requires
        lex_lt(a, b),
        lex_lt(b, c),
    ensures
        lex_lt(a, c),
    decreases a.len(),
{
    if a.len() > 0 && b.len() > 0 && c.len() > 0 && a[0] == b[0] && b[0] == c[0] {
        lemma_lex_transitive(a.drop_first(), b.drop_first(), c.drop_first());
    }
}

pub proof fn lemma_lex_total(a: Seq<u16>, b: Seq<u16>)
    ensures
        a == b || lex_lt(a, b) || lex_lt(b, a),
    decreases a.len(),
{
    if a.len() == 0 {
        if b.len() == 0 {
            assert(a =~= b);
        }
    } else if b.len() > 0 && a[0] == b[0] {
        lemma_lex_total(a.drop_first(), b.drop_first());
        if a.drop_first() == b.drop_first() {
            assert(a =~= seq![a[0]] + a.drop_first());
            assert(b =~= seq![b[0]] + b.drop_first());
        }
    }
}

pub proof fn lemma_lex_asymmetric(a: Seq<u16>, b: Seq<u16>)
    requires
        lex_lt(a, b),
    ensures
        !lex_lt(b, a),
{
    if lex_lt(b, a) {
        lemma_lex_transitive(a, b, a);
        lemma_lex_irreflexive(a);
    }
}

/// Outcome of comparing two keys.
#[derive(Clone, Copy, PartialEq, Eq, Structural)]
pub enum KeyOrder {
    Less,
    Equal,
    Greater,
}

/// Lexicographic comparison of two id sequences.
pub fn compare_keys(a: &[u16], b: &[u16]) -> (r: KeyOrder)
    ensures
        r == KeyOrder::Less <==> lex_lt(a@, b@),
        r == KeyOrder::Equal <==> a@ == b@,
        r == KeyOrder::Greater <==> lex_lt(b@, a@),
{
    let mut i: usize = 0;
    assert(a@.skip(0) =~= a@);
    assert(b@.skip(0) =~= b@);
    while i < a.len() && i < b.len()
        invariant
            i <= a.len(),
            i <= b.len(),
            a@.take(i as int) == b@.take(i as int),
            lex_lt(a@, b@) == lex_lt(a@.skip(i as int), b@.skip(i as int)),
            lex_lt(b@, a@) == lex_lt(b@.skip(i as int), a@.skip(i as int)),
        decreases a.len() - i,
    {
        assert(a@.skip(i as int)[0] == a@[i as int]);
        assert(b@.skip(i as int)[0] == b@[i as int]);
        if a[i] < b[i] {
            proof {
                lemma_lex_asymmetric(a@, b@);
                if a@ == b@ {
                    lemma_lex_irreflexive(a@);
                }
            }
            return KeyOrder::Less;
        }
        if a[i] > b[i] {
            proof {
                lemma_lex_asymmetric(b@, a@);
                if a@ == b@ {
                    lemma_lex_irreflexive(a@);
                }
            }
            return KeyOrder::Greater;
        }
        assert(a@.skip(i as int).drop_first() =~= a@.skip(i + 1));
        assert(b@.skip(i as int).drop_first() =~= b@.skip(i + 1));
        assert(a@.take(i + 1) =~= a@.take(i as int).push(a@[i as int]));
        assert(b@.take(i + 1) =~= b@.take(i as int).push(b@[i as int]));
        i += 1;
    }
    if a.len() == b.len() {
        assert(a@ =~= a@.take(i as int));
        assert(b@ =~= b@.take(i as int));
        proof {
            lemma_lex_irreflexive(a@);
        }
        KeyOrder::Equal
    } else if a.len() < b.len() {
        assert(a@.skip(i as int).len() == 0);
        proof {
            lemma_lex_asymmetric(a@, b@);
        }
        KeyOrder::Less
    } else {
        assert(b@.skip(i as int).len() == 0);
        proof {
            lemma_lex_asymmetric(b@, a@);
        }
        KeyOrder::Greater
    }
}

/// The map that a list of entries with distinct keys describes.
pub closed spec fn entries_map<V>(es: Seq<(Vec<u16>, V)>) -> Map<Seq<u16>, V> {
    Map::new(
        |k: Seq<u16>| exists|i: int| 0 <= i < es.len() && #[trigger] es[i].0@ == k,
        |k: Seq<u16>| es[index_of(es, k)].1,
    )
}

/// A position of `es` that holds key `k`, if there is one.
pub closed spec fn index_of<V>(es: Seq<(Vec<u16>, V)>, k: Seq<u16>) -> int {
    choose|i: int| 0 <= i < es.len() && #[trigger] es[i].0@ == k
}

/// Sorted association list from id sequences to values.
pub struct KeyMap<V> {
    entries: Vec<(Vec<u16>, V)>,
}

impl<V> KeyMap<V> {
    /// The keys, in storage order.
    pub closed spec fn key_seq(&self) -> Seq<Seq<u16>> {
        Seq::new(self.entries@.len(), |i: int| self.entries@[i].0@)
    }

    /// The values, in storage order.
    pub closed spec fn value_seq(&self) -> Seq<V> {
        Seq::new(self.entries@.len(), |i: int| self.entries@[i].1)
    }

    /// Keys are stored in strictly increasing lexicographic order.
    pub closed spec fn wf(&self) -> bool {
        forall|i: int, j: int|
            0 <= i < j < self.entries@.len() ==> lex_lt(
                #[trigger] self.entries@[i].0@,
                #[trigger] self.entries@[j].0@,
            )
    }

    /// The mapping from keys to values.
    pub closed spec fn view(&self) -> Map<Seq<u16>, V> {
        entries_map(self.entries@)
    }

    proof fn lemma_view_at(&self, i: int)
        requires
            self.wf(),
            0 <= i < self.entries@.len(),
        ensures
            self.view().contains_key(self.entries@[i].0@),
            self.view()[self.entries@[i].0@] == self.entries@[i].1,
    {
        let k = self.entries@[i].0@;
        assert(self.view().contains_key(k));
        let es = self.entries@;
        let j = index_of(es, k);
        assert(self.view()[k] == es[j].1);
        if j != i {
            if j < i {
                assert(lex_lt(self.entries@[j].0@, self.entries@[i].0@));
            } else {
                assert(lex_lt(self.entries@[i].0@, self.entries@[j].0@));
            }
            lemma_lex_irreflexive(k);
        }
    }

    /// Stored keys are exactly the keys of the view, and the sequences of keys
    /// and values line up with it.
    pub proof fn lemma_entries(&self)
        requires
            self.wf(),
        ensures
            self.key_seq().len() == self.value_seq().len(),
            forall|i: int| 0 <= i < self.key_seq().len() ==> self.view().contains_key(#[trigger] self.key_seq()[i])
                && self.view()[self.key_seq()[i]] == self.value_seq()[i],
            forall|k: Seq<u16>| #[trigger] self.view().contains_key(k) ==> self.key_seq().contains(k),
            forall|i: int, j: int| 0 <= i < j < self.key_seq().len() ==> lex_lt(#[trigger] self.key_seq()[i], #[trigger] self.key_seq()[j]),
    {
        assert forall|i: int| 0 <= i < self.key_seq().len() implies self.view().contains_key(#[trigger] self.key_seq()[i])
            && self.view()[self.key_seq()[i]] == self.value_seq()[i] by {
            self.lemma_view_at(i);
        }
        assert forall|k: Seq<u16>| #[trigger] self.view().contains_key(k) implies self.key_seq().contains(k) by {
            let i = choose|i: int| 0 <= i < self.entries@.len() && #[trigger] self.entries@[i].0@ == k;
            assert(self.key_seq()[i] == k);
        }
        assert forall|i: int, j: int| 0 <= i < j < self.key_seq().len() implies lex_lt(#[trigger] self.key_seq()[i], #[trigger] self.key_seq()[j]) by {
            assert(lex_lt(self.entries@[i].0@, self.entries@[j].0@));
        }
    }

    pub fn new() -> (m: Self)
        ensures
            m.wf(),
            m.view() == Map::<Seq<u16>, V>::empty(),
            m.key_seq().len() == 0,
    {
        let m = KeyMap { entries: Vec::new() };
        assert(m.view() =~= Map::<Seq<u16>, V>::empty());
        m
    }

    pub fn len(&self) -> (n: usize)
        requires
            self.wf(),
        ensures
            n == self.view().dom().len(),
            n == self.key_seq().len(),
    {
        proof {
            self.lemma_dom_len();
        }
        self.entries.len()
    }

    proof fn lemma_dom_len(&self)
        requires
            self.wf(),
        ensures
            self.view().dom().len() == self.entries@.len(),
            self.view().dom().finite(),
    {
        let ks = self.key_seq();
        assert forall|i: int, j: int| 0 <= i < j < ks.len() implies ks[i] != ks[j] by {
            assert(lex_lt(self.entries@[i].0@, self.entries@[j].0@));
            lemma_lex_irreflexive(ks[i]);
        }
        assert(ks.no_duplicates());
        assert(self.view().dom() =~= ks.to_set()) by {
            assert forall|k: Seq<u16>| self.view().dom().contains(k) <==> ks.to_set().contains(k) by {
                if self.view().dom().contains(k) {
                    let i = choose|i: int| 0 <= i < self.entries@.len() && #[trigger] self.entries@[i].0@ == k;
                    assert(ks[i] == k);
                }
                if ks.to_set().contains(k) {
                    let i = choose|i: int| 0 <= i < ks.len() && ks[i] == k;
                    assert(self.entries@[i].0@ == k);
                }
            }
        }
        ks.unique_seq_to_set();
    }

    /// Index of the first stored key that is not below `key`.
    fn lower_bound(&self, key: &[u16]) -> (j: usize)
        requires
            self.wf(),
        ensures
            j <= self.entries@.len(),
            forall|i: int| 0 <= i < j ==> lex_lt(#[trigger] self.entries@[i].0@, key@),
            forall|i: int| j <= i < self.entries@.len() ==> !lex_lt(#[trigger] self.entries@[i].0@, key@),
    {
        let mut lo: usize = 0;
        let mut hi: usize = self.entries.len();
        while lo < hi
            invariant
                self.wf(),
                lo <= hi <= self.entries@.len(),
                forall|i: int| 0 <= i < lo ==> lex_lt(#[trigger] self.entries@[i].0@, key@),
                forall|i: int| hi <= i < self.entries@.len() ==> !lex_lt(#[trigger] self.entries@[i].0@, key@),
            decreases hi - lo,
        {
            let mid = lo + (hi - lo) / 2;
            match compare_keys(self.entries[mid].0.as_slice(), key) {
                KeyOrder::Less => {
                    assert forall|i: int| 0 <= i < mid + 1 implies lex_lt(#[trigger] self.entries@[i].0@, key@) by {
                        if i < mid {
                            assert(lex_lt(self.entries@[i].0@, self.entries@[mid as int].0@));
                            lemma_lex_transitive(self.entries@[i].0@, self.entries@[mid as int].0@, key@);
                        }
                    }
                    lo = mid + 1;
                },
                _ => {
                    assert forall|i: int| mid <= i < self.entries@.len() implies !lex_lt(#[trigger] self.entries@[i].0@, key@) by {
                        if i > mid {
                            assert(lex_lt(self.entries@[mid as int].0@, self.entries@[i].0@));
                            if lex_lt(self.entries@[i].0@, key@) {
                                lemma_lex_transitive(self.entries@[mid as int].0@, self.entries@[i].0@, key@);
                                lemma_lex_asymmetric(self.entries@[mid as int].0@, key@);
                                if self.entries@[mid as int].0@ == key@ {
                                    lemma_lex_irreflexive(key@);
                                }
                            }
                        }
                    }
                    hi = mid;
                },
            }
        }
        lo
    }

    /// Position of `key` among the stored entries, if present.
    fn find(&self, key: &[u16]) -> (r: Option<usize>)
        requires
            self.wf(),
        ensures
            r matches Some(i) ==> i < self.entries@.len() && self.entries@[i as int].0@ == key@,
            r is None ==> !self.view().contains_key(key@),
    {
        let j = self.lower_bound(key);
        if j < self.entries.len() {
            if compare_keys(self.entries[j].0.as_slice(), key) == KeyOrder::Equal {
                return Some(j);
            }
        }
        proof {
            if self.view().contains_key(key@) {
                let i = choose|i: int| 0 <= i < self.entries@.len() && #[trigger] self.entries@[i].0@ == key@;
                lemma_lex_irreflexive(key@);
                if i > j {
                    assert(lex_lt(self.entries@[j as int].0@, self.entries@[i].0@));
                    lemma_lex_total(self.entries@[j as int].0@, key@);
                }
            }
        }
        None
    }

    pub fn get(&self, key: &[u16]) -> (r: Option<&V>)
        requires
            self.wf(),
        ensures
            self.view().contains_key(key@) ==> r == Some(&self.view()[key@]),
            !self.view().contains_key(key@) ==> r is None,
    {
        match self.find(key) {
            Some(i) => {
                proof {
                    self.lemma_view_at(i as int);
                }
                Some(&self.entries[i].1)
            },
            None => None,
        }
    }

    pub fn contains_key(&self, key: &[u16]) -> (b: bool)
        requires
            self.wf(),
        ensures
            b == self.view().contains_key(key@),
    {
        match self.find(key) {
            Some(i) => {
                proof {
                    self.lemma_view_at(i as int);
                }
                true
            },
            None => false,
        }
    }

    /// Sets the value of `key`, adding the key if it was absent.
    pub fn insert(&mut self, key: Vec<u16>, value: V)
        requires
            old(self).wf(),
        ensures
            final(self).wf(),
            final(self).view() == old(self).view().insert(key@, value),
    {
        let j = self.lower_bound(key.as_slice());
        let ghost k = key@;
        let ghost old_entries = self.entries@;
        let ghost old_view = self.view();
        let mut present = false;
        if j < self.entries.len() {
            if compare_keys(self.entries[j].0.as_slice(), key.as_slice()) == KeyOrder::Equal {
                present = true;
            }
        }
        if present {
            self.entries.set(j, (key, value));
            proof {
                assert forall|a: int, b: int| 0 <= a < b < self.entries@.len() implies lex_lt(
                    #[trigger] self.entries@[a].0@,
                    #[trigger] self.entries@[b].0@,
                ) by {
                    assert(lex_lt(old_entries[a].0@, old_entries[b].0@));
                }
                self.lemma_replaced(old_entries, old_view, j as int, k, value);
            }
        } else {
            self.entries.insert(j, (key, value));
            proof {
                self.lemma_inserted(old_entries, old_view, j as int, k, value);
            }
        }
    }

    proof fn lemma_replaced(
        &self,
        old_entries: Seq<(Vec<u16>, V)>,
        old_view: Map<Seq<u16>, V>,
        j: int,
        k: Seq<u16>,
        value: V,
    )
        requires
            self.wf(),
            0 <= j < old_entries.len(),
            old_entries[j].0@ == k,
            self.entries@.len() == old_entries.len(),
            self.entries@[j].0@ == k,
            self.entries@[j].1 == value,
            forall|i: int| 0 <= i < old_entries.len() && i != j ==> #[trigger] self.entries@[i] == old_entries[i],
            old_view == entries_map(old_entries),
            forall|a: int, b: int| 0 <= a < b < old_entries.len() ==> lex_lt(
                #[trigger] old_entries[a].0@,
                #[trigger] old_entries[b].0@,
            ),
        ensures
            self.view() == old_view.insert(k, value),
    {
        assert forall|q: Seq<u16>| #[trigger] self.view().contains_key(q) <==> old_view.insert(k, value).contains_key(q) by {
            if self.view().contains_key(q) {
                let i = choose|i: int| 0 <= i < self.entries@.len() && #[trigger] self.entries@[i].0@ == q;
                if i != j {
                    assert(old_entries[i].0@ == q);
                }
            }
            if old_view.contains_key(q) && q != k {
                let i = choose|i: int| 0 <= i < old_entries.len() && #[trigger] old_entries[i].0@ == q;
                assert(self.entries@[i].0@ == q);
            }
            if q == k {
                assert(self.entries@[j].0@ == q);
            }
        }
        assert forall|q: Seq<u16>| #[trigger] self.view().contains_key(q) implies self.view()[q] == old_view.insert(k, value)[q] by {
            let i = index_of(self.entries@, q);
            self.lemma_view_at(i);
            if i != j {
                assert(old_entries[i].0@ == q);
                assert(q != k) by {
                    if i < j {
                        assert(lex_lt(old_entries[i].0@, old_entries[j].0@));
                    } else {
                        assert(lex_lt(old_entries[j].0@, old_entries[i].0@));
                    }
                    lemma_lex_irreflexive(q);
                }
                let o = index_of(old_entries, q);
                if o != i {
                    if o < i {
                        assert(lex_lt(old_entries[o].0@, old_entries[i].0@));
                    } else {
                        assert(lex_lt(old_entries[i].0@, old_entries[o].0@));
                    }
                    lemma_lex_irreflexive(q);
                }
            }
        }
        assert(self.view() =~= old_view.insert(k, value));
    }

    proof fn lemma_inserted(
        &self,
        old_entries: Seq<(Vec<u16>, V)>,
        old_view: Map<Seq<u16>, V>,
        j: int,
        k: Seq<u16>,
        value: V,
    )
        requires
            0 <= j <= old_entries.len(),
            self.entries@.len() == old_entries.len() + 1,
            self.entries@[j].0@ == k,
            self.entries@[j].1 == value,
            forall|i: int| 0 <= i < j ==> #[trigger] self.entries@[i] == old_entries[i],
            forall|i: int| j < i < self.entries@.len() ==> #[trigger] self.entries@[i] == old_entries[i - 1],
            forall|i: int| 0 <= i < j ==> lex_lt(#[trigger] old_entries[i].0@, k),
            forall|i: int| j <= i < old_entries.len() ==> !lex_lt(#[trigger] old_entries[i].0@, k),
            j < old_entries.len() ==> old_entries[j].0@ != k,
            old_view == entries_map(old_entries),
            forall|a: int, b: int| 0 <= a < b < old_entries.len() ==> lex_lt(
                #[trigger] old_entries[a].0@,
                #[trigger] old_entries[b].0@,
            ),
        ensures
            self.wf(),
            self.view() == old_view.insert(k, value),
    {
        assert forall|i: int| j < i < self.entries@.len() implies lex_lt(k, #[trigger] self.entries@[i].0@) by {
            let o = old_entries[i - 1].0@;
            if i - 1 > j {
                assert(lex_lt(old_entries[j].0@, o));
                lemma_lex_total(old_entries[j].0@, k);
                if lex_lt(k, old_entries[j].0@) {
                    lemma_lex_transitive(k, old_entries[j].0@, o);
                }
            } else {
                lemma_lex_total(o, k);
            }
        }
        assert forall|a: int, b: int| 0 <= a < b < self.entries@.len() implies lex_lt(
            #[trigger] self.entries@[a].0@,
            #[trigger] self.entries@[b].0@,
        ) by {
            if a < j && b < j {
                assert(lex_lt(old_entries[a].0@, old_entries[b].0@));
            } else if a < j && b == j {
            } else if a < j && b > j {
                assert(lex_lt(k, self.entries@[b].0@));
                lemma_lex_transitive(self.entries@[a].0@, k, self.entries@[b].0@);
            } else if a == j {
            } else {
                assert(lex_lt(old_entries[a - 1].0@, old_entries[b - 1].0@));
            }
        }
        assert forall|q: Seq<u16>| #[trigger] self.view().contains_key(q) <==> old_view.insert(k, value).contains_key(q) by {
            if self.view().contains_key(q) {
                let i = choose|i: int| 0 <= i < self.entries@.len() && #[trigger] self.entries@[i].0@ == q;
                if i < j {
                    assert(old_entries[i].0@ == q);
                } else if i > j {
                    assert(old_entries[i - 1].0@ == q);
                }
            }
            if old_view.contains_key(q) {
                let i = choose|i: int| 0 <= i < old_entries.len() && #[trigger] old_entries[i].0@ == q;
                if i < j {
                    assert(self.entries@[i].0@ == q);
                } else {
                    assert(self.entries@[i + 1].0@ == q);
                }
            }
            if q == k {
                assert(self.entries@[j].0@ == q);
            }
        }
        assert forall|q: Seq<u16>| #[trigger] self.view().contains_key(q) implies self.view()[q] == old_view.insert(k, value)[q] by {
            let i = index_of(self.entries@, q);
            self.lemma_view_at(i);
            if i != j {
                let oi = if i < j { i } else { i - 1 };
                assert(old_entries[oi].0@ == q);
                assert(q != k) by {
                    if i < j {
                        assert(lex_lt(q, k));
                    } else {
                        assert(lex_lt(k, q));
                    }
                    lemma_lex_irreflexive(q);
                }
                let o = index_of(old_entries, q);
                if o != oi {
                    if o < oi {
                        assert(lex_lt(old_entries[o].0@, old_entries[oi].0@));
                    } else {
                        assert(lex_lt(old_entries[oi].0@, old_entries[o].0@));
                    }
                    lemma_lex_irreflexive(q);
                }
            }
        }
        assert(self.view() =~= old_view.insert(k, value));
    }

    /// The key stored at position `i` (positions follow key order).
    pub fn key_at(&self, i: usize) -> (k: &Vec<u16>)
        requires
            i < self.key_seq().len(),
        ensures
            k@ == self.key_seq()[i as int],
    {
        &self.entries[i].0
    }

    /// The value stored at position `i` (positions follow key order).
    pub fn value_at(&self, i: usize) -> (v: &V)
        requires
            i < self.key_seq().len(),
        ensures
            *v == self.value_seq()[i as int],
    {
        &self.entries[i].1
    }
}

} // verus!
