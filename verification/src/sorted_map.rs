//! A map kept in the order of its keys.

use vstd::prelude::*;
use vstd::utf8::{encode_utf8, encode_utf8_decode_utf8};
use crate::order::{compare_bytes, lex_irreflexive, lex_less, lex_total, lex_transitive, Place};

verus! {

/// A value that can be copied out of a container.
pub trait Item: View + Sized {
    /// An equal copy.
    fn dup(&self) -> (copy: Self)
        ensures
            copy@ == self@,
    ;
}

/// A key: keys stand in a strict total order.
pub trait Key: Item {
    /// What a key is looked up by.
    type Probe: ?Sized + View<V = Self::V>;

    /// Whether `a` comes strictly before `b`.
    spec fn before(a: Self::V, b: Self::V) -> bool;

    /// No key comes before itself.
    proof fn irreflexive(a: Self::V)
        ensures
            !Self::before(a, a),
    ;

    /// The order is transitive.
    proof fn transitive(a: Self::V, b: Self::V, c: Self::V)
        requires
            Self::before(a, b),
            Self::before(b, c),
        ensures
            Self::before(a, c),
    ;

    /// Of two different keys one comes before the other.
    proof fn total(a: Self::V, b: Self::V)
        ensures
            Self::before(a, b) || a == b || Self::before(b, a),
    ;

    /// How two keys stand to each other.
    fn compare(a: &Self::Probe, b: &Self::Probe) -> (place: Place)
        ensures
            place == Place::Before <==> Self::before(a@, b@),
            place == Place::Same <==> a@ == b@,
            place == Place::After <==> Self::before(b@, a@),
    ;

    /// The key as a probe.
    fn as_probe(&self) -> (probe: &Self::Probe)
        ensures
            probe@ == self@,
    ;
}

impl Item for Vec<u8> {
    fn dup(&self) -> (copy: Self) {
        let copy = self.clone();
        proof {
            assert(copy@ =~= self@);
        }
        copy
    }
}

impl Item for String {
    fn dup(&self) -> (copy: Self) {
        self.clone()
    }
}

impl Item for u64 {
    fn dup(&self) -> (copy: Self) {
        *self
    }
}

impl Item for () {
    fn dup(&self) -> (copy: Self) {
    }
}

impl Key for Vec<u8> {
    type Probe = [u8];

    open spec fn before(a: Seq<u8>, b: Seq<u8>) -> bool {
        lex_less(a, b)
    }

    proof fn irreflexive(a: Seq<u8>) {
        lex_irreflexive(a);
    }

    proof fn transitive(a: Seq<u8>, b: Seq<u8>, c: Seq<u8>) {
        lex_transitive(a, b, c);
    }

    proof fn total(a: Seq<u8>, b: Seq<u8>) {
        lex_total(a, b);
    }

    fn compare(a: &[u8], b: &[u8]) -> (place: Place) {
        compare_bytes(a, b)
    }

    fn as_probe(&self) -> (probe: &[u8]) {
        self.as_slice()
    }
}

/// Strings stand in the order of their UTF-8 bytes.
impl Key for String {
    type Probe = str;

    open spec fn before(a: Seq<char>, b: Seq<char>) -> bool {
        lex_less(encode_utf8(a), encode_utf8(b))
    }

    proof fn irreflexive(a: Seq<char>) {
        lex_irreflexive(encode_utf8(a));
    }

    proof fn transitive(a: Seq<char>, b: Seq<char>, c: Seq<char>) {
        lex_transitive(encode_utf8(a), encode_utf8(b), encode_utf8(c));
    }

    proof fn total(a: Seq<char>, b: Seq<char>) {
        lex_total(encode_utf8(a), encode_utf8(b));
        encode_utf8_decode_utf8(a);
        encode_utf8_decode_utf8(b);
    }

    fn compare(a: &str, b: &str) -> (place: Place) {
        proof {
            encode_utf8_decode_utf8(a@);
            encode_utf8_decode_utf8(b@);
        }
        compare_bytes(a.as_bytes(), b.as_bytes())
    }

    fn as_probe(&self) -> (probe: &str) {
        self.as_str()
    }
}

/// Whether `s` lists the pairs of `m`, each once, in the order of the keys.
pub open spec fn is_ordered<K: Key, B>(s: Seq<(K::V, B)>, m: Map<K::V, B>) -> bool {
    &&& forall|i: int, j: int|
        0 <= i < j < s.len() ==> K::before(#[trigger] s[i].0, #[trigger] s[j].0)
    &&& forall|i: int|
        0 <= i < s.len() ==> m.contains_key(#[trigger] s[i].0) && m[s[i].0] == s[i].1
    &&& forall|k: K::V| #[trigger]
        m.contains_key(k) ==> exists|i: int| 0 <= i < s.len() && #[trigger] s[i].0 == k
}

/// The pairs of a finite map in the order of the keys.
pub open spec fn ordered<K: Key, B>(m: Map<K::V, B>) -> Seq<(K::V, B)> {
    choose|s: Seq<(K::V, B)>| is_ordered::<K, B>(s, m)
}

/// A map has only one ordered listing.
pub proof fn ordered_unique<K: Key, B>(s: Seq<(K::V, B)>, t: Seq<(K::V, B)>, m: Map<K::V, B>)
    requires
        is_ordered::<K, B>(s, m),
        is_ordered::<K, B>(t, m),
    ensures
        s == t,
{
    ordered_prefix::<K, B>(s, t, m, s.len() as int);
    ordered_prefix::<K, B>(t, s, m, t.len() as int);
    assert(s =~= t);
}

/// Up to any place in `s`, the listing `t` holds the same pairs.
proof fn ordered_prefix<K: Key, B>(
    s: Seq<(K::V, B)>,
    t: Seq<(K::V, B)>,
    m: Map<K::V, B>,
    n: int,
)
    requires
        is_ordered::<K, B>(s, m),
        is_ordered::<K, B>(t, m),
        0 <= n <= s.len(),
    ensures
        n <= t.len(),
        forall|i: int| 0 <= i < n ==> s[i] == t[i],
    decreases n,
{
    if n > 0 {
        let p = n - 1;
        ordered_prefix::<K, B>(s, t, m, p);
        let k = s[p].0;
        assert(m.contains_key(k));
        let i = choose|i: int| 0 <= i < t.len() && #[trigger] t[i].0 == k;
        if i < p {
            assert(s[i].0 == k);
            K::irreflexive(k);
        } else if i > p {
            let j = t[p].0;
            assert(m.contains_key(j));
            let q = choose|q: int| 0 <= q < s.len() && #[trigger] s[q].0 == j;
            K::irreflexive(j);
            assert(K::before(t[p].0, t[i].0));
            if q < p {
                assert(t[q].0 == j);
            } else if q > p {
                assert(K::before(s[p].0, s[q].0));
                K::transitive(j, k, j);
            } else {
                K::irreflexive(k);
            }
        }
    }
}

/// The listing found for a map is `ordered` of it.
pub proof fn ordered_is<K: Key, B>(s: Seq<(K::V, B)>, m: Map<K::V, B>)
    requires
        is_ordered::<K, B>(s, m),
    ensures
        ordered::<K, B>(m) == s,
        is_ordered::<K, B>(ordered::<K, B>(m), m),
{
    ordered_unique::<K, B>(ordered::<K, B>(m), s, m);
}

/// Where `k` stands among keys in order, if it is not one of them.
proof fn insertion_point<K: Key, B>(s: Seq<(K::V, B)>, k: K::V) -> (p: int)
    requires
        forall|i: int, j: int|
            0 <= i < j < s.len() ==> K::before(#[trigger] s[i].0, #[trigger] s[j].0),
        forall|i: int| 0 <= i < s.len() ==> #[trigger] s[i].0 != k,
    ensures
        0 <= p <= s.len(),
        forall|i: int| 0 <= i < p ==> K::before(#[trigger] s[i].0, k),
        forall|i: int| p <= i < s.len() ==> K::before(k, #[trigger] s[i].0),
    decreases s.len(),
{
    if s.len() == 0 {
        0
    } else {
        let last = s.last().0;
        K::total(last, k);
        if K::before(last, k) {
            assert forall|i: int| 0 <= i < s.len() implies K::before(#[trigger] s[i].0, k) by {
                if i < s.len() - 1 {
                    K::transitive(s[i].0, last, k);
                }
            }
            s.len() as int
        } else {
            let t = s.drop_last();
            assert forall|i: int, j: int| 0 <= i < j < t.len() implies K::before(
                #[trigger] t[i].0,
                #[trigger] t[j].0,
            ) by {
                assert(t[i] == s[i] && t[j] == s[j]);
            }
            assert forall|i: int| 0 <= i < t.len() implies #[trigger] t[i].0 != k by {
                assert(t[i] == s[i]);
            }
            let p = insertion_point::<K, B>(t, k);
            assert forall|i: int| 0 <= i < p implies K::before(#[trigger] s[i].0, k) by {
                assert(t[i] == s[i]);
            }
            assert forall|i: int| p <= i < s.len() implies K::before(k, #[trigger] s[i].0) by {
                if i < s.len() - 1 {
                    assert(t[i] == s[i]);
                }
            }
            p
        }
    }
}

/// Every finite map has an ordered listing.
pub proof fn ordered_exists<K: Key, B>(m: Map<K::V, B>)
    requires
        m.dom().finite(),
    ensures
        is_ordered::<K, B>(ordered::<K, B>(m), m),
    decreases m.dom().len(),
{
    if m.dom().len() == 0 {
        assert(m.dom() =~= Set::<K::V>::empty());
        let s = Seq::<(K::V, B)>::empty();
        assert forall|k: K::V| #[trigger] m.contains_key(k) implies exists|i: int|
            0 <= i < s.len() && #[trigger] s[i].0 == k by {
            assert(m.dom().contains(k));
        }
        ordered_is::<K, B>(s, m);
    } else {
        let k = m.dom().choose();
        let n = m.remove(k);
        assert(n.dom() =~= m.dom().remove(k));
        ordered_exists::<K, B>(n);
        let t = ordered::<K, B>(n);
        assert forall|i: int| 0 <= i < t.len() implies #[trigger] t[i].0 != k by {
            assert(n.contains_key(t[i].0));
        }
        let p = insertion_point::<K, B>(t, k);
        let s = t.insert(p, (k, m[k]));
        assert forall|i: int, j: int| 0 <= i < j < s.len() implies K::before(
            #[trigger] s[i].0,
            #[trigger] s[j].0,
        ) by {
            let x = if i < p { i } else { i - 1 };
            let y = if j < p { j } else { j - 1 };
            if i != p {
                assert(s[i] == t[x]);
            }
            if j != p {
                assert(s[j] == t[y]);
            }
        }
        assert forall|i: int| 0 <= i < s.len() implies m.contains_key(#[trigger] s[i].0)
            && m[s[i].0] == s[i].1 by {
            let x = if i < p { i } else { i - 1 };
            if i != p {
                assert(s[i] == t[x]);
                assert(n.contains_key(t[x].0));
            }
        }
        assert forall|x: K::V| #[trigger] m.contains_key(x) implies exists|i: int|
            0 <= i < s.len() && #[trigger] s[i].0 == x by {
            if x == k {
                assert(s[p].0 == x);
            } else {
                assert(n.contains_key(x));
                let i = choose|i: int| 0 <= i < t.len() && #[trigger] t[i].0 == x;
                let y = if i < p { i } else { i + 1 };
                assert(s[y] == t[i]);
            }
        }
        ordered_is::<K, B>(s, m);
    }
}

/// The keys that a listing holds are as many as the map has.
pub proof fn ordered_len<K: Key, B>(s: Seq<(K::V, B)>, m: Map<K::V, B>)
    requires
        is_ordered::<K, B>(s, m),
    ensures
        m.dom().finite(),
        m.dom().len() == s.len(),
{
    let ks = s.map_values(|p: (K::V, B)| p.0);
    assert(ks.no_duplicates()) by {
        assert forall|i: int, j: int| 0 <= i < ks.len() && 0 <= j < ks.len() && i != j implies ks[i]
            != ks[j] by {
            if ks[i] == ks[j] {
                K::irreflexive(ks[i]);
                if i < j {
                    assert(K::before(s[i].0, s[j].0));
                } else {
                    assert(K::before(s[j].0, s[i].0));
                }
            }
        }
    }
    ks.unique_seq_to_set();
    assert(ks.to_set() =~= m.dom()) by {
        assert forall|k: K::V| m.dom().contains(k) implies ks.to_set().contains(k) by {
            assert(m.contains_key(k));
            let i = choose|i: int| 0 <= i < s.len() && #[trigger] s[i].0 == k;
            assert(ks[i] == k);
        }
        assert forall|k: K::V| ks.to_set().contains(k) implies m.dom().contains(k) by {
            let i = choose|i: int| 0 <= i < ks.len() && ks[i] == k;
            assert(s[i].0 == k);
        }
    }
}

/// The map that pairs come to when they are put in one after the other.
pub open spec fn listed<A, B>(s: Seq<(A, B)>) -> Map<A, B>
    decreases s.len(),
{
    if s.len() == 0 {
        Map::empty()
    } else {
        listed(s.drop_last()).insert(s.last().0, s.last().1)
    }
}

/// The keys of listed pairs.
pub proof fn listed_keys<A, B>(s: Seq<(A, B)>)
    ensures
        forall|k: A| #[trigger]
            listed(s).contains_key(k) <==> exists|i: int| 0 <= i < s.len() && #[trigger] s[i].0 == k,
    decreases s.len(),
{
    if s.len() > 0 {
        let t = s.drop_last();
        listed_keys(t);
        assert forall|k: A| #[trigger] listed(s).contains_key(k) implies exists|i: int|
            0 <= i < s.len() && #[trigger] s[i].0 == k by {
            if k == s.last().0 {
                assert(s[s.len() - 1].0 == k);
            } else {
                assert(listed(t).contains_key(k));
                let i = choose|i: int| 0 <= i < t.len() && #[trigger] t[i].0 == k;
                assert(s[i].0 == k);
            }
        }
        assert forall|k: A| (exists|i: int| 0 <= i < s.len() && #[trigger] s[i].0 == k) implies
            #[trigger] listed(s).contains_key(k) by {
            let i = choose|i: int| 0 <= i < s.len() && #[trigger] s[i].0 == k;
            if i < s.len() - 1 {
                assert(t[i].0 == k);
                assert(listed(t).contains_key(k));
            }
        }
    }
}

/// Listed pairs have the values that they have in a map that holds them all.
proof fn listed_values<A, B>(s: Seq<(A, B)>, m: Map<A, B>)
    requires
        forall|i: int|
            0 <= i < s.len() ==> m.contains_key(#[trigger] s[i].0) && m[s[i].0] == s[i].1,
    ensures
        forall|k: A| #[trigger] listed(s).contains_key(k) ==> listed(s)[k] == m[k],
    decreases s.len(),
{
    if s.len() > 0 {
        let t = s.drop_last();
        assert forall|i: int| 0 <= i < t.len() implies m.contains_key(#[trigger] t[i].0)
            && m[t[i].0] == t[i].1 by {
            assert(t[i] == s[i]);
        }
        listed_values(t, m);
        let (a, b) = s[s.len() - 1];
        assert(m[s[s.len() - 1].0] == b);
        assert forall|k: A| #[trigger] listed(s).contains_key(k) implies listed(s)[k] == m[k] by {
            if k != a {
                assert(listed(t).contains_key(k));
            }
        }
    }
}

/// All the pairs of a map, put in one after the other, come to the map.
pub proof fn listed_is<A, B>(s: Seq<(A, B)>, m: Map<A, B>)
    requires
        forall|i: int|
            0 <= i < s.len() ==> m.contains_key(#[trigger] s[i].0) && m[s[i].0] == s[i].1,
        forall|k: A| #[trigger]
            m.contains_key(k) ==> exists|i: int| 0 <= i < s.len() && #[trigger] s[i].0 == k,
    ensures
        listed(s) == m,
{
    listed_keys(s);
    listed_values(s, m);
    assert(listed(s) =~= m) by {
        assert forall|k: A| #[trigger] listed(s).contains_key(k) implies m.contains_key(k) by {
            let i = choose|i: int| 0 <= i < s.len() && #[trigger] s[i].0 == k;
            assert(m.contains_key(s[i].0));
        }
    }
}

/// A sorted map from keys to values: the keys stand in order, each once, with the value of
/// each at the same place.
pub struct SortedMap<K: Key, V: Item> {
    keys: Vec<K>,
    vals: Vec<V>,
}

/// The map that a sequence of pairs with different keys stands for.
spec fn pairs_map<A, B>(s: Seq<(A, B)>) -> Map<A, B> {
    Map::new(
        |k: A| exists|i: int| 0 <= i < s.len() && #[trigger] s[i].0 == k,
        |k: A| s[choose|i: int| 0 <= i < s.len() && #[trigger] s[i].0 == k].1,
    )
}

impl<K: Key, V: Item> SortedMap<K, V> {
    /// The pairs in the order in which they are held.
    spec fn pairs(self) -> Seq<(K::V, V::V)> {
        Seq::new(self.keys@.len(), |i: int| (self.keys@[i]@, self.vals@[i]@))
    }

    #[verifier::type_invariant]
    spec fn well_ordered(self) -> bool {
        &&& self.keys@.len() == self.vals@.len()
        &&& forall|i: int, j: int|
            0 <= i < j < self.keys@.len() ==> K::before(
                #[trigger] self.keys@[i]@,
                #[trigger] self.keys@[j]@,
            )
    }
}

impl<K: Key, V: Item> View for SortedMap<K, V> {
    type V = Map<K::V, V::V>;

    closed spec fn view(&self) -> Map<K::V, V::V> {
        pairs_map(self.pairs())
    }
}

/// What the pairs of a well-ordered map say of the map.
proof fn lemma_pairs<K: Key, V: Item>(m: SortedMap<K, V>)
    requires
        m.well_ordered(),
    ensures
        is_ordered::<K, V::V>(m.pairs(), m@),
        ordered::<K, V::V>(m@) == m.pairs(),
        m@.dom().finite(),
        m@.dom().len() == m.keys@.len(),
{
    let s = m.pairs();
    assert forall|i: int| 0 <= i < s.len() implies m@.contains_key(#[trigger] s[i].0)
        && m@[s[i].0] == s[i].1 by {
        let k = s[i].0;
        let j = choose|j: int| 0 <= j < s.len() && #[trigger] s[j].0 == k;
        if j != i {
            K::irreflexive(k);
            if i < j {
                assert(K::before(m.keys@[i]@, m.keys@[j]@));
            } else {
                assert(K::before(m.keys@[j]@, m.keys@[i]@));
            }
        }
    }
    assert forall|i: int, j: int| 0 <= i < j < s.len() implies K::before(
        #[trigger] s[i].0,
        #[trigger] s[j].0,
    ) by {
        assert(K::before(m.keys@[i]@, m.keys@[j]@));
    }
    ordered_is::<K, V::V>(s, m@);
    ordered_len::<K, V::V>(s, m@);
}

/// Changing the value at one place changes the map at the key of that place.
proof fn lemma_update<K: Key, V: Item>(m: SortedMap<K, V>, n: SortedMap<K, V>, i: int, v: V)
    requires
        m.well_ordered(),
        0 <= i < m.keys@.len(),
        n.keys@ == m.keys@,
        n.vals@ == m.vals@.update(i, v),
    ensures
        n@ == m@.insert(m.keys@[i]@, v@),
{
    lemma_pairs(m);
    lemma_pairs(n);
    let k = m.keys@[i]@;
    assert(n.pairs() =~= m.pairs().update(i, (k, v@)));
    lemma_same_keys(m, n);
    assert forall|x: K::V| n@.contains_key(x) implies n@[x] == m@.insert(k, v@)[x] by {
        let j = choose|j: int| 0 <= j < n.pairs().len() && #[trigger] n.pairs()[j].0 == x;
        assert(m.pairs()[j].0 == x);
        if x == k && j != i {
            K::irreflexive(k);
            if i < j {
                assert(K::before(m.keys@[i]@, m.keys@[j]@));
            } else {
                assert(K::before(m.keys@[j]@, m.keys@[i]@));
            }
        }
    }
    assert(m.pairs()[i].0 == k);
    assert(n@ =~= m@.insert(k, v@));
}

/// Two maps that hold the same keys have the same domain.
proof fn lemma_same_keys<K: Key, V: Item>(m: SortedMap<K, V>, n: SortedMap<K, V>)
    requires
        m.well_ordered(),
        n.well_ordered(),
        n.keys@ == m.keys@,
    ensures
        n@.dom() == m@.dom(),
{
    lemma_pairs(m);
    lemma_pairs(n);
    assert forall|x: K::V| m@.contains_key(x) implies n@.contains_key(x) by {
        let j = choose|j: int| 0 <= j < m.pairs().len() && #[trigger] m.pairs()[j].0 == x;
        assert(n.pairs()[j].0 == x);
    }
    assert forall|x: K::V| n@.contains_key(x) implies m@.contains_key(x) by {
        let j = choose|j: int| 0 <= j < n.pairs().len() && #[trigger] n.pairs()[j].0 == x;
        assert(m.pairs()[j].0 == x);
    }
    assert(n@.dom() =~= m@.dom());
}

impl<K: Key, V: Item> SortedMap<K, V> {
    /// An empty map.
    pub fn new() -> (map: Self)
        ensures
            map@ == Map::<K::V, V::V>::empty(),
    {
        let map = SortedMap { keys: Vec::new(), vals: Vec::new() };
        proof {
            assert(map@ =~= Map::<K::V, V::V>::empty());
        }
        map
    }

    /// Where `probe` stands, or would stand.
    fn find(&self, probe: &K::Probe) -> (place: (bool, usize))
        ensures
            place.1 <= self.keys@.len(),
            forall|i: int|
                0 <= i < place.1 ==> K::before(#[trigger] self.keys@[i]@, probe@),
            place.0 ==> place.1 < self.keys@.len() && self.keys@[place.1 as int]@ == probe@,
            !place.0 ==> forall|i: int|
                place.1 <= i < self.keys@.len() ==> K::before(probe@, #[trigger] self.keys@[i]@),
            place.0 == self@.contains_key(probe@),
            place.0 ==> self@[probe@] == self.vals@[place.1 as int]@,
    {
        proof {
            use_type_invariant(self);
            lemma_pairs(*self);
        }
        let mut lo: usize = 0;
        let mut hi: usize = self.keys.len();
        while lo < hi
            invariant
                self.well_ordered(),
                is_ordered::<K, V::V>(self.pairs(), self@),
                lo <= hi <= self.keys@.len(),
                forall|i: int|
                    0 <= i < lo ==> K::before(#[trigger] self.keys@[i]@, probe@),
                forall|i: int|
                    hi <= i < self.keys@.len() ==> K::before(probe@, #[trigger] self.keys@[i]@),
            decreases hi - lo,
        {
            let mid: usize = lo + (hi - lo) / 2;
            match K::compare(self.keys[mid].as_probe(), probe) {
                Place::Same => {
                    proof {
                        assert(self.pairs()[mid as int].0 == probe@);
                    }
                    return (true, mid);
                },
                Place::Before => {
                    proof {
                        assert forall|i: int| 0 <= i < mid + 1 implies K::before(
                            #[trigger] self.keys@[i]@,
                            probe@,
                        ) by {
                            if lo <= i < mid {
                                K::transitive(self.keys@[i]@, self.keys@[mid as int]@, probe@);
                            }
                        }
                    }
                    lo = mid + 1;
                },
                Place::After => {
                    proof {
                        assert forall|i: int| mid <= i < self.keys@.len() implies K::before(
                            probe@,
                            #[trigger] self.keys@[i]@,
                        ) by {
                            if mid < i < hi {
                                K::transitive(probe@, self.keys@[mid as int]@, self.keys@[i]@);
                            }
                        }
                    }
                    hi = mid;
                },
            }
        }
        proof {
            if self@.contains_key(probe@) {
                let i = choose|i: int|
                    0 <= i < self.pairs().len() && #[trigger] self.pairs()[i].0 == probe@;
                assert(self.keys@[i]@ == probe@);
                K::irreflexive(probe@);
            }
        }
        (false, lo)
    }

    /// How many keys the map holds.
    pub fn len(&self) -> (n: usize)
        ensures
            n == self@.dom().len(),
            n == ordered::<K, V::V>(self@).len(),
            self@.dom().finite(),
            is_ordered::<K, V::V>(ordered::<K, V::V>(self@), self@),
    {
        proof {
            use_type_invariant(self);
            lemma_pairs(*self);
        }
        self.keys.len()
    }

    /// The key at a place of the order.
    pub fn key_at(&self, i: usize) -> (key: &K)
        requires
            i < ordered::<K, V::V>(self@).len(),
        ensures
            key@ == ordered::<K, V::V>(self@)[i as int].0,
    {
        proof {
            use_type_invariant(self);
            lemma_pairs(*self);
        }
        &self.keys[i]
    }

    /// The value at a place of the order.
    pub fn val_at(&self, i: usize) -> (val: &V)
        requires
            i < ordered::<K, V::V>(self@).len(),
        ensures
            val@ == ordered::<K, V::V>(self@)[i as int].1,
    {
        proof {
            use_type_invariant(self);
            lemma_pairs(*self);
        }
        &self.vals[i]
    }

    /// The place of a key in the order.
    pub fn place_of(&self, probe: &K::Probe) -> (place: Option<usize>)
        ensures
            is_ordered::<K, V::V>(ordered::<K, V::V>(self@), self@),
            place is Some == self@.contains_key(probe@),
            place matches Some(i) ==> i < ordered::<K, V::V>(self@).len() && ordered::<K, V::V>(
                self@,
            )[i as int].0 == probe@,
    {
        proof {
            use_type_invariant(self);
            lemma_pairs(*self);
        }
        let (found, i) = self.find(probe);
        if found {
            Some(i)
        } else {
            None
        }
    }

    /// Whether the map holds a key.
    pub fn contains(&self, probe: &K::Probe) -> (yes: bool)
        ensures
            yes == self@.contains_key(probe@),
    {
        self.find(probe).0
    }

    /// The value of a key.
    pub fn get(&self, probe: &K::Probe) -> (val: Option<&V>)
        ensures
            val is Some == self@.contains_key(probe@),
            val matches Some(v) ==> v@ == self@[probe@],
    {
        proof {
            use_type_invariant(self);
        }
        let (found, i) = self.find(probe);
        if found {
            Some(&self.vals[i])
        } else {
            None
        }
    }

    /// The value of a key, to be changed in place.
    pub fn get_mut(&mut self, probe: &K::Probe) -> (val: Option<&mut V>)
        ensures
            val is Some == old(self)@.contains_key(probe@),
            match val {
                Some(v) => v@ == old(self)@[probe@] && final(self)@ == old(self)@.insert(
                    probe@,
                    final(v)@,
                ),
                None => final(self)@ == old(self)@,
            },
    {
        proof {
            use_type_invariant(&*self);
        }
        let (found, i) = self.find(probe);
        if found {
            proof {
                let was = *self;
                assert forall|n: SortedMap<K, V>, v: V|
                    #![trigger n.view(), was.vals@.update(i as int, v)]
                    n.keys@ == was.keys@ && n.vals@ == was.vals@.update(i as int, v) implies n@
                    == was@.insert(probe@, v@) by {
                    lemma_update(was, n, i as int, v);
                }
            }
            Some(&mut self.vals[i])
        } else {
            None
        }
    }

    /// Give `key` the value `val`; what it had before comes back.
    pub fn insert(&mut self, key: K, val: V) -> (before: Option<V>)
        ensures
            final(self)@ == old(self)@.insert(key@, val@),
            before is Some == old(self)@.contains_key(key@),
            before matches Some(v) ==> v@ == old(self)@[key@],
    {
        proof {
            use_type_invariant(&*self);
        }
        let (found, i) = self.find(key.as_probe());
        let mut whole: SortedMap<K, V> = SortedMap::new();
        std::mem::swap(self, &mut whole);
        let ghost was = whole;
        let SortedMap { mut keys, mut vals } = whole;
        if found {
            let mut val = val;
            std::mem::swap(&mut vals[i], &mut val);
            *self = SortedMap { keys, vals };
            proof {
                lemma_update(was, *self, i as int, self.vals@[i as int]);
            }
            Some(val)
        } else {
            keys.insert(i, key);
            vals.insert(i, val);
            proof {
                lemma_inserted_order(was.keys@, i as int, key);
            }
            *self = SortedMap { keys, vals };
            proof {
                lemma_inserted(was, *self, i as int, key, val);
            }
            None
        }
    }

    /// Take a key out; its value comes back.
    pub fn remove(&mut self, probe: &K::Probe) -> (before: Option<V>)
        ensures
            final(self)@ == old(self)@.remove(probe@),
            before is Some == old(self)@.contains_key(probe@),
            before matches Some(v) ==> v@ == old(self)@[probe@],
    {
        proof {
            use_type_invariant(&*self);
        }
        let (found, i) = self.find(probe);
        if found {
            let mut whole: SortedMap<K, V> = SortedMap::new();
            std::mem::swap(self, &mut whole);
            let ghost was = whole;
            let SortedMap { mut keys, mut vals } = whole;
            keys.remove(i);
            let val = vals.remove(i);
            *self = SortedMap { keys, vals };
            proof {
                lemma_removed(was, *self, i as int);
            }
            Some(val)
        } else {
            proof {
                assert(self@.remove(probe@) =~= self@);
            }
            None
        }
    }

    /// Take every key out.
    pub fn clear(&mut self)
        ensures
            final(self)@ == Map::<K::V, V::V>::empty(),
    {
        *self = SortedMap::new();
    }
}

impl<K: Key, V: Item> Item for SortedMap<K, V> {
    fn dup(&self) -> (copy: Self) {
        proof {
            use_type_invariant(self);
        }
        let mut keys: Vec<K> = Vec::new();
        let mut vals: Vec<V> = Vec::new();
        let mut i: usize = 0;
        while i < self.keys.len()
            invariant
                self.well_ordered(),
                i <= self.keys@.len(),
                keys@.len() == i,
                vals@.len() == i,
                forall|j: int| 0 <= j < i ==> (#[trigger] keys@[j])@ == self.keys@[j]@,
                forall|j: int| 0 <= j < i ==> (#[trigger] vals@[j])@ == self.vals@[j]@,
            decreases self.keys@.len() - i,
        {
            keys.push(self.keys[i].dup());
            vals.push(self.vals[i].dup());
            i += 1;
        }
        let copy = SortedMap { keys, vals };
        proof {
            assert(copy.pairs() =~= self.pairs());
        }
        copy
    }
}

/// A key put between those that come before it and those that come after it keeps
/// the order.
proof fn lemma_inserted_order<K: Key>(keys: Seq<K>, i: int, key: K)
    requires
        0 <= i <= keys.len(),
        forall|a: int, b: int|
            0 <= a < b < keys.len() ==> K::before(#[trigger] keys[a]@, #[trigger] keys[b]@),
        forall|a: int| 0 <= a < i ==> K::before(#[trigger] keys[a]@, key@),
        forall|a: int|
            i <= a < keys.len() ==> K::before(key@, #[trigger] keys[a]@),
    ensures
        ({
            let next = keys.insert(i, key);
            forall|a: int, b: int|
                0 <= a < b < next.len() ==> K::before(#[trigger] next[a]@, #[trigger] next[b]@)
        }),
{
    let next = keys.insert(i, key);
    assert forall|a: int, b: int| 0 <= a < b < next.len() implies K::before(
        #[trigger] next[a]@,
        #[trigger] next[b]@,
    ) by {
        let x = if a < i { a } else { a - 1 };
        let y = if b < i { b } else { b - 1 };
        if a != i {
            assert(next[a] == keys[x]);
        }
        if b != i {
            assert(next[b] == keys[y]);
        }
    }
}

/// The map after a new key was put at its place.
proof fn lemma_inserted<K: Key, V: Item>(
    m: SortedMap<K, V>,
    n: SortedMap<K, V>,
    i: int,
    key: K,
    val: V,
)
    requires
        m.well_ordered(),
        n.well_ordered(),
        0 <= i <= m.keys@.len(),
        n.keys@ == m.keys@.insert(i, key),
        n.vals@ == m.vals@.insert(i, val),
    ensures
        n@ == m@.insert(key@, val@),
{
    lemma_pairs(m);
    lemma_pairs(n);
    let s = m.pairs();
    let t = n.pairs();
    assert(t =~= s.insert(i, (key@, val@)));
    assert(t[i].0 == key@);
    let want = m@.insert(key@, val@);
    assert forall|x: K::V| want.contains_key(x) implies n@.contains_key(x) by {
        if x != key@ {
            let j = choose|j: int| 0 <= j < s.len() && #[trigger] s[j].0 == x;
            let q = if j < i { j } else { j + 1 };
            assert(t[q] == s[j]);
        }
    }
    assert forall|x: K::V| #[trigger] n@.contains_key(x) implies want.contains_key(x) && n@[x]
        == want[x] by {
        let j = choose|j: int| 0 <= j < t.len() && #[trigger] t[j].0 == x;
        if j != i {
            let q = if j < i { j } else { j - 1 };
            assert(s[q] == t[j]);
            if x == key@ {
                K::irreflexive(x);
                if i < j {
                    assert(K::before(t[i].0, t[j].0));
                } else {
                    assert(K::before(t[j].0, t[i].0));
                }
            }
        }
    }
    assert(n@ =~= want);
}

/// The map after the key at a place was taken out.
proof fn lemma_removed<K: Key, V: Item>(m: SortedMap<K, V>, n: SortedMap<K, V>, i: int)
    requires
        m.well_ordered(),
        n.well_ordered(),
        0 <= i < m.keys@.len(),
        n.keys@ == m.keys@.remove(i),
        n.vals@ == m.vals@.remove(i),
    ensures
        n@ == m@.remove(m.keys@[i]@),
{
    lemma_pairs(m);
    lemma_pairs(n);
    let s = m.pairs();
    let t = n.pairs();
    let k = m.keys@[i]@;
    assert(t =~= s.remove(i));
    let want = m@.remove(k);
    assert forall|x: K::V| want.contains_key(x) implies n@.contains_key(x) by {
        assert(m@.contains_key(x));
        let j = choose|j: int| 0 <= j < s.len() && #[trigger] s[j].0 == x;
        assert(s[i].0 == k);
        assert(x != k);
        let q = if j < i { j } else { j - 1 };
        assert(t[q] == s[j]);
    }
    assert forall|x: K::V| #[trigger] n@.contains_key(x) implies want.contains_key(x) && n@[x]
        == want[x] by {
        let j = choose|j: int| 0 <= j < t.len() && #[trigger] t[j].0 == x;
        let q = if j < i { j } else { j + 1 };
        assert(s[q] == t[j]);
        if x == k {
            assert(s[i].0 == k);
            K::irreflexive(x);
            if i < q {
                assert(K::before(s[i].0, s[q].0));
            } else {
                assert(K::before(s[q].0, s[i].0));
            }
        }
    }
    assert(n@ =~= want);
}

} // verus!
