//! Sorted sets: members ranked by a score.
//!
//! A member is an opaque byte string; its score alone is interpreted. Members of
//! equal score stand in the order of their bytes.

use vstd::prelude::*;
use crate::bytes::copy_range;
use crate::order::{compare_bytes, lex_irreflexive, lex_less, lex_total, lex_transitive, Place};
use crate::ranges::{range_bounds, range_of, views};
use crate::score::{is_finite, is_nan, score_less, OrderedF64};
use crate::sorted_map::{is_ordered, ordered, ordered_exists, ordered_unique, Item, Key, SortedMap};

verus! {

/// A member together with its score.
#[derive(Debug, PartialEq, Eq)]
pub struct Scored {
    pub member: Vec<u8>,
    pub score: OrderedF64,
}

impl View for Scored {
    type V = (Seq<u8>, u64);

    open spec fn view(&self) -> (Seq<u8>, u64) {
        (self.member@, self.score@)
    }
}

/// Whether `a` ranks before `b`: by score, then by the bytes of the member.
pub open spec fn ranks_before(a: (Seq<u8>, u64), b: (Seq<u8>, u64)) -> bool {
    score_less(a.1, b.1) || (a.1 == b.1 && lex_less(a.0, b.0))
}

impl Item for Scored {
    fn dup(&self) -> (copy: Self) {
        Scored { member: self.member.dup(), score: self.score }
    }
}

impl Key for Scored {
    type Probe = Scored;

    open spec fn before(a: (Seq<u8>, u64), b: (Seq<u8>, u64)) -> bool {
        ranks_before(a, b)
    }

    proof fn irreflexive(a: (Seq<u8>, u64)) {
        lex_irreflexive(a.0);
    }

    proof fn transitive(a: (Seq<u8>, u64), b: (Seq<u8>, u64), c: (Seq<u8>, u64)) {
        if a.1 == b.1 && b.1 == c.1 {
            lex_transitive(a.0, b.0, c.0);
        }
    }

    proof fn total(a: (Seq<u8>, u64), b: (Seq<u8>, u64)) {
        lex_total(a.0, b.0);
    }

    fn compare(a: &Scored, b: &Scored) -> (place: Place) {
        match a.score.compare(&b.score) {
            Place::Before => Place::Before,
            Place::After => Place::After,
            Place::Same => compare_bytes(a.member.as_slice(), b.member.as_slice()),
        }
    }

    fn as_probe(&self) -> (probe: &Scored) {
        self
    }
}

/// Whether `s` lists the members of `m` with their scores, each once, by rank.
pub open spec fn is_ranking(s: Seq<(Seq<u8>, u64)>, m: Map<Seq<u8>, u64>) -> bool {
    &&& forall|i: int, j: int|
        0 <= i < j < s.len() ==> ranks_before(#[trigger] s[i], #[trigger] s[j])
    &&& forall|i: int|
        0 <= i < s.len() ==> m.contains_key(#[trigger] s[i].0) && m[s[i].0] == s[i].1
    &&& forall|k: Seq<u8>| #[trigger]
        m.contains_key(k) ==> exists|i: int| 0 <= i < s.len() && #[trigger] s[i].0 == k
}

/// The members with their scores, by rank.
pub open spec fn ranking(m: Map<Seq<u8>, u64>) -> Seq<(Seq<u8>, u64)> {
    choose|s: Seq<(Seq<u8>, u64)>| is_ranking(s, m)
}

/// The pairs of member and score, as keys in rank order.
spec fn pairs_of(m: Map<Seq<u8>, u64>) -> Map<(Seq<u8>, u64), ()> {
    Map::new(|p: (Seq<u8>, u64)| m.contains_key(p.0) && m[p.0] == p.1, |p: (Seq<u8>, u64)| ())
}

/// A ranking is the ordered listing of the pairs.
proof fn ranking_lists_pairs(s: Seq<(Seq<u8>, u64)>, m: Map<Seq<u8>, u64>)
    ensures
        is_ranking(s, m) <==> is_ordered::<Scored, ()>(
            s.map_values(|p: (Seq<u8>, u64)| (p, ())),
            pairs_of(m),
        ),
{
    let t = s.map_values(|p: (Seq<u8>, u64)| (p, ()));
    let pm = pairs_of(m);
    if is_ranking(s, m) {
        assert forall|i: int, j: int| 0 <= i < j < t.len() implies <Scored as Key>::before(
            #[trigger] t[i].0,
            #[trigger] t[j].0,
        ) by {
            assert(ranks_before(s[i], s[j]));
        }
        assert forall|i: int| 0 <= i < t.len() implies pm.contains_key(#[trigger] t[i].0)
            && pm[t[i].0] == t[i].1 by {
            assert(m.contains_key(s[i].0));
        }
        assert forall|k: (Seq<u8>, u64)| #[trigger] pm.contains_key(k) implies exists|i: int|
            0 <= i < t.len() && #[trigger] t[i].0 == k by {
            assert(m.contains_key(k.0));
            let i = choose|i: int| 0 <= i < s.len() && #[trigger] s[i].0 == k.0;
            assert(t[i].0 == k);
        }
    }
    if is_ordered::<Scored, ()>(t, pm) {
        assert forall|i: int, j: int| 0 <= i < j < s.len() implies ranks_before(
            #[trigger] s[i],
            #[trigger] s[j],
        ) by {
            assert(<Scored as Key>::before(t[i].0, t[j].0));
        }
        assert forall|i: int| 0 <= i < s.len() implies m.contains_key(#[trigger] s[i].0)
            && m[s[i].0] == s[i].1 by {
            assert(pm.contains_key(t[i].0));
        }
        assert forall|k: Seq<u8>| #[trigger] m.contains_key(k) implies exists|i: int|
            0 <= i < s.len() && #[trigger] s[i].0 == k by {
            assert(pm.contains_key((k, m[k])));
            let i = choose|i: int| 0 <= i < t.len() && #[trigger] t[i].0 == (k, m[k]);
            assert(s[i].0 == k);
        }
    }
}

/// Members have only one ranking.
pub proof fn ranking_unique(
    s: Seq<(Seq<u8>, u64)>,
    t: Seq<(Seq<u8>, u64)>,
    m: Map<Seq<u8>, u64>,
)
    requires
        is_ranking(s, m),
        is_ranking(t, m),
    ensures
        s == t,
{
    ranking_lists_pairs(s, m);
    ranking_lists_pairs(t, m);
    let f = |p: (Seq<u8>, u64)| (p, ());
    ordered_unique::<Scored, ()>(s.map_values(f), t.map_values(f), pairs_of(m));
    assert(s.len() == s.map_values(f).len());
    assert forall|i: int| 0 <= i < s.len() implies s[i] == t[i] by {
        assert(s.map_values(f)[i].0 == s[i]);
        assert(t.map_values(f)[i].0 == t[i]);
    }
    assert(s =~= t);
}

/// The ranking found for members is `ranking` of them.
pub proof fn ranking_is(s: Seq<(Seq<u8>, u64)>, m: Map<Seq<u8>, u64>)
    requires
        is_ranking(s, m),
    ensures
        ranking(m) == s,
        is_ranking(ranking(m), m),
{
    ranking_unique(ranking(m), s, m);
}

/// Finitely many members have a ranking.
pub proof fn ranking_exists(m: Map<Seq<u8>, u64>)
    requires
        m.dom().finite(),
    ensures
        is_ranking(ranking(m), m),
{
    let pm = pairs_of(m);
    let f = |k: Seq<u8>| (k, m[k]);
    assert(pm.dom() =~= m.dom().map(f)) by {
        assert forall|p: (Seq<u8>, u64)| pm.dom().contains(p) implies m.dom().map(f).contains(
            p,
        ) by {
            assert(m.dom().contains(p.0) && f(p.0) == p);
        }
    }
    m.dom().lemma_map_finite(f);
    ordered_exists::<Scored, ()>(pm);
    let o = ordered::<Scored, ()>(pm);
    let s = o.map_values(|p: ((Seq<u8>, u64), ())| p.0);
    assert(s.map_values(|p: (Seq<u8>, u64)| (p, ())) =~= o);
    ranking_lists_pairs(s, m);
    ranking_is(s, m);
}

/// A sorted set. Two views are kept in step: the score of each member, and the
/// members in rank order.
pub struct ZSet {
    scores: SortedMap<Vec<u8>, u64>,
    sorted: SortedMap<Scored, ()>,
}

impl View for ZSet {
    type V = Map<Seq<u8>, u64>;

    closed spec fn view(&self) -> Map<Seq<u8>, u64> {
        self.scores@
    }
}

impl ZSet {
    #[verifier::type_invariant]
    spec fn in_step(self) -> bool {
        &&& self.sorted@ == pairs_of(self.scores@)
        &&& forall|m: Seq<u8>| #[trigger]
            self.scores@.contains_key(m) ==> !is_nan(self.scores@[m])
    }

    /// The ranking, from the order in which the pairs are held.
    proof fn rank_order(&self)
        requires
            self.in_step(),
            is_ordered::<Scored, ()>(ordered::<Scored, ()>(self.sorted@), self.sorted@),
        ensures
            is_ranking(ranking(self@), self@),
            ranking(self@).len() == ordered::<Scored, ()>(self.sorted@).len(),
            forall|i: int|
                0 <= i < ranking(self@).len() ==> #[trigger] ranking(self@)[i] == ordered::<
                    Scored,
                    (),
                >(self.sorted@)[i].0,
    {
        let o = ordered::<Scored, ()>(self.sorted@);
        let s = o.map_values(|p: ((Seq<u8>, u64), ())| p.0);
        assert(s.map_values(|p: (Seq<u8>, u64)| (p, ())) =~= o);
        ranking_lists_pairs(s, self@);
        ranking_is(s, self@);
    }

    /// An empty sorted set.
    pub fn new() -> (z: Self)
        ensures
            z@ == Map::<Seq<u8>, u64>::empty(),
    {
        let scores: SortedMap<Vec<u8>, u64> = SortedMap::new();
        let sorted: SortedMap<Scored, ()> = SortedMap::new();
        proof {
            assert(sorted@ =~= pairs_of(scores@));
        }
        ZSet { scores, sorted }
    }

    /// How many members there are.
    pub fn len(&self) -> (n: usize)
        ensures
            n == self@.dom().len(),
            self@.dom().finite(),
            n == ranking(self@).len(),
            is_ranking(ranking(self@), self@),
    {
        proof {
            use_type_invariant(self);
        }
        let n: usize = self.sorted.len();
        proof {
            self.rank_order();
            ranking_len(ranking(self@), self@);
        }
        n
    }

    /// Whether there is no member.
    pub fn is_empty(&self) -> (yes: bool)
        ensures
            yes == (self@ == Map::<Seq<u8>, u64>::empty()),
            yes == (self@.dom().len() == 0),
    {
        let n: usize = self.len();
        proof {
            if n == 0 {
                assert(self@.dom() =~= Set::<Seq<u8>>::empty());
                assert(self@ =~= Map::<Seq<u8>, u64>::empty());
            }
        }
        n == 0
    }

    /// Give `member` the score `score`: whether the member is new. A score that is no
    /// number is refused.
    pub fn add(&mut self, member: Vec<u8>, score: OrderedF64) -> (out: Result<bool, ()>)
        ensures
            out is Err == is_nan(score@),
            out is Err ==> final(self)@ == old(self)@,
            out matches Ok(new) ==> {
                &&& new == !old(self)@.contains_key(member@)
                &&& final(self)@ == old(self)@.insert(member@, score@)
            },
    {
        if score.is_nan() {
            return Err(());
        }
        proof {
            use_type_invariant(&*self);
        }
        let mut whole = ZSet::new();
        std::mem::swap(self, &mut whole);
        let ghost was = whole@;
        let ZSet { mut scores, mut sorted } = whole;
        let ghost pairs = sorted@;
        let key = member.dup();
        let before = scores.insert(key, score.0);
        let new = match before {
            Some(last) => {
                let gone = Scored { member: member.dup(), score: OrderedF64(last) };
                sorted.remove(&gone);
                false
            },
            None => true,
        };
        sorted.insert(Scored { member, score }, ());
        proof {
            assert(sorted@ =~= pairs_of(scores@)) by {
                assert forall|p: (Seq<u8>, u64)| sorted@.contains_key(p) == pairs_of(
                    scores@,
                ).contains_key(p) by {
                    assert(pairs.contains_key(p) == (was.contains_key(p.0) && was[p.0] == p.1));
                }
            }
        }
        *self = ZSet { scores, sorted };
        Ok(new)
    }

    /// The score that an increment of `member` starts from: 0 for a new member.
    pub fn incr_base(&self, member: &[u8]) -> (score: OrderedF64)
        ensures
            score@ == incr_base_of(self@, member@),
    {
        match self.scores.get(member) {
            Some(s) => OrderedF64(*s),
            None => OrderedF64(0),
        }
    }

    /// Give `member` the score `sum`, that of its base and the increment. A sum that
    /// is not finite is refused.
    pub fn incr_by(&mut self, member: Vec<u8>, sum: OrderedF64) -> (out: Result<OrderedF64, ()>)
        ensures
            out is Err == !is_finite(sum@),
            out is Err ==> final(self)@ == old(self)@,
            out matches Ok(next) ==> {
                &&& next == sum
                &&& final(self)@ == old(self)@.insert(member@, sum@)
            },
    {
        if !sum.is_finite() {
            return Err(());
        }
        match self.add(member, sum) {
            Ok(_) => Ok(sum),
            Err(e) => Err(e),
        }
    }

    /// The score of `member`.
    pub fn score(&self, member: &[u8]) -> (score: Option<OrderedF64>)
        ensures
            score is Some == self@.contains_key(member@),
            score matches Some(s) ==> s@ == self@[member@],
    {
        match self.scores.get(member) {
            Some(s) => Some(OrderedF64(*s)),
            None => None,
        }
    }

    /// Take `member` out: whether it was there.
    pub fn remove(&mut self, member: &[u8]) -> (was: bool)
        ensures
            was == old(self)@.contains_key(member@),
            final(self)@ == old(self)@.remove(member@),
    {
        proof {
            use_type_invariant(&*self);
        }
        let mut whole = ZSet::new();
        std::mem::swap(self, &mut whole);
        let ghost was = whole@;
        let ZSet { mut scores, mut sorted } = whole;
        let ghost pairs = sorted@;
        let before = scores.remove(member);
        let out = match before {
            Some(last) => {
                let gone = Scored {
                    member: copy_range(member, 0, member.len()),
                    score: OrderedF64(last),
                };
                proof {
                    assert(gone@.0 =~= member@);
                }
                sorted.remove(&gone);
                true
            },
            None => false,
        };
        proof {
            assert(sorted@ =~= pairs_of(scores@)) by {
                assert forall|p: (Seq<u8>, u64)| sorted@.contains_key(p) == pairs_of(
                    scores@,
                ).contains_key(p) by {
                    assert(pairs.contains_key(p) == (was.contains_key(p.0) && was[p.0] == p.1));
                }
            }
        }
        *self = ZSet { scores, sorted };
        out
    }

    /// The rank of `member`, counted from 0, the lowest score first.
    pub fn rank(&self, member: &[u8]) -> (rank: Option<u32>)
        ensures
            rank is Some == self@.contains_key(member@),
            rank matches Some(r) ==> r == rank_of(self@, member@) as u32,
    {
        proof {
            use_type_invariant(self);
        }
        match self.scores.get(member) {
            Some(s) => {
                let target = Scored {
                    member: copy_range(member, 0, member.len()),
                    score: OrderedF64(*s),
                };
                proof {
                    assert(target@.0 =~= member@);
                    assert(self.sorted@.contains_key(target@));
                }
                match self.sorted.place_of(&target) {
                    Some(i) => {
                        proof {
                            self.rank_order();
                            rank_is(self@, member@, i as int);
                        }
                        Some(i as u32)
                    },
                    None => None,
                }
            },
            None => None,
        }
    }

    /// The members of rank `start` to `stop`, both included, with their scores. A
    /// negative rank counts from the end, and one out of range is clamped.
    pub fn range_scored(&self, start: i64, stop: i64) -> (out: Vec<Scored>)
        ensures
            views(out@) == range_of(ranking(self@), start as int, stop as int),
            is_ranking(ranking(self@), self@),
    {
        let n: usize = self.sorted.len();
        proof {
            use_type_invariant(self);
            self.rank_order();
        }
        let (from, to) = range_bounds(n, start, stop);
        let mut out: Vec<Scored> = Vec::new();
        let mut i: usize = from;
        while i < to
            invariant
                from <= i <= to <= n,
                n == ordered::<Scored, ()>(self.sorted@).len(),
                n == ranking(self@).len(),
                forall|i: int|
                    0 <= i < ranking(self@).len() ==> #[trigger] ranking(self@)[i] == ordered::<
                        Scored,
                        (),
                    >(self.sorted@)[i].0,
                views(out@) == ranking(self@).subrange(from as int, i as int),
            decreases to - i,
        {
            let item = self.sorted.key_at(i).dup();
            let ghost was = out@;
            out.push(item);
            proof {
                assert(item@ == ranking(self@)[i as int]);
                assert(views(out@) =~= views(was).push(item@));
                assert(ranking(self@).subrange(from as int, i + 1) =~= ranking(self@).subrange(
                    from as int,
                    i as int,
                ).push(item@));
            }
            i += 1;
        }
        proof {
            assert(ranking(self@).subrange(from as int, to as int) =~= range_of(
                ranking(self@),
                start as int,
                stop as int,
            ));
        }
        out
    }

    /// The members of rank `start` to `stop`, both included.
    pub fn range(&self, start: i64, stop: i64) -> (out: Vec<Vec<u8>>)
        ensures
            views(out@) == members(range_of(ranking(self@), start as int, stop as int)),
            is_ranking(ranking(self@), self@),
    {
        let scored = self.range_scored(start, stop);
        let ghost want = range_of(ranking(self@), start as int, stop as int);
        let mut out: Vec<Vec<u8>> = Vec::new();
        let mut i: usize = 0;
        while i < scored.len()
            invariant
                i <= scored@.len(),
                views(scored@) == want,
                views(out@) == members(want.take(i as int)),
            decreases scored@.len() - i,
        {
            let item = scored[i].member.dup();
            let ghost was = out@;
            out.push(item);
            proof {
                assert(views(scored@)[i as int] == want[i as int]);
                assert(views(out@) =~= views(was).push(item@));
                assert(members(want.take(i + 1)) =~= members(want.take(i as int)).push(item@));
            }
            i += 1;
        }
        proof {
            assert(want.take(i as int) =~= want);
        }
        out
    }

    /// Every member with its score, by rank.
    pub fn entries(&self) -> (out: Vec<Scored>)
        ensures
            views(out@) == ranking(self@),
            is_ranking(ranking(self@), self@),
            self@.dom().finite(),
            forall|m: Seq<u8>| #[trigger] self@.contains_key(m) ==> !is_nan(self@[m]),
    {
        let out = self.range_scored(0, -1);
        proof {
            use_type_invariant(self);
            ranking_len(ranking(self@), self@);
            let s = ranking(self@);
            assert(range_of(s, 0, -1) =~= s);
        }
        out
    }
}

impl Item for ZSet {
    fn dup(&self) -> (copy: Self) {
        let list = self.entries();
        let mut copy = ZSet::new();
        let mut i: usize = 0;
        let ghost s = ranking(self@);
        proof {
            use_type_invariant(self);
        }
        while i < list.len()
            invariant
                i <= list@.len(),
                views(list@) == s,
                is_ranking(s, self@),
                forall|m: Seq<u8>| #[trigger] self@.contains_key(m) ==> !is_nan(self@[m]),
                forall|m: Seq<u8>| #[trigger]
                    copy@.contains_key(m) <==> exists|j: int|
                        0 <= j < i && #[trigger] s[j].0 == m,
                forall|m: Seq<u8>| #[trigger] copy@.contains_key(m) ==> copy@[m] == self@[m],
            decreases list@.len() - i,
        {
            proof {
                assert(views(list@)[i as int] == s[i as int]);
                assert(self@.contains_key(s[i as int].0));
            }
            let ghost was = copy@;
            let _ = copy.add(list[i].member.dup(), list[i].score);
            proof {
                assert forall|m: Seq<u8>| #[trigger] copy@.contains_key(m) implies exists|j: int|
                    0 <= j < i + 1 && #[trigger] s[j].0 == m by {
                    if m == s[i as int].0 {
                    } else {
                        assert(was.contains_key(m));
                    }
                }
                assert forall|m: Seq<u8>| (exists|j: int| 0 <= j < i + 1 && #[trigger] s[j].0 == m)
                    implies #[trigger] copy@.contains_key(m) by {
                    let j = choose|j: int| 0 <= j < i + 1 && #[trigger] s[j].0 == m;
                    if j < i {
                        assert(was.contains_key(m));
                    }
                }
            }
            i += 1;
        }
        proof {
            assert(copy@ =~= self@);
        }
        copy
    }
}

/// The score that an increment of `member` starts from: 0 for a new member.
pub open spec fn incr_base_of(m: Map<Seq<u8>, u64>, member: Seq<u8>) -> u64 {
    if m.contains_key(member) {
        m[member]
    } else {
        0
    }
}

/// The members alone.
pub open spec fn members(s: Seq<(Seq<u8>, u64)>) -> Seq<Seq<u8>> {
    Seq::new(s.len(), |i: int| s[i].0)
}

/// The place of `member` in the ranking.
pub open spec fn rank_of(m: Map<Seq<u8>, u64>, member: Seq<u8>) -> int {
    choose|i: int| 0 <= i < ranking(m).len() && #[trigger] ranking(m)[i].0 == member
}

/// A member has one place in the ranking.
pub proof fn rank_is(m: Map<Seq<u8>, u64>, member: Seq<u8>, i: int)
    requires
        is_ranking(ranking(m), m),
        0 <= i < ranking(m).len(),
        ranking(m)[i].0 == member,
    ensures
        rank_of(m, member) == i,
{
    let s = ranking(m);
    let j = rank_of(m, member);
    assert(s[i] == s[j]);
    <Scored as Key>::irreflexive(s[i]);
    if i < j {
        assert(ranks_before(s[i], s[j]));
    } else if j < i {
        assert(ranks_before(s[j], s[i]));
    }
}

/// A ranking is as long as there are members.
pub proof fn ranking_len(s: Seq<(Seq<u8>, u64)>, m: Map<Seq<u8>, u64>)
    requires
        is_ranking(s, m),
    ensures
        m.dom().finite(),
        m.dom().len() == s.len(),
{
    let ks = s.map_values(|p: (Seq<u8>, u64)| p.0);
    assert forall|i: int, j: int| 0 <= i < ks.len() && 0 <= j < ks.len() && i != j implies ks[i]
        != ks[j] by {
        assert(s[i].0 == ks[i] && s[j].0 == ks[j]);
        if ks[i] == ks[j] {
            assert(s[i] == s[j]);
            <Scored as Key>::irreflexive(s[i]);
            if i < j {
                assert(ranks_before(s[i], s[j]));
            } else {
                assert(ranks_before(s[j], s[i]));
            }
        }
    }
    ks.unique_seq_to_set();
    assert(ks.to_set() =~= m.dom()) by {
        assert forall|k: Seq<u8>| m.dom().contains(k) implies ks.to_set().contains(k) by {
            assert(m.contains_key(k));
            let i = choose|i: int| 0 <= i < s.len() && #[trigger] s[i].0 == k;
            assert(ks[i] == k);
        }
        assert forall|k: Seq<u8>| ks.to_set().contains(k) implies m.dom().contains(k) by {
            let i = choose|i: int| 0 <= i < ks.len() && ks[i] == k;
            assert(s[i].0 == k);
        }
    }
}

} // verus!
