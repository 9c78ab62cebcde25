//! Tokens, the token ring and the sequence functions the contracts are written in.

use vstd::prelude::*;

verus! {

/// A position on the partitioning ring.
#[derive(Clone, Copy, Debug, PartialEq, Eq, Structural)]
pub struct Token {
    pub value: i64,
}

/// Index of the first entry whose token is at least `t`, searching from `i`;
/// 0 (the wrap-around to the start of the ring) when there is none.
pub open spec fn successor_from<V>(s: Seq<(Token, V)>, t: i64, i: int) -> int
    decreases s.len() - i,
{
    if i < 0 || i >= s.len() {
        0
    } else if s[i].0.value >= t {
        i
    } else {
        successor_from(s, t, i + 1)
    }
}

/// Index of the ring entry that owns token `t`.
pub open spec fn successor_index<V>(s: Seq<(Token, V)>, t: i64) -> int {
    successor_from(s, t, 0)
}

/// `s` read circularly, starting at position `p`.
pub open spec fn rotated<A>(s: Seq<A>, p: int) -> Seq<A> {
    Seq::new(s.len(), |j: int| if p + j < s.len() { s[p + j] } else { s[p + j - s.len()] })
}

/// The elements of `s` in order, each kept only at its first occurrence.
pub open spec fn dedup<A>(s: Seq<A>) -> Seq<A>
    decreases s.len(),
{
    if s.len() == 0 {
        Seq::empty()
    } else {
        let p = dedup(s.drop_last());
        if p.contains(s.last()) {
            p
        } else {
            p.push(s.last())
        }
    }
}

/// The first `n` distinct elements of `s`, in order of first occurrence.
pub open spec fn first_distinct<A>(s: Seq<A>, n: nat) -> Seq<A>
    decreases s.len(),
{
    if s.len() == 0 {
        Seq::empty()
    } else {
        let p = first_distinct(s.drop_last(), n);
        if p.len() < n && !p.contains(s.last()) {
            p.push(s.last())
        } else {
            p
        }
    }
}

pub proof fn lemma_dedup_props<A>(s: Seq<A>)
    ensures
        dedup(s).no_duplicates(),
        forall|x: A| dedup(s).contains(x) <==> s.contains(x),
    decreases s.len(),
{
    if s.len() > 0 {
        lemma_dedup_props(s.drop_last());
        let p = dedup(s.drop_last());
        assert forall|x: A| s.contains(x) <==> (s.drop_last().contains(x) || x == s.last()) by {
            if s.contains(x) {
                let k = choose|k: int| 0 <= k < s.len() && s[k] == x;
                if k < s.len() - 1 {
                    assert(s.drop_last()[k] == x);
                }
            }
            if x == s.last() {
                assert(s[s.len() - 1] == x);
            }
            if s.drop_last().contains(x) {
                let k = choose|k: int| 0 <= k < s.len() - 1 && s.drop_last()[k] == x;
                assert(s[k] == x);
            }
        }
        if !p.contains(s.last()) {
            let q = p.push(s.last());
            assert forall|x: A| q.contains(x) <==> (p.contains(x) || x == s.last()) by {
                if q.contains(x) {
                    let k = choose|k: int| 0 <= k < q.len() && q[k] == x;
                    if k < p.len() {
                        assert(p[k] == x);
                    }
                }
                if p.contains(x) {
                    let k = choose|k: int| 0 <= k < p.len() && p[k] == x;
                    assert(q[k] == x);
                }
                if x == s.last() {
                    assert(q[q.len() - 1] == x);
                }
            }
        }
    }
}

/// Truncating the first `n'` distinct elements to `n` gives the first `n`.
pub proof fn lemma_first_distinct_prefix<A>(s: Seq<A>, n: nat, m: nat)
    requires
        n <= m,
    ensures
        first_distinct(s, n).len() <= n,
        first_distinct(s, n) == first_distinct(s, m).take(
            if first_distinct(s, m).len() < n { first_distinct(s, m).len() as int } else { n as int },
        ),
    decreases s.len(),
{
    if s.len() > 0 {
        let s0 = s.drop_last();
        lemma_first_distinct_prefix(s0, n, m);
        let pn = first_distinct(s0, n);
        let pm = first_distinct(s0, m);
        let x = s.last();
        if pm.len() < n {
            assert(pm.take(pm.len() as int) =~= pm);
            assert(pn == pm);
            let rm = first_distinct(s, m);
            assert(rm.take(rm.len() as int) =~= rm);
        } else {
            assert(pn =~= pm.take(n as int));
            assert(pn.len() == n);
            let rm = first_distinct(s, m);
            assert forall|k: int| 0 <= k < n implies rm[k] == pm[k] by {
                if pm.len() < m && !pm.contains(x) {
                    assert(rm == pm.push(x));
                }
            }
            assert(rm.take(n as int) =~= pn);
        }
    }
}

/// Tokens in ascending order, each with a value; a token is owned by the
/// entry of the first token not below it, wrapping round to the first entry.
pub struct TokenRing<V> {
    ring: Vec<(Token, V)>,
}

impl<V> TokenRing<V> {
    pub closed spec fn entries(&self) -> Seq<(Token, V)> {
        self.ring@
    }

    /// Index of the entry owning `t`.
    pub open spec fn owner_index(&self, t: i64) -> int {
        successor_index(self.entries(), t)
    }

    /// The value of the entry owning `t`, if the ring has any entry.
    pub open spec fn owner(&self, t: i64) -> Option<V> {
        if self.entries().len() == 0 {
            None
        } else {
            Some(self.entries()[self.owner_index(t)].1)
        }
    }

    pub fn new(ring: Vec<(Token, V)>) -> (r: TokenRing<V>)
        ensures
            r.entries() == ring@,
    {
        TokenRing { ring }
    }

    pub fn len(&self) -> (r: usize)
        ensures
            r == self.entries().len(),
    {
        self.ring.len()
    }

    /// The entry at position `i` in ring order.
    pub fn entry(&self, i: usize) -> (r: &(Token, V))
        requires
            i < self.entries().len(),
        ensures
            *r == self.entries()[i as int],
    {
        &self.ring[i]
    }

    /// Position of the entry owning `token`; 0 when the ring is empty.
    pub fn owner_position(&self, token: Token) -> (r: usize)
        ensures
            self.entries().len() > 0 ==> r == self.owner_index(token.value),
            self.entries().len() > 0 ==> r < self.entries().len(),
    {
        let n = self.ring.len();
        let mut i: usize = 0;
        while i < n
            invariant
                n == self.entries().len(),
                i <= n,
                successor_from(self.entries(), token.value, i as int) == successor_from(
                    self.entries(),
                    token.value,
                    0,
                ),
            decreases n - i,
        {
            if self.ring[i].0.value >= token.value {
                return i;
            }
            i = i + 1;
        }
        0
    }

    /// The value owning `token`, `None` for an empty ring.
    pub fn get_elem_for_token(&self, token: Token) -> (r: Option<&V>)
        ensures
            r.is_none() <==> self.owner(token.value).is_none(),
            r.is_some() ==> *r.unwrap() == self.owner(token.value).unwrap(),
    {
        if self.ring.len() == 0 {
            None
        } else {
            let i = self.owner_position(token);
            Some(&self.ring[i].1)
        }
    }
}

} // verus!

verus! {

/// The values of a ring's entries, in ring order.
pub open spec fn ring_values<V>(s: Seq<(Token, V)>) -> Seq<V> {
    s.map_values(|e: (Token, V)| e.1)
}

/// Whether `v` holds `x`.
pub fn vec_contains(v: &Vec<usize>, x: usize) -> (r: bool)
    ensures
        r == v@.contains(x),
{
    let mut i: usize = 0;
    while i < v.len()
        invariant
            i <= v@.len(),
            forall|k: int| 0 <= k < i ==> v@[k] != x,
        decreases v@.len() - i,
    {
        if v[i] == x {
            return true;
        }
        i = i + 1;
    }
    false
}

/// The first `rf` distinct values met walking `ring` from the entry owning
/// `token`, wrapping round once.
pub fn walk_distinct(ring: &TokenRing<usize>, token: Token, rf: usize) -> (r: Vec<usize>)
    ensures
        r@ == first_distinct(
            rotated(ring_values(ring.entries()), ring.owner_index(token.value)),
            rf as nat,
        ),
{
    let n = ring.len();
    let p = ring.owner_position(token);
    let ghost rot = rotated(ring_values(ring.entries()), ring.owner_index(token.value));
    let mut out: Vec<usize> = Vec::new();
    let mut i: usize = 0;
    while i < n
        invariant
            n == ring.entries().len(),
            n > 0 ==> p == ring.owner_index(token.value) && p < n,
            rot == rotated(ring_values(ring.entries()), ring.owner_index(token.value)),
            i <= n,
            out@ == first_distinct(rot.take(i as int), rf as nat),
        decreases n - i,
    {
        let idx: usize = if p < n - i { p + i } else { p - (n - i) };
        let node = ring.entry(idx).1;
        assert(node == rot[i as int]);
        assert(rot.take(i + 1).drop_last() =~= rot.take(i as int));
        if out.len() < rf && !vec_contains(&out, node) {
            out.push(node);
        }
        i = i + 1;
    }
    assert(rot.take(n as int) =~= rot);
    out
}

} // verus!

verus! {

/// Index of the first pair named `name` in `s` from `i` on, or -1.
pub open spec fn name_index_from<V>(s: Seq<(String, V)>, name: Seq<char>, i: int) -> int
    decreases s.len() - i,
{
    if i < 0 || i >= s.len() {
        -1
    } else if s[i].0@ == name {
        i
    } else {
        name_index_from(s, name, i + 1)
    }
}

/// Index of the first pair named `name` in `s`, or -1.
pub open spec fn name_index<V>(s: Seq<(String, V)>, name: Seq<char>) -> int {
    name_index_from(s, name, 0)
}

pub proof fn lemma_name_index_range<V>(s: Seq<(String, V)>, name: Seq<char>, i: int)
    requires
        0 <= i,
    ensures
        name_index_from(s, name, i) == -1 || (i <= name_index_from(s, name, i) < s.len()
            && s[name_index_from(s, name, i)].0@ == name),
    decreases s.len() - i,
{
    if i < s.len() && s[i].0@ != name {
        lemma_name_index_range(s, name, i + 1);
    }
}

/// Position of the first pair of `v` named `name`.
pub fn find_named<V>(v: &Vec<(String, V)>, name: &String) -> (r: Option<usize>)
    ensures
        r.is_none() <==> name_index(v@, name@) == -1,
        r.is_some() ==> r.unwrap() == name_index(v@, name@) && r.unwrap() < v@.len(),
{
    proof {
        lemma_name_index_range(v@, name@, 0);
    }
    let mut i: usize = 0;
    while i < v.len()
        invariant
            i <= v@.len(),
            name_index_from(v@, name@, i as int) == name_index(v@, name@),
        decreases v@.len() - i,
    {
        if v[i].0 == *name {
            return Some(i);
        }
        i = i + 1;
    }
    None
}

} // verus!

verus! {

pub proof fn lemma_concat_contains<A>(a: Seq<A>, b: Seq<A>, x: A)
    ensures
        (a + b).contains(x) <==> (a.contains(x) || b.contains(x)),
{
    let c = a + b;
    if c.contains(x) {
        let k = choose|k: int| 0 <= k < c.len() && c[k] == x;
        if k < a.len() {
            assert(a[k] == x);
        } else {
            assert(b[k - a.len()] == x);
        }
    }
    if a.contains(x) {
        let k = choose|k: int| 0 <= k < a.len() && a[k] == x;
        assert(c[k] == x);
    }
    if b.contains(x) {
        let k = choose|k: int| 0 <= k < b.len() && b[k] == x;
        assert(c[a.len() + k] == x);
    }
}

/// Deduplicating `a + b` starts with the deduplicated `a`.
pub proof fn lemma_dedup_concat_prefix<A>(a: Seq<A>, b: Seq<A>)
    ensures
        dedup(a).is_prefix_of(dedup(a + b)),
    decreases b.len(),
{
    if b.len() == 0 {
        assert(a + b =~= a);
    } else {
        lemma_dedup_concat_prefix(a, b.drop_last());
        assert((a + b).drop_last() =~= a + b.drop_last());
    }
}

} // verus!
