use vstd::prelude::*;

verus! {

/// The distinct keys of a key/value sequence, in order of first appearance.
pub open spec fn keys_of<V>(s: Seq<(u64, V)>) -> Seq<u64>
    decreases s.len(),
{
    if s.len() == 0 {
        Seq::empty()
    } else {
        let rest = keys_of(s.drop_last());
        if rest.contains(s.last().0) {
            rest
        } else {
            rest.push(s.last().0)
        }
    }
}

/// The values paired with key `k`, keeping their original relative order.
pub open spec fn values_of<V>(s: Seq<(u64, V)>, k: u64) -> Seq<V>
    decreases s.len(),
{
    if s.len() == 0 {
        Seq::empty()
    } else {
        let rest = values_of(s.drop_last(), k);
        if s.last().0 == k {
            rest.push(s.last().1)
        } else {
            rest
        }
    }
}

pub proof fn lemma_keys_of_complete<V>(s: Seq<(u64, V)>)
    ensures
        forall|k: u64| keys_of(s).contains(k) <==> exists|i: int| 0 <= i < s.len() && (#[trigger] s[i]).0 == k,
        keys_of(s).no_duplicates(),
    decreases s.len(),
{
    if s.len() > 0 {
        lemma_keys_of_complete(s.drop_last());
        assert forall|k: u64| keys_of(s).contains(k) implies
            exists|i: int| 0 <= i < s.len() && (#[trigger] s[i]).0 == k by {
            if keys_of(s.drop_last()).contains(k) {
                let i = choose|i: int| 0 <= i < s.drop_last().len() && (#[trigger] s.drop_last()[i]).0 == k;
                assert(s[i].0 == k);
            } else {
                assert(k == s.last().0);
                assert(s[s.len() - 1].0 == k);
            }
        }
        assert forall|k: u64|
            exists|i: int| 0 <= i < s.len() && (#[trigger] s[i]).0 == k implies keys_of(s).contains(k) by {
            let i = choose|i: int| 0 <= i < s.len() && (#[trigger] s[i]).0 == k;
            let rest = keys_of(s.drop_last());
            if i < s.len() - 1 {
                assert(s.drop_last()[i].0 == k);
                assert(rest.contains(k));
                if !rest.contains(s.last().0) {
                    let j = choose|j: int| 0 <= j < rest.len() && rest[j] == k;
                    assert(rest.push(s.last().0)[j] == k);
                }
            } else {
                assert(k == s.last().0);
                if !rest.contains(k) {
                    assert(rest.push(k)[rest.len() as int] == k);
                }
            }
        }
    }
}

/// Every value listed for key `k` comes from a pair `(k, v)` of the sequence.
pub proof fn lemma_values_of_member<V>(s: Seq<(u64, V)>, k: u64, j: int)
    requires
        0 <= j < values_of(s, k).len(),
    ensures
        exists|i: int| 0 <= i < s.len() && #[trigger] s[i] == (k, values_of(s, k)[j]),
    decreases s.len(),
{
    if s.len() > 0 {
        let rest = values_of(s.drop_last(), k);
        if s.last().0 == k && j == rest.len() {
            assert(s[s.len() - 1] == (k, values_of(s, k)[j]));
        } else {
            lemma_values_of_member(s.drop_last(), k, j);
            let i = choose|i: int| 0 <= i < s.drop_last().len()
                && #[trigger] s.drop_last()[i] == (k, values_of(s.drop_last(), k)[j]);
            assert(s[i] == (k, values_of(s, k)[j]));
        }
    }
}

/// The values listed for a key are distinct whenever the sequence's values are.
pub proof fn lemma_values_of_no_dup<V>(s: Seq<(u64, V)>, k: u64)
    requires
        forall|i: int, j: int| 0 <= i < j < s.len() ==> (#[trigger] s[i]).1 != (#[trigger] s[j]).1,
    ensures
        values_of(s, k).no_duplicates(),
    decreases s.len(),
{
    if s.len() > 0 {
        assert forall|i: int, j: int| 0 <= i < j < s.drop_last().len() implies
            (#[trigger] s.drop_last()[i]).1 != (#[trigger] s.drop_last()[j]).1 by {
            assert(s[i].1 != s[j].1);
        }
        lemma_values_of_no_dup(s.drop_last(), k);
        if s.last().0 == k {
            let rest = values_of(s.drop_last(), k);
            assert(!rest.contains(s.last().1)) by {
                if rest.contains(s.last().1) {
                    let j = choose|j: int| 0 <= j < rest.len() && rest[j] == s.last().1;
                    lemma_values_of_member(s.drop_last(), k, j);
                    let i = choose|i: int| 0 <= i < s.drop_last().len()
                        && #[trigger] s.drop_last()[i] == (k, rest[j]);
                    assert(s[i].1 == s[s.len() - 1].1);
                }
            }
            let out = rest.push(s.last().1);
            assert forall|a: int, b: int| 0 <= a < b < out.len() implies out[a] != out[b] by {
                if b == rest.len() as int {
                    if out[a] == s.last().1 {
                        assert(rest[a] == s.last().1);
                        assert(rest.contains(s.last().1));
                    }
                }
            }
        }
    }
}

/// When values sharing a key never share their first component, the values
/// listed for any one key have pairwise distinct first components.
pub proof fn lemma_values_of_fst_distinct<W>(s: Seq<(u64, (u64, W))>, k: u64)
    requires
        forall|i: int, j: int| 0 <= i < j < s.len() && (#[trigger] s[i]).0 == (#[trigger] s[j]).0
            ==> (s[i].1).0 != (s[j].1).0,
    ensures
        forall|w1: int, w2: int| 0 <= w1 < w2 < values_of(s, k).len()
            ==> (#[trigger] values_of(s, k)[w1]).0 != (#[trigger] values_of(s, k)[w2]).0,
    decreases s.len(),
{
    if s.len() > 0 {
        assert forall|i: int, j: int| 0 <= i < j < s.drop_last().len()
            && (#[trigger] s.drop_last()[i]).0 == (#[trigger] s.drop_last()[j]).0 implies
            (s.drop_last()[i].1).0 != (s.drop_last()[j].1).0 by {
            assert(s[i] == s.drop_last()[i] && s[j] == s.drop_last()[j]);
        }
        lemma_values_of_fst_distinct(s.drop_last(), k);
        let rest = values_of(s.drop_last(), k);
        if s.last().0 == k {
            let out = rest.push(s.last().1);
            assert forall|w1: int, w2: int| 0 <= w1 < w2 < out.len() implies
                (#[trigger] out[w1]).0 != (#[trigger] out[w2]).0 by {
                if w2 == rest.len() as int {
                    lemma_values_of_member(s.drop_last(), k, w1);
                    let i = choose|i: int| 0 <= i < s.drop_last().len()
                        && #[trigger] s.drop_last()[i] == (k, rest[w1]);
                    assert(s[i].0 == s[s.len() - 1].0);
                    assert((s[i].1).0 != (s[s.len() - 1].1).0);
                } else {
                    assert(rest[w1].0 != rest[w2].0);
                }
            }
        }
    }
}

/// Reports whether a vector holds a given value.
pub fn seq_has(v: &Vec<u64>, x: u64) -> (r: bool)
    ensures
        r == v@.contains(x),
{
    let mut i: usize = 0;
    while i < v.len()
        invariant
            0 <= i <= v@.len(),
            forall|j: int| 0 <= j < i ==> v@[j] != x,
        decreases v@.len() - i,
    {
        if v[i] == x {
            return true;
        }
        i = i + 1;
    }
    false
}

/// Groups a key/value sequence into one entry per distinct key, keys in order of
/// first appearance, each entry listing that key's values in original order.
pub fn group_by_to<V: Copy>(pairs: &Vec<(u64, V)>) -> (r: Vec<(u64, Vec<V>)>)
    ensures
        r@.len() == keys_of(pairs@).len(),
        forall|j: int| 0 <= j < r@.len() ==> (#[trigger] r@[j]).0 == keys_of(pairs@)[j],
        forall|j: int| 0 <= j < r@.len() ==> (#[trigger] r@[j]).1@ == values_of(pairs@, r@[j].0),
        forall|j1: int, j2: int| 0 <= j1 < j2 < r@.len() ==> (#[trigger] r@[j1]).0 != (#[trigger] r@[j2]).0,
{
    proof {
        lemma_keys_of_complete(pairs@);
    }
    let mut keys: Vec<u64> = Vec::new();
    let mut i: usize = 0;
    while i < pairs.len()
        invariant
            0 <= i <= pairs@.len(),
            keys@ == keys_of(pairs@.take(i as int)),
        decreases pairs@.len() - i,
    {
        let k = pairs[i].0;
        proof {
            assert(pairs@.take(i + 1 as int).drop_last() =~= pairs@.take(i as int));
            assert(pairs@.take(i + 1 as int).last() == pairs@[i as int]);
        }
        if !seq_has(&keys, k) {
            keys.push(k);
        }
        i = i + 1;
    }
    proof {
        assert(pairs@.take(pairs@.len() as int) =~= pairs@);
    }
    let mut r: Vec<(u64, Vec<V>)> = Vec::new();
    let mut j: usize = 0;
    while j < keys.len()
        invariant
            0 <= j <= keys@.len(),
            keys@ == keys_of(pairs@),
            r@.len() == j,
            forall|t: int| 0 <= t < j ==> (#[trigger] r@[t]).0 == keys_of(pairs@)[t],
            forall|t: int| 0 <= t < j ==> (#[trigger] r@[t]).1@ == values_of(pairs@, r@[t].0),
        decreases keys@.len() - j,
    {
        let k = keys[j];
        let mut vals: Vec<V> = Vec::new();
        let mut i2: usize = 0;
        while i2 < pairs.len()
            invariant
                0 <= i2 <= pairs@.len(),
                vals@ == values_of(pairs@.take(i2 as int), k),
            decreases pairs@.len() - i2,
        {
            proof {
                assert(pairs@.take(i2 + 1 as int).drop_last() =~= pairs@.take(i2 as int));
                assert(pairs@.take(i2 + 1 as int).last() == pairs@[i2 as int]);
            }
            if pairs[i2].0 == k {
                vals.push(pairs[i2].1);
            }
            i2 = i2 + 1;
        }
        proof {
            assert(pairs@.take(pairs@.len() as int) =~= pairs@);
        }
        r.push((k, vals));
        j = j + 1;
    }
    r
}

/// A ternary relation stored as an ordered sequence of triples; duplicates are
/// preserved and the order of insertion is kept.
pub struct Table {
    rows: Vec<(u64, u64, u64)>,
}

impl View for Table {
    type V = Seq<(u64, u64, u64)>;

    closed spec fn view(&self) -> Seq<(u64, u64, u64)> {
        self.rows@
    }
}

/// The triples of `s` keyed by their first coordinate.
pub open spec fn pairs_by_a(s: Seq<(u64, u64, u64)>) -> Seq<(u64, (u64, u64))> {
    s.map_values(|t: (u64, u64, u64)| (t.0, (t.1, t.2)))
}

/// The triples of `s` keyed by their second coordinate.
pub open spec fn pairs_by_b(s: Seq<(u64, u64, u64)>) -> Seq<(u64, (u64, u64))> {
    s.map_values(|t: (u64, u64, u64)| (t.1, (t.0, t.2)))
}

/// The triples of `s` keyed by their third coordinate.
pub open spec fn pairs_by_c(s: Seq<(u64, u64, u64)>) -> Seq<(u64, (u64, u64))> {
    s.map_values(|t: (u64, u64, u64)| (t.2, (t.0, t.1)))
}

impl Table {
    /// Builds a table from an ordered sequence of triples, with no validation.
    pub fn from_rows(rows: Vec<(u64, u64, u64)>) -> (r: Table)
        ensures
            r@ == rows@,
    {
        Table { rows }
    }

    /// The number of stored triples, duplicates included.
    pub fn len(&self) -> (r: usize)
        ensures
            r == self@.len(),
    {
        self.rows.len()
    }

    /// A copy of the stored triples, in order.
    pub fn rows(&self) -> (r: Vec<(u64, u64, u64)>)
        ensures
            r@ == self@,
    {
        let mut out: Vec<(u64, u64, u64)> = Vec::new();
        let mut i: usize = 0;
        while i < self.rows.len()
            invariant
                0 <= i <= self@.len(),
                out@ == self@.take(i as int),
            decreases self@.len() - i,
        {
            out.push(self.rows[i]);
            proof {
                assert(self@.take(i + 1 as int) =~= self@.take(i as int).push(self@[i as int]));
            }
            i = i + 1;
        }
        proof {
            assert(self@.take(self@.len() as int) =~= self@);
        }
        out
    }

    /// Groups the relation by its first coordinate: one entry per distinct
    /// first value, listing the remaining pairs in original relative order.
    pub fn by_a(&self) -> (r: Vec<(u64, Vec<(u64, u64)>)>)
        ensures
            r@.len() == keys_of(pairs_by_a(self@)).len(),
            forall|j: int| 0 <= j < r@.len() ==> (#[trigger] r@[j]).0 == keys_of(pairs_by_a(self@))[j],
            forall|j: int| 0 <= j < r@.len() ==> (#[trigger] r@[j]).1@ == values_of(pairs_by_a(self@), r@[j].0),
    {
        let mut pairs: Vec<(u64, (u64, u64))> = Vec::new();
        let mut i: usize = 0;
        while i < self.rows.len()
            invariant
                0 <= i <= self@.len(),
                pairs@ =~= pairs_by_a(self@.take(i as int)),
            decreases self@.len() - i,
        {
            let t = self.rows[i];
            pairs.push((t.0, (t.1, t.2)));
            proof {
                assert(pairs@ =~= pairs_by_a(self@.take(i + 1 as int)));
            }
            i = i + 1;
        }
        proof {
            assert(self@.take(self@.len() as int) =~= self@);
        }
        group_by_to(&pairs)
    }

    /// Groups the relation by its second coordinate.
    pub fn by_b(&self) -> (r: Vec<(u64, Vec<(u64, u64)>)>)
        ensures
            r@.len() == keys_of(pairs_by_b(self@)).len(),
            forall|j: int| 0 <= j < r@.len() ==> (#[trigger] r@[j]).0 == keys_of(pairs_by_b(self@))[j],
            forall|j: int| 0 <= j < r@.len() ==> (#[trigger] r@[j]).1@ == values_of(pairs_by_b(self@), r@[j].0),
    {
        let mut pairs: Vec<(u64, (u64, u64))> = Vec::new();
        let mut i: usize = 0;
        while i < self.rows.len()
            invariant
                0 <= i <= self@.len(),
                pairs@ =~= pairs_by_b(self@.take(i as int)),
            decreases self@.len() - i,
        {
            let t = self.rows[i];
            pairs.push((t.1, (t.0, t.2)));
            proof {
                assert(pairs@ =~= pairs_by_b(self@.take(i + 1 as int)));
            }
            i = i + 1;
        }
        proof {
            assert(self@.take(self@.len() as int) =~= self@);
        }
        group_by_to(&pairs)
    }

    /// Groups the relation by its third coordinate.
    pub fn by_c(&self) -> (r: Vec<(u64, Vec<(u64, u64)>)>)
        ensures
            r@.len() == keys_of(pairs_by_c(self@)).len(),
            forall|j: int| 0 <= j < r@.len() ==> (#[trigger] r@[j]).0 == keys_of(pairs_by_c(self@))[j],
            forall|j: int| 0 <= j < r@.len() ==> (#[trigger] r@[j]).1@ == values_of(pairs_by_c(self@), r@[j].0),
    {
        let mut pairs: Vec<(u64, (u64, u64))> = Vec::new();
        let mut i: usize = 0;
        while i < self.rows.len()
            invariant
                0 <= i <= self@.len(),
                pairs@ =~= pairs_by_c(self@.take(i as int)),
            decreases self@.len() - i,
        {
            let t = self.rows[i];
            pairs.push((t.2, (t.0, t.1)));
            proof {
                assert(pairs@ =~= pairs_by_c(self@.take(i + 1 as int)));
            }
            i = i + 1;
        }
        proof {
            assert(self@.take(self@.len() as int) =~= self@);
        }
        group_by_to(&pairs)
    }
}

} // verus!
