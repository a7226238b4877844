//! An ordered map from label keys to label values, kept as a vector of
//! entries sorted strictly by key.
//!
//! The canonical (key-ascending) entry order is what makes the stable hasher
//! deterministic: two maps that hold the same entries are the same vector,
//! however they were built up.

use vstd::prelude::*;
use crate::text::{lex_lt, lemma_lex_lt_trichotomy, lemma_lex_lt_transitive, str_eq_chars,
    str_lex_lt};

verus! {

/// Entries are strictly ascending by key.
pub open spec fn sorted_by_keys(s: Seq<(String, String)>) -> bool {
    forall|i: int, j: int| 0 <= i < j < s.len() ==> lex_lt(s[i].0@, s[j].0@)
}

/// No two entries share a key.
pub open spec fn keys_distinct(s: Seq<(String, String)>) -> bool {
    forall|i: int, j: int| 0 <= i < j < s.len() ==> s[i].0@ != s[j].0@
}

/// Strictly sorted entries have pairwise distinct keys.
pub proof fn lemma_sorted_distinct(s: Seq<(String, String)>)
    requires
        sorted_by_keys(s),
    ensures
        keys_distinct(s),
{
    assert forall|i: int, j: int| 0 <= i < j < s.len() implies s[i].0@ != s[j].0@ by {
        lemma_lex_lt_trichotomy(s[i].0@, s[j].0@);
    }
}

/// The map held by a sequence of entries; later entries override earlier ones.
pub open spec fn map_of(s: Seq<(String, String)>) -> Map<Seq<char>, Seq<char>>
    decreases s.len(),
{
    if s.len() == 0 {
        Map::empty()
    } else {
        map_of(s.drop_last()).insert(s.last().0@, s.last().1@)
    }
}

/// A key is in the map exactly when some entry carries it.
pub proof fn lemma_map_of_contains(s: Seq<(String, String)>, k: Seq<char>)
    ensures
        map_of(s).contains_key(k) <==> exists|i: int| 0 <= i < s.len() && s[i].0@ == k,
    decreases s.len(),
{
    if s.len() > 0 {
        lemma_map_of_contains(s.drop_last(), k);
        if map_of(s).contains_key(k) {
            if s.last().0@ != k {
                let i = choose|i: int| 0 <= i < s.drop_last().len() && s.drop_last()[i].0@ == k;
                assert(s[i].0@ == k);
            } else {
                assert(s[s.len() - 1].0@ == k);
            }
        }
        if exists|i: int| 0 <= i < s.len() && s[i].0@ == k {
            let i = choose|i: int| 0 <= i < s.len() && s[i].0@ == k;
            if i < s.len() - 1 {
                assert(s.drop_last()[i].0@ == k);
            }
        }
    }
}

/// With distinct keys, each entry gives the value the map holds for its key.
pub proof fn lemma_map_of_index(s: Seq<(String, String)>, i: int)
    requires
        keys_distinct(s),
        0 <= i < s.len(),
    ensures
        map_of(s).contains_key(s[i].0@),
        map_of(s)[s[i].0@] == s[i].1@,
    decreases s.len(),
{
    lemma_map_of_contains(s, s[i].0@);
    if i < s.len() - 1 {
        assert(s.drop_last()[i] == s[i]);
        lemma_map_of_index(s.drop_last(), i);
        assert(s[i].0@ != s.last().0@);
    }
}

/// Placing an entry before a run of entries with other keys inserts its pair.
pub proof fn lemma_map_of_mid_insert(
    pre: Seq<(String, String)>,
    e: (String, String),
    post: Seq<(String, String)>,
)
    requires
        forall|i: int| 0 <= i < post.len() ==> post[i].0@ != e.0@,
    ensures
        map_of(pre + seq![e] + post) == map_of(pre + post).insert(e.0@, e.1@),
    decreases post.len(),
{
    if post.len() == 0 {
        assert(pre + seq![e] + post =~= pre + seq![e]);
        assert(pre + post =~= pre);
        assert((pre + seq![e]).drop_last() =~= pre);
        assert((pre + seq![e]).last() == e);
    } else {
        let l = post.last();
        lemma_map_of_mid_insert(pre, e, post.drop_last());
        assert((pre + seq![e] + post).drop_last() =~= pre + seq![e] + post.drop_last());
        assert((pre + seq![e] + post).last() == l);
        assert((pre + post).drop_last() =~= pre + post.drop_last());
        assert((pre + post).last() == l);
        assert(post[post.len() - 1].0@ != e.0@);
        assert(map_of(pre + post.drop_last()).insert(e.0@, e.1@).insert(l.0@, l.1@) =~= map_of(
            pre + post.drop_last(),
        ).insert(l.0@, l.1@).insert(e.0@, e.1@));
    }
}

/// The map reads only the views of the entries.
pub proof fn lemma_map_of_congruent(e1: Seq<(String, String)>, e2: Seq<(String, String)>)
    requires
        e1.len() == e2.len(),
        forall|i: int| 0 <= i < e1.len() ==> (#[trigger] e1[i]).0@ == e2[i].0@ && e1[i].1@ == e2[i].1@,
    ensures
        map_of(e1) == map_of(e2),
    decreases e1.len(),
{
    if e1.len() > 0 {
        assert(forall|i: int|
            0 <= i < e1.drop_last().len() ==> #[trigger] e1.drop_last()[i] == e1[i]);
        assert(forall|i: int|
            0 <= i < e2.drop_last().len() ==> #[trigger] e2.drop_last()[i] == e2[i]);
        lemma_map_of_congruent(e1.drop_last(), e2.drop_last());
        assert(e1.last().0@ == e2.last().0@ && e1.last().1@ == e2.last().1@);
    }
}

/// A map determines its sorted entry vector: two strictly sorted entry
/// sequences holding the same map agree key for key and value for value.
pub proof fn lemma_sorted_rep_unique(s1: Seq<(String, String)>, s2: Seq<(String, String)>)
    requires
        sorted_by_keys(s1),
        sorted_by_keys(s2),
        map_of(s1) == map_of(s2),
    ensures
        s1.len() == s2.len(),
        forall|i: int|
            0 <= i < s1.len() ==> s1[i].0@ == #[trigger] s2[i].0@ && s1[i].1@ == s2[i].1@,
    decreases s1.len(),
{
    lemma_sorted_distinct(s1);
    lemma_sorted_distinct(s2);
    if s1.len() == 0 {
        if s2.len() > 0 {
            lemma_map_of_index(s2, s2.len() - 1);
            lemma_map_of_contains(s1, s2.last().0@);
        }
    } else if s2.len() == 0 {
        lemma_map_of_index(s1, s1.len() - 1);
        lemma_map_of_contains(s2, s1.last().0@);
    } else {
        let k1 = s1.last().0@;
        let k2 = s2.last().0@;
        // Each last key is the strict maximum of its sequence's keys; equal
        // maps then force the last entries to agree.
        lemma_map_of_index(s1, s1.len() - 1);
        lemma_map_of_index(s2, s2.len() - 1);
        lemma_map_of_contains(s2, k1);
        lemma_map_of_contains(s1, k2);
        let i1 = choose|i: int| 0 <= i < s1.len() && s1[i].0@ == k2;
        let i2 = choose|i: int| 0 <= i < s2.len() && s2[i].0@ == k1;
        if k1 != k2 {
            assert(i1 < s1.len() - 1);
            assert(i2 < s2.len() - 1);
            assert(lex_lt(s1[i1].0@, k1));
            assert(lex_lt(s2[i2].0@, k2));
            lemma_lex_lt_trichotomy(k1, k2);
        }
        assert(k1 == k2);
        lemma_map_of_index(s1, s1.len() - 1);
        lemma_map_of_index(s2, s2.len() - 1);
        assert(s1.last().1@ == map_of(s1)[k1]);
        assert(s2.last().1@ == map_of(s2)[k1]);
        // The shorter sequences hold the same map: the last key is absent
        // from both, so removing it undoes the final insert on each side.
        lemma_map_of_contains(s1.drop_last(), k1);
        lemma_map_of_contains(s2.drop_last(), k2);
        assert(forall|i: int|
            0 <= i < s1.drop_last().len() ==> #[trigger] s1.drop_last()[i] == s1[i]);
        assert(forall|i: int|
            0 <= i < s2.drop_last().len() ==> #[trigger] s2.drop_last()[i] == s2[i]);
        assert(!map_of(s1.drop_last()).contains_key(k1)) by {
            if map_of(s1.drop_last()).contains_key(k1) {
                let i = choose|i: int|
                    0 <= i < s1.drop_last().len() && s1.drop_last()[i].0@ == k1;
                assert(s1[i].0@ == k1);
            }
        }
        assert(!map_of(s2.drop_last()).contains_key(k2)) by {
            if map_of(s2.drop_last()).contains_key(k2) {
                let i = choose|i: int|
                    0 <= i < s2.drop_last().len() && s2.drop_last()[i].0@ == k2;
                assert(s2[i].0@ == k2);
            }
        }
        assert(map_of(s1.drop_last()) =~= map_of(s1).remove(k1));
        assert(map_of(s2.drop_last()) =~= map_of(s2).remove(k1));
        lemma_sorted_rep_unique(s1.drop_last(), s2.drop_last());
        assert forall|i: int|
            0 <= i < s1.len() implies s1[i].0@ == #[trigger] s2[i].0@ && s1[i].1@ == s2[i].1@ by {
            if i < s1.len() - 1 {
                assert(s1.drop_last()[i] == s1[i]);
                assert(s2.drop_last()[i] == s2[i]);
            }
        }
    }
}

/// A map from label keys to label values, with a canonical entry order.
#[derive(Clone, Debug)]
pub struct LabelMap {
    pub entries: Vec<(String, String)>,
}

impl View for LabelMap {
    type V = Map<Seq<char>, Seq<char>>;

    open spec fn view(&self) -> Map<Seq<char>, Seq<char>> {
        map_of(self.entries@)
    }
}

impl LabelMap {
    /// The entries in their canonical order.
    pub open spec fn entry_seq(&self) -> Seq<(String, String)> {
        self.entries@
    }

    /// The entries are strictly ascending by key.
    pub open spec fn wf(&self) -> bool {
        sorted_by_keys(self.entries@)
    }

    /// An empty map.
    pub fn new() -> (r: LabelMap)
        ensures
            r.wf(),
            r@ == Map::<Seq<char>, Seq<char>>::empty(),
            r.entry_seq().len() == 0,
    {
        LabelMap { entries: Vec::new() }
    }

    /// How many entries the map holds.
    pub fn len(&self) -> (r: usize)
        requires
            self.wf(),
        ensures
            r == self.entry_seq().len(),
            r == self@.dom().len(),
    {
        proof {
            lemma_sorted_distinct(self.entries@);
            lemma_entry_count(self.entries@);
        }
        self.entries.len()
    }

    /// Read-only access to the entries, key-ascending.
    pub fn entries(&self) -> (r: &Vec<(String, String)>)
        ensures
            r@ == self.entry_seq(),
    {
        &self.entries
    }

    /// The value stored under `key`, if any.
    pub fn get(&self, key: &str) -> (r: Option<&String>)
        requires
            self.wf(),
        ensures
            match r {
                Some(v) => self@.contains_key(key@) && self@[key@] == v@,
                None => !self@.contains_key(key@),
            },
    {
        proof {
            lemma_sorted_distinct(self.entries@);
        }
        let n = self.entries.len();
        let mut i: usize = 0;
        while i < n
            invariant
                i <= n,
                n == self.entries@.len(),
                sorted_by_keys(self.entries@),
                keys_distinct(self.entries@),
                forall|j: int| 0 <= j < i ==> self.entries@[j].0@ != key@,
            decreases n - i,
        {
            if str_eq_chars(self.entries[i].0.as_str(), key) {
                proof {
                    lemma_map_of_index(self.entries@, i as int);
                }
                return Some(&self.entries[i].1);
            }
            i = i + 1;
        }
        proof {
            lemma_map_of_contains(self.entries@, key@);
        }
        None
    }

    /// Whether any entry carries `key`.
    pub fn contains_key(&self, key: &str) -> (r: bool)
        requires
            self.wf(),
        ensures
            r == self@.contains_key(key@),
    {
        self.get(key).is_some()
    }

    /// A copy of the map: entry for entry, pair for pair.
    pub fn duplicate(&self) -> (r: LabelMap)
        ensures
            r.entry_seq() == self.entry_seq(),
            r@ == self@,
            r.wf() == self.wf(),
    {
        let n = self.entries.len();
        let mut out: Vec<(String, String)> = Vec::new();
        let mut i: usize = 0;
        while i < n
            invariant
                i <= n,
                n == self.entries@.len(),
                out@ =~= self.entries@.take(i as int),
            decreases n - i,
        {
            let k = self.entries[i].0.clone();
            let v = self.entries[i].1.clone();
            out.push((k, v));
            proof {
                assert(out@ =~= self.entries@.take(i + 1));
            }
            i = i + 1;
        }
        proof {
            assert(out@ =~= self.entries@);
        }
        LabelMap { entries: out }
    }

    /// Stores `value` under `key`, replacing any value already there.
    pub fn insert(&mut self, key: String, value: String)
        requires
            old(self).wf(),
        ensures
            final(self).wf(),
            final(self)@ == old(self)@.insert(key@, value@),
    {
        let ghost olds = self.entries@;
        let ghost kv = (key, value);
        let n = self.entries.len();
        let mut out: Vec<(String, String)> = Vec::new();
        let mut i: usize = 0;
        // Entries with keys below the new key keep their places.
        while i < n
            invariant_except_break
                i <= n,
                n == olds.len(),
                self.entries@ == olds,
                sorted_by_keys(olds),
                out@ =~= olds.take(i as int),
                forall|t: int| 0 <= t < i ==> lex_lt(#[trigger] olds[t].0@, key@),
            ensures
                i <= n,
                n == olds.len(),
                self.entries@ == olds,
                sorted_by_keys(olds),
                out@ =~= olds.take(i as int),
                forall|t: int| 0 <= t < i ==> lex_lt(#[trigger] olds[t].0@, key@),
                i == n || !lex_lt(olds[i as int].0@, key@),
            decreases n - i,
        {
            if !str_lex_lt(self.entries[i].0.as_str(), key.as_str()) {
                break;
            }
            let k = self.entries[i].0.clone();
            let v = self.entries[i].1.clone();
            out.push((k, v));
            proof {
                assert(out@ =~= olds.take(i + 1));
            }
            i = i + 1;
        }
        // Skip an entry that carries the key itself; it is being replaced.
        let mut j: usize = i;
        let ghost mut key_replaced = false;
        if i < n {
            if str_eq_chars(self.entries[i].0.as_str(), key.as_str()) {
                j = i + 1;
                proof {
                    key_replaced = true;
                }
            }
        }
        proof {
            assert(key_replaced ==> i < n && olds[i as int].0@ == key@ && j == i + 1);
            assert(!key_replaced ==> j == i && (i == n || olds[i as int].0@ != key@));
        }
        let ghost pre = olds.take(i as int);
        let ghost post = olds.skip(j as int);
        proof {
            // Keys at and after position j lie strictly above the new key.
            assert forall|t: int| 0 <= t < post.len() implies lex_lt(
                key@,
                #[trigger] post[t].0@,
            ) by {
                assert(post[t] == olds[j + t]);
                if key_replaced {
                    assert(lex_lt(olds[i as int].0@, olds[j + t].0@));
                } else {
                    lemma_lex_lt_trichotomy(olds[i as int].0@, key@);
                    if t > 0 {
                        assert(lex_lt(olds[i as int].0@, olds[i + t].0@));
                        lemma_lex_lt_transitive(key@, olds[i as int].0@, olds[i + t].0@);
                    }
                }
            }
        }
        out.push((key, value));
        // The remaining entries keep their places after the new entry.
        let mut m: usize = j;
        while m < n
            invariant
                j <= m <= n,
                n == olds.len(),
                self.entries@ == olds,
                out@ =~= pre + seq![kv] + olds.subrange(j as int, m as int),
            decreases n - m,
        {
            let k = self.entries[m].0.clone();
            let v = self.entries[m].1.clone();
            out.push((k, v));
            proof {
                assert(out@ =~= pre + seq![kv] + olds.subrange(j as int, m + 1));
            }
            m = m + 1;
        }
        proof {
            assert(olds.subrange(j as int, n as int) =~= post);
            assert(out@ =~= pre + seq![kv] + post);
            // The result is sorted: pre, then the new entry, then post.
            assert forall|a: int, b: int| 0 <= a < b < out@.len() implies lex_lt(
                out@[a].0@,
                out@[b].0@,
            ) by {
                let plen = i as int;
                if b < plen {
                    assert(out@[a] == olds[a]);
                    assert(out@[b] == olds[b]);
                } else if b == plen {
                    assert(out@[a] == olds[a]);
                } else {
                    assert(out@[b] == post[b - plen - 1]);
                    assert(post[b - plen - 1] == olds[j + b - plen - 1]);
                    if a < plen {
                        assert(out@[a] == olds[a]);
                        lemma_lex_lt_transitive(olds[a].0@, key@, post[b - plen - 1].0@);
                    } else if a > plen {
                        assert(out@[a] == post[a - plen - 1]);
                        assert(post[a - plen - 1] == olds[j + a - plen - 1]);
                    }
                }
            }
            // The result holds the old map with the new pair written in.
            assert forall|t: int| 0 <= t < post.len() implies #[trigger] post[t].0@ != key@ by {
                lemma_lex_lt_trichotomy(key@, post[t].0@);
            }
            lemma_map_of_mid_insert(pre, kv, post);
            if key_replaced {
                assert(olds =~= pre + seq![olds[i as int]] + post);
                lemma_map_of_mid_insert(pre, olds[i as int], post);
                assert(map_of(olds).insert(key@, value@) =~= map_of(pre + post).insert(
                    kv.0@,
                    kv.1@,
                ));
            } else {
                assert(pre + post =~= olds);
            }
            assert(map_of(out@) =~= map_of(olds).insert(key@, value@));
        }
        self.entries = out;
    }
}

/// With distinct keys, the map's domain has one element per entry.
pub proof fn lemma_entry_count(s: Seq<(String, String)>)
    requires
        keys_distinct(s),
    ensures
        map_of(s).dom().len() == s.len(),
        map_of(s).dom().finite(),
    decreases s.len(),
{
    if s.len() > 0 {
        assert(forall|i: int| 0 <= i < s.drop_last().len() ==> #[trigger] s.drop_last()[i] == s[i]);
        lemma_entry_count(s.drop_last());
        lemma_map_of_contains(s.drop_last(), s.last().0@);
        assert(map_of(s).dom() =~= map_of(s.drop_last()).dom().insert(s.last().0@));
        vstd::set::axiom_set_insert_len(map_of(s.drop_last()).dom(), s.last().0@);
    }
}

} // verus!
