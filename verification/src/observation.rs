//! The observation set: the containers of one project as the runtime
//! reported them, keyed by compose name and kept in name-ascending order.

use vstd::prelude::*;
use crate::models::Container;
use crate::text::{lex_lt, lemma_lex_lt_trichotomy, lemma_lex_lt_transitive, str_eq_chars,
    str_lex_lt};

verus! {

/// Containers are strictly ascending by name.
pub open spec fn sorted_by_names(s: Seq<Container>) -> bool {
    forall|i: int, j: int| 0 <= i < j < s.len() ==> lex_lt(s[i].name@, s[j].name@)
}

/// No two containers share a name.
pub open spec fn names_distinct(s: Seq<Container>) -> bool {
    forall|i: int, j: int| 0 <= i < j < s.len() ==> s[i].name@ != s[j].name@
}

/// Strictly sorted containers have pairwise distinct names.
pub proof fn lemma_sorted_names_distinct(s: Seq<Container>)
    requires
        sorted_by_names(s),
    ensures
        names_distinct(s),
{
    assert forall|i: int, j: int| 0 <= i < j < s.len() implies s[i].name@ != s[j].name@ by {
        lemma_lex_lt_trichotomy(s[i].name@, s[j].name@);
    }
}

/// The map held by a sequence of containers; later entries override earlier.
pub open spec fn cmap_of(s: Seq<Container>) -> Map<Seq<char>, Container>
    decreases s.len(),
{
    if s.len() == 0 {
        Map::empty()
    } else {
        cmap_of(s.drop_last()).insert(s.last().name@, s.last())
    }
}

/// A name is in the map exactly when some container carries it.
pub proof fn lemma_cmap_contains(s: Seq<Container>, k: Seq<char>)
    ensures
        cmap_of(s).contains_key(k) <==> exists|i: int| 0 <= i < s.len() && s[i].name@ == k,
    decreases s.len(),
{
    if s.len() > 0 {
        lemma_cmap_contains(s.drop_last(), k);
        if cmap_of(s).contains_key(k) {
            if s.last().name@ != k {
                let i = choose|i: int| 0 <= i < s.drop_last().len() && s.drop_last()[i].name@ == k;
                assert(s[i].name@ == k);
            } else {
                assert(s[s.len() - 1].name@ == k);
            }
        }
        if exists|i: int| 0 <= i < s.len() && s[i].name@ == k {
            let i = choose|i: int| 0 <= i < s.len() && s[i].name@ == k;
            if i < s.len() - 1 {
                assert(s.drop_last()[i].name@ == k);
            }
        }
    }
}

/// With distinct names, each position gives the container the map holds.
pub proof fn lemma_cmap_index(s: Seq<Container>, i: int)
    requires
        names_distinct(s),
        0 <= i < s.len(),
    ensures
        cmap_of(s).contains_key(s[i].name@),
        cmap_of(s)[s[i].name@] == s[i],
    decreases s.len(),
{
    lemma_cmap_contains(s, s[i].name@);
    if i < s.len() - 1 {
        assert(s.drop_last()[i] == s[i]);
        lemma_cmap_index(s.drop_last(), i);
        assert(s[i].name@ != s.last().name@);
    }
}

/// Placing a container before a run of containers with other names inserts it.
pub proof fn lemma_cmap_mid_insert(pre: Seq<Container>, e: Container, post: Seq<Container>)
    requires
        forall|i: int| 0 <= i < post.len() ==> post[i].name@ != e.name@,
    ensures
        cmap_of(pre + seq![e] + post) == cmap_of(pre + post).insert(e.name@, e),
    decreases post.len(),
{
    if post.len() == 0 {
        assert(pre + seq![e] + post =~= pre + seq![e]);
        assert(pre + post =~= pre);
        assert((pre + seq![e]).drop_last() =~= pre);
        assert((pre + seq![e]).last() == e);
    } else {
        let l = post.last();
        lemma_cmap_mid_insert(pre, e, post.drop_last());
        assert((pre + seq![e] + post).drop_last() =~= pre + seq![e] + post.drop_last());
        assert((pre + seq![e] + post).last() == l);
        assert((pre + post).drop_last() =~= pre + post.drop_last());
        assert((pre + post).last() == l);
        assert(post[post.len() - 1].name@ != e.name@);
        assert(cmap_of(pre + post.drop_last()).insert(e.name@, e).insert(l.name@, l) =~= cmap_of(
            pre + post.drop_last(),
        ).insert(l.name@, l).insert(e.name@, e));
    }
}

/// The observation set of one project, keyed by compose name.
#[derive(Debug)]
pub struct ContainerMap {
    pub entries: Vec<Container>,
}

impl View for ContainerMap {
    type V = Map<Seq<char>, Container>;

    open spec fn view(&self) -> Map<Seq<char>, Container> {
        cmap_of(self.entries@)
    }
}

impl ContainerMap {
    /// The observed containers in name-ascending order.
    pub open spec fn entry_seq(&self) -> Seq<Container> {
        self.entries@
    }

    /// Containers are strictly ascending by name.
    pub open spec fn wf(&self) -> bool {
        sorted_by_names(self.entries@)
    }

    /// An empty observation set.
    pub fn new() -> (r: ContainerMap)
        ensures
            r.wf(),
            r@ == Map::<Seq<char>, Container>::empty(),
            r.entry_seq().len() == 0,
    {
        ContainerMap { entries: Vec::new() }
    }

    /// How many containers were observed.
    pub fn len(&self) -> (r: usize)
        ensures
            r == self.entry_seq().len(),
    {
        self.entries.len()
    }

    /// Read-only access to the observed containers, name-ascending.
    pub fn entries(&self) -> (r: &Vec<Container>)
        ensures
            r@ == self.entry_seq(),
    {
        &self.entries
    }

    /// The observed container of that name, if any.
    pub fn get(&self, name: &str) -> (r: Option<&Container>)
        requires
            self.wf(),
        ensures
            match r {
                Some(c) => self@.contains_key(name@) && self@[name@] == *c,
                None => !self@.contains_key(name@),
            },
    {
        proof {
            lemma_sorted_names_distinct(self.entries@);
        }
        let n = self.entries.len();
        let mut i: usize = 0;
        while i < n
            invariant
                i <= n,
                n == self.entries@.len(),
                sorted_by_names(self.entries@),
                names_distinct(self.entries@),
                forall|j: int| 0 <= j < i ==> self.entries@[j].name@ != name@,
            decreases n - i,
        {
            if str_eq_chars(self.entries[i].name.0.as_str(), name) {
                proof {
                    lemma_cmap_index(self.entries@, i as int);
                }
                return Some(&self.entries[i]);
            }
            i = i + 1;
        }
        proof {
            lemma_cmap_contains(self.entries@, name@);
        }
        None
    }

    /// Whether a container of that name was observed.
    pub fn contains_name(&self, name: &str) -> (r: bool)
        requires
            self.wf(),
        ensures
            r == self@.contains_key(name@),
    {
        self.get(name).is_some()
    }

    /// Stores `c` under its name, replacing any container already there.
    pub fn insert(&mut self, c: Container)
        requires
            old(self).wf(),
        ensures
            final(self).wf(),
            final(self)@ == old(self)@.insert(c.name@, c),
            forall|t: int|
                0 <= t < final(self).entry_seq().len() ==> #[trigger] final(self).entry_seq()[t]
                    == c || old(self).entry_seq().contains(final(self).entry_seq()[t]),
    {
        let ghost olds = self.entries@;
        let ghost cg = c;
        let n = self.entries.len();
        let mut i: usize = 0;
        // Containers with names below the new name keep their places.
        while i < n
            invariant_except_break
                i <= n,
                n == olds.len(),
                self.entries@ == olds,
                sorted_by_names(olds),
                forall|t: int| 0 <= t < i ==> lex_lt(#[trigger] olds[t].name@, c.name@),
            ensures
                i <= n,
                n == olds.len(),
                self.entries@ == olds,
                sorted_by_names(olds),
                forall|t: int| 0 <= t < i ==> lex_lt(#[trigger] olds[t].name@, c.name@),
                i == n || !lex_lt(olds[i as int].name@, c.name@),
            decreases n - i,
        {
            if !str_lex_lt(self.entries[i].name.0.as_str(), c.name.0.as_str()) {
                break;
            }
            i = i + 1;
        }
        let ghost pre = olds.take(i as int);
        let mut replace = false;
        if i < n {
            if str_eq_chars(self.entries[i].name.0.as_str(), c.name.0.as_str()) {
                replace = true;
            }
        }
        let ghost j: int = if replace {
            i + 1
        } else {
            i as int
        };
        let ghost post = olds.skip(j);
        proof {
            // Names at and after position j lie strictly above the new name.
            assert forall|t: int| 0 <= t < post.len() implies lex_lt(
                cg.name@,
                #[trigger] post[t].name@,
            ) by {
                assert(post[t] == olds[j + t]);
                if replace {
                    assert(lex_lt(olds[i as int].name@, olds[j + t].name@));
                } else {
                    lemma_lex_lt_trichotomy(olds[i as int].name@, cg.name@);
                    if t > 0 {
                        assert(lex_lt(olds[i as int].name@, olds[i + t].name@));
                        lemma_lex_lt_transitive(cg.name@, olds[i as int].name@, olds[i + t].name@);
                    }
                }
            }
            assert forall|t: int| 0 <= t < post.len() implies #[trigger] post[t].name@
                != cg.name@ by {
                lemma_lex_lt_trichotomy(cg.name@, post[t].name@);
            }
        }
        if replace {
            self.entries[i] = c;
            proof {
                assert(self.entries@ =~= pre + seq![cg] + post);
            }
        } else {
            self.entries.insert(i, c);
            proof {
                assert(self.entries@ =~= pre + seq![cg] + post);
            }
        }
        proof {
            let news = self.entries@;
            // The result is sorted: pre, then the new container, then post.
            assert forall|a: int, b: int| 0 <= a < b < news.len() implies lex_lt(
                news[a].name@,
                news[b].name@,
            ) by {
                let plen = i as int;
                if b < plen {
                    assert(news[a] == olds[a]);
                    assert(news[b] == olds[b]);
                } else if b == plen {
                    assert(news[a] == olds[a]);
                } else {
                    assert(news[b] == post[b - plen - 1]);
                    assert(post[b - plen - 1] == olds[j + b - plen - 1]);
                    if a < plen {
                        assert(news[a] == olds[a]);
                        lemma_lex_lt_transitive(olds[a].name@, cg.name@, post[b - plen - 1].name@);
                    } else if a > plen {
                        assert(news[a] == post[a - plen - 1]);
                        assert(post[a - plen - 1] == olds[j + a - plen - 1]);
                    }
                }
            }
            // The result holds the old map with the new container written in.
            lemma_cmap_mid_insert(pre, cg, post);
            if replace {
                assert(olds =~= pre + seq![olds[i as int]] + post);
                lemma_cmap_mid_insert(pre, olds[i as int], post);
                assert(cmap_of(olds).insert(cg.name@, cg) =~= cmap_of(pre + post).insert(
                    cg.name@,
                    cg,
                ));
            } else {
                assert(pre + post =~= olds);
            }
            assert(cmap_of(news) =~= cmap_of(olds).insert(cg.name@, cg));
            // Every entry of the result is the new container or an old entry.
            assert forall|t: int| 0 <= t < news.len() implies #[trigger] news[t] == cg
                || olds.contains(news[t]) by {
                let plen = i as int;
                if t < plen {
                    assert(news[t] == olds[t]);
                    assert(olds.contains(news[t])) by {
                        assert(olds[t] == news[t]);
                    }
                } else if t > plen {
                    assert(news[t] == post[t - plen - 1]);
                    assert(post[t - plen - 1] == olds[j + t - plen - 1]);
                    assert(olds.contains(news[t])) by {
                        assert(olds[j + t - plen - 1] == news[t]);
                    }
                }
            }
        }
    }
}

} // verus!
