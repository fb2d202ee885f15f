use vstd::prelude::*;

use std::collections::HashMap;

use crate::text::{chars_of, string_of, views};

verus! {

broadcast use vstd::std_specs::hash::group_hash_axioms;

/// A prefix tree of words. Each edge to a child carries one character, and
/// the edges out of a node are found by their character's code; a word is
/// stored when the path spelling it ends at a terminal node.
pub struct TrieNode {
    children: HashMap<u32, (char, Box<TrieNode>)>,
    terminal: bool,
}

impl TrieNode {
    /// Each edge is found under its own character's code.
    #[verifier::type_invariant]
    spec fn labels_match(self) -> bool {
        forall|k: u32|
            #[trigger] self.children@.contains_key(k) ==> self.children@[k].0 as u32 == k
    }

    /// Whether the word `w` is spelled by a path from this node that ends at
    /// a terminal node.
    pub closed spec fn accepts(self, w: Seq<char>) -> bool
        decreases w.len(),
    {
        if w.len() == 0 {
            self.terminal
        } else if self.children@.contains_key(w[0] as u32) {
            self.children@[w[0] as u32].1.accepts(w.drop_first())
        } else {
            false
        }
    }
}

/// Characters with the same code are the same character.
proof fn lemma_same_code(a: char, b: char)
    requires
        a as u32 == b as u32,
    ensures
        a == b,
{
}

/// Two non-empty words with the same first character and the same rest are
/// the same word.
proof fn lemma_same_head_and_tail(a: Seq<char>, b: Seq<char>)
    requires
        a.len() > 0,
        b.len() > 0,
        a[0] == b[0],
        a.drop_first() == b.drop_first(),
    ensures
        a == b,
{
    assert(a.len() == a.drop_first().len() + 1);
    assert(b.len() == b.drop_first().len() + 1);
    assert forall|n: int| 0 <= n < a.len() implies a[n] == b[n] by {
        if n > 0 {
            assert(a[n] == a.drop_first()[n - 1]);
            assert(b[n] == b.drop_first()[n - 1]);
        }
    }
    assert(a =~= b);
}

/// The words of `s` that begin with `p`.
pub open spec fn words_with_prefix(s: Set<Seq<char>>, p: Seq<char>) -> Set<Seq<char>> {
    s.filter(|w: Seq<char>| p.is_prefix_of(w))
}

/// The words of `stored`, each with `p` in front.
pub open spec fn prefixed_words(stored: Set<Seq<char>>, p: Seq<char>) -> Set<Seq<char>> {
    stored.map(|w: Seq<char>| p + w)
}

impl View for TrieNode {
    type V = Set<Seq<char>>;

    /// The set of words stored in this trie.
    closed spec fn view(&self) -> Set<Seq<char>> {
        Set::new(|w: Seq<char>| self.accepts(w))
    }
}

impl TrieNode {
    /// An empty trie.
    pub fn new() -> (r: TrieNode)
        ensures
            r@ == Set::<Seq<char>>::empty(),
    {
        let r = TrieNode { children: HashMap::new(), terminal: false };
        assert(r@ =~= Set::<Seq<char>>::empty());
        r
    }

    /// Stores the word `cs[k..]` below this node.
    fn insert_from(&mut self, cs: &Vec<char>, k: usize)
        requires
            k <= cs@.len(),
        ensures
            forall|w: Seq<char>|
                #[trigger] final(self).accepts(w) <==> old(self).accepts(w) || w == cs@.skip(
                    k as int,
                ),
        decreases cs@.len() - k,
    {
        proof {
            use_type_invariant(&*self);
        }
        if k == cs.len() {
            self.terminal = true;
            assert forall|w: Seq<char>|
                #[trigger] self.accepts(w) <==> old(self).accepts(w) || w == cs@.skip(
                    k as int,
                ) by {
                if w.len() == 0 {
                    assert(w =~= cs@.skip(k as int));
                }
            }
        } else {
            let c = cs[k];
            let key = c as u32;
            let ghost suffix = cs@.skip(k as int);
            assert(suffix.drop_first() =~= cs@.skip(k + 1));
            assert(suffix[0] == c);
            let mut children: HashMap<u32, (char, Box<TrieNode>)> = HashMap::new();
            std::mem::swap(&mut children, &mut self.children);
            let mut node = match children.remove(&key) {
                Some(pair) => *pair.1,
                None => TrieNode::new(),
            };
            let ghost before = node;
            proof {
                if old(self).children@.contains_key(key) {
                    assert(before == *old(self).children@[key].1);
                } else {
                    assert(!before@.contains(cs@.skip(k + 1)));
                }
            }
            node.insert_from(cs, k + 1);
            children.insert(key, (c, Box::new(node)));
            self.children = children;
            proof {
                assert(self.children@ == old(self).children@.insert(key, (c, Box::new(node))));
                assert forall|w: Seq<char>|
                    #[trigger] self.accepts(w) <==> old(self).accepts(w) || w == suffix by {
                    if w.len() > 0 {
                        if w[0] as u32 == key {
                            lemma_same_code(w[0], c);
                            assert(self.accepts(w) == node.accepts(w.drop_first()));
                            if old(self).children@.contains_key(key) {
                                assert(old(self).accepts(w) == before.accepts(w.drop_first()));
                            } else {
                                assert(!old(self).accepts(w));
                                assert(!before.accepts(w.drop_first())) by {
                                    assert(!before@.contains(w.drop_first()));
                                }
                            }
                            if w.drop_first() == cs@.skip(k + 1) {
                                lemma_same_head_and_tail(w, suffix);
                            }
                        } else {
                            assert(w[0] != c);
                            assert(w != suffix);
                        }
                    } else {
                        assert(w != suffix);
                    }
                }
            }
        }
    }

    /// Whether `s` extends `p` by a word stored below this node.
    pub closed spec fn stores_under(self, p: Seq<char>, s: Seq<char>) -> bool {
        p.is_prefix_of(s) && self.accepts(s.skip(p.len() as int))
    }

    /// `after` is `before` followed by every word stored below this node,
    /// each prefixed by `p`, each once.
    pub closed spec fn collected(self, p: Seq<char>, before: Seq<String>, after: Seq<String>) -> bool {
        &&& after.len() >= before.len()
        &&& after.take(before.len() as int) == before
        &&& forall|j: int|
            before.len() <= j < after.len() ==> self.stores_under(p, #[trigger] after[j]@)
        &&& forall|w: Seq<char>|
            #[trigger] self.accepts(w) ==> exists|j: int|
                before.len() <= j < after.len() && #[trigger] after[j]@ == p + w
        &&& forall|j1: int, j2: int|
            before.len() <= j1 < after.len() && before.len() <= j2 < after.len() && j1 != j2
                ==> #[trigger] after[j1]@ != #[trigger] after[j2]@
    }

    /// Appends to `results` every word stored below this node, each prefixed
    /// by `prefix`.
    fn collect(&self, prefix: &mut Vec<char>, results: &mut Vec<String>)
        ensures
            final(prefix)@ == old(prefix)@,
            self.collected(old(prefix)@, old(results)@, final(results)@),
        decreases self,
    {
        proof {
            use_type_invariant(self);
        }
        let ghost p0 = prefix@;
        let ghost r0 = results@;
        if self.terminal {
            results.push(string_of(prefix));
            assert(p0 + Seq::<char>::empty() =~= p0);
            assert(p0.skip(p0.len() as int) =~= Seq::<char>::empty());
        }
        let ghost r1 = results@;
        let ghost ks = vstd::std_specs::iter::IteratorSpec::remaining(
            &vstd::std_specs::hash::spec_keys_iter(&self.children),
        ).unref();
        let ghost mut count: int = 0;
        for key in it: self.children.keys()
            invariant
                self.labels_match(),
                count == it.index(),
                it.seq().unref() == ks,
                ks.no_duplicates(),
                ks.to_set() == self.children@.dom(),
                prefix@ == p0,
                r1.len() >= r0.len(),
                r1.take(r0.len() as int) == r0,
                results@.len() >= r1.len(),
                results@.take(r1.len() as int) == r1,
                self.terminal ==> r1.len() == r0.len() + 1 && r1[r0.len() as int]@ == p0,
                !self.terminal ==> r1 == r0,
                forall|j: int|
                    r1.len() <= j < results@.len() ==> {
                        &&& self.stores_under(p0, #[trigger] results@[j]@)
                        &&& results@[j]@.len() > p0.len()
                        &&& ks.take(count).contains(results@[j]@[p0.len() as int] as u32)
                    },
                forall|m: int, w: Seq<char>|
                    0 <= m < count && #[trigger] self.children@[ks[m]].1.accepts(w) ==> exists|
                        j: int,
                    |
                        r1.len() <= j < results@.len() && #[trigger] results@[j]@ == p0.push(
                            self.children@[ks[m]].0,
                        ) + w,
                forall|j1: int, j2: int|
                    r1.len() <= j1 < results@.len() && r1.len() <= j2 < results@.len() && j1
                        != j2 ==> #[trigger] results@[j1]@ != #[trigger] results@[j2]@,
        {
            let ghost before = results@;
            let ghost i = count;
            assert(ks[i] == *key);
            assert(self.children@.contains_key(*key)) by {
                assert(ks.to_set().contains(ks[i]));
            }
            let pair = self.children.get(key).unwrap();
            let c = pair.0;
            let child: &TrieNode = &pair.1;
            assert(c as u32 == *key);
            prefix.push(c);
            child.collect(prefix, results);
            prefix.pop();
            assert(prefix@ =~= p0);
            let ghost pc = p0.push(c);
            assert(results@.take(r1.len() as int) =~= r1) by {
                assert(results@.take(before.len() as int) == before);
                assert forall|j: int| 0 <= j < r1.len() implies results@[j] == r1[j] by {
                    assert(results@[j] == results@.take(before.len() as int)[j]);
                    assert(before[j] == before.take(r1.len() as int)[j]);
                }
            }
            proof {
                count = count + 1;
                assert(ks.take(count) =~= ks.take(i).push(*key));
            }
            assert forall|j: int| r1.len() <= j < results@.len() implies {
                &&& self.stores_under(p0, #[trigger] results@[j]@)
                &&& results@[j]@.len() > p0.len()
                &&& ks.take(count).contains(results@[j]@[p0.len() as int] as u32)
            } by {
                if j < before.len() {
                    assert(results@[j] == results@.take(before.len() as int)[j]);
                    let x = results@[j]@[p0.len() as int] as u32;
                    let q = choose|q: int| 0 <= q < ks.take(i).len() && ks.take(i)[q] == x;
                    assert(ks.take(count)[q] == x);
                } else {
                    let s = results@[j]@;
                    assert(child.stores_under(pc, s));
                    assert(pc == s.subrange(0, pc.len() as int));
                    assert(s[p0.len() as int] == pc[p0.len() as int]);
                    let v = s.skip(p0.len() as int);
                    assert(v[0] == c);
                    assert(v.drop_first() =~= s.skip(pc.len() as int));
                    assert(self.accepts(v) == child.accepts(v.drop_first()));
                    assert(p0.is_prefix_of(s)) by {
                        assert(p0 =~= s.subrange(0, p0.len() as int)) by {
                            assert forall|x: int| 0 <= x < p0.len() implies p0[x] == s[x] by {
                                assert(pc[x] == p0[x]);
                                assert(pc[x] == s.subrange(0, pc.len() as int)[x]);
                            }
                        }
                    }
                    assert(ks.take(count)[i] == *key);
                }
            }
            assert forall|m: int, w: Seq<char>|
                0 <= m < count && #[trigger] self.children@[ks[m]].1.accepts(w) implies exists|
                    j: int,
                |
                    r1.len() <= j < results@.len() && #[trigger] results@[j]@ == p0.push(
                        self.children@[ks[m]].0,
                    ) + w by {
                if m < i {
                    let j = choose|j: int|
                        r1.len() <= j < before.len() && #[trigger] before[j]@ == p0.push(
                            self.children@[ks[m]].0,
                        ) + w;
                    assert(results@[j] == results@.take(before.len() as int)[j]);
                } else {
                    assert(child.accepts(w));
                    let j = choose|j: int|
                        before.len() <= j < results@.len() && #[trigger] results@[j]@ == pc + w;
                }
            }
            assert forall|j1: int, j2: int|
                r1.len() <= j1 < results@.len() && r1.len() <= j2 < results@.len() && j1 != j2
                    implies #[trigger] results@[j1]@ != #[trigger] results@[j2]@ by {
                if j1 < before.len() && j2 < before.len() {
                    assert(results@[j1] == results@.take(before.len() as int)[j1]);
                    assert(results@[j2] == results@.take(before.len() as int)[j2]);
                } else if j1 >= before.len() && j2 >= before.len() {
                } else {
                    let (a, b) = if j1 < before.len() { (j1, j2) } else { (j2, j1) };
                    assert(results@[a] == results@.take(before.len() as int)[a]);
                    let x = results@[a]@[p0.len() as int] as u32;
                    assert(ks.take(i).contains(x));
                    let q = choose|q: int| 0 <= q < ks.take(i).len() && ks.take(i)[q] == x;
                    assert(ks[q] == x);
                    assert(ks[q] != ks[i]);
                    let s = results@[b]@;
                    assert(child.stores_under(pc, s));
                    assert(pc == s.subrange(0, pc.len() as int));
                    assert(s[p0.len() as int] == pc[p0.len() as int]);
                    assert(s[p0.len() as int] == c);
                }
            }
        }
        proof {
            assert(count == ks.len());
            assert(ks.take(count) =~= ks);
            assert(results@.take(r0.len() as int) =~= r0) by {
                assert forall|j: int| 0 <= j < r0.len() implies results@[j] == r0[j] by {
                    assert(results@[j] == results@.take(r1.len() as int)[j]);
                    assert(r1[j] == r1.take(r0.len() as int)[j]);
                }
            }
            assert forall|j: int| r0.len() <= j < results@.len() implies self.stores_under(
                p0,
                #[trigger] results@[j]@,
            ) by {
                if j < r1.len() {
                    assert(results@[j] == results@.take(r1.len() as int)[j]);
                    assert(p0.skip(p0.len() as int) =~= Seq::<char>::empty());
                    assert(p0 =~= p0.subrange(0, p0.len() as int));
                }
            }
            assert forall|w: Seq<char>| #[trigger] self.accepts(w) implies exists|j: int|
                r0.len() <= j < results@.len() && #[trigger] results@[j]@ == p0 + w by {
                if w.len() == 0 {
                    let j = r0.len() as int;
                    assert(results@[j] == results@.take(r1.len() as int)[j]);
                    assert(p0 + w =~= p0);
                } else {
                    let key = w[0] as u32;
                    assert(self.children@.contains_key(key));
                    assert(ks.to_set().contains(key));
                    let m = choose|m: int| 0 <= m < ks.len() && ks[m] == key;
                    assert(self.children@[ks[m]].1.accepts(w.drop_first()));
                    let j = choose|j: int|
                        r1.len() <= j < results@.len() && #[trigger] results@[j]@ == p0.push(
                            self.children@[ks[m]].0,
                        ) + w.drop_first();
                    assert(self.children@[key].0 as u32 == key);
                    lemma_same_code(self.children@[key].0, w[0]);
                    assert(p0.push(w[0]) + w.drop_first() =~= p0 + w);
                }
            }
            assert forall|j1: int, j2: int|
                r0.len() <= j1 < results@.len() && r0.len() <= j2 < results@.len() && j1 != j2
                    implies #[trigger] results@[j1]@ != #[trigger] results@[j2]@ by {
                if j1 >= r1.len() && j2 >= r1.len() {
                } else if j1 < r1.len() && j2 < r1.len() {
                } else {
                    let (a, b) = if j1 < r1.len() { (j1, j2) } else { (j2, j1) };
                    assert(results@[a] == results@.take(r1.len() as int)[a]);
                    assert(results@[b]@.len() > p0.len());
                }
            }
        }
    }

    /// The node reached from this one by following the characters `cs[k..]`.
    fn descend(&self, cs: &Vec<char>, k: usize) -> (r: Option<&TrieNode>)
        requires
            k <= cs@.len(),
        ensures
            r matches Some(node) ==> forall|w: Seq<char>|
                #[trigger] node.accepts(w) == self.accepts(cs@.skip(k as int) + w),
            r is None ==> forall|w: Seq<char>| !#[trigger] self.accepts(cs@.skip(k as int) + w),
        decreases cs@.len() - k,
    {
        if k == cs.len() {
            assert forall|w: Seq<char>| #[trigger] self.accepts(w) == self.accepts(
                cs@.skip(k as int) + w,
            ) by {
                assert(cs@.skip(k as int) + w =~= w);
            }
            Some(self)
        } else {
            let c = cs[k];
            let key = c as u32;
            match self.children.get(&key) {
                Some(pair) => {
                    let child: &TrieNode = &pair.1;
                    let r = child.descend(cs, k + 1);
                    proof {
                        assert forall|w: Seq<char>|
                            #![trigger self.accepts(cs@.skip(k as int) + w)]
                            self.accepts(cs@.skip(k as int) + w) == child.accepts(
                                cs@.skip(k + 1) + w,
                            ) by {
                            let v = cs@.skip(k as int) + w;
                            assert(v[0] == c);
                            assert(v.drop_first() =~= cs@.skip(k + 1) + w);
                        }
                    }
                    r
                },
                None => {
                    proof {
                        assert forall|w: Seq<char>| !#[trigger] self.accepts(
                            cs@.skip(k as int) + w,
                        ) by {
                            let v = cs@.skip(k as int) + w;
                            assert(v[0] == c);
                        }
                    }
                    None
                },
            }
        }
    }

    /// Appends to `results` every word stored in this trie, each prefixed by
    /// `text`, each once and in no particular order; what `results` held
    /// before stays in place.
    pub fn rec_search(&self, text: &String, results: &mut Vec<String>)
        ensures
            final(results)@.len() >= old(results)@.len(),
            final(results)@.take(old(results)@.len() as int) == old(results)@,
            views(final(results)@.skip(old(results)@.len() as int)).no_duplicates(),
            views(final(results)@.skip(old(results)@.len() as int)).to_set() == prefixed_words(
                self@,
                text@,
            ),
    {
        let ghost r0 = results@;
        let mut prefix = chars_of(text.as_str());
        self.collect(&mut prefix, results);
        proof {
            let p = text@;
            let added = views(results@.skip(r0.len() as int));
            assert forall|k: int| 0 <= k < added.len() implies #[trigger] added[k]
                == results@[r0.len() + k]@ by {}
            assert forall|k1: int, k2: int|
                0 <= k1 < added.len() && 0 <= k2 < added.len() && k1 != k2 implies added[k1]
                != added[k2] by {
                assert(added[k1] == results@[r0.len() + k1]@);
                assert(added[k2] == results@[r0.len() + k2]@);
            }
            assert forall|x: Seq<char>| #[trigger] added.to_set().contains(x) <==> prefixed_words(
                self@,
                p,
            ).contains(x) by {
                if added.to_set().contains(x) {
                    let k = choose|k: int| 0 <= k < added.len() && added[k] == x;
                    assert(added[k] == results@[r0.len() + k]@);
                    assert(self.stores_under(p, x));
                    let w = x.skip(p.len() as int);
                    assert(p == x.subrange(0, p.len() as int));
                    assert forall|y: int| 0 <= y < x.len() implies (p + w)[y] == x[y] by {
                        if y < p.len() {
                            assert(p[y] == x.subrange(0, p.len() as int)[y]);
                        }
                    }
                    assert(p + w =~= x);
                    assert(self@.contains(w));
                }
                if prefixed_words(self@, p).contains(x) {
                    let w = choose|w: Seq<char>| self@.contains(w) && x == p + w;
                    assert(self.accepts(w));
                    let j = choose|j: int|
                        r0.len() <= j < results@.len() && #[trigger] results@[j]@ == p + w;
                    assert(added[j - r0.len()] == results@[j]@);
                }
            }
            assert(added.to_set() =~= prefixed_words(self@, p));
        }
    }

    /// Every stored word that begins with `text`, each once, in no
    /// particular order.
    pub fn search(&self, text: &str) -> (r: Vec<String>)
        ensures
            views(r@).to_set() == words_with_prefix(self@, text@),
            views(r@).no_duplicates(),
    {
        let cs = chars_of(text);
        let mut results: Vec<String> = Vec::new();
        let reached = self.descend(&cs, 0);
        assert(cs@.skip(0) =~= text@);
        match reached {
            Some(node) => {
                node.rec_search(&text.to_owned(), &mut results);
                assert(results@.skip(0) =~= results@);
                proof {
                    let found = views(results@);
                    assert forall|x: Seq<char>| #[trigger] words_with_prefix(self@, text@).contains(x)
                        <==> prefixed_words(node@, text@).contains(x) by {
                        if words_with_prefix(self@, text@).contains(x) {
                            let w = x.skip(text@.len() as int);
                            assert(text@ == x.subrange(0, text@.len() as int));
                            assert forall|y: int| 0 <= y < x.len() implies (text@ + w)[y] == x[y] by {
                                if y < text@.len() {
                                    assert(text@[y] == x.subrange(0, text@.len() as int)[y]);
                                }
                            }
                            assert(text@ + w =~= x);
                            assert(node.accepts(w));
                            assert(node@.contains(w));
                        }
                        if prefixed_words(node@, text@).contains(x) {
                            let w = choose|w: Seq<char>| node@.contains(w) && x == text@ + w;
                            assert(node.accepts(w));
                            assert(self.accepts(text@ + w));
                            assert(text@ =~= (text@ + w).subrange(0, text@.len() as int));
                        }
                    }
                    assert(words_with_prefix(self@, text@) =~= prefixed_words(node@, text@));
                }
            },
            None => {
                proof {
                    assert forall|x: Seq<char>| !#[trigger] words_with_prefix(self@, text@).contains(x) by {
                        if words_with_prefix(self@, text@).contains(x) {
                            let w = x.skip(text@.len() as int);
                            assert(text@ == x.subrange(0, text@.len() as int));
                            assert forall|y: int| 0 <= y < x.len() implies (text@ + w)[y] == x[y] by {
                                if y < text@.len() {
                                    assert(text@[y] == x.subrange(0, text@.len() as int)[y]);
                                }
                            }
                            assert(text@ + w =~= x);
                            assert(!self.accepts(cs@.skip(0) + w));
                        }
                    }
                    assert(views(results@).to_set() =~= words_with_prefix(self@, text@));
                }
            },
        }
        results
    }

    /// Stores `text` in the trie.
    pub fn insert(&mut self, text: String)
        ensures
            final(self)@ == old(self)@.insert(text@),
    {
        let cs = chars_of(text.as_str());
        self.insert_from(&cs, 0);
        assert(cs@.skip(0) == text@);
        assert(self@ =~= old(self)@.insert(text@));
    }
}

/// A word stored in a trie is found by every search for a beginning of it.
pub proof fn law_inserted_word_is_found(stored: Set<Seq<char>>, word: Seq<char>, text: Seq<char>)
    requires
        text.is_prefix_of(word),
    ensures
        words_with_prefix(stored.insert(word), text).contains(word),
{
}

/// Searching for the empty text finds every stored word.
pub proof fn law_empty_search_finds_all(stored: Set<Seq<char>>)
    ensures
        words_with_prefix(stored, Seq::<char>::empty()) == stored,
{
    assert(words_with_prefix(stored, Seq::<char>::empty()) =~= stored) by {
        assert forall|w: Seq<char>| stored.contains(w) implies Seq::<char>::empty().is_prefix_of(w) by {
            assert(Seq::<char>::empty() =~= w.subrange(0, 0));
        }
    }
}

/// Storing a word that is already stored changes nothing.
pub proof fn law_insert_idempotent(stored: Set<Seq<char>>, word: Seq<char>)
    ensures
        stored.insert(word).insert(word) == stored.insert(word),
{
    assert(stored.insert(word).insert(word) =~= stored.insert(word));
}

} // verus!
