use vstd::prelude::*;

verus! {

/// One node of a prefix tree over characters. The node reached from the
/// root by the symbols `k1 .. kn` stands for the key `k1 .. kn`; it carries
/// a value exactly when that key was inserted.
pub struct TrieNode<V> {
    pub symbol: char,
    pub children: Vec<TrieNode<V>>,
    pub value: Option<V>,
}

/// A prefix tree mapping character sequences to values of type `V`.
pub struct Trie<V> {
    pub root: TrieNode<V>,
}

/// The symbols of a list of sibling nodes, in order.
pub open spec fn symbols_of<V>(children: Seq<TrieNode<V>>) -> Seq<char> {
    children.map_values(|n: TrieNode<V>| n.symbol)
}

impl<V> TrieNode<V> {
    /// The value stored under `key`, read from this node downwards. Among
    /// siblings with the same symbol the first one is the one that counts.
    pub open spec fn lookup(self, key: Seq<char>) -> Option<V>
        decreases key.len(),
    {
        if key.len() == 0 {
            self.value
        } else {
            match symbols_of(self.children@).index_of_first(key[0]) {
                Some(i) => self.children@[i].lookup(key.drop_first()),
                None => None,
            }
        }
    }

    fn new_node(symbol: char) -> (r: TrieNode<V>)
        ensures
            r.symbol == symbol,
            forall|k: Seq<char>| #[trigger] r.lookup(k) is None,
    {
        let r = TrieNode { symbol, children: Vec::new(), value: None };
        assert forall|k: Seq<char>| #[trigger] r.lookup(k) is None by {
            if k.len() > 0 {
                symbols_of(r.children@).index_of_first_ensures(k[0]);
            }
        }
        r
    }

    /// Index of the first child whose symbol is `c`.
    fn find_child(&self, c: char) -> (r: Option<usize>)
        ensures
            match r {
                Some(i) => {
                    &&& i < self.children.len()
                    &&& symbols_of(self.children@).index_of_first(c) == Some(i as int)
                },
                None => symbols_of(self.children@).index_of_first(c) is None,
            },
    {
        let ghost syms = symbols_of(self.children@);
        let mut i: usize = 0;
        while i < self.children.len()
            invariant
                i <= self.children.len(),
                syms == symbols_of(self.children@),
                forall|j: int| 0 <= j < i ==> syms[j] != c,
            decreases self.children.len() - i,
        {
            assert(syms[i as int] == self.children@[i as int].symbol);
            if self.children[i].symbol == c {
                proof {
                    assert(syms.contains(c));
                    syms.index_of_first_ensures(c);
                }
                return Some(i);
            }
            i += 1;
        }
        proof {
            syms.index_of_first_ensures(c);
        }
        None
    }

    fn insert_from(&mut self, key: &[char], from: usize, value: V)
        requires
            from <= key@.len(),
        ensures
            final(self).symbol == old(self).symbol,
            forall|k: Seq<char>| #[trigger] final(self).lookup(k) == if k == key@.subrange(
                from as int,
                key@.len() as int,
            ) {
                Some(value)
            } else {
                old(self).lookup(k)
            },
        decreases key@.len() - from,
    {
        let ghost suffix = key@.subrange(from as int, key@.len() as int);
        if from == key.len() {
            self.value = Some(value);
            assert forall|k: Seq<char>| #[trigger] final(self).lookup(k) == if k == suffix {
                Some(value)
            } else {
                old(self).lookup(k)
            } by {
                if k.len() == 0 {
                    assert(k =~= suffix);
                }
            }
            return;
        }
        let c = key[from];
        let i = match self.find_child(c) {
            Some(i) => i,
            None => {
                let child = TrieNode::new_node(c);
                self.children.push(child);
                proof {
                    let syms = symbols_of(self.children@);
                    syms.index_of_first_ensures(c);
                    symbols_of(old(self).children@).index_of_first_ensures(c);
                    assert(syms[syms.len() - 1] == c);
                    assert(syms.index_of_first(c) == Some(syms.len() - 1)) by {
                        assert forall|j: int| 0 <= j < syms.len() - 1 implies syms[j] != c by {
                            assert(syms[j] == symbols_of(old(self).children@)[j]);
                        }
                    }
                }
                self.children.len() - 1
            },
        };
        assert(i < self.children.len());
        let ghost mid = *self;
        proof {
            if old(self).children.len() < mid.children.len() {
                assert(symbols_of(mid.children@) =~= symbols_of(old(self).children@).push(c));
                assert forall|d: char| d != c implies #[trigger] symbols_of(
                    mid.children@,
                ).index_of_first(d) == symbols_of(old(self).children@).index_of_first(d) by {
                    lemma_first_index_push(symbols_of(old(self).children@), c, d);
                }
            } else {
                assert(mid == *old(self));
            }
        }
        let mut child = self.children.remove(i);
        child.insert_from(key, from + 1, value);
        self.children.insert(i, child);
        proof {
            assert forall|j: int| 0 <= j < self.children@.len() implies #[trigger] symbols_of(
                self.children@,
            )[j] == symbols_of(mid.children@)[j] by {
                if j < i {
                    assert(self.children@[j] == mid.children@[j]);
                } else if j > i {
                    assert(self.children@[j] == mid.children@[j]);
                }
            }
            assert(symbols_of(self.children@) =~= symbols_of(mid.children@));
            assert(self.children@[i as int] == child);
            assert forall|k: Seq<char>| #[trigger] self.lookup(k) == if k == suffix {
                Some(value)
            } else {
                old(self).lookup(k)
            } by {
                if k.len() == 0 {
                } else {
                    assert(suffix[0] == c);
                    assert(suffix.drop_first() =~= key@.subrange(from + 1, key@.len() as int));
                    if k[0] == c {
                        assert(k == suffix <==> k.drop_first() == suffix.drop_first()) by {
                            if k.drop_first() == suffix.drop_first() {
                                assert forall|j: int| 0 <= j < k.len() implies k[j] == suffix[j] by {
                                    if j > 0 {
                                        assert(k[j] == k.drop_first()[j - 1]);
                                        assert(suffix[j] == suffix.drop_first()[j - 1]);
                                    }
                                }
                                assert(k =~= suffix);
                            }
                        }
                        assert(mid.lookup(k) == mid.children@[i as int].lookup(k.drop_first()));
                        assert(self.lookup(k) == child.lookup(k.drop_first()));
                        assert(mid.lookup(k) == old(self).lookup(k)) by {
                            if old(self).children.len() < mid.children.len() {
                                assert(mid.children@[i as int].lookup(k.drop_first()) is None);
                            } else {
                                assert(mid == *old(self));
                            }
                        }
                    } else {
                        assert(k != suffix);
                        match symbols_of(mid.children@).index_of_first(k[0]) {
                            Some(j) => {
                                symbols_of(mid.children@).index_of_first_ensures(k[0]);
                                symbols_of(mid.children@).index_of_first_ensures(c);
                                assert(j != i);
                                assert(self.children@[j] == mid.children@[j]);
                            },
                            None => {},
                        }
                    }
                    if k[0] != c {
                        if old(self).children.len() < mid.children.len() {
                            match symbols_of(old(self).children@).index_of_first(k[0]) {
                                Some(j) => {
                                    symbols_of(old(self).children@).index_of_first_ensures(k[0]);
                                    assert(mid.children@[j] == old(self).children@[j]);
                                },
                                None => {},
                            }
                        }
                        assert(mid.lookup(k) == old(self).lookup(k));
                    }
                }
            }
        }
    }
}

impl<V> TrieNode<V> {
    fn get_from(&self, key: &[char], from: usize) -> (r: Option<&V>)
        requires
            from <= key@.len(),
        ensures
            match self.lookup(key@.subrange(from as int, key@.len() as int)) {
                Some(v) => r matches Some(w) && *w == v,
                None => r is None,
            },
        decreases key@.len() - from,
    {
        let ghost suffix = key@.subrange(from as int, key@.len() as int);
        if from == key.len() {
            return match &self.value {
                Some(v) => Some(v),
                None => None,
            };
        }
        proof {
            assert(suffix.drop_first() =~= key@.subrange(from + 1, key@.len() as int));
        }
        match self.find_child(key[from]) {
            Some(i) => self.children[i].get_from(key, from + 1),
            None => None,
        }
    }
}

impl<V> Trie<V> {
    /// The keys stored in the trie, each with its value.
    pub open spec fn view(&self) -> Map<Seq<char>, V> {
        Map::new(|k: Seq<char>| self.root.lookup(k) is Some, |k: Seq<char>| self.root.lookup(k)->0)
    }

    /// An empty trie.
    pub fn new() -> (r: Trie<V>)
        ensures
            r@ == Map::<Seq<char>, V>::empty(),
    {
        let r = Trie { root: TrieNode::new_node('\0') };
        assert(r@ =~= Map::<Seq<char>, V>::empty());
        r
    }

    /// Stores `value` under `key`, replacing any value that was there.
    pub fn insert(&mut self, key: &[char], value: V)
        ensures
            final(self)@ == old(self)@.insert(key@, value),
    {
        self.root.insert_from(key, 0, value);
        assert(key@.subrange(0, key@.len() as int) =~= key@);
        assert(self@ =~= old(self)@.insert(key@, value));
    }

    /// The value stored under `key`, if any.
    pub fn get(&self, key: &[char]) -> (r: Option<&V>)
        ensures
            r matches Some(v) ==> self@.contains_key(key@) && *v == self@[key@],
            r is None ==> !self@.contains_key(key@),
    {
        assert(key@.subrange(0, key@.len() as int) =~= key@);
        self.root.get_from(key, 0)
    }
}

proof fn lemma_first_index_push(syms: Seq<char>, c: char, d: char)
    requires
        d != c,
    ensures
        syms.push(c).index_of_first(d) == syms.index_of_first(d),
{
    let longer = syms.push(c);
    syms.index_of_first_ensures(d);
    longer.index_of_first_ensures(d);
    match syms.index_of_first(d) {
        Some(f) => {
            assert(longer[f] == d);
            assert(longer.contains(d));
        },
        None => {
            if longer.contains(d) {
                let f = choose|f: int| 0 <= f < longer.len() && longer[f] == d;
                assert(syms[f] == d);
            }
        },
    }
}

} // verus!
