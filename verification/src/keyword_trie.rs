use vstd::prelude::*;

use crate::scanner::TokenType;

verus! {

/// `p` is a prefix of `w`.
pub open spec fn is_prefix(p: Seq<char>, w: Seq<char>) -> bool {
    p.len() <= w.len() && forall|k: int| 0 <= k < p.len() ==> p[k] == w[k]
}

/// No word of the table is empty, and no word is a proper prefix of another.
pub open spec fn prefix_free(m: Map<Seq<char>, TokenType>) -> bool {
    &&& !m.dom().contains(Seq::<char>::empty())
    &&& forall|a: Seq<char>, b: Seq<char>|
        #![trigger m.dom().contains(a), m.dom().contains(b)]
        m.dom().contains(a) && m.dom().contains(b) && a != b ==> !is_prefix(a, b)
}

/// What a lookup of `w` answers: the keyword's token type, or `Identifier`.
pub open spec fn classify(m: Map<Seq<char>, TokenType>, w: Seq<char>) -> TokenType {
    if m.dom().contains(w) {
        m[w]
    } else {
        TokenType::Identifier
    }
}

/// One node of the keyword trie; its outgoing edges live in the trie's edge list.
#[derive(Clone, Copy)]
struct TrieNode {
    token_type: Option<TokenType>,
    is_end: bool,
}

impl TrieNode {
    fn new() -> (n: Self)
        ensures
            n.token_type is None,
            !n.is_end,
    {
        TrieNode { token_type: None, is_end: false }
    }
}

/// A trie over characters that maps keywords to their token types.
///
/// Nodes are kept in an arena; node 0 is the root. Each edge is a triple
/// (parent, character, child).
pub struct KeywordTrie {
    nodes: Vec<TrieNode>,
    edges: Vec<(usize, char, usize)>,
    paths: Ghost<Seq<Seq<char>>>,
    words: Ghost<Map<Seq<char>, TokenType>>,
}

impl KeywordTrie {
    /// The words stored in the trie with their token types.
    pub closed spec fn words(self) -> Map<Seq<char>, TokenType> {
        self.words@
    }

    spec fn path(self, i: int) -> Seq<char> {
        self.paths@[i]
    }

    spec fn edge_ok(self, e: int) -> bool {
        let (p, c, ch) = self.edges@[e];
        &&& p < self.nodes@.len()
        &&& ch < self.nodes@.len()
        &&& self.path(ch as int) == self.path(p as int).push(c)
    }

    spec fn has_edge(self, i: int, c: char) -> bool {
        exists|e: int| 0 <= e < self.edges@.len() && self.edges@[e].0 == i && self.edges@[e].1 == c
    }

    spec fn node_ok(self, i: int) -> bool {
        &&& self.nodes@[i].is_end == self.words@.dom().contains(self.path(i))
        &&& self.nodes@[i].is_end ==> self.nodes@[i].token_type == Some(self.words@[self.path(i)])
    }

    /// Every node on the way to a stored word is present and linked.
    spec fn complete_for(self, w: Seq<char>) -> bool {
        forall|i: int, c: char|
            #![trigger self.path(i).push(c), self.has_edge(i, c)]
            0 <= i < self.nodes@.len() && is_prefix(self.path(i).push(c), w) ==> self.has_edge(i, c)
    }

    spec fn sound_node(self, i: int) -> bool {
        exists|w: Seq<char>| #[trigger] self.words@.dom().contains(w) && is_prefix(self.path(i), w)
    }

    /// A node created while inserting `w`, after `k` of its characters.
    spec fn on_word(self, i: int, w: Seq<char>, k: int) -> bool {
        &&& 1 <= self.path(i).len() <= k
        &&& self.path(i) == w.take(self.path(i).len() as int)
        &&& forall|v: Seq<char>| #[trigger] self.words@.dom().contains(v) ==> !is_prefix(self.path(i), v)
    }

    spec fn links_ok(self) -> bool {
        &&& self.nodes@.len() == self.paths@.len()
        &&& forall|e: int| 0 <= e < self.edges@.len() ==> #[trigger] self.edge_ok(e)
    }

    pub closed spec fn wf(self) -> bool {
        let n = self.nodes@.len();
        &&& self.links_ok()
        &&& n >= 1
        &&& self.path(0) == Seq::<char>::empty()
        &&& forall|i: int| 0 <= i < n ==> #[trigger] self.node_ok(i)
        &&& forall|i: int, j: int|
            0 <= i < n && 0 <= j < n && i != j ==> #[trigger] self.path(i) != #[trigger] self.path(j)
        &&& forall|w: Seq<char>| #[trigger] self.words@.dom().contains(w) ==> self.complete_for(w)
        &&& forall|i: int| 0 < i < n ==> #[trigger] self.sound_node(i)
    }

    /// An empty trie: only the root.
    pub fn new() -> (t: Self)
        ensures
            t.wf(),
            t.words() == Map::<Seq<char>, TokenType>::empty(),
    {
        let mut nodes: Vec<TrieNode> = Vec::new();
        nodes.push(TrieNode::new());
        let ghost root_paths: Seq<Seq<char>> = seq![Seq::<char>::empty()];
        let ghost no_words = Map::<Seq<char>, TokenType>::empty();
        let t = KeywordTrie { nodes, edges: Vec::new(), paths: Ghost(root_paths), words: Ghost(no_words) };
        assert(t.path(0) == Seq::<char>::empty());
        t
    }

    /// The child of `node` along `c`, if there is one.
    fn find_child(&self, node: usize, c: char) -> (r: Option<usize>)
        requires
            self.links_ok(),
            node < self.nodes@.len(),
        ensures
            r is None ==> !self.has_edge(node as int, c),
            r matches Some(j) ==> j < self.nodes@.len() && self.path(j as int) == self.path(
                node as int,
            ).push(c) && self.has_edge(node as int, c),
    {
        let mut e: usize = 0;
        while e < self.edges.len()
            invariant
                self.links_ok(),
                node < self.nodes@.len(),
                e <= self.edges@.len(),
                forall|f: int|
                    0 <= f < e ==> !(self.edges@[f].0 == node && self.edges@[f].1 == c),
            decreases self.edges@.len() - e,
        {
            let (p, ch, child) = self.edges[e];
            if p == node && ch == c {
                assert(self.edge_ok(e as int));
                return Some(child);
            }
            e = e + 1;
        }
        None
    }

    /// Adds `word` with token type `tt`.
    pub fn insert(&mut self, word: &Vec<char>, tt: TokenType)
        requires
            old(self).wf(),
        ensures
            final(self).wf(),
            final(self).words() == old(self).words().insert(word@, tt),
    {
        let ghost w = word@;
        let ghost old_words = self.words@;
        let ghost n0 = self.nodes@.len();
        let mut cur: usize = 0;
        let mut k: usize = 0;
        while k < word.len()
            invariant
                self.nodes@.len() == self.paths@.len(),
                self.nodes@.len() >= n0 >= 1,
                self.path(0) == Seq::<char>::empty(),
                self.words@ == old_words,
                w == word@,
                k <= w.len(),
                cur < self.nodes@.len(),
                self.path(cur as int) == w.take(k as int),
                forall|e: int| 0 <= e < self.edges@.len() ==> #[trigger] self.edge_ok(e),
                forall|i: int| 0 <= i < self.nodes@.len() ==> #[trigger] self.node_ok(i),
                forall|i: int, j: int|
                    0 <= i < self.nodes@.len() && 0 <= j < self.nodes@.len() && i != j
                        ==> #[trigger] self.path(i) != #[trigger] self.path(j),
                forall|v: Seq<char>| #[trigger] old_words.dom().contains(v) ==> self.complete_for(v),
                forall|i: int| 0 < i < n0 ==> #[trigger] self.sound_node(i),
                forall|i: int| n0 <= i < self.nodes@.len() ==> #[trigger] self.on_word(i, w, k as int),
                forall|i: int, c: char|
                    #![trigger self.path(i).push(c), self.has_edge(i, c)]
                    0 <= i < self.nodes@.len() && self.path(i).len() < k && is_prefix(
                        self.path(i).push(c),
                        w,
                    ) ==> self.has_edge(i, c),
            decreases word@.len() - k,
        {
            let c = word[k];
            let ghost prev = cur;
            let ghost pc = self.path(cur as int).push(c);
            assert(pc == w.take(k + 1));
            match self.find_child(cur, c) {
                Some(j) => {
                    cur = j;
                },
                None => {
                    // The new path extends no stored word: such a word would have given `cur`
                    // an edge along `c`.
                    assert forall|v: Seq<char>| #[trigger] old_words.dom().contains(v) implies !is_prefix(
                        pc,
                        v,
                    ) by {
                        if is_prefix(pc, v) {
                            assert(self.complete_for(v));
                            assert(self.has_edge(cur as int, c));
                        }
                    }
                    let ghost old_self = *self;
                    let j = self.nodes.len();
                    self.nodes.push(TrieNode::new());
                    self.paths = Ghost(self.paths@.push(pc));
                    self.edges.push((cur, c, j));
                    assert(self.path(j as int) == pc);
                    assert forall|i: int| 0 <= i < old_self.nodes@.len() implies self.path(i)
                        == old_self.path(i) by {}
                    assert forall|e: int| 0 <= e < self.edges@.len() implies #[trigger] self.edge_ok(
                        e,
                    ) by {
                        if e < old_self.edges@.len() {
                            assert(old_self.edge_ok(e));
                        }
                    }
                    assert forall|i: int| 0 <= i < self.nodes@.len() implies #[trigger] self.node_ok(
                        i,
                    ) by {
                        if i < old_self.nodes@.len() {
                            assert(old_self.node_ok(i));
                        } else {
                            if old_words.dom().contains(pc) {
                                assert(is_prefix(pc, pc));
                            }
                        }
                    }
                    assert forall|i: int, jj: int|
                        0 <= i < self.nodes@.len() && 0 <= jj < self.nodes@.len() && i
                            != jj implies #[trigger] self.path(i) != #[trigger] self.path(jj) by {
                        if i < old_self.nodes@.len() && jj < old_self.nodes@.len() {
                            assert(old_self.path(i) != old_self.path(jj));
                        } else if i == j {
                            // `jj` is an older node.
                            if self.path(jj) == pc {
                                if jj < n0 {
                                    if jj > 0 {
                                        assert(old_self.sound_node(jj));
                                        let v = choose|v: Seq<char>|
                                            #[trigger] old_self.words@.dom().contains(v) && is_prefix(
                                                old_self.path(jj),
                                                v,
                                            );
                                        assert(is_prefix(pc, v));
                                    }
                                } else {
                                    assert(old_self.on_word(jj, w, k as int));
                                }
                            }
                        } else {
                            if self.path(i) == pc {
                                if i < n0 {
                                    if i > 0 {
                                        assert(old_self.sound_node(i));
                                        let v = choose|v: Seq<char>|
                                            #[trigger] old_self.words@.dom().contains(v) && is_prefix(
                                                old_self.path(i),
                                                v,
                                            );
                                        assert(is_prefix(pc, v));
                                    }
                                } else {
                                    assert(old_self.on_word(i, w, k as int));
                                }
                            }
                        }
                    }
                    assert forall|i: int, cc: char|
                        0 <= i < self.nodes@.len() && #[trigger] old_self.has_edge(i, cc) implies self.has_edge(
                        i,
                        cc,
                    ) by {
                        let e = choose|e: int|
                            0 <= e < old_self.edges@.len() && old_self.edges@[e].0 == i
                                && old_self.edges@[e].1 == cc;
                        assert(self.edges@[e] == old_self.edges@[e]);
                    }
                    assert(self.edges@[self.edges@.len() - 1] == (cur, c, j));
                    assert(self.has_edge(cur as int, c));
                    assert forall|v: Seq<char>| #[trigger] old_words.dom().contains(v) implies self.complete_for(v) by {
                        assert(old_self.complete_for(v));
                        assert forall|i: int, cc: char|
                            0 <= i < self.nodes@.len() && is_prefix(
                                #[trigger] self.path(i).push(cc),
                                v,
                            ) implies #[trigger] self.has_edge(i, cc) by {
                            if i < old_self.nodes@.len() {
                                assert(old_self.path(i) == self.path(i));
                                assert(old_self.has_edge(i, cc));
                            } else {
                                let pi = self.path(i);
                                assert forall|kk: int| 0 <= kk < pi.len() implies pi[kk] == v[kk] by {
                                    assert(pi.push(cc)[kk] == pi[kk]);
                                }
                                assert(old_self.on_word(i, w, k as int));
                                assert(is_prefix(pc, v));
                            }
                        }
                    }
                    assert forall|i: int| 0 < i < n0 implies #[trigger] self.sound_node(i) by {
                        assert(old_self.sound_node(i));
                        let v = choose|v: Seq<char>|
                            #[trigger] old_self.words@.dom().contains(v) && is_prefix(old_self.path(i), v);
                        assert(old_self.path(i) == self.path(i));
                        assert(self.words@.dom().contains(v) && is_prefix(self.path(i), v));
                    }
                    assert forall|i: int| n0 <= i < self.nodes@.len() implies #[trigger] self.on_word(
                        i,
                        w,
                        k + 1,
                    ) by {
                        if i < old_self.nodes@.len() {
                            assert(old_self.on_word(i, w, k as int));
                            assert(old_self.path(i) == self.path(i));
                        } else {
                            assert(i == j);
                        }
                    }
                    assert forall|i: int, cc: char|
                        0 <= i < self.nodes@.len() && self.path(i).len() < k && is_prefix(
                            #[trigger] self.path(i).push(cc),
                            w,
                        ) implies #[trigger] self.has_edge(i, cc) by {
                        if i < old_self.nodes@.len() {
                            assert(old_self.path(i) == self.path(i));
                            assert(old_self.has_edge(i, cc));
                        } else {
                            assert(i == j);
                            assert(self.path(i).len() == k + 1);
                        }
                    }
                    cur = j;
                },
            }
            proof {
                assert(self.has_edge(prev as int, c));
                // Every node on `w` below length k+1 now has its edge.
                assert forall|i: int, cc: char|
                    0 <= i < self.nodes@.len() && self.path(i).len() < k + 1 && is_prefix(
                        #[trigger] self.path(i).push(cc),
                        w,
                    ) implies #[trigger] self.has_edge(i, cc) by {
                    if self.path(i).len() == k {
                        assert forall|kk: int| 0 <= kk < k implies self.path(i)[kk] == w.take(
                            k as int,
                        )[kk] by {
                            assert(self.path(i).push(cc)[kk] == self.path(i)[kk]);
                        }
                        assert(self.path(i) =~= w.take(k as int));
                        assert(self.path(i).push(cc)[k as int] == cc);
                        assert(cc == c);
                        assert(self.path(prev as int) == self.path(i));
                    }
                }
                assert(self.path(cur as int) =~= w.take(k + 1));
                assert forall|i: int| n0 <= i < self.nodes@.len() implies #[trigger] self.on_word(
                    i,
                    w,
                    k + 1,
                ) by {
                    assert(self.on_word(i, w, k as int) || self.on_word(i, w, k + 1));
                }
            }
            k = k + 1;
        }
        let ghost before = *self;
        assert(w.take(k as int) =~= w);
        self.nodes.set(cur, TrieNode { token_type: Some(tt), is_end: true });
        self.words = Ghost(old_words.insert(w, tt));
        assert forall|i: int| 0 <= i < self.nodes@.len() implies self.path(i) == before.path(i) by {}
        assert forall|e: int| 0 <= e < self.edges@.len() implies #[trigger] self.edge_ok(e) by {
            assert(before.edge_ok(e));
        }
        assert forall|i: int, cc: char| #[trigger] before.has_edge(i, cc) implies self.has_edge(i, cc) by {}
        assert forall|i: int| 0 <= i < self.nodes@.len() implies #[trigger] self.node_ok(i) by {
            assert(before.node_ok(i));
            if i != cur {
                assert(before.path(i) != before.path(cur as int));
            }
        }
        assert forall|v: Seq<char>| #[trigger] self.words@.dom().contains(v) implies self.complete_for(v) by {
            if old_words.dom().contains(v) {
                assert(before.complete_for(v));
                assert forall|i: int, cc: char|
                    0 <= i < self.nodes@.len() && is_prefix(#[trigger] self.path(i).push(cc), v)
                        implies #[trigger] self.has_edge(i, cc) by {
                    assert(before.path(i) == self.path(i));
                    assert(before.has_edge(i, cc));
                }
            } else {
                assert(v == w);
                assert forall|i: int, cc: char|
                    0 <= i < self.nodes@.len() && is_prefix(#[trigger] self.path(i).push(cc), v)
                        implies #[trigger] self.has_edge(i, cc) by {
                    assert(before.path(i) == self.path(i));
                    assert(before.has_edge(i, cc));
                }
            }
        }
        assert forall|i: int| 0 < i < self.nodes@.len() implies #[trigger] self.sound_node(i) by {
            if i < n0 {
                assert(before.sound_node(i));
                let v = choose|v: Seq<char>|
                    #[trigger] before.words@.dom().contains(v) && is_prefix(before.path(i), v);
                assert(self.words@.dom().contains(v) && is_prefix(self.path(i), v));
            } else {
                assert(before.on_word(i, w, k as int));
                let pi = self.path(i);
                assert(pi == w.take(pi.len() as int));
                assert(self.words@.dom().contains(w));
                assert(is_prefix(pi, w));
            }
        }
        assert forall|i: int, j: int|
            0 <= i < self.nodes@.len() && 0 <= j < self.nodes@.len() && i != j
                implies #[trigger] self.path(i) != #[trigger] self.path(j) by {
            assert(before.path(i) != before.path(j));
        }
        assert(self.links_ok());
    }

    /// Walks the trie along `chars[start..end]` and classifies that word.
    pub fn lookup(&self, chars: &Vec<char>, start: usize, end: usize) -> (r: Option<TokenType>)
        requires
            self.wf(),
            prefix_free(self.words()),
            start < end <= chars@.len(),
        ensures
            r == Some(classify(self.words(), chars@.subrange(start as int, end as int))),
    {
        let ghost w = chars@.subrange(start as int, end as int);
        let mut current_node: usize = 0;
        let mut keyword = Some(TokenType::Identifier);
        let mut idx = start;
        assert(self.node_ok(0));
        assert(self.path(0) =~= w.take(0));
        while idx < end
            invariant
                self.wf(),
                prefix_free(self.words()),
                start <= idx <= end <= chars@.len(),
                w == chars@.subrange(start as int, end as int),
                current_node < self.nodes@.len(),
                self.path(current_node as int) == w.take(idx - start),
                keyword == (if self.nodes@[current_node as int].is_end {
                    self.nodes@[current_node as int].token_type
                } else {
                    Some(TokenType::Identifier)
                }),
            decreases end - idx,
        {
            let ch = chars[idx];
            let ghost m = idx - start;
            assert(self.path(current_node as int).push(ch) =~= w.take(m + 1));
            match self.find_child(current_node, ch) {
                Some(child) => {
                    let ghost prev = current_node;
                    assert(self.path(child as int).len() == m + 1);
                    if child == 0 {
                        assert(self.path(0).len() == 0);
                    }
                    assert(self.sound_node(child as int));
                    let ghost v = choose|v: Seq<char>|
                        #[trigger] self.words@.dom().contains(v) && is_prefix(self.path(child as int), v);
                    proof {
                        assert(self.node_ok(prev as int));
                        if self.words@.dom().contains(self.path(prev as int)) {
                            assert(is_prefix(self.path(prev as int), v));
                            assert(self.path(prev as int).len() != v.len());
                        }
                    }
                    current_node = child;
                    if self.nodes[current_node].is_end {
                        keyword = self.nodes[current_node].token_type;
                    }
                },
                None => {
                    proof {
                        if self.words@.dom().contains(w) {
                            assert(self.complete_for(w));
                            assert(is_prefix(self.path(current_node as int).push(ch), w));
                        }
                    }
                    return Some(TokenType::Identifier);
                },
            }
            idx = idx + 1;
        }
        assert(w.take(end - start) =~= w);
        assert(self.node_ok(current_node as int));
        if self.nodes[current_node].is_end {
            keyword = self.nodes[current_node].token_type;
        }
        keyword
    }
}

} // verus!
