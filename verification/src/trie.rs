use vstd::prelude::*;

verus! {

/// The child letter that marks the end of a word.
pub const WORD_EOF: char = '@';

/// One node of the word tree: each child is a letter and the index of the
/// node that letter leads to.
#[derive(Debug)]
pub struct TrieNode {
    pub children: Vec<(char, usize)>,
}

/// A word tree stored as a list of nodes; node 0 is the root.  A word is in
/// the tree when following its letters from the root reaches a node that has a
/// `WORD_EOF` child.
#[derive(Debug)]
pub struct Trie {
    pub nodes: Vec<TrieNode>,
}

impl Trie {
    /// The children of node `n`.
    pub open spec fn kids(self, n: int) -> Seq<(char, usize)> {
        self.nodes@[n].children@
    }

    /// There is a root, every child index names a node, and no node has two
    /// children under one letter.
    pub open spec fn wf(self) -> bool {
        &&& self.nodes@.len() > 0
        &&& forall|n: int, j: int|
            0 <= n < self.nodes@.len() && 0 <= j < self.kids(n).len() ==> #[trigger] self.kids(n)[j].1
                < self.nodes@.len()
        &&& forall|n: int, i: int, j: int|
            0 <= n < self.nodes@.len() && 0 <= i < j < self.kids(n).len() ==> #[trigger] self.kids(n)[i].0
                != #[trigger] self.kids(n)[j].0
    }

    /// Node `n` has a child under letter `c`.
    pub open spec fn has_key(self, n: int, c: char) -> bool {
        exists|j: int| 0 <= j < self.kids(n).len() && #[trigger] self.kids(n)[j].0 == c
    }

    /// The position, among the children of `n`, of the child under `c`.
    pub open spec fn key_index(self, n: int, c: char) -> int {
        choose|j: int| 0 <= j < self.kids(n).len() && #[trigger] self.kids(n)[j].0 == c
    }

    /// The node reached from `n` by the letter `c`.
    pub open spec fn child(self, n: int, c: char) -> int {
        self.kids(n)[self.key_index(n, c)].1 as int
    }

    /// The node reached from `n` by following the letters of `s`, if any.
    pub open spec fn walk(self, n: int, s: Seq<char>) -> Option<int>
        decreases s.len(),
    {
        if s.len() == 0 {
            Some(n)
        } else if self.has_key(n, s[0]) {
            self.walk(self.child(n, s[0]), s.drop_first())
        } else {
            None
        }
    }

    /// A word ends at node `n`.
    pub open spec fn is_end(self, n: int) -> bool {
        self.has_key(n, WORD_EOF)
    }

    /// Following `s` from node `n` reaches the end of a word.
    pub open spec fn ends_word(self, n: int, s: Seq<char>) -> bool {
        match self.walk(n, s) {
            Some(m) => self.is_end(m),
            None => false,
        }
    }

    /// The tree holds the word `s`.
    pub open spec fn contains_word(self, s: Seq<char>) -> bool {
        self.ends_word(0, s)
    }

    /// The nodes form a tree below the root: no child is the root, and no
    /// node is the child of two letters.
    pub open spec fn is_tree(self) -> bool {
        &&& forall|n: int, j: int|
            0 <= n < self.nodes@.len() && 0 <= j < self.kids(n).len() ==> #[trigger] self.kids(n)[j].1 != 0
        &&& forall|n1: int, j1: int, n2: int, j2: int|
            #![trigger self.kids(n1)[j1], self.kids(n2)[j2]]
            0 <= n1 < self.nodes@.len() && 0 <= j1 < self.kids(n1).len() && 0 <= n2 < self.nodes@.len() && 0
                <= j2 < self.kids(n2).len() && self.kids(n1)[j1].1 == self.kids(n2)[j2].1 ==> n1 == n2
                && j1 == j2
    }

    /// Every child link of this tree that leads to a node of `old` is a link
    /// of `old`: what was added leads only to added nodes.
    pub open spec fn adds_only_fresh(self, old: Trie) -> bool {
        forall|n: int, j: int|
            0 <= n < self.nodes@.len() && 0 <= j < self.kids(n).len() && #[trigger] self.kids(n)[j].1
                < old.nodes@.len() ==> n < old.nodes@.len() && j < old.kids(n).len()
    }

    /// A tree with only a root and no words.
    pub fn new() -> (t: Trie)
        ensures
            t.wf(),
            t.is_tree(),
            t.nodes@.len() == 1,
            t.kids(0) == Seq::<(char, usize)>::empty(),
    {
        let mut nodes: Vec<TrieNode> = Vec::new();
        nodes.push(TrieNode { children: Vec::new() });
        Trie { nodes }
    }

    /// The child of `node` under `c`, if there is one.
    pub fn get_child(&self, node: usize, c: char) -> (r: Option<usize>)
        requires
            self.wf(),
            node < self.nodes@.len(),
        ensures
            r is Some <==> self.has_key(node as int, c),
            r matches Some(m) ==> m == self.child(node as int, c) && m < self.nodes@.len(),
    {
        let kids = &self.nodes[node].children;
        let mut j: usize = 0;
        while j < kids.len()
            invariant
                self.wf(),
                node < self.nodes@.len(),
                kids@ == self.kids(node as int),
                j <= kids@.len(),
                forall|i: int| 0 <= i < j ==> kids@[i].0 != c,
            decreases kids@.len() - j,
        {
            if kids[j].0 == c {
                let ghost k = self.key_index(node as int, c);
                assert(self.kids(node as int)[j as int].0 == c);
                assert(k == j) by {
                    if k < j {
                        assert(self.kids(node as int)[k].0 != self.kids(node as int)[j as int].0);
                    } else if k > j {
                        assert(self.kids(node as int)[j as int].0 != self.kids(node as int)[k].0);
                    }
                }
                return Some(kids[j].1);
            }
            j = j + 1;
        }
        None
    }

    /// Every node of `old` is a node here, with the same children first.
    pub open spec fn extends(self, old: Trie) -> bool {
        &&& old.nodes@.len() <= self.nodes@.len()
        &&& forall|n: int|
            0 <= n < old.nodes@.len() ==> (#[trigger] old.kids(n)).len() <= self.kids(n).len()
        &&& forall|n: int, j: int|
            0 <= n < old.nodes@.len() && 0 <= j < old.kids(n).len() ==> #[trigger] self.kids(n)[j]
                == old.kids(n)[j]
    }

    /// Adds a child under `c` to `parent` unless it has one; returns the child.
    pub fn add_child(&mut self, parent: usize, c: char) -> (m: usize)
        requires
            old(self).wf(),
            parent < old(self).nodes@.len(),
            old(self).nodes@.len() < usize::MAX,
        ensures
            final(self).wf(),
            final(self).extends(*old(self)),
            final(self).adds_only_fresh(*old(self)),
            old(self).is_tree() ==> final(self).is_tree(),
            m < final(self).nodes@.len(),
            final(self).has_key(parent as int, c),
            final(self).child(parent as int, c) == m,
            old(self).has_key(parent as int, c) ==> final(self).nodes@ == old(self).nodes@,
            !old(self).has_key(parent as int, c) ==> {
                &&& m == old(self).nodes@.len()
                &&& final(self).nodes@.len() == old(self).nodes@.len() + 1
                &&& final(self).kids(parent as int) == old(self).kids(parent as int).push((c, m))
                &&& final(self).kids(m as int).len() == 0
                &&& forall|n: int|
                    0 <= n < old(self).nodes@.len() && n != parent ==> #[trigger] final(self).kids(n)
                        == old(self).kids(n)
            },
    {
        match self.get_child(parent, c) {
            Some(m) => {
                proof {
                    lemma_extends_refl(*self);
                }
                m
            },
            None => {
                let m = self.nodes.len();
                let ghost old_kids = self.kids(parent as int);
                self.nodes[parent].children.push((c, m));
                self.nodes.push(TrieNode { children: Vec::new() });
                assert(self.kids(parent as int) == old_kids.push((c, m)));
                assert(self.kids(m as int) == Seq::<(char, usize)>::empty());
                assert forall|n: int| 0 <= n < m && n != parent implies #[trigger] self.kids(n) == old(
                    self,
                ).kids(n) by {
                    assert(self.nodes@[n] == old(self).nodes@[n]);
                }
                assert forall|n: int, j: int|
                    0 <= n < self.nodes@.len() && 0 <= j < self.kids(n).len() implies #[trigger] self.kids(
                    n,
                )[j].1 < self.nodes@.len() by {
                    if n == parent && j < old_kids.len() {
                        assert(old(self).kids(n)[j].1 < m);
                    } else if n != parent && n < m {
                        assert(old(self).kids(n)[j].1 < m);
                    }
                }
                assert forall|n: int, i: int, j: int|
                    0 <= n < self.nodes@.len() && 0 <= i < j < self.kids(n).len() implies #[trigger] self.kids(n)[i].0
                        != #[trigger] self.kids(n)[j].0 by {
                    if n == parent {
                        if j == old_kids.len() {
                            assert(old(self).kids(n)[i].0 != c);
                        } else {
                            assert(old(self).kids(n)[i].0 != old(self).kids(n)[j].0);
                        }
                    } else if n < m {
                        assert(old(self).kids(n)[i].0 != old(self).kids(n)[j].0);
                    }
                }
                assert(self.kids(parent as int)[old_kids.len() as int].0 == c);
                let ghost k = self.key_index(parent as int, c);
                assert(k == old_kids.len()) by {
                    if k < old_kids.len() {
                        assert(old(self).kids(parent as int)[k].0 == c);
                    }
                }
                proof {
                    lemma_added_link(*self, *old(self), parent as int, c, m as int);
                }
                m
            },
        }
    }

    /// Adds the word `word`: its letters from the root, then a `WORD_EOF`
    /// child.  When `word` holds no `WORD_EOF`, the tree then holds exactly
    /// the words it held and `word`.
    pub fn insert_word(&mut self, word: &Vec<char>)
        requires
            old(self).wf(),
            old(self).is_tree(),
            old(self).nodes@.len() + word@.len() + 1 < usize::MAX,
        ensures
            final(self).wf(),
            final(self).is_tree(),
            final(self).extends(*old(self)),
            final(self).contains_word(word@),
            final(self).nodes@.len() <= old(self).nodes@.len() + word@.len() + 1,
            !word@.contains(WORD_EOF) ==> forall|s: Seq<char>|
                #[trigger] final(self).contains_word(s) <==> old(self).contains_word(s) || s == word@,
    {
        let ghost orig = *old(self);
        let ghost plain = !word@.contains(WORD_EOF);
        let mut node: usize = 0;
        let mut i: usize = 0;
        proof {
            lemma_extends_refl(*self);
            assert(word@.take(0) =~= Seq::<char>::empty());
        }
        while i < word.len()
            invariant
                self.wf(),
                self.is_tree(),
                orig.wf(),
                self.extends(orig),
                self.adds_only_fresh(orig),
                plain == !word@.contains(WORD_EOF),
                plain ==> forall|n: int| 0 <= n < orig.nodes@.len() ==> #[trigger] self.is_end(n) == orig.is_end(n),
                plain ==> forall|n: int|
                    orig.nodes@.len() <= n < self.nodes@.len() ==> !#[trigger] self.is_end(n),
                i <= word@.len(),
                self.nodes@.len() <= orig.nodes@.len() + i,
                orig.nodes@.len() + word@.len() + 1 < usize::MAX,
                node < self.nodes@.len(),
                self.walk(0, word@.take(i as int)) == Some(node as int),
            decreases word@.len() - i,
        {
            let ghost prev = *self;
            let c = word[i];
            let m = self.add_child(node, c);
            proof {
                lemma_extends_trans(*self, prev, orig);
                lemma_fresh_trans(*self, prev, orig);
                lemma_extends_walk(*self, prev, 0, word@.take(i as int));
                lemma_walk_push(*self, 0, word@.take(i as int), c);
                assert(word@.take(i as int).push(c) =~= word@.take(i + 1));
                if plain {
                    assert(word@[i as int] == c);
                    lemma_letter_keeps_ends(*self, prev, node as int, c);
                }
            }
            node = m;
            i = i + 1;
        }
        let ghost prev = *self;
        let e = self.add_child(node, WORD_EOF);
        proof {
            lemma_extends_trans(*self, prev, orig);
            assert(word@.take(word@.len() as int) =~= word@);
            lemma_extends_walk(*self, prev, 0, word@);
            if plain {
                lemma_fresh_trans(*self, prev, orig);
                assert forall|s: Seq<char>|
                    #[trigger] self.contains_word(s) <==> orig.contains_word(s) || s == word@ by {
                    if self.contains_word(s) && s != word@ {
                        let m = self.walk(0, s)->0;
                        lemma_walk_in_range(*self, 0, s);
                        if m == node as int {
                            lemma_walk_injective(*self, s, word@);
                        }
                        assert(m < prev.nodes@.len());
                        assert(self.kids(m) == prev.kids(m));
                        assert(prev.is_end(m));
                        lemma_walk_fresh(*self, prev, s);
                        assert(m < orig.nodes@.len());
                        lemma_walk_fresh(prev, orig, s);
                    }
                    if orig.contains_word(s) {
                        lemma_extends_keeps_words(*self, orig, s);
                    }
                }
            }
        }
    }

    /// Whether a word ends at `node`.
    pub fn has_word_end(&self, node: usize) -> (b: bool)
        requires
            self.wf(),
            node < self.nodes@.len(),
        ensures
            b == self.is_end(node as int),
    {
        self.get_child(node, WORD_EOF).is_some()
    }
}

/// The child at position `j` of node `n` is the one under its letter.
pub proof fn lemma_key_index(t: Trie, n: int, j: int)
    requires
        t.wf(),
        0 <= n < t.nodes@.len(),
        0 <= j < t.kids(n).len(),
    ensures
        t.has_key(n, t.kids(n)[j].0),
        t.key_index(n, t.kids(n)[j].0) == j,
        t.child(n, t.kids(n)[j].0) == t.kids(n)[j].1,
{
    let c = t.kids(n)[j].0;
    assert(t.kids(n)[j].0 == c);
    let k = t.key_index(n, c);
    if k < j {
        assert(t.kids(n)[k].0 != t.kids(n)[j].0);
    } else if k > j {
        assert(t.kids(n)[j].0 != t.kids(n)[k].0);
    }
}

/// Following letters from a node of the tree stays among its nodes.
pub proof fn lemma_walk_in_range(t: Trie, n: int, s: Seq<char>)
    requires
        t.wf(),
        0 <= n < t.nodes@.len(),
    ensures
        t.walk(n, s) matches Some(m) ==> 0 <= m < t.nodes@.len(),
    decreases s.len(),
{
    if s.len() > 0 && t.has_key(n, s[0]) {
        let j = t.key_index(n, s[0]);
        assert(t.kids(n)[j].1 < t.nodes@.len());
        lemma_walk_in_range(t, t.child(n, s[0]), s.drop_first());
    }
}

/// Following `s` and then `c` is following `s`, then the child under `c`.
pub proof fn lemma_walk_push(t: Trie, n: int, s: Seq<char>, c: char)
    requires
        t.wf(),
        0 <= n < t.nodes@.len(),
    ensures
        t.walk(n, s.push(c)) == (match t.walk(n, s) {
            Some(m) => if t.has_key(m, c) {
                Some(t.child(m, c))
            } else {
                None
            },
            None => None,
        }),
    decreases s.len(),
{
    if s.len() == 0 {
        assert(s.push(c).drop_first() =~= Seq::<char>::empty());
        assert(s.push(c)[0] == c);
        if t.has_key(n, c) {
            assert(t.walk(t.child(n, c), Seq::<char>::empty()) == Some(t.child(n, c)));
        }
    } else {
        assert(s.push(c)[0] == s[0]);
        assert(s.push(c).drop_first() =~= s.drop_first().push(c));
        if t.has_key(n, s[0]) {
            let j = t.key_index(n, s[0]);
            assert(t.kids(n)[j].1 < t.nodes@.len());
            lemma_walk_push(t, t.child(n, s[0]), s.drop_first(), c);
        }
    }
}

proof fn lemma_extends_refl(t: Trie)
    ensures
        t.extends(t),
{
}

proof fn lemma_extends_trans(a: Trie, b: Trie, c: Trie)
    requires
        a.extends(b),
        b.extends(c),
    ensures
        a.extends(c),
{
    assert forall|n: int, j: int|
        0 <= n < c.nodes@.len() && 0 <= j < c.kids(n).len() implies #[trigger] a.kids(n)[j] == c.kids(
        n,
    )[j] by {
        assert(b.kids(n)[j] == c.kids(n)[j]);
        assert(a.kids(n)[j] == b.kids(n)[j]);
    }
}

proof fn lemma_extends_key(new: Trie, old: Trie, n: int, c: char)
    requires
        new.wf(),
        old.wf(),
        new.extends(old),
        0 <= n < old.nodes@.len(),
        old.has_key(n, c),
    ensures
        new.has_key(n, c),
        new.child(n, c) == old.child(n, c),
{
    let j = old.key_index(n, c);
    assert(new.kids(n)[j] == old.kids(n)[j]);
    let k = new.key_index(n, c);
    if k < j {
        assert(new.kids(n)[k].0 != new.kids(n)[j].0);
    } else if k > j {
        assert(new.kids(n)[j].0 != new.kids(n)[k].0);
    }
}

/// Growing the tree keeps every path of letters that led somewhere.
pub proof fn lemma_extends_walk(new: Trie, old: Trie, n: int, s: Seq<char>)
    requires
        new.wf(),
        old.wf(),
        new.extends(old),
        0 <= n < old.nodes@.len(),
        old.walk(n, s) is Some,
    ensures
        new.walk(n, s) == old.walk(n, s),
    decreases s.len(),
{
    if s.len() > 0 {
        lemma_extends_key(new, old, n, s[0]);
        let j = old.key_index(n, s[0]);
        assert(old.kids(n)[j].1 < old.nodes@.len());
        lemma_extends_walk(new, old, old.child(n, s[0]), s.drop_first());
    }
}

/// Growing the tree keeps every word that was in it.
pub proof fn lemma_extends_keeps_words(new: Trie, old: Trie, s: Seq<char>)
    requires
        new.wf(),
        old.wf(),
        new.extends(old),
        old.contains_word(s),
    ensures
        new.contains_word(s),
{
    lemma_extends_walk(new, old, 0, s);
    let m = old.walk(0, s)->0;
    lemma_walk_in_range(old, 0, s);
    lemma_extends_key(new, old, m, WORD_EOF);
}

/// Adding one link from `parent` under `c` to a new last node `m` keeps the
/// tree shape, and the new link leads to a new node.
proof fn lemma_added_link(new: Trie, old: Trie, parent: int, c: char, m: int)
    requires
        0 <= parent < old.nodes@.len(),
        m == old.nodes@.len(),
        m < usize::MAX,
        new.nodes@.len() == m + 1,
        new.kids(parent) == old.kids(parent).push((c, m as usize)),
        new.kids(m).len() == 0,
        forall|n: int| 0 <= n < m && n != parent ==> #[trigger] new.kids(n) == old.kids(n),
        forall|n: int, j: int|
            0 <= n < old.nodes@.len() && 0 <= j < old.kids(n).len() ==> #[trigger] old.kids(n)[j].1
                < old.nodes@.len(),
    ensures
        new.adds_only_fresh(old),
        old.is_tree() ==> new.is_tree(),
{
    assert forall|n: int, j: int|
        0 <= n < new.nodes@.len() && 0 <= j < new.kids(n).len() implies (n < m && j < old.kids(n).len()
        && #[trigger] new.kids(n)[j] == old.kids(n)[j]) || (n == parent && j == old.kids(parent).len()
        && new.kids(n)[j] == (c, m as usize)) by {
        if n != parent {
            assert(n < m);
            assert(new.kids(n) == old.kids(n));
        }
    }
    assert forall|n: int, j: int|
        0 <= n < new.nodes@.len() && 0 <= j < new.kids(n).len() && #[trigger] new.kids(n)[j].1
            < old.nodes@.len() implies n < old.nodes@.len() && j < old.kids(n).len() by {
        assert((n < m && j < old.kids(n).len() && new.kids(n)[j] == old.kids(n)[j]) || (n == parent && j
            == old.kids(parent).len() && new.kids(n)[j] == (c, m as usize)));
    }
    if old.is_tree() {
        assert forall|n: int, j: int|
            0 <= n < new.nodes@.len() && 0 <= j < new.kids(n).len() implies #[trigger] new.kids(n)[j].1
            != 0 by {
            assert((n < m && j < old.kids(n).len() && new.kids(n)[j] == old.kids(n)[j]) || (n == parent
                && j == old.kids(parent).len() && new.kids(n)[j] == (c, m as usize)));
            if n < m && j < old.kids(n).len() {
                assert(old.kids(n)[j].1 != 0);
            }
        }
        assert forall|n1: int, j1: int, n2: int, j2: int|
            #![trigger new.kids(n1)[j1], new.kids(n2)[j2]]
            0 <= n1 < new.nodes@.len() && 0 <= j1 < new.kids(n1).len() && 0 <= n2 < new.nodes@.len() && 0
                <= j2 < new.kids(n2).len() && new.kids(n1)[j1].1 == new.kids(n2)[j2].1 implies n1 == n2
            && j1 == j2 by {
            assert((n1 < m && j1 < old.kids(n1).len() && new.kids(n1)[j1] == old.kids(n1)[j1]) || (n1
                == parent && j1 == old.kids(parent).len() && new.kids(n1)[j1] == (c, m as usize)));
            assert((n2 < m && j2 < old.kids(n2).len() && new.kids(n2)[j2] == old.kids(n2)[j2]) || (n2
                == parent && j2 == old.kids(parent).len() && new.kids(n2)[j2] == (c, m as usize)));
            if n1 < m && j1 < old.kids(n1).len() {
                assert(old.kids(n1)[j1].1 < m);
            }
            if n2 < m && j2 < old.kids(n2).len() {
                assert(old.kids(n2)[j2].1 < m);
            }
            if n1 < m && j1 < old.kids(n1).len() && n2 < m && j2 < old.kids(n2).len() {
                assert(old.kids(n1)[j1].1 == old.kids(n2)[j2].1);
            }
        }
    }
}

/// In a tree, following letters from the root reaches a node by one word
/// only.
pub proof fn lemma_walk_injective(t: Trie, s1: Seq<char>, s2: Seq<char>)
    requires
        t.wf(),
        t.is_tree(),
        t.walk(0, s1) is Some,
        t.walk(0, s1) == t.walk(0, s2),
    ensures
        s1 == s2,
    decreases s1.len() + s2.len(),
{
    if s1.len() == 0 && s2.len() == 0 {
        assert(s1 =~= s2);
    } else if s1.len() == 0 || s2.len() == 0 {
        let s = if s1.len() == 0 {
            s2
        } else {
            s1
        };
        assert(t.walk(0, s) == Some(0int));
        lemma_last_link(t, s);
        let p = t.walk(0, s.drop_last())->0;
        let k = t.key_index(p, s.last());
        assert(t.kids(p)[k].1 != 0);
    } else {
        lemma_last_link(t, s1);
        lemma_last_link(t, s2);
        let p1 = t.walk(0, s1.drop_last())->0;
        let p2 = t.walk(0, s2.drop_last())->0;
        let k1 = t.key_index(p1, s1.last());
        let k2 = t.key_index(p2, s2.last());
        assert(t.kids(p1)[k1].1 == t.kids(p2)[k2].1);
        assert(p1 == p2 && k1 == k2);
        lemma_walk_injective(t, s1.drop_last(), s2.drop_last());
        assert(s1 =~= s1.drop_last().push(s1.last()));
        assert(s2 =~= s2.drop_last().push(s2.last()));
    }
}

/// The last letter of a word that leads somewhere from the root is a link
/// out of the node its other letters lead to.
proof fn lemma_last_link(t: Trie, s: Seq<char>)
    requires
        t.wf(),
        s.len() > 0,
        t.walk(0, s) is Some,
    ensures
        t.walk(0, s.drop_last()) is Some,
        0 <= t.walk(0, s.drop_last())->0 < t.nodes@.len(),
        t.has_key(t.walk(0, s.drop_last())->0, s.last()),
        0 <= t.key_index(t.walk(0, s.drop_last())->0, s.last()) < t.kids(t.walk(0, s.drop_last())->0).len(),
        t.kids(t.walk(0, s.drop_last())->0)[t.key_index(t.walk(0, s.drop_last())->0, s.last())].0 == s.last(),
        t.walk(0, s)->0 == t.child(t.walk(0, s.drop_last())->0, s.last()),
{
    assert(s =~= s.drop_last().push(s.last()));
    lemma_walk_push(t, 0, s.drop_last(), s.last());
    lemma_walk_in_range(t, 0, s.drop_last());
}

/// Growing a tree only by links to new nodes: a word that leads to an old
/// node in the grown tree led there before.
pub proof fn lemma_walk_fresh(new: Trie, old: Trie, s: Seq<char>)
    requires
        new.wf(),
        old.wf(),
        new.extends(old),
        new.adds_only_fresh(old),
        new.walk(0, s) is Some,
        new.walk(0, s)->0 < old.nodes@.len(),
    ensures
        old.walk(0, s) == new.walk(0, s),
    decreases s.len(),
{
    if s.len() > 0 {
        lemma_last_link(new, s);
        let p = new.walk(0, s.drop_last())->0;
        let c = s.last();
        let k = new.key_index(p, c);
        assert(new.kids(p)[k].1 < old.nodes@.len());
        assert(p < old.nodes@.len() && k < old.kids(p).len());
        assert(old.kids(p)[k] == new.kids(p)[k]);
        lemma_walk_fresh(new, old, s.drop_last());
        lemma_key_index(old, p, k);
        assert(s =~= s.drop_last().push(c));
        lemma_walk_push(old, 0, s.drop_last(), c);
    }
}

/// Growing only by links to new nodes, twice, grows only by links to new nodes.
proof fn lemma_fresh_trans(a: Trie, b: Trie, c: Trie)
    requires
        a.extends(b),
        b.extends(c),
        a.adds_only_fresh(b),
        b.adds_only_fresh(c),
    ensures
        a.adds_only_fresh(c),
{
    assert forall|n: int, j: int|
        0 <= n < a.nodes@.len() && 0 <= j < a.kids(n).len() && #[trigger] a.kids(n)[j].1
            < c.nodes@.len() implies n < c.nodes@.len() && j < c.kids(n).len() by {
        assert(n < b.nodes@.len() && j < b.kids(n).len());
        assert(a.kids(n)[j] == b.kids(n)[j]);
        assert(b.kids(n)[j].1 < c.nodes@.len());
    }
}

/// Adding a letter other than `WORD_EOF` ends no new word at an old node,
/// and no word at a new one.
proof fn lemma_letter_keeps_ends(new: Trie, old: Trie, parent: int, c: char)
    requires
        0 <= parent < old.nodes@.len(),
        c != WORD_EOF,
        old.has_key(parent, c) ==> new.nodes@ == old.nodes@,
        !old.has_key(parent, c) ==> {
            &&& new.nodes@.len() == old.nodes@.len() + 1
            &&& new.kids(parent) == old.kids(parent).push((c, old.nodes@.len() as usize))
            &&& new.kids(old.nodes@.len() as int).len() == 0
            &&& forall|n: int|
                0 <= n < old.nodes@.len() && n != parent ==> #[trigger] new.kids(n) == old.kids(n)
        },
    ensures
        forall|n: int| 0 <= n < old.nodes@.len() ==> #[trigger] new.is_end(n) == old.is_end(n),
        forall|n: int| old.nodes@.len() <= n < new.nodes@.len() ==> !#[trigger] new.is_end(n),
{
    if !old.has_key(parent, c) {
        assert forall|n: int| 0 <= n < old.nodes@.len() implies #[trigger] new.is_end(n) == old.is_end(n) by {
            if n == parent {
                if new.is_end(n) {
                    let j = choose|j: int| 0 <= j < new.kids(n).len() && #[trigger] new.kids(n)[j].0 == WORD_EOF;
                    assert(j < old.kids(n).len());
                    assert(old.kids(n)[j].0 == WORD_EOF);
                }
                if old.is_end(n) {
                    let j = choose|j: int| 0 <= j < old.kids(n).len() && #[trigger] old.kids(n)[j].0 == WORD_EOF;
                    assert(new.kids(n)[j].0 == WORD_EOF);
                }
            } else {
                assert(new.kids(n) == old.kids(n));
            }
        }
    } else {
        assert forall|n: int| 0 <= n < old.nodes@.len() implies #[trigger] new.is_end(n) == old.is_end(n) by {
            assert(new.nodes@[n] == old.nodes@[n]);
            assert(new.kids(n) == old.kids(n));
        }
    }
}

} // verus!
