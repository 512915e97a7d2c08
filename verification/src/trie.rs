//! The trie container: node structure, well-formedness, and the
//! insert / find / delete algorithms.

use vstd::prelude::*;

verus! {

/// Number of symbols in the supported alphabet, `'a'` through `'z'`.
pub const ALPHABET_LEN: usize = 26;

/// A symbol that may appear in a key: one lowercase ASCII letter.
pub open spec fn is_symbol(c: char) -> bool {
    'a' as int <= c as int && c as int <= 'z' as int
}

/// The child slot that symbol `c` selects.
pub open spec fn sym_index(c: char) -> int {
    c as int - 'a' as int
}

/// The symbol that child slot `i` stands for.
pub open spec fn sym_char(i: int) -> char {
    ('a' as int + i) as char
}

/// A key is valid when every character is a symbol of the alphabet.
pub open spec fn valid_key(k: Seq<char>) -> bool {
    forall|i: int| 0 <= i < k.len() ==> is_symbol(#[trigger] k[i])
}

/// Rejection of a key that steps outside the alphabet.
#[derive(Clone, Copy, Debug, PartialEq, Eq)]
pub enum TrieError {
    /// The key contains a character outside `'a'..='z'`.
    InvalidSymbol,
}

/// One node of the trie: 26 optional children, a terminal flag, and the
/// stored value (the key itself) when the node is terminal.
pub struct TrieNode {
    children: Vec<Option<Box<TrieNode>>>,
    terminal: bool,
    value: String,
}

impl TrieNode {
    /// All 26 child slots are present.
    pub closed spec fn slots_ok(self) -> bool {
        self.children@.len() == ALPHABET_LEN
    }

    /// The child reached by symbol `c`.
    pub closed spec fn spec_child(self, c: char) -> Option<Box<TrieNode>> {
        self.children@[sym_index(c)]
    }

    /// Whether any child slot is filled.
    pub closed spec fn spec_has_children(self) -> bool {
        exists|i: int| 0 <= i < self.children@.len() && self.children@[i] is Some
    }

    /// Whether this node marks the end of a stored key.
    pub closed spec fn spec_terminal(self) -> bool {
        self.terminal
    }

    /// The stored value.
    pub closed spec fn spec_value(self) -> Seq<char> {
        self.value@
    }

    /// A node still earns its place in the tree: it marks a key, or some
    /// key passes through it.
    pub open spec fn live(self) -> bool {
        self.spec_terminal() || self.spec_has_children()
    }

    /// Whether key `k` (relative to this node) is stored in this subtree.
    pub closed spec fn has_key(self, k: Seq<char>) -> bool
        decreases k.len(),
    {
        if k.len() == 0 {
            self.terminal
        } else if !is_symbol(k[0]) {
            false
        } else {
            match self.children@[sym_index(k[0])] {
                Some(child) => child.has_key(k.skip(1)),
                None => false,
            }
        }
    }

    /// Well-formedness of the subtree rooted at this node, whose path from
    /// the root of the trie is `path`: every slot vector has full fanout,
    /// a terminal node stores exactly the key its path spells, a
    /// non-terminal node stores nothing, and every child is live (no dead
    /// branch survives).
    pub closed spec fn wf_at(self, path: Seq<char>) -> bool
        decreases self,
    {
        &&& self.slots_ok()
        &&& (self.terminal ==> self.value@ == path)
        &&& (!self.terminal ==> self.value@ == Seq::<char>::empty())
        &&& forall|i: int|
                0 <= i < self.children@.len() && (#[trigger] self.children@[i]) is Some
                    ==> {
                    let child = *self.children@[i]->Some_0;
                    &&& child.live()
                    &&& child.wf_at(path.push(sym_char(i)))
                }
    }

    /// The node reached from this one by walking `p`, if any.
    pub closed spec fn node_at(self, p: Seq<char>) -> Option<TrieNode>
        decreases p.len(),
    {
        if p.len() == 0 {
            Some(self)
        } else if !is_symbol(p[0]) {
            None
        } else {
            match self.children@[sym_index(p[0])] {
                Some(child) => child.node_at(p.skip(1)),
                None => None,
            }
        }
    }

    /// A fresh node: no children, not terminal, empty value.
    pub fn new() -> (node: TrieNode)
        ensures
            node.slots_ok(),
            !node.spec_terminal(),
            node.spec_value() == Seq::<char>::empty(),
            !node.live(),
            forall|p: Seq<char>| node.wf_at(p),
            forall|k: Seq<char>| !node.has_key(k),
            forall|c: char| is_symbol(c) ==> node.spec_child(c) is None,
    {
        let mut children: Vec<Option<Box<TrieNode>>> = Vec::new();
        let mut i: usize = 0;
        while i < ALPHABET_LEN
            invariant
                i <= ALPHABET_LEN,
                children@.len() == i,
                forall|j: int| 0 <= j < i ==> children@[j] is None,
            decreases ALPHABET_LEN - i,
        {
            children.push(None);
            i = i + 1;
        }
        let node = TrieNode { children, terminal: false, value: String::new() };
        proof {
            assert forall|k: Seq<char>| !node.has_key(k) by {
                if k.len() != 0 && is_symbol(k[0]) {
                    assert(node.children@[sym_index(k[0])] is None);
                }
            }
        }
        node
    }

    /// Whether this node has a child for symbol `c`.
    pub fn has_child(&self, c: char) -> (r: bool)
        requires
            self.slots_ok(),
            is_symbol(c),
        ensures
            r == (self.spec_child(c) is Some),
    {
        let i: usize = (c as usize) - ('a' as usize);
        self.children[i].is_some()
    }

    /// The child reached by symbol `c`, if present.
    pub fn get_child(&self, c: char) -> (r: Option<&TrieNode>)
        requires
            self.slots_ok(),
            is_symbol(c),
        ensures
            r is Some <==> self.spec_child(c) is Some,
            r is Some ==> *r->Some_0 == *self.spec_child(c)->Some_0,
    {
        let i: usize = (c as usize) - ('a' as usize);
        match &self.children[i] {
            Some(child) => Some(&**child),
            None => None,
        }
    }

    /// Whether any child slot is filled.
    pub fn has_children(&self) -> (r: bool)
        requires
            self.slots_ok(),
        ensures
            r == self.spec_has_children(),
    {
        let mut i: usize = 0;
        while i < ALPHABET_LEN
            invariant
                self.slots_ok(),
                i <= ALPHABET_LEN,
                forall|j: int| 0 <= j < i ==> self.children@[j] is None,
            decreases ALPHABET_LEN - i,
        {
            if self.children[i].is_some() {
                return true;
            }
            i = i + 1;
        }
        false
    }

    /// Whether this node marks the end of a stored key.
    pub fn is_terminal(&self) -> (r: bool)
        ensures
            r == self.spec_terminal(),
    {
        self.terminal
    }

    /// The stored value (meaningful only on a terminal node).
    pub fn value(&self) -> (r: &String)
        ensures
            r@ == self.spec_value(),
    {
        &self.value
    }
}

/// A node that stores some key is live.
proof fn lemma_has_key_live(n: TrieNode, k: Seq<char>)
    requires
        n.slots_ok(),
        n.has_key(k),
    ensures
        n.live(),
{
    if k.len() == 0 {
    } else {
        assert(n.children@[sym_index(k[0])] is Some);
    }
}

/// A live, well-formed node stores some key in its subtree.
proof fn lemma_live_has_key(n: TrieNode, path: Seq<char>)
    requires
        n.wf_at(path),
        n.live(),
    ensures
        exists|k: Seq<char>| n.has_key(k),
    decreases n,
{
    if n.spec_terminal() {
        assert(n.has_key(Seq::<char>::empty()));
    } else {
        let i = choose|i: int| 0 <= i < n.children@.len() && n.children@[i] is Some;
        let child = *n.children@[i]->Some_0;
        let c = sym_char(i);
        lemma_live_has_key(child, path.push(c));
        let k = choose|k: Seq<char>| child.has_key(k);
        let ck = seq![c] + k;
        assert(ck[0] == c);
        assert(is_symbol(c) && sym_index(c) == i);
        assert(ck.skip(1) =~= k);
        assert(n.has_key(ck));
    }
}

/// A nonempty sequence equals the suffix of `key` from `i` exactly when its
/// head is `key[i]` and its tail is the suffix from `i + 1`.
proof fn lemma_suffix_step(key: Seq<char>, i: int, k: Seq<char>)
    requires
        0 <= i < key.len(),
        k.len() > 0,
    ensures
        (k == key.skip(i)) <==> (k[0] == key[i] && k.skip(1) == key.skip(i + 1)),
{
    if k[0] == key[i] && k.skip(1) == key.skip(i + 1) {
        assert(k =~= key.skip(i)) by {
            assert(k.len() == 1 + k.skip(1).len());
            assert forall|j: int| 0 < j < k.len() implies k[j] == key.skip(i)[j] by {
                assert(k[j] == k.skip(1)[j - 1]);
                assert(key.skip(i + 1)[j - 1] == key[i + j]);
            }
        }
    }
    if k == key.skip(i) {
        assert(k[0] == key[i]);
        assert(k.skip(1) =~= key.skip(i + 1));
    }
}

impl TrieNode {
    /// Adds the suffix of `key` from position `i` to the subtree rooted at
    /// this node, whose path from the root is `key[..i]`.
    fn insert_at(&mut self, key: &str, i: usize)
        requires
            valid_key(key@),
            i <= key@.len(),
            old(self).wf_at(key@.take(i as int)),
        ensures
            final(self).wf_at(key@.take(i as int)),
            forall|k: Seq<char>|
                final(self).has_key(k) <==> (old(self).has_key(k) || k == key@.skip(i as int)),
            i < key@.len() ==> final(self).spec_terminal() == old(self).spec_terminal(),
        decreases key@.len() - i,
    {
        let n = key.unicode_len();
        if i == n {
            self.terminal = true;
            self.value = key.to_owned();
            proof {
                assert(key@.take(i as int) =~= key@);
                assert(key@.skip(i as int) =~= Seq::<char>::empty());
                assert(self.wf_at(key@.take(i as int)));
                assert forall|k: Seq<char>|
                    self.has_key(k) <==> (old(self).has_key(k) || k == key@.skip(
                        i as int,
                    )) by {
                    if k.len() == 0 {
                        assert(k =~= Seq::<char>::empty());
                    } else {
                        assert(k.len() != key@.skip(i as int).len());
                        assert(self.has_key(k) == old(self).has_key(k));
                    }
                }
            }
        } else {
            let c = key.get_char(i);
            let ghost path = key@.take(i as int);
            let ghost cpath = key@.take(i as int + 1);
            let ghost suffix = key@.skip(i as int);
            let ghost csuffix = key@.skip(i as int + 1);
            proof {
                assert(is_symbol(key@[i as int]));
                assert(cpath =~= path.push(c));
                assert(suffix.len() == key@.len() - i);
                assert(suffix[0] == key@[i as int]);
            }
            let idx: usize = (c as usize) - ('a' as usize);
            proof {
                assert(sym_char(idx as int) == c);
            }
            let taken = self.children[idx].take();
            let mut child: Box<TrieNode> = match taken {
                Some(b) => b,
                None => Box::new(TrieNode::new()),
            };
            let ghost child_pre: TrieNode = *child;
            proof {
                assert(child_pre.wf_at(cpath));
                assert(old(self).children@[idx as int] is Some ==> Some(child)
                    == old(self).children@[idx as int]);
                assert(old(self).children@[idx as int] is None ==> forall|k: Seq<char>|
                    !child_pre.has_key(k));
            }
            child.insert_at(key, i + 1);
            let ghost newchild: TrieNode = *child;
            self.children[idx] = Some(child);
            proof {
                assert(self.children@ =~= old(self).children@.update(
                    idx as int,
                    Some(Box::new(newchild)),
                ));
                // Well-formedness at `path`: untouched slots keep their
                // subtrees, and the updated slot holds a live subtree.
                assert(newchild.has_key(csuffix));
                lemma_has_key_live(newchild, csuffix);
                assert(self.wf_at(path)) by {
                    assert forall|j: int|
                        0 <= j < self.children@.len() && (#[trigger] self.children@[j]) is Some
                            implies {
                            let ch = *self.children@[j]->Some_0;
                            ch.live() && ch.wf_at(path.push(sym_char(j)))
                        } by {
                        if j != idx as int {
                            assert(self.children@[j] == old(self).children@[j]);
                        } else {
                            assert(*self.children@[j]->Some_0 == newchild);
                            assert(newchild.wf_at(cpath));
                        }
                    }
                }
                assert forall|k: Seq<char>|
                    self.has_key(k) <==> (old(self).has_key(k) || k == suffix) by {
                    if k.len() == 0 {
                        assert(k != suffix);
                    } else {
                        lemma_suffix_step(key@, i as int, k);
                        if !is_symbol(k[0]) {
                            assert(k[0] != suffix[0]);
                            assert(!self.has_key(k) && !old(self).has_key(k));
                        } else if sym_index(k[0]) != idx as int {
                            assert(k[0] != c);
                            assert(self.children@[sym_index(k[0])] == old(
                                self,
                            ).children@[sym_index(k[0])]);
                            assert(self.has_key(k) == old(self).has_key(k));
                        } else {
                            assert(k[0] as int == c as int);
                            assert(k[0] == c);
                            assert(self.has_key(k) == newchild.has_key(k.skip(1)));
                            assert(newchild.has_key(k.skip(1)) <==> (child_pre.has_key(k.skip(1))
                                || k.skip(1) == csuffix));
                            if old(self).children@[idx as int] is Some {
                                assert(old(self).has_key(k) == child_pre.has_key(k.skip(1)));
                            } else {
                                assert(!old(self).has_key(k));
                                assert(!child_pre.has_key(k.skip(1)));
                            }
                        }
                    }
                }
            }
        }
    }

    /// Looks up the suffix of `key` from position `i` in the subtree
    /// rooted at this node, whose path from the root is `key[..i]`.
    fn find_at<'a>(&'a self, key: &str, i: usize) -> (r: Option<&'a String>)
        requires
            valid_key(key@),
            i <= key@.len(),
            self.wf_at(key@.take(i as int)),
        ensures
            r is Some <==> self.has_key(key@.skip(i as int)),
            r is Some ==> r->Some_0@ == key@,
        decreases key@.len() - i,
    {
        let n = key.unicode_len();
        if i == n {
            proof {
                assert(key@.take(i as int) =~= key@);
                assert(key@.skip(i as int) =~= Seq::<char>::empty());
            }
            if self.terminal {
                Some(&self.value)
            } else {
                None
            }
        } else {
            let c = key.get_char(i);
            proof {
                assert(is_symbol(key@[i as int]));
                assert(key@.skip(i as int)[0] == key@[i as int]);
                assert(key@.skip(i as int).skip(1) =~= key@.skip(i as int + 1));
            }
            let idx: usize = (c as usize) - ('a' as usize);
            proof {
                assert(sym_char(idx as int) == c);
                assert(key@.take(i as int + 1) =~= key@.take(i as int).push(c));
            }
            match &self.children[idx] {
                Some(child) => child.find_at(key, i + 1),
                None => None,
            }
        }
    }

    /// Removes the suffix of `key` from position `i` from the subtree
    /// rooted at this node, whose path from the root is `key[..i]`, and
    /// prunes any branch left dead by the removal.
    fn delete_at(&mut self, key: &str, i: usize)
        requires
            valid_key(key@),
            i <= key@.len(),
            old(self).wf_at(key@.take(i as int)),
        ensures
            final(self).wf_at(key@.take(i as int)),
            forall|k: Seq<char>|
                final(self).has_key(k) <==> (old(self).has_key(k) && k != key@.skip(i as int)),
            final(self).spec_terminal() == (old(self).spec_terminal() && i < key@.len()),
        decreases key@.len() - i,
    {
        let n = key.unicode_len();
        if i == n {
            proof {
                assert(key@.skip(i as int) =~= Seq::<char>::empty());
            }
            if self.terminal {
                self.terminal = false;
                self.value = String::new();
                proof {
                    assert(self.wf_at(key@.take(i as int)));
                    assert forall|k: Seq<char>|
                        self.has_key(k) <==> (old(self).has_key(k) && k != key@.skip(
                            i as int,
                        )) by {
                        if k.len() == 0 {
                            assert(k =~= Seq::<char>::empty());
                        } else {
                            assert(self.has_key(k) == old(self).has_key(k));
                        }
                    }
                }
            } else {
                proof {
                    assert forall|k: Seq<char>|
                        self.has_key(k) <==> (old(self).has_key(k) && k != key@.skip(
                            i as int,
                        )) by {
                        if k.len() == 0 {
                            assert(k =~= Seq::<char>::empty());
                        }
                    }
                }
            }
        } else {
            let c = key.get_char(i);
            let ghost path = key@.take(i as int);
            let ghost cpath = key@.take(i as int + 1);
            let ghost suffix = key@.skip(i as int);
            let ghost csuffix = key@.skip(i as int + 1);
            proof {
                assert(is_symbol(key@[i as int]));
                assert(cpath =~= path.push(c));
                assert(suffix.len() == key@.len() - i);
                assert(suffix[0] == key@[i as int]);
            }
            let idx: usize = (c as usize) - ('a' as usize);
            proof {
                assert(sym_char(idx as int) == c);
            }
            if self.children[idx].is_none() {
                proof {
                    assert(!old(self).has_key(suffix));
                    assert forall|k: Seq<char>|
                        self.has_key(k) <==> (old(self).has_key(k) && k != suffix) by {
                        if k == suffix {
                            assert(!old(self).has_key(suffix));
                        }
                    }
                }
                return;
            }
            let taken = self.children[idx].take();
            let mut child: Box<TrieNode> = taken.unwrap();
            let ghost child_pre: TrieNode = *child;
            proof {
                assert(child_pre.wf_at(cpath));
            }
            child.delete_at(key, i + 1);
            let keep = child.is_terminal() || child.has_children();
            let ghost newchild: TrieNode = *child;
            if keep {
                self.children[idx] = Some(child);
            }
            proof {
                if keep {
                    assert(self.children@ =~= old(self).children@.update(
                        idx as int,
                        Some(Box::new(newchild)),
                    ));
                } else {
                    assert(self.children@ =~= old(self).children@.update(
                        idx as int,
                        None::<Box<TrieNode>>,
                    ));
                    // A dropped subtree holds no keys at all.
                    assert forall|k2: Seq<char>| !newchild.has_key(k2) by {
                        if newchild.has_key(k2) {
                            lemma_has_key_live(newchild, k2);
                        }
                    }
                }
                assert(self.wf_at(path)) by {
                    assert forall|j: int|
                        0 <= j < self.children@.len() && (#[trigger] self.children@[j]) is Some
                            implies {
                            let ch = *self.children@[j]->Some_0;
                            ch.live() && ch.wf_at(path.push(sym_char(j)))
                        } by {
                        if j != idx as int {
                            assert(self.children@[j] == old(self).children@[j]);
                        } else {
                            assert(keep);
                            assert(*self.children@[j]->Some_0 == newchild);
                            assert(newchild.wf_at(cpath));
                        }
                    }
                }
                assert forall|k: Seq<char>|
                    self.has_key(k) <==> (old(self).has_key(k) && k != suffix) by {
                    if k.len() == 0 {
                        assert(k != suffix);
                    } else {
                        lemma_suffix_step(key@, i as int, k);
                        if !is_symbol(k[0]) {
                            assert(k[0] != suffix[0]);
                            assert(!self.has_key(k) && !old(self).has_key(k));
                        } else if sym_index(k[0]) != idx as int {
                            assert(k[0] != c);
                            assert(self.children@[sym_index(k[0])] == old(
                                self,
                            ).children@[sym_index(k[0])]);
                            assert(self.has_key(k) == old(self).has_key(k));
                        } else {
                            assert(k[0] as int == c as int);
                            assert(k[0] == c);
                            assert(old(self).has_key(k) == child_pre.has_key(k.skip(1)));
                            assert(newchild.has_key(k.skip(1)) <==> (child_pre.has_key(k.skip(1))
                                && k.skip(1) != csuffix));
                            if keep {
                                assert(self.has_key(k) == newchild.has_key(k.skip(1)));
                            } else {
                                assert(!self.has_key(k));
                                assert(!newchild.has_key(k.skip(1)));
                            }
                        }
                    }
                }
            }
        }
    }
}

/// Every node of a well-formed subtree is well-formed at its own path,
/// and every proper descendant is live.
proof fn lemma_wf_node_at(n: TrieNode, path: Seq<char>, p: Seq<char>)
    requires
        n.wf_at(path),
        n.node_at(p) is Some,
    ensures
        (n.node_at(p)->Some_0).wf_at(path + p),
        p.len() > 0 ==> (n.node_at(p)->Some_0).live(),
    decreases p.len(),
{
    if p.len() == 0 {
        assert(path + p =~= path);
    } else {
        let c = p[0];
        assert(0 <= sym_index(c) < n.children@.len());
        assert(n.children@[sym_index(c)] is Some);
        let child = *n.children@[sym_index(c)]->Some_0;
        assert(sym_char(sym_index(c)) == c);
        assert(child.wf_at(path.push(c)) && child.live());
        lemma_wf_node_at(child, path.push(c), p.skip(1));
        assert(path.push(c) + p.skip(1) =~= path + p);
        if p.skip(1).len() == 0 {
            assert(n.node_at(p)->Some_0 == child.node_at(p.skip(1))->Some_0);
        }
    }
}

/// Pruning invariant: in a well-formed trie, every node below the root is
/// live — it either ends a stored key or some stored key passes through
/// it. No deletion leaves a dangling childless non-terminal node behind.
pub proof fn law_no_dead_branches(t: Trie, p: Seq<char>)
    requires
        t.wf(),
        p.len() > 0,
        t.spec_root().node_at(p) is Some,
    ensures
        (t.spec_root().node_at(p)->Some_0).live(),
{
    lemma_wf_node_at(t.spec_root(), Seq::<char>::empty(), p);
}

/// A key is stored exactly when walking it from the root lands on a
/// terminal node.
proof fn lemma_node_at_has_key(n: TrieNode, k: Seq<char>)
    ensures
        n.has_key(k) <==> (n.node_at(k) is Some && (n.node_at(k)->Some_0).spec_terminal()),
    decreases k.len(),
{
    if k.len() != 0 && is_symbol(k[0]) && n.children@[sym_index(k[0])] is Some {
        lemma_node_at_has_key(*n.children@[sym_index(k[0])]->Some_0, k.skip(1));
    }
}

/// Walking `p + q` is walking `p`, then walking `q` from where it landed.
proof fn lemma_node_at_compose(n: TrieNode, p: Seq<char>, q: Seq<char>)
    ensures
        n.node_at(p) is None ==> n.node_at(p + q) is None,
        n.node_at(p) is Some ==> n.node_at(p + q) == (n.node_at(p)->Some_0).node_at(q),
    decreases p.len(),
{
    if p.len() == 0 {
        assert(p + q =~= q);
    } else {
        assert((p + q)[0] == p[0]);
        if is_symbol(p[0]) && n.children@[sym_index(p[0])] is Some {
            assert((p + q).skip(1) =~= p.skip(1) + q);
            lemma_node_at_compose(*n.children@[sym_index(p[0])]->Some_0, p.skip(1), q);
        }
    }
}

/// A key is stored exactly when its whole path exists in the tree and
/// ends on a terminal node.
pub proof fn law_stored_key_is_terminal_node(t: Trie, k: Seq<char>)
    requires
        t.wf(),
    ensures
        t@.contains(k) <==> (t.spec_root().node_at(k) is Some && (t.spec_root().node_at(
            k,
        )->Some_0).spec_terminal()),
{
    lemma_node_at_has_key(t.spec_root(), k);
    assert(t@.contains(k) == t.spec_root().has_key(k));
}

/// A stored key's path exists edge by edge: every prefix of a stored key
/// reaches a node.
pub proof fn law_stored_key_path_exists(t: Trie, k: Seq<char>, i: int)
    requires
        t.wf(),
        t@.contains(k),
        0 <= i <= k.len(),
    ensures
        t.spec_root().node_at(k.take(i)) is Some,
{
    assert(t.spec_root().has_key(k));
    lemma_node_at_has_key(t.spec_root(), k);
    lemma_node_at_compose(t.spec_root(), k.take(i), k.skip(i));
    assert(k.take(i) + k.skip(i) =~= k);
}

/// What every reachable node stores: a terminal node stores exactly the
/// key its path spells; a non-terminal node stores nothing.
pub proof fn law_node_values(t: Trie, p: Seq<char>)
    requires
        t.wf(),
        t.spec_root().node_at(p) is Some,
    ensures
        (t.spec_root().node_at(p)->Some_0).slots_ok(),
        (t.spec_root().node_at(p)->Some_0).spec_terminal() ==> (t.spec_root().node_at(
            p,
        )->Some_0).spec_value() == p,
        !(t.spec_root().node_at(p)->Some_0).spec_terminal() ==> (t.spec_root().node_at(
            p,
        )->Some_0).spec_value() == Seq::<char>::empty(),
{
    lemma_wf_node_at(t.spec_root(), Seq::<char>::empty(), p);
    assert(Seq::<char>::empty() + p =~= p);
}

/// A filled child slot heads some stored key: whenever a reachable node
/// has a child for `c`, some stored key runs through that child.
pub proof fn law_filled_slot_heads_stored_key(t: Trie, p: Seq<char>, c: char)
    requires
        t.wf(),
        is_symbol(c),
        t.spec_root().node_at(p) is Some,
        (t.spec_root().node_at(p)->Some_0).spec_child(c) is Some,
    ensures
        exists|k: Seq<char>|
            #[trigger] t@.contains(k) && k.len() > p.len() && k.take(p.len() as int + 1) == p.push(
                c,
            ),
{
    let root = t.spec_root();
    let node = root.node_at(p)->Some_0;
    lemma_wf_node_at(root, Seq::<char>::empty(), p);
    assert(Seq::<char>::empty() + p =~= p);
    assert(node.wf_at(p));
    assert(0 <= sym_index(c) < node.children@.len());
    let child = *node.children@[sym_index(c)]->Some_0;
    assert(sym_char(sym_index(c)) == c);
    assert(child.live() && child.wf_at(p.push(c)));
    lemma_live_has_key(child, p.push(c));
    let q = choose|q: Seq<char>| child.has_key(q);
    assert(p.push(c) =~= p + seq![c]);
    lemma_node_at_compose(root, p, seq![c]);
    assert(seq![c].len() == 1 && seq![c][0] == c);
    assert(seq![c].skip(1) =~= Seq::<char>::empty());
    assert(child.node_at(Seq::<char>::empty()) == Some(child));
    assert(node.node_at(seq![c]) == child.node_at(seq![c].skip(1)));
    assert(node.node_at(seq![c]) == Some(child));
    assert(root.node_at(p.push(c)) == Some(child));
    let k = p.push(c) + q;
    lemma_node_at_compose(root, p.push(c), q);
    assert(root.node_at(k) == child.node_at(q));
    lemma_node_at_has_key(child, q);
    lemma_node_at_has_key(root, k);
    assert(root.has_key(k));
    assert(t@.contains(k));
    assert(k.take(p.len() as int + 1) =~= p.push(c));
}

/// Whether every character of `key` lies in the alphabet.
fn check_key(key: &str) -> (r: bool)
    ensures
        r == valid_key(key@),
{
    let n = key.unicode_len();
    let mut i: usize = 0;
    while i < n
        invariant
            n == key@.len(),
            i <= n,
            forall|j: int| 0 <= j < i ==> is_symbol(#[trigger] key@[j]),
        decreases n - i,
    {
        let c = key.get_char(i);
        let u = c as u32;
        if u < 'a' as u32 || u > 'z' as u32 {
            assert(!is_symbol(key@[i as int]));
            return false;
        }
        i = i + 1;
    }
    true
}

/// The prefix tree. The root is always present and stands for the empty
/// prefix; it is never terminal and never pruned.
pub struct Trie {
    root: TrieNode,
}

impl View for Trie {
    type V = Set<Seq<char>>;

    open spec fn view(&self) -> Set<Seq<char>> {
        self.key_set()
    }
}

impl Trie {
    /// The set of keys the trie currently stores.
    pub closed spec fn key_set(self) -> Set<Seq<char>> {
        Set::new(|k: Seq<char>| self.root.has_key(k))
    }

    /// The root node.
    pub closed spec fn spec_root(self) -> TrieNode {
        self.root
    }

    /// The trie's structural invariant: the node tree under the root is
    /// well-formed, and the root itself is never terminal (the empty key
    /// cannot be inserted).
    pub closed spec fn wf(self) -> bool {
        &&& self.root.wf_at(Seq::<char>::empty())
        &&& !self.root.spec_terminal()
    }

    /// An empty trie: a lone root with no children, not terminal, and an
    /// empty value.
    pub fn new() -> (t: Trie)
        ensures
            t.wf(),
            t@ == Set::<Seq<char>>::empty(),
            !t.spec_root().spec_terminal(),
            t.spec_root().spec_value() == Seq::<char>::empty(),
            forall|c: char| is_symbol(c) ==> t.spec_root().spec_child(c) is None,
    {
        let t = Trie { root: TrieNode::new() };
        proof {
            assert(t.key_set() =~= Set::<Seq<char>>::empty());
        }
        t
    }

    /// The root node, for read-only traversal.
    pub fn root(&self) -> (r: &TrieNode)
        ensures
            *r == self.spec_root(),
            self.wf() ==> r.wf_at(Seq::<char>::empty()) && r.slots_ok(),
    {
        &self.root
    }

    /// Whether the trie holds no keys at all; equivalently, whether the
    /// root has no children.
    pub fn isempty(&self) -> (r: bool)
        requires
            self.wf(),
        ensures
            r == (self@ == Set::<Seq<char>>::empty()),
    {
        let r = !self.root.has_children();
        proof {
            if r {
                assert forall|k: Seq<char>| !self.root.has_key(k) by {
                    if k.len() != 0 && is_symbol(k[0]) {
                        assert(self.root.children@[sym_index(k[0])] is None);
                    }
                }
                assert(self.key_set() =~= Set::<Seq<char>>::empty());
            } else {
                lemma_live_has_key(self.root, Seq::<char>::empty());
                let k = choose|k: Seq<char>| self.root.has_key(k);
                assert(self.key_set().contains(k));
                assert(self@ != Set::<Seq<char>>::empty());
            }
        }
        r
    }

    /// Stores `key` in the trie. Every character of `key` must be a
    /// lowercase letter; otherwise the key is rejected with
    /// `InvalidSymbol` and the trie is left unchanged. Re-inserting a
    /// stored key is idempotent.
    pub fn insert(&mut self, key: String) -> (r: Result<(), TrieError>)
        requires
            old(self).wf(),
            key@.len() > 0,
        ensures
            final(self).wf(),
            valid_key(key@) ==> r == Ok::<(), TrieError>(()) && final(self)@ == old(self)@.insert(
                key@,
            ),
            !valid_key(key@) ==> r == Err::<(), TrieError>(TrieError::InvalidSymbol) && *final(self)
                == *old(self),
    {
        if !check_key(key.as_str()) {
            return Err(TrieError::InvalidSymbol);
        }
        proof {
            assert(key@.take(0) =~= Seq::<char>::empty());
        }
        self.root.insert_at(key.as_str(), 0);
        proof {
            assert(key@.skip(0) =~= key@);
            assert(self.key_set() =~= old(self).key_set().insert(key@));
        }
        Ok(())
    }

    /// Looks `key` up. Returns the stored value (the key itself) when the
    /// key is present, `None` when it is absent — in particular when it is
    /// only a strict prefix of stored keys — and `InvalidSymbol` when a
    /// character of `key` lies outside the alphabet.
    pub fn find(&self, key: String) -> (r: Result<Option<String>, TrieError>)
        requires
            self.wf(),
        ensures
            !valid_key(key@) ==> r == Err::<Option<String>, TrieError>(TrieError::InvalidSymbol),
            valid_key(key@) ==> {
                &&& r is Ok
                &&& (r->Ok_0 is Some <==> self@.contains(key@))
                &&& (r->Ok_0 is Some ==> r->Ok_0->Some_0@ == key@)
            },
    {
        if !check_key(key.as_str()) {
            return Err(TrieError::InvalidSymbol);
        }
        proof {
            assert(key@.take(0) =~= Seq::<char>::empty());
            assert(key@.skip(0) =~= key@);
        }
        match self.root.find_at(key.as_str(), 0) {
            Some(v) => Ok(Some(v.clone())),
            None => Ok(None),
        }
    }

    /// Removes `key` from the trie, pruning any branch that no other key
    /// still uses. Deleting an absent key leaves the trie unchanged; a key
    /// with a character outside the alphabet is rejected with
    /// `InvalidSymbol`.
    pub fn delete(&mut self, key: String) -> (r: Result<(), TrieError>)
        requires
            old(self).wf(),
        ensures
            final(self).wf(),
            valid_key(key@) ==> r == Ok::<(), TrieError>(()) && final(self)@ == old(self)@.remove(
                key@,
            ),
            !valid_key(key@) ==> r == Err::<(), TrieError>(TrieError::InvalidSymbol) && *final(self)
                == *old(self),
    {
        if !check_key(key.as_str()) {
            return Err(TrieError::InvalidSymbol);
        }
        proof {
            assert(key@.take(0) =~= Seq::<char>::empty());
        }
        self.root.delete_at(key.as_str(), 0);
        proof {
            assert(key@.skip(0) =~= key@);
            assert(self.key_set() =~= old(self).key_set().remove(key@));
        }
        Ok(())
    }
}

} // verus!
