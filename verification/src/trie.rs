use crate::model::{
    below, holds_word, lemma_contains_concat, lemma_prefix_first, lemma_prefix_push,
    lemma_spellings_push, prefix_closed, root_only, spellings, with_word, Paths,
};
use vstd::prelude::*;
use vstd::string::StrSliceExecFns;

verus! {

/// One position of the prefix space: the outgoing edges, one per character,
/// and the mark that says whether the path that leads here is a stored word.
pub struct TrieNode {
    children: Vec<(char, TrieNode)>,
    is_end_of_word: bool,
}

impl View for TrieNode {
    type V = Paths;

    /// The paths that exist below this node, each with the mark of the node it reaches.
    closed spec fn view(&self) -> Paths {
        Map::new(
            |p: Seq<char>| self.walk(p) is Some,
            |p: Seq<char>| self.walk(p).unwrap().marked(),
        )
    }
}

impl TrieNode {
    /// The number of outgoing edges.
    pub closed spec fn degree(&self) -> nat {
        self.children@.len()
    }

    /// The character of the edge at position `i`.
    pub closed spec fn key_at(&self, i: int) -> char {
        self.children@[i].0
    }

    /// The node at the far end of the edge at position `i`.
    pub closed spec fn child_at(&self, i: int) -> TrieNode {
        self.children@[i].1
    }

    /// Whether the path that leads to this node is a stored word.
    pub closed spec fn marked(&self) -> bool {
        self.is_end_of_word
    }

    /// No two edges of a node carry the same character, here and below.
    pub closed spec fn wf(&self) -> bool
        decreases self,
    {
        &&& forall|i: int, j: int|
            0 <= i < j < self.children@.len() ==> self.children@[i].0 != self.children@[j].0
        &&& forall|i: int|
            0 <= i < self.children@.len() ==> (#[trigger] self.children@[i]).1.wf()
    }

    /// Whether an edge with the character `c` leaves this node.
    closed spec fn has_edge(&self, c: char) -> bool {
        exists|i: int| 0 <= i < self.children@.len() && #[trigger] self.children@[i].0 == c
    }

    /// The position of the edge with the character `c`.
    closed spec fn edge_index(&self, c: char) -> int {
        choose|i: int| 0 <= i < self.children@.len() && #[trigger] self.children@[i].0 == c
    }

    /// The node one edge further along `c`, where that edge exists.
    pub closed spec fn step(&self, c: char) -> Option<TrieNode> {
        if self.has_edge(c) {
            Some(self.children@[self.edge_index(c)].1)
        } else {
            None
        }
    }

    /// The node that the path `p` reaches from this node, where every edge
    /// of the path exists.
    pub closed spec fn walk(&self, p: Seq<char>) -> Option<TrieNode>
        decreases p.len(),
    {
        if p.len() == 0 {
            Some(*self)
        } else {
            match self.step(p[0]) {
                None => None,
                Some(next) => next.walk(p.drop_first()),
            }
        }
    }

    /// The characters on the edges below this node, in the order of a
    /// depth-first walk that leaves out the first `from` edges of this node:
    /// each edge's character, then whatever lies below that edge, then the next edge.
    pub closed spec fn edge_keys_from(&self, from: int) -> Seq<char>
        decreases self, self.degree() - from,
    {
        if 0 <= from < self.children@.len() {
            seq![self.children@[from].0] + self.children@[from].1.edge_keys_from(0)
                + self.edge_keys_from(from + 1)
        } else {
            Seq::empty()
        }
    }

    /// The characters on all the edges below this node, in depth-first order.
    pub open spec fn edge_keys(&self) -> Seq<char> {
        self.edge_keys_from(0)
    }

    /// Whether `c` is on the edge at position `i` or on an edge below it.
    spec fn listed_behind(&self, i: int, c: char) -> bool {
        self.key_at(i) == c || self.child_at(i).edge_keys().contains(c)
    }

    /// The stored words below this node that lie behind the edges from
    /// position `from` on, each with `prefix` in front, in depth-first order.
    pub closed spec fn words_from(&self, prefix: Seq<char>, from: int) -> Seq<Seq<char>>
        decreases self, self.degree() - from,
    {
        if 0 <= from < self.children@.len() {
            self.children@[from].1.words_under(prefix.push(self.children@[from].0))
                + self.words_from(prefix, from + 1)
        } else {
            Seq::empty()
        }
    }

    /// The stored words below this node, each with `prefix` in front, in
    /// depth-first order: the node's own word first, where it ends one.
    pub closed spec fn words_under(&self, prefix: Seq<char>) -> Seq<Seq<char>>
        decreases self, self.degree() + 1,
    {
        if self.is_end_of_word {
            seq![prefix] + self.words_from(prefix, 0)
        } else {
            self.words_from(prefix, 0)
        }
    }

    /// Whether `other` has the same mark and, for every character, an edge
    /// where this node has one, leading to a node that again agrees in this
    /// way: the same tree, whatever the positions of the edges.
    pub open spec fn same_tree(&self, other: TrieNode) -> bool
        decreases self,
    {
        &&& self.marked() == other.marked()
        &&& forall|i: int|
            0 <= i < self.degree() ==> exists|j: int|
                0 <= j < other.degree() && other.key_at(j) == #[trigger] self.key_at(i)
                    && self.child_at(i).same_tree(other.child_at(j))
        &&& forall|j: int|
            0 <= j < other.degree() ==> exists|i: int|
                0 <= i < self.degree() && self.key_at(i) == #[trigger] other.key_at(j)
    }
}

impl TrieNode {
    /// A node without edges that ends no word.
    pub fn new() -> (node: TrieNode)
        ensures
            node.wf(),
            node@ == root_only(),
            node.degree() == 0,
            !node.marked(),
    {
        let node = TrieNode { children: Vec::new(), is_end_of_word: false };
        proof {
            assert forall|p: Seq<char>| #[trigger] node.walk(p) is Some <==> p.len() == 0 by {
                if p.len() > 0 {
                    assert(!node.has_edge(p[0]));
                }
            }
            assert(node@ =~= root_only());
        }
        node
    }

    /// The node with the given edges and mark, where no two of the edges
    /// carry the same character; `None` where two do.
    pub fn from_parts(children: Vec<(char, TrieNode)>, is_end_of_word: bool) -> (made: Option<TrieNode>)
        requires
            forall|i: int| 0 <= i < children@.len() ==> (#[trigger] children@[i]).1.wf(),
        ensures
            made is Some <==> forall|i: int, j: int|
                0 <= i < j < children@.len() ==> children@[i].0 != children@[j].0,
            match made {
                Some(node) => {
                    &&& node.wf()
                    &&& node.marked() == is_end_of_word
                    &&& node.degree() == children@.len()
                    &&& forall|i: int|
                        0 <= i < children@.len() ==> node.key_at(i) == children@[i].0 && node.child_at(i)
                            == children@[i].1
                },
                None => true,
            },
    {
        let mut j: usize = 0;
        while j < children.len()
            invariant
                j <= children@.len(),
                forall|a: int, b: int| 0 <= a < b < j ==> children@[a].0 != children@[b].0,
            decreases children@.len() - j,
        {
            let mut i: usize = 0;
            while i < j
                invariant
                    i <= j < children@.len(),
                    forall|a: int| 0 <= a < i ==> children@[a].0 != children@[j as int].0,
                decreases j - i,
            {
                if children[i].0 == children[j].0 {
                    return None;
                }
                i += 1;
            }
            j += 1;
        }
        Some(TrieNode { children, is_end_of_word })
    }

    /// Whether the path that leads to this node is a stored word.
    pub fn is_end_of_word(&self) -> (marked: bool)
        ensures
            marked == self.marked(),
            marked == self@[Seq::<char>::empty()],
    {
        proof {
            assert(self.walk(Seq::<char>::empty()) == Some(*self));
        }
        self.is_end_of_word
    }

    /// The number of edges that leave this node.
    pub fn edge_count(&self) -> (count: usize)
        ensures
            count == self.degree(),
    {
        self.children.len()
    }

    /// The edge at position `i`: its character and the node at its far end.
    pub fn edge(&self, i: usize) -> (edge: (char, &TrieNode))
        requires
            i < self.degree(),
        ensures
            edge.0 == self.key_at(i as int),
            *edge.1 == self.child_at(i as int),
            self.wf() ==> edge.1.wf(),
    {
        proof {
            if self.wf() {
                self.lemma_step_at(i as int);
            }
        }
        (self.children[i].0, &self.children[i].1)
    }

    /// Looks for the edge that carries the character `c`.
    fn find_edge(&self, c: char) -> (found: Option<usize>)
        requires
            self.wf(),
        ensures
            match found {
                Some(i) => i < self.degree() && self.key_at(i as int) == c && self.step(c) == Some(
                    self.child_at(i as int),
                ) && self.child_at(i as int).wf(),
                None => !self.has_edge(c) && self.step(c) is None,
            },
    {
        let mut i: usize = 0;
        while i < self.children.len()
            invariant
                self.wf(),
                i <= self.children@.len(),
                forall|j: int| 0 <= j < i ==> self.children@[j].0 != c,
            decreases self.children@.len() - i,
        {
            if self.children[i].0 == c {
                proof {
                    self.lemma_step_at(i as int);
                }
                return Some(i);
            }
            i += 1;
        }
        None
    }

    /// Stores the part of `word` from position `from` on below this node:
    /// follows the edges that exist, adds those that are missing, and marks
    /// the node at the end.
    fn insert_from(&mut self, word: &str, from: usize)
        requires
            old(self).wf(),
            from <= word@.len(),
        ensures
            final(self).wf(),
            final(self)@ == with_word(old(self)@, word@.skip(from as int)),
        decreases word@.len() - from,
    {
        let ghost before = *self;
        let ghost tail = word@.skip(from as int);
        if from == word.unicode_len() {
            self.is_end_of_word = true;
            proof {
                assert(tail.len() == 0);
                assert(self.wf());
                assert forall|p: Seq<char>| p.len() > 0 implies #[trigger] self.walk(p) == before.walk(p) by {
                    self.lemma_walk_step(p);
                    before.lemma_walk_step(p);
                    assert(self.has_edge(p[0]) == before.has_edge(p[0]));
                    assert(self.edge_index(p[0]) == before.edge_index(p[0]));
                }
                assert forall|p: Seq<char>| p.len() == 0 implies p == tail && p.is_prefix_of(tail) by {
                    assert(p =~= tail);
                }
                assert forall|p: Seq<char>| p.len() > 0 implies !p.is_prefix_of(tail) && p != tail by {}
                assert(self@ =~= with_word(before@, tail));
            }
            return ;
        }
        let c = word.get_char(from);
        proof {
            assert(tail =~= seq![c] + word@.skip(from + 1));
        }
        match self.find_edge(c) {
            Some(i) => {
                self.children[i].1.insert_from(word, from + 1);
                proof {
                    let grown = self.children@[i as int].1;
                    assert(self.children@[i as int].0 == c);
                    assert(self.wf());
                    self.lemma_step_at(i as int);
                    Self::lemma_same_but(before, *self, i as int);
                    Self::lemma_grown(before, *self, c, grown, word@.skip(from + 1));
                }
            },
            None => {
                let mut fresh = TrieNode::new();
                fresh.insert_from(word, from + 1);
                self.children.push((c, fresh));
                proof {
                    let last = self.children@.len() - 1;
                    assert(self.wf()) by {
                        assert forall|i: int| 0 <= i < last implies self.children@[i].0 != c by {
                            assert(self.children@[i] == before.children@[i]);
                        }
                        assert forall|i: int| 0 <= i < self.children@.len() implies (
                        #[trigger] self.children@[i]).1.wf() by {
                            if i < last {
                                assert(self.children@[i] == before.children@[i]);
                            }
                        }
                    }
                    self.lemma_step_at(last);
                    Self::lemma_same_but(before, *self, last);
                    Self::lemma_grown(before, *self, c, fresh, word@.skip(from + 1));
                }
            },
        }
    }

    /// The node that `word` leads to from this node, where every edge exists.
    fn descend(&self, word: &str) -> (reached: Option<&TrieNode>)
        requires
            self.wf(),
        ensures
            reached is Some <==> self@.dom().contains(word@),
            match reached {
                Some(node) => self.walk(word@) == Some(*node) && node.wf() && node@ == below(
                    self@,
                    word@,
                ) && node.marked() == self@[word@],
                None => true,
            },
    {
        let n = word.unicode_len();
        let mut cur: &TrieNode = self;
        let mut i: usize = 0;
        proof {
            assert(word@.skip(0) =~= word@);
        }
        while i < n
            invariant
                n == word@.len(),
                i <= n,
                cur.wf(),
                self.walk(word@) == cur.walk(word@.skip(i as int)),
            decreases n - i,
        {
            let c = word.get_char(i);
            proof {
                cur.lemma_walk_step(word@.skip(i as int));
                assert(word@.skip(i as int).drop_first() =~= word@.skip(i + 1));
            }
            match cur.find_edge(c) {
                None => {
                    return None;
                },
                Some(k) => {
                    cur = &cur.children[k].1;
                },
            }
            i += 1;
        }
        proof {
            assert(word@.skip(i as int).len() == 0);
            self.lemma_walk_below(word@);
        }
        Some(cur)
    }

    /// The stored words below this node, each spelled from this node on, in
    /// depth-first order.
    pub fn words(&self) -> (found: Vec<Vec<char>>)
        ensures
            spellings(found@) == self.words_under(Seq::<char>::empty()),
    {
        let mut prefix: Vec<char> = Vec::new();
        let mut found: Vec<Vec<char>> = Vec::new();
        proof {
            assert(spellings(found@) + self.words_under(prefix@) =~= self.words_under(prefix@));
        }
        self.collect_words(&mut prefix, &mut found);
        found
    }

    /// Adds to `found` the stored words below this node, each with `prefix` in front.
    fn collect_words(&self, prefix: &mut Vec<char>, found: &mut Vec<Vec<char>>)
        ensures
            final(prefix)@ == old(prefix)@,
            spellings(final(found)@) == spellings(old(found)@) + self.words_under(old(prefix)@),
        decreases self,
    {
        let ghost start = prefix@;
        let ghost goal = spellings(found@) + self.words_under(prefix@);
        if self.is_end_of_word {
            let word = copy_chars(prefix);
            proof {
                lemma_spellings_push(found@, word);
            }
            found.push(word);
        }
        proof {
            assert(spellings(found@) + self.words_from(start, 0) =~= goal);
        }
        let mut i: usize = 0;
        while i < self.children.len()
            invariant
                i <= self.children@.len(),
                prefix@ == start,
                spellings(found@) + self.words_from(start, i as int) == goal,
            decreases self.children@.len() - i,
        {
            let ghost before = spellings(found@);
            prefix.push(self.children[i].0);
            self.children[i].1.collect_words(prefix, found);
            prefix.pop();
            proof {
                assert(prefix@ =~= start);
                assert(spellings(found@) + self.words_from(start, i + 1) =~= before + self.words_from(
                    start,
                    i as int,
                ));
            }
            i += 1;
        }
        proof {
            assert(spellings(found@) + Seq::<Seq<char>>::empty() =~= spellings(found@));
        }
    }
}

impl TrieNode {
    /// With distinct characters on the edges, the edge at position `i` is the
    /// one that `step` follows for its character.
    proof fn lemma_step_at(&self, i: int)
        requires
            self.wf(),
            0 <= i < self.degree(),
        ensures
            self.step(self.key_at(i)) == Some(self.child_at(i)),
            self.child_at(i).wf(),
    {
        let c = self.children@[i].0;
        assert(self.has_edge(c));
        let j = self.edge_index(c);
        assert(j == i);
        assert(self.children@[i].1.wf());
    }

    /// A path that is not empty starts with a step along its first character.
    proof fn lemma_walk_step(&self, p: Seq<char>)
        requires
            p.len() > 0,
        ensures
            self.walk(p) == match self.step(p[0]) {
                None => None::<TrieNode>,
                Some(next) => next.walk(p.drop_first()),
            },
    {
    }

    /// The empty path always exists below a node, and carries the node's own mark.
    pub proof fn lemma_empty_path(&self)
        ensures
            self@.dom().contains(Seq::<char>::empty()),
            self@[Seq::<char>::empty()] == self.marked(),
            self.walk(Seq::<char>::empty()) == Some(*self),
    {
    }

    /// Walking `p` and then `q` is walking `p + q`.
    pub proof fn lemma_walk_concat(&self, p: Seq<char>, q: Seq<char>)
        ensures
            self.walk(p + q) == match self.walk(p) {
                None => None::<TrieNode>,
                Some(mid) => mid.walk(q),
            },
        decreases p.len(),
    {
        if p.len() == 0 {
            assert(p + q =~= q);
        } else {
            assert((p + q)[0] == p[0]);
            assert((p + q).drop_first() =~= p.drop_first() + q);
            match self.step(p[0]) {
                None => {},
                Some(next) => {
                    next.lemma_walk_concat(p.drop_first(), q);
                },
            }
        }
    }

    /// A path exists only where each of its front parts exists.
    pub proof fn lemma_prefix_closed(&self)
        ensures
            prefix_closed(self@),
    {
        assert forall|p: Seq<char>, q: Seq<char>| #[trigger]
            self@.dom().contains(p + q) implies self@.dom().contains(p) by {
            self.lemma_walk_concat(p, q);
        }
    }

    /// Every node that a walk reaches from a well-formed node is well-formed.
    pub proof fn lemma_walk_wf(&self, p: Seq<char>)
        requires
            self.wf(),
        ensures
            self.walk(p) is Some ==> self.walk(p).unwrap().wf(),
        decreases p.len(),
    {
        if p.len() > 0 && self.has_edge(p[0]) {
            let i = self.edge_index(p[0]);
            self.lemma_step_at(i);
            self.children@[i].1.lemma_walk_wf(p.drop_first());
        }
    }

    /// The model of a node that a walk reaches is the part of the model below that path.
    pub proof fn lemma_walk_below(&self, p: Seq<char>)
        requires
            self.walk(p) is Some,
        ensures
            self.walk(p).unwrap()@ == below(self@, p),
    {
        let mid = self.walk(p).unwrap();
        assert forall|q: Seq<char>| #[trigger] mid.walk(q) == self.walk(p + q) by {
            self.lemma_walk_concat(p, q);
        }
        assert(mid@ =~= below(self@, p));
    }

    /// What lies below the edge at position `i` is what lies below the node
    /// at its far end: a path that starts with the edge's character exists
    /// exactly when its rest exists there, with the same mark.
    pub proof fn lemma_edge_paths(&self, i: int, q: Seq<char>)
        requires
            self.wf(),
            0 <= i < self.degree(),
        ensures
            self.child_at(i).wf(),
            self.walk(seq![self.key_at(i)] + q) == self.child_at(i).walk(q),
            self@.dom().contains(seq![self.key_at(i)] + q) <==> self.child_at(i)@.dom().contains(q),
            self.child_at(i)@.dom().contains(q) ==> self@[seq![self.key_at(i)] + q] == self.child_at(i)@[q],
    {
        let p = seq![self.key_at(i)] + q;
        self.lemma_step_at(i);
        self.lemma_walk_step(p);
        assert(p.drop_first() =~= q);
    }

    /// A path whose first character is on none of the node's edges does not exist.
    pub proof fn lemma_no_edge_no_path(&self, p: Seq<char>)
        requires
            p.len() > 0,
            forall|i: int| 0 <= i < self.degree() ==> self.key_at(i) != p[0],
        ensures
            !self@.dom().contains(p),
    {
        self.lemma_walk_step(p);
        if self.has_edge(p[0]) {
            let i = self.edge_index(p[0]);
            assert(self.key_at(i) == p[0]);
        }
    }

    /// The well-formedness of a node, told by its edges: their characters
    /// differ from each other, and the nodes at their far ends are well-formed.
    pub proof fn lemma_wf_by_edges(&self)
        ensures
            self.wf() <==> {
                &&& forall|i: int, j: int|
                    0 <= i < j < self.degree() ==> self.key_at(i) != self.key_at(j)
                &&& forall|i: int| 0 <= i < self.degree() ==> (#[trigger] self.child_at(i)).wf()
            },
    {
        if self.wf() {
            assert forall|i: int| 0 <= i < self.degree() implies (#[trigger] self.child_at(i)).wf() by {
                assert(self.children@[i].1.wf());
            }
        }
        if {
            &&& forall|i: int, j: int| 0 <= i < j < self.degree() ==> self.key_at(i) != self.key_at(j)
            &&& forall|i: int| 0 <= i < self.degree() ==> (#[trigger] self.child_at(i)).wf()
        } {
            assert forall|i: int| 0 <= i < self.children@.len() implies (
            #[trigger] self.children@[i]).1.wf() by {
                assert(self.child_at(i).wf());
            }
            assert forall|i: int, j: int| 0 <= i < j < self.children@.len() implies self.children@[i].0
                != self.children@[j].0 by {
                assert(self.key_at(i) != self.key_at(j));
            }
        }
    }

    /// Two well-formed nodes that are the same tree have the same model: a
    /// tree built again from the same marks and edges answers every lookup
    /// alike, whatever the positions of its edges.
    pub proof fn lemma_same_tree_same_view(a: TrieNode, b: TrieNode)
        requires
            a.wf(),
            b.wf(),
            a.same_tree(b),
        ensures
            a@ == b@,
        decreases a,
    {
        assert forall|p: Seq<char>|
            (#[trigger] a@.dom().contains(p) <==> b@.dom().contains(p)) && (a@.dom().contains(p)
                ==> a@[p] == b@[p]) by {
            if p.len() > 0 {
                let q = p.drop_first();
                assert(seq![p[0]] + q =~= p);
                if a.has_edge(p[0]) {
                    let i = a.edge_index(p[0]);
                    assert(a.key_at(i) == p[0]);
                    let j = choose|j: int|
                        0 <= j < b.degree() && b.key_at(j) == a.key_at(i) && a.child_at(i).same_tree(
                            b.child_at(j),
                        );
                    a.lemma_edge_paths(i, q);
                    b.lemma_edge_paths(j, q);
                    Self::lemma_same_tree_same_view(a.child_at(i), b.child_at(j));
                } else {
                    assert forall|i: int| 0 <= i < a.degree() implies a.key_at(i) != p[0] by {}
                    assert forall|j: int| 0 <= j < b.degree() implies b.key_at(j) != p[0] by {
                        let i = choose|i: int| 0 <= i < a.degree() && a.key_at(i) == b.key_at(j);
                    }
                    a.lemma_no_edge_no_path(p);
                    b.lemma_no_edge_no_path(p);
                }
            } else {
                assert(a.walk(p) == Some(a));
                assert(b.walk(p) == Some(b));
            }
        }
        assert(a@ =~= b@);
    }

    /// No word is listed twice behind the edges from position `from` on.
    proof fn lemma_words_from_distinct(&self, prefix: Seq<char>, from: int)
        requires
            self.wf(),
            0 <= from <= self.degree(),
        ensures
            self.words_from(prefix, from).no_duplicates(),
        decreases self, self.degree() - from,
    {
        if from < self.degree() {
            let n = prefix.len() as int;
            let k = self.key_at(from);
            let child = self.child_at(from);
            let first = child.words_under(prefix.push(k));
            let others = self.words_from(prefix, from + 1);
            assert(self.children@[from].1.wf());
            child.lemma_words_distinct(prefix.push(k));
            self.lemma_words_from_distinct(prefix, from + 1);
            assert forall|a: int, b: int| 0 <= a < first.len() && 0 <= b < others.len() implies first[a]
                != others[b] by {
                let w = first[a];
                if w == others[b] {
                    assert(first.contains(w));
                    assert(others.contains(w));
                    child.lemma_words_under(prefix.push(k), w);
                    lemma_prefix_push(prefix, k, w);
                    self.lemma_words_from(prefix, from + 1, w);
                    let i = choose|i: int|
                        from + 1 <= i < self.degree() && #[trigger] self.key_at(i) == w[n]
                            && holds_word(self.child_at(i)@, w.skip(n + 1));
                    self.lemma_wf_by_edges();
                    assert(self.key_at(from) != self.key_at(i));
                }
            }
            vstd::seq_lib::lemma_no_dup_in_concat(first, others);
        }
    }

    /// No word is listed twice below a node.
    pub proof fn lemma_words_distinct(&self, prefix: Seq<char>)
        requires
            self.wf(),
        ensures
            self.words_under(prefix).no_duplicates(),
        decreases self, self.degree() + 1,
    {
        let rest = self.words_from(prefix, 0);
        self.lemma_words_from_distinct(prefix, 0);
        if self.is_end_of_word {
            let own = seq![prefix];
            assert forall|a: int, b: int| 0 <= a < own.len() && 0 <= b < rest.len() implies own[a]
                != rest[b] by {
                if prefix == rest[b] {
                    assert(rest.contains(prefix));
                    self.lemma_words_from(prefix, 0, prefix);
                }
            }
            vstd::seq_lib::lemma_no_dup_in_concat(own, rest);
        }
    }

    /// Two well-formed nodes that agree on every edge but the one at position
    /// `i` of the second take the same step along every other character.
    proof fn lemma_same_but(before: TrieNode, after: TrieNode, i: int)
        requires
            before.wf(),
            after.wf(),
            0 <= i < after.degree(),
            before.degree() == after.degree() || (before.degree() == i && after.degree() == i + 1),
            forall|j: int| 0 <= j < before.degree() && j != i ==> before.children@[j] == after.children@[j],
            i < before.degree() ==> before.children@[i].0 == after.children@[i].0,
        ensures
            forall|d: char| d != after.key_at(i) ==> after.step(d) == before.step(d),
    {
        assert forall|d: char| d != after.key_at(i) implies after.step(d) == before.step(d) by {
            if before.has_edge(d) {
                let j = before.edge_index(d);
                before.lemma_step_at(j);
                assert(after.children@[j] == before.children@[j]);
                after.lemma_step_at(j);
            } else if after.has_edge(d) {
                let j = after.edge_index(d);
                assert(before.children@[j] == after.children@[j]);
                assert(before.children@[j].0 == d);
            }
        }
    }

    /// The model of a node whose edge `c` leads to `grown`, and which is
    /// otherwise as `before` was, where `grown` is the subtree that `before`
    /// had under `c` (or a single node) with `rest` stored in it.
    proof fn lemma_grown(before: TrieNode, after: TrieNode, c: char, grown: TrieNode, rest: Seq<char>)
        requires
            after.step(c) == Some(grown),
            forall|d: char| d != c ==> after.step(d) == before.step(d),
            after.marked() == before.marked(),
            grown@ == with_word(
                match before.step(c) {
                    Some(sub) => sub@,
                    None => root_only(),
                },
                rest,
            ),
        ensures
            after@ == with_word(before@, seq![c] + rest),
    {
        let word = seq![c] + rest;
        let sub = match before.step(c) {
            Some(sub) => sub@,
            None => root_only(),
        };
        assert(word[0] == c);
        assert(word.drop_first() =~= rest);
        assert forall|p: Seq<char>|
            (#[trigger] after@.dom().contains(p) <==> with_word(before@, word).dom().contains(p))
            && (after@.dom().contains(p) ==> after@[p] == with_word(before@, word)[p]) by {
            if p.len() > 0 {
                let q = p.drop_first();
                after.lemma_walk_step(p);
                before.lemma_walk_step(p);
                if p[0] == c {
                    lemma_prefix_first(p, word);
                    assert(grown@.dom().contains(q) <==> grown.walk(q) is Some);
                    assert(p == word <==> q == rest) by {
                        if q == rest {
                            assert(p =~= word);
                        }
                    }
                    assert(after.walk(p) == grown.walk(q));
                    assert(grown@.dom().contains(q) <==> sub.dom().contains(q) || q.is_prefix_of(rest));
                    assert(grown.walk(q) is Some ==> grown@[q] == grown.walk(q).unwrap().marked());
                    assert(grown@.dom().contains(q) ==> grown@[q] == (q == rest || (sub.dom().contains(q)
                        && sub[q])));
                    match before.step(c) {
                        Some(s) => {
                            assert(before.walk(p) == s.walk(q));
                            assert(sub.dom().contains(q) <==> s.walk(q) is Some);
                            assert(sub.dom().contains(q) ==> sub[q] == s.walk(q).unwrap().marked());
                        },
                        None => {
                            assert(before.walk(p) is None);
                            assert(sub.dom().contains(q) ==> q.is_prefix_of(rest));
                            assert(sub.dom().contains(q) ==> !sub[q]);
                        },
                    }
                } else {
                    assert(!p.is_prefix_of(word)) by {
                        if p.is_prefix_of(word) {
                            assert(word.subrange(0, p.len() as int)[0] == p[0]);
                        }
                    }
                }
            } else {
                assert(p.is_prefix_of(word));
                assert(after.walk(p) == Some(after));
                assert(before.walk(p) == Some(before));
                assert(p != word);
            }
        }
        assert(after@ =~= with_word(before@, word));
    }

    /// What `edge_keys_from` is, edge by edge.
    pub proof fn lemma_edge_keys_unfold(&self, from: int)
        ensures
            self.edge_keys_from(from) == if 0 <= from < self.degree() {
                seq![self.key_at(from)] + self.child_at(from).edge_keys() + self.edge_keys_from(
                    from + 1,
                )
            } else {
                Seq::<char>::empty()
            },
    {
    }

    /// The characters listed from position `from` on are those of the edges
    /// from there on and those listed below them.
    proof fn lemma_edge_keys_from(&self, from: int, c: char)
        requires
            0 <= from <= self.degree(),
        ensures
            self.edge_keys_from(from).contains(c) <==> exists|i: int|
                from <= i < self.degree() && #[trigger] self.listed_behind(i, c),
        decreases self.degree() - from,
    {
        if from < self.degree() {
            let head = seq![self.key_at(from)] + self.child_at(from).edge_keys();
            self.lemma_edge_keys_from(from + 1, c);
            lemma_contains_concat(seq![self.key_at(from)], self.child_at(from).edge_keys(), c);
            lemma_contains_concat(head, self.edge_keys_from(from + 1), c);
            assert(seq![self.key_at(from)].contains(c) <==> self.key_at(from) == c) by {
                assert(seq![self.key_at(from)][0] == self.key_at(from));
            }
            if exists|i: int| from <= i < self.degree() && #[trigger] self.listed_behind(i, c) {
                let i = choose|i: int| from <= i < self.degree() && #[trigger] self.listed_behind(i, c);
                if i > from {
                    assert(from + 1 <= i < self.degree() && self.listed_behind(i, c));
                }
            }
            if head.contains(c) {
                assert(self.listed_behind(from, c));
            }
        } else {
            assert(self.edge_keys_from(from) =~= Seq::<char>::empty());
        }
    }

    /// The characters listed below a node are those that some path below it
    /// ends with: one for every edge, here and further down.
    pub proof fn lemma_edge_keys(&self, c: char)
        requires
            self.wf(),
        ensures
            self.edge_keys().contains(c) <==> exists|p: Seq<char>|
                p.len() > 0 && #[trigger] self@.dom().contains(p) && p.last() == c,
        decreases self,
    {
        self.lemma_edge_keys_from(0, c);
        if self.edge_keys().contains(c) {
            let i = choose|i: int| 0 <= i < self.degree() && #[trigger] self.listed_behind(i, c);
            let child = self.child_at(i);
            if self.key_at(i) == c {
                let rest = Seq::<char>::empty();
                let p = seq![c] + rest;
                self.lemma_edge_paths(i, rest);
                child.lemma_empty_path();
                assert(self@.dom().contains(p) && p.len() > 0 && p.last() == c);
            } else {
                assert(self.children@[i].1.wf());
                child.lemma_edge_keys(c);
                let rest = choose|q: Seq<char>|
                    q.len() > 0 && #[trigger] child@.dom().contains(q) && q.last() == c;
                let p = seq![self.key_at(i)] + rest;
                self.lemma_edge_paths(i, rest);
                assert(self@.dom().contains(p) && p.len() > 0 && p.last() == c);
            }
        }
        if exists|p: Seq<char>| p.len() > 0 && #[trigger] self@.dom().contains(p) && p.last() == c {
            let p = choose|p: Seq<char>|
                p.len() > 0 && #[trigger] self@.dom().contains(p) && p.last() == c;
            let rest = p.drop_first();
            assert(seq![p[0]] + rest =~= p);
            if exists|i: int| 0 <= i < self.degree() && #[trigger] self.key_at(i) == p[0] {
                let i = choose|i: int| 0 <= i < self.degree() && #[trigger] self.key_at(i) == p[0];
                let child = self.child_at(i);
                self.lemma_edge_paths(i, rest);
                if rest.len() > 0 {
                    child.lemma_edge_keys(c);
                    assert(rest.len() > 0 && child@.dom().contains(rest) && rest.last() == c);
                    assert(child.edge_keys().contains(c));
                } else {
                    assert(self.key_at(i) == c);
                }
                assert(self.listed_behind(i, c));
                assert(self.edge_keys().contains(c));
            } else {
                self.lemma_no_edge_no_path(p);
            }
        }
    }

    /// What `words_under` and `words_from` are, edge by edge.
    pub proof fn lemma_words_unfold(&self, prefix: Seq<char>, from: int)
        ensures
            self.words_under(prefix) == if self.marked() {
                seq![prefix] + self.words_from(prefix, 0)
            } else {
                self.words_from(prefix, 0)
            },
            self.words_from(prefix, from) == if 0 <= from < self.degree() {
                self.child_at(from).words_under(prefix.push(self.key_at(from))) + self.words_from(
                    prefix,
                    from + 1,
                )
            } else {
                Seq::<Seq<char>>::empty()
            },
    {
    }

    /// The words behind the edges from position `from` on are the stored
    /// words of the nodes at the far ends of those edges, each with `prefix`
    /// and the edge's character in front.
    proof fn lemma_words_from(&self, prefix: Seq<char>, from: int, w: Seq<char>)
        requires
            self.wf(),
            0 <= from <= self.degree(),
        ensures
            self.words_from(prefix, from).contains(w) <==> prefix.is_prefix_of(w) && w.len()
                > prefix.len() && exists|i: int|
                from <= i < self.degree() && #[trigger] self.key_at(i) == w[prefix.len() as int]
                    && holds_word(self.child_at(i)@, w.skip(prefix.len() as int + 1)),
        decreases self, self.degree() - from,
    {
        let n = prefix.len() as int;
        if from < self.degree() {
            let k = self.key_at(from);
            let child = self.child_at(from);
            let first = child.words_under(prefix.push(k));
            let others = self.words_from(prefix, from + 1);
            assert(self.children@[from].1.wf());
            child.lemma_words_under(prefix.push(k), w);
            self.lemma_words_from(prefix, from + 1, w);
            lemma_contains_concat(first, others, w);
            lemma_prefix_push(prefix, k, w);
            if prefix.is_prefix_of(w) && w.len() > n {
                if exists|i: int|
                    from <= i < self.degree() && #[trigger] self.key_at(i) == w[n] && holds_word(
                        self.child_at(i)@,
                        w.skip(n + 1),
                    ) {
                    let i = choose|i: int|
                        from <= i < self.degree() && #[trigger] self.key_at(i) == w[n]
                            && holds_word(self.child_at(i)@, w.skip(n + 1));
                    if i > from {
                        assert(from + 1 <= i < self.degree() && self.key_at(i) == w[n]);
                    }
                }
                if first.contains(w) {
                    assert(self.key_at(from) == w[n]);
                }
            }
        } else {
            assert(self.words_from(prefix, from) =~= Seq::<Seq<char>>::empty());
        }
    }

    /// The words listed below a node are its stored words, each with
    /// `prefix` in front: `w` is listed exactly when it starts with `prefix`
    /// and its rest is a stored word of the node's model.
    pub proof fn lemma_words_under(&self, prefix: Seq<char>, w: Seq<char>)
        requires
            self.wf(),
        ensures
            self.words_under(prefix).contains(w) <==> prefix.is_prefix_of(w) && holds_word(
                self@,
                w.skip(prefix.len() as int),
            ),
        decreases self, self.degree() + 1,
    {
        let n = prefix.len() as int;
        let own = if self.is_end_of_word {
            seq![prefix]
        } else {
            Seq::<Seq<char>>::empty()
        };
        let rest = self.words_from(prefix, 0);
        assert(self.words_under(prefix) =~= own + rest);
        lemma_contains_concat(own, rest, w);
        self.lemma_words_from(prefix, 0, w);
        self.lemma_empty_path();
        assert(own.contains(w) <==> self.is_end_of_word && w == prefix) by {
            if self.is_end_of_word {
                assert(own[0] == prefix);
            }
        }
        if prefix.is_prefix_of(w) {
            let q = w.skip(n);
            if q.len() == 0 {
                assert(w =~= prefix);
                assert(q =~= Seq::<char>::empty());
            } else {
                assert(q[0] == w[n]);
                assert(q.drop_first() =~= w.skip(n + 1));
                if exists|i: int| 0 <= i < self.degree() && #[trigger] self.key_at(i) == q[0] {
                    let i = choose|i: int| 0 <= i < self.degree() && #[trigger] self.key_at(i) == q[0];
                    self.lemma_edge_paths(i, q.drop_first());
                    assert(seq![q[0]] + q.drop_first() =~= q);
                    assert forall|j: int|
                        0 <= j < self.degree() && #[trigger] self.key_at(j) == q[0] implies j
                        == i by {
                        self.lemma_wf_by_edges();
                    }
                } else {
                    self.lemma_no_edge_no_path(q);
                }
            }
        } else {
            assert(w != prefix) by {
                if w == prefix {
                    assert(prefix =~= w.subrange(0, n));
                }
            }
        }
    }
}

/// A vector with the same characters.
fn copy_chars(chars: &Vec<char>) -> (copy: Vec<char>)
    ensures
        copy@ == chars@,
{
    let mut copy: Vec<char> = Vec::new();
    let mut i: usize = 0;
    while i < chars.len()
        invariant
            i <= chars@.len(),
            copy@ == chars@.take(i as int),
        decreases chars@.len() - i,
    {
        copy.push(chars[i]);
        proof {
            assert(copy@ =~= chars@.take(i + 1));
        }
        i += 1;
    }
    proof {
        assert(chars@.take(chars@.len() as int) =~= chars@);
    }
    copy
}

/// A prefix tree of words: the root stands for the empty prefix.
pub struct Trie {
    root: TrieNode,
}

impl View for Trie {
    type V = Paths;

    /// The paths that exist in the tree, each with the mark that says whether it is a stored word.
    closed spec fn view(&self) -> Paths {
        self.root@
    }
}

impl Trie {
    /// The node of the empty prefix.
    pub closed spec fn root(&self) -> TrieNode {
        self.root
    }

    /// No node of the tree has two edges with the same character.
    pub closed spec fn wf(&self) -> bool {
        self.root.wf()
    }

    /// A tree that holds no word: the root alone.
    pub fn new() -> (trie: Trie)
        ensures
            trie.wf(),
            trie@ == root_only(),
    {
        Trie { root: TrieNode::new() }
    }

    /// The tree that hangs from `root`.
    pub fn from_root(root: TrieNode) -> (trie: Trie)
        requires
            root.wf(),
        ensures
            trie.wf(),
            trie.root() == root,
            trie@ == root@,
    {
        Trie { root }
    }

    /// The node of the empty prefix.
    pub fn root_node(&self) -> (node: &TrieNode)
        ensures
            *node == self.root(),
            node@ == self@,
            self.wf() ==> node.wf(),
    {
        &self.root
    }

    /// Stores `word`: afterwards every prefix of it is a path and the path
    /// `word` itself is marked as a word; no other path or mark changes.
    pub fn insert(&mut self, word: &str)
        requires
            old(self).wf(),
        ensures
            final(self).wf(),
            final(self)@ == with_word(old(self)@, word@),
    {
        proof {
            assert(word@.skip(0) =~= word@);
        }
        self.root.insert_from(word, 0);
    }

    /// Whether `word` was stored as a complete word.
    pub fn search(&self, word: &str) -> (found: bool)
        requires
            self.wf(),
        ensures
            found == holds_word(self@, word@),
    {
        match self.root.descend(word) {
            None => false,
            Some(node) => node.is_end_of_word,
        }
    }

    /// The node that `partial_word` leads to, where some stored word starts
    /// with it or another path of the tree does; `None` where an edge is missing.
    pub fn search_partial(&self, partial_word: &str) -> (reached: Option<&TrieNode>)
        requires
            self.wf(),
        ensures
            reached is Some <==> self@.dom().contains(partial_word@),
            match reached {
                Some(node) => self.root().walk(partial_word@) == Some(*node) && node.wf() && node@
                    == below(self@, partial_word@),
                None => true,
            },
    {
        self.root.descend(partial_word)
    }

    /// The characters on all the edges of the tree, in depth-first order.
    pub fn dfs(&self) -> (keys: Vec<char>)
        ensures
            keys@ == self.root().edge_keys(),
    {
        self.dfs_helper(&self.root)
    }

    /// The characters on all the edges below `node`, in depth-first order.
    pub fn dfs_helper(&self, node: &TrieNode) -> (keys: Vec<char>)
        ensures
            keys@ == node.edge_keys(),
        decreases node,
    {
        let mut keys: Vec<char> = Vec::new();
        let mut i: usize = 0;
        while i < node.children.len()
            invariant
                i <= node.children@.len(),
                keys@ + node.edge_keys_from(i as int) == node.edge_keys_from(0),
            decreases node.children@.len() - i,
        {
            let ghost old_keys = keys;
            keys.push(node.children[i].0);
            let mut sub = self.dfs_helper(&node.children[i].1);
            keys.append(&mut sub);
            proof {
                assert(keys@ + node.edge_keys_from(i + 1) =~= old_keys@ + node.edge_keys_from(i as int));
            }
            i += 1;
        }
        proof {
            assert(keys@ + Seq::<char>::empty() =~= keys@);
        }
        keys
    }

    /// The model of a tree is the model of its root, and the tree is
    /// well-formed where its root is.
    pub proof fn lemma_root(&self)
        ensures
            self@ == self.root()@,
            self.wf() == self.root().wf(),
    {
    }

    /// A path exists in the tree only where each of its front parts exists.
    pub proof fn lemma_prefix_closed(&self)
        ensures
            prefix_closed(self@),
    {
        self.root.lemma_prefix_closed();
    }

    /// Two trees that agree in every mark and edge, whatever the positions
    /// of the edges, answer every lookup alike: the same words are found, the
    /// same paths exist, and the same tree hangs below each of them.
    pub proof fn lemma_same_tree_same_answers(&self, other: Trie, query: Seq<char>)
        requires
            self.wf(),
            other.wf(),
            self.root().same_tree(other.root()),
        ensures
            self@ == other@,
            holds_word(self@, query) == holds_word(other@, query),
            self@.dom().contains(query) == other@.dom().contains(query),
            below(self@, query) == below(other@, query),
    {
        TrieNode::lemma_same_tree_same_view(self.root, other.root);
    }

    /// The words listed from the node that `prefix` leads to are the ends of
    /// the stored words that start with `prefix`: `rest` is listed exactly
    /// when `prefix` followed by `rest` is a stored word, so every stored
    /// word that starts with `prefix` is listed, and nothing else is.
    pub proof fn lemma_completions(&self, prefix: Seq<char>, node: TrieNode, rest: Seq<char>, word: Seq<char>)
        requires
            self.wf(),
            self.root().walk(prefix) == Some(node),
        ensures
            node.words_under(Seq::<char>::empty()).contains(rest) <==> holds_word(self@, prefix + rest),
            prefix.is_prefix_of(word) && holds_word(self@, word) ==> node.words_under(
                Seq::<char>::empty(),
            ).contains(word.skip(prefix.len() as int)),
    {
        let none = Seq::<char>::empty();
        self.root.lemma_walk_wf(prefix);
        self.root.lemma_walk_below(prefix);
        node.lemma_words_under(none, rest);
        assert(rest.skip(0) =~= rest);
        assert(none.is_prefix_of(rest));
        if prefix.is_prefix_of(word) {
            let tail = word.skip(prefix.len() as int);
            node.lemma_words_under(none, tail);
            assert(tail.skip(0) =~= tail);
            assert(none.is_prefix_of(tail));
            assert(prefix + tail =~= word);
        }
    }
}

} // verus!
