use vstd::prelude::*;
use crate::text::{chars_of, lines, lines_of, views};

verus! {

/// The letter on the edge into a trie node; the root has none.
#[derive(Clone, Copy, PartialEq, Eq, Structural, Debug)]
pub enum LetterState {
    Present(char),
    Root,
}

/// Whether a word ends at a trie node.
#[derive(Clone, Copy, PartialEq, Eq, Structural, Debug)]
pub enum NodeState {
    WordEnd,
    WordMiddle,
}

/// A node of the dictionary trie.
pub struct LetterNode {
    letter: LetterState,
    children: Vec<LetterNode>,
    state: NodeState,
    level: usize,
}

/// The dictionary, as a trie of its words.
pub struct WordTree {
    root: LetterNode,
}

impl LetterNode {
    pub closed spec fn spec_letter(&self) -> LetterState {
        self.letter
    }

    pub closed spec fn spec_children(&self) -> Seq<LetterNode> {
        self.children@
    }

    pub closed spec fn spec_state(&self) -> NodeState {
        self.state
    }

    pub closed spec fn spec_level(&self) -> usize {
        self.level
    }
}

/// Whether node `n` is reached by letter `c`.
pub open spec fn has_letter(n: LetterNode, c: char) -> bool {
    n.spec_letter() == LetterState::Present(c)
}

/// `i` is the first child of `n` reached by letter `c`.
pub open spec fn is_first_child(n: LetterNode, c: char, i: int) -> bool {
    &&& 0 <= i < n.spec_children().len()
    &&& has_letter(n.spec_children()[i], c)
    &&& forall|j: int| 0 <= j < i ==> !has_letter(#[trigger] n.spec_children()[j], c)
}

/// The child of `n` on letter `c`, if any.
pub open spec fn child_of(n: LetterNode, c: char) -> Option<LetterNode> {
    if exists|i: int| is_first_child(n, c, i) {
        Some(n.spec_children()[choose|i: int| is_first_child(n, c, i)])
    } else {
        None
    }
}

/// The node reached from `n` by spelling `w`, if `w` is a prefix there.
pub open spec fn node_at(n: LetterNode, w: Seq<char>) -> Option<LetterNode>
    decreases w.len(),
{
    if w.len() == 0 {
        Some(n)
    } else {
        match child_of(n, w[0]) {
            Some(m) => node_at(m, w.drop_first()),
            None => None,
        }
    }
}

/// `w` spells a word that ends below `n`.
pub open spec fn is_word_at(n: LetterNode, w: Seq<char>) -> bool {
    node_at(n, w) matches Some(m) && m.spec_state() == NodeState::WordEnd
}

/// Every node below `n` records its depth: `base` plus the letters that lead
/// to it from `n`.
pub open spec fn levels_ok(n: LetterNode, base: nat) -> bool {
    forall|w: Seq<char>| #[trigger] node_at(n, w) matches Some(m) ==> m.spec_level() == base + w.len()
}

/// No two children of `m` carry the same letter.
pub open spec fn letters_unique(m: LetterNode) -> bool {
    forall|a: int, b: int|
        0 <= a < b < m.spec_children().len() ==> (#[trigger] m.spec_children()[a]).spec_letter()
            != (#[trigger] m.spec_children()[b]).spec_letter()
}

/// No node below `n` has two children on the same letter.
pub open spec fn siblings_unique(n: LetterNode) -> bool {
    forall|w: Seq<char>| #[trigger] node_at(n, w) matches Some(m) ==> letters_unique(m)
}

/// Every child of `m` carries a letter and lies one level below `m`.
pub open spec fn children_ok(m: LetterNode) -> bool {
    forall|i: int|
        0 <= i < m.spec_children().len() ==> (#[trigger] m.spec_children()[i]).spec_letter() is Present
            && m.spec_children()[i].spec_level() == m.spec_level() + 1
}

/// Every node below `n` has lettered children one level below it.
pub open spec fn nodes_children_ok(n: LetterNode) -> bool {
    forall|w: Seq<char>| #[trigger] node_at(n, w) matches Some(m) ==> children_ok(m)
}

/// `w` begins `s`.
pub open spec fn is_prefix_of(w: Seq<char>, s: Seq<char>) -> bool {
    w.len() <= s.len() && s.take(w.len() as int) == w
}

/// Every node strictly below `n` lies on a word: some continuation of the
/// letters that reach it ends a word.
pub open spec fn nodes_live(n: LetterNode) -> bool {
    forall|w: Seq<char>| w.len() > 0 && #[trigger] node_at(n, w) is Some ==> exists|v: Seq<char>| #[trigger] is_word_at(n, w + v)
}

pub proof fn lemma_children_ok_child(n: LetterNode, c: char)
    requires
        nodes_children_ok(n),
        child_of(n, c) is Some,
    ensures
        nodes_children_ok(child_of(n, c).unwrap()),
{
    let m = child_of(n, c).unwrap();
    assert forall|w: Seq<char>| #[trigger] node_at(m, w) is Some implies children_ok(node_at(m, w).unwrap()) by {
        let cw = seq![c] + w;
        assert(cw[0] == c);
        assert(cw.drop_first() =~= w);
        assert(node_at(n, cw) == node_at(m, w));
    }
}

pub proof fn lemma_unique_child(n: LetterNode, c: char)
    requires
        siblings_unique(n),
        child_of(n, c) is Some,
    ensures
        siblings_unique(child_of(n, c).unwrap()),
{
    let m = child_of(n, c).unwrap();
    assert forall|w: Seq<char>| #[trigger] node_at(m, w) is Some implies letters_unique(node_at(m, w).unwrap()) by {
        let cw = seq![c] + w;
        assert(cw[0] == c);
        assert(cw.drop_first() =~= w);
        assert(node_at(n, cw) == node_at(m, w));
    }
}

pub proof fn lemma_levels_child(n: LetterNode, base: nat, c: char)
    requires
        levels_ok(n, base),
        child_of(n, c) is Some,
    ensures
        levels_ok(child_of(n, c).unwrap(), base + 1),
{
    let m = child_of(n, c).unwrap();
    assert forall|w: Seq<char>| #[trigger] node_at(m, w) is Some implies node_at(m, w).unwrap().spec_level() == base + 1 + w.len() by {
        let cw = seq![c] + w;
        assert(cw[0] == c);
        assert(cw.drop_first() =~= w);
        assert(node_at(n, cw) == node_at(m, w));
    }
}

/// A word the dictionary admits: non-empty and made of `a..z` only.
pub open spec fn admissible(w: Seq<char>) -> bool {
    w.len() > 0 && forall|i: int| 0 <= i < w.len() ==> 'a' <= #[trigger] w[i] <= 'z'
}

pub proof fn lemma_first_child_unique(n: LetterNode, c: char, i: int, j: int)
    requires
        is_first_child(n, c, i),
        is_first_child(n, c, j),
    ensures
        i == j,
{
}

/// Spelling one more letter goes one step further down.
pub proof fn lemma_node_at_push(n: LetterNode, w: Seq<char>, c: char)
    ensures
        node_at(n, w.push(c)) == (match node_at(n, w) {
            Some(m) => child_of(m, c),
            None => None,
        }),
    decreases w.len(),
{
    if w.len() == 0 {
        assert(w.push(c).drop_first() =~= Seq::<char>::empty());
        assert(w.push(c)[0] == c);
        match child_of(n, c) {
            Some(m) => {
                assert(node_at(m, Seq::<char>::empty()) == Some(m));
            },
            None => {},
        }
    } else {
        assert(w.push(c).drop_first() =~= w.drop_first().push(c));
        assert(w.push(c)[0] == w[0]);
        match child_of(n, w[0]) {
            Some(m) => {
                lemma_node_at_push(m, w.drop_first(), c);
            },
            None => {},
        }
    }
}

/// The suffix of `word` from position `i`.
pub open spec fn suffix(word: Seq<char>, i: int) -> Seq<char> {
    word.subrange(i, word.len() as int)
}

pub proof fn lemma_fresh_node_has_no_words(n: LetterNode, w: Seq<char>)
    requires
        n.spec_children().len() == 0,
        n.spec_state() == NodeState::WordMiddle,
    ensures
        !is_word_at(n, w),
{
    if w.len() > 0 {
        assert(!(exists|i: int| is_first_child(n, w[0], i)));
    }
}

proof fn lemma_pushed_child_is_first(o: LetterNode, m: LetterNode, fresh: LetterNode, c: char)
    requires
        m.spec_children() == o.spec_children().push(fresh),
        has_letter(fresh, c),
        forall|j: int| 0 <= j < o.spec_children().len() ==> !has_letter(#[trigger] o.spec_children()[j], c),
    ensures
        is_first_child(m, c, o.spec_children().len() as int),
{
    assert forall|j: int| 0 <= j < o.spec_children().len() implies !has_letter(#[trigger] m.spec_children()[j], c) by {
        assert(m.spec_children()[j] == o.spec_children()[j]);
    }
}

/// Adds `word[i..]` below `node`, marking where it ends.
fn insert_chars(node: &mut LetterNode, word: &Vec<char>, i: usize)
    requires
        i <= word.len(),
        levels_ok(*old(node), i as nat),
        siblings_unique(*old(node)),
        nodes_children_ok(*old(node)),
    ensures
        levels_ok(*final(node), i as nat),
        siblings_unique(*final(node)),
        nodes_children_ok(*final(node)),
        forall|w: Seq<char>| #[trigger] node_at(*final(node), w) is Some ==> node_at(*old(node), w) is Some
            || is_prefix_of(w, suffix(word@, i as int)),
        final(node).spec_letter() == old(node).spec_letter(),
        final(node).spec_level() == old(node).spec_level(),
        forall|w: Seq<char>| #[trigger]
            is_word_at(*final(node), w) <==> (is_word_at(*old(node), w) || w == suffix(word@, i as int)),
    decreases word.len() - i,
{
    if i == word.len() {
        node.state = NodeState::WordEnd;
        assert forall|w: Seq<char>| #[trigger] node_at(*node, w) is Some implies children_ok(node_at(*node, w).unwrap())
            && node_at(*old(node), w) is Some by {
            if w.len() == 0 {
                assert(node_at(*old(node), w) == Some(*old(node)));
            } else {
                assert(node.spec_children() == old(node).spec_children());
                assert forall|k: int| is_first_child(*node, w[0], k) == is_first_child(*old(node), w[0], k) by {}
                assert(child_of(*node, w[0]) == child_of(*old(node), w[0]));
            }
        }
        assert forall|w: Seq<char>| #[trigger] node_at(*node, w) is Some implies letters_unique(node_at(*node, w).unwrap()) by {
            if w.len() == 0 {
                assert(node_at(*old(node), w) == Some(*old(node)));
            } else {
                assert(node.spec_children() == old(node).spec_children());
                assert forall|k: int| is_first_child(*node, w[0], k) == is_first_child(*old(node), w[0], k) by {}
                assert(child_of(*node, w[0]) == child_of(*old(node), w[0]));
            }
        }
        assert forall|w: Seq<char>| #[trigger] node_at(*node, w) is Some implies node_at(*node, w).unwrap().spec_level() == i + w.len() by {
            if w.len() == 0 {
                assert(node_at(*old(node), w) == Some(*old(node)));
            } else {
                assert(node.spec_children() == old(node).spec_children());
                assert forall|k: int| is_first_child(*node, w[0], k) == is_first_child(*old(node), w[0], k) by {}
                assert(child_of(*node, w[0]) == child_of(*old(node), w[0]));
            }
        }
        assert forall|w: Seq<char>| #[trigger]
            is_word_at(*node, w) <==> (is_word_at(*old(node), w) || w == suffix(word@, i as int)) by {
            if w.len() == 0 {
                assert(suffix(word@, i as int) =~= w);
            } else {
                assert(node.spec_children() == old(node).spec_children());
                assert forall|k: int| is_first_child(*node, w[0], k) == is_first_child(*old(node), w[0], k) by {}
                assert(child_of(*node, w[0]) == child_of(*old(node), w[0]));
            }
        }
        return;
    }
    let c = word[i];
    let ghost o = *node;
    let found_at = node.get_char_in_children(c);
    let idx: usize = if let Some(k) = found_at {
        k
    } else {
        let n = node.children.len();
        assert(n == o.spec_children().len());
        let fresh = LetterNode {
            letter: LetterState::Present(c),
            children: Vec::new(),
            state: NodeState::WordMiddle,
            level: i + 1,
        };
        node.children.push(fresh);
        assert(node.spec_children() == o.spec_children().push(fresh));
        proof {
            lemma_pushed_child_is_first(o, *node, fresh, c);
        }
        n
    };
    let ghost mid = *node;
    let ghost found = found_at is Some;
    assert(found ==> mid == o);
    assert(found <==> idx < o.spec_children().len());
    assert(is_first_child(mid, c, idx as int));
    assert(levels_ok(mid.spec_children()[idx as int], (i + 1) as nat)) by {
        if found {
            assert(is_first_child(o, c, idx as int));
            let k = choose|k: int| is_first_child(o, c, k);
            lemma_first_child_unique(o, c, idx as int, k);
            lemma_levels_child(o, i as nat, c);
        } else {
            let fresh = mid.spec_children()[idx as int];
            assert forall|w: Seq<char>| #[trigger] node_at(fresh, w) is Some implies node_at(fresh, w).unwrap().spec_level() == i + 1 + w.len() by {
                if w.len() > 0 {
                    assert(!(exists|k: int| is_first_child(fresh, w[0], k)));
                }
            }
        }
    }
    assert(siblings_unique(mid.spec_children()[idx as int])) by {
        if found {
            assert(is_first_child(o, c, idx as int));
            let k = choose|k: int| is_first_child(o, c, k);
            lemma_first_child_unique(o, c, idx as int, k);
            lemma_unique_child(o, c);
        } else {
            let fresh = mid.spec_children()[idx as int];
            assert forall|w: Seq<char>| #[trigger] node_at(fresh, w) is Some implies letters_unique(node_at(fresh, w).unwrap()) by {
                if w.len() > 0 {
                    assert(!(exists|k: int| is_first_child(fresh, w[0], k)));
                }
            }
        }
    }
    assert(nodes_children_ok(mid.spec_children()[idx as int])) by {
        if found {
            assert(is_first_child(o, c, idx as int));
            let k = choose|k: int| is_first_child(o, c, k);
            lemma_first_child_unique(o, c, idx as int, k);
            lemma_children_ok_child(o, c);
        } else {
            let fresh = mid.spec_children()[idx as int];
            assert forall|w: Seq<char>| #[trigger] node_at(fresh, w) is Some implies children_ok(node_at(fresh, w).unwrap()) by {
                if w.len() > 0 {
                    assert(!(exists|k: int| is_first_child(fresh, w[0], k)));
                }
            }
        }
    }
    assert(children_ok(mid)) by {
        assert(node_at(o, Seq::<char>::empty()) == Some(o));
        assert(o.spec_level() == i);
        if !found {
            assert forall|a: int| 0 <= a < mid.spec_children().len() implies (#[trigger] mid.spec_children()[a]).spec_letter() is Present
                && mid.spec_children()[a].spec_level() == mid.spec_level() + 1 by {
                if a < o.spec_children().len() {
                    assert(mid.spec_children()[a] == o.spec_children()[a]);
                }
            }
        }
    }
    assert(letters_unique(mid)) by {
        assert(node_at(o, Seq::<char>::empty()) == Some(o));
        if !found {
            assert forall|a: int, b: int|
                0 <= a < b < mid.spec_children().len() implies (#[trigger] mid.spec_children()[a]).spec_letter()
                    != (#[trigger] mid.spec_children()[b]).spec_letter() by {
                assert(mid.spec_children()[a] == o.spec_children()[a]);
                if b < o.spec_children().len() {
                    assert(mid.spec_children()[b] == o.spec_children()[b]);
                } else {
                    assert(!has_letter(o.spec_children()[a], c));
                }
            }
        }
    }
    insert_chars(&mut node.children[idx], word, i + 1);
    let ghost f = *node;
    let ghost oc = mid.spec_children()[idx as int];
    let ghost fc = f.spec_children()[idx as int];
    assert(f.spec_children() == mid.spec_children().update(idx as int, fc));
    assert(is_first_child(f, c, idx as int));
    assert(child_of(f, c) == Some(fc)) by {
        let k = choose|k: int| is_first_child(f, c, k);
        lemma_first_child_unique(f, c, idx as int, k);
    }
    assert(found ==> child_of(o, c) == Some(oc)) by {
        if found {
            assert(is_first_child(o, c, idx as int));
            let k = choose|k: int| is_first_child(o, c, k);
            lemma_first_child_unique(o, c, idx as int, k);
        }
    }
    assert(!found ==> child_of(o, c) is None) by {
        if !found {
            assert(!(exists|k: int| is_first_child(o, c, k)));
        }
    }
    assert forall|d: char| d != c implies child_of(f, d) == child_of(o, d) by {
        assert forall|k: int| is_first_child(f, d, k) <==> is_first_child(o, d, k) by {
            if is_first_child(o, d, k) {
                assert forall|j: int| 0 <= j < k implies !has_letter(#[trigger] f.spec_children()[j], d) by {
                    if j != idx {
                        assert(f.spec_children()[j] == o.spec_children()[j]);
                    }
                }
            }
            if is_first_child(f, d, k) {
                assert(k != idx);
                assert(f.spec_children()[k] == o.spec_children()[k]);
                assert forall|j: int| 0 <= j < k implies !has_letter(#[trigger] o.spec_children()[j], d) by {
                    if j != idx {
                        assert(f.spec_children()[j] == o.spec_children()[j]);
                    } else {
                        assert(has_letter(f.spec_children()[j], c));
                    }
                }
            }
        }
        if exists|k: int| is_first_child(f, d, k) {
            let k1 = choose|k: int| is_first_child(f, d, k);
            let k2 = choose|k: int| is_first_child(o, d, k);
            lemma_first_child_unique(o, d, k1, k2);
            assert(k1 != idx);
            assert(f.spec_children()[k1] == o.spec_children()[k1]);
        }
    }
    assert(children_ok(f)) by {
        assert forall|a: int| 0 <= a < f.spec_children().len() implies (#[trigger] f.spec_children()[a]).spec_letter() is Present
            && f.spec_children()[a].spec_level() == f.spec_level() + 1 by {
            if a != idx {
                assert(f.spec_children()[a] == mid.spec_children()[a]);
            }
            assert(mid.spec_children()[a].spec_letter() is Present);
        }
    }
    assert forall|w: Seq<char>| #[trigger] node_at(f, w) is Some implies children_ok(node_at(f, w).unwrap())
        && (node_at(o, w) is Some || is_prefix_of(w, suffix(word@, i as int))) by {
        let sx = suffix(word@, i as int);
        if w.len() == 0 {
            assert(node_at(o, w) == Some(o));
        } else if w[0] != c {
            assert(child_of(f, w[0]) == child_of(o, w[0]));
            assert(node_at(f, w) == node_at(o, w));
        } else {
            let rest = w.drop_first();
            assert(node_at(f, w) == node_at(fc, rest));
            if found {
                assert(node_at(o, w) == node_at(oc, rest));
            }
            if !(node_at(o, w) is Some) && !found {
                assert(node_at(oc, rest) is Some ==> rest.len() == 0) by {
                    if rest.len() > 0 {
                        assert(!(exists|k: int| is_first_child(oc, rest[0], k)));
                    }
                }
            }
            if !(node_at(o, w) is Some) {
                assert(node_at(fc, rest) is Some);
                if !found && rest.len() == 0 {
                    assert(suffix(word@, i + 1).take(0) =~= rest);
                }
                assert(is_prefix_of(rest, suffix(word@, i + 1)));
                assert(sx[0] == c);
                assert(sx.drop_first() =~= suffix(word@, i + 1));
                assert(w.len() <= sx.len());
                assert(sx.take(w.len() as int) =~= w) by {
                    assert forall|k: int| 0 <= k < w.len() implies sx[k] == w[k] by {
                        if k > 0 {
                            assert(sx[k] == sx.drop_first()[k - 1]);
                            assert(w[k] == rest[k - 1]);
                            assert(suffix(word@, i + 1).take(rest.len() as int)[k - 1] == rest[k - 1]);
                        }
                    }
                }
            }
        }
    }
    assert(letters_unique(f)) by {
        assert forall|a: int, b: int|
            0 <= a < b < f.spec_children().len() implies (#[trigger] f.spec_children()[a]).spec_letter()
                != (#[trigger] f.spec_children()[b]).spec_letter() by {
            if a != idx {
                assert(f.spec_children()[a] == mid.spec_children()[a]);
            }
            if b != idx {
                assert(f.spec_children()[b] == mid.spec_children()[b]);
            }
            assert(mid.spec_children()[a].spec_letter() != mid.spec_children()[b].spec_letter());
        }
    }
    assert forall|w: Seq<char>| #[trigger] node_at(f, w) is Some implies letters_unique(node_at(f, w).unwrap()) by {
        if w.len() == 0 {
        } else if w[0] != c {
            assert(child_of(f, w[0]) == child_of(o, w[0]));
            assert(node_at(f, w) == node_at(o, w));
        } else {
            assert(node_at(f, w) == node_at(fc, w.drop_first()));
        }
    }
    assert forall|w: Seq<char>| #[trigger] node_at(f, w) is Some implies node_at(f, w).unwrap().spec_level() == i + w.len() by {
        if w.len() == 0 {
            assert(node_at(o, w) == Some(o));
        } else if w[0] != c {
            assert(child_of(f, w[0]) == child_of(o, w[0]));
            assert(node_at(f, w) == node_at(o, w));
        } else {
            assert(node_at(f, w) == node_at(fc, w.drop_first()));
        }
    }
    assert forall|w: Seq<char>| #[trigger]
        is_word_at(f, w) <==> (is_word_at(o, w) || w == suffix(word@, i as int)) by {
        if w.len() == 0 {
            assert(suffix(word@, i as int).len() > 0);
        } else if w[0] != c {
            assert(child_of(f, w[0]) == child_of(o, w[0]));
            assert(w != suffix(word@, i as int)) by {
                assert(suffix(word@, i as int)[0] == c);
            }
        } else {
            assert(is_word_at(fc, w.drop_first()) <==> (is_word_at(oc, w.drop_first())
                || w.drop_first() == suffix(word@, i + 1)));
            if !found {
                lemma_fresh_node_has_no_words(oc, w.drop_first());
            }
            assert(w == suffix(word@, i as int) <==> w.drop_first() == suffix(word@, i + 1)) by {
                let sx = suffix(word@, i as int);
                assert(sx.drop_first() =~= suffix(word@, i + 1));
                if w.drop_first() == suffix(word@, i + 1) {
                    assert(sx[0] == c);
                    assert(w.len() == sx.len());
                    assert forall|k: int| 0 <= k < w.len() implies w[k] == sx[k] by {
                        if k > 0 {
                            assert(w[k] == w.drop_first()[k - 1]);
                            assert(sx[k] == sx.drop_first()[k - 1]);
                        }
                    }
                    assert(w =~= sx);
                }
            }
        }
    }
}

impl LetterNode {
    pub fn letter(&self) -> (r: &LetterState)
        ensures
            *r == self.spec_letter(),
    {
        &self.letter
    }

    pub fn children(&self) -> (r: &Vec<LetterNode>)
        ensures
            r@ == self.spec_children(),
    {
        &self.children
    }

    pub fn state(&self) -> (r: &NodeState)
        ensures
            *r == self.spec_state(),
    {
        &self.state
    }

    pub fn level(&self) -> (r: usize)
        ensures
            r == self.spec_level(),
    {
        self.level
    }

    /// Whether a word ends at this node.
    pub fn is_word_end(&self) -> (r: bool)
        ensures
            r == (self.spec_state() == NodeState::WordEnd),
    {
        match self.state {
            NodeState::WordEnd => true,
            NodeState::WordMiddle => false,
        }
    }

    /// Index of the first child reached by `character`.
    fn get_char_in_children(&self, character: char) -> (r: Option<usize>)
        ensures
            r matches Some(i) ==> is_first_child(*self, character, i as int),
            r is None ==> forall|i: int|
                0 <= i < self.spec_children().len() ==> !has_letter(
                    #[trigger] self.spec_children()[i],
                    character,
                ),
    {
        let mut i: usize = 0;
        while i < self.children.len()
            invariant
                i <= self.children.len(),
                forall|j: int| 0 <= j < i ==> !has_letter(#[trigger] self.children@[j], character),
            decreases self.children.len() - i,
        {
            match self.children[i].letter {
                LetterState::Present(this_char) => {
                    if this_char == character {
                        return Some(i);
                    }
                },
                LetterState::Root => {},
            }
            i = i + 1;
        }
        None
    }

    /// The child reached by `character`, if any.
    pub fn get_child_from_letter(&self, character: char) -> (r: Option<&LetterNode>)
        ensures
            r is None <==> child_of(*self, character) is None,
            r matches Some(m) ==> child_of(*self, character) == Some(*m),
    {
        match self.get_char_in_children(character) {
            Some(i) => {
                proof {
                    let k = choose|k: int| is_first_child(*self, character, k);
                    lemma_first_child_unique(*self, character, i as int, k);
                }
                Some(&self.children[i])
            },
            None => None,
        }
    }
}

/// What `str::to_lowercase` gives for a text.
pub uninterp spec fn lower_of(s: Seq<char>) -> Seq<char>;

/// Relies on `str::to_lowercase`: the lowercase form of a text, which depends
/// on its characters alone.
#[verifier::external_body]
fn lowercase(s: &Vec<char>) -> (r: Vec<char>)
    ensures
        r@ == lower_of(s@),
{
    let text: String = s.iter().collect();
    text.to_lowercase().chars().collect()
}

/// The words that a dictionary text's lines give: each line lowercased, and
/// kept when admissible.
pub open spec fn dictionary_words(ls: Seq<Seq<char>>) -> Set<Seq<char>> {
    Set::new(
        |w: Seq<char>|
            admissible(w) && exists|j: int| 0 <= j < ls.len() && w == lower_of(#[trigger] ls[j]),
    )
}

impl WordTree {
    /// The root node.
    pub closed spec fn root_node(&self) -> LetterNode {
        self.root
    }

    /// The root carries no letter and no word, every node records its depth,
    /// no two siblings share a letter, every child carries a letter one level
    /// below its parent, every node lies on a word, and every word is
    /// admissible.
    pub open spec fn wf(&self) -> bool {
        &&& self.root_node().spec_letter() == LetterState::Root
        &&& self.root_node().spec_state() == NodeState::WordMiddle
        &&& self.nodes_ok()
        &&& forall|w: Seq<char>| #[trigger] self@.contains(w) ==> admissible(w)
    }

    /// The shape of the trie below the root: every node records its depth, no
    /// two siblings share a letter, every child carries a letter one level
    /// below its parent, and every node lies on a word.
    pub closed spec fn nodes_ok(&self) -> bool {
        &&& levels_ok(self.root, 0)
        &&& siblings_unique(self.root)
        &&& nodes_children_ok(self.root)
        &&& nodes_live(self.root)
    }

    /// A dictionary with no words.
    pub fn new() -> (r: WordTree)
        ensures
            r@ == Set::<Seq<char>>::empty(),
            r.wf(),
    {
        let r = WordTree {
            root: LetterNode {
                letter: LetterState::Root,
                children: Vec::new(),
                state: NodeState::WordMiddle,
                level: 0,
            },
        };
        assert forall|w: Seq<char>| !is_word_at(r.root, w) by {
            lemma_fresh_node_has_no_words(r.root, w);
        }
        assert forall|w: Seq<char>| #[trigger] node_at(r.root, w) is Some implies children_ok(node_at(r.root, w).unwrap())
            && w.len() == 0 by {
            if w.len() > 0 {
                assert(!(exists|k: int| is_first_child(r.root, w[0], k)));
            }
        }
        assert forall|w: Seq<char>| #[trigger] node_at(r.root, w) is Some implies letters_unique(node_at(r.root, w).unwrap()) by {
            if w.len() > 0 {
                assert(!(exists|k: int| is_first_child(r.root, w[0], k)));
            }
        }
        assert forall|w: Seq<char>| #[trigger] node_at(r.root, w) is Some implies node_at(r.root, w).unwrap().spec_level() == 0 + w.len() by {
            if w.len() > 0 {
                assert(!(exists|k: int| is_first_child(r.root, w[0], k)));
            }
        }
        assert(r@ =~= Set::<Seq<char>>::empty());
        r
    }

    /// Builds the dictionary from a text with one word per line. Each line is
    /// lowercased; lines that are empty or hold anything but `a..z` are left out.
    pub fn build_from_str(input: &str) -> (r: WordTree)
        ensures
            r@ == dictionary_words(lines_of(input@)),
            r.wf(),
    {
        let ls = lines(input);
        let ghost lv = lines_of(input@);
        let mut tree = WordTree::new();
        let mut i: usize = 0;
        while i < ls.len()
            invariant
                i <= ls.len(),
                views(ls@) == lv,
                tree.wf(),
                tree@ == dictionary_words(lv.take(i as int)),
            decreases ls.len() - i,
        {
            let word = lowercase(&ls[i]);
            assert(ls@[i as int]@ == lv[i as int]);
            let ghost before = tree@;
            tree.add_chars(&word);
            assert(tree@ =~= dictionary_words(lv.take(i + 1))) by {
                let t = lv.take(i + 1);
                assert forall|w: Seq<char>| tree@.contains(w) <==> dictionary_words(t).contains(w) by {
                    if dictionary_words(t).contains(w) {
                        let j = choose|j: int| 0 <= j < t.len() && w == lower_of(#[trigger] t[j]);
                        if j < i {
                            assert(lv.take(i as int)[j] == t[j]);
                        }
                    }
                    if before.contains(w) {
                        let j = choose|j: int| 0 <= j < i && w == lower_of(#[trigger] lv.take(i as int)[j]);
                        assert(lv.take(i as int)[j] == t[j]);
                    }
                    if w == word@ && admissible(w) {
                        assert(t[i as int] == lv[i as int]);
                    }
                }
            }
            i = i + 1;
        }
        assert(lv.take(ls.len() as int) =~= lv);
        tree
    }

    /// Adds `word` when it is admissible (non-empty, `a..z` only); otherwise
    /// the dictionary is unchanged.
    pub fn add_chars(&mut self, word: &Vec<char>)
        requires
            old(self).wf(),
        ensures
            final(self)@ == (if admissible(word@) { old(self)@.insert(word@) } else { old(self)@ }),
            final(self).wf(),
    {
        let mut k: usize = 0;
        while k < word.len()
            invariant
                k <= word.len(),
                self.wf(),
                *self == *old(self),
                forall|j: int| 0 <= j < k ==> 'a' <= #[trigger] word@[j] <= 'z',
            decreases word.len() - k,
        {
            let ch = word[k];
            if !('a' <= ch && ch <= 'z') {
                return;
            }
            k = k + 1;
        }
        if word.len() == 0 {
            return;
        }
        insert_chars(&mut self.root, word, 0);
        assert(suffix(word@, 0) =~= word@);
        assert(self@ =~= old(self)@.insert(word@));
        assert(nodes_live(self.root)) by {
            assert forall|w: Seq<char>| w.len() > 0 && #[trigger] node_at(self.root, w) is Some implies exists|v: Seq<char>|
                #[trigger] is_word_at(self.root, w + v) by {
                if node_at(old(self).root, w) is Some {
                    let v = choose|v: Seq<char>| #[trigger] is_word_at(old(self).root, w + v);
                    assert(is_word_at(self.root, w + v));
                } else {
                    assert(is_prefix_of(w, suffix(word@, 0)));
                    let v = word@.skip(w.len() as int);
                    assert(w + v =~= word@);
                    assert(is_word_at(self.root, w + v));
                }
            }
        }
        assert(self.wf()) by {
            let e = Seq::<char>::empty();
            assert(e != suffix(word@, 0));
            assert(is_word_at(self.root, e) <==> is_word_at(old(self).root, e));
            assert forall|w: Seq<char>| #[trigger] self@.contains(w) implies admissible(w) by {
                if w != word@ {
                    assert(old(self)@.contains(w));
                }
            }
        }
    }

    /// Adds `word` when it is admissible (non-empty, `a..z` only); otherwise
    /// the dictionary is unchanged.
    pub fn add_word_to_tree(&mut self, word: &str)
        requires
            old(self).wf(),
        ensures
            final(self)@ == (if admissible(word@) { old(self)@.insert(word@) } else { old(self)@ }),
            final(self).wf(),
    {
        let chars = chars_of(word);
        self.add_chars(&chars);
    }

    /// Whether `word` is in the dictionary.
    pub fn is_word_in_tree(&self, word: &str) -> (r: bool)
        ensures
            r == self@.contains(word@),
    {
        let chars = chars_of(word);
        let mut cur: &LetterNode = &self.root;
        let mut i: usize = 0;
        while i < chars.len()
            invariant
                i <= chars.len(),
                chars@ == word@,
                node_at(self.root, chars@.take(i as int)) == Some(*cur),
            decreases chars.len() - i,
        {
            proof {
                lemma_node_at_push(self.root, chars@.take(i as int), chars@[i as int]);
                assert(chars@.take(i as int).push(chars@[i as int]) =~= chars@.take(i + 1));
            }
            match cur.get_child_from_letter(chars[i]) {
                Some(next) => {
                    cur = next;
                },
                None => {
                    proof {
                        lemma_node_at_none_extends(self.root, chars@.take(i + 1), chars@);
                    }
                    return false;
                },
            }
            i = i + 1;
        }
        assert(chars@.take(chars.len() as int) =~= chars@);
        cur.is_word_end()
    }

    pub fn get_root_node(&self) -> (r: &LetterNode)
        ensures
            *r == self.root_node(),
    {
        &self.root
    }
}

impl View for WordTree {
    type V = Set<Seq<char>>;

    /// The words of the dictionary.
    open spec fn view(&self) -> Set<Seq<char>> {
        Set::new(|w: Seq<char>| is_word_at(self.root_node(), w))
    }
}

/// In a well-formed dictionary, the node for prefix `q` has a child on letter
/// `c` exactly when some dictionary word begins with `q` followed by `c`.
pub proof fn lemma_children_are_continuations(t: WordTree, q: Seq<char>, c: char)
    requires
        t.wf(),
        node_at(t.root_node(), q) is Some,
    ensures
        child_of(node_at(t.root_node(), q).unwrap(), c) is Some <==> exists|v: Seq<char>| #[trigger] t@.contains(q.push(c) + v),
{
    let root = t.root_node();
    let qc = q.push(c);
    lemma_node_at_push(root, q, c);
    if child_of(node_at(root, q).unwrap(), c) is Some {
        assert(node_at(root, qc) is Some);
        assert(qc.len() > 0);
        let v = choose|v: Seq<char>| #[trigger] is_word_at(root, qc + v);
        assert(t@.contains(qc + v));
    }
    if exists|v: Seq<char>| #[trigger] t@.contains(qc + v) {
        let v = choose|v: Seq<char>| #[trigger] t@.contains(qc + v);
        assert(is_word_at(root, qc + v));
        if node_at(root, qc) is None {
            assert((qc + v).take(qc.len() as int) =~= qc);
            lemma_node_at_none_extends(root, qc, qc + v);
        }
    }
}

/// A word below a prefix that is absent is absent too.
pub proof fn lemma_node_at_none_extends(n: LetterNode, p: Seq<char>, w: Seq<char>)
    requires
        node_at(n, p) is None,
        p.len() <= w.len(),
        w.take(p.len() as int) == p,
    ensures
        node_at(n, w) is None,
    decreases w.len() - p.len(),
{
    if p.len() < w.len() {
        let q = w.take(p.len() as int + 1);
        lemma_node_at_push(n, p, w[p.len() as int]);
        assert(p.push(w[p.len() as int]) =~= q);
        assert(w.take(q.len() as int) =~= q);
        lemma_node_at_none_extends(n, q, w);
    } else {
        assert(w =~= p);
    }
}

} // verus!
