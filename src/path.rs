use vstd::prelude::*;
use crate::board::{Board, LetterSpace};
use crate::word_tree::{WordTree, LetterNode, node_at, is_word_at, child_of, lemma_node_at_push, lemma_node_at_none_extends};

verus! {

/// Two steps stand on the same cell.
pub open spec fn same_cell(a: LetterSpace, b: LetterSpace) -> bool {
    a.row == b.row && a.col == b.col
}

/// Two distinct cells that touch, diagonals included.
pub open spec fn adjacent(a: LetterSpace, b: LetterSpace) -> bool {
    &&& !same_cell(a, b)
    &&& a.row <= b.row + 1 && b.row <= a.row + 1
    &&& a.col <= b.col + 1 && b.col <= a.col + 1
}

pub open spec fn in_bounds(b: Board, x: LetterSpace) -> bool {
    x.row < b.spec_size() && x.col < b.spec_size()
}

/// The step contributes the letter of its own cell.
pub open spec fn is_natural(b: Board, x: LetterSpace) -> bool {
    x.character == b.letter_at(x.row as int, x.col as int)
}

/// How the swap budget may pass from one step to the next: unchanged on the
/// cell's own letter, or one less for any letter while some is left.
pub open spec fn step_ok(b: Board, prev: LetterSpace, next: LetterSpace) -> bool {
    ||| is_natural(b, next) && next.swaps == prev.swaps
    ||| prev.swaps > 0 && next.swaps == prev.swaps - 1
}

/// The word a path spells.
pub open spec fn spelled(p: Seq<LetterSpace>) -> Seq<char> {
    p.map_values(|x: LetterSpace| x.character)
}

/// No cell is used twice.
pub open spec fn cells_distinct(p: Seq<LetterSpace>) -> bool {
    forall|i: int, j: int| 0 <= i < j < p.len() ==> !same_cell(#[trigger] p[i], #[trigger] p[j])
}

/// Each step touches the one before and passes the swap budget on correctly.
pub open spec fn steps_linked(b: Board, p: Seq<LetterSpace>) -> bool {
    forall|i: int| 0 < i < p.len() ==> adjacent(p[i - 1], #[trigger] p[i]) && step_ok(b, p[i - 1], p[i])
}

/// A path the search may hold: it starts on its cell's own letter with budget
/// `s`, stays on the board, uses no cell twice, moves between touching cells,
/// spends the budget as `step_ok` says, and spells a prefix of the dictionary.
pub open spec fn is_trail(b: Board, root: LetterNode, s: nat, p: Seq<LetterSpace>) -> bool {
    &&& p.len() > 0 ==> is_natural(b, p[0]) && p[0].swaps == s
    &&& forall|i: int| 0 <= i < p.len() ==> in_bounds(b, #[trigger] p[i])
    &&& cells_distinct(p)
    &&& steps_linked(b, p)
    &&& node_at(root, spelled(p)) is Some
}

/// A path the search emits: a non-empty trail that spells a dictionary word.
pub open spec fn is_word_path(b: Board, root: LetterNode, s: nat, p: Seq<LetterSpace>) -> bool {
    &&& p.len() > 0
    &&& is_trail(b, root, s, p)
    &&& is_word_at(root, spelled(p))
}

/// The path begins on cell `(r, c)`.
pub open spec fn starts_at(p: Seq<LetterSpace>, r: int, c: int) -> bool {
    p.len() > 0 && p[0].row == r && p[0].col == c
}

/// The number of steps whose letter is not their cell's own.
pub open spec fn swaps_used(b: Board, p: Seq<LetterSpace>) -> nat
    decreases p.len(),
{
    if p.len() == 0 {
        0
    } else {
        swaps_used(b, p.drop_last()) + if is_natural(b, p.last()) { 0nat } else { 1nat }
    }
}

pub proof fn lemma_spelled(p: Seq<LetterSpace>)
    ensures
        spelled(p).len() == p.len(),
        forall|i: int| 0 <= i < p.len() ==> #[trigger] spelled(p)[i] == p[i].character,
{
}

pub proof fn lemma_spelled_push(p: Seq<LetterSpace>, y: LetterSpace)
    ensures
        spelled(p.push(y)) == spelled(p).push(y.character),
{
    assert(spelled(p.push(y)) =~= spelled(p).push(y.character));
}

pub proof fn lemma_spelled_take(p: Seq<LetterSpace>, k: int)
    requires
        0 <= k <= p.len(),
    ensures
        spelled(p.take(k)) == spelled(p).take(k),
{
    assert(spelled(p.take(k)) =~= spelled(p).take(k));
}

/// Every prefix of a trail is a trail.
pub proof fn lemma_trail_prefix(b: Board, root: LetterNode, s: nat, p: Seq<LetterSpace>, k: int)
    requires
        is_trail(b, root, s, p),
        0 <= k <= p.len(),
    ensures
        is_trail(b, root, s, p.take(k)),
{
    let q = p.take(k);
    assert forall|i: int, j: int| 0 <= i < j < q.len() implies !same_cell(#[trigger] q[i], #[trigger] q[j]) by {
        assert(q[i] == p[i] && q[j] == p[j]);
    }
    assert forall|i: int| 0 < i < q.len() implies adjacent(q[i - 1], #[trigger] q[i]) && step_ok(b, q[i - 1], q[i]) by {
        assert(q[i] == p[i] && q[i - 1] == p[i - 1]);
    }
    assert forall|i: int| 0 <= i < q.len() implies in_bounds(b, #[trigger] q[i]) by {
        assert(q[i] == p[i]);
    }
    lemma_spelled_take(p, k);
    lemma_spelled(p);
    if node_at(root, spelled(q)) is None {
        assert(spelled(p).take(spelled(q).len() as int) == spelled(q));
        lemma_node_at_none_extends(root, spelled(q), spelled(p));
    }
}

/// When a non-empty trail grows by one step.
pub proof fn lemma_trail_push(b: Board, root: LetterNode, s: nat, p: Seq<LetterSpace>, y: LetterSpace)
    requires
        is_trail(b, root, s, p),
        p.len() > 0,
    ensures
        is_trail(b, root, s, p.push(y)) <==> {
            &&& in_bounds(b, y)
            &&& forall|i: int| 0 <= i < p.len() ==> !same_cell(#[trigger] p[i], y)
            &&& adjacent(p.last(), y)
            &&& step_ok(b, p.last(), y)
            &&& child_of(node_at(root, spelled(p)).unwrap(), y.character) is Some
        },
{
    let q = p.push(y);
    lemma_spelled_push(p, y);
    lemma_node_at_push(root, spelled(p), y.character);
    if is_trail(b, root, s, q) {
        assert forall|i: int| 0 <= i < p.len() implies !same_cell(#[trigger] p[i], y) by {
            assert(q[i] == p[i] && q[p.len() as int] == y);
        }
        assert(q[p.len() as int] == y);
        assert(q[p.len() - 1] == p.last());
    }
    if in_bounds(b, y) && (forall|i: int| 0 <= i < p.len() ==> !same_cell(#[trigger] p[i], y))
        && adjacent(p.last(), y) && step_ok(b, p.last(), y)
        && child_of(node_at(root, spelled(p)).unwrap(), y.character) is Some {
        assert forall|i: int, j: int| 0 <= i < j < q.len() implies !same_cell(#[trigger] q[i], #[trigger] q[j]) by {
            if j == p.len() {
                assert(q[i] == p[i]);
            } else {
                assert(q[i] == p[i] && q[j] == p[j]);
            }
        }
        assert forall|i: int| 0 < i < q.len() implies adjacent(q[i - 1], #[trigger] q[i]) && step_ok(b, q[i - 1], q[i]) by {
            if i < p.len() {
                assert(q[i] == p[i] && q[i - 1] == p[i - 1]);
            } else {
                assert(q[i - 1] == p.last());
            }
        }
        assert forall|i: int| 0 <= i < q.len() implies in_bounds(b, #[trigger] q[i]) by {
            if i < p.len() {
                assert(q[i] == p[i]);
            }
        }
        assert(q[0] == p[0]);
    }
}

/// When a one-step path is a trail.
pub proof fn lemma_trail_single(b: Board, root: LetterNode, s: nat, y: LetterSpace)
    ensures
        is_trail(b, root, s, seq![y]) <==> {
            &&& in_bounds(b, y)
            &&& is_natural(b, y)
            &&& y.swaps == s
            &&& child_of(root, y.character) is Some
        },
{
    let q = seq![y];
    lemma_spelled_push(Seq::<LetterSpace>::empty(), y);
    assert(Seq::<LetterSpace>::empty().push(y) == q);
    assert(spelled(Seq::<LetterSpace>::empty()) =~= Seq::<char>::empty());
    lemma_node_at_push(root, Seq::<char>::empty(), y.character);
    assert(q[0] == y);
}

/// Along a trail, the letters swapped so far and the budget left add up to
/// at most the starting budget.
pub proof fn lemma_swaps_used_bound(b: Board, root: LetterNode, s: nat, p: Seq<LetterSpace>)
    requires
        is_trail(b, root, s, p),
        p.len() > 0,
    ensures
        swaps_used(b, p) + p.last().swaps <= s,
    decreases p.len(),
{
    if p.len() == 1 {
        assert(p.drop_last().len() == 0);
    } else {
        let q = p.drop_last();
        lemma_trail_prefix(b, root, s, p, p.len() - 1);
        assert(p.take(p.len() - 1) == q);
        lemma_swaps_used_bound(b, root, s, q);
        assert(q.last() == p[p.len() - 2]);
        assert(step_ok(b, p[p.len() - 2], p[p.len() - 1]));
    }
}

/// A non-empty path of touching, unused cells that spells a dictionary word
/// with the cells' own letters is, with its budget set to 0, a word path.
pub proof fn lemma_natural_path_is_word_path(b: Board, tree: WordTree, p: Seq<LetterSpace>)
    requires
        p.len() > 0,
        forall|i: int| 0 <= i < p.len() ==> in_bounds(b, #[trigger] p[i]) && is_natural(b, p[i]),
        cells_distinct(p),
        forall|i: int| 0 < i < p.len() ==> adjacent(p[i - 1], #[trigger] p[i]),
        tree@.contains(spelled(p)),
    ensures
        exists|q: Seq<LetterSpace>|
            is_word_path(b, tree.root_node(), 0, q) && spelled(q) == spelled(p) && q.len() == p.len()
                && forall|i: int| 0 <= i < q.len() ==> #[trigger] same_cell(q[i], p[i]),
{
    let root = tree.root_node();
    let q = p.map_values(|x: LetterSpace| LetterSpace { swaps: 0, ..x });
    assert(spelled(q) =~= spelled(p));
    assert forall|i: int, j: int| 0 <= i < j < q.len() implies !same_cell(#[trigger] q[i], #[trigger] q[j]) by {
        assert(!same_cell(p[i], p[j]));
    }
    assert forall|i: int| 0 < i < q.len() implies adjacent(q[i - 1], #[trigger] q[i]) && step_ok(b, q[i - 1], q[i]) by {
        assert(adjacent(p[i - 1], p[i]));
        assert(is_natural(b, p[i]));
    }
    assert forall|i: int| 0 <= i < q.len() implies in_bounds(b, #[trigger] q[i]) by {
        assert(in_bounds(b, p[i]));
    }
    assert(is_natural(b, p[0]));
    assert(is_word_at(root, spelled(p)));
    assert(is_word_path(b, root, 0, q));
    assert forall|i: int| 0 <= i < q.len() implies #[trigger] same_cell(q[i], p[i]) by {}
}

/// A word path with budget `k` is, with one more unit of budget at every
/// step, a word path with budget `k + 1` on the same cells and letters.
pub proof fn lemma_raise_budget(b: Board, root: LetterNode, k: nat, p: Seq<LetterSpace>)
    requires
        k < usize::MAX,
        is_word_path(b, root, k, p),
    ensures
        exists|q: Seq<LetterSpace>| is_word_path(b, root, k + 1, q) && spelled(q) == spelled(p),
{
    let q = p.map_values(|x: LetterSpace| LetterSpace { swaps: (x.swaps + 1) as usize, ..x });
    assert(spelled(q) =~= spelled(p));
    assert forall|i: int| 0 <= i < p.len() implies (#[trigger] p[i]).swaps < usize::MAX by {
        lemma_swaps_fit(b, root, k, p, i);
    }
    assert forall|i: int, j: int| 0 <= i < j < q.len() implies !same_cell(#[trigger] q[i], #[trigger] q[j]) by {
        assert(!same_cell(p[i], p[j]));
    }
    assert forall|i: int| 0 < i < q.len() implies adjacent(q[i - 1], #[trigger] q[i]) && step_ok(b, q[i - 1], q[i]) by {
        assert(adjacent(p[i - 1], p[i]) && step_ok(b, p[i - 1], p[i]));
        assert(p[i].swaps < usize::MAX && p[i - 1].swaps < usize::MAX);
    }
    assert forall|i: int| 0 <= i < q.len() implies in_bounds(b, #[trigger] q[i]) by {
        assert(in_bounds(b, p[i]));
    }
    assert(p[0].swaps < usize::MAX);
    assert(is_word_path(b, root, k + 1, q));
}

/// Along a trail the budget never grows, so it stays at most `s`.
proof fn lemma_swaps_fit(b: Board, root: LetterNode, s: nat, p: Seq<LetterSpace>, i: int)
    requires
        is_trail(b, root, s, p),
        0 <= i < p.len(),
    ensures
        p[i].swaps <= p[0].swaps,
    decreases i,
{
    if i > 0 {
        lemma_swaps_fit(b, root, s, p, i - 1);
        assert(step_ok(b, p[i - 1], p[i]));
    }
}

/// A path that uses no cell twice has at most `size * size` steps.
pub proof fn lemma_path_len_bound(b: Board, p: Seq<LetterSpace>)
    requires
        cells_distinct(p),
        forall|i: int| 0 <= i < p.len() ==> in_bounds(b, #[trigger] p[i]),
    ensures
        p.len() <= b.spec_size() * b.spec_size(),
{
    let n = b.spec_size() as int;
    let idx = Seq::new(p.len(), |i: int| p[i].row * n + p[i].col);
    assert(idx.no_duplicates()) by {
        assert forall|i: int, j: int| 0 <= i < idx.len() && 0 <= j < idx.len() && i != j
            implies idx[i] != idx[j] by {
            let (a, c) = if i < j { (i, j) } else { (j, i) };
            assert(!same_cell(p[a], p[c]));
            assert(in_bounds(b, p[a]) && in_bounds(b, p[c]));
            let r1 = p[a].row as int;
            let c1 = p[a].col as int;
            let r2 = p[c].row as int;
            let c2 = p[c].col as int;
            if r1 * n + c1 == r2 * n + c2 {
                assert(r1 == r2 && c1 == c2) by (nonlinear_arith)
                    requires
                        r1 * n + c1 == r2 * n + c2,
                        0 <= c1 < n,
                        0 <= c2 < n,
                        0 <= r1,
                        0 <= r2,
                ;
            }
        }
    }
    idx.unique_seq_to_set();
    let range = vstd::set_lib::set_int_range(0, n * n);
    assert(n * n >= 0) by (nonlinear_arith);
    vstd::set_lib::lemma_int_range(0, n * n);
    assert(idx.to_set().subset_of(range)) by {
        assert forall|v: int| idx.to_set().contains(v) implies range.contains(v) by {
            let i = choose|i: int| 0 <= i < idx.len() && idx[i] == v;
            assert(in_bounds(b, p[i]));
            let r1 = p[i].row as int;
            let c1 = p[i].col as int;
            assert(0 <= r1 * n + c1 < n * n) by (nonlinear_arith)
                requires
                    0 <= r1 < n,
                    0 <= c1 < n,
            ;
        }
    }
    vstd::set_lib::lemma_len_subset(idx.to_set(), range);
}

} // verus!
