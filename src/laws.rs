use vstd::prelude::*;
use crate::board::{Board, LetterSpace, is_emission};
use crate::path::{
    adjacent, cells_distinct, in_bounds, is_natural, is_word_path, same_cell, spelled, swaps_used,
    lemma_natural_path_is_word_path, lemma_raise_budget, lemma_swaps_used_bound,
};
use crate::word_tree::{LetterNode, WordTree};

verus! {

/// Every path that the search emits spells a dictionary word, uses no cell
/// twice, and moves only between touching cells.
pub proof fn lemma_emitted_paths_sound(b: Board, tree: WordTree, s: nat, e: Seq<Seq<LetterSpace>>, i: int)
    requires
        is_emission(b, tree.root_node(), s, e),
        0 <= i < e.len(),
    ensures
        tree@.contains(spelled(e[i])),
        forall|a: int, c: int| 0 <= a < c < e[i].len() ==> !same_cell(#[trigger] e[i][a], #[trigger] e[i][c]),
        forall|a: int| 0 < a < e[i].len() ==> adjacent(e[i][a - 1], #[trigger] e[i][a]),
{
    assert(is_word_path(b, tree.root_node(), s, e[i]));
}

/// Every path that the search emits with budget `s` has at most `s` steps
/// whose letter is not their cell's own.
pub proof fn lemma_emitted_swaps_within_budget(b: Board, root: LetterNode, s: nat, e: Seq<Seq<LetterSpace>>, i: int)
    requires
        is_emission(b, root, s, e),
        0 <= i < e.len(),
    ensures
        swaps_used(b, e[i]) <= s,
{
    assert(is_word_path(b, root, s, e[i]));
    lemma_swaps_used_bound(b, root, s, e[i]);
}

/// Without swaps, every dictionary word that a path of touching, unused
/// cells spells with the cells' own letters is spelled by some emitted path.
pub proof fn lemma_emission_complete_without_swaps(
    b: Board,
    tree: WordTree,
    e: Seq<Seq<LetterSpace>>,
    p: Seq<LetterSpace>,
)
    requires
        is_emission(b, tree.root_node(), 0, e),
        p.len() > 0,
        forall|i: int| 0 <= i < p.len() ==> in_bounds(b, #[trigger] p[i]) && is_natural(b, p[i]),
        cells_distinct(p),
        forall|i: int| 0 < i < p.len() ==> adjacent(p[i - 1], #[trigger] p[i]),
        tree@.contains(spelled(p)),
    ensures
        exists|i: int| 0 <= i < e.len() && spelled(e[i]) == spelled(p),
{
    lemma_natural_path_is_word_path(b, tree, p);
    let q = choose|q: Seq<LetterSpace>|
        is_word_path(b, tree.root_node(), 0, q) && spelled(q) == spelled(p) && q.len() == p.len()
            && forall|i: int| 0 <= i < q.len() ==> #[trigger] same_cell(q[i], p[i]);
    assert(e.contains(q));
    let i = choose|i: int| 0 <= i < e.len() && e[i] == q;
    assert(spelled(e[i]) == spelled(p));
}

/// Every word that the search emits with budget `k` it also emits with
/// budget `k + 1` (a budget is a `usize`, so `k + 1` must be one too).
pub proof fn lemma_emission_grows_with_budget(
    b: Board,
    root: LetterNode,
    k: nat,
    e1: Seq<Seq<LetterSpace>>,
    e2: Seq<Seq<LetterSpace>>,
    i: int,
)
    requires
        k < usize::MAX,
        is_emission(b, root, k, e1),
        is_emission(b, root, k + 1, e2),
        0 <= i < e1.len(),
    ensures
        exists|j: int| 0 <= j < e2.len() && spelled(e2[j]) == spelled(e1[i]),
{
    assert(is_word_path(b, root, k, e1[i]));
    lemma_raise_budget(b, root, k, e1[i]);
    let k1: nat = k + 1;
    let q = choose|q: Seq<LetterSpace>| #[trigger] is_word_path(b, root, k1, q) && spelled(q) == spelled(e1[i]);
    assert(e2.contains(q));
    let j = choose|j: int| 0 <= j < e2.len() && e2[j] == q;
    assert(spelled(e2[j]) == spelled(e1[i]));
}

} // verus!
