use vstd::prelude::*;
use crate::letter::{Letter, Modifier, is_lower_letter, token_modifiers, spec_letter_value, letter_value, lemma_letter_value_defined};
use crate::text::{lines, lines_of, tokens, tokens_of, views, lemma_views};
use crate::word_tree::{LetterNode, WordTree, child_of, node_at, is_word_at, admissible, lemma_node_at_push};
use crate::word_result::{WordResult, Swap, Space};
use crate::double_stack::{DoubleStack, top_grown, pushed, lemma_top_grown_refl, lemma_top_grown_push, lemma_top_grown_trans};
use crate::path::{
    is_trail, is_word_path, starts_at, spelled, same_cell, adjacent, in_bounds, is_natural, step_ok,
    lemma_trail_push, lemma_trail_single, lemma_trail_prefix, lemma_spelled_push, lemma_spelled,
    lemma_path_len_bound,
};

verus! {

/// A square grid of lettered cells, with the swap budget that the search uses.
pub struct Board {
    size: usize,
    grid: Vec<Vec<Letter>>,
    swaps: usize,
    multithreading: bool,
}

/// One step of a path: the letter it contributes, the cell it stands on, and
/// the swap budget left for the steps after it.
#[derive(Clone, Copy, PartialEq, Eq, Structural, Debug)]
pub struct LetterSpace {
    pub character: char,
    pub row: usize,
    pub col: usize,
    pub swaps: usize,
}

impl LetterSpace {
    pub fn new(character: char, row: usize, col: usize, swaps: usize) -> (r: LetterSpace)
        ensures
            r == (LetterSpace { character, row, col, swaps }),
    {
        LetterSpace { character, row, col, swaps }
    }

    pub fn character(&self) -> (r: char)
        ensures
            r == self.character,
    {
        self.character
    }

    pub fn row(&self) -> (r: usize)
        ensures
            r == self.row,
    {
        self.row
    }

    pub fn col(&self) -> (r: usize)
        ensures
            r == self.col,
    {
        self.col
    }

    pub fn swaps(&self) -> (r: usize)
        ensures
            r == self.swaps,
    {
        self.swaps
    }
}

/// An item of the search's work stack: advance the path by one step, or
/// take the last step back and return to the trie node it started from.
#[derive(Clone, Copy)]
pub enum StackElement<'a> {
    LetterStep(LetterSpace),
    RemoveOp(&'a LetterNode),
}

/// The `i`-th letter of the alphabet `a..z`.
pub open spec fn alphabet(i: int) -> char {
    seq!['a', 'b', 'c', 'd', 'e', 'f', 'g', 'h', 'i', 'j', 'k', 'l', 'm', 'n', 'o', 'p', 'q', 'r',
        's', 't', 'u', 'v', 'w', 'x', 'y', 'z'][i]
}

pub proof fn lemma_alphabet(c: char)
    requires
        is_lower_letter(c),
    ensures
        exists|i: int| 0 <= i < 26 && alphabet(i) == c,
{
    let u = c as u32;
    assert(97 <= u <= 122);
    assert(alphabet(u as int - 97) == c);
}

fn nth_letter(i: usize) -> (c: char)
    requires
        i < 26,
    ensures
        c == alphabet(i as int),
        c as int == 97 + i,
        is_lower_letter(c),
{
    match i {
        0 => 'a',
        1 => 'b',
        2 => 'c',
        3 => 'd',
        4 => 'e',
        5 => 'f',
        6 => 'g',
        7 => 'h',
        8 => 'i',
        9 => 'j',
        10 => 'k',
        11 => 'l',
        12 => 'm',
        13 => 'n',
        14 => 'o',
        15 => 'p',
        16 => 'q',
        17 => 'r',
        18 => 's',
        19 => 't',
        20 => 'u',
        21 => 'v',
        22 => 'w',
        23 => 'x',
        24 => 'y',
        _ => 'z',
    }
}

/// Pushes onto the topmost frame one step to cell `(row, col)` with budget
/// `swaps` for every letter `a..z` that continues the prefix at `node`.
fn add_swap_elements<'a>(
    node: &LetterNode,
    stack: &mut DoubleStack<StackElement<'a>>,
    row: usize,
    col: usize,
    swaps: usize,
)
    requires
        old(stack)@.len() > 0,
    ensures
        top_grown(old(stack)@, final(stack)@),
        pushed(old(stack)@, final(stack)@).len() <= 26,
        pushed(old(stack)@, final(stack)@).no_duplicates(),
        forall|j: int|
            0 <= j < pushed(old(stack)@, final(stack)@).len() ==> (#[trigger] pushed(
                old(stack)@,
                final(stack)@,
            )[j] matches StackElement::LetterStep(y) && y.row == row && y.col == col && y.swaps
                == swaps && child_of(*node, y.character) is Some),
        forall|c: char|
            is_lower_letter(c) && #[trigger] child_of(*node, c) is Some ==> pushed(
                old(stack)@,
                final(stack)@,
            ).contains(StackElement::LetterStep(LetterSpace { character: c, row, col, swaps })),
{
    let ghost start = stack@;
    proof {
        lemma_top_grown_refl(start);
    }
    let mut i: usize = 0;
    while i < 26
        invariant
            i <= 26,
            top_grown(start, stack@),
            pushed(start, stack@).len() <= i,
            pushed(start, stack@).no_duplicates(),
            forall|j: int|
                0 <= j < pushed(start, stack@).len() ==> (#[trigger] pushed(start, stack@)[j] matches StackElement::LetterStep(y)
                    && y.row == row && y.col == col && y.swaps == swaps && child_of(*node, y.character) is Some
                    && (y.character as int) < 97 + i),
            forall|k: int|
                0 <= k < i && #[trigger] child_of(*node, alphabet(k)) is Some ==> pushed(start, stack@).contains(
                    StackElement::LetterStep(LetterSpace { character: alphabet(k), row, col, swaps }),
                ),
        decreases 26 - i,
    {
        let c = nth_letter(i);
        let ghost before = stack@;
        if node.get_child_from_letter(c).is_some() {
            let e = StackElement::LetterStep(LetterSpace { character: c, row, col, swaps });
            stack.push_simple(e);
            proof {
                lemma_top_grown_push(before, e);
                lemma_top_grown_trans(start, before, stack@);
                assert(pushed(start, stack@) == pushed(start, before).push(e));
                assert forall|a: int, b: int| 0 <= a < b < pushed(start, stack@).len() implies pushed(start, stack@)[a] != pushed(start, stack@)[b] by {
                    if b == pushed(start, stack@).len() - 1 {
                        assert(pushed(start, stack@)[a] == pushed(start, before)[a]);
                    } else {
                        assert(pushed(start, stack@)[a] == pushed(start, before)[a]);
                        assert(pushed(start, stack@)[b] == pushed(start, before)[b]);
                    }
                }
                assert forall|j: int| 0 <= j < pushed(start, stack@).len() implies (#[trigger] pushed(start, stack@)[j] matches StackElement::LetterStep(y)
                    && y.row == row && y.col == col && y.swaps == swaps && child_of(*node, y.character) is Some
                    && (y.character as int) < 97 + i + 1) by {
                    if j < pushed(start, before).len() {
                        assert(pushed(start, stack@)[j] == pushed(start, before)[j]);
                    }
                }
                assert forall|k: int|
                    0 <= k < i + 1 && #[trigger] child_of(*node, alphabet(k)) is Some implies pushed(start, stack@).contains(
                        StackElement::LetterStep(LetterSpace { character: alphabet(k), row, col, swaps }),
                    ) by {
                    if k < i {
                        let w = choose|w: int| 0 <= w < pushed(start, before).len() && pushed(start, before)[w]
                            == StackElement::LetterStep(LetterSpace { character: alphabet(k), row, col, swaps });
                        assert(pushed(start, stack@)[w] == pushed(start, before)[w]);
                    } else {
                        assert(pushed(start, stack@)[pushed(start, stack@).len() - 1] == e);
                    }
                }
            }
        }
        i = i + 1;
    }
    assert forall|c: char|
        is_lower_letter(c) && #[trigger] child_of(*node, c) is Some implies pushed(start, stack@).contains(
            StackElement::LetterStep(LetterSpace { character: c, row, col, swaps }),
        ) by {
        lemma_alphabet(c);
        let k = choose|k: int| 0 <= k < 26 && alphabet(k) == c;
    }
}

/// Row offset of `y` from `x`, shifted to `0..3` for touching cells.
pub open spec fn offset_row(x: LetterSpace, y: LetterSpace) -> int {
    y.row - x.row + 1
}

/// Column offset of `y` from `x`, shifted to `0..3` for touching cells.
pub open spec fn offset_col(x: LetterSpace, y: LetterSpace) -> int {
    y.col - x.col + 1
}

/// Every step pushed from `start` to `cur` extends `path` to a trail.
pub open spec fn pushed_extend<'a>(
    b: Board,
    root: LetterNode,
    s: nat,
    path: Seq<LetterSpace>,
    start: Seq<Seq<StackElement<'a>>>,
    cur: Seq<Seq<StackElement<'a>>>,
) -> bool {
    forall|j: int|
        0 <= j < pushed(start, cur).len() ==> (#[trigger] pushed(start, cur)[j] matches StackElement::LetterStep(y)
            && is_trail(b, root, s, path.push(y)))
}

/// Every extension of `path` to a cell before offset `(dr, dc)` was pushed.
pub open spec fn pushed_cover<'a>(
    b: Board,
    root: LetterNode,
    s: nat,
    path: Seq<LetterSpace>,
    start: Seq<Seq<StackElement<'a>>>,
    cur: Seq<Seq<StackElement<'a>>>,
    dr: int,
    dc: int,
) -> bool {
    forall|y: LetterSpace|
        #[trigger] is_trail(b, root, s, path.push(y)) && is_lower_letter(y.character) && (offset_row(
            path.last(),
            y,
        ) < dr || (offset_row(path.last(), y) == dr && offset_col(path.last(), y) < dc))
            ==> pushed(start, cur).contains(StackElement::LetterStep(y))
}

/// Every step pushed from `start` to `cur` goes to a cell before offset
/// `(dr, dc)` from `last`.
pub open spec fn pushed_before<'a>(
    last: LetterSpace,
    start: Seq<Seq<StackElement<'a>>>,
    cur: Seq<Seq<StackElement<'a>>>,
    dr: int,
    dc: int,
) -> bool {
    forall|j: int|
        0 <= j < pushed(start, cur).len() ==> (#[trigger] pushed(start, cur)[j] matches StackElement::LetterStep(y)
            && (offset_row(last, y) < dr || (offset_row(last, y) == dr && offset_col(last, y) < dc)))
}

/// Every entry of `q` is a step to cell `(r, c)` with budget `v`.
pub open spec fn steps_at<'a>(q: Seq<StackElement<'a>>, r: int, c: int, v: int) -> bool {
    forall|j: int| 0 <= j < q.len() ==> (#[trigger] q[j] matches StackElement::LetterStep(y) && y.row == r && y.col == c && y.swaps == v)
}

pub proof fn lemma_no_dup_concat<T>(a: Seq<T>, b: Seq<T>)
    requires
        a.no_duplicates(),
        b.no_duplicates(),
        forall|i: int, j: int| 0 <= i < a.len() && 0 <= j < b.len() ==> a[i] != b[j],
    ensures
        (a + b).no_duplicates(),
{
    assert forall|i: int, j: int| 0 <= i < j < (a + b).len() implies (a + b)[i] != (a + b)[j] by {
        if j < a.len() {
        } else if i >= a.len() {
            assert((a + b)[i] == b[i - a.len()] && (a + b)[j] == b[j - a.len()]);
        } else {
            assert((a + b)[j] == b[j - a.len()]);
        }
    }
}

/// The pushes for one cell keep the pushed steps free of repeats.
pub proof fn lemma_cell_pushes_distinct<'a>(
    last: LetterSpace,
    a: Seq<StackElement<'a>>,
    b: Seq<StackElement<'a>>,
    c: Seq<StackElement<'a>>,
    dr: int,
    dc: int,
    nr: int,
    nc: int,
)
    requires
        a.no_duplicates(),
        forall|j: int| 0 <= j < a.len() ==> (#[trigger] a[j] matches StackElement::LetterStep(y)
            && (offset_row(last, y) < dr || (offset_row(last, y) == dr && offset_col(last, y) < dc))),
        b.no_duplicates(),
        steps_at(b, nr, nc, last.swaps - 1),
        c.len() <= 1,
        steps_at(c, nr, nc, last.swaps as int),
        nr - last.row + 1 == dr,
        nc - last.col + 1 == dc,
    ensures
        (a + (b + c)).no_duplicates(),
        forall|j: int| 0 <= j < (a + (b + c)).len() ==> (#[trigger] (a + (b + c))[j] matches StackElement::LetterStep(y)
            && (offset_row(last, y) < dr || (offset_row(last, y) == dr && offset_col(last, y) < dc + 1))),
{
    let bc = b + c;
    assert forall|i: int, j: int| 0 <= i < b.len() && 0 <= j < c.len() implies b[i] != c[j] by {}
    lemma_no_dup_concat(b, c);
    assert forall|j: int| 0 <= j < bc.len() implies (#[trigger] bc[j] matches StackElement::LetterStep(y) && y.row == nr && y.col == nc) by {
        if j < b.len() {
            assert(bc[j] == b[j]);
        } else {
            assert(bc[j] == c[j - b.len()]);
        }
    }
    assert forall|i: int, j: int| 0 <= i < a.len() && 0 <= j < bc.len() implies a[i] != bc[j] by {
        assert(bc[j] matches StackElement::LetterStep(y) && y.row == nr && y.col == nc);
    }
    lemma_no_dup_concat(a, bc);
    assert forall|j: int| 0 <= j < (a + bc).len() implies (#[trigger] (a + bc)[j] matches StackElement::LetterStep(y)
        && (offset_row(last, y) < dr || (offset_row(last, y) == dr && offset_col(last, y) < dc + 1))) by {
        if j < a.len() {
            assert((a + bc)[j] == a[j]);
        } else {
            assert((a + bc)[j] == bc[j - a.len()]);
            assert(bc[j - a.len()] matches StackElement::LetterStep(y) && y.row == nr && y.col == nc);
        }
    }
}

pub proof fn lemma_contains_concat<T>(a: Seq<T>, b: Seq<T>, e: T)
    ensures
        a.contains(e) ==> (a + b).contains(e),
        b.contains(e) ==> (a + b).contains(e),
{
    if a.contains(e) {
        let i = choose|i: int| 0 <= i < a.len() && a[i] == e;
        assert((a + b)[i] == e);
    }
    if b.contains(e) {
        let i = choose|i: int| 0 <= i < b.len() && b[i] == e;
        assert((a + b)[a.len() + i] == e);
    }
}

/// How a cell multiplies its letter: by 2 for a double letter, by 3 for a
/// triple letter, by both when it carries both.
pub open spec fn letter_mult(cell: Letter) -> nat {
    (if cell.has_modifier(Modifier::DoubleLetter) { 2nat } else { 1nat }) * (if cell.has_modifier(
        Modifier::TripleLetter,
    ) { 3nat } else { 1nat })
}

/// The points of one step: its letter's value times its cell's multiplier.
/// The modifiers are those of the cell, whatever letter the step contributes.
pub open spec fn step_points(b: Board, x: LetterSpace) -> nat {
    spec_letter_value(x.character).unwrap() * letter_mult(b.cell(x.row as int, x.col as int))
}

/// The sum of the step points of a path.
pub open spec fn letter_sum(b: Board, p: Seq<LetterSpace>) -> nat
    decreases p.len(),
{
    if p.len() == 0 {
        0
    } else {
        letter_sum(b, p.drop_last()) + step_points(b, p.last())
    }
}

/// Some step of the path stands on a double-word cell.
pub open spec fn any_double_word(b: Board, p: Seq<LetterSpace>) -> bool {
    exists|i: int| 0 <= i < p.len() && b.cell(p[i].row as int, p[i].col as int).has_modifier(Modifier::DoubleWord)
}

/// The score of a path: the letter sum, doubled if any cell is a double
/// word, plus 10 for six steps or more (that bonus is not doubled).
pub open spec fn path_score(b: Board, p: Seq<LetterSpace>) -> nat {
    letter_sum(b, p) * (if any_double_word(b, p) { 2nat } else { 1nat }) + (if p.len() >= 6 { 10nat } else { 0nat })
}

/// `n`, or the largest `usize` where `n` is larger.
pub open spec fn saturate(n: nat) -> nat {
    if n <= usize::MAX { n } else { usize::MAX as nat }
}

/// The steps of `p` stand on the board and carry letters `a..z`.
pub open spec fn scorable(b: Board, p: Seq<LetterSpace>) -> bool {
    forall|i: int| 0 <= i < p.len() ==> in_bounds(b, #[trigger] p[i]) && is_lower_letter(p[i].character)
}

/// The score that `get_point_total` gives.
pub open spec fn score_of(b: Board, p: Seq<LetterSpace>) -> nat {
    saturate(path_score(b, p))
}

/// The paths held by a vector of path vectors.
pub open spec fn path_views(w: Seq<Vec<LetterSpace>>) -> Seq<Seq<LetterSpace>> {
    w.map_values(|v: Vec<LetterSpace>| v@)
}

/// `sel` names, for each entry of `r`, a distinct path of `e` that it holds.
pub open spec fn picks(e: Seq<Seq<LetterSpace>>, r: Seq<(Vec<LetterSpace>, usize)>, sel: Seq<int>) -> bool {
    &&& sel.len() == r.len()
    &&& sel.no_duplicates()
    &&& forall|i: int| 0 <= i < r.len() ==> 0 <= #[trigger] sel[i] < e.len() && r[i].0@ == e[sel[i]]
}

/// `r` is a top-`k` selection from the paths `e`: `min(k, |e|)` entries, each
/// a distinct path of `e` with its score, by score from high to low and, at
/// equal scores, in the order of `e`; and no path left out scores more than
/// any entry kept.
pub open spec fn is_top_k(b: Board, e: Seq<Seq<LetterSpace>>, k: nat, r: Seq<(Vec<LetterSpace>, usize)>) -> bool {
    &&& r.len() == (if k < e.len() { k } else { e.len() })
    &&& forall|i: int| 0 <= i < r.len() ==> (#[trigger] r[i]).1 == score_of(b, r[i].0@)
    &&& forall|i: int, j: int| 0 <= i < j < r.len() ==> (#[trigger] r[i]).1 >= (#[trigger] r[j]).1
    &&& exists|sel: Seq<int>|
        picks(e, r, sel) && (forall|j: int|
            0 <= j < e.len() && !sel.contains(j) ==> forall|i: int|
                0 <= i < r.len() ==> score_of(b, #[trigger] e[j]) <= (#[trigger] r[i]).1) && forall|i: int, j: int|
            0 <= i < j < r.len() && (#[trigger] r[i]).1 == (#[trigger] r[j]).1 ==> sel[i] < sel[j]
}

/// Index of a lowest-scored entry: the first strictly below the entry at
/// `from`, scanning from the front, or `from` itself.
fn rescan_min(buf: &Vec<(Vec<LetterSpace>, usize)>, from: usize) -> (r: usize)
    requires
        from < buf@.len(),
    ensures
        r < buf@.len(),
        forall|s: int| 0 <= s < buf@.len() ==> buf@[s].1 >= buf@[r as int].1,
{
    let mut min_val = buf[from].1;
    let mut min_idx = from;
    let mut k: usize = 0;
    while k < buf.len()
        invariant
            k <= buf@.len(),
            min_idx < buf@.len(),
            min_val == buf@[min_idx as int].1,
            min_val <= buf@[from as int].1,
            forall|s: int| 0 <= s < k ==> buf@[s].1 >= min_val,
        decreases buf.len() - k,
    {
        if buf[k].1 < min_val {
            min_val = buf[k].1;
            min_idx = k;
        }
        k = k + 1;
    }
    min_idx
}

/// `perm` lists each index below `n` exactly once.
pub open spec fn is_permutation(perm: Seq<int>, n: nat) -> bool {
    &&& perm.len() == n
    &&& perm.no_duplicates()
    &&& forall|t: int| 0 <= t < n ==> 0 <= #[trigger] perm[t] < n
    &&& forall|s: int| 0 <= s < n ==> #[trigger] perm.contains(s)
}

/// Orders entries by score, high to low; entries of equal score keep their
/// order.
fn sort_by_score(buf: Vec<(Vec<LetterSpace>, usize)>) -> (r: Vec<(Vec<LetterSpace>, usize)>)
    ensures
        r@.len() == buf@.len(),
        forall|i: int, j: int| 0 <= i < j < r@.len() ==> (#[trigger] r@[i]).1 >= (#[trigger] r@[j]).1,
        exists|perm: Seq<int>|
            is_permutation(perm, buf@.len()) && (forall|t: int| 0 <= t < buf@.len() ==> #[trigger] r@[t] == buf@[perm[t]])
                && forall|a: int, c: int|
                0 <= a < c < r@.len() && (#[trigger] r@[a]).1 == (#[trigger] r@[c]).1 ==> perm[a] < perm[c],
{
    let ghost b = buf@;
    let mut out: Vec<(Vec<LetterSpace>, usize)> = Vec::new();
    let ghost mut perm: Seq<int> = Seq::empty();
    let ghost mut i: int = 0;
    for item in it: buf.into_iter()
        invariant
            it.seq() == b,
            i == it.index(),
            out@.len() == i,
            perm.len() == i,
            perm.no_duplicates(),
            forall|t: int| 0 <= t < i ==> 0 <= #[trigger] perm[t] < i,
            forall|s: int| 0 <= s < i ==> #[trigger] perm.contains(s),
            forall|t: int| 0 <= t < i ==> #[trigger] out@[t] == b[perm[t]],
            forall|a: int, c: int| 0 <= a < c < out@.len() ==> (#[trigger] out@[a]).1 >= (#[trigger] out@[c]).1,
            forall|a: int, c: int|
                0 <= a < c < out@.len() && (#[trigger] out@[a]).1 == (#[trigger] out@[c]).1 ==> perm[a] < perm[c],
    {
        let mut pos: usize = 0;
        while pos < out.len() && out[pos].1 >= item.1
            invariant
                pos <= out@.len(),
                forall|t: int| 0 <= t < pos ==> (#[trigger] out@[t]).1 >= item.1,
            decreases out.len() - pos,
        {
            pos = pos + 1;
        }
        let ghost old_out = out@;
        let ghost old_perm = perm;
        assert(item == b[i]);
        out.insert(pos, item);
        proof {
            perm = perm.insert(pos as int, i);
            assert(out@ == old_out.insert(pos as int, item));
            assert forall|t: int| 0 <= t < i + 1 implies #[trigger] out@[t] == b[perm[t]] by {
                if t < pos {
                    assert(out@[t] == old_out[t] && perm[t] == old_perm[t]);
                } else if t > pos {
                    assert(out@[t] == old_out[t - 1] && perm[t] == old_perm[t - 1]);
                }
            }
            assert forall|t: int| 0 <= t < i + 1 implies 0 <= #[trigger] perm[t] < i + 1 by {
                if t < pos {
                    assert(perm[t] == old_perm[t]);
                } else if t > pos {
                    assert(perm[t] == old_perm[t - 1]);
                }
            }
            assert(perm.no_duplicates()) by {
                assert forall|a: int, c: int| 0 <= a < c < perm.len() implies perm[a] != perm[c] by {
                    let oa = if a < pos { a } else { a - 1 };
                    let oc = if c < pos { c } else { c - 1 };
                    if a != pos && c != pos {
                        assert(perm[a] == old_perm[oa] && perm[c] == old_perm[oc]);
                    } else if a == pos {
                        assert(perm[c] == old_perm[oc]);
                    } else {
                        assert(perm[a] == old_perm[oa]);
                    }
                }
            }
            assert forall|v: int| 0 <= v < i + 1 implies #[trigger] perm.contains(v) by {
                if v == i {
                    assert(perm[pos as int] == v);
                } else {
                    assert(old_perm.contains(v));
                    let t0 = choose|t0: int| 0 <= t0 < i && #[trigger] old_perm[t0] == v;
                    if t0 < pos {
                        assert(perm[t0] == v);
                    } else {
                        assert(perm[t0 + 1] == v);
                    }
                }
            }
            assert forall|a: int, c: int| 0 <= a < c < out@.len() implies (#[trigger] out@[a]).1 >= (#[trigger] out@[c]).1 by {
                if c < pos {
                    assert(out@[a] == old_out[a] && out@[c] == old_out[c]);
                } else if c == pos {
                    assert(out@[a] == old_out[a]);
                } else if a == pos {
                    assert(out@[c] == old_out[c - 1]);
                    if pos < old_out.len() {
                        assert(old_out[pos as int].1 < item.1);
                        if c - 1 > pos {
                            assert(old_out[pos as int].1 >= old_out[c - 1].1);
                        }
                    }
                } else if a < pos {
                    assert(out@[a] == old_out[a] && out@[c] == old_out[c - 1]);
                } else {
                    assert(out@[a] == old_out[a - 1] && out@[c] == old_out[c - 1]);
                }
            }
            assert forall|a: int, c: int|
                0 <= a < c < out@.len() && (#[trigger] out@[a]).1 == (#[trigger] out@[c]).1 implies perm[a] < perm[c] by {
                if c < pos {
                    assert(out@[a] == old_out[a] && out@[c] == old_out[c]);
                    assert(perm[a] == old_perm[a] && perm[c] == old_perm[c]);
                } else if c == pos {
                    assert(perm[a] == old_perm[a]);
                } else if a == pos {
                    assert(out@[c] == old_out[c - 1]);
                    if pos < old_out.len() {
                        assert(old_out[pos as int].1 < item.1);
                        if c - 1 > pos {
                            assert(old_out[pos as int].1 >= old_out[c - 1].1);
                        }
                    }
                } else if a < pos {
                    assert(out@[a] == old_out[a] && out@[c] == old_out[c - 1]);
                    assert(perm[a] == old_perm[a] && perm[c] == old_perm[c - 1]);
                } else {
                    assert(out@[a] == old_out[a - 1] && out@[c] == old_out[c - 1]);
                    assert(perm[a] == old_perm[a - 1] && perm[c] == old_perm[c - 1]);
                }
            }
        }
        proof {
            i = i + 1;
        }
    }
    assert(is_permutation(perm, b.len()));
    assert(forall|t: int| 0 <= t < b.len() ==> #[trigger] out@[t] == b[perm[t]]);
    out
}

/// The cells of a path as a result lists them, rows and columns from 1.
pub open spec fn spaces_of(p: Seq<LetterSpace>) -> Seq<Space> {
    p.map_values(|x: LetterSpace| Space { character: x.character, row: (x.row + 1) as usize, col: (x.col + 1) as usize })
}

/// The swaps of a path, in path order: each step whose letter is not its
/// cell's own, rows and columns from 1.
pub open spec fn swaps_of(b: Board, p: Seq<LetterSpace>) -> Seq<Swap>
    decreases p.len(),
{
    if p.len() == 0 {
        Seq::empty()
    } else {
        let x = p.last();
        swaps_of(b, p.drop_last()) + if is_natural(b, x) {
            Seq::empty()
        } else {
            seq![Swap { original_char: b.letter_at(x.row as int, x.col as int), new_char: x.character, row: (x.row + 1) as usize, col: (x.col + 1) as usize }]
        }
    }
}

/// `e` is what the search emits on board `b`: every entry is a word path and
/// every word path is an entry.
pub open spec fn is_emission(b: Board, root: LetterNode, s: nat, e: Seq<Seq<LetterSpace>>) -> bool {
    &&& forall|i: int| 0 <= i < e.len() ==> is_word_path(b, root, s, #[trigger] e[i])
    &&& forall|q: Seq<LetterSpace>| #[trigger] is_word_path(b, root, s, q) ==> e.contains(q)
    &&& e.no_duplicates()
}

/// Cell `(r1, c1)` comes no later than `(r2, c2)` in row-major order.
pub open spec fn cell_le(r1: int, c1: int, r2: int, c2: int) -> bool {
    r1 < r2 || (r1 == r2 && c1 <= c2)
}

/// The paths come grouped by start cell, start cells in row-major order.
pub open spec fn starts_in_order(e: Seq<Seq<LetterSpace>>) -> bool {
    forall|i: int, j: int|
        0 <= i < j < e.len() ==> cell_le(
            (#[trigger] e[i])[0].row as int,
            e[i][0].col as int,
            (#[trigger] e[j])[0].row as int,
            e[j][0].col as int,
        )
}

/// `e` is what the search emits, in its order: each word path once, start
/// cells in row-major order, and every path after its word-path prefixes.
pub open spec fn is_search_output(b: Board, root: LetterNode, s: nat, e: Seq<Seq<LetterSpace>>) -> bool {
    &&& is_emission(b, root, s, e)
    &&& starts_in_order(e)
    &&& prefixes_first(b, root, s, e)
}

/// Appending the paths of one more start cell keeps the output free of
/// repeats and in order.
pub proof fn lemma_append_block(
    b: Board,
    root: LetterNode,
    s: nat,
    a: Seq<Seq<LetterSpace>>,
    c: Seq<Seq<LetterSpace>>,
    r: int,
    col: int,
)
    requires
        a.no_duplicates(),
        starts_in_order(a),
        prefixes_first(b, root, s, a),
        forall|i: int| 0 <= i < a.len() ==> (#[trigger] a[i]).len() > 0 && !cell_le(r, col, a[i][0].row as int, a[i][0].col as int),
        c.no_duplicates(),
        prefixes_first(b, root, s, c),
        forall|i: int| 0 <= i < c.len() ==> starts_at(#[trigger] c[i], r, col),
    ensures
        (a + c).no_duplicates(),
        starts_in_order(a + c),
        prefixes_first(b, root, s, a + c),
        forall|i: int| 0 <= i < (a + c).len() ==> (#[trigger] (a + c)[i]).len() > 0 && cell_le((a + c)[i][0].row as int, (a + c)[i][0].col as int, r, col),
{
    let ac = a + c;
    assert forall|i: int, j: int| 0 <= i < a.len() && 0 <= j < c.len() implies a[i] != c[j] by {
        assert(starts_at(c[j], r, col));
    }
    lemma_no_dup_concat(a, c);
    assert forall|i: int, j: int| 0 <= i < j < ac.len() implies cell_le(
        (#[trigger] ac[i])[0].row as int, ac[i][0].col as int, (#[trigger] ac[j])[0].row as int, ac[j][0].col as int) by {
        if j < a.len() {
            assert(ac[i] == a[i] && ac[j] == a[j]);
        } else if i >= a.len() {
            assert(ac[i] == c[i - a.len()] && ac[j] == c[j - a.len()]);
            assert(starts_at(c[i - a.len()], r, col) && starts_at(c[j - a.len()], r, col));
        } else {
            assert(ac[i] == a[i] && ac[j] == c[j - a.len()]);
            assert(starts_at(c[j - a.len()], r, col));
        }
    }
    assert forall|j: int, k: int|
        0 <= j < ac.len() && 1 <= k < ac[j].len() && is_word_path(b, root, s, #[trigger] ac[j].take(k))
        implies exists|i: int| 0 <= i < j && ac[i] == ac[j].take(k) by {
        if j < a.len() {
            assert(ac[j] == a[j]);
            let i = choose|i: int| 0 <= i < j && a[i] == a[j].take(k);
            assert(ac[i] == a[i]);
        } else {
            let jj = j - a.len();
            assert(ac[j] == c[jj]);
            let i = choose|i: int| 0 <= i < jj && c[i] == c[jj].take(k);
            assert(ac[a.len() + i] == c[i]);
        }
    }
    assert forall|i: int| 0 <= i < ac.len() implies (#[trigger] ac[i]).len() > 0 && cell_le(ac[i][0].row as int, ac[i][0].col as int, r, col) by {
        if i < a.len() {
            assert(ac[i] == a[i]);
        } else {
            assert(ac[i] == c[i - a.len()]);
            assert(starts_at(c[i - a.len()], r, col));
        }
    }
}

/// `r` is a top-`k` selection from what the search emits on board `b`.
pub open spec fn is_best_of_board(b: Board, root: LetterNode, s: nat, k: nat, r: Seq<(Vec<LetterSpace>, usize)>) -> bool {
    exists|e: Seq<Seq<LetterSpace>>| is_search_output(b, root, s, e) && is_top_k(b, e, k, r)
}

/// `e[i]` is the first of the longest paths of `e`.
pub open spec fn first_longest(e: Seq<Seq<LetterSpace>>, i: int) -> bool {
    &&& 0 <= i < e.len()
    &&& forall|j: int| 0 <= j < e.len() ==> (#[trigger] e[j]).len() <= e[i].len()
    &&& forall|j: int| 0 <= j < i ==> (#[trigger] e[j]).len() < e[i].len()
}

/// `res` is the result record of path `p` with `points`.
pub open spec fn result_matches(b: Board, res: WordResult, p: Seq<LetterSpace>, points: nat) -> bool {
    &&& res.spec_word() == spelled(p)
    &&& res.spec_points() == points
    &&& res.spec_spaces() == spaces_of(p)
    &&& res.spec_swaps() == swaps_of(b, p)
}

/// `res` is the record of no word: empty, with no points.
pub open spec fn result_empty(res: WordResult) -> bool {
    &&& res.spec_word().len() == 0
    &&& res.spec_points() == 0
    &&& res.spec_spaces().len() == 0
    &&& res.spec_swaps().len() == 0
}

/// Relies on `String`'s `FromIterator<char>`: the string of the given
/// characters, in order.
#[verifier::external_body]
fn string_from_chars(chars: &Vec<char>) -> (r: String)
    ensures
        r@ == chars@,
{
    chars.iter().collect()
}

/// The word a path spells.
pub fn get_word_from_letter_spaces(letters: &Vec<LetterSpace>) -> (r: String)
    ensures
        r@ == spelled(letters@),
{
    let mut chars: Vec<char> = Vec::new();
    let mut i: usize = 0;
    while i < letters.len()
        invariant
            i <= letters@.len(),
            chars@ == spelled(letters@.take(i as int)),
        decreases letters.len() - i,
    {
        proof {
            lemma_spelled_push(letters@.take(i as int), letters@[i as int]);
            assert(letters@.take(i as int).push(letters@[i as int]) =~= letters@.take(i + 1));
        }
        chars.push(letters[i].character);
        i = i + 1;
    }
    assert(letters@.take(letters.len() as int) =~= letters@);
    string_from_chars(&chars)
}

/// The cells of a path, rows and columns from 1.
pub fn get_letter_spaces_for_word(word: &Vec<LetterSpace>) -> (r: Vec<Space>)
    requires
        forall|i: int| 0 <= i < word@.len() ==> (#[trigger] word@[i]).row < usize::MAX && word@[i].col < usize::MAX,
    ensures
        r@ == spaces_of(word@),
{
    let mut spaces: Vec<Space> = Vec::new();
    let mut i: usize = 0;
    while i < word.len()
        invariant
            i <= word@.len(),
            forall|k: int| 0 <= k < word@.len() ==> (#[trigger] word@[k]).row < usize::MAX && word@[k].col < usize::MAX,
            spaces@ == spaces_of(word@.take(i as int)),
        decreases word.len() - i,
    {
        let letter = word[i];
        spaces.push(Space::new(letter.character, letter.row + 1, letter.col + 1));
        i = i + 1;
        assert(spaces@ =~= spaces_of(word@.take(i as int)));
    }
    assert(word@.take(word.len() as int) =~= word@);
    spaces
}

/// The sum of the letter values of a word.
pub open spec fn word_value(w: Seq<char>) -> nat
    decreases w.len(),
{
    if w.len() == 0 {
        0
    } else {
        word_value(w.drop_last()) + spec_letter_value(w.last()).unwrap()
    }
}

/// The sum of the letter values of `word`, which holds letters `a..z`.
pub fn get_point_total_str(word: &str) -> (r: usize)
    requires
        forall|i: int| 0 <= i < word@.len() ==> is_lower_letter(#[trigger] word@[i]),
        word@.len() <= usize::MAX / 8,
    ensures
        r == word_value(word@),
{
    let chars = crate::text::chars_of(word);
    let mut points: usize = 0;
    let mut i: usize = 0;
    while i < chars.len()
        invariant
            chars@ == word@,
            i <= chars@.len(),
            chars@.len() <= usize::MAX / 8,
            forall|k: int| 0 <= k < chars@.len() ==> is_lower_letter(#[trigger] chars@[k]),
            points == word_value(chars@.take(i as int)),
            points <= 8 * i,
        decreases chars.len() - i,
    {
        let c = chars[i];
        proof {
            lemma_letter_value_defined(c);
            let t = chars@.take(i as int + 1);
            assert(t.drop_last() =~= chars@.take(i as int));
            assert(t.last() == c);
        }
        let v: usize = match letter_value(c) {
            Some(v) => v,
            None => 0,
        };
        points = points + v;
        i = i + 1;
    }
    assert(chars@.take(chars.len() as int) =~= chars@);
    points
}

/// Index of the first longest path, if there is any path.
fn select_longest(words: &Vec<Vec<LetterSpace>>) -> (r: Option<usize>)
    ensures
        r is None <==> words@.len() == 0,
        r matches Some(i) ==> i < words@.len() && (forall|j: int| 0 <= j < words@.len() ==> (#[trigger] words@[j])@.len() <= words@[i as int]@.len())
            && (forall|j: int| 0 <= j < i ==> (#[trigger] words@[j])@.len() < words@[i as int]@.len()),
{
    if words.len() == 0 {
        return None;
    }
    let mut best: usize = 0;
    let mut k: usize = 1;
    while k < words.len()
        invariant
            1 <= k <= words@.len(),
            best < k,
            forall|j: int| 0 <= j < k ==> (#[trigger] words@[j])@.len() <= words@[best as int]@.len(),
            forall|j: int| 0 <= j < best ==> (#[trigger] words@[j])@.len() < words@[best as int]@.len(),
        decreases words.len() - k,
    {
        if words[k].len() > words[best].len() {
            best = k;
        }
        k = k + 1;
    }
    Some(best)
}

/// `245` to the power `e`: one more than the largest frame the search builds.
pub open spec fn weight(e: nat) -> nat
    decreases e,
{
    if e == 0 {
        1
    } else {
        245 * weight((e - 1) as nat)
    }
}

/// The frame sizes read as a number in base `245`, deepest frame last; the
/// search loop makes it smaller at every turn.
pub open spec fn stack_measure<T>(st: Seq<Seq<T>>, d: nat) -> nat
    decreases st.len(),
{
    if st.len() == 0 {
        0
    } else {
        stack_measure(st.drop_last(), d) + st.last().len() * weight((d - (st.len() - 1)) as nat)
    }
}

pub proof fn lemma_weight_positive(e: nat)
    ensures
        weight(e) > 0,
    decreases e,
{
    if e > 0 {
        lemma_weight_positive((e - 1) as nat);
    }
}

/// The trie node that frame `k` returns to when its base is popped.
pub open spec fn frame_parent(root: LetterNode, p: Seq<LetterSpace>, k: int) -> LetterNode {
    if k == 0 {
        root
    } else {
        node_at(root, spelled(p.take(k - 1))).unwrap()
    }
}

/// The shape of the work stack while the path is `p`: one frame per step of
/// the path and one more; each frame has a `RemoveOp` base for the node to
/// return to, then steps that each extend the path's first `k` steps to a trail.
pub open spec fn frames_ok<'a>(
    b: Board,
    root: LetterNode,
    s: nat,
    p: Seq<LetterSpace>,
    st: Seq<Seq<StackElement<'a>>>,
    r0: int,
    c0: int,
) -> bool {
    &&& (st.len() == p.len() + 1 || (st.len() == 0 && p.len() == 0))
    &&& forall|k: int| 0 <= k < st.len() ==> 1 <= (#[trigger] st[k]).len() <= 244
    &&& forall|k: int|
        0 <= k < st.len() ==> ((#[trigger] st[k])[0] matches StackElement::RemoveOp(n) && *n
            == frame_parent(root, p, k))
    &&& forall|k: int, j: int|
        0 <= k < st.len() && 1 <= j < st[k].len() ==> ((#[trigger] st[k][j]) matches StackElement::LetterStep(y)
            && is_trail(b, root, s, p.take(k).push(y)) && (k == 0 ==> y.row == r0 && y.col == c0))
}

/// Word path `q` is emitted already, or a step of it waits in the frame
/// whose prefix it shares.
pub open spec fn covered<'a>(
    p: Seq<LetterSpace>,
    st: Seq<Seq<StackElement<'a>>>,
    words: Seq<Vec<LetterSpace>>,
    q: Seq<LetterSpace>,
) -> bool {
    ||| exists|i: int| 0 <= i < words.len() && (#[trigger] words[i])@ == q
    ||| pending(p, st, q)
}

/// A step of `q` waits in the frame whose prefix it shares with `p`.
pub open spec fn pending<'a>(p: Seq<LetterSpace>, st: Seq<Seq<StackElement<'a>>>, q: Seq<LetterSpace>) -> bool {
    exists|k: int|
        0 <= k < st.len() && k < q.len() && q.take(k) == p.take(k) && (#[trigger] st[k]).skip(1).contains(
            StackElement::LetterStep(q[k]),
        )
}

/// Each path comes after every shorter word path that begins it.
pub open spec fn prefixes_first(b: Board, root: LetterNode, s: nat, words: Seq<Seq<LetterSpace>>) -> bool {
    forall|j: int, k: int|
        0 <= j < words.len() && 1 <= k < words[j].len() && is_word_path(b, root, s, #[trigger] words[j].take(k))
            ==> exists|i: int| 0 <= i < j && words[i] == words[j].take(k)
}

/// What keeps the search from emitting a path twice, and in depth-first
/// order: no emitted path waits on the stack, the emitted paths are distinct
/// and each follows its word-path prefixes, no frame holds a step twice, the
/// current path's own steps wait nowhere, and its word-path prefixes are
/// emitted.
pub open spec fn search_order_ok<'a>(
    b: Board,
    root: LetterNode,
    s: nat,
    p: Seq<LetterSpace>,
    st: Seq<Seq<StackElement<'a>>>,
    words: Seq<Vec<LetterSpace>>,
) -> bool {
    &&& forall|i: int| 0 <= i < words.len() ==> !pending(p, st, #[trigger] words[i]@)
    &&& path_views(words).no_duplicates()
    &&& prefixes_first(b, root, s, path_views(words))
    &&& forall|k: int| 0 <= k < st.len() ==> (#[trigger] st[k]).skip(1).no_duplicates()
    &&& forall|k: int| 0 <= k < p.len() && k < st.len() ==> !(#[trigger] st[k]).skip(1).contains(StackElement::LetterStep(p[k]))
    &&& forall|k: int|
        1 <= k <= p.len() && is_word_path(b, root, s, #[trigger] p.take(k)) ==> path_views(words).contains(p.take(k))
}

pub proof fn lemma_path_views(w: Seq<Vec<LetterSpace>>)
    ensures
        path_views(w).len() == w.len(),
        forall|i: int| 0 <= i < w.len() ==> #[trigger] path_views(w)[i] == w[i]@,
{
}

/// Taking a step forward keeps the search free of repeats and in order.
#[verifier::spinoff_prover]
pub proof fn lemma_step_keeps_order<'a>(
    b: Board,
    root: LetterNode,
    s: nat,
    prev: Seq<LetterSpace>,
    x: LetterSpace,
    st0: Seq<Seq<StackElement<'a>>>,
    st1: Seq<Seq<StackElement<'a>>>,
    st2: Seq<Seq<StackElement<'a>>>,
    st3: Seq<Seq<StackElement<'a>>>,
    w0: Seq<Vec<LetterSpace>>,
    w1: Seq<Vec<LetterSpace>>,
)
    requires
        st0.len() == prev.len() + 1,
        st0.last().len() >= 2,
        st0.last().last() == StackElement::LetterStep(x),
        st1 == st0.update(st0.len() - 1, st0.last().drop_last()),
        st2.len() == st1.len() + 1,
        st2.drop_last() == st1,
        st2.last().len() == 1,
        top_grown(st2, st3),
        pushed(st2, st3).no_duplicates(),
        forall|i: int| 0 <= i < w0.len() ==> #[trigger] w1[i] == w0[i],
        w1.len() == w0.len() + (if is_word_at(root, spelled(prev.push(x))) { 1int } else { 0int }),
        is_word_at(root, spelled(prev.push(x))) ==> w1[w0.len() as int]@ == prev.push(x),
        search_order_ok(b, root, s, prev, st0, w0),
    ensures
        search_order_ok(b, root, s, prev.push(x), st3, w1),
{
    let top = prev.len() as int;
    let next = prev.push(x);
    let v0 = path_views(w0);
    let v1 = path_views(w1);
    lemma_path_views(w0);
    lemma_path_views(w1);
    assert forall|k: int| 0 <= k <= prev.len() implies #[trigger] next.take(k) == prev.take(k) by {
        assert(next.take(k) =~= prev.take(k));
    }
    assert(prev.take(top) =~= prev);
    assert(next.take(top + 1) =~= next);
    assert(st3.drop_last() == st1);
    assert(st3.len() == top + 2);
    assert forall|k: int| 0 <= k < top implies #[trigger] st3[k] == st0[k] by {
        assert(st3[k] == st1[k]);
    }
    assert(st3[top] == st1[top]);
    assert(st0[top].skip(1) == st3[top].skip(1).push(StackElement::LetterStep(x))) by {
        assert(st0[top].skip(1) =~= st3[top].skip(1).push(StackElement::LetterStep(x)));
    }
    assert(st3[top + 1] == st3.last());
    assert(st3.last().skip(1) == pushed(st2, st3)) by {
        assert(st3.last().skip(1) =~= pushed(st2, st3));
    }
    let a = st3[top].skip(1);
    assert(a.no_duplicates() && !a.contains(StackElement::LetterStep(x))) by {
        let full = st0[top].skip(1);
        assert(full.no_duplicates());
        assert forall|i: int, j: int| 0 <= i < j < a.len() implies a[i] != a[j] by {
            assert(full[i] == a[i] && full[j] == a[j]);
        }
        if a.contains(StackElement::LetterStep(x)) {
            let i = choose|i: int| 0 <= i < a.len() && a[i] == StackElement::LetterStep(x);
            assert(full[i] == full[a.len() as int]);
        }
    }
    // The next path waits in the old stack, so it was not emitted before.
    assert(pending(prev, st0, next)) by {
        assert(next[top] == x);
        assert(st0[top].skip(1)[a.len() as int] == StackElement::LetterStep(x));
    }
    // Whatever waits now waited before.
    assert forall|q: Seq<LetterSpace>| pending(next, st3, q) implies pending(prev, st0, q) by {
        let k = choose|k: int|
            0 <= k < st3.len() && k < q.len() && q.take(k) == next.take(k) && (#[trigger] st3[k]).skip(1).contains(
                StackElement::LetterStep(q[k]),
            );
        let e = StackElement::LetterStep(q[k]);
        if k < top {
            assert(q.take(k) == prev.take(k));
        } else if k == top {
            let m = choose|m: int| 0 <= m < a.len() && a[m] == e;
            assert(st0[top].skip(1)[m] == e);
            assert(q.take(k) == prev.take(k));
        } else {
            assert(q.take(top) == prev) by {
                assert(q.take(top) =~= q.take(k).take(top));
                assert(next.take(k).take(top) =~= prev);
            }
            assert(q[top] == x) by {
                assert(q.take(k)[top] == next.take(k)[top]);
            }
            assert(st0[top].skip(1)[a.len() as int] == StackElement::LetterStep(x));
            assert(st0[top].skip(1).contains(StackElement::LetterStep(q[top])));
        }
    }
    assert(!pending(next, st3, next)) by {
        if pending(next, st3, next) {
            let k = choose|k: int|
                0 <= k < st3.len() && k < next.len() && next.take(k) == next.take(k) && (#[trigger] st3[k]).skip(1).contains(
                    StackElement::LetterStep(next[k]),
                );
            if k < top {
                assert(next[k] == prev[k]);
                assert(st3[k] == st0[k]);
            } else {
                assert(next[k] == x);
            }
        }
    }
    assert forall|i: int| 0 <= i < w1.len() implies !pending(next, st3, #[trigger] w1[i]@) by {
        if i < w0.len() {
            assert(w1[i] == w0[i]);
        }
    }
    let emitted = is_word_at(root, spelled(next));
    assert(!v0.contains(next)) by {
        if v0.contains(next) {
            let i = choose|i: int| 0 <= i < v0.len() && v0[i] == next;
            assert(!pending(prev, st0, w0[i]@));
        }
    }
    assert(v1 == (if emitted { v0.push(next) } else { v0 })) by {
        if emitted {
            assert(v1 =~= v0.push(next));
        } else {
            assert(v1 =~= v0);
        }
    }
    assert(v1.no_duplicates()) by {
        if emitted {
            assert forall|i: int, j: int| 0 <= i < j < v1.len() implies v1[i] != v1[j] by {
                if j == v0.len() {
                    assert(v1[i] == v0[i]);
                } else {
                    assert(v1[i] == v0[i] && v1[j] == v0[j]);
                }
            }
        }
    }
    assert forall|k: int| 1 <= k <= next.len() && is_word_path(b, root, s, #[trigger] next.take(k)) implies v1.contains(next.take(k)) by {
        if k <= top {
            assert(next.take(k) == prev.take(k));
            let i = choose|i: int| 0 <= i < v0.len() && v0[i] == prev.take(k);
            assert(v1[i] == v0[i]);
        } else {
            assert(emitted);
            assert(v1[v0.len() as int] == next);
        }
    }
    assert(prefixes_first(b, root, s, v1)) by {
        assert forall|j: int, k: int|
            0 <= j < v1.len() && 1 <= k < v1[j].len() && is_word_path(b, root, s, #[trigger] v1[j].take(k))
            implies exists|i: int| 0 <= i < j && v1[i] == v1[j].take(k) by {
            if j < v0.len() {
                assert(v1[j] == v0[j]);
                let i = choose|i: int| 0 <= i < j && v0[i] == v0[j].take(k);
                assert(v1[i] == v0[i]);
            } else {
                assert(v1[j] == next);
                assert(next.take(k) == prev.take(k));
                assert(is_word_path(b, root, s, prev.take(k)));
                let i = choose|i: int| 0 <= i < v0.len() && v0[i] == prev.take(k);
                assert(v1[i] == v0[i]);
            }
        }
    }
    assert forall|k: int| 0 <= k < st3.len() implies (#[trigger] st3[k]).skip(1).no_duplicates() by {
        if k < top {
            assert(st3[k] == st0[k]);
        }
    }
    assert forall|k: int| 0 <= k < next.len() && k < st3.len() implies !(#[trigger] st3[k]).skip(1).contains(StackElement::LetterStep(next[k])) by {
        if k < top {
            assert(st3[k] == st0[k]);
            assert(next[k] == prev[k]);
        } else {
            assert(next[k] == x);
        }
    }
}

/// Taking a step back keeps the search free of repeats and in order.
pub proof fn lemma_remove_keeps_order<'a>(
    b: Board,
    root: LetterNode,
    s: nat,
    prev: Seq<LetterSpace>,
    next: Seq<LetterSpace>,
    st0: Seq<Seq<StackElement<'a>>>,
    st1: Seq<Seq<StackElement<'a>>>,
    words: Seq<Vec<LetterSpace>>,
)
    requires
        st0.len() == prev.len() + 1,
        st0.last().len() == 1,
        st1 == st0.drop_last(),
        next == (if prev.len() > 0 { prev.drop_last() } else { prev }),
        search_order_ok(b, root, s, prev, st0, words),
    ensures
        search_order_ok(b, root, s, next, st1, words),
{
    assert forall|k: int| 0 <= k <= next.len() implies #[trigger] next.take(k) == prev.take(k) by {
        assert(next.take(k) =~= prev.take(k));
    }
    assert forall|q: Seq<LetterSpace>| pending(next, st1, q) implies pending(prev, st0, q) by {
        let k = choose|k: int|
            0 <= k < st1.len() && k < q.len() && q.take(k) == next.take(k) && (#[trigger] st1[k]).skip(1).contains(
                StackElement::LetterStep(q[k]),
            );
        assert(st1[k] == st0[k]);
        assert(q.take(k) == prev.take(k));
    }
    assert forall|i: int| 0 <= i < words.len() implies !pending(next, st1, #[trigger] words[i]@) by {}
    assert forall|k: int| 0 <= k < st1.len() implies (#[trigger] st1[k]).skip(1).no_duplicates() by {
        assert(st1[k] == st0[k]);
    }
    assert forall|k: int| 0 <= k < next.len() && k < st1.len() implies !(#[trigger] st1[k]).skip(1).contains(StackElement::LetterStep(next[k])) by {
        assert(st1[k] == st0[k]);
        assert(next[k] == prev[k]);
    }
    assert forall|k: int| 1 <= k <= next.len() && is_word_path(b, root, s, #[trigger] next.take(k)) implies path_views(words).contains(next.take(k)) by {
        assert(next.take(k) == prev.take(k));
    }
}

fn copy_path(p: &Vec<LetterSpace>) -> (r: Vec<LetterSpace>)
    ensures
        r@ == p@,
{
    let mut r: Vec<LetterSpace> = Vec::new();
    let mut i: usize = 0;
    while i < p.len()
        invariant
            i <= p.len(),
            r@ == p@.take(i as int),
        decreases p.len() - i,
    {
        r.push(p[i]);
        i = i + 1;
        assert(r@ =~= p@.take(i as int));
    }
    assert(p@.take(p.len() as int) =~= p@);
    r
}

/// Whether some step of `path` stands on cell `(row, col)`.
fn contains_cell(path: &Vec<LetterSpace>, row: usize, col: usize) -> (r: bool)
    ensures
        r == exists|i: int| 0 <= i < path@.len() && path@[i].row == row && path@[i].col == col,
{
    let mut i: usize = 0;
    while i < path.len()
        invariant
            i <= path.len(),
            forall|j: int| 0 <= j < i ==> !(path@[j].row == row && path@[j].col == col),
        decreases path.len() - i,
    {
        if path[i].row == row && path[i].col == col {
            return true;
        }
        i = i + 1;
    }
    false
}

/// A board token is usable when it starts with a letter `a..z`.
pub open spec fn token_ok(tok: Seq<char>) -> bool {
    tok.len() > 0 && is_lower_letter(tok[0])
}

/// A board line is usable when it holds `n` usable tokens.
pub open spec fn row_ok(line: Seq<char>, n: nat) -> bool {
    &&& tokens_of(line).len() == n
    &&& forall|j: int| 0 <= j < n ==> token_ok(#[trigger] tokens_of(line)[j])
}

/// The first line that is not usable has the wrong number of tokens.
pub open spec fn width_error_first(ls: Seq<Seq<char>>) -> bool {
    exists|i: int|
        0 <= i < ls.len() && tokens_of(ls[i]).len() != ls.len() && forall|a: int| 0 <= a < i ==> row_ok(#[trigger] ls[a], ls.len())
}

/// When the first unusable line holds the right number of tokens, one of
/// them is a bad letter, not a wrong width.
pub proof fn lemma_letter_error_first(ls: Seq<Seq<char>>, i: int, j: int)
    requires
        0 <= i < ls.len(),
        0 <= j < ls.len(),
        forall|a: int| 0 <= a < i ==> row_ok(#[trigger] ls[a], ls.len()),
        tokens_of(ls[i]).len() == ls.len(),
        !token_ok(tokens_of(ls[i])[j]),
    ensures
        !width_error_first(ls),
{
    if width_error_first(ls) {
        let k = choose|k: int|
            0 <= k < ls.len() && tokens_of(ls[k]).len() != ls.len() && forall|a: int| 0 <= a < k ==> row_ok(#[trigger] ls[a], ls.len());
        if k < i {
            assert(row_ok(ls[k], ls.len()));
        } else if k > i {
            assert(row_ok(ls[i], ls.len()));
        }
    }
}

/// A board text is usable when each of its `N` lines holds `N` usable tokens.
pub open spec fn board_text_ok(ls: Seq<Seq<char>>) -> bool {
    forall|i: int| 0 <= i < ls.len() ==> row_ok(#[trigger] ls[i], ls.len())
}

impl Board {
    pub closed spec fn spec_size(&self) -> nat {
        self.size as nat
    }

    pub closed spec fn spec_swaps(&self) -> nat {
        self.swaps as nat
    }

    pub closed spec fn spec_multithreading(&self) -> bool {
        self.multithreading
    }

    /// The cell at row `r`, column `c`.
    pub closed spec fn cell(&self, r: int, c: int) -> Letter {
        self.grid@[r]@[c]
    }

    /// The letter at row `r`, column `c`.
    pub open spec fn letter_at(&self, r: int, c: int) -> char {
        self.cell(r, c).letter_char()
    }

    /// The grid holds `size` rows of `size` cells.
    pub closed spec fn shape_ok(&self) -> bool {
        &&& self.grid@.len() == self.size
        &&& forall|r: int| 0 <= r < self.size ==> (#[trigger] self.grid@[r])@.len() == self.size
    }

    /// The grid is `size` by `size` and every cell holds a letter `a..z`.
    pub open spec fn wf(&self) -> bool {
        &&& self.shape_ok()
        &&& forall|r: int, c: int|
            0 <= r < self.spec_size() && 0 <= c < self.spec_size() ==> is_lower_letter(
                #[trigger] self.letter_at(r, c),
            )
    }

    /// Reads a board: one line per row, cells separated by whitespace, each
    /// cell `x` or `x|m1|m2...` with `x` in `a..z` and modifiers `dl`, `tl`,
    /// `dw` (others are ignored). Fails unless there are as many cells in
    /// each line as there are lines, and every cell starts with a letter.
    pub fn build_board_from_str(board: &str) -> (r: Result<Board, String>)
        ensures
            r is Ok <==> board_text_ok(lines_of(board@)),
            r matches Ok(b) ==> {
                &&& b.wf()
                &&& b.spec_size() == lines_of(board@).len()
                &&& b.spec_swaps() == 0
                &&& !b.spec_multithreading()
                &&& forall|i: int, j: int|
                    0 <= i < b.spec_size() && 0 <= j < b.spec_size() ==> {
                        &&& #[trigger] b.letter_at(i, j) == tokens_of(lines_of(board@)[i])[j][0]
                        &&& b.cell(i, j).modifier_seq() == token_modifiers(tokens_of(lines_of(board@)[i])[j])
                    }
            },
            r matches Err(e) ==> e@ == (if width_error_first(lines_of(board@)) {
                "Each board row needs as many cells as the board has rows."@
            } else {
                "Only English characters are allowed in board input."@
            }),
    {
        let ls = lines(board);
        let ghost lv = lines_of(board@);
        let size = ls.len();
        proof {
            lemma_views(ls@);
        }
        assert(lv.len() == size);
        let mut grid: Vec<Vec<Letter>> = Vec::new();
        let mut i: usize = 0;
        while i < size
            invariant
                i <= size,
                lv == lines_of(board@),
                lv.len() == size,
                size == ls@.len(),
                views(ls@) == lv,
                grid@.len() == i,
                forall|a: int| 0 <= a < i ==> row_ok(#[trigger] lv[a], size as nat),
                forall|a: int| 0 <= a < i ==> (#[trigger] grid@[a])@.len() == size,
                forall|a: int, c: int|
                    0 <= a < i && 0 <= c < size ==> {
                        &&& (#[trigger] grid@[a]@[c]).letter_char() == tokens_of(lv[a])[c][0]
                        &&& grid@[a]@[c].modifier_seq() == token_modifiers(tokens_of(lv[a])[c])
                    },
            decreases size - i,
        {
            assert(ls@[i as int]@ == lv[i as int]);
            let toks = tokens(&ls[i]);
            if toks.len() != size {
                assert(!board_text_ok(lv)) by {
                    assert(!row_ok(lv[i as int], lv.len()));
                }
                assert(width_error_first(lv)) by {
                    assert(tokens_of(lv[i as int]).len() != lv.len());
                }
                let e = "Each board row needs as many cells as the board has rows.".to_string();
                return Err(e);
            }
            let mut row: Vec<Letter> = Vec::new();
            let mut j: usize = 0;
            proof {
                lemma_views(toks@);
            }
            while j < size
                invariant
                    j <= size,
                    lv == lines_of(board@),
                    lv.len() == size,
                    i < size,
                    toks@.len() == size,
                    views(toks@) == tokens_of(lv[i as int]),
                    forall|a: int| 0 <= a < i ==> row_ok(#[trigger] lv[a], size as nat),
                    row@.len() == j,
                    forall|c: int| 0 <= c < j ==> token_ok(#[trigger] tokens_of(lv[i as int])[c]),
                    forall|c: int|
                        0 <= c < j ==> {
                            &&& (#[trigger] row@[c]).letter_char() == tokens_of(lv[i as int])[c][0]
                            &&& row@[c].modifier_seq() == token_modifiers(tokens_of(lv[i as int])[c])
                        },
                decreases size - j,
            {
                assert(toks@[j as int]@ == tokens_of(lv[i as int])[j as int]);
                match Letter::from_chars(&toks[j]) {
                    Ok(letter) => {
                        assert(token_ok(tokens_of(lv[i as int])[j as int]) <==> 'a' <= letter.letter_char() <= 'z');
                        if !('a' <= letter.character() && letter.character() <= 'z') {
                            assert(!board_text_ok(lv)) by {
                                assert(!token_ok(tokens_of(lv[i as int])[j as int]));
                                assert(!row_ok(lv[i as int], lv.len()));
                            }
                            proof {
                                lemma_letter_error_first(lv, i as int, j as int);
                            }
                            let e = "Only English characters are allowed in board input.".to_string();
                            return Err(e);
                        }
                        row.push(letter);
                    },
                    Err(_) => {
                        assert(!board_text_ok(lv)) by {
                            assert(!token_ok(tokens_of(lv[i as int])[j as int]));
                            assert(!row_ok(lv[i as int], lv.len()));
                        }
                        proof {
                            lemma_letter_error_first(lv, i as int, j as int);
                        }
                        let e = "Only English characters are allowed in board input.".to_string();
                        return Err(e);
                    },
                }
                j = j + 1;
            }
            assert(row_ok(lv[i as int], size as nat));
            let ghost old_grid = grid@;
            grid.push(row);
            assert forall|a: int, c: int| 0 <= a < i && 0 <= c < size implies #[trigger] grid@[a]@[c] == old_grid[a]@[c] by {
                assert(grid@[a] == old_grid[a]);
            }
            i = i + 1;
        }
        let b = Board { size, grid, swaps: 0, multithreading: false };
        assert(board_text_ok(lv));
        assert(b.shape_ok());
        assert forall|r: int, c: int|
            0 <= r < b.spec_size() && 0 <= c < b.spec_size() implies is_lower_letter(
            #[trigger] b.letter_at(r, c)) by {
            assert(row_ok(lv[r], size as nat));
            assert(b.grid@[r]@[c].letter_char() == tokens_of(lv[r])[c][0]);
            assert(token_ok(tokens_of(lv[r])[c]));
        }
        Ok(b)
    }

    /// Pushes onto the topmost frame every step that extends the trail `path`
    /// by one cell, where `node` is the trie node that `path` spells: for each
    /// touching cell not yet used, the cell's own letter with the same budget,
    /// and, while budget is left, every letter that continues the prefix with
    /// one swap less.
    fn push_neighbor_steps<'a>(
        &self,
        node: &'a LetterNode,
        stack: &mut DoubleStack<StackElement<'a>>,
        path: &Vec<LetterSpace>,
        Ghost(root): Ghost<LetterNode>,
        Ghost(s): Ghost<nat>,
    )
        requires
            self.wf(),
            is_trail(*self, root, s, path@),
            path@.len() > 0,
            node_at(root, spelled(path@)) == Some(*node),
            old(stack)@.len() > 0,
        ensures
            top_grown(old(stack)@, final(stack)@),
            pushed(old(stack)@, final(stack)@).len() <= 243,
            pushed(old(stack)@, final(stack)@).no_duplicates(),
            pushed_extend(*self, root, s, path@, old(stack)@, final(stack)@),
            pushed_cover(*self, root, s, path@, old(stack)@, final(stack)@, 3, 0),
    {
        let last = path[path.len() - 1];
        let ghost p = path@;
        let ghost start = stack@;
        proof {
            lemma_top_grown_refl(start);
            assert(in_bounds(*self, p[p.len() - 1]));
            assert forall|y: LetterSpace|
                #[trigger] is_trail(*self, root, s, p.push(y)) && is_lower_letter(y.character) && (offset_row(last, y) < 0
                    || (offset_row(last, y) == 0 && offset_col(last, y) < 0))
                implies pushed(start, stack@).contains(StackElement::LetterStep(y)) by {
                lemma_trail_push(*self, root, s, p, y);
            }
        }
        let mut dr: usize = 0;
        while dr < 3
            invariant
                dr <= 3,
                self.wf(),
                p == path@,
                p.len() > 0,
                last == p.last(),
                in_bounds(*self, last),
                is_trail(*self, root, s, p),
                node_at(root, spelled(p)) == Some(*node),
                top_grown(start, stack@),
                pushed(start, stack@).len() <= 81 * dr,
                pushed(start, stack@).no_duplicates(),
                pushed_before(last, start, stack@, dr as int, 0),
                pushed_extend(*self, root, s, p, start, stack@),
                pushed_cover(*self, root, s, p, start, stack@, dr as int, 0),
            decreases 3 - dr,
        {
            let mut dc: usize = 0;
            while dc < 3
                invariant
                    dr < 3,
                    dc <= 3,
                    self.wf(),
                    p == path@,
                    p.len() > 0,
                    last == p.last(),
                    in_bounds(*self, last),
                    is_trail(*self, root, s, p),
                    node_at(root, spelled(p)) == Some(*node),
                    top_grown(start, stack@),
                    pushed(start, stack@).len() <= 81 * dr + 27 * dc,
                    pushed(start, stack@).no_duplicates(),
                    pushed_before(last, start, stack@, dr as int, dc as int),
                    pushed_extend(*self, root, s, p, start, stack@),
                    pushed_cover(*self, root, s, p, start, stack@, dr as int, dc as int),
                decreases 3 - dc,
            {
                let ghost before = stack@;
                proof {
                    lemma_top_grown_refl(before);
                }
                let row_ok = (dr == 0 && last.row > 0) || dr == 1 || (dr == 2 && last.row + 1 < self.size);
                let col_ok = (dc == 0 && last.col > 0) || dc == 1 || (dc == 2 && last.col + 1 < self.size);
                if row_ok && col_ok {
                    let nr: usize = if dr == 0 { last.row - 1 } else if dr == 1 { last.row } else { last.row + 1 };
                    let nc: usize = if dc == 0 { last.col - 1 } else if dc == 1 { last.col } else { last.col + 1 };
                    if !contains_cell(path, nr, nc) {
                        proof {
                            lemma_trail_push(*self, root, s, p, LetterSpace { character: 'a', row: nr, col: nc, swaps: 0 });
                        }
                        if last.swaps > 0 {
                            add_swap_elements(node, stack, nr, nc, last.swaps - 1);
                            proof {
                                let mid = stack@;
                                lemma_top_grown_trans(start, before, mid);
                                assert forall|j: int| 0 <= j < pushed(start, mid).len() implies (#[trigger] pushed(start, mid)[j] matches StackElement::LetterStep(y)
                                    && is_trail(*self, root, s, p.push(y))) by {
                                    if j >= pushed(start, before).len() {
                                        let k = j - pushed(start, before).len();
                                        assert(pushed(start, mid)[j] == pushed(before, mid)[k]);
                                        if let StackElement::LetterStep(y) = pushed(before, mid)[k] {
                                            lemma_trail_push(*self, root, s, p, y);
                                        }
                                    } else {
                                        assert(pushed(start, mid)[j] == pushed(start, before)[j]);
                                    }
                                }
                            }
                        }
                        let ghost mid = stack@;
                        proof {
                            lemma_top_grown_refl(mid);
                        }
                        let natural = self.grid[nr][nc].character();
                        if node.get_child_from_letter(natural).is_some() {
                            let e = StackElement::LetterStep(LetterSpace { character: natural, row: nr, col: nc, swaps: last.swaps });
                            stack.push_simple(e);
                            proof {
                                lemma_top_grown_push(mid, e);
                                lemma_top_grown_trans(start, mid, stack@);
                                lemma_trail_push(*self, root, s, p, LetterSpace { character: natural, row: nr, col: nc, swaps: last.swaps });
                                assert(pushed(start, stack@) == pushed(start, mid).push(e));
                                assert forall|j: int| 0 <= j < pushed(start, stack@).len() implies (#[trigger] pushed(start, stack@)[j] matches StackElement::LetterStep(y)
                                    && is_trail(*self, root, s, p.push(y))) by {
                                    if j < pushed(start, mid).len() {
                                        assert(pushed(start, stack@)[j] == pushed(start, mid)[j]);
                                    }
                                }
                            }
                        }
                        proof {
                            lemma_top_grown_trans(before, mid, stack@);
                            lemma_top_grown_trans(start, before, stack@);
                            lemma_top_grown_trans(start, mid, stack@);
                            assert(last.swaps == 0 ==> pushed(before, mid).len() == 0);
                            lemma_cell_pushes_distinct(last, pushed(start, before), pushed(before, mid), pushed(mid, stack@),
                                dr as int, dc as int, nr as int, nc as int);
                            assert forall|y: LetterSpace|
                                #[trigger] is_trail(*self, root, s, p.push(y)) && is_lower_letter(y.character) && (offset_row(last, y) < dr
                                    || (offset_row(last, y) == dr && offset_col(last, y) < dc + 1))
                                implies pushed(start, stack@).contains(StackElement::LetterStep(y)) by {
                                lemma_trail_push(*self, root, s, p, y);
                                let e = StackElement::LetterStep(y);
                                if offset_row(last, y) < dr || offset_col(last, y) < dc {
                                    lemma_contains_concat(pushed(start, before), pushed(before, stack@), e);
                                } else {
                                    assert(y.row == nr && y.col == nc);
                                    if is_natural(*self, y) && y.swaps == last.swaps {
                                        assert(pushed(mid, stack@).contains(e)) by {
                                            assert(pushed(mid, stack@)[0] == e);
                                        }
                                        lemma_contains_concat(pushed(start, mid), pushed(mid, stack@), e);
                                    } else {
                                        assert(pushed(before, mid).contains(e));
                                        lemma_contains_concat(pushed(before, mid), pushed(mid, stack@), e);
                                        lemma_contains_concat(pushed(start, before), pushed(before, stack@), e);
                                    }
                                }
                            }
                        }
                    } else {
                        proof {
                            assert forall|y: LetterSpace|
                                #[trigger] is_trail(*self, root, s, p.push(y)) && is_lower_letter(y.character) && (offset_row(last, y) < dr
                                    || (offset_row(last, y) == dr && offset_col(last, y) < dc + 1))
                                implies pushed(start, stack@).contains(StackElement::LetterStep(y)) by {
                                lemma_trail_push(*self, root, s, p, y);
                                if offset_row(last, y) == dr && offset_col(last, y) == dc {
                                    let i = choose|i: int| 0 <= i < p.len() && p[i].row == nr && p[i].col == nc;
                                    assert(same_cell(p[i], y));
                                }
                            }
                        }
                    }
                } else {
                    proof {
                        assert forall|y: LetterSpace|
                            #[trigger] is_trail(*self, root, s, p.push(y)) && is_lower_letter(y.character) && (offset_row(last, y) < dr
                                || (offset_row(last, y) == dr && offset_col(last, y) < dc + 1))
                            implies pushed(start, stack@).contains(StackElement::LetterStep(y)) by {
                            lemma_trail_push(*self, root, s, p, y);
                        }
                    }
                }
                dc = dc + 1;
            }
            proof {
                assert forall|y: LetterSpace|
                    #[trigger] is_trail(*self, root, s, p.push(y)) && is_lower_letter(y.character) && (offset_row(last, y) < dr + 1
                        || (offset_row(last, y) == dr + 1 && offset_col(last, y) < 0))
                    implies pushed(start, stack@).contains(StackElement::LetterStep(y)) by {
                    lemma_trail_push(*self, root, s, p, y);
                }
            }
            dr = dr + 1;
        }
        proof {
            assert forall|y: LetterSpace|
                #[trigger] is_trail(*self, root, s, p.push(y)) && is_lower_letter(y.character) && (offset_row(last, y) < 3
                    || (offset_row(last, y) == 3 && offset_col(last, y) < 0))
                implies pushed(start, stack@).contains(StackElement::LetterStep(y)) by {
                lemma_trail_push(*self, root, s, p, y);
            }
        }
    }

    /// Every path from cell `(start_row, start_col)` that spells a dictionary
    /// word, with swap budget `swaps`: exactly the word paths that start there.
    /// The search is a depth-first walk driven by a stack of frames.
    pub fn get_all_words_from_pos(
        &self,
        tree: &WordTree,
        start_row: usize,
        start_col: usize,
        swaps: usize,
    ) -> (r: Vec<Vec<LetterSpace>>)
        requires
            self.wf(),
            tree.wf(),
            start_row < self.spec_size(),
            start_col < self.spec_size(),
        ensures
            forall|i: int|
                0 <= i < r@.len() ==> is_word_path(*self, tree.root_node(), swaps as nat, #[trigger] r@[i]@)
                    && starts_at(r@[i]@, start_row as int, start_col as int),
            forall|q: Seq<LetterSpace>|
                #[trigger] is_word_path(*self, tree.root_node(), swaps as nat, q) && starts_at(
                    q,
                    start_row as int,
                    start_col as int,
                ) ==> exists|i: int| 0 <= i < r@.len() && r@[i]@ == q,
            path_views(r@).no_duplicates(),
            prefixes_first(*self, tree.root_node(), swaps as nat, path_views(r@)),
    {
        let ghost root = tree.root_node();
        let ghost sb = swaps as nat;
        let ghost d = self.spec_size() * self.spec_size();
        let ghost r0 = start_row as int;
        let ghost c0 = start_col as int;
        let mut stack: DoubleStack<StackElement> = DoubleStack::new();
        let mut words: Vec<Vec<LetterSpace>> = Vec::new();
        let mut cur_word_grid: Vec<LetterSpace> = Vec::new();
        let mut cur_node: &LetterNode = tree.get_root_node();
        stack.push_new_layer(StackElement::RemoveOp(cur_node));
        let start = LetterSpace {
            character: self.grid[start_row][start_col].character(),
            row: start_row,
            col: start_col,
            swaps,
        };
        if cur_node.get_child_from_letter(start.character).is_some() {
            stack.push_simple(StackElement::LetterStep(start));
        }
        proof {
            lemma_trail_single(*self, root, sb, start);
            assert(spelled(cur_word_grid@) =~= Seq::<char>::empty());
            assert(cur_word_grid@.take(0).push(start) =~= seq![start]);
            let st = stack@;
            assert(st.len() == 1);
            assert(st[0][0] == StackElement::RemoveOp(cur_node));
            assert(frames_ok(*self, root, sb, cur_word_grid@, stack@, r0, c0));
            assert forall|q: Seq<LetterSpace>|
                #[trigger] is_word_path(*self, root, sb, q) && starts_at(q, r0, c0) implies covered(
                    cur_word_grid@,
                    stack@,
                    words@,
                    q,
                ) by {
                lemma_trail_prefix(*self, root, sb, q, 1);
                assert(q.take(1) =~= seq![q[0]]);
                lemma_trail_single(*self, root, sb, q[0]);
                assert(q[0] == start);
                assert(stack@[0].skip(1)[0] == StackElement::LetterStep(start));
                assert(q.take(0) =~= cur_word_grid@.take(0));
            }
            assert(path_views(words@) =~= Seq::<Seq<LetterSpace>>::empty());
            assert(stack@[0].skip(1).no_duplicates());
        }
        while !stack.is_empty()
            invariant
                self.wf(),
                tree.wf(),
                root == tree.root_node(),
                sb == swaps as nat,
                d == self.spec_size() * self.spec_size(),
                r0 == start_row as int,
                c0 == start_col as int,
                is_trail(*self, root, sb, cur_word_grid@),
                cur_word_grid@.len() > 0 ==> starts_at(cur_word_grid@, r0, c0),
                node_at(root, spelled(cur_word_grid@)) == Some(*cur_node),
                frames_ok(*self, root, sb, cur_word_grid@, stack@, r0, c0),
                forall|i: int|
                    0 <= i < words@.len() ==> is_word_path(*self, root, sb, #[trigger] words@[i]@)
                        && starts_at(words@[i]@, r0, c0),
                forall|q: Seq<LetterSpace>|
                    #[trigger] is_word_path(*self, root, sb, q) && starts_at(q, r0, c0) ==> covered(
                        cur_word_grid@,
                        stack@,
                        words@,
                        q,
                    ),
                search_order_ok(*self, root, sb, cur_word_grid@, stack@, words@),
            decreases stack_measure(stack@, d),
        {
            let ghost prev = cur_word_grid@;
            let ghost st0 = stack@;
            let ghost w0 = words@;
            proof {
                lemma_path_len_bound(*self, prev);
            }
            let item = stack.pop();
            match item {
                StackElement::LetterStep(cell) => {
                    let old_cur = cur_node;
                    cur_word_grid.push(cell);
                    proof {
                        assert(st0.last().len() >= 2);
                        assert(prev.take(prev.len() as int) =~= prev);
                        lemma_spelled_push(prev, cell);
                        lemma_node_at_push(root, spelled(prev), cell.character);
                    }
                    match cur_node.get_child_from_letter(cell.character) {
                        Some(next) => {
                            cur_node = next;
                        },
                        None => {
                            proof {
                                assert(false);
                            }
                        },
                    }
                    if cur_node.is_word_end() {
                        let found = copy_path(&cur_word_grid);
                        words.push(found);
                    }
                    let ghost st1 = stack@;
                    proof {
                        assert(st1.len() == st0.len());
                        assert(st1[st1.len() - 1].len() >= 1);
                        assert(st1 != seq![Seq::<StackElement>::empty()]) by {
                            if st1 == seq![Seq::<StackElement>::empty()] {
                                assert(st1[0].len() == 0);
                            }
                        }
                    }
                    stack.push_new_layer(StackElement::RemoveOp(old_cur));
                    let ghost st2 = stack@;
                    assert(st2.drop_last() =~= st1);
                    self.push_neighbor_steps(cur_node, &mut stack, &cur_word_grid, Ghost(root), Ghost(sb));
                    proof {
                        self.lemma_after_step(tree, sb, prev, cell, st0, st1, st2, stack@, w0, words@, r0, c0, d);
                        lemma_step_keeps_order(*self, root, sb, prev, cell, st0, st1, st2, stack@, w0, words@);
                    }
                },
                StackElement::RemoveOp(parent) => {
                    cur_word_grid.pop();
                    cur_node = parent;
                    proof {
                        self.lemma_after_remove(tree, sb, prev, cur_word_grid@, st0, stack@, words@, r0, c0, d);
                        assert(st0.last().len() == 1) by {
                            if st0.last().len() > 1 {
                                assert(st0[st0.len() - 1][st0[st0.len() - 1].len() - 1] is LetterStep);
                            }
                        }
                        lemma_remove_keeps_order(*self, root, sb, prev, cur_word_grid@, st0, stack@, words@);
                    }
                },
            }
        }
        words
    }

    /// The score of a path (`path_score`); a score past the largest `usize`
    /// stays at that value.
    pub fn get_point_total(&self, word: &Vec<LetterSpace>) -> (r: usize)
        requires
            self.wf(),
            scorable(*self, word@),
        ensures
            r == saturate(path_score(*self, word@)),
    {
        let ghost p = word@;
        let mut points: usize = 0;
        let mut double_word = false;
        let mut i: usize = 0;
        while i < word.len()
            invariant
                self.wf(),
                p == word@,
                scorable(*self, p),
                i <= word.len(),
                points == saturate(letter_sum(*self, p.take(i as int))),
                double_word == any_double_word(*self, p.take(i as int)),
            decreases word.len() - i,
        {
            let letter = word[i];
            proof {
                assert(in_bounds(*self, p[i as int]) && is_lower_letter(p[i as int].character));
                lemma_letter_value_defined(letter.character);
            }
            let base: usize = match letter_value(letter.character) {
                Some(v) => v,
                None => 0,
            };
            let cell = &self.grid[letter.row][letter.col];
            let mut to_add: usize = base;
            if cell.has(Modifier::DoubleLetter) {
                to_add = to_add * 2;
            }
            if cell.has(Modifier::TripleLetter) {
                to_add = to_add * 3;
            }
            let dw = cell.has(Modifier::DoubleWord);
            proof {
                assert(*cell == self.cell(letter.row as int, letter.col as int));
                let v = spec_letter_value(letter.character).unwrap();
                assert(base == v);
                let m = letter_mult(*cell);
                let dl = cell.has_modifier(Modifier::DoubleLetter);
                let tl = cell.has_modifier(Modifier::TripleLetter);
                if dl && tl {
                    assert(m == 6);
                    assert(to_add == v * 6);
                } else if dl {
                    assert(m == 2);
                } else if tl {
                    assert(m == 3);
                } else {
                    assert(m == 1);
                }
                assert(to_add == step_points(*self, letter));
                let q = p.take(i as int + 1);
                assert(q.drop_last() == p.take(i as int));
                assert(q.last() == letter);
                assert(any_double_word(*self, q) == (any_double_word(*self, p.take(i as int)) || dw)) by {
                    if dw {
                        assert(q[i as int] == letter);
                    }
                    if any_double_word(*self, p.take(i as int)) {
                        let j = choose|j: int| 0 <= j < i && self.cell(p.take(i as int)[j].row as int, p.take(i as int)[j].col as int).has_modifier(Modifier::DoubleWord);
                        assert(q[j] == p.take(i as int)[j]);
                    }
                    if any_double_word(*self, q) && !dw {
                        let j = choose|j: int| 0 <= j < q.len() && self.cell(q[j].row as int, q[j].col as int).has_modifier(Modifier::DoubleWord);
                        assert(j < i);
                        assert(q[j] == p.take(i as int)[j]);
                    }
                }
            }
            if dw {
                double_word = true;
            }
            points = points.saturating_add(to_add);
            i = i + 1;
        }
        assert(p.take(word.len() as int) == p);
        let ghost sum = letter_sum(*self, p);
        if double_word {
            if points > usize::MAX / 2 {
                points = usize::MAX;
            } else {
                points = points * 2;
            }
        }
        assert(points == saturate(sum * (if double_word { 2nat } else { 1nat })));
        if word.len() >= 6 {
            points = points.saturating_add(10);
        }
        points
    }

    /// The result record of a path with its points: its word, its cells and
    /// the swaps it makes, rows and columns from 1.
    pub fn get_result_from_letters(&self, word: Vec<LetterSpace>, points: usize) -> (r: WordResult)
        requires
            self.wf(),
            forall|i: int| 0 <= i < word@.len() ==> in_bounds(*self, #[trigger] word@[i]),
        ensures
            r.spec_word() == spelled(word@),
            r.spec_points() == points,
            r.spec_spaces() == spaces_of(word@),
            r.spec_swaps() == swaps_of(*self, word@),
    {
        let mut swaps: Vec<Swap> = Vec::new();
        let mut i: usize = 0;
        while i < word.len()
            invariant
                self.wf(),
                i <= word@.len(),
                forall|k: int| 0 <= k < word@.len() ==> in_bounds(*self, #[trigger] word@[k]),
                swaps@ == swaps_of(*self, word@.take(i as int)),
            decreases word.len() - i,
        {
            let letter = word[i];
            proof {
                assert(in_bounds(*self, word@[i as int]));
                let q = word@.take(i as int + 1);
                assert(q.drop_last() =~= word@.take(i as int));
                assert(q.last() == letter);
            }
            let original = self.grid[letter.row][letter.col].character();
            if letter.character != original {
                swaps.push(Swap::new(original, letter.character, letter.row + 1, letter.col + 1));
                assert(swaps@ =~= swaps_of(*self, word@.take(i as int + 1)));
            } else {
                assert(swaps@ =~= swaps_of(*self, word@.take(i as int + 1)));
            }
            i = i + 1;
        }
        assert(word@.take(word.len() as int) =~= word@);
        proof {
            assert forall|k: int| 0 <= k < word@.len() implies (#[trigger] word@[k]).row < usize::MAX && word@[k].col < usize::MAX by {
                assert(in_bounds(*self, word@[k]));
            }
        }
        let spaces = get_letter_spaces_for_word(&word);
        let text = get_word_from_letter_spaces(&word);
        WordResult::new(text, points, swaps, spaces)
    }

    /// The `count` best-scoring word paths with their scores, as
    /// `select_best` keeps them from the search's output.
    pub fn get_best_words_spaces(&self, tree: &WordTree, count: usize) -> (r: Vec<(Vec<LetterSpace>, usize)>)
        requires
            self.wf(),
            tree.wf(),
        ensures
            is_best_of_board(*self, tree.root_node(), self.spec_swaps(), count as nat, r@),
    {
        if count == 0 {
            let r: Vec<(Vec<LetterSpace>, usize)> = Vec::new();
            let ghost e: Seq<Seq<LetterSpace>> = Seq::empty();
            proof {
                let empty_sel: Seq<int> = Seq::empty();
                assert(picks(e, r@, empty_sel));
            }
            let words = self.get_all_possible_words(tree);
            proof {
                let ev = path_views(words@);
                assert(is_search_output(*self, tree.root_node(), self.spec_swaps(), ev));
                let empty_sel: Seq<int> = Seq::empty();
                assert(picks(ev, r@, empty_sel));
                assert(is_top_k(*self, ev, 0, r@));
            }
            return r;
        }
        let words = self.get_all_possible_words(tree);
        proof {
            self.lemma_emission(tree, words@);
        }
        self.select_best(words, count)
    }

    /// The result records of the `count` best-scoring word paths, best first.
    pub fn get_best_words(&self, tree: &WordTree, count: usize) -> (r: Vec<WordResult>)
        requires
            self.wf(),
            tree.wf(),
        ensures
            exists|best: Seq<(Vec<LetterSpace>, usize)>|
                #[trigger] is_best_of_board(*self, tree.root_node(), self.spec_swaps(), count as nat, best)
                    && r@.len() == best.len() && forall|i: int|
                    0 <= i < best.len() ==> result_matches(*self, #[trigger] r@[i], best[i].0@, best[i].1 as nat),
    {
        let words = self.get_best_words_spaces(tree, count);
        let ghost wv = words@;
        proof {
            self.lemma_top_k_on_board(tree, count as nat, wv);
        }
        let mut results: Vec<WordResult> = Vec::new();
        for word in it: words.into_iter()
            invariant
                self.wf(),
                it.seq() == wv,
                forall|i: int| 0 <= i < wv.len() ==> forall|j: int|
                    0 <= j < (#[trigger] wv[i]).0@.len() ==> in_bounds(*self, #[trigger] wv[i].0@[j]),
                results@.len() == it.index(),
                forall|i: int| 0 <= i < results@.len() ==> result_matches(*self, #[trigger] results@[i], wv[i].0@, wv[i].1 as nat),
        {
            let ghost idx = it.index();
            assert(word == wv[idx]);
            let res = self.get_result_from_letters(word.0, word.1);
            results.push(res);
        }
        results
    }

    /// Entries of a top-`k` selection from the search output are word paths,
    /// so they stand on the board.
    proof fn lemma_top_k_on_board(&self, tree: &WordTree, k: nat, r: Seq<(Vec<LetterSpace>, usize)>)
        requires
            tree.wf(),
            is_best_of_board(*self, tree.root_node(), self.spec_swaps(), k, r),
        ensures
            forall|i: int| 0 <= i < r.len() ==> is_word_path(*self, tree.root_node(), self.spec_swaps(), (#[trigger] r[i]).0@),
            forall|i: int| 0 <= i < r.len() ==> forall|j: int|
                0 <= j < (#[trigger] r[i]).0@.len() ==> in_bounds(*self, #[trigger] r[i].0@[j]),
    {
        let e = choose|e: Seq<Seq<LetterSpace>>|
            is_search_output(*self, tree.root_node(), self.spec_swaps(), e) && is_top_k(*self, e, k, r);
        let sel = choose|sel: Seq<int>|
            picks(e, r, sel) && (forall|j: int|
                0 <= j < e.len() && !sel.contains(j) ==> forall|i: int|
                    0 <= i < r.len() ==> score_of(*self, #[trigger] e[j]) <= (#[trigger] r[i]).1) && forall|i: int, j: int|
                0 <= i < j < r.len() && (#[trigger] r[i]).1 == (#[trigger] r[j]).1 ==> sel[i] < sel[j];
        assert forall|i: int| 0 <= i < r.len() implies is_word_path(*self, tree.root_node(), self.spec_swaps(), (#[trigger] r[i]).0@) by {
            assert(0 <= sel[i] < e.len() && r[i].0@ == e[sel[i]]);
        }
        assert forall|i: int| 0 <= i < r.len() implies forall|j: int|
            0 <= j < (#[trigger] r[i]).0@.len() ==> in_bounds(*self, #[trigger] r[i].0@[j]) by {
            assert(is_word_path(*self, tree.root_node(), self.spec_swaps(), r[i].0@));
        }
    }

    /// The best-scoring word path, as a result record; an empty record when
    /// the board spells no word.
    pub fn get_best_word(&self, tree: &WordTree) -> (r: WordResult)
        requires
            self.wf(),
            tree.wf(),
        ensures
            (forall|q: Seq<LetterSpace>| !#[trigger] is_word_path(*self, tree.root_node(), self.spec_swaps(), q)) ==> result_empty(r),
            (exists|q: Seq<LetterSpace>| #[trigger] is_word_path(*self, tree.root_node(), self.spec_swaps(), q)) ==> exists|p: Seq<LetterSpace>|
                #[trigger] is_word_path(*self, tree.root_node(), self.spec_swaps(), p) && result_matches(*self, r, p, score_of(*self, p))
                    && forall|q: Seq<LetterSpace>| #[trigger] is_word_path(*self, tree.root_node(), self.spec_swaps(), q) ==> score_of(*self, q) <= r.spec_points(),
    {
        let mut best = self.get_best_words_spaces(tree, 1);
        proof {
            self.lemma_top_one(tree, best@);
        }
        if best.len() == 0 {
            let r = WordResult::new(String::new(), 0, Vec::new(), Vec::new());
            assert(r.spec_word().len() == 0);
            return r;
        }
        let first = best.remove(0);
        self.get_result_from_letters(first.0, first.1)
    }

    /// The best-scoring word and its points; an empty word with no points
    /// when the board spells no word.
    pub fn get_best_word_string(&self, tree: &WordTree) -> (r: (String, usize))
        requires
            self.wf(),
            tree.wf(),
        ensures
            (forall|q: Seq<LetterSpace>| !#[trigger] is_word_path(*self, tree.root_node(), self.spec_swaps(), q)) ==> r.0@.len() == 0 && r.1 == 0,
            (exists|q: Seq<LetterSpace>| #[trigger] is_word_path(*self, tree.root_node(), self.spec_swaps(), q)) ==> exists|p: Seq<LetterSpace>|
                #[trigger] is_word_path(*self, tree.root_node(), self.spec_swaps(), p) && r.0@ == spelled(p) && r.1 == score_of(*self, p)
                    && forall|q: Seq<LetterSpace>| #[trigger] is_word_path(*self, tree.root_node(), self.spec_swaps(), q) ==> score_of(*self, q) <= r.1,
    {
        let mut best = self.get_best_words_spaces(tree, 1);
        proof {
            self.lemma_top_one(tree, best@);
        }
        if best.len() == 0 {
            return (String::new(), 0);
        }
        let first = best.remove(0);
        (get_word_from_letter_spaces(&first.0), first.1)
    }

    /// A top-one selection from the search output is empty exactly when no
    /// word path exists, and otherwise holds a best-scoring word path.
    proof fn lemma_top_one(&self, tree: &WordTree, r: Seq<(Vec<LetterSpace>, usize)>)
        requires
            tree.wf(),
            is_best_of_board(*self, tree.root_node(), self.spec_swaps(), 1, r),
        ensures
            r.len() <= 1,
            r.len() == 0 <==> forall|q: Seq<LetterSpace>| !#[trigger] is_word_path(*self, tree.root_node(), self.spec_swaps(), q),
            r.len() == 1 ==> is_word_path(*self, tree.root_node(), self.spec_swaps(), r[0].0@) && r[0].1 == score_of(*self, r[0].0@)
                && forall|q: Seq<LetterSpace>| #[trigger] is_word_path(*self, tree.root_node(), self.spec_swaps(), q) ==> score_of(*self, q) <= r[0].1,
            forall|j: int| 0 <= j < r[0].0@.len() && r.len() == 1 ==> in_bounds(*self, #[trigger] r[0].0@[j]),
    {
        let root = tree.root_node();
        let sb = self.spec_swaps();
        let e = choose|e: Seq<Seq<LetterSpace>>| is_search_output(*self, root, sb, e) && is_top_k(*self, e, 1, r);
        let sel = choose|sel: Seq<int>|
            picks(e, r, sel) && (forall|j: int|
                0 <= j < e.len() && !sel.contains(j) ==> forall|i: int|
                    0 <= i < r.len() ==> score_of(*self, #[trigger] e[j]) <= (#[trigger] r[i]).1) && forall|i: int, j: int|
                0 <= i < j < r.len() && (#[trigger] r[i]).1 == (#[trigger] r[j]).1 ==> sel[i] < sel[j];
        if r.len() == 0 {
            assert forall|q: Seq<LetterSpace>| !#[trigger] is_word_path(*self, root, sb, q) by {
                if is_word_path(*self, root, sb, q) {
                    assert(e.contains(q));
                }
            }
        } else {
            assert(0 <= sel[0] < e.len() && r[0].0@ == e[sel[0]]);
            assert(is_word_path(*self, root, sb, r[0].0@));
            assert forall|q: Seq<LetterSpace>| #[trigger] is_word_path(*self, root, sb, q) implies score_of(*self, q) <= r[0].1 by {
                assert(e.contains(q));
                let j = choose|j: int| 0 <= j < e.len() && e[j] == q;
                if sel.contains(j) {
                    assert(sel[0] == j);
                } else {
                    assert(score_of(*self, e[j]) <= r[0].1);
                }
            }
        }
    }

    /// The first longest word path, as a result record; an empty record when
    /// the board spells no word.
    pub fn get_longest_word(&self, tree: &WordTree) -> (r: WordResult)
        requires
            self.wf(),
            tree.wf(),
        ensures
            (forall|q: Seq<LetterSpace>| !#[trigger] is_word_path(*self, tree.root_node(), self.spec_swaps(), q)) ==> result_empty(r),
            (exists|q: Seq<LetterSpace>| #[trigger] is_word_path(*self, tree.root_node(), self.spec_swaps(), q)) ==> exists|p: Seq<LetterSpace>|
                #[trigger] is_word_path(*self, tree.root_node(), self.spec_swaps(), p) && result_matches(*self, r, p, score_of(*self, p))
                    && forall|q: Seq<LetterSpace>| #[trigger] is_word_path(*self, tree.root_node(), self.spec_swaps(), q) ==> q.len() <= p.len(),
            exists|e: Seq<Seq<LetterSpace>>|
                #[trigger] is_search_output(*self, tree.root_node(), self.spec_swaps(), e) && (e.len() == 0 ==> result_empty(r))
                    && (e.len() > 0 ==> exists|i: int| first_longest(e, i) && result_matches(*self, r, #[trigger] e[i], score_of(*self, e[i]))),
    {
        let words = self.get_all_possible_words(tree);
        let ghost e = path_views(words@);
        proof {
            lemma_path_views(words@);
        }
        proof {
            self.lemma_emission(tree, words@);
        }
        match select_longest(&words) {
            None => {
                proof {
                    assert forall|q: Seq<LetterSpace>| !#[trigger] is_word_path(*self, tree.root_node(), self.spec_swaps(), q) by {
                        if is_word_path(*self, tree.root_node(), self.spec_swaps(), q) {
                            let i = choose|i: int| 0 <= i < words@.len() && words@[i]@ == q;
                        }
                    }
                }
                let r = WordResult::new(String::new(), 0, Vec::new(), Vec::new());
                assert(r.spec_word().len() == 0);
                assert(is_search_output(*self, tree.root_node(), self.spec_swaps(), e) && e.len() == 0);
                r
            },
            Some(i) => {
                let path = copy_path(&words[i]);
                let total = self.get_point_total(&path);
                proof {
                    assert(first_longest(e, i as int)) by {
                        assert forall|j: int| 0 <= j < e.len() implies (#[trigger] e[j]).len() <= e[i as int].len() by {
                            assert(words@[j]@.len() <= words@[i as int]@.len());
                        }
                        assert forall|j: int| 0 <= j < i implies (#[trigger] e[j]).len() < e[i as int].len() by {
                            assert(words@[j]@.len() < words@[i as int]@.len());
                        }
                    }
                    assert(e[i as int] == path@);
                    assert(is_word_path(*self, tree.root_node(), self.spec_swaps(), path@));
                    assert forall|q: Seq<LetterSpace>| #[trigger] is_word_path(*self, tree.root_node(), self.spec_swaps(), q) implies q.len() <= path@.len() by {
                        let j = choose|j: int| 0 <= j < words@.len() && words@[j]@ == q;
                        assert(words@[j]@.len() <= words@[i as int]@.len());
                    }
                }
                let r = self.get_result_from_letters(path, total);
                assert(is_search_output(*self, tree.root_node(), self.spec_swaps(), e) && first_longest(e, i as int)
                    && result_matches(*self, r, e[i as int], score_of(*self, e[i as int])));
                r
            },
        }
    }

    /// The search output is an emission, and every path in it can be scored.
    proof fn lemma_emission(&self, tree: &WordTree, words: Seq<Vec<LetterSpace>>)
        requires
            self.wf(),
            tree.wf(),
            path_views(words).no_duplicates(),
            forall|i: int|
                0 <= i < words.len() ==> is_word_path(*self, tree.root_node(), self.spec_swaps(), #[trigger] words[i]@),
            forall|q: Seq<LetterSpace>|
                #[trigger] is_word_path(*self, tree.root_node(), self.spec_swaps(), q) ==> exists|i: int|
                    0 <= i < words.len() && words[i]@ == q,
        ensures
            is_emission(*self, tree.root_node(), self.spec_swaps(), path_views(words)),
            forall|i: int| 0 <= i < words.len() ==> scorable(*self, #[trigger] words[i]@),
    {
        let e = path_views(words);
        assert(e.len() == words.len());
        assert forall|i: int| 0 <= i < e.len() implies is_word_path(*self, tree.root_node(), self.spec_swaps(), #[trigger] e[i]) by {
            assert(e[i] == words[i]@);
        }
        assert forall|q: Seq<LetterSpace>| #[trigger] is_word_path(*self, tree.root_node(), self.spec_swaps(), q) implies e.contains(q) by {
            let i = choose|i: int| 0 <= i < words.len() && words[i]@ == q;
            assert(e[i] == q);
        }
        assert forall|i: int| 0 <= i < words.len() implies scorable(*self, #[trigger] words[i]@) by {
            let p = words[i]@;
            assert(is_word_path(*self, tree.root_node(), self.spec_swaps(), p));
            self.lemma_word_path_scorable(tree, p);
        }
    }

    /// A word path stands on the board and spells letters `a..z`.
    pub proof fn lemma_word_path_scorable(&self, tree: &WordTree, p: Seq<LetterSpace>)
        requires
            tree.wf(),
            is_word_path(*self, tree.root_node(), self.spec_swaps(), p),
        ensures
            scorable(*self, p),
    {
        assert(tree@.contains(spelled(p)));
        assert(admissible(spelled(p)));
        lemma_spelled(p);
        assert forall|i: int| 0 <= i < p.len() implies in_bounds(*self, #[trigger] p[i]) && is_lower_letter(p[i].character) by {
            assert(spelled(p)[i] == p[i].character);
        }
    }

    /// Keeps the `count` best-scoring of `words`: fills a buffer with the
    /// first `count`, then lets each later path replace the lowest entry when
    /// it scores strictly more; returns the buffer by score, high to low, with
    /// equal scores in buffer order.
    pub fn select_best(&self, words: Vec<Vec<LetterSpace>>, count: usize) -> (r: Vec<(Vec<LetterSpace>, usize)>)
        requires
            self.wf(),
            forall|i: int| 0 <= i < words@.len() ==> scorable(*self, #[trigger] words@[i]@),
        ensures
            is_top_k(*self, path_views(words@), count as nat, r@),
    {
        let ghost e = path_views(words@);
        assert(e.len() == words@.len());
        assert(forall|i: int| 0 <= i < words@.len() ==> #[trigger] e[i] == words@[i]@);
        let n: usize = if count < words.len() { count } else { words.len() };
        let mut buf: Vec<(Vec<LetterSpace>, usize)> = Vec::new();
        let ghost mut sel: Seq<int> = Seq::empty();
        let mut k: usize = 0;
        while k < n
            invariant
                n <= words@.len(),
                k <= n,
                self.wf(),
                e == path_views(words@),
                forall|i: int| 0 <= i < words@.len() ==> #[trigger] e[i] == words@[i]@,
                forall|i: int| 0 <= i < words@.len() ==> scorable(*self, #[trigger] words@[i]@),
                buf@.len() == k,
                sel == Seq::new(k as nat, |s: int| s),
                forall|s: int| 0 <= s < k ==> (#[trigger] buf@[s]).0@ == e[s] && buf@[s].1 == score_of(*self, e[s]),
            decreases n - k,
        {
            let pts = self.get_point_total(&words[k]);
            buf.push((copy_path(&words[k]), pts));
            proof {
                sel = sel.push(k as int);
                assert(sel =~= Seq::new((k + 1) as nat, |s: int| s));
            }
            k = k + 1;
        }
        if n == 0 {
            proof {
                assert(picks(e, buf@, sel));
            }
            return buf;
        }
        let mut min_idx = rescan_min(&buf, 0);
        proof {
            assert forall|j: int| 0 <= j < k implies #[trigger] sel.contains(j) by {
                assert(sel[j] == j);
            }
        }
        while k < words.len()
            invariant
                n == buf@.len(),
                n > 0,
                n <= k <= words@.len(),
                n < words@.len() ==> n == count,
                self.wf(),
                e == path_views(words@),
                forall|i: int| 0 <= i < words@.len() ==> #[trigger] e[i] == words@[i]@,
                forall|i: int| 0 <= i < words@.len() ==> scorable(*self, #[trigger] words@[i]@),
                sel.len() == n,
                forall|a: int, c: int| 0 <= a < c < n ==> sel[a] < sel[c],
                forall|s: int| 0 <= s < n ==> 0 <= #[trigger] sel[s] < k,
                forall|s: int| 0 <= s < n ==> (#[trigger] buf@[s]).0@ == e[sel[s]] && buf@[s].1 == score_of(*self, e[sel[s]]),
                min_idx < n,
                forall|s: int| 0 <= s < n ==> buf@[s].1 >= buf@[min_idx as int].1,
                forall|j: int| 0 <= j < k && !sel.contains(j) ==> score_of(*self, #[trigger] e[j]) <= buf@[min_idx as int].1,
            decreases words.len() - k,
        {
            let pts = self.get_point_total(&words[k]);
            if pts > buf[min_idx].1 {
                let ghost old_min = buf@[min_idx as int].1;
                let ghost old_sel = sel;
                let ghost dropped = sel[min_idx as int];
                let ghost prev_buf = buf@;
                let _removed = buf.remove(min_idx);
                let entry = (copy_path(&words[k]), pts);
                buf.push(entry);
                proof {
                    sel = old_sel.remove(min_idx as int).push(k as int);
                    assert(buf@ == prev_buf.remove(min_idx as int).push(entry));
                    assert forall|s: int| 0 <= s < n implies (#[trigger] buf@[s]).0@ == e[sel[s]] && buf@[s].1 == score_of(*self, e[sel[s]])
                        && 0 <= sel[s] < k + 1 && buf@[s].1 >= old_min by {
                        if s < min_idx {
                            assert(buf@[s] == prev_buf[s] && sel[s] == old_sel[s]);
                        } else if s < n - 1 {
                            assert(buf@[s] == prev_buf[s + 1] && sel[s] == old_sel[s + 1]);
                        } else {
                            assert(buf@[s] == entry && sel[s] == k);
                        }
                    }
                    assert forall|a: int, c: int| 0 <= a < c < n implies sel[a] < sel[c] by {
                        let oa = if a < min_idx { a } else { a + 1 };
                        assert(sel[a] == old_sel[oa]);
                        if c < n - 1 {
                            let oc = if c < min_idx { c } else { c + 1 };
                            assert(sel[c] == old_sel[oc]);
                        } else {
                            assert(sel[c] == k);
                        }
                    }
                }
                let new_min = rescan_min(&buf, buf.len() - 1);
                proof {
                    assert(buf@[new_min as int].1 >= old_min);
                    assert forall|j: int| 0 <= j < k + 1 && !sel.contains(j) implies score_of(*self, #[trigger] e[j]) <= buf@[new_min as int].1 by {
                        if j == dropped {
                            assert(old_sel[min_idx as int] == j);
                        } else {
                            assert(j != k) by {
                                assert(sel[n - 1] == k);
                            }
                            assert(!old_sel.contains(j)) by {
                                if old_sel.contains(j) {
                                    let t = choose|t: int| 0 <= t < old_sel.len() && old_sel[t] == j;
                                    assert(t != min_idx);
                                    if t < min_idx {
                                        assert(sel[t] == j);
                                    } else {
                                        assert(sel[t - 1] == j);
                                    }
                                }
                            }
                        }
                    }
                }
                min_idx = new_min;
            } else {
                proof {
                    assert forall|j: int| 0 <= j < k + 1 && !sel.contains(j) implies score_of(*self, #[trigger] e[j]) <= buf@[min_idx as int].1 by {
                        if j == k {
                            assert(e[j] == words@[j]@);
                        }
                    }
                }
            }
            k = k + 1;
        }
        let ghost m = buf@[min_idx as int].1;
        let ghost b0 = buf@;
        let out = sort_by_score(buf);
        proof {
            let perm = choose|perm: Seq<int>|
                is_permutation(perm, b0.len()) && (forall|t: int| 0 <= t < b0.len() ==> #[trigger] out@[t] == b0[perm[t]])
                    && forall|a: int, c: int|
                    0 <= a < c < out@.len() && (#[trigger] out@[a]).1 == (#[trigger] out@[c]).1 ==> perm[a] < perm[c];
            let osel = Seq::new(n as nat, |t: int| sel[perm[t]]);
            assert(picks(e, out@, osel)) by {
                assert forall|a: int, c: int| 0 <= a < c < osel.len() implies osel[a] != osel[c] by {
                    assert(perm[a] != perm[c]);
                    if perm[a] < perm[c] {
                        assert(sel[perm[a]] < sel[perm[c]]);
                    } else {
                        assert(sel[perm[c]] < sel[perm[a]]);
                    }
                }
                assert forall|t: int| 0 <= t < out@.len() implies 0 <= #[trigger] osel[t] < e.len() && out@[t].0@ == e[osel[t]] by {
                    assert(out@[t] == b0[perm[t]]);
                }
            }
            assert forall|j: int| 0 <= j < e.len() && !osel.contains(j) implies forall|i: int|
                0 <= i < out@.len() ==> score_of(*self, #[trigger] e[j]) <= (#[trigger] out@[i]).1 by {
                assert(!sel.contains(j)) by {
                    if sel.contains(j) {
                        let s0 = choose|s0: int| 0 <= s0 < sel.len() && sel[s0] == j;
                        assert(perm.contains(s0));
                        let t = choose|t: int| 0 <= t < perm.len() && perm[t] == s0;
                        assert(osel[t] == j);
                    }
                }
                assert forall|i: int| 0 <= i < out@.len() implies score_of(*self, #[trigger] e[j]) <= (#[trigger] out@[i]).1 by {
                    assert(out@[i] == b0[perm[i]]);
                }
            }
            assert forall|i: int| 0 <= i < out@.len() implies (#[trigger] out@[i]).1 == score_of(*self, out@[i].0@) by {
                assert(out@[i] == b0[perm[i]]);
            }
            assert forall|a: int, c: int| 0 <= a < c < out@.len() && (#[trigger] out@[a]).1 == (#[trigger] out@[c]).1
                implies osel[a] < osel[c] by {
                assert(perm[a] < perm[c]);
            }
        }
        out
    }

    /// Every path on the board that spells a dictionary word, with the
    /// board's swap budget: exactly the word paths, start cells in row-major
    /// order.
    pub fn get_all_possible_words(&self, tree: &WordTree) -> (r: Vec<Vec<LetterSpace>>)
        requires
            self.wf(),
            tree.wf(),
        ensures
            forall|i: int|
                0 <= i < r@.len() ==> is_word_path(*self, tree.root_node(), self.spec_swaps(), #[trigger] r@[i]@),
            forall|q: Seq<LetterSpace>|
                #[trigger] is_word_path(*self, tree.root_node(), self.spec_swaps(), q) ==> exists|i: int|
                    0 <= i < r@.len() && r@[i]@ == q,
            is_search_output(*self, tree.root_node(), self.spec_swaps(), path_views(r@)),
    {
        let ghost root = tree.root_node();
        let ghost sb = self.spec_swaps();
        let mut word_list: Vec<Vec<LetterSpace>> = Vec::new();
        let mut i: usize = 0;
        while i < self.size
            invariant
                self.wf(),
                tree.wf(),
                root == tree.root_node(),
                sb == self.spec_swaps(),
                i <= self.size,
                forall|k: int| 0 <= k < word_list@.len() ==> is_word_path(*self, root, sb, #[trigger] word_list@[k]@),
                forall|q: Seq<LetterSpace>|
                    #[trigger] is_word_path(*self, root, sb, q) && q[0].row < i ==> exists|k: int|
                        0 <= k < word_list@.len() && word_list@[k]@ == q,
                path_views(word_list@).no_duplicates(),
                starts_in_order(path_views(word_list@)),
                prefixes_first(*self, root, sb, path_views(word_list@)),
                forall|k: int| 0 <= k < word_list@.len() ==> (#[trigger] path_views(word_list@)[k]).len() > 0
                    && path_views(word_list@)[k][0].row < i,
            decreases self.size - i,
        {
            let mut j: usize = 0;
            while j < self.size
                invariant
                    self.wf(),
                    tree.wf(),
                    root == tree.root_node(),
                    sb == self.spec_swaps(),
                    i < self.size,
                    j <= self.size,
                    forall|k: int| 0 <= k < word_list@.len() ==> is_word_path(*self, root, sb, #[trigger] word_list@[k]@),
                    forall|q: Seq<LetterSpace>|
                        #[trigger] is_word_path(*self, root, sb, q) && (q[0].row < i || (q[0].row == i && q[0].col < j))
                            ==> exists|k: int| 0 <= k < word_list@.len() && word_list@[k]@ == q,
                    path_views(word_list@).no_duplicates(),
                    starts_in_order(path_views(word_list@)),
                    prefixes_first(*self, root, sb, path_views(word_list@)),
                    forall|k: int| 0 <= k < word_list@.len() ==> (#[trigger] path_views(word_list@)[k]).len() > 0
                        && !cell_le(i as int, j as int, path_views(word_list@)[k][0].row as int, path_views(word_list@)[k][0].col as int),
                decreases self.size - j,
            {
                let ghost before = word_list@;
                let mut found = self.get_all_words_from_pos(tree, i, j, self.swaps);
                let ghost fv = found@;
                word_list.append(&mut found);
                proof {
                    assert(word_list@ == before + fv);
                    assert(path_views(word_list@) =~= path_views(before) + path_views(fv));
                    assert forall|k: int| 0 <= k < fv.len() implies starts_at(#[trigger] path_views(fv)[k], i as int, j as int) by {
                        assert(path_views(fv)[k] == fv[k]@);
                    }
                    lemma_append_block(*self, root, sb, path_views(before), path_views(fv), i as int, j as int);
                    assert forall|k: int| 0 <= k < word_list@.len() implies (#[trigger] path_views(word_list@)[k]).len() > 0
                        && !cell_le(i as int, j + 1, path_views(word_list@)[k][0].row as int, path_views(word_list@)[k][0].col as int) by {
                        assert(cell_le(path_views(word_list@)[k][0].row as int, path_views(word_list@)[k][0].col as int, i as int, j as int));
                    }
                    assert forall|k: int| 0 <= k < word_list@.len() implies is_word_path(*self, root, sb, #[trigger] word_list@[k]@) by {
                        if k >= before.len() {
                            assert(word_list@[k] == fv[k - before.len()]);
                        } else {
                            assert(word_list@[k] == before[k]);
                        }
                    }
                    assert forall|q: Seq<LetterSpace>|
                        #[trigger] is_word_path(*self, root, sb, q) && (q[0].row < i || (q[0].row == i && q[0].col < j + 1))
                        implies exists|k: int| 0 <= k < word_list@.len() && word_list@[k]@ == q by {
                        if q[0].row == i && q[0].col == j {
                            assert(starts_at(q, i as int, j as int));
                            let m = choose|m: int| 0 <= m < fv.len() && fv[m]@ == q;
                            assert(word_list@[before.len() + m] == fv[m]);
                        } else {
                            let m = choose|m: int| 0 <= m < before.len() && before[m]@ == q;
                            assert(word_list@[m] == before[m]);
                        }
                    }
                }
                j = j + 1;
            }
            i = i + 1;
        }
        proof {
            assert forall|q: Seq<LetterSpace>| #[trigger] is_word_path(*self, root, sb, q) implies exists|k: int|
                0 <= k < word_list@.len() && word_list@[k]@ == q by {
                assert(in_bounds(*self, q[0]));
            }
            self.lemma_emission(tree, word_list@);
        }
        word_list
    }

    /// The search invariants survive taking a step forward.
    #[verifier::spinoff_prover]
    proof fn lemma_after_step<'a>(
        &self,
        tree: &WordTree,
        sb: nat,
        prev: Seq<LetterSpace>,
        x: LetterSpace,
        st0: Seq<Seq<StackElement<'a>>>,
        st1: Seq<Seq<StackElement<'a>>>,
        st2: Seq<Seq<StackElement<'a>>>,
        st3: Seq<Seq<StackElement<'a>>>,
        w0: Seq<Vec<LetterSpace>>,
        w1: Seq<Vec<LetterSpace>>,
        r0: int,
        c0: int,
        d: nat,
    )
        requires
            self.wf(),
            tree.wf(),
            is_trail(*self, tree.root_node(), sb, prev),
            prev.len() > 0 ==> starts_at(prev, r0, c0),
            node_at(tree.root_node(), spelled(prev)) is Some,
            frames_ok(*self, tree.root_node(), sb, prev, st0, r0, c0),
            st0.len() > 0,
            st0.last().len() >= 2,
            st0.last().last() == StackElement::LetterStep(x),
            st1 == st0.update(st0.len() - 1, st0.last().drop_last()),
            st2.len() == st1.len() + 1,
            st2.drop_last() == st1,
            st2.last().len() == 1,
            st2.last()[0] matches StackElement::RemoveOp(n) && node_at(tree.root_node(), spelled(prev)) == Some(*n),
            top_grown(st2, st3),
            pushed(st2, st3).len() <= 243,
            pushed_extend(*self, tree.root_node(), sb, prev.push(x), st2, st3),
            pushed_cover(*self, tree.root_node(), sb, prev.push(x), st2, st3, 3, 0),
            forall|i: int| 0 <= i < w0.len() ==> #[trigger] w1[i] == w0[i],
            w1.len() == w0.len() + (if is_word_at(tree.root_node(), spelled(prev.push(x))) { 1int } else { 0int }),
            is_word_at(tree.root_node(), spelled(prev.push(x))) ==> w1[w0.len() as int]@ == prev.push(x),
            forall|i: int|
                0 <= i < w0.len() ==> is_word_path(*self, tree.root_node(), sb, #[trigger] w0[i]@) && starts_at(w0[i]@, r0, c0),
            forall|q: Seq<LetterSpace>|
                #[trigger] is_word_path(*self, tree.root_node(), sb, q) && starts_at(q, r0, c0) ==> covered(prev, st0, w0, q),
            d == self.spec_size() * self.spec_size(),
        ensures
            is_trail(*self, tree.root_node(), sb, prev.push(x)),
            starts_at(prev.push(x), r0, c0),
            frames_ok(*self, tree.root_node(), sb, prev.push(x), st3, r0, c0),
            forall|i: int|
                0 <= i < w1.len() ==> is_word_path(*self, tree.root_node(), sb, #[trigger] w1[i]@) && starts_at(w1[i]@, r0, c0),
            forall|q: Seq<LetterSpace>|
                #[trigger] is_word_path(*self, tree.root_node(), sb, q) && starts_at(q, r0, c0) ==> covered(prev.push(x), st3, w1, q),
            stack_measure(st3, d) < stack_measure(st0, d),
    {
        let root = tree.root_node();
        let top = st0.len() - 1;
        let next = prev.push(x);
        assert(top == prev.len());
        assert(st0[top][st0[top].len() - 1] == StackElement::LetterStep(x));
        assert(is_trail(*self, root, sb, prev.take(top).push(x)) && (top == 0 ==> x.row == r0 && x.col == c0));
        assert(prev.take(top) == prev);
        assert(next[0] == (if top == 0 { x } else { prev[0] }));
        lemma_path_len_bound(*self, next);
        assert forall|k: int| 0 <= k <= prev.len() implies #[trigger] next.take(k) == prev.take(k) by {
            assert(next.take(k) =~= prev.take(k));
        }
        assert(next.take(top + 1) == next);
        assert(st3.drop_last() == st1);
        assert(st3.len() == st0.len() + 1);
        assert forall|k: int| 0 <= k < top implies #[trigger] st3[k] == st0[k] by {
            assert(st3[k] == st1[k]);
        }
        assert(st3[top] == st0[top].drop_last()) by {
            assert(st3[top] == st1[top]);
        }
        assert(st3.last().skip(1) == pushed(st2, st3)) by {
            assert(st3.last().skip(1) =~= pushed(st2, st3));
        }
        assert(st3.last()[0] == st2.last()[0]) by {
            assert(st3.last().take(1)[0] == st3.last()[0]);
        }
        assert forall|k: int| 0 <= k <= top implies frame_parent(root, next, k) == frame_parent(root, prev, k) by {
            if k > 0 {
                assert(next.take(k - 1) == prev.take(k - 1));
            }
        }
        assert(frames_ok(*self, root, sb, next, st3, r0, c0)) by {
            assert forall|k: int| 0 <= k < st3.len() implies 1 <= (#[trigger] st3[k]).len() <= 244 by {
                if k == top + 1 {
                    assert(st3[k] == st3.last());
                }
            }
            assert forall|k: int| 0 <= k < st3.len() implies ((#[trigger] st3[k])[0] matches StackElement::RemoveOp(n)
                && *n == frame_parent(root, next, k)) by {
                if k == top + 1 {
                    assert(st3[k] == st3.last());
                    assert(next.take(k - 1) == prev);
                } else if k == top {
                    assert(st3[k][0] == st0[k][0]);
                }
            }
            assert forall|k: int, j: int| 0 <= k < st3.len() && 1 <= j < st3[k].len() implies ((#[trigger] st3[k][j]) matches StackElement::LetterStep(y)
                && is_trail(*self, root, sb, next.take(k).push(y)) && (k == 0 ==> y.row == r0 && y.col == c0)) by {
                if k == top + 1 {
                    assert(st3[k] == st3.last());
                    assert(st3[k][j] == pushed(st2, st3)[j - 1]);
                } else {
                    assert(st3[k][j] == st0[k][j]);
                    assert(next.take(k) == prev.take(k));
                }
            }
        }
        assert forall|i: int|
            0 <= i < w1.len() implies is_word_path(*self, root, sb, #[trigger] w1[i]@) && starts_at(w1[i]@, r0, c0) by {
            if i < w0.len() {
                assert(w1[i] == w0[i]);
            }
        }
        assert(st0[top].skip(1) == st3[top].skip(1).push(StackElement::LetterStep(x))) by {
            assert(st0[top].skip(1) =~= st3[top].skip(1).push(StackElement::LetterStep(x)));
        }
        assert(st3[top + 1] == st3.last());
        assert forall|q: Seq<LetterSpace>|
            #[trigger] is_word_path(*self, root, sb, q) && starts_at(q, r0, c0) implies covered(next, st3, w1, q) by {
            self.lemma_step_cover_one(tree, sb, prev, x, st0, st2, st3, w0, w1, q);
        }
        let e3 = (d - (top + 1)) as nat;
        assert(weight((d - top) as nat) == 245 * weight(e3));
        lemma_weight_positive(e3);
        assert(stack_measure(st3, d) == stack_measure(st1, d) + st3.last().len() * weight(e3));
        assert(stack_measure(st1, d) == stack_measure(st0.drop_last(), d) + (st0.last().len() - 1) * weight((d - top) as nat)) by {
            assert(st1.drop_last() == st0.drop_last());
        }
        assert(st3.last().len() * weight(e3) < 245 * weight(e3)) by (nonlinear_arith)
            requires
                st3.last().len() <= 244,
                weight(e3) > 0,
        ;
        assert((st0.last().len() - 1) * weight((d - top) as nat) + st3.last().len() * weight(e3) < st0.last().len() * weight((d - top) as nat)) by (nonlinear_arith)
            requires
                st3.last().len() * weight(e3) < weight((d - top) as nat),
                st0.last().len() >= 2,
        ;
    }

    /// One word path stays covered after a step forward.
    #[verifier::spinoff_prover]
    proof fn lemma_step_cover_one<'a>(
        &self,
        tree: &WordTree,
        sb: nat,
        prev: Seq<LetterSpace>,
        x: LetterSpace,
        st0: Seq<Seq<StackElement<'a>>>,
        st2: Seq<Seq<StackElement<'a>>>,
        st3: Seq<Seq<StackElement<'a>>>,
        w0: Seq<Vec<LetterSpace>>,
        w1: Seq<Vec<LetterSpace>>,
        q: Seq<LetterSpace>,
    )
        requires
            tree.wf(),
            st0.len() == prev.len() + 1,
            st3.len() == st0.len() + 1,
            forall|k: int| 0 <= k < prev.len() ==> #[trigger] st3[k] == st0[k],
            st0[prev.len() as int].skip(1) == st3[prev.len() as int].skip(1).push(StackElement::LetterStep(x)),
            st3[prev.len() as int + 1].skip(1) == pushed(st2, st3),
            pushed_cover(*self, tree.root_node(), sb, prev.push(x), st2, st3, 3, 0),
            forall|i: int| 0 <= i < w0.len() ==> #[trigger] w1[i] == w0[i],
            w1.len() == w0.len() + (if is_word_at(tree.root_node(), spelled(prev.push(x))) { 1int } else { 0int }),
            is_word_at(tree.root_node(), spelled(prev.push(x))) ==> w1[w0.len() as int]@ == prev.push(x),
            is_trail(*self, tree.root_node(), sb, prev.push(x)),
            is_word_path(*self, tree.root_node(), sb, q),
            covered(prev, st0, w0, q),
        ensures
            covered(prev.push(x), st3, w1, q),
    {
        let root = tree.root_node();
        let top = prev.len() as int;
        let next = prev.push(x);
        assert forall|k: int| 0 <= k <= prev.len() implies #[trigger] next.take(k) == prev.take(k) by {
            assert(next.take(k) =~= prev.take(k));
        }
        if exists|i: int| 0 <= i < w0.len() && (#[trigger] w0[i])@ == q {
            let i = choose|i: int| 0 <= i < w0.len() && (#[trigger] w0[i])@ == q;
            assert(w1[i] == w0[i]);
        } else {
            let k = choose|k: int|
                0 <= k < st0.len() && k < q.len() && q.take(k) == prev.take(k) && (#[trigger] st0[k]).skip(1).contains(
                    StackElement::LetterStep(q[k]),
                );
            let e = StackElement::LetterStep(q[k]);
            if k < top {
                assert(q.take(k) == next.take(k));
                assert(st3[k] == st0[k]);
            } else if st3[top].skip(1).contains(e) {
                assert(q.take(k) == next.take(k));
            } else {
                assert(q[k] == x) by {
                    let m = choose|m: int| 0 <= m < st0[top].skip(1).len() && st0[top].skip(1)[m] == e;
                    if m < st3[top].skip(1).len() {
                        assert(st3[top].skip(1)[m] == e);
                    }
                }
                assert(q.take(top) == prev) by {
                    assert(prev.take(top) =~= prev);
                }
                assert(q.take(top + 1) == next) by {
                    assert(q.take(top + 1) =~= q.take(top).push(q[k]));
                }
                assert(next.take(top + 1) =~= next);
                if q.len() == top + 1 {
                    assert(q == next) by {
                        assert(q.take(top + 1) =~= q);
                    }
                    assert(w1[w0.len() as int]@ == q);
                } else {
                    let y = q[top + 1];
                    lemma_trail_prefix(*self, root, sb, q, top + 2);
                    assert(q.take(top + 2) == next.push(y)) by {
                        assert(q.take(top + 2) =~= q.take(top + 1).push(y));
                    }
                    lemma_trail_push(*self, root, sb, next, y);
                    assert(tree@.contains(spelled(q)));
                    lemma_spelled(q);
                    assert(is_lower_letter(y.character)) by {
                        assert(admissible(spelled(q)));
                        assert(spelled(q)[top + 1] == y.character);
                    }
                    assert(next.last() == x);
                    assert(pushed(st2, st3).contains(StackElement::LetterStep(y)));
                }
            }
        }
    }

    /// The search invariants survive taking a step back.
    proof fn lemma_after_remove<'a>(
        &self,
        tree: &WordTree,
        sb: nat,
        prev: Seq<LetterSpace>,
        next: Seq<LetterSpace>,
        st0: Seq<Seq<StackElement<'a>>>,
        st1: Seq<Seq<StackElement<'a>>>,
        words: Seq<Vec<LetterSpace>>,
        r0: int,
        c0: int,
        d: nat,
    )
        requires
            self.wf(),
            tree.wf(),
            is_trail(*self, tree.root_node(), sb, prev),
            prev.len() > 0 ==> starts_at(prev, r0, c0),
            frames_ok(*self, tree.root_node(), sb, prev, st0, r0, c0),
            st0.len() > 0,
            st0.last().len() > 0,
            st0.last().last() is RemoveOp,
            st1 == (if st0.last().len() == 1 {
                st0.drop_last()
            } else {
                st0.update(st0.len() - 1, st0.last().drop_last())
            }),
            next == (if prev.len() > 0 { prev.drop_last() } else { prev }),
            forall|q: Seq<LetterSpace>|
                #[trigger] is_word_path(*self, tree.root_node(), sb, q) && starts_at(q, r0, c0) ==> covered(prev, st0, words, q),
            d == self.spec_size() * self.spec_size(),
            prev.len() <= d,
        ensures
            is_trail(*self, tree.root_node(), sb, next),
            next.len() > 0 ==> starts_at(next, r0, c0),
            st0.last().last() matches StackElement::RemoveOp(n) && node_at(tree.root_node(), spelled(next)) == Some(*n),
            frames_ok(*self, tree.root_node(), sb, next, st1, r0, c0),
            forall|q: Seq<LetterSpace>|
                #[trigger] is_word_path(*self, tree.root_node(), sb, q) && starts_at(q, r0, c0) ==> covered(next, st1, words, q),
            stack_measure(st1, d) < stack_measure(st0, d),
    {
        let root = tree.root_node();
        let top = st0.len() - 1;
        assert(st0.last().len() == 1) by {
            if st0.last().len() > 1 {
                assert(st0[top][st0[top].len() - 1] is LetterStep);
            }
        }
        assert(st1 == st0.drop_last());
        assert(top == prev.len());
        if prev.len() > 0 {
            lemma_trail_prefix(*self, root, sb, prev, prev.len() - 1);
            assert(prev.take(prev.len() - 1) == next);
        }
        assert forall|k: int| 0 <= k <= next.len() implies #[trigger] next.take(k) == prev.take(k) by {
            assert(next.take(k) =~= prev.take(k));
        }
        assert forall|k: int| 0 <= k < st1.len() implies frame_parent(root, next, k) == frame_parent(root, prev, k) by {
            if k > 0 {
                assert(next.take(k - 1) == prev.take(k - 1));
            }
        }
        assert(frames_ok(*self, root, sb, next, st1, r0, c0)) by {
            assert forall|k: int| 0 <= k < st1.len() implies 1 <= (#[trigger] st1[k]).len() <= 244 by {
                assert(st1[k] == st0[k]);
            }
            assert forall|k: int| 0 <= k < st1.len() implies ((#[trigger] st1[k])[0] matches StackElement::RemoveOp(n)
                && *n == frame_parent(root, next, k)) by {
                assert(st1[k] == st0[k]);
            }
            assert forall|k: int, j: int| 0 <= k < st1.len() && 1 <= j < st1[k].len() implies ((#[trigger] st1[k][j]) matches StackElement::LetterStep(y)
                && is_trail(*self, root, sb, next.take(k).push(y)) && (k == 0 ==> y.row == r0 && y.col == c0)) by {
                assert(st1[k] == st0[k]);
                assert(next.take(k) == prev.take(k));
            }
        }
        assert(node_at(root, spelled(next)) == Some(frame_parent(root, prev, top))) by {
            if prev.len() > 0 {
                assert(node_at(root, spelled(next)) is Some);
            }
        }
        assert forall|q: Seq<LetterSpace>|
            #[trigger] is_word_path(*self, root, sb, q) && starts_at(q, r0, c0) implies covered(next, st1, words, q) by {
            if !(exists|i: int| 0 <= i < words.len() && (#[trigger] words[i])@ == q) {
                let k = choose|k: int|
                    0 <= k < st0.len() && k < q.len() && q.take(k) == prev.take(k) && (#[trigger] st0[k]).skip(1).contains(
                        StackElement::LetterStep(q[k]),
                    );
                if k == top {
                    assert(st0[k].skip(1).len() == 0);
                }
                assert(st1[k] == st0[k]);
                assert(q.take(k) == next.take(k));
            }
        }
        if next.len() > 0 {
            assert(next[0] == prev[0]);
        }
        assert(stack_measure(st0, d) == stack_measure(st1, d) + st0.last().len() * weight((d - top) as nat));
        assert(weight((d - top) as nat) > 0) by {
            lemma_weight_positive((d - top) as nat);
        }
    }

    /// The number of rows, which is also the number of columns.
    pub fn size(&self) -> (r: usize)
        ensures
            r == self.spec_size(),
    {
        self.size
    }

    /// The swap budget of each path.
    pub fn swaps(&self) -> (r: usize)
        ensures
            r == self.spec_swaps(),
    {
        self.swaps
    }

    /// Whether callers should fan the search out over start cells.
    pub fn multithreading(&self) -> (r: bool)
        ensures
            r == self.spec_multithreading(),
    {
        self.multithreading
    }

    pub fn set_swaps(&mut self, swaps: usize)
        ensures
            final(self).spec_swaps() == swaps,
            final(self).spec_size() == old(self).spec_size(),
            final(self).spec_multithreading() == old(self).spec_multithreading(),
            forall|r: int, c: int| #[trigger] final(self).cell(r, c) == old(self).cell(r, c),
            old(self).wf() ==> final(self).wf(),
    {
        self.swaps = swaps;
        assert(old(self).shape_ok() ==> self.shape_ok());
        assert(forall|r: int, c: int| #[trigger] self.letter_at(r, c) == old(self).letter_at(r, c));
    }

    pub fn set_multithreading(&mut self, use_mt: bool)
        ensures
            final(self).spec_multithreading() == use_mt,
            final(self).spec_swaps() == old(self).spec_swaps(),
            final(self).spec_size() == old(self).spec_size(),
            forall|r: int, c: int| #[trigger] final(self).cell(r, c) == old(self).cell(r, c),
            old(self).wf() ==> final(self).wf(),
    {
        self.multithreading = use_mt;
        assert(old(self).shape_ok() ==> self.shape_ok());
        assert(forall|r: int, c: int| #[trigger] self.letter_at(r, c) == old(self).letter_at(r, c));
    }

    /// The cell at row `r`, column `c`.
    pub fn letter(&self, r: usize, c: usize) -> (l: &Letter)
        requires
            self.wf(),
            r < self.spec_size(),
            c < self.spec_size(),
        ensures
            *l == self.cell(r as int, c as int),
    {
        &self.grid[r][c]
    }
}

} // verus!
