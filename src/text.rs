use vstd::prelude::*;

verus! {

/// Views of a vector of character vectors.
pub open spec fn views(v: Seq<Vec<char>>) -> Seq<Seq<char>> {
    v.map_values(|x: Vec<char>| x@)
}

pub proof fn lemma_views(v: Seq<Vec<char>>)
    ensures
        views(v).len() == v.len(),
        forall|i: int| 0 <= i < v.len() ==> #[trigger] views(v)[i] == v[i]@,
{
}

/// The pieces of `s` between occurrences of `sep`; `k` separators give `k + 1` pieces.
pub open spec fn split_on(s: Seq<char>, sep: char) -> Seq<Seq<char>>
    decreases s.len(),
{
    if s.len() == 0 {
        seq![Seq::empty()]
    } else {
        let prev = split_on(s.drop_last(), sep);
        if s.last() == sep {
            prev.push(Seq::empty())
        } else {
            prev.update(prev.len() - 1, prev.last().push(s.last()))
        }
    }
}

pub proof fn lemma_split_on_nonempty(s: Seq<char>, sep: char)
    ensures
        split_on(s, sep).len() >= 1,
    decreases s.len(),
{
    if s.len() > 0 {
        lemma_split_on_nonempty(s.drop_last(), sep);
    }
}

/// A line without the carriage return that ended it.
pub open spec fn strip_cr(l: Seq<char>) -> Seq<char> {
    if l.len() > 0 && l.last() == '\r' {
        l.drop_last()
    } else {
        l
    }
}

/// The lines of a text: split at `\n`, a `\r` before the `\n` dropped, and no
/// empty line after a final `\n`.
pub open spec fn lines_of(s: Seq<char>) -> Seq<Seq<char>> {
    let segs = split_on(s, '\n');
    let n = if segs.last().len() == 0 { segs.len() - 1 } else { segs.len() as int };
    Seq::new(n as nat, |j: int| if j < segs.len() - 1 { strip_cr(segs[j]) } else { segs[j] })
}

/// ASCII whitespace: space, tab, line feed, form feed and carriage return.
pub open spec fn is_ascii_ws(c: char) -> bool {
    c == ' ' || c == '\t' || c == '\n' || c == '\x0C' || c == '\r'
}

/// The maximal runs of characters that are not ASCII whitespace.
pub open spec fn tokens_of(s: Seq<char>) -> Seq<Seq<char>>
    decreases s.len(),
{
    if s.len() == 0 {
        Seq::empty()
    } else {
        let prev = tokens_of(s.drop_last());
        let c = s.last();
        if is_ascii_ws(c) {
            prev
        } else if s.len() >= 2 && !is_ascii_ws(s[s.len() - 2]) {
            prev.update(prev.len() - 1, prev.last().push(c))
        } else {
            prev.push(seq![c])
        }
    }
}

pub proof fn lemma_tokens_of_open(s: Seq<char>)
    requires
        s.len() > 0,
        !is_ascii_ws(s.last()),
    ensures
        tokens_of(s).len() >= 1,
        tokens_of(s).last().len() >= 1,
    decreases s.len(),
{
    if s.len() >= 2 && !is_ascii_ws(s[s.len() - 2]) {
        lemma_tokens_of_open(s.drop_last());
    }
}

fn is_ascii_whitespace_char(c: char) -> (r: bool)
    ensures
        r == is_ascii_ws(c),
{
    c == ' ' || c == '\t' || c == '\n' || c == '\x0C' || c == '\r'
}

/// The characters of `s`, in order.
pub fn chars_of(s: &str) -> (r: Vec<char>)
    ensures
        r@ == s@,
{
    let mut r: Vec<char> = Vec::new();
    for c in it: s.chars()
        invariant
            it.seq() == s@,
            r@ == it.seq().take(it.index() as int),
    {
        r.push(c);
    }
    r
}

/// Splits `s` at every `sep`.
pub fn split_chars(s: &Vec<char>, sep: char) -> (r: Vec<Vec<char>>)
    ensures
        views(r@) == split_on(s@, sep),
{
    let mut segs: Vec<Vec<char>> = Vec::new();
    let mut cur: Vec<char> = Vec::new();
    let mut i: usize = 0;
    while i < s.len()
        invariant
            i <= s.len(),
            views(segs@).push(cur@) == split_on(s@.take(i as int), sep),
        decreases s.len() - i,
    {
        let c = s[i];
        proof {
            let t = s@.take(i as int + 1);
            assert(t.drop_last() == s@.take(i as int));
            lemma_split_on_nonempty(s@.take(i as int), sep);
        }
        if c == sep {
            let ghost before = segs@;
            let mut done: Vec<char> = Vec::new();
            std::mem::swap(&mut cur, &mut done);
            segs.push(done);
            assert(views(segs@) =~= views(before).push(done@));
        } else {
            cur.push(c);
        }
        i = i + 1;
    }
    assert(s@.take(s.len() as int) == s@);
    segs.push(cur);
    assert(views(segs@) =~= split_on(s@, sep));
    segs
}

/// The lines of `s`, as `str::lines` gives them.
pub fn lines(s: &str) -> (r: Vec<Vec<char>>)
    ensures
        views(r@) == lines_of(s@),
{
    let chars = chars_of(s);
    let segs = split_chars(&chars, '\n');
    proof {
        lemma_split_on_nonempty(s@, '\n');
    }
    let total = segs.len();
    let n: usize = if segs[total - 1].len() == 0 { total - 1 } else { total };
    let ghost sv = views(segs@);
    let mut r: Vec<Vec<char>> = Vec::new();
    let mut j: usize = 0;
    for seg in it: segs.into_iter()
        invariant
            it.seq() == segs@,
            sv == views(segs@),
            sv == split_on(s@, '\n'),
            total == segs@.len(),
            n <= total,
            n == lines_of(s@).len(),
            j == it.index(),
            r@.len() == (if j <= n { j as int } else { n as int }),
            forall|k: int| 0 <= k < r@.len() ==> #[trigger] r@[k]@ == lines_of(s@)[k],
    {
        if j < n {
            let mut line = seg;
            if j < total - 1 && line.len() > 0 && line[line.len() - 1] == '\r' {
                line.pop();
            }
            proof {
                assert(line@ == lines_of(s@)[j as int]);
            }
            r.push(line);
        }
        j = j + 1;
    }
    assert(views(r@) =~= lines_of(s@));
    r
}

/// Splits `s` into its runs of characters that are not ASCII whitespace.
pub fn tokens(s: &Vec<char>) -> (r: Vec<Vec<char>>)
    ensures
        views(r@) == tokens_of(s@),
{
    let mut toks: Vec<Vec<char>> = Vec::new();
    let mut cur: Vec<char> = Vec::new();
    let mut i: usize = 0;
    while i < s.len()
        invariant
            i <= s.len(),
            (i > 0 && !is_ascii_ws(s@[i - 1])) ==> (cur@.len() > 0 && views(toks@).push(cur@)
                == tokens_of(s@.take(i as int))),
            !(i > 0 && !is_ascii_ws(s@[i - 1])) ==> (cur@.len() == 0 && views(toks@)
                == tokens_of(s@.take(i as int))),
        decreases s.len() - i,
    {
        let c = s[i];
        proof {
            let t = s@.take(i as int + 1);
            assert(t.drop_last() == s@.take(i as int));
        }
        if is_ascii_whitespace_char(c) {
            if cur.len() > 0 {
                let ghost before = toks@;
                let mut done: Vec<char> = Vec::new();
                std::mem::swap(&mut cur, &mut done);
                toks.push(done);
                assert(views(toks@) =~= views(before).push(done@));
            }
        } else {
            cur.push(c);
            proof {
                let t = s@.take(i as int + 1);
                if i > 0 && !is_ascii_ws(s@[i - 1]) {
                    assert(t[t.len() - 2] == s@[i - 1]);
                    lemma_tokens_of_open(s@.take(i as int));
                    assert(views(toks@).push(cur@) =~= tokens_of(t));
                } else {
                    if i > 0 {
                        assert(t[t.len() - 2] == s@[i - 1]);
                    }
                    assert(cur@ =~= seq![c]);
                    assert(views(toks@).push(cur@) =~= tokens_of(t));
                }
            }
        }
        i = i + 1;
    }
    assert(s@.take(s.len() as int) == s@);
    if cur.len() > 0 {
        let ghost before = toks@;
        toks.push(cur);
        assert(views(toks@) =~= views(before).push(cur@));
    }
    toks
}

} // verus!
