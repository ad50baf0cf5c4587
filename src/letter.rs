use vstd::prelude::*;
use crate::text::{chars_of, split_chars, split_on, views, lemma_split_on_nonempty};

verus! {

/// A scoring modifier attached to a board cell.
#[derive(Clone, Copy, PartialEq, Eq, Structural, Debug)]
pub enum Modifier {
    Default,
    DoubleLetter,
    TripleLetter,
    DoubleWord,
}

/// Point value of a lowercase letter `a..z`; other characters have no value.
pub open spec fn spec_letter_value(c: char) -> Option<nat> {
    if c == 'a' { Some(1) }
    else if c == 'b' { Some(4) }
    else if c == 'c' { Some(5) }
    else if c == 'd' { Some(3) }
    else if c == 'e' { Some(1) }
    else if c == 'f' { Some(5) }
    else if c == 'g' { Some(3) }
    else if c == 'h' { Some(4) }
    else if c == 'i' { Some(1) }
    else if c == 'j' { Some(7) }
    else if c == 'k' { Some(6) }
    else if c == 'l' { Some(3) }
    else if c == 'm' { Some(4) }
    else if c == 'n' { Some(2) }
    else if c == 'o' { Some(1) }
    else if c == 'p' { Some(4) }
    else if c == 'q' { Some(8) }
    else if c == 'r' { Some(2) }
    else if c == 's' { Some(2) }
    else if c == 't' { Some(2) }
    else if c == 'u' { Some(4) }
    else if c == 'v' { Some(5) }
    else if c == 'w' { Some(5) }
    else if c == 'x' { Some(7) }
    else if c == 'y' { Some(4) }
    else if c == 'z' { Some(8) }
    else { None }
}

/// A lowercase ASCII letter.
pub open spec fn is_lower_letter(c: char) -> bool {
    'a' <= c <= 'z'
}

pub proof fn lemma_letter_value_defined(c: char)
    ensures
        spec_letter_value(c).is_some() <==> is_lower_letter(c),
        spec_letter_value(c).is_some() ==> 1 <= spec_letter_value(c).unwrap() <= 8,
{
}

/// The text that names a modifier in a board token, after a `|`.
pub open spec fn modifier_code(m: Modifier) -> Seq<char> {
    match m {
        Modifier::DoubleLetter => seq!['d', 'l'],
        Modifier::TripleLetter => seq!['t', 'l'],
        Modifier::DoubleWord => seq!['d', 'w'],
        Modifier::Default => Seq::empty(),
    }
}

/// The modifier that a `|`-piece of a board token names, if any.
pub open spec fn code_modifier(seg: Seq<char>) -> Option<Modifier> {
    if seg == modifier_code(Modifier::DoubleLetter) {
        Some(Modifier::DoubleLetter)
    } else if seg == modifier_code(Modifier::TripleLetter) {
        Some(Modifier::TripleLetter)
    } else if seg == modifier_code(Modifier::DoubleWord) {
        Some(Modifier::DoubleWord)
    } else {
        None
    }
}

/// The modifiers that a sequence of pieces names, in order; unknown pieces
/// name nothing.
pub open spec fn named_modifiers(segs: Seq<Seq<char>>) -> Seq<Modifier>
    decreases segs.len(),
{
    if segs.len() == 0 {
        Seq::empty()
    } else {
        named_modifiers(segs.drop_last()) + match code_modifier(segs.last()) {
            Some(m) => seq![m],
            None => Seq::empty(),
        }
    }
}

/// The modifiers of a board token such as `c|dl|dw`: those named by the
/// `|`-separated pieces after the first, in token order.
pub open spec fn token_modifiers(tok: Seq<char>) -> Seq<Modifier> {
    named_modifiers(split_on(tok, '|').skip(1))
}

/// A board cell: its letter and the set of its scoring modifiers.
pub struct Letter {
    pub character: char,
    modifiers: Vec<Modifier>,
}

impl Letter {
    /// The letter of this cell.
    pub closed spec fn letter_char(&self) -> char {
        self.character
    }

    /// The modifiers as stored, in the order given.
    pub closed spec fn modifier_seq(&self) -> Seq<Modifier> {
        self.modifiers@
    }

    /// Whether this cell carries modifier `m` (duplicates add nothing).
    pub open spec fn has_modifier(&self, m: Modifier) -> bool {
        self.modifier_seq().contains(m)
    }

    pub fn new(character: char, modifiers: &Vec<Modifier>) -> (r: Letter)
        ensures
            r.letter_char() == character,
            r.modifier_seq() == modifiers@,
    {
        let mut v: Vec<Modifier> = Vec::new();
        let mut i: usize = 0;
        while i < modifiers.len()
            invariant
                i <= modifiers.len(),
                v@ == modifiers@.take(i as int),
            decreases modifiers.len() - i,
        {
            v.push(modifiers[i]);
            i = i + 1;
            assert(v@ =~= modifiers@.take(i as int));
        }
        assert(modifiers@.take(modifiers.len() as int) =~= modifiers@);
        Letter { character, modifiers: v }
    }

    pub fn character(&self) -> (r: char)
        ensures
            r == self.letter_char(),
    {
        self.character
    }

    /// Whether this cell carries modifier `m`.
    pub fn has(&self, m: Modifier) -> (r: bool)
        ensures
            r == self.has_modifier(m),
    {
        let mut i: usize = 0;
        while i < self.modifiers.len()
            invariant
                i <= self.modifiers.len(),
                forall|j: int| 0 <= j < i ==> self.modifiers@[j] != m,
            decreases self.modifiers.len() - i,
        {
            if self.modifiers[i] == m {
                return true;
            }
            i = i + 1;
        }
        false
    }

    pub fn modifiers(&self) -> (r: &Vec<Modifier>)
        ensures
            r@ == self.modifier_seq(),
    {
        &self.modifiers
    }

    /// Parses a board token `x` or `x|m1|m2...`: the first character is the
    /// letter, and each later `|`-piece that reads `dl`, `tl` or `dw` adds
    /// that modifier. Fails only on an empty token.
    pub fn build_letter_from_input_word(word: &str) -> (r: Result<Letter, String>)
        ensures
            r is Err <==> word@.len() == 0,
            r matches Err(e) ==> e@ == "Unexpected empty space in board."@,
            r matches Ok(l) ==> l.letter_char() == word@[0] && l.modifier_seq() == token_modifiers(word@),
    {
        let chars = chars_of(word);
        Letter::from_chars(&chars)
    }

    /// `build_letter_from_input_word` on a token given as characters.
    pub fn from_chars(chars: &Vec<char>) -> (r: Result<Letter, String>)
        ensures
            r is Err <==> chars@.len() == 0,
            r matches Err(e) ==> e@ == "Unexpected empty space in board."@,
            r matches Ok(l) ==> l.letter_char() == chars@[0] && l.modifier_seq() == token_modifiers(chars@),
    {
        if chars.len() == 0 {
            let e = "Unexpected empty space in board.".to_string();
            return Err(e);
        }
        let first_char = chars[0];
        let segs = split_chars(chars, '|');
        let ghost sv = split_on(chars@, '|');
        let mut modifiers: Vec<Modifier> = Vec::new();
        let mut j: usize = 1;
        proof {
            lemma_split_on_nonempty(chars@, '|');
        }
        while j < segs.len()
            invariant
                1 <= j <= segs.len(),
                views(segs@) == sv,
                modifiers@ == named_modifiers(sv.subrange(1, j as int)),
            decreases segs.len() - j,
        {
            let seg = &segs[j];
            assert(seg@ == sv[j as int]);
            let ghost before = modifiers@;
            if is_code(seg, 'd', 'l') {
                modifiers.push(Modifier::DoubleLetter);
            } else if is_code(seg, 't', 'l') {
                modifiers.push(Modifier::TripleLetter);
            } else if is_code(seg, 'd', 'w') {
                modifiers.push(Modifier::DoubleWord);
            }
            proof {
                let t = sv.subrange(1, j + 1);
                assert(t.drop_last() =~= sv.subrange(1, j as int));
                assert(t.last() == sv[j as int]);
                assert(modifiers@ =~= named_modifiers(t));
            }
            j = j + 1;
        }
        assert(sv.subrange(1, sv.len() as int) =~= sv.skip(1));
        Ok(Letter { character: first_char, modifiers })
    }
}

fn is_code(seg: &Vec<char>, a: char, b: char) -> (r: bool)
    ensures
        r == (seg@ == seq![a, b]),
{
    if seg.len() == 2 && seg[0] == a && seg[1] == b {
        assert(seg@ =~= seq![a, b]);
        true
    } else {
        false
    }
}

/// The letter values, `a` to `z` in order.
pub fn get_letter_value_map() -> (r: Vec<(char, usize)>)
    ensures
        r@.len() == 26,
        forall|i: int| 0 <= i < 26 ==> #[trigger] r@[i].0 == (97 + i) as char && spec_letter_value(r@[i].0) == Some(r@[i].1 as nat),
{
    let mut r: Vec<(char, usize)> = Vec::new();
    let mut code: u8 = 97;
    while code <= 122
        invariant
            97 <= code <= 123,
            r@.len() == code - 97,
            forall|i: int| 0 <= i < r@.len() ==> #[trigger] r@[i].0 == (97 + i) as char && spec_letter_value(r@[i].0) == Some(r@[i].1 as nat),
        decreases 123 - code,
    {
        let c = code as char;
        match letter_value(c) {
            Some(v) => {
                r.push((c, v));
            },
            None => {
                proof {
                    lemma_letter_value_defined(c);
                }
            },
        }
        code = code + 1;
    }
    r
}

/// Point value of `c`, or `None` for a character outside `a..z`.
pub fn letter_value(c: char) -> (r: Option<usize>)
    ensures
        r matches Some(v) ==> spec_letter_value(c) == Some(v as nat),
        r is None ==> spec_letter_value(c) is None,
{
    match c {
        'a' => Some(1),
        'b' => Some(4),
        'c' => Some(5),
        'd' => Some(3),
        'e' => Some(1),
        'f' => Some(5),
        'g' => Some(3),
        'h' => Some(4),
        'i' => Some(1),
        'j' => Some(7),
        'k' => Some(6),
        'l' => Some(3),
        'm' => Some(4),
        'n' => Some(2),
        'o' => Some(1),
        'p' => Some(4),
        'q' => Some(8),
        'r' => Some(2),
        's' => Some(2),
        't' => Some(2),
        'u' => Some(4),
        'v' => Some(5),
        'w' => Some(5),
        'x' => Some(7),
        'y' => Some(4),
        'z' => Some(8),
        _ => None,
    }
}

} // verus!
