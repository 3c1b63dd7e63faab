//! The words of a small stack language: how an expression splits into
//! words, and what each word asks the machine to do. Numbers are read and
//! added up by the program that runs the machine.
use vstd::prelude::*;
use crate::ini::{chars_of, is_white_space, white_space};

verus! {

broadcast use vstd::string::group_string_axioms;

/// The words of `s`: its longest runs of characters that are not white
/// space, in order.
pub open spec fn split_words(s: Seq<char>) -> Seq<Seq<char>>
    decreases s.len(),
{
    if s.len() == 0 {
        Seq::empty()
    } else {
        let rest = split_words(s.drop_last());
        let c = s.last();
        if is_white_space(c) {
            rest
        } else if s.len() >= 2 && !is_white_space(s[s.len() - 2]) {
            rest.update(rest.len() - 1, rest.last().push(c))
        } else {
            rest.push(seq![c])
        }
    }
}

/// No word is empty or holds white space; a text that ends in a character
/// other than white space ends in its last word.
pub proof fn lemma_split_words_shape(s: Seq<char>)
    ensures
        forall|i: int| 0 <= i < split_words(s).len() ==> #[trigger] split_words(s)[i].len() > 0,
        forall|i: int, j: int|
            0 <= i < split_words(s).len() && 0 <= j < split_words(s)[i].len() ==> !is_white_space(
                #[trigger] split_words(s)[i][j],
            ),
        s.len() > 0 && !is_white_space(s.last()) ==> split_words(s).len() > 0,
    decreases s.len(),
{
    if s.len() > 0 {
        let p = s.drop_last();
        lemma_split_words_shape(p);
        let rest = split_words(p);
        let c = s.last();
        if !is_white_space(c) && s.len() >= 2 && !is_white_space(s[s.len() - 2]) {
            assert(p.last() == s[s.len() - 2]);
            let w = rest.last().push(c);
            let r = rest.update(rest.len() - 1, w);
            assert(r == split_words(s));
            assert forall|i: int| 0 <= i < r.len() implies #[trigger] r[i].len() > 0 by {
                if i < rest.len() - 1 {
                    assert(r[i] == rest[i]);
                }
            }
            assert forall|i: int, j: int| 0 <= i < r.len() && 0 <= j < r[i].len() implies !is_white_space(
                #[trigger] r[i][j],
            ) by {
                if i < rest.len() - 1 {
                    assert(r[i] == rest[i]);
                } else if j < rest.last().len() {
                    assert(r[i][j] == rest[rest.len() - 1][j]);
                }
            }
        } else if !is_white_space(c) {
            let r = rest.push(seq![c]);
            assert(r == split_words(s));
            assert forall|i: int| 0 <= i < r.len() implies #[trigger] r[i].len() > 0 by {
                if i < rest.len() {
                    assert(r[i] == rest[i]);
                }
            }
            assert forall|i: int, j: int| 0 <= i < r.len() && 0 <= j < r[i].len() implies !is_white_space(
                #[trigger] r[i][j],
            ) by {
                if i < rest.len() {
                    assert(r[i] == rest[i]);
                }
            }
        }
    }
}

/// The text `seps[0] + words[0] + seps[1] + ... + words[n - 1] + seps[n]`.
pub open spec fn interleave(words: Seq<Seq<char>>, seps: Seq<Seq<char>>) -> Seq<char>
    decreases words.len(),
{
    if words.len() == 0 {
        seps[0]
    } else {
        interleave(words.drop_last(), seps.drop_last()) + words.last() + seps.last()
    }
}

/// Every character of `s` is white space.
pub open spec fn all_white(s: Seq<char>) -> bool {
    forall|i: int| 0 <= i < s.len() ==> is_white_space(#[trigger] s[i])
}

/// The words of `s` are its longest runs of characters other than white
/// space: `s` is the words with runs of white space between and around
/// them, `seps`, where each run between two words is not empty and no word
/// is empty or holds white space.
pub proof fn lemma_words_are_runs(s: Seq<char>) -> (seps: Seq<Seq<char>>)
    ensures
        seps.len() == split_words(s).len() + 1,
        forall|i: int| 0 <= i < seps.len() ==> all_white(#[trigger] seps[i]),
        forall|i: int| 0 < i < split_words(s).len() ==> #[trigger] seps[i].len() > 0,
        forall|i: int| 0 <= i < split_words(s).len() ==> #[trigger] split_words(s)[i].len() > 0,
        forall|i: int, j: int|
            0 <= i < split_words(s).len() && 0 <= j < split_words(s)[i].len() ==> !is_white_space(
                #[trigger] split_words(s)[i][j],
            ),
        interleave(split_words(s), seps) == s,
    decreases s.len(),
{
    lemma_split_words_shape(s);
    if s.len() == 0 {
        let seps = seq![Seq::<char>::empty()];
        assert(interleave(split_words(s), seps) =~= s);
        seps
    } else {
        let p = s.drop_last();
        let c = s.last();
        let rest = split_words(p);
        let sp = lemma_words_are_runs(p);
        lemma_split_words_shape(p);
        assert(p.push(c) =~= s);
        if is_white_space(c) {
            let seps = sp.update(sp.len() - 1, sp.last().push(c));
            assert(split_words(s) == rest);
            if rest.len() == 0 {
                assert(interleave(rest, seps) =~= s);
            } else {
                assert(seps.drop_last() =~= sp.drop_last());
                let x = interleave(rest.drop_last(), sp.drop_last());
                assert(interleave(rest, sp) == x + rest.last() + sp.last());
                assert(interleave(rest, seps) == x + rest.last() + sp.last().push(c));
                assert(x + rest.last() + sp.last().push(c) =~= (x + rest.last() + sp.last()).push(c));
            }
            assert forall|i: int| 0 <= i < seps.len() implies all_white(#[trigger] seps[i]) by {
                if i < sp.len() - 1 {
                    assert(seps[i] == sp[i]);
                } else {
                    assert(all_white(sp[i]));
                    assert forall|k: int| 0 <= k < seps[i].len() implies is_white_space(#[trigger] seps[i][k]) by {
                        if k < sp[i].len() {
                            assert(seps[i][k] == sp[i][k]);
                        }
                    }
                }
            }
            assert forall|i: int| 0 < i < split_words(s).len() implies #[trigger] seps[i].len() > 0 by {
                if i < sp.len() - 1 {
                    assert(seps[i] == sp[i]);
                }
            }
            seps
        } else if s.len() >= 2 && !is_white_space(s[s.len() - 2]) {
            assert(p.last() == s[s.len() - 2]);
            assert(rest.len() > 0);
            let x = interleave(rest.drop_last(), sp.drop_last());
            assert(interleave(rest, sp) == x + rest.last() + sp.last());
            if sp.last().len() > 0 {
                assert((x + rest.last() + sp.last()).last() == sp.last().last());
                assert(all_white(sp[sp.len() - 1]));
                assert(false);
            }
            let words = rest.update(rest.len() - 1, rest.last().push(c));
            assert(split_words(s) == words);
            assert(words.drop_last() =~= rest.drop_last());
            assert(interleave(words, sp) == x + rest.last().push(c) + sp.last());
            assert(x + rest.last() + sp.last() =~= x + rest.last());
            assert(x + rest.last().push(c) + sp.last() =~= (x + rest.last()).push(c));
            sp
        } else {
            let words = rest.push(seq![c]);
            let seps = sp.push(Seq::<char>::empty());
            assert(split_words(s) == words);
            assert(words.drop_last() =~= rest);
            assert(seps.drop_last() =~= sp);
            assert(interleave(words, seps) =~= p + seq![c]);
            if rest.len() > 0 {
                assert(s.len() >= 2);
                assert(p.last() == s[s.len() - 2]);
                let x = interleave(rest.drop_last(), sp.drop_last());
                assert(interleave(rest, sp) == x + rest.last() + sp.last());
                if sp.last().len() == 0 {
                    assert(x + rest.last() + sp.last() =~= x + rest.last());
                    assert((x + rest.last()).last() == rest.last().last());
                    assert(!is_white_space(rest[rest.len() - 1][rest[rest.len() - 1].len() - 1]));
                    assert(false);
                }
            }
            assert forall|i: int| 0 <= i < seps.len() implies all_white(#[trigger] seps[i]) by {
                if i < sp.len() {
                    assert(seps[i] == sp[i]);
                }
            }
            assert forall|i: int| 0 < i < words.len() implies #[trigger] seps[i].len() > 0 by {
                assert(seps[i] == sp[i]);
            }
            seps
        }
    }
}

/// What a word asks for.
#[derive(Debug, PartialEq, Eq)]
pub enum Token {
    /// A word with `+`.
    Add,
    /// A word with `*` (and no `+`).
    Multiply,
    /// A word with `/` (and none of the above).
    Divide,
    /// A word with `-` (and none of the above).
    Subtract,
    /// A word with `'`: the symbol after its first character.
    Symbol(String),
    /// A word with `set`: bind a name to a value.
    Bind,
    /// A word with `$`: the value bound to the name after its first
    /// character.
    Lookup(String),
    /// Any other word: it must be a number.
    Literal(String),
    /// A word with `'` or `$` that the machine refuses: its first character
    /// takes more than one byte, or the symbol after it more than one.
    Invalid,
}

/// What a word asks for, over its characters.
pub enum Reading {
    Add,
    Multiply,
    Divide,
    Subtract,
    Symbol(Seq<char>),
    Bind,
    Lookup(Seq<char>),
    Literal(Seq<char>),
    Invalid,
}

impl View for Token {
    type V = Reading;

    open spec fn view(&self) -> Reading {
        match self {
            Token::Add => Reading::Add,
            Token::Multiply => Reading::Multiply,
            Token::Divide => Reading::Divide,
            Token::Subtract => Reading::Subtract,
            Token::Symbol(s) => Reading::Symbol(s@),
            Token::Bind => Reading::Bind,
            Token::Lookup(s) => Reading::Lookup(s@),
            Token::Literal(s) => Reading::Literal(s@),
            Token::Invalid => Reading::Invalid,
        }
    }
}

/// The character is written in one byte.
pub open spec fn one_byte(c: char) -> bool {
    (c as u32) < 128
}

/// `w` holds `s`, `e`, `t` in a row.
pub open spec fn has_set(w: Seq<char>) -> bool {
    exists|i: int| 0 <= i && i + 3 <= w.len() && #[trigger] w.subrange(i, i + 3) == seq!['s', 'e', 't']
}

/// The part of the word after its first character, in which the machine
/// finds a symbol or a name, when that first character is one byte long.
pub open spec fn after_first(w: Seq<char>) -> Option<Seq<char>> {
    if w.len() > 0 && one_byte(w[0]) {
        Some(w.drop_first())
    } else {
        None
    }
}

/// What the word `w` asks for: the first of `+`, `*`, `/`, `-`, `'`, `set`
/// and `$` that it holds decides; a symbol is at most one byte long.
pub open spec fn reading(w: Seq<char>) -> Reading {
    if w.contains('+') {
        Reading::Add
    } else if w.contains('*') {
        Reading::Multiply
    } else if w.contains('/') {
        Reading::Divide
    } else if w.contains('-') {
        Reading::Subtract
    } else if w.contains('\'') {
        match after_first(w) {
            Some(rest) => if rest.len() == 0 || (rest.len() == 1 && one_byte(rest[0])) {
                Reading::Symbol(rest)
            } else {
                Reading::Invalid
            },
            None => Reading::Invalid,
        }
    } else if has_set(w) {
        Reading::Bind
    } else if w.contains('$') {
        match after_first(w) {
            Some(rest) => Reading::Lookup(rest),
            None => Reading::Invalid,
        }
    } else {
        Reading::Literal(w)
    }
}

/// `w` holds `s`, `e`, `t` in a row, written out over its characters.
pub open spec fn spells_set(w: Seq<char>) -> bool {
    exists|i: int| 0 <= i && i + 3 <= w.len() && #[trigger] w[i] == 's' && w[i + 1] == 'e' && w[i + 2] == 't'
}

/// What a word asks for, stated from its characters: the first of `+`,
/// `*`, `/`, `-` it holds gives that operation; a word with `'` is a symbol,
/// the characters after its first, when the word is one or two one-byte
/// characters; then a word spelling `set` binds; a word with `$` looks up
/// the name after its first character, when that one is one byte; any other
/// word is a literal made of exactly its characters.
pub proof fn lemma_reading(w: Seq<char>)
    ensures
        w.contains('+') ==> reading(w) == Reading::Add,
        !w.contains('+') && w.contains('*') ==> reading(w) == Reading::Multiply,
        !w.contains('+') && !w.contains('*') && w.contains('/') ==> reading(w) == Reading::Divide,
        !w.contains('+') && !w.contains('*') && !w.contains('/') && w.contains('-') ==> reading(w)
            == Reading::Subtract,
        ({
            let ops = w.contains('+') || w.contains('*') || w.contains('/') || w.contains('-');
            &&& !ops && w.contains('\'') ==> reading(w) == if (w.len() == 1 && one_byte(w[0])) || (w.len()
                == 2 && one_byte(w[0]) && one_byte(w[1])) {
                Reading::Symbol(w.subrange(1, w.len() as int))
            } else {
                Reading::Invalid
            }
            &&& !ops && !w.contains('\'') && spells_set(w) ==> reading(w) == Reading::Bind
            &&& !ops && !w.contains('\'') && !spells_set(w) && w.contains('$') ==> reading(w) == if one_byte(w[0]) {
                Reading::Lookup(w.subrange(1, w.len() as int))
            } else {
                Reading::Invalid
            }
            &&& !ops && !w.contains('\'') && !spells_set(w) && !w.contains('$') ==> reading(w)
                == Reading::Literal(w)
        }),
{
    if spells_set(w) {
        let i = choose|i: int| 0 <= i && i + 3 <= w.len() && #[trigger] w[i] == 's' && w[i + 1] == 'e' && w[i + 2] == 't';
        assert(w.subrange(i, i + 3) =~= seq!['s', 'e', 't']);
    }
    if has_set(w) {
        let i = choose|i: int| 0 <= i && i + 3 <= w.len() && #[trigger] w.subrange(i, i + 3) == seq!['s', 'e', 't'];
        assert(w.subrange(i, i + 3)[0] == w[i]);
        assert(w.subrange(i, i + 3)[1] == w[i + 1]);
        assert(w.subrange(i, i + 3)[2] == w[i + 2]);
    }
    assert(w.drop_first() =~= w.subrange(1, w.len() as int));
}

/// Whether `x` occurs in `c`.
fn has_char(c: &Vec<char>, x: char) -> (b: bool)
    ensures
        b == c@.contains(x),
{
    let mut i: usize = 0;
    while i < c.len()
        invariant
            i <= c.len(),
            forall|j: int| 0 <= j < i ==> c@[j] != x,
        decreases c.len() - i,
    {
        if c[i] == x {
            assert(c@[i as int] == x);
            return true;
        }
        i = i + 1;
    }
    false
}

/// Whether `s`, `e`, `t` occur in a row in `c`.
fn has_set_exec(c: &Vec<char>) -> (b: bool)
    ensures
        b == has_set(c@),
{
    let mut i: usize = 0;
    while c.len() >= 3 && i <= c.len() - 3
        invariant
            forall|j: int| 0 <= j < i && j + 3 <= c@.len() ==> #[trigger] c@.subrange(j, j + 3) != seq!['s', 'e', 't'],
        decreases c.len() - i,
    {
        if c[i] == 's' && c[i + 1] == 'e' && c[i + 2] == 't' {
            assert(c@.subrange(i as int, i + 3) == seq!['s', 'e', 't']);
            return true;
        }
        assert(c@.subrange(i as int, i + 3)[0] == c@[i as int]);
        assert(c@.subrange(i as int, i + 3)[1] == c@[i + 1]);
        assert(c@.subrange(i as int, i + 3)[2] == c@[i + 2]);
        i = i + 1;
    }
    assert forall|j: int| 0 <= j && j + 3 <= c@.len() implies #[trigger] c@.subrange(j, j + 3) != seq![
        's',
        'e',
        't',
    ] by {
        assert(j < i);
    }
    false
}

/// Reads what the word `word` asks for.
pub fn classify(word: &str) -> (t: Token)
    ensures
        t@ == reading(word@),
{
    let c = chars_of(word);
    let n = c.len();
    if has_char(&c, '+') {
        Token::Add
    } else if has_char(&c, '*') {
        Token::Multiply
    } else if has_char(&c, '/') {
        Token::Divide
    } else if has_char(&c, '-') {
        Token::Subtract
    } else if has_char(&c, '\'') {
        if (c[0] as u32) < 128 && (n == 1 || (n == 2 && (c[1] as u32) < 128)) {
            Token::Symbol(String::from_str(word.substring_char(1, n)))
        } else {
            Token::Invalid
        }
    } else if has_set_exec(&c) {
        Token::Bind
    } else if has_char(&c, '$') {
        if (c[0] as u32) < 128 {
            Token::Lookup(String::from_str(word.substring_char(1, n)))
        } else {
            Token::Invalid
        }
    } else {
        Token::Literal(String::from_str(word))
    }
}

/// The words of `expr`, in order (see `split_words`).
pub fn words(expr: &str) -> (ws: Vec<String>)
    ensures
        ws@.map_values(|w: String| w@) == split_words(expr@),
        forall|i: int| 0 <= i < ws@.len() ==> #[trigger] ws@[i]@.len() > 0,
{
    let c = chars_of(expr);
    let n = c.len();
    let mut ws: Vec<String> = Vec::new();
    let mut start: usize = 0;
    let mut in_word = false;
    let mut i: usize = 0;
    while i < n
        invariant
            n == c@.len(),
            c@ == expr@,
            i <= n,
            in_word ==> start < i && !is_white_space(c@[i - 1]),
            !in_word ==> i == 0 || is_white_space(c@[i - 1]),
            ws@.map_values(|w: String| w@) + (if in_word {
                seq![c@.subrange(start as int, i as int)]
            } else {
                Seq::empty()
            }) == split_words(c@.take(i as int)),
        decreases n - i,
    {
        let ch = c[i];
        assert(c@.take(i + 1).drop_last() == c@.take(i as int));
        assert(c@.take(i + 1).last() == ch);
        if white_space(ch) {
            if in_word {
                let w = String::from_str(expr.substring_char(start, i));
                ws.push(w);
                in_word = false;
            }
        } else {
            if !in_word {
                start = i;
                in_word = true;
                assert(c@.subrange(start as int, i + 1) == seq![ch]);
            } else {
                assert(c@.take(i + 1)[i - 1] == c@[i - 1]);
                assert(c@.subrange(start as int, i + 1) == c@.subrange(start as int, i as int).push(ch));
            }
        }
        i = i + 1;
    }
    if in_word {
        let w = String::from_str(expr.substring_char(start, n));
        ws.push(w);
    }
    assert(c@.take(n as int) == c@);
    proof {
        let views = ws@.map_values(|w: String| w@);
        assert(views == split_words(c@));
        lemma_split_words_shape(c@);
        assert forall|i: int| 0 <= i < ws@.len() implies #[trigger] ws@[i]@.len() > 0 by {
            assert(views[i] == ws@[i]@);
            assert(split_words(c@)[i].len() > 0);
        }
    }
    ws
}

} // verus!
