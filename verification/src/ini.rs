//! A parser for INI files: `[section]` headers followed by `key = value`
//! lines (or bare `key` lines, whose value is empty).
use vstd::prelude::*;

verus! {

broadcast use vstd::string::group_string_axioms;

/// What a parsed file holds: section name to (key to value).
pub type IniModel = Map<Seq<char>, Map<Seq<char>, Seq<char>>>;

/// Characters with the Unicode `White_Space` property: those that
/// `str::trim` removes.
pub open spec fn is_white_space(c: char) -> bool {
    let n = c as u32;
    ||| 0x9 <= n <= 0xd
    ||| n == 0x20
    ||| n == 0x85
    ||| n == 0xa0
    ||| n == 0x1680
    ||| 0x2000 <= n <= 0x200a
    ||| n == 0x2028
    ||| n == 0x2029
    ||| n == 0x202f
    ||| n == 0x205f
    ||| n == 0x3000
}

/// `s` without its leading white space.
pub open spec fn trim_start(s: Seq<char>) -> Seq<char>
    decreases s.len(),
{
    if s.len() > 0 && is_white_space(s[0]) {
        trim_start(s.drop_first())
    } else {
        s
    }
}

/// `s` without its trailing white space.
pub open spec fn trim_end(s: Seq<char>) -> Seq<char>
    decreases s.len(),
{
    if s.len() > 0 && is_white_space(s.last()) {
        trim_end(s.drop_last())
    } else {
        s
    }
}

/// `s` without leading and trailing white space.
pub open spec fn trim(s: Seq<char>) -> Seq<char> {
    trim_end(trim_start(s))
}

/// The pieces of `s` between line feeds, in order (one more than there are
/// line feeds).
pub open spec fn split_lines(s: Seq<char>) -> Seq<Seq<char>>
    decreases s.len(),
{
    if s.len() == 0 {
        seq![Seq::empty()]
    } else {
        let prev = split_lines(s.drop_last());
        if s.last() == '\n' {
            prev.push(Seq::empty())
        } else {
            prev.update(prev.len() - 1, prev.last().push(s.last()))
        }
    }
}

pub open spec fn has_equals(t: Seq<char>) -> bool {
    exists|i: int| 0 <= i < t.len() && t[i] == '='
}

pub open spec fn one_equals(t: Seq<char>) -> bool {
    forall|i: int, j: int| 0 <= i < t.len() && 0 <= j < t.len() && t[i] == '=' && t[j] == '=' ==> i == j
}

pub open spec fn equals_at(t: Seq<char>) -> int {
    choose|i: int| 0 <= i < t.len() && t[i] == '='
}

/// The section that keys belong to before any section header.
pub open spec fn no_section() -> Seq<char> {
    seq!['-', '1']
}

/// What the parser keeps between lines: the file so far, the entries of the
/// current section, and the current section's name.
pub type ParseState = (IniModel, Map<Seq<char>, Seq<char>>, Seq<char>);

pub open spec fn initial_state() -> ParseState {
    (Map::empty(), Map::empty(), no_section())
}

/// The line is accepted in the given state: a section header is `[name]`
/// with a name that does not start with `[`; a key line holds at most one
/// `=`, and a line with one comes after a section header.
pub open spec fn line_ok(st: ParseState, line: Seq<char>) -> bool {
    let t = trim(line);
    if t.len() == 0 {
        true
    } else if t[0] == '[' {
        t.len() >= 2 && t.last() == ']' && !(t.len() >= 3 && t[1] == '[')
    } else {
        has_equals(t) ==> one_equals(t) && st.2 != no_section()
    }
}

/// The section header line `t` (trimmed) names this section.
pub open spec fn header_name(t: Seq<char>) -> Seq<char> {
    t.subrange(1, t.len() - 1)
}

/// The key and value of the key line `t` (trimmed).
pub open spec fn key_value(t: Seq<char>) -> (Seq<char>, Seq<char>) {
    if has_equals(t) {
        (trim(t.take(equals_at(t))), trim(t.skip(equals_at(t) + 1)))
    } else {
        (t, Seq::empty())
    }
}

/// One line's effect. A header starts a section (keeping the entries seen so
/// far only when it repeats the current section's name) and stores it; a key
/// line adds its entry to the current section and stores the section.
pub open spec fn step(st: ParseState, line: Seq<char>) -> ParseState {
    let t = trim(line);
    if t.len() == 0 || !line_ok(st, line) {
        st
    } else if t[0] == '[' {
        let name = header_name(t);
        let entries = if st.2 == name {
            st.1
        } else {
            Map::empty()
        };
        (st.0.insert(name, entries), entries, name)
    } else {
        let kv = key_value(t);
        let entries = st.1.insert(kv.0, kv.1);
        (st.0.insert(st.2, entries), entries, st.2)
    }
}

pub open spec fn fold_lines(lines: Seq<Seq<char>>) -> ParseState
    decreases lines.len(),
{
    if lines.len() == 0 {
        initial_state()
    } else {
        step(fold_lines(lines.drop_last()), lines.last())
    }
}

pub open spec fn lines_ok(lines: Seq<Seq<char>>) -> bool
    decreases lines.len(),
{
    if lines.len() == 0 {
        true
    } else {
        lines_ok(lines.drop_last()) && line_ok(fold_lines(lines.drop_last()), lines.last())
    }
}

/// The parser accepts `content` (elsewhere it stops without a result).
pub open spec fn ini_well_formed(content: Seq<char>) -> bool {
    lines_ok(split_lines(content))
}

/// What the parser gives back for `content`.
pub open spec fn ini_contents(content: Seq<char>) -> IniModel {
    fold_lines(split_lines(content)).0
}

/// The first position from `k` on in `s` that is not white space (or the
/// end of `s`).
proof fn lemma_first_non_white(s: Seq<char>, k: int) -> (a: int)
    requires
        0 <= k <= s.len(),
        forall|m: int| 0 <= m < k ==> is_white_space(#[trigger] s[m]),
    ensures
        k <= a <= s.len(),
        forall|m: int| 0 <= m < a ==> is_white_space(#[trigger] s[m]),
        a == s.len() || !is_white_space(s[a]),
    decreases s.len() - k,
{
    if k == s.len() || !is_white_space(s[k]) {
        k
    } else {
        lemma_first_non_white(s, k + 1)
    }
}

/// The last position down from `k` in `s` after which there is only white
/// space, with no white space just before it.
proof fn lemma_last_non_white(s: Seq<char>, k: int) -> (b: int)
    requires
        0 <= k <= s.len(),
        forall|m: int| k <= m < s.len() ==> is_white_space(#[trigger] s[m]),
    ensures
        0 <= b <= k,
        forall|m: int| b <= m < s.len() ==> is_white_space(#[trigger] s[m]),
        b == 0 || !is_white_space(s[b - 1]),
    decreases k,
{
    if k == 0 || !is_white_space(s[k - 1]) {
        k
    } else {
        lemma_last_non_white(s, k - 1)
    }
}

/// Trimming removes exactly the white space at both ends: `trim(s)` is the
/// part of `s` from position `a` to `b`, where all before `a` and all from
/// `b` on is white space, and the part itself neither starts nor ends with
/// white space.
pub proof fn lemma_trim_removes_ends(s: Seq<char>) -> (ab: (int, int))
    ensures
        0 <= ab.0 <= ab.1 <= s.len(),
        trim(s) == s.subrange(ab.0, ab.1),
        forall|m: int| 0 <= m < ab.0 ==> is_white_space(#[trigger] s[m]),
        forall|m: int| ab.1 <= m < s.len() ==> is_white_space(#[trigger] s[m]),
        ab.0 < ab.1 ==> !is_white_space(s[ab.0]) && !is_white_space(s[ab.1 - 1]),
{
    let a = lemma_first_non_white(s, 0);
    lemma_trim_start(s, a);
    let rest = s.skip(a);
    let b2 = lemma_last_non_white(rest, rest.len() as int);
    assert forall|m: int| b2 <= m < rest.len() implies is_white_space(#[trigger] rest[m]) by {}
    lemma_trim_end(rest, b2);
    assert(rest.take(b2) =~= s.subrange(a, a + b2));
    let b = a + b2;
    assert forall|m: int| b <= m < s.len() implies is_white_space(#[trigger] s[m]) by {
        assert(s[m] == rest[m - a]);
    }
    if a < b {
        assert(s[b - 1] == rest[b2 - 1]);
    }
    (a, b)
}

/// A line of white space only is accepted and changes nothing, whatever
/// came before it.
pub proof fn lemma_blank_line(st: ParseState, line: Seq<char>)
    requires
        forall|i: int| 0 <= i < line.len() ==> is_white_space(#[trigger] line[i]),
    ensures
        line_ok(st, line),
        step(st, line) == st,
{
    lemma_trim_start(line, line.len() as int);
    assert(line.skip(line.len() as int).len() == 0);
}

/// Inserting a line of white space only anywhere among the lines changes
/// neither what they parse to nor whether they are accepted.
pub proof fn lemma_blank_line_inserted(lines: Seq<Seq<char>>, i: int, blank: Seq<char>)
    requires
        0 <= i <= lines.len(),
        forall|k: int| 0 <= k < blank.len() ==> is_white_space(#[trigger] blank[k]),
    ensures
        fold_lines(lines.insert(i, blank)) == fold_lines(lines),
        lines_ok(lines.insert(i, blank)) == lines_ok(lines),
    decreases lines.len(),
{
    let with = lines.insert(i, blank);
    if i == lines.len() {
        assert(with.drop_last() =~= lines);
        assert(with.last() == blank);
        lemma_blank_line(fold_lines(lines), blank);
    } else {
        lemma_blank_line_inserted(lines.drop_last(), i, blank);
        assert(with.drop_last() =~= lines.drop_last().insert(i, blank));
        assert(with.last() == lines.last());
    }
}

/// A key line `key = value`, with one `=` at position `k` of the trimmed
/// line, after a section header: it is accepted, and sets the key (trimmed
/// text before the `=`) to the value (trimmed text after it) in the current
/// section, which it stores in the file. Before any header, or with a
/// second `=`, the line is refused.
pub proof fn lemma_key_line(st: ParseState, line: Seq<char>, k: int)
    requires
        trim(line).len() > 0,
        trim(line)[0] != '[',
        0 <= k < trim(line).len(),
        trim(line)[k] == '=',
    ensures
        ({
            let t = trim(line);
            let key = trim(t.take(k));
            let value = trim(t.skip(k + 1));
            let single = forall|j: int| 0 <= j < t.len() && j != k ==> t[j] != '=';
            &&& line_ok(st, line) == (single && st.2 != no_section())
            &&& line_ok(st, line) ==> step(st, line) == (
                st.0.insert(st.2, st.1.insert(key, value)),
                st.1.insert(key, value),
                st.2,
            )
        }),
{
    let t = trim(line);
    assert(has_equals(t));
    if forall|j: int| 0 <= j < t.len() && j != k ==> t[j] != '=' {
        assert(equals_at(t) == k);
    } else {
        let j = choose|j: int| 0 <= j < t.len() && j != k && t[j] == '=';
        assert(!one_equals(t));
    }
}

/// A line with no `=` that is not a header is a key with an empty value,
/// set in the current section (which it stores in the file).
pub proof fn lemma_bare_key_line(st: ParseState, line: Seq<char>)
    requires
        trim(line).len() > 0,
        trim(line)[0] != '[',
        forall|j: int| 0 <= j < trim(line).len() ==> #[trigger] trim(line)[j] != '=',
    ensures
        line_ok(st, line),
        step(st, line) == (
            st.0.insert(st.2, st.1.insert(trim(line), Seq::empty())),
            st.1.insert(trim(line), Seq::empty()),
            st.2,
        ),
{
}

/// A header line `[name]` (trimmed): accepted when `name` does not start
/// with `[`; it makes `name` the current section, keeping the entries seen
/// so far only when `name` is the current section already, and stores it in
/// the file.
pub proof fn lemma_header_line(st: ParseState, line: Seq<char>)
    requires
        trim(line).len() > 0,
        trim(line)[0] == '[',
    ensures
        ({
            let t = trim(line);
            let name = t.subrange(1, t.len() - 1);
            let entries = if st.2 == name { st.1 } else { Map::empty() };
            &&& line_ok(st, line) == (t.len() >= 2 && t[t.len() - 1] == ']' && !(t.len() >= 3 && t[1] == '['))
            &&& line_ok(st, line) ==> step(st, line) == (st.0.insert(name, entries), entries, name)
        }),
{
}

/// The text `lines[0] + "\n" + lines[1] + ... + "\n" + lines[n - 1]`.
pub open spec fn join_lines(lines: Seq<Seq<char>>) -> Seq<char>
    decreases lines.len(),
{
    if lines.len() <= 1 {
        if lines.len() == 0 { Seq::empty() } else { lines[0] }
    } else {
        join_lines(lines.drop_last()) + seq!['\n'] + lines.last()
    }
}

/// The lines of a text are the pieces between its line feeds: none holds a
/// line feed, and joined with line feeds they give the text back.
pub proof fn lemma_split_lines_pieces(s: Seq<char>)
    ensures
        split_lines(s).len() > 0,
        forall|i: int, j: int|
            0 <= i < split_lines(s).len() && 0 <= j < split_lines(s)[i].len() ==> #[trigger] split_lines(s)[i][j]
                != '\n',
        join_lines(split_lines(s)) == s,
    decreases s.len(),
{
    if s.len() > 0 {
        let p = s.drop_last();
        let prev = split_lines(p);
        lemma_split_lines_pieces(p);
        assert(p.push(s.last()) =~= s);
        if s.last() == '\n' {
            let now = prev.push(Seq::<char>::empty());
            assert(now.drop_last() =~= prev);
            assert(join_lines(now) =~= p + seq!['\n']);
            assert forall|i: int, j: int| 0 <= i < now.len() && 0 <= j < now[i].len() implies #[trigger] now[i][j]
                != '\n' by {
                assert(now[i] == prev[i]);
            }
        } else {
            let now = prev.update(prev.len() - 1, prev.last().push(s.last()));
            assert forall|i: int, j: int| 0 <= i < now.len() && 0 <= j < now[i].len() implies #[trigger] now[i][j]
                != '\n' by {
                if i < prev.len() - 1 {
                    assert(now[i] == prev[i]);
                } else if j < prev.last().len() {
                    assert(now[i][j] == prev[prev.len() - 1][j]);
                }
            }
            if prev.len() == 1 {
                assert(join_lines(now) =~= s);
            } else {
                assert(now.drop_last() =~= prev.drop_last());
                assert(join_lines(prev) == join_lines(prev.drop_last()) + seq!['\n'] + prev.last());
                assert(join_lines(now) =~= (join_lines(prev.drop_last()) + seq!['\n'] + prev.last()).push(s.last()));
            }
        }
    }
}

// ---------------------------------------------------------------------------
// Association lists: the last entry with a given key decides its value.

pub open spec fn assoc_fold<V, W>(e: Seq<(String, V)>, f: spec_fn(V) -> W) -> Map<Seq<char>, W>
    decreases e.len(),
{
    if e.len() == 0 {
        Map::empty()
    } else {
        assoc_fold(e.drop_last(), f).insert(e.last().0@, f(e.last().1))
    }
}

pub open spec fn keys_distinct<V>(e: Seq<(String, V)>) -> bool {
    forall|i: int, j: int| 0 <= i < j < e.len() ==> (#[trigger] e[i]).0@ != (#[trigger] e[j]).0@
}

pub open spec fn value_of() -> spec_fn(String) -> Seq<char> {
    |s: String| s@
}

pub open spec fn entries_view(e: Seq<(String, String)>) -> Map<Seq<char>, Seq<char>> {
    assoc_fold(e, value_of())
}

pub open spec fn section_of() -> spec_fn(Vec<(String, String)>) -> Map<Seq<char>, Seq<char>> {
    |v: Vec<(String, String)>| entries_view(v@)
}

pub open spec fn sections_view(e: Seq<(String, Vec<(String, String)>)>) -> IniModel {
    assoc_fold(e, section_of())
}

proof fn lemma_assoc_lookup<V, W>(e: Seq<(String, V)>, f: spec_fn(V) -> W, i: int)
    requires
        keys_distinct(e),
        0 <= i < e.len(),
    ensures
        assoc_fold(e, f).contains_key(e[i].0@),
        assoc_fold(e, f)[e[i].0@] == f(e[i].1),
    decreases e.len(),
{
    if i < e.len() - 1 {
        assert(e.drop_last()[i] == e[i]);
        assert(keys_distinct(e.drop_last()));
        lemma_assoc_lookup(e.drop_last(), f, i);
        assert(e[i].0@ != e[e.len() - 1].0@);
    }
}

proof fn lemma_assoc_absent<V, W>(e: Seq<(String, V)>, f: spec_fn(V) -> W, k: Seq<char>)
    requires
        forall|i: int| 0 <= i < e.len() ==> (#[trigger] e[i]).0@ != k,
    ensures
        !assoc_fold(e, f).contains_key(k),
    decreases e.len(),
{
    if e.len() > 0 {
        assert forall|i: int| 0 <= i < e.drop_last().len() implies (#[trigger] e.drop_last()[i]).0@ != k by {
            assert(e.drop_last()[i] == e[i]);
        }
        lemma_assoc_absent(e.drop_last(), f, k);
        assert(e[e.len() - 1].0@ != k);
    }
}

proof fn lemma_assoc_replace<V, W>(e: Seq<(String, V)>, f: spec_fn(V) -> W, i: int, entry: (String, V))
    requires
        keys_distinct(e),
        0 <= i < e.len(),
        entry.0@ == e[i].0@,
    ensures
        assoc_fold(e.update(i, entry), f) == assoc_fold(e, f).insert(entry.0@, f(entry.1)),
        keys_distinct(e.update(i, entry)),
    decreases e.len(),
{
    let u = e.update(i, entry);
    assert forall|a: int, b: int| 0 <= a < b < u.len() implies (#[trigger] u[a]).0@ != (#[trigger] u[b]).0@ by {
        assert(e[a].0@ != e[b].0@);
    }
    if i == e.len() - 1 {
        assert(u.drop_last() =~= e.drop_last());
        assert(assoc_fold(u, f) =~= assoc_fold(e, f).insert(entry.0@, f(entry.1)));
    } else {
        let d = e.drop_last();
        assert(u.drop_last() =~= d.update(i, entry));
        assert(keys_distinct(d)) by {
            assert forall|a: int, b: int| 0 <= a < b < d.len() implies (#[trigger] d[a]).0@ != (#[trigger] d[b]).0@ by {
                assert(d[a] == e[a] && d[b] == e[b]);
            }
        }
        lemma_assoc_replace(d, f, i, entry);
        assert(e[i].0@ != e[e.len() - 1].0@);
        assert(assoc_fold(u, f) =~= assoc_fold(e, f).insert(entry.0@, f(entry.1)));
    }
}

/// Position of the entry with key `key`, if any.
fn find_key<V>(e: &Vec<(String, V)>, key: &String) -> (r: Option<usize>)
    ensures
        r matches Some(i) ==> i < e@.len() && e@[i as int].0@ == key@,
        r is None ==> forall|i: int| 0 <= i < e@.len() ==> (#[trigger] e@[i]).0@ != key@,
{
    let mut i: usize = 0;
    while i < e.len()
        invariant
            i <= e@.len(),
            forall|j: int| 0 <= j < i ==> (#[trigger] e@[j]).0@ != key@,
        decreases e@.len() - i,
    {
        if e[i].0 == *key {
            return Some(i);
        }
        i = i + 1;
    }
    None
}

/// Sets `key` to `value`, replacing the entry with that key if there is one.
fn assoc_insert<V, W>(e: &mut Vec<(String, V)>, key: String, value: V, Ghost(f): Ghost<spec_fn(V) -> W>)
    requires
        keys_distinct(old(e)@),
    ensures
        keys_distinct(final(e)@),
        assoc_fold(final(e)@, f) == assoc_fold(old(e)@, f).insert(key@, f(value)),
        forall|i: int|
            0 <= i < final(e)@.len() ==> (#[trigger] final(e)@[i]).1 == value || old(e)@.contains(
                final(e)@[i],
            ),
{
    let ghost k = key@;
    let ghost fv = f(value);
    match find_key(e, &key) {
        Some(i) => {
            let ghost before = e@;
            proof {
                lemma_assoc_replace(before, f, i as int, (key, value));
            }
            e.set(i, (key, value));
            proof {
                assert forall|j: int| 0 <= j < e@.len() implies (#[trigger] e@[j]).1 == value
                    || before.contains(e@[j]) by {
                    if j != i {
                        assert(e@[j] == before[j]);
                    }
                }
            }
        },
        None => {
            let ghost before = e@;
            e.push((key, value));
            proof {
                assert(e@.drop_last() =~= before);
                assert forall|j: int| 0 <= j < e@.len() implies (#[trigger] e@[j]).1 == value
                    || before.contains(e@[j]) by {
                    if j < before.len() {
                        assert(e@[j] == before[j]);
                    }
                }
                assert forall|a: int, b: int| 0 <= a < b < e@.len() implies (#[trigger] e@[a]).0@ != (#[trigger] e@[b]).0@ by {
                    if b == e@.len() - 1 {
                        assert(e@[a] == before[a]);
                    } else {
                        assert(e@[a] == before[a] && e@[b] == before[b]);
                    }
                }
            }
        },
    }
}

/// A copy of the entries.
fn copy_entries(e: &Vec<(String, String)>) -> (r: Vec<(String, String)>)
    ensures
        r@ == e@,
{
    let mut r: Vec<(String, String)> = Vec::new();
    let mut i: usize = 0;
    while i < e.len()
        invariant
            i <= e@.len(),
            r@ == e@.take(i as int),
        decreases e@.len() - i,
    {
        let k = e[i].0.clone();
        let v = e[i].1.clone();
        r.push((k, v));
        proof {
            assert(e@.take(i + 1) =~= e@.take(i as int).push(e@[i as int]));
        }
        i = i + 1;
    }
    assert(e@.take(e@.len() as int) =~= e@);
    r
}


// ---------------------------------------------------------------------------
// Characters and lines.

pub(crate) fn chars_of(s: &str) -> (v: Vec<char>)
    ensures
        v@ == s@,
{
    let mut v: Vec<char> = Vec::new();
    for c in it: s.chars()
        invariant
            v@ == it.seq().take(it.index() as int),
            it.seq() == s@,
    {
        v.push(c);
    }
    v
}

pub(crate) fn white_space(c: char) -> (b: bool)
    ensures
        b == is_white_space(c),
{
    let n = c as u32;
    (0x9 <= n && n <= 0xd) || n == 0x20 || n == 0x85 || n == 0xa0 || n == 0x1680 || (0x2000 <= n
        && n <= 0x200a) || n == 0x2028 || n == 0x2029 || n == 0x202f || n == 0x205f || n == 0x3000
}

proof fn lemma_trim_start(s: Seq<char>, k: int)
    requires
        0 <= k <= s.len(),
        forall|m: int| 0 <= m < k ==> is_white_space(#[trigger] s[m]),
        k == s.len() || !is_white_space(s[k]),
    ensures
        trim_start(s) == s.skip(k),
    decreases k,
{
    if k == 0 {
        assert(s.skip(0) =~= s);
    } else {
        let d = s.drop_first();
        assert forall|m: int| 0 <= m < k - 1 implies is_white_space(#[trigger] d[m]) by {
            assert(d[m] == s[m + 1]);
        }
        lemma_trim_start(d, k - 1);
        assert(d.skip(k - 1) =~= s.skip(k));
    }
}

proof fn lemma_trim_end(s: Seq<char>, k: int)
    requires
        0 <= k <= s.len(),
        forall|m: int| k <= m < s.len() ==> is_white_space(#[trigger] s[m]),
        k == 0 || !is_white_space(s[k - 1]),
    ensures
        trim_end(s) == s.take(k),
    decreases s.len() - k,
{
    if k == s.len() {
        assert(s.take(k) =~= s);
    } else {
        let d = s.drop_last();
        assert forall|m: int| k <= m < d.len() implies is_white_space(#[trigger] d[m]) by {
            assert(d[m] == s[m]);
        }
        lemma_trim_end(d, k);
        assert(d.take(k) =~= s.take(k));
    }
}

/// The bounds of `c[lo..hi]` without its leading and trailing white space.
fn trim_range(c: &Vec<char>, lo: usize, hi: usize) -> (r: (usize, usize))
    requires
        lo <= hi <= c@.len(),
    ensures
        lo <= r.0 <= r.1 <= hi,
        c@.subrange(r.0 as int, r.1 as int) == trim(c@.subrange(lo as int, hi as int)),
{
    let ghost s = c@.subrange(lo as int, hi as int);
    let mut a = lo;
    while a < hi && white_space(c[a])
        invariant
            lo <= a <= hi <= c@.len(),
            forall|m: int| lo <= m < a ==> is_white_space(#[trigger] c@[m]),
        decreases hi - a,
    {
        a = a + 1;
    }
    proof {
        assert forall|m: int| 0 <= m < a - lo implies is_white_space(#[trigger] s[m]) by {
            assert(s[m] == c@[lo + m]);
        }
        lemma_trim_start(s, a - lo);
    }
    let ghost t = s.skip(a - lo);
    let mut b = hi;
    while b > a && white_space(c[b - 1])
        invariant
            lo <= a <= b <= hi <= c@.len(),
            forall|m: int| b <= m < hi ==> is_white_space(#[trigger] c@[m]),
        decreases b - a,
    {
        b = b - 1;
    }
    proof {
        assert(t =~= c@.subrange(a as int, hi as int));
        assert forall|m: int| b - a <= m < t.len() implies is_white_space(#[trigger] t[m]) by {
            assert(t[m] == c@[a + m]);
        }
        if b > a {
            assert(t[b - a - 1] == c@[b - 1]);
        }
        lemma_trim_end(t, b - a);
        assert(t.take(b - a) =~= c@.subrange(a as int, b as int));
    }
    (a, b)
}

proof fn lemma_split_lines_nonempty(s: Seq<char>)
    ensures
        split_lines(s).len() >= 1,
    decreases s.len(),
{
    if s.len() > 0 {
        lemma_split_lines_nonempty(s.drop_last());
    }
}

/// Appending text without line feeds extends the last piece.
proof fn lemma_split_lines_append(p: Seq<char>, q: Seq<char>)
    requires
        forall|i: int| 0 <= i < q.len() ==> q[i] != '\n',
    ensures
        split_lines(p + q) == split_lines(p).update(
            split_lines(p).len() - 1,
            split_lines(p).last() + q,
        ),
        split_lines(p + q).len() == split_lines(p).len(),
    decreases q.len(),
{
    lemma_split_lines_nonempty(p);
    if q.len() == 0 {
        assert(p + q =~= p);
        assert(split_lines(p).last() + q =~= split_lines(p).last());
        assert(split_lines(p).update(split_lines(p).len() - 1, split_lines(p).last())
            =~= split_lines(p));
    } else {
        let q2 = q.drop_last();
        lemma_split_lines_append(p, q2);
        assert((p + q).drop_last() =~= p + q2);
        assert((p + q).last() == q.last());
        assert(q.last() == q[q.len() - 1]);
        assert(q.last() != '\n');
        let sp = split_lines(p);
        let prev = split_lines(p + q2);
        assert(prev.len() == sp.len());
        assert(prev.last() == sp.last() + q2);
        assert(prev.last().push(q.last()) =~= sp.last() + q);
        assert(split_lines(p + q) == prev.update(prev.len() - 1, prev.last().push((p + q).last())));
        assert(split_lines(p + q) =~= split_lines(p).update(
            split_lines(p).len() - 1,
            split_lines(p).last() + q,
        ));
    }
}

// ---------------------------------------------------------------------------
// The parsed file.

/// A parsed INI file: its sections, each with its entries.
pub struct IniFile {
    sections: Vec<(String, Vec<(String, String)>)>,
}

pub open spec fn sections_distinct(e: Seq<(String, Vec<(String, String)>)>) -> bool {
    &&& keys_distinct(e)
    &&& forall|i: int| 0 <= i < e.len() ==> keys_distinct((#[trigger] e[i]).1@)
}

impl View for IniFile {
    type V = IniModel;

    closed spec fn view(&self) -> IniModel {
        sections_view(self.sections@)
    }
}

impl IniFile {
    #[verifier::type_invariant]
    closed spec fn names_distinct(&self) -> bool {
        sections_distinct(self.sections@)
    }

    /// The value of `key` in section `section`, if both exist.
    pub fn get(&self, section: &str, key: &str) -> (r: Option<String>)
        ensures
            r is Some <==> self@.contains_key(section@) && self@[section@].contains_key(key@),
            r matches Some(v) ==> v@ == self@[section@][key@],
    {
        proof {
            use_type_invariant(self);
        }
        let name = String::from_str(section);
        let k = String::from_str(key);
        match find_key(&self.sections, &name) {
            None => {
                proof {
                    lemma_assoc_absent(self.sections@, section_of(), name@);
                }
                None
            },
            Some(i) => {
                let entries = &self.sections[i].1;
                proof {
                    lemma_assoc_lookup(self.sections@, section_of(), i as int);
                    assert(keys_distinct(self.sections@[i as int].1@));
                }
                match find_key(entries, &k) {
                    None => {
                        proof {
                            lemma_assoc_absent(entries@, value_of(), k@);
                        }
                        None
                    },
                    Some(j) => {
                        proof {
                            lemma_assoc_lookup(entries@, value_of(), j as int);
                        }
                        Some(entries[j].1.clone())
                    },
                }
            },
        }
    }

    /// The names of the sections, each once.
    pub fn section_names(&self) -> (names: Vec<String>)
        ensures
            forall|i: int, j: int| 0 <= i < j < names@.len() ==> names@[i]@ != names@[j]@,
            forall|k: Seq<char>| self@.contains_key(k) <==> exists|i: int| 0 <= i < names@.len() && #[trigger] names@[i]@ == k,
    {
        proof {
            use_type_invariant(self);
        }
        let mut names: Vec<String> = Vec::new();
        let mut i: usize = 0;
        while i < self.sections.len()
            invariant
                i <= self.sections@.len(),
                sections_distinct(self.sections@),
                names@.len() == i,
                forall|j: int| 0 <= j < i ==> #[trigger] names@[j]@ == self.sections@[j].0@,
            decreases self.sections@.len() - i,
        {
            names.push(self.sections[i].0.clone());
            i = i + 1;
        }
        proof {
            assert forall|k: Seq<char>| self@.contains_key(k) implies exists|i: int| 0 <= i < names@.len() && #[trigger] names@[i]@ == k by {
                if forall|i: int| 0 <= i < self.sections@.len() ==> (#[trigger] self.sections@[i]).0@ != k {
                    lemma_assoc_absent(self.sections@, section_of(), k);
                } else {
                    let i = choose|i: int| 0 <= i < self.sections@.len() && (#[trigger] self.sections@[i]).0@ == k;
                    assert(names@[i]@ == k);
                }
            }
            assert forall|k: Seq<char>| (exists|i: int| 0 <= i < names@.len() && #[trigger] names@[i]@ == k) implies self@.contains_key(k) by {
                let i = choose|i: int| 0 <= i < names@.len() && #[trigger] names@[i]@ == k;
                lemma_assoc_lookup(self.sections@, section_of(), i);
            }
        }
        names
    }

    /// The entries of section `section` as `(key, value)` pairs, each key once.
    pub fn section_entries(&self, section: &str) -> (r: Option<Vec<(String, String)>>)
        ensures
            r is Some <==> self@.contains_key(section@),
            r matches Some(e) ==> keys_distinct(e@) && entries_view(e@) == self@[section@],
    {
        proof {
            use_type_invariant(self);
        }
        let name = String::from_str(section);
        match find_key(&self.sections, &name) {
            None => {
                proof {
                    lemma_assoc_absent(self.sections@, section_of(), name@);
                }
                None
            },
            Some(i) => {
                proof {
                    lemma_assoc_lookup(self.sections@, section_of(), i as int);
                    assert(keys_distinct(self.sections@[i as int].1@));
                }
                Some(copy_entries(&self.sections[i].1))
            },
        }
    }

    /// Whether the file has a section named `section`.
    pub fn has_section(&self, section: &str) -> (r: bool)
        ensures
            r == self@.contains_key(section@),
    {
        proof {
            use_type_invariant(self);
        }
        let name = String::from_str(section);
        match find_key(&self.sections, &name) {
            None => {
                proof {
                    lemma_assoc_absent(self.sections@, section_of(), name@);
                }
                false
            },
            Some(i) => {
                proof {
                    lemma_assoc_lookup(self.sections@, section_of(), i as int);
                }
                true
            },
        }
    }
}


/// The lines that the parser has gone through: those before position `i`
/// while `more` lines follow, all of them otherwise.
spec fn lines_done(c: Seq<char>, i: int, more: bool) -> Seq<Seq<char>> {
    if more {
        split_lines(c.take(i)).drop_last()
    } else {
        split_lines(c)
    }
}

proof fn lemma_next_line(c: Seq<char>, i: int, j: int)
    requires
        0 <= i <= j <= c.len(),
        i == 0 || c[i - 1] == '\n',
        forall|m: int| i <= m < j ==> c[m] != '\n',
        j == c.len() || c[j] == '\n',
    ensures
        lines_done(c, j + 1, true) == lines_done(c, i, true).push(c.subrange(i, j)) || j == c.len(),
        j == c.len() ==> lines_done(c, j, false) == lines_done(c, i, true).push(c.subrange(i, j)),
{
    let p = c.take(i);
    let q = c.subrange(i, j);
    let sp = split_lines(p);
    lemma_split_lines_nonempty(p);
    if i == 0 {
        assert(p =~= Seq::<char>::empty());
        assert(sp.last() =~= Seq::<char>::empty());
    } else {
        assert(p.drop_last() =~= c.take(i - 1));
        assert(p.last() == '\n');
        assert(sp.last() =~= Seq::<char>::empty());
    }
    assert forall|m: int| 0 <= m < q.len() implies q[m] != '\n' by {
        assert(q[m] == c[i + m]);
    }
    lemma_split_lines_append(p, q);
    assert(p + q =~= c.take(j));
    assert(sp.last() + q =~= q);
    assert(sp.update(sp.len() - 1, q) =~= sp.drop_last().push(q));
    if j < c.len() {
        assert(c.take(j + 1).drop_last() =~= c.take(j));
        assert(c.take(j + 1).last() == '\n');
        assert(split_lines(c.take(j + 1)).drop_last() =~= split_lines(c.take(j)));
    } else {
        assert(c.take(j) =~= c);
    }
}

proof fn lemma_fold_push(lines: Seq<Seq<char>>, line: Seq<char>)
    ensures
        fold_lines(lines.push(line)) == step(fold_lines(lines), line),
        lines_ok(lines.push(line)) == (lines_ok(lines) && line_ok(fold_lines(lines), line)),
{
    assert(lines.push(line).drop_last() =~= lines);
}

proof fn lemma_inner_distinct(
    before: Seq<(String, Vec<(String, String)>)>,
    after: Seq<(String, Vec<(String, String)>)>,
    v: Vec<(String, String)>,
)
    requires
        sections_distinct(before),
        keys_distinct(after),
        keys_distinct(v@),
        forall|i: int| 0 <= i < after.len() ==> (#[trigger] after[i]).1 == v || before.contains(after[i]),
    ensures
        sections_distinct(after),
{
    assert forall|i: int| 0 <= i < after.len() implies keys_distinct((#[trigger] after[i]).1@) by {
        if after[i].1 != v {
            let j = choose|j: int| 0 <= j < before.len() && before[j] == after[i];
            assert(keys_distinct(before[j].1@));
        }
    }
}

/// Position of the first `=` in `c[lo..hi]`, if any.
fn find_equals(c: &Vec<char>, lo: usize, hi: usize) -> (r: Option<usize>)
    requires
        lo <= hi <= c@.len(),
    ensures
        r matches Some(p) ==> lo <= p < hi && c@[p as int] == '=' && forall|m: int|
            lo <= m < p ==> c@[m] != '=',
        r is None ==> forall|m: int| lo <= m < hi ==> c@[m] != '=',
{
    let mut k = lo;
    while k < hi
        invariant
            lo <= k <= hi <= c@.len(),
            forall|m: int| lo <= m < k ==> c@[m] != '=',
        decreases hi - k,
    {
        if c[k] == '=' {
            return Some(k);
        }
        k = k + 1;
    }
    None
}

/// Parses `content`, or gives `None` where the format is broken: a header
/// that is not `[name]` or whose name starts with `[`, a line with more than
/// one `=`, or a `key=value` line before any header.
pub fn try_parse(content: &str) -> (r: Option<IniFile>)
    ensures
        r is Some <==> ini_well_formed(content@),
        r matches Some(f) ==> f@ == ini_contents(content@),
{
    let c = chars_of(content);
    let n = c.len();
    let no_sec = String::from_str("-1");
    proof {
        reveal_strlit("-1");
        assert(no_sec@ =~= no_section());
    }
    let mut sections: Vec<(String, Vec<(String, String)>)> = Vec::new();
    let mut entries: Vec<(String, String)> = Vec::new();
    let mut current: String = no_sec.clone();
    let mut ok = true;
    let mut i: usize = 0;
    let mut more = true;
    proof {
        assert(c@.take(0) =~= Seq::<char>::empty());
        assert(lines_done(c@, 0, true) =~= Seq::<Seq<char>>::empty());
    }
    while more
        invariant
            c@ == content@,
            n == c@.len(),
            no_sec@ == no_section(),
            i <= n,
            i == 0 || c@[i - 1] == '\n',
            sections_distinct(sections@),
            keys_distinct(entries@),
            (sections_view(sections@), entries_view(entries@), current@) == fold_lines(
                lines_done(c@, i as int, more),
            ),
            ok == lines_ok(lines_done(c@, i as int, more)),
        decreases n - i + if more {
            1int
        } else {
            0int
        },
    {
        let mut j = i;
        while j < n && c[j] != '\n'
            invariant
                i <= j <= n,
                n == c@.len(),
                forall|m: int| i <= m < j ==> c@[m] != '\n',
            decreases n - j,
        {
            j = j + 1;
        }
        let ghost line = c@.subrange(i as int, j as int);
        let ghost st = fold_lines(lines_done(c@, i as int, true));
        let ghost done = lines_done(c@, i as int, true);
        proof {
            lemma_next_line(c@, i as int, j as int);
            lemma_fold_push(done, line);
        }
        let (a, b) = trim_range(&c, i, j);
        let ghost t = c@.subrange(a as int, b as int);
        assert(t == trim(line));
        if a == b {
        } else if c[a] == '[' {
            assert(t[0] == '[');
            if b - a < 2 || c[b - 1] != ']' || (b - a >= 3 && c[a + 1] == '[') {
                proof {
                    if b - a >= 2 {
                        assert(t.last() == c@[b - 1]);
                    }
                    if b - a >= 3 {
                        assert(t[1] == c@[a + 1]);
                    }
                }
                ok = false;
            } else {
                proof {
                    assert(t.last() == c@[b - 1]);
                    if b - a >= 3 {
                        assert(t[1] == c@[a + 1]);
                    }
                }
                let name = String::from_str(content.substring_char(a + 1, b - 1));
                assert(name@ =~= header_name(t));
                if current != name {
                    entries.clear();
                    proof {
                        assert(entries_view(entries@) =~= Map::<Seq<char>, Seq<char>>::empty());
                    }
                }
                let key = name.clone();
                current = name;
                let copy = copy_entries(&entries);
                let ghost before = sections@;
                let ghost inner = copy;
                assoc_insert::<Vec<(String, String)>, Map<Seq<char>, Seq<char>>>(&mut sections, key, copy, Ghost(section_of()));
                proof {
                    lemma_inner_distinct(before, sections@, inner);
                }
            }
        } else {
            match find_equals(&c, a, b) {
                Some(p) => {
                    let second = find_equals(&c, p + 1, b);
                    proof {
                        assert(t[p - a] == '=');
                        assert(has_equals(t));
                    }
                    if second.is_some() || current == no_sec {
                        proof {
                            if let Some(q) = second {
                                assert(t[q - a] == '=');
                            }
                        }
                        ok = false;
                    } else {
                        proof {
                            assert forall|x: int, y: int|
                                0 <= x < t.len() && 0 <= y < t.len() && t[x] == '=' && t[y] == '=' implies x == y by {
                                assert(t[x] == c@[a + x]);
                                assert(t[y] == c@[a + y]);
                            }
                            assert(one_equals(t));
                            assert(equals_at(t) == p - a);
                            assert(t.take(p - a) =~= c@.subrange(a as int, p as int));
                            assert(t.skip(p - a + 1) =~= c@.subrange(p + 1, b as int));
                        }
                        let (ka, kb) = trim_range(&c, a, p);
                        let (va, vb) = trim_range(&c, p + 1, b);
                        let key = String::from_str(content.substring_char(ka, kb));
                        let value = String::from_str(content.substring_char(va, vb));
                        assoc_insert::<String, Seq<char>>(&mut entries, key, value, Ghost(value_of()));
                        let copy = copy_entries(&entries);
                        let ghost before = sections@;
                        let ghost inner = copy;
                        assoc_insert::<Vec<(String, String)>, Map<Seq<char>, Seq<char>>>(&mut sections, current.clone(), copy, Ghost(section_of()));
                        proof {
                            lemma_inner_distinct(before, sections@, inner);
                        }
                    }
                },
                None => {
                    proof {
                        assert forall|x: int| 0 <= x < t.len() implies t[x] != '=' by {
                            assert(t[x] == c@[a + x]);
                        }
                    }
                    let key = String::from_str(content.substring_char(a, b));
                    let value = String::new();
                    assoc_insert::<String, Seq<char>>(&mut entries, key, value, Ghost(value_of()));
                    let copy = copy_entries(&entries);
                    let ghost before = sections@;
                    let ghost inner = copy;
                    assoc_insert::<Vec<(String, String)>, Map<Seq<char>, Seq<char>>>(&mut sections, current.clone(), copy, Ghost(section_of()));
                    proof {
                        lemma_inner_distinct(before, sections@, inner);
                    }
                },
            }
        }
        if j == n {
            more = false;
        } else {
            i = j + 1;
        }
    }
    if ok {
        Some(IniFile { sections })
    } else {
        None
    }
}

/// Parses `content` into its sections and their entries. A line is split
/// at `=` into key and value, each trimmed; a line without `=` is a key
/// with an empty value. A header whose name differs from the current
/// section's starts the section afresh.
pub fn parse(content: &str) -> (ini: IniFile)
    requires
        ini_well_formed(content@),
    ensures
        ini@ == ini_contents(content@),
{
    match try_parse(content) {
        Some(ini) => ini,
        None => {
            proof {
                assert(false);
            }
            IniFile { sections: Vec::new() }
        },
    }
}

} // verus!
