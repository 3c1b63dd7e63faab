//! The lines two texts have in common: each line of the second text that
//! also occurs in the first, once, in the order of its first occurrence in
//! the second.
use vstd::prelude::*;

verus! {

/// The characters of each line.
pub open spec fn texts(lines: Seq<String>) -> Seq<Seq<char>> {
    lines.map_values(|s: String| s@)
}

/// The lines of `second` that occur in `first`, each kept at its first
/// occurrence in `second`.
pub open spec fn common(first: Seq<Seq<char>>, second: Seq<Seq<char>>) -> Seq<Seq<char>>
    decreases second.len(),
{
    if second.len() == 0 {
        Seq::empty()
    } else {
        let prev = common(first, second.drop_last());
        let line = second.last();
        if first.contains(line) && !prev.contains(line) {
            prev.push(line)
        } else {
            prev
        }
    }
}

/// The common lines are distinct, and they are exactly the lines found in
/// both texts.
pub proof fn lemma_common_lines(first: Seq<Seq<char>>, second: Seq<Seq<char>>)
    ensures
        forall|i: int, j: int|
            0 <= i < j < common(first, second).len() ==> common(first, second)[i] != common(first, second)[j],
        forall|line: Seq<char>|
            #[trigger] common(first, second).contains(line) <==> (first.contains(line) && second.contains(line)),
    decreases second.len(),
{
    if second.len() > 0 {
        let d = second.drop_last();
        lemma_common_lines(first, d);
        let prev = common(first, d);
        let last = second.last();
        assert forall|line: Seq<char>| d.contains(line) implies second.contains(line) by {
            let k = choose|k: int| 0 <= k < d.len() && d[k] == line;
            assert(second[k] == line);
        }
        assert forall|line: Seq<char>| second.contains(line) && line != last implies d.contains(line) by {
            let k = choose|k: int| 0 <= k < second.len() && second[k] == line;
            assert(k != second.len() - 1);
            assert(d[k] == line);
        }
        assert(second.contains(last)) by {
            assert(second[second.len() - 1] == last);
        }
        if first.contains(last) && !prev.contains(last) {
            let c = prev.push(last);
            assert forall|line: Seq<char>| #[trigger] c.contains(line) <==> prev.contains(line) || line == last by {
                if c.contains(line) {
                    let k = choose|k: int| 0 <= k < c.len() && c[k] == line;
                    if k < prev.len() {
                        assert(prev[k] == line);
                    }
                }
                if prev.contains(line) {
                    let k = choose|k: int| 0 <= k < prev.len() && prev[k] == line;
                    assert(c[k] == line);
                }
                if line == last {
                    assert(c[prev.len() as int] == line);
                }
            }
            assert forall|i: int, j: int| 0 <= i < j < c.len() implies c[i] != c[j] by {
                if j == c.len() - 1 {
                    assert(c[i] == prev[i]);
                    assert(prev.contains(c[i]));
                } else {
                    assert(c[i] == prev[i] && c[j] == prev[j]);
                }
            }
        }
    }
}

/// In `s`, the line `a` occurs before any occurrence of the line `b`.
pub open spec fn occurs_before(s: Seq<Seq<char>>, a: Seq<char>, b: Seq<char>) -> bool {
    exists|k: int|
        0 <= k < s.len() && #[trigger] s[k] == a && forall|m: int| 0 <= m < s.len() && #[trigger] s[m] == b ==> k < m
}

/// The common lines keep the order of the second text: of two common
/// lines, the earlier one occurs in the second text before any occurrence
/// of the later one.
pub proof fn lemma_common_lines_order(first: Seq<Seq<char>>, second: Seq<Seq<char>>)
    ensures
        forall|i: int, j: int|
            0 <= i < j < common(first, second).len() ==> #[trigger] occurs_before(
                second,
                common(first, second)[i],
                common(first, second)[j],
            ),
    decreases second.len(),
{
    if second.len() > 0 {
        let d = second.drop_last();
        let n = second.len() - 1;
        lemma_common_lines_order(first, d);
        lemma_common_lines(first, d);
        let prev = common(first, d);
        let c = common(first, second);
        let last = second.last();
        assert forall|i: int, j: int|
            0 <= i < j < common(first, second).len() implies #[trigger] occurs_before(
                second,
                common(first, second)[i],
                common(first, second)[j],
            ) by {
            if j < prev.len() {
                assert(c[i] == prev[i] && c[j] == prev[j]);
                assert(occurs_before(d, prev[i], prev[j]));
                let k = choose|k: int|
                    0 <= k < d.len() && #[trigger] d[k] == prev[i] && forall|m: int|
                        0 <= m < d.len() && #[trigger] d[m] == prev[j] ==> k < m;
                assert(second[k] == c[i]);
                assert forall|m: int| 0 <= m < second.len() && #[trigger] second[m] == c[j] implies k < m by {
                    if m < n {
                        assert(d[m] == second[m]);
                    } else {
                        assert(prev.contains(prev[j]));
                        assert(first.contains(last) && d.contains(last));
                    }
                }
            } else {
                assert(c == prev.push(last));
                assert(c[j] == last);
                assert(c[i] == prev[i]);
                assert(prev.contains(prev[i]));
                assert(d.contains(prev[i]));
                let k = choose|k: int| 0 <= k < d.len() && d[k] == prev[i];
                assert(second[k] == c[i]);
                assert(!prev.contains(last));
                assert(!d.contains(last));
                assert forall|m: int| 0 <= m < second.len() && #[trigger] second[m] == c[j] implies k < m by {
                    if m < n {
                        assert(d[m] == second[m]);
                    }
                }
            }
        }
    } else {
        assert(common(first, second).len() == 0);
    }
}

/// Whether some line of `lines` equals `line`.
fn contains_line(lines: &Vec<String>, line: &String) -> (b: bool)
    ensures
        b == texts(lines@).contains(line@),
{
    let mut i: usize = 0;
    while i < lines.len()
        invariant
            i <= lines@.len(),
            forall|j: int| 0 <= j < i ==> (#[trigger] lines@[j])@ != line@,
        decreases lines@.len() - i,
    {
        if lines[i] == *line {
            proof {
                assert(texts(lines@)[i as int] == line@);
            }
            return true;
        }
        i = i + 1;
    }
    proof {
        if texts(lines@).contains(line@) {
            let j = choose|j: int| 0 <= j < texts(lines@).len() && texts(lines@)[j] == line@;
            assert(lines@[j]@ == line@);
        }
    }
    false
}

/// The lines of `second` that also occur in `first`, without repeats, in
/// the order in which they first occur in `second`.
pub fn common_lines(first: &Vec<String>, second: &Vec<String>) -> (out: Vec<String>)
    ensures
        texts(out@) == common(texts(first@), texts(second@)),
{
    let mut out: Vec<String> = Vec::new();
    let mut i: usize = 0;
    while i < second.len()
        invariant
            i <= second@.len(),
            texts(out@) == common(texts(first@), texts(second@).take(i as int)),
        decreases second@.len() - i,
    {
        let line = &second[i];
        proof {
            assert(texts(second@).take(i + 1).drop_last() =~= texts(second@).take(i as int));
            assert(texts(second@).take(i + 1).last() == line@);
        }
        if contains_line(first, line) && !contains_line(&out, line) {
            let ghost before = out@;
            out.push(line.clone());
            proof {
                assert(texts(out@) =~= texts(before).push(line@));
            }
        }
        i = i + 1;
    }
    proof {
        assert(texts(second@).take(i as int) =~= texts(second@));
    }
    out
}

} // verus!
