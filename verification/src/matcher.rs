//! The matcher: pure line search.
//!
//! `search` keeps exactly the lines of a text that contain a query as a
//! literal substring, in their original order, duplicates included.
//! `search_case_insensitive` does the same after simple lowercasing of
//! both the query and each candidate line; the lines it returns keep
//! their original casing. Lines are the stretches of text between
//! newline characters; a final newline terminates the last line rather
//! than opening an empty one.

use vstd::prelude::*;

verus! {

/// Simple lowercasing of one character: the letters 'A' through 'Z' map
/// to their lowercase counterparts, every other character is unchanged.
pub open spec fn lower_char(c: char) -> char {
    match c {
        'A' => 'a',
        'B' => 'b',
        'C' => 'c',
        'D' => 'd',
        'E' => 'e',
        'F' => 'f',
        'G' => 'g',
        'H' => 'h',
        'I' => 'i',
        'J' => 'j',
        'K' => 'k',
        'L' => 'l',
        'M' => 'm',
        'N' => 'n',
        'O' => 'o',
        'P' => 'p',
        'Q' => 'q',
        'R' => 'r',
        'S' => 's',
        'T' => 't',
        'U' => 'u',
        'V' => 'v',
        'W' => 'w',
        'X' => 'x',
        'Y' => 'y',
        'Z' => 'z',
        _ => c,
    }
}

/// Simple lowercasing of a whole text, character by character.
pub open spec fn lower(s: Seq<char>) -> Seq<char> {
    s.map_values(|c: char| lower_char(c))
}

/// `pat` occurs in `text` starting at position `i`.
pub open spec fn matches_at(text: Seq<char>, pat: Seq<char>, i: int) -> bool {
    0 <= i && i + pat.len() <= text.len() && text.subrange(i, i + pat.len()) == pat
}

/// `pat` occurs somewhere in `text` as a contiguous run of characters.
pub open spec fn contains_sub(text: Seq<char>, pat: Seq<char>) -> bool {
    exists|i: int| matches_at(text, pat, i)
}

/// Position of the first newline in `s`, or `s.len()` if there is none.
pub open spec fn first_nl(s: Seq<char>) -> nat
    decreases s.len(),
{
    if s.len() == 0 {
        0
    } else if s[0] == '\n' {
        0
    } else {
        1 + first_nl(s.drop_first())
    }
}

/// The lines of `s`: the stretches between newline characters. A final
/// newline closes the last line; it does not open an empty one, so
/// `"a\n"` has the single line `"a"` while `"a\nb"` has two.
pub open spec fn spec_lines(s: Seq<char>) -> Seq<Seq<char>>
    decreases s.len(),
{
    if s.len() == 0 {
        Seq::empty()
    } else {
        let k = first_nl(s);
        if k >= s.len() {
            seq![s]
        } else {
            seq![s.subrange(0, k as int)] + spec_lines(s.subrange(k as int + 1, s.len() as int))
        }
    }
}

/// What `search` returns: the lines of `content` that contain `query`,
/// in order, duplicates kept.
pub open spec fn search_spec(query: Seq<char>, content: Seq<char>) -> Seq<Seq<char>> {
    spec_lines(content).filter(|line: Seq<char>| contains_sub(line, query))
}

/// What `search_case_insensitive` returns: the original lines of
/// `content` whose lowercased text contains the lowercased `query`.
pub open spec fn search_ci_spec(query: Seq<char>, content: Seq<char>) -> Seq<Seq<char>> {
    spec_lines(content).filter(|line: Seq<char>| contains_sub(lower(line), lower(query)))
}

/// The views of a sequence of borrowed string slices.
pub open spec fn views_of(lines: Seq<&str>) -> Seq<Seq<char>> {
    lines.map_values(|l: &str| l@)
}

/// The characters of `s`, collected into a vector.
fn to_chars(s: &str) -> (r: Vec<char>)
    ensures
        r@ == s@,
{
    let n = s.unicode_len();
    let mut r: Vec<char> = Vec::new();
    let mut i: usize = 0;
    while i < n
        invariant
            i <= n,
            n == s@.len(),
            r@ == s@.subrange(0, i as int),
        decreases n - i,
    {
        r.push(s.get_char(i));
        proof {
            assert(r@ =~= s@.subrange(0, i + 1));
        }
        i = i + 1;
    }
    proof {
        assert(s@.subrange(0, n as int) =~= s@);
    }
    r
}

/// Simple lowercasing of one character, executably.
fn lower_char_exec(c: char) -> (r: char)
    ensures
        r == lower_char(c),
{
    match c {
        'A' => 'a',
        'B' => 'b',
        'C' => 'c',
        'D' => 'd',
        'E' => 'e',
        'F' => 'f',
        'G' => 'g',
        'H' => 'h',
        'I' => 'i',
        'J' => 'j',
        'K' => 'k',
        'L' => 'l',
        'M' => 'm',
        'N' => 'n',
        'O' => 'o',
        'P' => 'p',
        'Q' => 'q',
        'R' => 'r',
        'S' => 's',
        'T' => 't',
        'U' => 'u',
        'V' => 'v',
        'W' => 'w',
        'X' => 'x',
        'Y' => 'y',
        'Z' => 'z',
        _ => c,
    }
}

/// Simple lowercasing of a whole vector of characters, executably.
fn lower_chars(s: &Vec<char>) -> (r: Vec<char>)
    ensures
        r@ == lower(s@),
{
    let n = s.len();
    let mut r: Vec<char> = Vec::new();
    let mut i: usize = 0;
    while i < n
        invariant
            i <= n,
            n == s@.len(),
            r@ == lower(s@.subrange(0, i as int)),
        decreases n - i,
    {
        r.push(lower_char_exec(s[i]));
        proof {
            assert(r@ =~= lower(s@.subrange(0, i + 1)));
        }
        i = i + 1;
    }
    proof {
        assert(s@.subrange(0, n as int) =~= s@);
    }
    r
}

/// Whether `pat` occurs in `text` starting at position `i`.
fn match_at(text: &Vec<char>, pat: &Vec<char>, i: usize) -> (b: bool)
    requires
        i + pat@.len() <= text@.len(),
    ensures
        b == matches_at(text@, pat@, i as int),
{
    let n = text.len();
    let m = pat.len();
    let mut j: usize = 0;
    while j < m
        invariant
            j <= m,
            n == text@.len(),
            m == pat@.len(),
            i + m <= n,
            forall|t: int| 0 <= t < j ==> text@[i + t] == pat@[t],
        decreases m - j,
    {
        if text[i + j] != pat[j] {
            proof {
                assert(text@.subrange(i as int, i + m) != pat@) by {
                    assert(text@.subrange(i as int, i + m)[j as int] == text@[i + j]);
                }
            }
            return false;
        }
        j = j + 1;
    }
    proof {
        assert(text@.subrange(i as int, i + m) =~= pat@);
    }
    true
}

/// Whether `pat` occurs anywhere in `text` as a contiguous run.
fn contains_substr(text: &Vec<char>, pat: &Vec<char>) -> (b: bool)
    ensures
        b == contains_sub(text@, pat@),
{
    let n = text.len();
    let m = pat.len();
    if m > n {
        proof {
            assert(forall|t: int| !matches_at(text@, pat@, t));
        }
        return false;
    }
    if m == 0 {
        proof {
            assert(matches_at(text@, pat@, 0)) by {
                assert(text@.subrange(0, 0) =~= pat@);
            }
        }
        return true;
    }
    let mut i: usize = 0;
    while i <= n - m
        invariant
            0 < m <= n,
            n == text@.len(),
            m == pat@.len(),
            forall|t: int| 0 <= t < i ==> !matches_at(text@, pat@, t),
        decreases n - i,
    {
        if match_at(text, pat, i) {
            return true;
        }
        i = i + 1;
    }
    proof {
        assert(forall|t: int| !matches_at(text@, pat@, t)) by {
            assert(forall|t: int| t > n - m ==> !matches_at(text@, pat@, t));
        }
    }
    false
}

/// `first_nl` returns the position of the first newline: if nothing
/// before `j` is a newline and `j` is a newline (or the end), the first
/// newline is at `j`.
proof fn lemma_first_nl_at(s: Seq<char>, j: int)
    requires
        0 <= j <= s.len(),
        forall|t: int| 0 <= t < j ==> s[t] != '\n',
        j == s.len() || s[j] == '\n',
    ensures
        first_nl(s) == j,
    decreases s.len(),
{
    if s.len() == 0 {
    } else if s[0] == '\n' {
        assert(j == 0);
    } else {
        assert(j >= 1);
        lemma_first_nl_at(s.drop_first(), j - 1);
    }
}

/// The lines of `content`, as borrowed slices, in order.
fn split_lines<'a>(content: &'a str) -> (r: Vec<&'a str>)
    ensures
        views_of(r@) == spec_lines(content@),
{
    let n = content.unicode_len();
    let mut r: Vec<&'a str> = Vec::new();
    let mut start: usize = 0;
    let mut i: usize = 0;
    proof {
        assert(content@.subrange(0, n as int) =~= content@);
        assert(views_of(r@) + spec_lines(content@.subrange(0, n as int)) =~= spec_lines(
            content@,
        ));
    }
    while i < n
        invariant
            start <= i <= n,
            n == content@.len(),
            forall|t: int| start <= t < i ==> content@[t] != '\n',
            spec_lines(content@) == views_of(r@) + spec_lines(
                content@.subrange(start as int, n as int),
            ),
        decreases n - i,
    {
        if content.get_char(i) == '\n' {
            let line = content.substring_char(start, i);
            proof {
                let u = content@.subrange(start as int, n as int);
                assert(u[i - start] == '\n');
                lemma_first_nl_at(u, i - start);
                assert(u.subrange(0, i - start) =~= line@);
                assert(u.subrange(i - start + 1, u.len() as int) =~= content@.subrange(
                    i + 1,
                    n as int,
                ));
                assert(views_of(r@.push(line)) =~= views_of(r@) + seq![line@]);
                assert(views_of(r@) + spec_lines(u) =~= views_of(r@.push(line)) + spec_lines(
                    content@.subrange(i + 1, n as int),
                ));
            }
            r.push(line);
            start = i + 1;
        }
        i = i + 1;
    }
    if start < n {
        let line = content.substring_char(start, n);
        proof {
            let u = content@.subrange(start as int, n as int);
            lemma_first_nl_at(u, n - start);
            assert(spec_lines(u) == seq![u]);
            assert(u == line@);
            assert(views_of(r@.push(line)) =~= views_of(r@) + seq![line@]);
            assert(views_of(r@.push(line)) =~= spec_lines(content@));
        }
        r.push(line);
    } else {
        proof {
            let u = content@.subrange(start as int, n as int);
            assert(u.len() == 0);
            assert(views_of(r@) + spec_lines(u) =~= views_of(r@));
        }
    }
    r
}

/// Filtering a sequence extended by one element keeps the filtered
/// prefix and appends the new element exactly when it satisfies the
/// predicate.
proof fn lemma_filter_push<A>(s: Seq<A>, x: A, pred: spec_fn(A) -> bool)
    ensures
        s.push(x).filter(pred) == if pred(x) {
            s.filter(pred).push(x)
        } else {
            s.filter(pred)
        },
{
    reveal(Seq::filter);
    assert(s.push(x).drop_last() =~= s);
    assert(s.push(x).last() == x);
}

/// Every line of `content` that contains `query` as a literal
/// substring, in original order, duplicates kept; nothing else.
pub fn search<'a>(query: &str, content: &'a str) -> (r: Vec<&'a str>)
    ensures
        views_of(r@) == search_spec(query@, content@),
{
    let q = to_chars(query);
    let lines = split_lines(content);
    let mut r: Vec<&'a str> = Vec::new();
    let mut i: usize = 0;
    let ghost p = |line: Seq<char>| contains_sub(line, query@);
    proof {
        reveal(Seq::filter);
        assert(views_of(lines@.subrange(0, 0)) =~= Seq::<Seq<char>>::empty());
        assert(views_of(r@) =~= Seq::<Seq<char>>::empty());
    }
    while i < lines.len()
        invariant
            i <= lines@.len(),
            q@ == query@,
            views_of(lines@) == spec_lines(content@),
            views_of(r@) == views_of(lines@.subrange(0, i as int)).filter(p),
            p == (|line: Seq<char>| contains_sub(line, query@)),
        decreases lines@.len() - i,
    {
        let line_chars = to_chars(lines[i]);
        let keep = contains_substr(&line_chars, &q);
        proof {
            assert(keep == p(lines@[i as int]@));
            let prefix = views_of(lines@.subrange(0, i as int));
            lemma_filter_push(prefix, lines@[i as int]@, p);
            assert(views_of(lines@.subrange(0, i + 1)) =~= prefix.push(lines@[i as int]@));
        }
        if keep {
            let line = lines[i];
            proof {
                assert(views_of(r@.push(line)) =~= views_of(r@).push(line@));
            }
            r.push(line);
        }
        i = i + 1;
    }
    proof {
        assert(lines@.subrange(0, lines@.len() as int) =~= lines@);
        assert(views_of(r@) == search_spec(query@, content@));
    }
    r
}

/// Every line of `content` whose simple-lowercased text contains the
/// simple-lowercased `query`, in original order and original casing.
pub fn search_case_insensitive<'a>(query: &str, content: &'a str) -> (r: Vec<&'a str>)
    ensures
        views_of(r@) == search_ci_spec(query@, content@),
{
    let q = to_chars(query);
    let lq = lower_chars(&q);
    let lines = split_lines(content);
    let mut r: Vec<&'a str> = Vec::new();
    let mut i: usize = 0;
    let ghost p = |line: Seq<char>| contains_sub(lower(line), lower(query@));
    proof {
        reveal(Seq::filter);
        assert(views_of(lines@.subrange(0, 0)) =~= Seq::<Seq<char>>::empty());
        assert(views_of(r@) =~= Seq::<Seq<char>>::empty());
    }
    while i < lines.len()
        invariant
            i <= lines@.len(),
            lq@ == lower(query@),
            views_of(lines@) == spec_lines(content@),
            views_of(r@) == views_of(lines@.subrange(0, i as int)).filter(p),
            p == (|line: Seq<char>| contains_sub(lower(line), lower(query@))),
        decreases lines@.len() - i,
    {
        let line_chars = to_chars(lines[i]);
        let lline = lower_chars(&line_chars);
        let keep = contains_substr(&lline, &lq);
        proof {
            assert(keep == p(lines@[i as int]@));
            let prefix = views_of(lines@.subrange(0, i as int));
            lemma_filter_push(prefix, lines@[i as int]@, p);
            assert(views_of(lines@.subrange(0, i + 1)) =~= prefix.push(lines@[i as int]@));
        }
        if keep {
            let line = lines[i];
            proof {
                assert(views_of(r@.push(line)) =~= views_of(r@).push(line@));
            }
            r.push(line);
        }
        i = i + 1;
    }
    proof {
        assert(lines@.subrange(0, lines@.len() as int) =~= lines@);
        assert(views_of(r@) == search_ci_spec(query@, content@));
    }
    r
}

/// Anything a filter keeps was in the sequence it filtered.
proof fn lemma_filter_subset<A>(s: Seq<A>, pred: spec_fn(A) -> bool)
    ensures
        forall|x: A| #[trigger] s.filter(pred).contains(x) ==> s.contains(x),
    decreases s.len(),
{
    reveal(Seq::filter);
    if s.len() > 0 {
        lemma_filter_subset(s.drop_last(), pred);
        assert forall|x: A| #[trigger] s.filter(pred).contains(x) implies s.contains(x) by {
            let sub = s.drop_last().filter(pred);
            let j = choose|j: int|
                0 <= j < s.filter(pred).len() && s.filter(pred)[j] == x;
            if pred(s.last()) && j == sub.len() {
                assert(s[s.len() - 1] == x);
            } else {
                assert(sub[j] == x);
                assert(sub.contains(x));
                assert(s.drop_last().contains(x));
                let k = choose|k: int|
                    0 <= k < s.drop_last().len() && s.drop_last()[k] == x;
                assert(s[k] == x);
            }
        }
    }
}

/// A filter whose predicate holds of every element changes nothing.
proof fn lemma_filter_all<A>(s: Seq<A>, pred: spec_fn(A) -> bool)
    requires
        forall|i: int| 0 <= i < s.len() ==> pred(#[trigger] s[i]),
    ensures
        s.filter(pred) == s,
    decreases s.len(),
{
    reveal(Seq::filter);
    if s.len() > 0 {
        lemma_filter_all(s.drop_last(), pred);
        assert(s.drop_last().filter(pred).push(s.last()) =~= s);
    }
}

/// Lowercasing both sides preserves substring containment: simple
/// lowercasing works character by character, so an occurrence of `pat`
/// in `text` lowercases in place to an occurrence of `lower(pat)` in
/// `lower(text)`.
proof fn lemma_lower_preserves_contains(text: Seq<char>, pat: Seq<char>)
    requires
        contains_sub(text, pat),
    ensures
        contains_sub(lower(text), lower(pat)),
{
    let i = choose|i: int| matches_at(text, pat, i);
    assert(lower(text).subrange(i, i + lower(pat).len()) =~= lower(pat));
    assert(matches_at(lower(text), lower(pat), i));
}

/// Case-insensitive search misses nothing the case-sensitive search
/// finds: every line `search` returns for a query, the corresponding
/// `search_case_insensitive` returns as well — and both only ever
/// return lines of `content` itself, in their original casing.
pub proof fn lemma_case_insensitive_superset(query: Seq<char>, content: Seq<char>)
    ensures
        forall|line: Seq<char>| #[trigger]
            search_spec(query, content).contains(line) ==> search_ci_spec(
                query,
                content,
            ).contains(line),
        forall|line: Seq<char>| #[trigger]
            search_ci_spec(query, content).contains(line) ==> spec_lines(content).contains(line),
{
    let s = spec_lines(content);
    let p1 = |line: Seq<char>| contains_sub(line, query);
    let p2 = |line: Seq<char>| contains_sub(lower(line), lower(query));
    lemma_filter_subset(s, p1);
    lemma_filter_subset(s, p2);
    assert forall|line: Seq<char>| #[trigger]
        search_spec(query, content).contains(line) implies search_ci_spec(
        query,
        content,
    ).contains(line) by {
        let j = choose|j: int| 0 <= j < s.filter(p1).len() && s.filter(p1)[j] == line;
        s.lemma_filter_pred(p1, j);
        assert(s.contains(line));
        let k = choose|k: int| 0 <= k < s.len() && s[k] == line;
        lemma_lower_preserves_contains(line, query);
        s.lemma_filter_contains(p2, k);
    }
}

/// An empty query matches every line: searching for the empty string
/// returns all of `content`'s lines, in order.
pub proof fn lemma_empty_query_matches_all(content: Seq<char>)
    ensures
        search_spec(Seq::empty(), content) == spec_lines(content),
{
    let s = spec_lines(content);
    let p = |line: Seq<char>| contains_sub(line, Seq::<char>::empty());
    assert forall|i: int| 0 <= i < s.len() implies p(#[trigger] s[i]) by {
        assert(s[i].subrange(0, 0) =~= Seq::<char>::empty());
        assert(matches_at(s[i], Seq::<char>::empty(), 0));
    }
    lemma_filter_all(s, p);
}

} // verus!
