//! Line matching: which lines of a text contain a query string.

use vstd::prelude::*;
use vstd::string::*;

verus! {

/// `needle` occurs in `hay` as a contiguous subsequence.
pub open spec fn contains_seq(hay: Seq<char>, needle: Seq<char>) -> bool {
    exists|i: int|
        0 <= i && i + needle.len() <= hay.len() && #[trigger] hay.subrange(i, i + needle.len())
            == needle
}

/// The characters of a string, as a vector.
fn to_chars(s: &str) -> (v: Vec<char>)
    ensures
        v@ == s@,
{
    let n = s.unicode_len();
    let mut v: Vec<char> = Vec::new();
    let mut i: usize = 0;
    while i < n
        invariant
            n == s@.len(),
            i <= n,
            v@ == s@.subrange(0, i as int),
        decreases n - i,
    {
        v.push(s.get_char(i));
        i = i + 1;
        proof {
            assert(v@ =~= s@.subrange(0, i as int));
        }
    }
    proof {
        assert(v@ =~= s@);
    }
    v
}

/// Whether `needle` occurs in the slice `hay[from..to]`.
fn contains_range(hay: &Vec<char>, from: usize, to: usize, needle: &Vec<char>) -> (b: bool)
    requires
        from <= to <= hay@.len(),
    ensures
        b == contains_seq(hay@.subrange(from as int, to as int), needle@),
{
    let ghost sub = hay@.subrange(from as int, to as int);
    let n = needle.len();
    let width = to - from;
    if n > width {
        return false;
    }
    let mut s: usize = 0;
    loop
        invariant
            from <= to <= hay@.len(),
            n == needle@.len(),
            width == to - from,
            n <= width,
            s <= width - n + 1,
            sub == hay@.subrange(from as int, to as int),
            forall|t: int|
                0 <= t < s ==> #[trigger] sub.subrange(t, t + needle@.len() as int) != needle@,
        decreases width - n + 1 - s,
    {
        if s > width - n {
            proof {
                assert(forall|i: int|
                    0 <= i && i + needle@.len() <= sub.len() ==> #[trigger] sub.subrange(
                        i,
                        i + needle@.len() as int,
                    ) != needle@);
            }
            return false;
        }
        let mut k: usize = 0;
        let mut same = true;
        while same && k < n
            invariant
                from <= to <= hay@.len(),
                n == needle@.len(),
                width == to - from,
                s + n <= width,
                k <= n,
                sub == hay@.subrange(from as int, to as int),
                same ==> forall|j: int| 0 <= j < k ==> sub[s + j] == needle@[j],
                !same ==> sub.subrange(s as int, s + needle@.len() as int) != needle@,
            decreases n - k + (if same { 1int } else { 0int }),
        {
            if hay[from + s + k] != needle[k] {
                same = false;
                proof {
                    assert(sub[s as int + k as int] != needle@[k as int]);
                    assert(sub.subrange(s as int, s + needle@.len() as int)[k as int]
                        != needle@[k as int]);
                }
            } else {
                k = k + 1;
            }
        }
        if same {
            proof {
                assert(sub.subrange(s as int, s + needle@.len() as int) =~= needle@);
            }
            return true;
        }
        proof {
            if needle@.len() == 0 {
                assert(sub.subrange(s as int, s + needle@.len() as int) =~= needle@);
            }
        }
        s = s + 1;
    }
}

/// The offset of the first newline character of `s` (`s.len()` if there is
/// none).
pub open spec fn first_nl(s: Seq<char>) -> nat
    decreases s.len(),
{
    if s.len() == 0 {
        0
    } else if s[0] == '\n' {
        0
    } else {
        1 + first_nl(s.drop_first())
    }
}

proof fn lemma_first_nl(s: Seq<char>)
    ensures
        first_nl(s) <= s.len(),
        first_nl(s) < s.len() ==> s[first_nl(s) as int] == '\n',
        forall|j: int| 0 <= j < first_nl(s) ==> s[j] != '\n',
    decreases s.len(),
{
    if s.len() == 0 {
    } else if s[0] == '\n' {
    } else {
        lemma_first_nl(s.drop_first());
        assert(forall|j: int| 1 <= j < first_nl(s) ==> s[j] == s.drop_first()[j - 1]);
    }
}

/// `first_nl` is pinned down by a newline-free prefix: if no newline stands
/// before offset `i` and one stands at `i` (or `i` is the end), then `i` is it.
proof fn lemma_first_nl_is(s: Seq<char>, i: int)
    requires
        0 <= i <= s.len(),
        forall|j: int| 0 <= j < i ==> s[j] != '\n',
        i < s.len() ==> s[i] == '\n',
    ensures
        first_nl(s) == i,
    decreases i,
{
    if i == 0 {
    } else {
        assert(s[0] != '\n');
        assert(forall|j: int| 0 <= j < i - 1 ==> s.drop_first()[j] == s[j + 1]);
        lemma_first_nl_is(s.drop_first(), i - 1);
    }
}

/// A trailing carriage return is removed (a "\r\n" line ending loses both
/// characters when the line is cut at the '\n').
pub open spec fn strip_cr(l: Seq<char>) -> Seq<char> {
    if l.len() > 0 && l[l.len() - 1] == '\r' {
        l.drop_last()
    } else {
        l
    }
}

/// The lines of `s`: cut at every '\n'; a "\r\n" ending is removed with its
/// '\n'; a final unterminated line is kept as it stands; the empty tail after
/// a final '\n' is not a line.
pub open spec fn line_split(s: Seq<char>) -> Seq<Seq<char>>
    decreases s.len(),
{
    if s.len() == 0 {
        Seq::empty()
    } else {
        let i = first_nl(s) as int;
        if i < s.len() {
            seq![strip_cr(s.subrange(0, i))] + line_split(s.subrange(i + 1, s.len() as int))
        } else {
            seq![s]
        }
    }
}

/// What `char::to_lowercase` yields for one character.
pub uninterp spec fn lower_chars_of(c: char) -> Seq<char>;

/// Relies on char::to_lowercase: the lowercase mapping of a character depends
/// on that character alone (no locale, no surrounding context).
#[verifier::external_body]
fn lower_char(c: char) -> (r: Vec<char>)
    ensures
        r@ == lower_chars_of(c),
{
    c.to_lowercase().collect()
}

/// The case folding used by fold-mode matching: every character is lowercased
/// independently of its neighbours, and the results are concatenated.
pub open spec fn fold_of(s: Seq<char>) -> Seq<char>
    decreases s.len(),
{
    if s.len() == 0 {
        Seq::empty()
    } else {
        lower_chars_of(s[0]) + fold_of(s.drop_first())
    }
}

proof fn lemma_fold_push(s: Seq<char>, c: char)
    ensures
        fold_of(s.push(c)) == fold_of(s) + lower_chars_of(c),
    decreases s.len(),
{
    if s.len() == 0 {
        assert(s.push(c).drop_first() =~= Seq::<char>::empty());
        assert(s.push(c)[0] == c);
        assert(fold_of(s.push(c)) == lower_chars_of(c) + fold_of(s.push(c).drop_first()));
        assert(lower_chars_of(c) + fold_of(Seq::<char>::empty()) =~= fold_of(s) + lower_chars_of(
            c,
        ));
    } else {
        assert(s.push(c).drop_first() =~= s.drop_first().push(c));
        lemma_fold_push(s.drop_first(), c);
        assert(fold_of(s.push(c)) == lower_chars_of(s[0]) + (fold_of(s.drop_first())
            + lower_chars_of(c)));
        assert(lower_chars_of(s[0]) + (fold_of(s.drop_first()) + lower_chars_of(c))
            =~= (lower_chars_of(s[0]) + fold_of(s.drop_first())) + lower_chars_of(c));
    }
}

/// The case folding of the slice `v[from..to]`.
fn fold_range(v: &Vec<char>, from: usize, to: usize) -> (r: Vec<char>)
    requires
        from <= to <= v@.len(),
    ensures
        r@ == fold_of(v@.subrange(from as int, to as int)),
{
    let mut r: Vec<char> = Vec::new();
    let mut i = from;
    proof {
        assert(v@.subrange(from as int, from as int) =~= Seq::<char>::empty());
    }
    while i < to
        invariant
            from <= i <= to <= v@.len(),
            r@ == fold_of(v@.subrange(from as int, i as int)),
        decreases to - i,
    {
        let mut low = lower_char(v[i]);
        r.append(&mut low);
        proof {
            assert(v@.subrange(from as int, i + 1) =~= v@.subrange(from as int, i as int).push(
                v@[i as int],
            ));
            lemma_fold_push(v@.subrange(from as int, i as int), v@[i as int]);
        }
        i = i + 1;
    }
    r
}

/// Whether a line is reported for a query, per mode: exact containment, or
/// containment after both sides are case folded.
pub open spec fn line_matches(q: Seq<char>, l: Seq<char>, folded: bool) -> bool {
    if folded {
        contains_seq(fold_of(l), fold_of(q))
    } else {
        contains_seq(l, q)
    }
}

/// The matching lines of `ls`, paired with their numbers counted from `n`,
/// in line order.
pub open spec fn match_lines(q: Seq<char>, ls: Seq<Seq<char>>, n: int, folded: bool) -> Seq<
    (int, Seq<char>),
>
    decreases ls.len(),
{
    if ls.len() == 0 {
        Seq::empty()
    } else {
        let rest = match_lines(q, ls.drop_first(), n + 1, folded);
        if line_matches(q, ls[0], folded) {
            seq![(n, ls[0])] + rest
        } else {
            rest
        }
    }
}

/// What exact-mode search returns: every line of `content` that contains
/// `query` as a contiguous substring, with its 1-based line number.
pub open spec fn search_spec(q: Seq<char>, content: Seq<char>) -> Seq<(int, Seq<char>)> {
    match_lines(q, line_split(content), 1, false)
}

/// What fold-mode search returns: every line of `content` whose case folding
/// contains the case folding of `query`, with its 1-based line number. The
/// reported line text is the original, unfolded line.
pub open spec fn isearch_spec(q: Seq<char>, content: Seq<char>) -> Seq<(int, Seq<char>)> {
    match_lines(q, line_split(content), 1, true)
}

/// The mathematical reading of an executable result vector: line numbers as
/// integers, line slices as character sequences.
pub open spec fn view_pairs<'a>(r: Seq<(usize, &'a str)>) -> Seq<(int, Seq<char>)> {
    r.map(|i: int, p: (usize, &'a str)| (p.0 as int, p.1@))
}

/// One scan over the content, shared by both modes.
fn scan_lines<'a>(query: &str, contents: &'a str, folded: bool) -> (res: Vec<(usize, &'a str)>)
    requires
        contents@.len() < usize::MAX,
    ensures
        view_pairs(res@) == match_lines(query@, line_split(contents@), 1, folded),
{
    let cs = to_chars(contents);
    let qv = to_chars(query);
    let fq: Vec<char> = if folded {
        let f = fold_range(&qv, 0, qv.len());
        proof {
            assert(qv@.subrange(0, qv@.len() as int) =~= qv@);
        }
        f
    } else {
        Vec::new()
    };
    let n = cs.len();
    let mut res: Vec<(usize, &'a str)> = Vec::new();
    let mut pos: usize = 0;
    let mut line_no: usize = 1;
    let ghost total = match_lines(query@, line_split(contents@), 1, folded);
    proof {
        assert(cs@.subrange(0, n as int) =~= contents@);
        assert(view_pairs(res@) + match_lines(
            query@,
            line_split(cs@.subrange(pos as int, n as int)),
            line_no as int,
            folded,
        ) =~= total);
    }
    while pos < n
        invariant
            cs@ == contents@,
            qv@ == query@,
            folded ==> fq@ == fold_of(query@),
            n == cs@.len(),
            n < usize::MAX,
            pos <= n,
            1 <= line_no <= pos + 1,
            total == match_lines(query@, line_split(contents@), 1, folded),
            view_pairs(res@) + match_lines(
                query@,
                line_split(cs@.subrange(pos as int, n as int)),
                line_no as int,
                folded,
            ) == total,
        decreases n - pos,
    {
        let ghost prev_res = res@;
        let ghost s_cur = cs@.subrange(pos as int, n as int);
        let mut j = pos;
        while j < n && cs[j] != '\n'
            invariant
                pos <= j <= n == cs@.len(),
                forall|k: int| pos <= k < j ==> cs@[k] != '\n',
            decreases n - j,
        {
            j = j + 1;
        }
        let end = if j < n && j > pos && cs[j - 1] == '\r' {
            j - 1
        } else {
            j
        };
        let ghost line = cs@.subrange(pos as int, end as int);
        proof {
            assert(forall|k: int| 0 <= k < j - pos ==> s_cur[k] != '\n');
            lemma_first_nl_is(s_cur, j - pos);
            if j < n {
                assert(s_cur.subrange(0, j - pos) =~= cs@.subrange(pos as int, j as int));
                assert(strip_cr(s_cur.subrange(0, j - pos)) =~= line);
                assert(s_cur.subrange(j - pos + 1, s_cur.len() as int) =~= cs@.subrange(
                    j + 1,
                    n as int,
                ));
                assert(line_split(s_cur) == seq![line] + line_split(cs@.subrange(j + 1, n as int)));
            } else {
                assert(line =~= s_cur);
                assert(line_split(s_cur) == seq![line]);
                assert(seq![line] =~= seq![line] + line_split(cs@.subrange(n as int, n as int)));
            }
        }
        let matched = if folded {
            let fl = fold_range(&cs, pos, end);
            let m = contains_range(&fl, 0, fl.len(), &fq);
            proof {
                assert(fl@.subrange(0, fl@.len() as int) =~= fl@);
            }
            m
        } else {
            contains_range(&cs, pos, end, &qv)
        };
        proof {
            assert(matched == line_matches(query@, line, folded));
        }
        if matched {
            let slice = contents.substring_char(pos, end);
            res.push((line_no, slice));
        }
        let ghost next_pos: int = if j < n {
            j + 1
        } else {
            n as int
        };
        proof {
            let ls = seq![line] + line_split(cs@.subrange(next_pos, n as int));
            assert(ls.drop_first() =~= line_split(cs@.subrange(next_pos, n as int)));
            assert(ls[0] == line);
            assert(match_lines(query@, ls, line_no as int, folded) == (if line_matches(
                query@,
                line,
                folded,
            ) {
                seq![(line_no as int, line)] + match_lines(
                    query@,
                    ls.drop_first(),
                    line_no + 1,
                    folded,
                )
            } else {
                match_lines(query@, ls.drop_first(), line_no + 1, folded)
            }));
            if matched {
                assert(view_pairs(res@) =~= view_pairs(prev_res) + seq![(line_no as int, line)]);
            }
            assert(view_pairs(res@) + match_lines(
                query@,
                line_split(cs@.subrange(next_pos, n as int)),
                line_no + 1,
                folded,
            ) =~= total);
            if j >= n {
                assert(line_split(cs@.subrange(next_pos, n as int)) == Seq::<Seq<char>>::empty());
                assert(match_lines(
                    query@,
                    line_split(cs@.subrange(next_pos, n as int)),
                    line_no as int,
                    folded,
                ) == match_lines(
                    query@,
                    line_split(cs@.subrange(next_pos, n as int)),
                    line_no + 1,
                    folded,
                ));
            }
        }
        if j < n {
            pos = j + 1;
            line_no = line_no + 1;
        } else {
            pos = n;
        }
    }
    proof {
        assert(cs@.subrange(pos as int, n as int).len() == 0);
        assert(line_split(cs@.subrange(pos as int, n as int)) == Seq::<Seq<char>>::empty());
        assert(view_pairs(res@) + Seq::<(int, Seq<char>)>::empty() =~= view_pairs(res@));
    }
    res
}

/// Exact-mode matcher: report every line of `contents` that contains `query`
/// as a contiguous substring, paired with its 1-based line number, in line
/// order.
pub fn search<'a>(query: &str, contents: &'a str) -> (res: Vec<(usize, &'a str)>)
    requires
        contents@.len() < usize::MAX,
    ensures
        view_pairs(res@) == search_spec(query@, contents@),
{
    scan_lines(query, contents, false)
}

/// Fold-mode (case-insensitive) matcher: report every line of `contents`
/// whose case folding contains the case folding of `query`, paired with its
/// 1-based line number, in line order. The reported text is the original
/// line.
pub fn isearch<'a>(query: &str, contents: &'a str) -> (res: Vec<(usize, &'a str)>)
    requires
        contents@.len() < usize::MAX,
    ensures
        view_pairs(res@) == isearch_spec(query@, contents@),
{
    scan_lines(query, contents, true)
}

/// Scan one file's content in the mode the configuration picked: exact when
/// `case_sensitive` is set, case-folded otherwise.
pub fn scan_content<'a>(query: &str, contents: &'a str, case_sensitive: bool) -> (res: Vec<
    (usize, &'a str),
>)
    requires
        contents@.len() < usize::MAX,
    ensures
        case_sensitive ==> view_pairs(res@) == search_spec(query@, contents@),
        !case_sensitive ==> view_pairs(res@) == isearch_spec(query@, contents@),
{
    if case_sensitive {
        search(query, contents)
    } else {
        isearch(query, contents)
    }
}

proof fn lemma_match_lines_all_match(q: Seq<char>, ls: Seq<Seq<char>>, n: int, folded: bool)
    requires
        forall|i: int| 0 <= i < ls.len() ==> line_matches(q, #[trigger] ls[i], folded),
    ensures
        match_lines(q, ls, n, folded).len() == ls.len(),
        forall|i: int|
            0 <= i < ls.len() ==> #[trigger] match_lines(q, ls, n, folded)[i] == (n + i, ls[i]),
    decreases ls.len(),
{
    if ls.len() == 0 {
    } else {
        assert(forall|i: int|
            0 <= i < ls.drop_first().len() ==> #[trigger] ls.drop_first()[i] == ls[i + 1]);
        lemma_match_lines_all_match(q, ls.drop_first(), n + 1, folded);
        assert(line_matches(q, ls[0], folded));
    }
}

/// Every line contains the empty query.
proof fn lemma_empty_query_matches(l: Seq<char>, folded: bool)
    ensures
        line_matches(Seq::<char>::empty(), l, folded),
{
    let e = Seq::<char>::empty();
    assert(fold_of(e) == e);
    assert(l.subrange(0, 0 + e.len() as int) =~= e);
    assert(fold_of(l).subrange(0, 0 + e.len() as int) =~= e);
    assert(contains_seq(l, e));
    assert(contains_seq(fold_of(l), e));
}

/// An empty query matches every line: in both modes, the result lists every
/// line of the content, in order, with its 1-based number.
pub proof fn lemma_empty_query_returns_every_line(t: Seq<char>)
    ensures
        search_spec(Seq::<char>::empty(), t).len() == line_split(t).len(),
        forall|i: int|
            0 <= i < line_split(t).len() ==> #[trigger] search_spec(Seq::<char>::empty(), t)[i]
                == (i + 1, line_split(t)[i]),
        isearch_spec(Seq::<char>::empty(), t).len() == line_split(t).len(),
        forall|i: int|
            0 <= i < line_split(t).len() ==> #[trigger] isearch_spec(Seq::<char>::empty(), t)[i]
                == (i + 1, line_split(t)[i]),
{
    assert forall|i: int| 0 <= i < line_split(t).len() implies line_matches(
        Seq::<char>::empty(),
        #[trigger] line_split(t)[i],
        false,
    ) && line_matches(Seq::<char>::empty(), line_split(t)[i], true) by {
        lemma_empty_query_matches(line_split(t)[i], false);
        lemma_empty_query_matches(line_split(t)[i], true);
    }
    lemma_match_lines_all_match(Seq::<char>::empty(), line_split(t), 1, false);
    lemma_match_lines_all_match(Seq::<char>::empty(), line_split(t), 1, true);
}

/// Empty content yields no matches, in either mode, for any query.
pub proof fn lemma_empty_content_returns_nothing(q: Seq<char>)
    ensures
        search_spec(q, Seq::<char>::empty()) == Seq::<(int, Seq<char>)>::empty(),
        isearch_spec(q, Seq::<char>::empty()) == Seq::<(int, Seq<char>)>::empty(),
{
}

proof fn lemma_match_lines_reports(q: Seq<char>, ls: Seq<Seq<char>>, n: int, folded: bool, i: int)
    requires
        0 <= i < ls.len(),
        line_matches(q, ls[i], folded),
    ensures
        match_lines(q, ls, n, folded).contains((n + i, ls[i])),
    decreases i,
{
    let rest = match_lines(q, ls.drop_first(), n + 1, folded);
    if i == 0 {
        assert(match_lines(q, ls, n, folded)[0] == (n, ls[0]));
    } else {
        assert(ls.drop_first()[i - 1] == ls[i]);
        lemma_match_lines_reports(q, ls.drop_first(), n + 1, folded, i - 1);
        let k = choose|k: int| 0 <= k < rest.len() && rest[k] == (n + i, ls[i]);
        if line_matches(q, ls[0], folded) {
            assert(match_lines(q, ls, n, folded)[k + 1] == (n + i, ls[i]));
        } else {
            assert(match_lines(q, ls, n, folded)[k] == (n + i, ls[i]));
        }
    }
}

/// Exact-mode completeness: a line that contains the query as a contiguous
/// substring is reported, paired with its 1-based line number.
pub proof fn lemma_exact_match_reported(q: Seq<char>, t: Seq<char>, i: int)
    requires
        0 <= i < line_split(t).len(),
        contains_seq(line_split(t)[i], q),
    ensures
        search_spec(q, t).contains((i + 1, line_split(t)[i])),
{
    lemma_match_lines_reports(q, line_split(t), 1, false, i);
}

proof fn lemma_match_lines_pairs(q: Seq<char>, ls: Seq<Seq<char>>, n: int, folded: bool)
    ensures
        forall|k: int|
            0 <= k < match_lines(q, ls, n, folded).len() ==> {
                let p = #[trigger] match_lines(q, ls, n, folded)[k];
                &&& n <= p.0 < n + ls.len()
                &&& p.1 == ls[p.0 - n]
                &&& line_matches(q, p.1, folded)
            },
        forall|k1: int, k2: int|
            0 <= k1 < k2 < match_lines(q, ls, n, folded).len() ==> (#[trigger] match_lines(
                q,
                ls,
                n,
                folded,
            )[k1]).0 < (#[trigger] match_lines(q, ls, n, folded)[k2]).0,
    decreases ls.len(),
{
    if ls.len() == 0 {
    } else {
        let m = match_lines(q, ls, n, folded);
        let rest = match_lines(q, ls.drop_first(), n + 1, folded);
        lemma_match_lines_pairs(q, ls.drop_first(), n + 1, folded);
        assert(forall|i: int|
            0 <= i < ls.drop_first().len() ==> #[trigger] ls.drop_first()[i] == ls[i + 1]);
        if line_matches(q, ls[0], folded) {
            assert(m[0] == (n, ls[0]));
            assert(forall|k: int| 1 <= k < m.len() ==> #[trigger] m[k] == rest[k - 1]);
        }
    }
}

/// Result soundness and order, in both modes: every reported pair carries a
/// real line of the content under its true 1-based number, that line does
/// match the query in the mode used, and the numbers ascend strictly through
/// the result — so no line is reported twice and the original line order is
/// kept.
pub proof fn lemma_results_sound_and_ordered(q: Seq<char>, t: Seq<char>)
    ensures
        forall|k: int|
            0 <= k < search_spec(q, t).len() ==> {
                let p = #[trigger] search_spec(q, t)[k];
                &&& 1 <= p.0 <= line_split(t).len()
                &&& p.1 == line_split(t)[p.0 - 1]
                &&& contains_seq(p.1, q)
            },
        forall|k1: int, k2: int|
            0 <= k1 < k2 < search_spec(q, t).len() ==> (#[trigger] search_spec(q, t)[k1]).0 < (
            #[trigger] search_spec(q, t)[k2]).0,
        forall|k: int|
            0 <= k < isearch_spec(q, t).len() ==> {
                let p = #[trigger] isearch_spec(q, t)[k];
                &&& 1 <= p.0 <= line_split(t).len()
                &&& p.1 == line_split(t)[p.0 - 1]
                &&& contains_seq(fold_of(p.1), fold_of(q))
            },
        forall|k1: int, k2: int|
            0 <= k1 < k2 < isearch_spec(q, t).len() ==> (#[trigger] isearch_spec(q, t)[k1]).0 < (
            #[trigger] isearch_spec(q, t)[k2]).0,
{
    lemma_match_lines_pairs(q, line_split(t), 1, false);
    lemma_match_lines_pairs(q, line_split(t), 1, true);
}

/// How many newline characters `s` holds.
pub open spec fn newline_count(s: Seq<char>) -> nat
    decreases s.len(),
{
    if s.len() == 0 {
        0
    } else {
        (if s[0] == '\n' {
            1nat
        } else {
            0nat
        }) + newline_count(s.drop_first())
    }
}

/// The offset in `s` at which line `i` begins.
pub open spec fn line_start(s: Seq<char>, i: int) -> nat
    decreases i,
{
    if i <= 0 {
        0
    } else {
        let j = first_nl(s);
        if j < s.len() {
            j + 1 + line_start(s.subrange(j as int + 1, s.len() as int), i - 1)
        } else {
            s.len()
        }
    }
}

proof fn lemma_line_start_bound(s: Seq<char>, i: int)
    ensures
        line_start(s, i) <= s.len(),
    decreases i,
{
    if i <= 0 {
    } else {
        let j = first_nl(s);
        lemma_first_nl(s);
        if j < s.len() {
            lemma_line_start_bound(s.subrange(j as int + 1, s.len() as int), i - 1);
        }
    }
}

proof fn lemma_newline_count_append(a: Seq<char>, b: Seq<char>)
    ensures
        newline_count(a + b) == newline_count(a) + newline_count(b),
    decreases a.len(),
{
    if a.len() == 0 {
        assert(a + b =~= b);
    } else {
        assert((a + b).drop_first() =~= a.drop_first() + b);
        assert((a + b)[0] == a[0]);
        lemma_newline_count_append(a.drop_first(), b);
    }
}

proof fn lemma_newline_count_none(s: Seq<char>)
    requires
        forall|k: int| 0 <= k < s.len() ==> s[k] != '\n',
    ensures
        newline_count(s) == 0,
    decreases s.len(),
{
    if s.len() > 0 {
        assert(forall|k: int| 0 <= k < s.drop_first().len() ==> s.drop_first()[k] == s[k + 1]);
        lemma_newline_count_none(s.drop_first());
    }
}

/// The 1-based number that the matchers report for a line is one more than
/// the count of newline characters that precede that line's start in the
/// content: line `i` (0-based) of `line_split(t)` begins at `line_start(t, i)`
/// and exactly `i` newlines stand before it.
pub proof fn lemma_line_number_counts_newlines(t: Seq<char>, i: int)
    requires
        0 <= i < line_split(t).len(),
    ensures
        newline_count(t.subrange(0, line_start(t, i) as int)) == i,
    decreases i,
{
    if i == 0 {
        assert(t.subrange(0, 0) =~= Seq::<char>::empty());
    } else {
        let j = first_nl(t) as int;
        lemma_first_nl(t);
        assert(t.len() > 0);
        assert(j < t.len());
        let rest = t.subrange(j + 1, t.len() as int);
        assert(line_split(t) == seq![strip_cr(t.subrange(0, j))] + line_split(rest));
        assert(line_split(rest)[i - 1] == line_split(t)[i]);
        lemma_line_number_counts_newlines(rest, i - 1);
        lemma_line_start_bound(rest, i - 1);
        let m = line_start(rest, i - 1) as int;
        assert(line_start(t, i) == j + 1 + m);
        assert(t.subrange(0, j + 1 + m) =~= t.subrange(0, j + 1) + rest.subrange(0, m));
        lemma_newline_count_append(t.subrange(0, j + 1), rest.subrange(0, m));
        assert(t.subrange(0, j + 1) =~= t.subrange(0, j) + seq!['\n']);
        lemma_newline_count_append(t.subrange(0, j), seq!['\n']);
        assert(forall|k: int| 0 <= k < j ==> t.subrange(0, j)[k] == t[k]);
        lemma_newline_count_none(t.subrange(0, j));
        assert(seq!['\n'].drop_first() =~= Seq::<char>::empty());
        assert(seq!['\n'][0] == '\n');
        assert(newline_count(seq!['\n'].drop_first()) == 0);
        assert(newline_count(seq!['\n']) == 1);
    }
}

proof fn lemma_fold_append(a: Seq<char>, b: Seq<char>)
    ensures
        fold_of(a + b) == fold_of(a) + fold_of(b),
    decreases a.len(),
{
    if a.len() == 0 {
        assert(a + b =~= b);
        assert(fold_of(a) + fold_of(b) =~= fold_of(b));
    } else {
        assert((a + b).drop_first() =~= a.drop_first() + b);
        assert((a + b)[0] == a[0]);
        lemma_fold_append(a.drop_first(), b);
        assert(lower_chars_of(a[0]) + (fold_of(a.drop_first()) + fold_of(b)) =~= (lower_chars_of(
            a[0],
        ) + fold_of(a.drop_first())) + fold_of(b));
    }
}

/// Case folding preserves containment: folding the haystack and the needle
/// keeps every exact occurrence (folding is applied character by character,
/// so an occurrence folds to an occurrence).
proof fn lemma_fold_contains(l: Seq<char>, q: Seq<char>)
    requires
        contains_seq(l, q),
    ensures
        contains_seq(fold_of(l), fold_of(q)),
{
    let i = choose|i: int|
        0 <= i && i + q.len() <= l.len() && #[trigger] l.subrange(i, i + q.len() as int) == q;
    let pre = l.subrange(0, i);
    let suf = l.subrange(i + q.len() as int, l.len() as int);
    assert(l =~= (pre + q) + suf);
    lemma_fold_append(pre + q, suf);
    lemma_fold_append(pre, q);
    let fi = fold_of(pre).len() as int;
    assert(fold_of(l) =~= (fold_of(pre) + fold_of(q)) + fold_of(suf));
    assert(fold_of(l).subrange(fi, fi + fold_of(q).len() as int) =~= fold_of(q));
}

proof fn lemma_match_lines_monotone(q: Seq<char>, ls: Seq<Seq<char>>, n: int)
    ensures
        forall|p: (int, Seq<char>)|
            match_lines(q, ls, n, false).contains(p) ==> match_lines(q, ls, n, true).contains(p),
    decreases ls.len(),
{
    if ls.len() == 0 {
    } else {
        let re = match_lines(q, ls.drop_first(), n + 1, false);
        let rf = match_lines(q, ls.drop_first(), n + 1, true);
        lemma_match_lines_monotone(q, ls.drop_first(), n + 1);
        assert forall|p: (int, Seq<char>)| match_lines(q, ls, n, false).contains(
            p,
        ) implies match_lines(q, ls, n, true).contains(p) by {
            let me = match_lines(q, ls, n, false);
            let mf = match_lines(q, ls, n, true);
            let k = choose|k: int| 0 <= k < me.len() && me[k] == p;
            if line_matches(q, ls[0], false) {
                lemma_fold_contains(ls[0], q);
                assert(line_matches(q, ls[0], true));
                if k == 0 {
                    assert(mf[0] == p);
                } else {
                    assert(re.contains(me[k]));
                    assert(rf.contains(p));
                    let k2 = choose|k2: int| 0 <= k2 < rf.len() && rf[k2] == p;
                    assert(mf[k2 + 1] == p);
                }
            } else {
                assert(re.contains(p));
                assert(rf.contains(p));
                let k2 = choose|k2: int| 0 <= k2 < rf.len() && rf[k2] == p;
                if line_matches(q, ls[0], true) {
                    assert(mf[k2 + 1] == p);
                } else {
                    assert(mf[k2] == p);
                }
            }
        }
    }
}

/// Fold-mode matching is at least as permissive as exact matching: for any
/// query and content, every pair that exact-mode search reports is also
/// reported by fold-mode search.
pub proof fn lemma_fold_mode_covers_exact(q: Seq<char>, t: Seq<char>)
    ensures
        forall|p: (int, Seq<char>)|
            search_spec(q, t).contains(p) ==> isearch_spec(q, t).contains(p),
{
    lemma_match_lines_monotone(q, line_split(t), 1);
}

} // verus!
