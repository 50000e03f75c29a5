//! The search engine: selecting the lines of a text that contain a query.

use vstd::prelude::*;

use crate::config::Config;
use crate::lines::bounds_view;
use crate::lines::lemma_line_bounds_wf;
use crate::lines::line_bounds;
use crate::lines::line_bounds_from;
use crate::lines::lines_of;
use crate::text::chars_of;
use crate::text::contains_range;
use crate::text::has_sub;
use crate::text::lemma_empty_needle;
use crate::text::lower_of;
use crate::text::lowercase;
use crate::text::trim_bounds;
use crate::text::trim_of;

verus! {

/// The lines among `lns` that satisfy `p`, in order, each trimmed of its
/// surrounding whitespace.
pub open spec fn select_matches(lns: Seq<Seq<char>>, p: spec_fn(Seq<char>) -> bool) -> Seq<
    Seq<char>,
>
    decreases lns.len(),
{
    if lns.len() == 0 {
        Seq::empty()
    } else {
        let init = select_matches(lns.drop_last(), p);
        if p(lns.last()) {
            init.push(trim_of(lns.last()))
        } else {
            init
        }
    }
}

/// The line predicate of the case-sensitive search: the untrimmed line
/// contains `q` as a substring.
pub open spec fn search_pred(q: Seq<char>) -> spec_fn(Seq<char>) -> bool {
    |l: Seq<char>| has_sub(l, q)
}

/// The line predicate of the case-insensitive search: the lowercase form
/// of the untrimmed line contains the lowercase form of `q`.
pub open spec fn search_ci_pred(q: Seq<char>) -> spec_fn(Seq<char>) -> bool {
    |l: Seq<char>| has_sub(lower_of(l), lower_of(q))
}

/// What `search` returns: the trimmed form of every line of `c` that
/// contains `q`, in line order.
pub open spec fn search_spec(q: Seq<char>, c: Seq<char>) -> Seq<Seq<char>> {
    select_matches(lines_of(c), search_pred(q))
}

/// What `search_case_insensitive` returns: the trimmed form (in its
/// original casing) of every line of `c` whose lowercase form contains the
/// lowercase form of `q`, in line order.
pub open spec fn search_ci_spec(q: Seq<char>, c: Seq<char>) -> Seq<Seq<char>> {
    select_matches(lines_of(c), search_ci_pred(q))
}

/// Returns every line of `contents` that contains `query` as a substring,
/// in line order, trimmed of surrounding whitespace.
pub fn search<'a>(query: &str, contents: &'a str) -> (r: Vec<&'a str>)
    ensures
        r.deep_view() == search_spec(query@, contents@),
{
    let q = chars_of(query);
    let cs = chars_of(contents);
    let bounds = line_bounds(&cs, 0);
    let ghost lns = lines_of(contents@);
    let ghost p = search_pred(query@);
    proof {
        assert(bounds@.len() == lns.len());
    }
    let mut r: Vec<&'a str> = Vec::new();
    let mut k: usize = 0;
    while k < bounds.len()
        invariant
            cs@ == contents@,
            q@ == query@,
            bounds_view(bounds@) == line_bounds_from(contents@, 0),
            lns == lines_of(contents@),
            p == search_pred(query@),
            bounds@.len() == lns.len(),
            k <= bounds.len(),
            r.deep_view() == select_matches(lns.take(k as int), p),
        decreases bounds.len() - k,
    {
        let (a, b) = bounds[k];
        proof {
            lemma_line_bounds_wf(contents@, 0);
            assert(bounds_view(bounds@)[k as int] == (a as int, b as int));
            assert(lns[k as int] == contents@.subrange(a as int, b as int));
        }
        let ghost prev = r.deep_view();
        if contains_range(&cs, a, b, &q) {
            let tr = trim_bounds(&cs, a, b);
            let line: &'a str = contents.substring_char(tr.0, tr.1);
            proof {
                assert(line@ == trim_of(lns[k as int]));
            }
            r.push(line);
            proof {
                assert(r.deep_view() =~= prev.push(trim_of(lns[k as int])));
            }
        }
        proof {
            assert(p(lns[k as int]) == has_sub(lns[k as int], query@));
            assert(lns.take(k + 1).drop_last() =~= lns.take(k as int));
            assert(lns.take(k + 1).last() == lns[k as int]);
            assert(r.deep_view() == select_matches(lns.take(k + 1), p));
        }
        k = k + 1;
    }
    proof {
        assert(lns.take(lns.len() as int) =~= lns);
    }
    r
}

/// Returns every line of `contents` whose lowercase form contains the
/// lowercase form of `query`, in line order, trimmed of surrounding
/// whitespace and in its original casing.  An empty `query` selects every
/// line.
pub fn search_case_insensitive<'a>(query: &str, contents: &'a str) -> (r: Vec<&'a str>)
    ensures
        r.deep_view() == search_ci_spec(query@, contents@),
        query@.len() == 0 ==> r@.len() == lines_of(contents@).len(),
{
    let lq_string = lowercase(query);
    let lq = chars_of(lq_string.as_str());
    let cs = chars_of(contents);
    let bounds = line_bounds(&cs, 0);
    let ghost lns = lines_of(contents@);
    let ghost p = search_ci_pred(query@);
    proof {
        assert(bounds@.len() == lns.len());
    }
    let mut r: Vec<&'a str> = Vec::new();
    let mut k: usize = 0;
    while k < bounds.len()
        invariant
            cs@ == contents@,
            lq@ == lower_of(query@),
            query@.len() == 0 ==> lq@.len() == 0,
            bounds_view(bounds@) == line_bounds_from(contents@, 0),
            lns == lines_of(contents@),
            p == search_ci_pred(query@),
            bounds@.len() == lns.len(),
            k <= bounds.len(),
            r.deep_view() == select_matches(lns.take(k as int), p),
            query@.len() == 0 ==> r@.len() == k,
        decreases bounds.len() - k,
    {
        let (a, b) = bounds[k];
        proof {
            lemma_line_bounds_wf(contents@, 0);
            assert(bounds_view(bounds@)[k as int] == (a as int, b as int));
            assert(lns[k as int] == contents@.subrange(a as int, b as int));
        }
        let line_str = contents.substring_char(a, b);
        let low = lowercase(line_str);
        let lc = chars_of(low.as_str());
        proof {
            assert(lc@ == lower_of(lns[k as int]));
        }
        let ghost prev = r.deep_view();
        let matched = contains_range(&lc, 0, lc.len(), &lq);
        proof {
            assert(lc@.subrange(0, lc@.len() as int) =~= lc@);
            assert(matched == has_sub(lower_of(lns[k as int]), lower_of(query@)));
            assert(p(lns[k as int]) == matched);
            if query@.len() == 0 {
                assert(lq@ =~= Seq::<char>::empty());
                lemma_empty_needle(lc@);
                assert(matched);
            }
        }
        if matched {
            let tr = trim_bounds(&cs, a, b);
            let line: &'a str = contents.substring_char(tr.0, tr.1);
            proof {
                assert(line@ == trim_of(lns[k as int]));
            }
            r.push(line);
            proof {
                assert(r.deep_view() =~= prev.push(trim_of(lns[k as int])));
            }
        }
        proof {
            assert(lns.take(k + 1).drop_last() =~= lns.take(k as int));
            assert(lns.take(k + 1).last() == lns[k as int]);
            assert(r.deep_view() == select_matches(lns.take(k + 1), p));
        }
        k = k + 1;
    }
    proof {
        assert(lns.take(lns.len() as int) =~= lns);
    }
    r
}

/// `idx` lists, in strictly increasing order, positions of lines of `lns`
/// that satisfy `p` — covering every such position — and `r` is the
/// trimmed form of those lines, in that order.
pub open spec fn selects(
    lns: Seq<Seq<char>>,
    p: spec_fn(Seq<char>) -> bool,
    idx: Seq<int>,
    r: Seq<Seq<char>>,
) -> bool {
    &&& idx.len() == r.len()
    &&& forall|i: int| 0 <= i < idx.len() ==> 0 <= #[trigger] idx[i] < lns.len()
    &&& forall|i: int|
        0 <= i < idx.len() ==> p(lns[#[trigger] idx[i]]) && r[i] == trim_of(lns[idx[i]])
    &&& forall|i: int, j: int| 0 <= i < j < idx.len() ==> #[trigger] idx[i] < #[trigger] idx[j]
    &&& forall|j: int| 0 <= j < lns.len() && p(#[trigger] lns[j]) ==> idx.contains(j)
}

/// The result of `select_matches` is exactly the trimmed matching lines in
/// their original relative order: a strictly increasing index sequence
/// ties each result entry to a distinct matching line and covers every
/// matching line.
pub proof fn lemma_select_matches_selects(lns: Seq<Seq<char>>, p: spec_fn(Seq<char>) -> bool)
    ensures
        exists|idx: Seq<int>| selects(lns, p, idx, select_matches(lns, p)),
    decreases lns.len(),
{
    if lns.len() == 0 {
        let idx = Seq::<int>::empty();
        assert(selects(lns, p, idx, select_matches(lns, p)));
    } else {
        let prefix = lns.drop_last();
        lemma_select_matches_selects(prefix, p);
        let idx0 = choose|idx0: Seq<int>| selects(prefix, p, idx0, select_matches(prefix, p));
        let init = select_matches(prefix, p);
        assert(lns.last() == lns[lns.len() - 1]);
        assert(forall|i: int| 0 <= i < idx0.len() ==> prefix[#[trigger] idx0[i]] == lns[idx0[i]]);
        if p(lns.last()) {
            let idx1 = idx0.push(lns.len() - 1);
            let r1 = init.push(trim_of(lns.last()));
            assert(select_matches(lns, p) == r1);
            assert(selects(lns, p, idx1, r1)) by {
                assert(forall|i: int| 0 <= i < idx0.len() ==> #[trigger] idx1[i] == idx0[i]);
                assert(idx1[idx0.len() as int] == lns.len() - 1);
                assert forall|j: int| 0 <= j < lns.len() && p(#[trigger] lns[j]) implies idx1.contains(
                    j,
                ) by {
                    if j < lns.len() - 1 {
                        assert(prefix[j] == lns[j]);
                        assert(idx0.contains(j));
                        let i = choose|i: int| 0 <= i < idx0.len() && idx0[i] == j;
                        assert(idx1[i] == j);
                    } else {
                        assert(idx1[idx0.len() as int] == j);
                    }
                };
            }
        } else {
            assert(select_matches(lns, p) == init);
            assert(selects(lns, p, idx0, init)) by {
                assert forall|j: int| 0 <= j < lns.len() && p(#[trigger] lns[j]) implies idx0.contains(
                    j,
                ) by {
                    assert(j != lns.len() - 1);
                    assert(prefix[j] == lns[j]);
                };
            }
        }
    }
}

/// Every element of `search`'s result is the trimmed form of a line of
/// `c` that contains `q` untrimmed, no line containing `q` is omitted,
/// and the results keep the source lines' relative order (the witnessing
/// index sequence is strictly increasing).
pub proof fn lemma_search_characterized(q: Seq<char>, c: Seq<char>)
    ensures
        exists|idx: Seq<int>| selects(lines_of(c), search_pred(q), idx, search_spec(q, c)),
{
    lemma_select_matches_selects(lines_of(c), search_pred(q));
    let idx = choose|idx: Seq<int>|
        selects(lines_of(c), search_pred(q), idx, select_matches(lines_of(c), search_pred(q)));
    assert(selects(lines_of(c), search_pred(q), idx, search_spec(q, c)));
}

/// Every element of `search_case_insensitive`'s result is the trimmed
/// form — in its original casing — of a line whose lowercase form
/// contains the lowercase form of `q`, no such line is omitted, and the
/// results keep the source lines' relative order.
pub proof fn lemma_search_ci_characterized(q: Seq<char>, c: Seq<char>)
    ensures
        exists|idx: Seq<int>| selects(lines_of(c), search_ci_pred(q), idx, search_ci_spec(q, c)),
{
    lemma_select_matches_selects(lines_of(c), search_ci_pred(q));
    let idx = choose|idx: Seq<int>|
        selects(lines_of(c), search_ci_pred(q), idx, select_matches(lines_of(c), search_ci_pred(q)));
    assert(selects(lines_of(c), search_ci_pred(q), idx, search_ci_spec(q, c)));
}

/// All lines, each trimmed, in order.
pub open spec fn trim_all(lns: Seq<Seq<char>>) -> Seq<Seq<char>> {
    lns.map_values(|l: Seq<char>| trim_of(l))
}

/// When every line satisfies `p`, nothing is filtered out.
proof fn lemma_select_matches_all(lns: Seq<Seq<char>>, p: spec_fn(Seq<char>) -> bool)
    requires
        forall|j: int| 0 <= j < lns.len() ==> p(#[trigger] lns[j]),
    ensures
        select_matches(lns, p) == trim_all(lns),
    decreases lns.len(),
{
    if lns.len() == 0 {
        assert(select_matches(lns, p) =~= trim_all(lns));
    } else {
        let prefix = lns.drop_last();
        assert(forall|j: int| 0 <= j < prefix.len() ==> p(#[trigger] prefix[j]));
        lemma_select_matches_all(prefix, p);
        assert(p(lns[lns.len() - 1]));
        assert(select_matches(lns, p) =~= trim_all(lns));
    }
}

/// An empty query matches every line: the case-sensitive search returns
/// every line of `c`, trimmed, in order.
pub proof fn lemma_empty_query_matches_all(c: Seq<char>)
    ensures
        search_spec(Seq::<char>::empty(), c) == trim_all(lines_of(c)),
{
    let p = search_pred(Seq::<char>::empty());
    assert forall|j: int| 0 <= j < lines_of(c).len() implies p(#[trigger] lines_of(c)[j]) by {
        lemma_empty_needle(lines_of(c)[j]);
    };
    lemma_select_matches_all(lines_of(c), p);
}

/// Empty contents split into no lines, so both search variants return an
/// empty result.
pub proof fn lemma_empty_contents(q: Seq<char>)
    ensures
        search_spec(q, Seq::<char>::empty()) == Seq::<Seq<char>>::empty(),
        search_ci_spec(q, Seq::<char>::empty()) == Seq::<Seq<char>>::empty(),
{
    assert(lines_of(Seq::<char>::empty()) =~= Seq::<Seq<char>>::empty());
}

/// Runs the search variant that `config` asks for over `contents`: the
/// case-sensitive one when `config.case_sensitive` holds, the
/// case-insensitive one otherwise.
pub fn run_search<'a>(config: &Config, contents: &'a str) -> (r: Vec<&'a str>)
    ensures
        config.case_sensitive ==> r.deep_view() == search_spec(config.query@, contents@),
        !config.case_sensitive ==> r.deep_view() == search_ci_spec(config.query@, contents@),
{
    if config.case_sensitive {
        search(config.query.as_str(), contents)
    } else {
        search_case_insensitive(config.query.as_str(), contents)
    }
}

} // verus!
