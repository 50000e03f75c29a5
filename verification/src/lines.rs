//! Splitting a text into lines.
//!
//! A line break is a line feed or a carriage return directly followed by a
//! line feed; the break itself belongs to no line, and a final line without
//! a trailing break is still a line.  This is the convention of
//! `str::lines`, stated here directly over character sequences.

use vstd::prelude::*;

verus! {

/// The half-open index ranges of the lines of `s`, starting the scan at
/// position `i`.  Each pair `(a, b)` delimits one line `s[a..b]`.
pub open spec fn line_bounds_from(s: Seq<char>, i: int) -> Seq<(int, int)>
    recommends
        0 <= i <= s.len(),
    decreases s.len() - i,
{
    if i < 0 || s.len() <= i {
        Seq::empty()
    } else if s[i] == '\n' {
        seq![(i, i)] + line_bounds_from(s, i + 1)
    } else if s[i] == '\r' && i + 1 < s.len() && s[i + 1] == '\n' {
        seq![(i, i)] + line_bounds_from(s, i + 2)
    } else {
        let rest = line_bounds_from(s, i + 1);
        if rest.len() == 0 {
            seq![(i, s.len() as int)]
        } else {
            seq![(i, rest[0].1)] + rest.skip(1)
        }
    }
}

/// The lines of `s`, in order, without their line breaks.
pub open spec fn lines_of(s: Seq<char>) -> Seq<Seq<char>> {
    line_bounds_from(s, 0).map_values(|b: (int, int)| s.subrange(b.0, b.1))
}

/// Every range that `line_bounds_from` yields lies within `[i, s.len()]`
/// and is well ordered.
pub proof fn lemma_line_bounds_wf(s: Seq<char>, i: int)
    requires
        0 <= i <= s.len(),
    ensures
        forall|k: int|
            0 <= k < line_bounds_from(s, i).len() ==> {
                let b = #[trigger] line_bounds_from(s, i)[k];
                i <= b.0 <= b.1 <= s.len()
            },
    decreases s.len() - i,
{
    let r = line_bounds_from(s, i);
    if s.len() <= i {
    } else if s[i] == '\n' {
        lemma_line_bounds_wf(s, i + 1);
        let rest = line_bounds_from(s, i + 1);
        assert forall|k: int| 0 <= k < r.len() implies {
            let b = #[trigger] r[k];
            i <= b.0 <= b.1 <= s.len()
        } by {
            if k > 0 {
                assert(r[k] == rest[k - 1]);
            }
        };
    } else if s[i] == '\r' && i + 1 < s.len() && s[i + 1] == '\n' {
        lemma_line_bounds_wf(s, i + 2);
        let rest = line_bounds_from(s, i + 2);
        assert forall|k: int| 0 <= k < r.len() implies {
            let b = #[trigger] r[k];
            i <= b.0 <= b.1 <= s.len()
        } by {
            if k > 0 {
                assert(r[k] == rest[k - 1]);
            }
        };
    } else {
        lemma_line_bounds_wf(s, i + 1);
        let rest = line_bounds_from(s, i + 1);
        assert forall|k: int| 0 <= k < r.len() implies {
            let b = #[trigger] r[k];
            i <= b.0 <= b.1 <= s.len()
        } by {
            if rest.len() == 0 {
            } else if k == 0 {
                assert(i + 1 <= rest[0].0 <= rest[0].1 <= s.len());
                assert(r[0] == (i, rest[0].1));
            } else {
                assert(r[k] == rest.skip(1)[k - 1]);
                assert(rest.skip(1)[k - 1] == rest[k]);
            }
        };
    }
}

/// The integer view of a vector of index ranges.
pub open spec fn bounds_view(r: Seq<(usize, usize)>) -> Seq<(int, int)> {
    r.map_values(|b: (usize, usize)| (b.0 as int, b.1 as int))
}

/// Computes the line ranges of `s` from position `i` on.
pub(crate) fn line_bounds(s: &Vec<char>, i: usize) -> (r: Vec<(usize, usize)>)
    requires
        i <= s.len(),
    ensures
        bounds_view(r@) == line_bounds_from(s@, i as int),
    decreases s.len() - i,
{
    if i == s.len() {
        let r: Vec<(usize, usize)> = Vec::new();
        proof {
            assert(bounds_view(r@) =~= line_bounds_from(s@, i as int));
        }
        return r;
    }
    let c = s[i];
    if c == '\n' {
        let mut rest = line_bounds(s, i + 1);
        rest.insert(0, (i, i));
        proof {
            assert(bounds_view(rest@) =~= line_bounds_from(s@, i as int));
        }
        rest
    } else if c == '\r' && i + 1 < s.len() && s[i + 1] == '\n' {
        let mut rest = line_bounds(s, i + 2);
        rest.insert(0, (i, i));
        proof {
            assert(bounds_view(rest@) =~= line_bounds_from(s@, i as int));
        }
        rest
    } else {
        let mut rest = line_bounds(s, i + 1);
        if rest.len() == 0 {
            rest.push((i, s.len()));
            proof {
                assert(bounds_view(rest@) =~= line_bounds_from(s@, i as int));
            }
            rest
        } else {
            let b0 = rest[0];
            rest.remove(0);
            rest.insert(0, (i, b0.1));
            proof {
                assert(bounds_view(rest@) =~= line_bounds_from(s@, i as int));
            }
            rest
        }
    }
}

} // verus!
