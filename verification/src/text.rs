//! Character-level text primitives: substring containment and character
//! extraction.

use vstd::prelude::*;

verus! {

/// True when `q` occurs in `h` as a contiguous substring starting at
/// position `i`.
pub open spec fn match_at(h: Seq<char>, q: Seq<char>, i: int) -> bool {
    forall|k: int| 0 <= k < q.len() ==> h[i + k] == q[k]
}

/// True when `q` occurs somewhere in `h` as a contiguous substring.
/// An empty `q` occurs in every `h`.
pub open spec fn has_sub(h: Seq<char>, q: Seq<char>) -> bool {
    exists|i: int| 0 <= i && i + q.len() <= h.len() && #[trigger] match_at(h, q, i)
}

/// An empty string occurs as a substring of every string.
pub proof fn lemma_empty_needle(h: Seq<char>)
    ensures
        has_sub(h, Seq::<char>::empty()),
{
    assert(match_at(h, Seq::<char>::empty(), 0));
}

/// Collects the characters of `s` into a vector.
pub(crate) fn chars_of(s: &str) -> (r: Vec<char>)
    ensures
        r@ == s@,
{
    let n: usize = s.unicode_len();
    let mut r: Vec<char> = Vec::new();
    let mut i: usize = 0;
    while i < n
        invariant
            n == s@.len(),
            i <= n,
            r@ == s@.take(i as int),
        decreases n - i,
    {
        let c = s.get_char(i);
        r.push(c);
        i = i + 1;
        proof {
            assert(r@ =~= s@.take(i as int));
        }
    }
    proof {
        assert(r@ =~= s@);
    }
    r
}

/// Decides whether `q` occurs as a contiguous substring of `c[a..b]`.
pub(crate) fn contains_range(c: &Vec<char>, a: usize, b: usize, q: &Vec<char>) -> (r: bool)
    requires
        a <= b <= c.len(),
    ensures
        r == has_sub(c@.subrange(a as int, b as int), q@),
{
    let ghost sub = c@.subrange(a as int, b as int);
    let n: usize = b - a;
    let m: usize = q.len();
    if m > n {
        proof {
            assert(!has_sub(sub, q@)) by {
                if has_sub(sub, q@) {
                    let i0 = choose|i0: int|
                        0 <= i0 && i0 + q@.len() <= sub.len() && #[trigger] match_at(sub, q@, i0);
                    assert(false);
                }
            }
        }
        return false;
    }
    let mut i: usize = 0;
    while i <= n - m
        invariant
            m <= n,
            n == b - a,
            a <= b <= c.len(),
            m == q.len(),
            sub == c@.subrange(a as int, b as int),
            i <= n - m + 1,
            forall|j: int| 0 <= j < i ==> !match_at(sub, q@, j),
        decreases n - m + 1 - i,
    {
        let mut k: usize = 0;
        let mut is_match = true;
        while k < m
            invariant
                i <= n - m,
                m <= n,
                n == b - a,
                a <= b <= c.len(),
                m == q.len(),
                sub == c@.subrange(a as int, b as int),
                k <= m,
                is_match == (forall|t: int| 0 <= t < k ==> sub[i + t] == q@[t]),
            decreases m - k,
        {
            proof {
                assert(sub[i + k] == c@[a + i + k]);
            }
            if c[a + i + k] != q[k] {
                is_match = false;
                proof {
                    assert(!(forall|t: int| 0 <= t < k + 1 ==> sub[i + t] == q@[t])) by {
                        assert(sub[i + k] != q@[k as int]);
                    }
                }
            } else {
                proof {
                    if forall|t: int| 0 <= t < k ==> sub[i + t] == q@[t] {
                        assert(forall|t: int| 0 <= t < k + 1 ==> sub[i + t] == q@[t]) by {
                            assert(forall|t: int| 0 <= t < k ==> sub[i + t] == q@[t]);
                            assert(sub[i + k] == q@[k as int]);
                        }
                    } else {
                        let t0 = choose|t0: int| 0 <= t0 < k && sub[i + t0] != q@[t0];
                        assert(!(forall|t: int| 0 <= t < k + 1 ==> sub[i + t] == q@[t])) by {
                            assert(sub[i + t0] != q@[t0]);
                        }
                    }
                }
            }
            k = k + 1;
        }
        if is_match {
            proof {
                assert(match_at(sub, q@, i as int));
                assert(0 <= i as int && i as int + q@.len() <= sub.len());
            }
            return true;
        }
        proof {
            assert(!match_at(sub, q@, i as int));
        }
        i = i + 1;
    }
    proof {
        assert(!has_sub(sub, q@)) by {
            if has_sub(sub, q@) {
                let i0 = choose|i0: int|
                    0 <= i0 && i0 + q@.len() <= sub.len() && #[trigger] match_at(sub, q@, i0);
                assert(i0 < i);
                assert(!match_at(sub, q@, i0));
                assert(false);
            }
        }
    }
    false
}

/// Whether a character counts as whitespace for trimming.  The exact
/// character class is the one `char::is_whitespace` decides; it is a
/// property of the character alone.
pub uninterp spec fn is_space(c: char) -> bool;

/// Relies on `char::is_whitespace`: whether `c` has the Unicode
/// `White_Space` property, a function of the character alone.
#[verifier::external_body]
pub(crate) fn is_space_char(c: char) -> (r: bool)
    ensures
        r == is_space(c),
{
    c.is_whitespace()
}

/// The lowercase form of a character sequence.  The exact mapping is the
/// one `str::to_lowercase` computes; it is a function of the characters
/// alone.
pub uninterp spec fn lower_of(s: Seq<char>) -> Seq<char>;

/// Relies on `str::to_lowercase`: the result depends on the characters
/// alone, and an empty string stays empty.
#[verifier::external_body]
pub(crate) fn lowercase(s: &str) -> (r: String)
    ensures
        r@ == lower_of(s@),
        s@.len() == 0 ==> r@.len() == 0,
{
    s.to_lowercase()
}

/// `s` without its leading whitespace.
pub open spec fn trim_front(s: Seq<char>) -> Seq<char>
    decreases s.len(),
{
    if s.len() > 0 && is_space(s[0]) {
        trim_front(s.skip(1))
    } else {
        s
    }
}

/// `s` without its trailing whitespace.
pub open spec fn trim_back(s: Seq<char>) -> Seq<char>
    decreases s.len(),
{
    if s.len() > 0 && is_space(s[s.len() - 1]) {
        trim_back(s.take(s.len() - 1))
    } else {
        s
    }
}

/// `s` without its leading and trailing whitespace.
pub open spec fn trim_of(s: Seq<char>) -> Seq<char> {
    trim_back(trim_front(s))
}

/// If the first `i` characters of `s` are whitespace and the character at
/// `i` (when there is one) is not, trimming the front drops exactly those
/// `i` characters.
proof fn lemma_trim_front_is_skip(s: Seq<char>, i: int)
    requires
        0 <= i <= s.len(),
        forall|k: int| 0 <= k < i ==> is_space(s[k]),
        i == s.len() || !is_space(s[i]),
    ensures
        trim_front(s) == s.skip(i),
    decreases i,
{
    if i == 0 {
        assert(trim_front(s) =~= s.skip(0));
    } else {
        assert(is_space(s[0]));
        let t = s.skip(1);
        assert(forall|k: int| 0 <= k < i - 1 ==> is_space(#[trigger] t[k]));
        assert(i - 1 == t.len() || !is_space(t[i - 1]));
        lemma_trim_front_is_skip(t, i - 1);
        assert(t.skip(i - 1) =~= s.skip(i));
    }
}

/// If the characters of `s` from `j` on are whitespace and the character
/// just before `j` (when there is one) is not, trimming the back keeps
/// exactly the first `j` characters.
proof fn lemma_trim_back_is_take(s: Seq<char>, j: int)
    requires
        0 <= j <= s.len(),
        forall|k: int| j <= k < s.len() ==> is_space(s[k]),
        j == 0 || !is_space(s[j - 1]),
    ensures
        trim_back(s) == s.take(j),
    decreases s.len(),
{
    if j == s.len() {
        assert(trim_back(s) =~= s.take(j));
    } else {
        assert(is_space(s[s.len() - 1]));
        let t = s.take(s.len() - 1);
        assert(forall|k: int| j <= k < t.len() ==> is_space(#[trigger] t[k]));
        lemma_trim_back_is_take(t, j);
        assert(t.take(j) =~= s.take(j));
    }
}

/// Narrows `[a, b)` to the trimmed extent of the line `c[a..b]`: the
/// returned range holds the same characters with surrounding whitespace
/// removed.
pub(crate) fn trim_bounds(c: &Vec<char>, a: usize, b: usize) -> (r: (usize, usize))
    requires
        a <= b <= c.len(),
    ensures
        a <= r.0 <= r.1 <= b,
        c@.subrange(r.0 as int, r.1 as int) == trim_of(c@.subrange(a as int, b as int)),
{
    let ghost sub = c@.subrange(a as int, b as int);
    let mut ta: usize = a;
    loop
        invariant
            a <= ta <= b <= c.len(),
            forall|k: int| a <= k < ta ==> is_space(c@[k]),
        ensures
            a <= ta <= b,
            forall|k: int| a <= k < ta ==> is_space(c@[k]),
            ta == b || !is_space(c@[ta as int]),
        decreases b - ta,
    {
        if ta == b {
            break;
        }
        if !is_space_char(c[ta]) {
            break;
        }
        ta = ta + 1;
    }
    proof {
        assert(forall|k: int| 0 <= k < ta - a ==> is_space(#[trigger] sub[k]));
        assert(ta - a == sub.len() || !is_space(sub[ta - a]));
        lemma_trim_front_is_skip(sub, ta - a);
        assert(sub.skip(ta - a) =~= c@.subrange(ta as int, b as int));
    }
    let ghost front = c@.subrange(ta as int, b as int);
    let mut tb: usize = b;
    loop
        invariant
            a <= ta <= tb <= b <= c.len(),
            forall|k: int| tb <= k < b ==> is_space(c@[k]),
        ensures
            ta <= tb <= b,
            forall|k: int| tb <= k < b ==> is_space(c@[k]),
            tb == ta || !is_space(c@[tb - 1]),
        decreases tb,
    {
        if tb == ta {
            break;
        }
        if !is_space_char(c[tb - 1]) {
            break;
        }
        tb = tb - 1;
    }
    proof {
        assert(forall|k: int| tb - ta <= k < front.len() ==> is_space(#[trigger] front[k]));
        assert(tb - ta == 0 || !is_space(front[tb - ta - 1]));
        lemma_trim_back_is_take(front, tb - ta);
        assert(front.take(tb - ta) =~= c@.subrange(ta as int, tb as int));
        assert(trim_of(sub) == c@.subrange(ta as int, tb as int)) by {
            assert(trim_front(sub) == front);
        }
    }
    (ta, tb)
}

} // verus!
