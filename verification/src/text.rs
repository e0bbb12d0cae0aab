//! Searching and splitting text, the way the parsers of the library read it.
use vstd::prelude::*;
use vstd::string::*;

verus! {

/// The first position at which `p` occurs in `s`, or -1.
pub open spec fn first_match(s: Seq<char>, p: Seq<char>) -> int
    decreases s.len(),
{
    if s.len() < p.len() {
        -1
    } else if s.take(p.len() as int) == p {
        0
    } else if s.len() == 0 {
        -1
    } else {
        let r = first_match(s.drop_first(), p);
        if r < 0 {
            -1
        } else {
            r + 1
        }
    }
}

/// A found position leaves room for the pattern.
pub proof fn lemma_first_match(s: Seq<char>, p: Seq<char>)
    ensures
        -1 <= first_match(s, p),
        first_match(s, p) >= 0 ==> first_match(s, p) + p.len() <= s.len(),
        first_match(s, p) >= 0 ==> s.subrange(first_match(s, p), first_match(s, p) + p.len()) == p,
    decreases s.len(),
{
    if s.len() >= p.len() && s.take(p.len() as int) != p && s.len() > 0 {
        lemma_first_match(s.drop_first(), p);
        let r = first_match(s.drop_first(), p);
        if r >= 0 {
            assert(s.subrange(r + 1, r + 1 + p.len()) =~= s.drop_first().subrange(r, r + p.len()));
        }
    }
}

/// The pieces of `s` between the occurrences of the non-empty `p`, found
/// from the left without overlap.
pub open spec fn split(s: Seq<char>, p: Seq<char>) -> Seq<Seq<char>>
    decreases s.len(),
{
    let i = first_match(s, p);
    if p.len() == 0 || i < 0 {
        seq![s]
    } else {
        proof {
            lemma_first_match(s, p);
        }
        seq![s.take(i)] + split(s.skip(i + p.len()), p)
    }
}

/// Whether `p` occurs in `s` at position `i`.
fn matches_at(s: &str, p: &str, i: usize) -> (r: bool)
    requires
        i + p@.len() <= s@.len(),
        s@.len() <= usize::MAX,
    ensures
        r == (s@.subrange(i as int, i + p@.len()) == p@),
{
    let m = p.unicode_len();
    let mut k: usize = 0;
    while k < m
        invariant
            m == p@.len(),
            i + m <= s@.len(),
            s@.len() <= usize::MAX,
            k <= m,
            forall|j: int| 0 <= j < k ==> s@[i + j] == p@[j],
        decreases m - k,
    {
        if s.get_char(i + k) != p.get_char(k) {
            proof {
                assert(s@.subrange(i as int, i + m)[k as int] != p@[k as int]);
            }
            return false;
        }
        k = k + 1;
    }
    proof {
        assert(s@.subrange(i as int, i + m) =~= p@);
    }
    true
}

/// The first position at which `p` occurs in `s`.
pub fn find(s: &str, p: &str) -> (r: Option<usize>)
    ensures
        match r {
            Some(i) => i as int == first_match(s@, p@),
            None => first_match(s@, p@) == -1,
        },
{
    let n = s.unicode_len();
    let m = p.unicode_len();
    if m > n {
        return None;
    }
    if m == 0 {
        proof {
            assert(s@.take(0) =~= p@);
        }
        return Some(0);
    }
    let mut i: usize = 0;
    proof {
        assert(s@.skip(0) =~= s@);
    }
    while i <= n - m
        invariant
            n == s@.len(),
            m == p@.len(),
            0 < m <= n,
            i <= n,
            first_match(s@, p@) == (if first_match(s@.skip(i as int), p@) < 0 {
                -1
            } else {
                first_match(s@.skip(i as int), p@) + i
            }),
        decreases n - i,
    {
        let ghost t = s@.skip(i as int);
        proof {
            assert(t.take(m as int) =~= s@.subrange(i as int, i + m));
        }
        if matches_at(s, p, i) {
            return Some(i);
        }
        proof {
            assert(t.drop_first() =~= s@.skip(i + 1));
        }
        i = i + 1;
    }
    None
}

/// The pieces of `s` between the occurrences of `p`.
pub fn split_str<'a>(s: &'a str, p: &str) -> (r: Vec<&'a str>)
    requires
        p@.len() > 0,
    ensures
        r@.map_values(|x: &str| x@) == split(s@, p@),
{
    let mut out: Vec<&'a str> = Vec::new();
    let mut rest: &'a str = s;
    let m = p.unicode_len();
    proof {
        assert(out@.map_values(|x: &str| x@) + split(rest@, p@) =~= split(s@, p@));
    }
    loop
        invariant
            m == p@.len(),
            m > 0,
            out@.map_values(|x: &str| x@) + split(rest@, p@) == split(s@, p@),
        decreases rest@.len(),
    {
        let n = rest.unicode_len();
        match find(rest, p) {
            None => {
                let ghost before = out@;
                out.push(rest);
                proof {
                    assert(out@.map_values(|x: &str| x@) =~= before.map_values(|x: &str| x@) + split(
                        rest@,
                        p@,
                    ));
                }
                return out;
            },
            Some(i) => {
                proof {
                    lemma_first_match(rest@, p@);
                }
                let head = rest.substring_char(0, i);
                let tail = rest.substring_char(i + m, n);
                let ghost before = out@;
                let ghost old_rest = rest@;
                out.push(head);
                rest = tail;
                proof {
                    assert(head@ =~= old_rest.take(i as int));
                    assert(tail@ =~= old_rest.skip(i + m));
                    assert(out@.map_values(|x: &str| x@) =~= before.map_values(|x: &str| x@).push(
                        head@,
                    ));
                    assert(split(old_rest, p@) == seq![old_rest.take(i as int)] + split(tail@, p@));
                    assert(out@.map_values(|x: &str| x@) + split(rest@, p@) =~= before.map_values(
                        |x: &str| x@,
                    ) + split(old_rest, p@));
                }
            },
        }
    }
}

} // verus!
