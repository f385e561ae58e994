//! Byte-string utilities: substring search, suffix test, and removal of the
//! first occurrence of a pattern. All of them are specified against the
//! leftmost-match position `find_pat`.
use vstd::prelude::*;

verus! {

/// `pat` occurs in `s` at position `i`.
pub open spec fn matches_at(s: Seq<u8>, pat: Seq<u8>, i: int) -> bool {
    0 <= i && i + pat.len() <= s.len() && s.subrange(i, i + pat.len()) == pat
}

/// `pat` occurs somewhere in `s`.
pub open spec fn contains_seq(s: Seq<u8>, pat: Seq<u8>) -> bool {
    exists|i: int| matches_at(s, pat, i)
}

/// `s` ends with `pat`.
pub open spec fn ends_with(s: Seq<u8>, pat: Seq<u8>) -> bool {
    pat.len() <= s.len() && s.subrange(s.len() - pat.len(), s.len() as int) == pat
}

/// `s` starts with `pat`.
pub open spec fn starts_with(s: Seq<u8>, pat: Seq<u8>) -> bool {
    pat.len() <= s.len() && s.subrange(0, pat.len() as int) == pat
}

/// The position of the leftmost occurrence of `pat` in `s` at or after
/// `from`, if any.
pub open spec fn find_pat(s: Seq<u8>, pat: Seq<u8>, from: int) -> Option<int>
    recommends
        0 <= from <= s.len(),
    decreases s.len() - from + 1 when 0 <= from <= s.len() + 1
{
    if from + pat.len() > s.len() {
        None
    } else if matches_at(s, pat, from) {
        Some(from)
    } else {
        find_pat(s, pat, from + 1)
    }
}

/// `s` with its leftmost occurrence of `pat` removed; `s` itself when `pat`
/// does not occur.
pub open spec fn stripped_once(s: Seq<u8>, pat: Seq<u8>) -> Seq<u8> {
    match find_pat(s, pat, 0) {
        Some(i) => s.subrange(0, i) + s.skip(i + pat.len()),
        None => s,
    }
}

/// What `find_pat` returns: the leftmost match at or after `from`, or the
/// absence of any match at or after `from`.
pub proof fn lemma_find_pat_spec(s: Seq<u8>, pat: Seq<u8>, from: int)
    requires
        0 <= from <= s.len(),
    ensures
        match find_pat(s, pat, from) {
            Some(i) => from <= i && matches_at(s, pat, i) && forall|j: int|
                from <= j < i ==> !matches_at(s, pat, j),
            None => forall|j: int| from <= j ==> !matches_at(s, pat, j),
        },
    decreases s.len() - from,
{
    if from + pat.len() > s.len() {
        assert forall|j: int| from <= j implies !matches_at(s, pat, j) by {
            assert(j + pat.len() > s.len());
        }
    } else if matches_at(s, pat, from) {
    } else {
        if pat.len() == 0 {
            assert(s.subrange(from, from) =~= pat);
            assert(false);
        }
        lemma_find_pat_spec(s, pat, from + 1);
    }
}

/// `contains_seq` holds exactly when `find_pat` finds a position.
pub proof fn lemma_contains_iff_find(s: Seq<u8>, pat: Seq<u8>)
    ensures
        contains_seq(s, pat) <==> find_pat(s, pat, 0) is Some,
{
    lemma_find_pat_spec(s, pat, 0);
    if find_pat(s, pat, 0) is Some {
        let i = find_pat(s, pat, 0)->Some_0;
        assert(matches_at(s, pat, i));
    } else {
        assert forall|i: int| !matches_at(s, pat, i) by {
            if i < 0 {
            } else {
                assert(!matches_at(s, pat, i));
            }
        }
    }
}

/// A match at `i` with none before it is the leftmost match.
pub proof fn lemma_find_pat_unique(s: Seq<u8>, pat: Seq<u8>, i: int)
    requires
        matches_at(s, pat, i),
        forall|j: int| 0 <= j < i ==> !matches_at(s, pat, j),
    ensures
        find_pat(s, pat, 0) == Some(i),
{
    lemma_find_pat_spec(s, pat, 0);
    match find_pat(s, pat, 0) {
        Some(k) => {
            if k < i {
                assert(!matches_at(s, pat, k));
            } else if k > i {
                assert(!matches_at(s, pat, i));
            }
        },
        None => {
            assert(!matches_at(s, pat, i));
        },
    }
}

/// Whether `pat` occurs in `s` at position `i`.
pub fn matches_at_exec(s: &Vec<u8>, pat: &Vec<u8>, i: usize) -> (r: bool)
    requires
        i + pat.len() <= s.len(),
    ensures
        r == matches_at(s@, pat@, i as int),
{
    let mut j: usize = 0;
    while j < pat.len()
        invariant
            j <= pat.len(),
            i + pat.len() <= s.len(),
            forall|k: int| 0 <= k < j ==> s@[i + k] == pat@[k],
        decreases pat.len() - j,
    {
        if s[i + j] != pat[j] {
            proof {
                assert(s@.subrange(i as int, i + pat@.len())[j as int] != pat@[j as int]);
            }
            return false;
        }
        j = j + 1;
    }
    proof {
        assert(s@.subrange(i as int, i + pat@.len()) =~= pat@);
    }
    true
}

/// The position of the leftmost occurrence of `pat` in `s`, if any.
pub fn find_first(s: &Vec<u8>, pat: &Vec<u8>) -> (r: Option<usize>)
    ensures
        match r {
            Some(i) => find_pat(s@, pat@, 0) == Some(i as int),
            None => find_pat(s@, pat@, 0) is None,
        },
{
    if pat.len() > s.len() {
        proof {
            lemma_find_pat_spec(s@, pat@, 0);
            if find_pat(s@, pat@, 0) is Some {
                let i = find_pat(s@, pat@, 0)->Some_0;
                assert(matches_at(s@, pat@, i));
            }
        }
        return None;
    }
    let bound = s.len() - pat.len();
    let mut i: usize = 0;
    while i <= bound
        invariant
            pat.len() <= s.len(),
            bound == s.len() - pat.len(),
            i <= bound + 1,
            forall|j: int| 0 <= j < i ==> !matches_at(s@, pat@, j),
        decreases bound + 1 - i,
    {
        if matches_at_exec(s, pat, i) {
            proof {
                lemma_find_pat_unique(s@, pat@, i as int);
            }
            return Some(i);
        }
        proof {
            if pat@.len() == 0 {
                assert(s@.subrange(i as int, i as int) =~= pat@);
                assert(matches_at(s@, pat@, i as int));
                assert(false);
            }
        }
        i = i + 1;
    }
    proof {
        lemma_find_pat_spec(s@, pat@, 0);
        if find_pat(s@, pat@, 0) is Some {
            let k = find_pat(s@, pat@, 0)->Some_0;
            assert(matches_at(s@, pat@, k));
            assert(k + pat@.len() <= s@.len());
            assert(!matches_at(s@, pat@, k));
        }
    }
    None
}

/// Whether `pat` occurs somewhere in `s`.
pub fn contains_exec(s: &Vec<u8>, pat: &Vec<u8>) -> (r: bool)
    ensures
        r == contains_seq(s@, pat@),
{
    proof {
        lemma_contains_iff_find(s@, pat@);
    }
    find_first(s, pat).is_some()
}

/// Whether `s` ends with `pat`.
pub fn ends_with_exec(s: &Vec<u8>, pat: &Vec<u8>) -> (r: bool)
    ensures
        r == ends_with(s@, pat@),
{
    if pat.len() > s.len() {
        return false;
    }
    matches_at_exec(s, pat, s.len() - pat.len())
}

/// Whether `s` starts with `pat`.
pub fn starts_with_exec(s: &Vec<u8>, pat: &Vec<u8>) -> (r: bool)
    ensures
        r == starts_with(s@, pat@),
{
    if pat.len() > s.len() {
        return false;
    }
    matches_at_exec(s, pat, 0)
}

/// A copy of `s` with the leftmost occurrence of `pat` removed, or `s`
/// itself when `pat` does not occur in it.
pub fn strip_once(s: &Vec<u8>, pat: &Vec<u8>) -> (r: Vec<u8>)
    ensures
        r@ == stripped_once(s@, pat@),
{
    match find_first(s, pat) {
        None => {
            let r = s.clone();
            proof {
                assert(r@ =~= stripped_once(s@, pat@));
            }
            r
        },
        Some(i) => {
            proof {
                lemma_find_pat_spec(s@, pat@, 0);
            }
            let mut r: Vec<u8> = Vec::new();
            let mut j: usize = 0;
            while j < i
                invariant
                    i + pat.len() <= s.len(),
                    j <= i,
                    r@ =~= s@.subrange(0, j as int),
                decreases i - j,
            {
                r.push(s[j]);
                proof {
                    assert(r@ =~= s@.subrange(0, j + 1));
                }
                j = j + 1;
            }
            let mut k: usize = i + pat.len();
            while k < s.len()
                invariant
                    i + pat.len() <= k <= s.len(),
                    r@ =~= s@.subrange(0, i as int) + s@.subrange(i + pat@.len(), k as int),
                decreases s.len() - k,
            {
                r.push(s[k]);
                proof {
                    assert(r@ =~= s@.subrange(0, i as int) + s@.subrange(
                        i + pat@.len(),
                        k + 1,
                    ));
                }
                k = k + 1;
            }
            proof {
                assert(s@.subrange(i + pat@.len(), s@.len() as int) =~= s@.skip(i + pat@.len()));
                assert(r@ =~= stripped_once(s@, pat@));
            }
            r
        },
    }
}

/// The concatenation of two byte vectors.
pub fn concat_bytes(a: &Vec<u8>, b: &Vec<u8>) -> (r: Vec<u8>)
    ensures
        r@ == a@ + b@,
{
    let mut r = a.clone();
    let mut k: usize = 0;
    while k < b.len()
        invariant
            k <= b.len(),
            r@ =~= a@ + b@.subrange(0, k as int),
        decreases b.len() - k,
    {
        r.push(b[k]);
        proof {
            assert(r@ =~= a@ + b@.subrange(0, k + 1));
        }
        k = k + 1;
    }
    proof {
        assert(r@ =~= a@ + b@);
    }
    r
}

/// `s` with `ins` inserted at byte position `at`.
pub open spec fn spliced(s: Seq<u8>, ins: Seq<u8>, at: int) -> Seq<u8>
    recommends
        0 <= at <= s.len(),
{
    s.subrange(0, at) + ins + s.skip(at)
}

/// A copy of `s` with `ins` inserted at byte position `at`.
pub fn splice_bytes(s: &Vec<u8>, ins: &Vec<u8>, at: usize) -> (r: Vec<u8>)
    requires
        at <= s.len(),
    ensures
        r@ == spliced(s@, ins@, at as int),
{
    let mut r: Vec<u8> = Vec::new();
    let mut j: usize = 0;
    while j < at
        invariant
            at <= s.len(),
            j <= at,
            r@ =~= s@.subrange(0, j as int),
        decreases at - j,
    {
        r.push(s[j]);
        proof {
            assert(r@ =~= s@.subrange(0, j + 1));
        }
        j = j + 1;
    }
    let mut k: usize = 0;
    while k < ins.len()
        invariant
            at <= s.len(),
            k <= ins.len(),
            r@ =~= s@.subrange(0, at as int) + ins@.subrange(0, k as int),
        decreases ins.len() - k,
    {
        r.push(ins[k]);
        proof {
            assert(r@ =~= s@.subrange(0, at as int) + ins@.subrange(0, k + 1));
        }
        k = k + 1;
    }
    proof {
        assert(ins@.subrange(0, ins@.len() as int) =~= ins@);
    }
    let mut m: usize = at;
    while m < s.len()
        invariant
            at <= m <= s.len(),
            r@ =~= s@.subrange(0, at as int) + ins@ + s@.subrange(at as int, m as int),
        decreases s.len() - m,
    {
        r.push(s[m]);
        proof {
            assert(r@ =~= s@.subrange(0, at as int) + ins@ + s@.subrange(at as int, m + 1));
        }
        m = m + 1;
    }
    proof {
        assert(s@.subrange(at as int, s@.len() as int) =~= s@.skip(at as int));
        assert(r@ =~= spliced(s@, ins@, at as int));
    }
    r
}

} // verus!
