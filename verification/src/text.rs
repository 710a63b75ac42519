//! Character-level string utilities: equality, lexicographic order, and
//! first-occurrence substring search, each with an exact specification over
//! `Seq<char>` views.
use vstd::prelude::*;

verus! {

/// Strict lexicographic order on character sequences, by code point.
pub open spec fn lex_lt(a: Seq<char>, b: Seq<char>) -> bool
    decreases a.len(),
{
    if b.len() == 0 {
        false
    } else if a.len() == 0 {
        true
    } else if a[0] != b[0] {
        (a[0] as int) < (b[0] as int)
    } else {
        lex_lt(a.skip(1), b.skip(1))
    }
}

/// `lex_lt` is total: two sequences are ordered one way, the other, or equal.
pub proof fn lemma_lex_lt_total(a: Seq<char>, b: Seq<char>)
    ensures
        lex_lt(a, b) || lex_lt(b, a) || a == b,
    decreases a.len(),
{
    if b.len() == 0 && a.len() == 0 {
        assert(a =~= b);
    } else if b.len() == 0 {
        assert(lex_lt(b, a));
    } else if a.len() == 0 {
        assert(lex_lt(a, b));
    } else if a[0] != b[0] {
        if (a[0] as int) < (b[0] as int) {
            assert(lex_lt(a, b));
        } else {
            assert((b[0] as int) < (a[0] as int));
            assert(lex_lt(b, a));
        }
    } else {
        lemma_lex_lt_total(a.skip(1), b.skip(1));
        if lex_lt(a.skip(1), b.skip(1)) {
            assert(lex_lt(a, b));
        } else if lex_lt(b.skip(1), a.skip(1)) {
            assert(lex_lt(b, a));
        } else {
            assert(a.skip(1) == b.skip(1));
            assert forall|k: int| 0 <= k < a.len() implies a[k] == b[k] by {
                if k >= 1 {
                    assert(a[k] == a.skip(1)[k - 1]);
                    assert(b[k] == b.skip(1)[k - 1]);
                }
            }
            assert(a =~= b);
        }
    }
}

/// `lex_lt` is irreflexive.
pub proof fn lemma_lex_lt_irrefl(a: Seq<char>)
    ensures
        !lex_lt(a, a),
    decreases a.len(),
{
    if a.len() > 0 {
        lemma_lex_lt_irrefl(a.skip(1));
    }
}

/// `lex_lt` is transitive.
pub proof fn lemma_lex_lt_trans(a: Seq<char>, b: Seq<char>, c: Seq<char>)
    requires
        lex_lt(a, b),
        lex_lt(b, c),
    ensures
        lex_lt(a, c),
    decreases a.len(),
{
    if b.len() == 0 {
        assert(false);
    } else if c.len() == 0 {
        assert(false);
    } else if a.len() == 0 {
    } else {
        if a[0] == b[0] && b[0] == c[0] {
            lemma_lex_lt_trans(a.skip(1), b.skip(1), c.skip(1));
        }
    }
}

/// Character-by-character equality test on string slices.
pub fn str_eq(a: &str, b: &str) -> (r: bool)
    ensures
        r == (a@ == b@),
{
    let a_len = a.unicode_len();
    let b_len = b.unicode_len();
    if a_len != b_len {
        return false;
    }
    let mut i: usize = 0;
    while i < a_len
        invariant
            i <= a_len,
            a_len == a@.len(),
            b_len == b@.len(),
            a_len == b_len,
            forall|k: int| 0 <= k < i ==> a@[k] == b@[k],
        decreases a_len - i,
    {
        if a.get_char(i) != b.get_char(i) {
            return false;
        }
        i += 1;
    }
    proof {
        assert(a@ =~= b@);
    }
    true
}

proof fn lemma_lex_lt_step(a: Seq<char>, b: Seq<char>, i: int)
    requires
        0 <= i < a.len(),
        0 <= i < b.len(),
        a[i] == b[i],
    ensures
        lex_lt(a.skip(i), b.skip(i)) == lex_lt(a.skip(i + 1), b.skip(i + 1)),
{
    assert(a.skip(i).len() > 0);
    assert(b.skip(i).len() > 0);
    assert(a.skip(i)[0] == a[i]);
    assert(b.skip(i)[0] == b[i]);
    assert(a.skip(i).skip(1) =~= a.skip(i + 1));
    assert(b.skip(i).skip(1) =~= b.skip(i + 1));
}

/// Character-by-character lexicographic comparison of string slices.
pub fn str_lt(a: &str, b: &str) -> (r: bool)
    ensures
        r == lex_lt(a@, b@),
{
    let a_len = a.unicode_len();
    let b_len = b.unicode_len();
    let mut i: usize = 0;
    proof {
        assert(a@.skip(0) =~= a@);
        assert(b@.skip(0) =~= b@);
    }
    loop
        invariant
            0 <= i <= a_len,
            0 <= i <= b_len,
            a_len == a@.len(),
            b_len == b@.len(),
            lex_lt(a@, b@) == lex_lt(a@.skip(i as int), b@.skip(i as int)),
        decreases a_len - i,
    {
        if i == a_len {
            return i < b_len;
        }
        if i == b_len {
            return false;
        }
        let ca = a.get_char(i);
        let cb = b.get_char(i);
        if ca != cb {
            proof {
                assert(a@.skip(i as int)[0] == a@[i as int]);
                assert(b@.skip(i as int)[0] == b@[i as int]);
            }
            return (ca as u32) < (cb as u32);
        }
        proof {
            lemma_lex_lt_step(a@, b@, i as int);
        }
        i += 1;
    }
}

/// The pattern `p` occurs in `t` starting at position `i`.
pub open spec fn match_at(t: Seq<char>, p: Seq<char>, i: int) -> bool {
    &&& 0 <= i
    &&& i + p.len() <= t.len()
    &&& forall|k: int| 0 <= k < p.len() ==> t[i + k] == p[k]
}

/// `i` is the first position at which `p` occurs in `t`.
pub open spec fn found_at(t: Seq<char>, p: Seq<char>, i: int) -> bool {
    match_at(t, p, i) && forall|j: int| 0 <= j < i ==> !match_at(t, p, j)
}

/// Position of the first occurrence of `p` in `t`, if any.
pub open spec fn find_sub(t: Seq<char>, p: Seq<char>) -> Option<int> {
    if exists|i: int| match_at(t, p, i) {
        Some(choose|i: int| found_at(t, p, i))
    } else {
        None
    }
}

proof fn lemma_least_match(t: Seq<char>, p: Seq<char>, i: int)
    requires
        match_at(t, p, i),
    ensures
        exists|j: int| found_at(t, p, j),
    decreases i,
{
    if forall|j: int| 0 <= j < i ==> !match_at(t, p, j) {
        assert(found_at(t, p, i));
    } else {
        let j = choose|j: int| 0 <= j < i && match_at(t, p, j);
        lemma_least_match(t, p, j);
    }
}

/// `find_sub` returns exactly the first match position, and `None` exactly
/// when no match exists.
pub proof fn lemma_find_sub_characterization(t: Seq<char>, p: Seq<char>)
    ensures
        find_sub(t, p) matches Some(i) ==> found_at(t, p, i),
        find_sub(t, p) is None <==> forall|j: int| !match_at(t, p, j),
        forall|i: int| found_at(t, p, i) ==> find_sub(t, p) == Some(i),
{
    if exists|i: int| match_at(t, p, i) {
        let w = choose|i: int| match_at(t, p, i);
        lemma_least_match(t, p, w);
        let least = choose|i: int| found_at(t, p, i);
        assert(find_sub(t, p) == Some(least));
        assert forall|i: int| found_at(t, p, i) implies find_sub(t, p) == Some(i) by {
            if i < least {
                assert(!match_at(t, p, i));
            }
            if least < i {
                assert(!match_at(t, p, least));
            }
            assert(i == least);
        }
    }
}

fn match_here(t: &str, p: &str, pos: usize, t_len: usize, p_len: usize) -> (r: bool)
    requires
        t_len == t@.len(),
        p_len == p@.len(),
        pos + p_len <= t_len,
    ensures
        r == match_at(t@, p@, pos as int),
{
    let mut k: usize = 0;
    while k < p_len
        invariant
            k <= p_len,
            t_len == t@.len(),
            p_len == p@.len(),
            pos + p_len <= t_len,
            forall|m: int| 0 <= m < k ==> t@[pos + m] == p@[m],
        decreases p_len - k,
    {
        if t.get_char(pos + k) != p.get_char(k) {
            assert(!match_at(t@, p@, pos as int));
            return false;
        }
        k += 1;
    }
    true
}

/// First occurrence of `p` inside `t`, as a character index.
pub fn find_str(t: &str, p: &str) -> (r: Option<usize>)
    ensures
        r matches Some(i) ==> found_at(t@, p@, i as int),
        r is None ==> forall|j: int| !match_at(t@, p@, j),
        r matches Some(i) ==> find_sub(t@, p@) == Some(i as int),
        r is None ==> find_sub(t@, p@) is None,
{
    let t_len = t.unicode_len();
    let p_len = p.unicode_len();
    if p_len > t_len {
        proof {
            lemma_find_sub_characterization(t@, p@);
        }
        return None;
    }
    let mut pos: usize = 0;
    while pos <= t_len - p_len
        invariant
            t_len == t@.len(),
            p_len == p@.len(),
            p_len <= t_len,
            pos <= t_len - p_len + 1,
            forall|j: int| 0 <= j < pos ==> !match_at(t@, p@, j),
        decreases t_len - pos,
    {
        if match_here(t, p, pos, t_len, p_len) {
            proof {
                assert(found_at(t@, p@, pos as int));
                lemma_find_sub_characterization(t@, p@);
            }
            return Some(pos);
        }
        pos += 1;
    }
    proof {
        assert forall|j: int| !match_at(t@, p@, j) by {
            if 0 <= j < pos {
            } else if j >= pos {
                assert(j + p@.len() > t@.len() || !match_at(t@, p@, j)) by {
                    if j + p@.len() <= t@.len() {
                        assert(j < pos);
                    }
                }
            }
        }
        lemma_find_sub_characterization(t@, p@);
    }
    None
}

} // verus!
