//! String-level helpers shared by the registry and the extractor: lexicographic
//! order, directory-prefix matching on path strings, substring containment, and
//! the parent directory of a path.
use vstd::prelude::*;

verus! {

/// Strict lexicographic order on character sequences.
pub open spec fn lex_lt(a: Seq<char>, b: Seq<char>) -> bool
    decreases a.len(),
{
    if b.len() == 0 {
        false
    } else if a.len() == 0 {
        true
    } else if a[0] < b[0] {
        true
    } else if a[0] == b[0] {
        lex_lt(a.skip(1), b.skip(1))
    } else {
        false
    }
}

pub open spec fn lex_le(a: Seq<char>, b: Seq<char>) -> bool {
    lex_lt(a, b) || a == b
}

/// If two sequences agree on their first `i` characters, the order is decided
/// at position `i`: by the first differing character, or by one sequence
/// running out first.
pub proof fn lemma_lex_at(a: Seq<char>, b: Seq<char>, i: int)
    requires
        0 <= i <= a.len(),
        i <= b.len(),
        forall|k: int| 0 <= k < i ==> a[k] == b[k],
    ensures
        (i < a.len() && i < b.len() && a[i] < b[i]) ==> lex_lt(a, b),
        (i == a.len() && i < b.len()) ==> lex_lt(a, b),
        (i == a.len() && i == b.len()) ==> a == b,
    decreases i,
{
    if i == 0 {
        if i == a.len() && i == b.len() {
            assert(a =~= b);
        }
    } else {
        assert(a[0] == b[0]);
        assert forall|k: int| 0 <= k < i - 1 implies #[trigger] a.skip(1)[k] == b.skip(1)[k] by {
            assert(a.skip(1)[k] == a[k + 1]);
            assert(b.skip(1)[k] == b[k + 1]);
        }
        lemma_lex_at(a.skip(1), b.skip(1), i - 1);
        if i < a.len() && i < b.len() && a[i] < b[i] {
            assert(a.skip(1)[i - 1] == a[i]);
            assert(b.skip(1)[i - 1] == b[i]);
            assert(lex_lt(a.skip(1), b.skip(1)));
        }
        if i == a.len() && i == b.len() {
            assert(a.skip(1) == b.skip(1));
            assert(a =~= b) by {
                assert forall|k: int| 0 <= k < a.len() implies a[k] == b[k] by {
                    if k > 0 {
                        assert(a.skip(1)[k - 1] == a[k]);
                        assert(b.skip(1)[k - 1] == b[k]);
                    }
                }
            }
        }
    }
}

/// Three-way comparison of two strings in lexicographic character order.
pub fn str_cmp(a: &str, b: &str) -> (r: core::cmp::Ordering)
    ensures
        (r == core::cmp::Ordering::Less) == lex_lt(a@, b@),
        (r == core::cmp::Ordering::Equal) == (a@ == b@),
        (r == core::cmp::Ordering::Greater) == (!lex_lt(a@, b@) && a@ != b@),
{
    let alen = a.unicode_len();
    let blen = b.unicode_len();
    let mut i: usize = 0;
    loop
        invariant
            0 <= i <= alen,
            i <= blen,
            alen == a@.len(),
            blen == b@.len(),
            forall|k: int| 0 <= k < i ==> a@[k] == b@[k],
        decreases alen - i,
    {
        if i == alen && i == blen {
            proof {
                lemma_lex_at(a@, b@, i as int);
                if lex_lt(a@, b@) {
                    lemma_lex_irreflexive(a@);
                }
            }
            return core::cmp::Ordering::Equal;
        }
        if i == alen {
            proof {
                lemma_lex_at(a@, b@, i as int);
            }
            return core::cmp::Ordering::Less;
        }
        if i == blen {
            proof {
                lemma_lex_at(b@, a@, i as int);
                if lex_lt(a@, b@) {
                    lemma_lex_asymmetric(a@, b@);
                }
            }
            return core::cmp::Ordering::Greater;
        }
        let ca = a.get_char(i);
        let cb = b.get_char(i);
        if ca < cb {
            proof {
                lemma_lex_at(a@, b@, i as int);
            }
            return core::cmp::Ordering::Less;
        }
        if cb < ca {
            proof {
                lemma_lex_at(b@, a@, i as int);
                if lex_lt(a@, b@) {
                    lemma_lex_asymmetric(a@, b@);
                }
            }
            return core::cmp::Ordering::Greater;
        }
        i = i + 1;
    }
}

pub proof fn lemma_lex_irreflexive(a: Seq<char>)
    ensures
        !lex_lt(a, a),
    decreases a.len(),
{
    if a.len() > 0 {
        lemma_lex_irreflexive(a.skip(1));
    }
}

pub proof fn lemma_lex_trichotomy(a: Seq<char>, b: Seq<char>)
    ensures
        lex_lt(a, b) || lex_lt(b, a) || a == b,
    decreases a.len(),
{
    if a.len() == 0 {
        if b.len() == 0 {
            assert(a =~= b);
        }
    } else if b.len() == 0 {
    } else if a[0] == b[0] {
        lemma_lex_trichotomy(a.skip(1), b.skip(1));
        if a.skip(1) == b.skip(1) {
            assert(a.skip(1).len() == b.skip(1).len());
            assert(a.len() == b.len());
            assert(a =~= b) by {
                assert forall|k: int| 0 <= k < a.len() implies a[k] == b[k] by {
                    if k > 0 {
                        assert(a.skip(1)[k - 1] == a[k]);
                        assert(b.skip(1)[k - 1] == b[k]);
                    }
                }
            }
        }
    }
}

pub proof fn lemma_lex_asymmetric(a: Seq<char>, b: Seq<char>)
    requires
        lex_lt(a, b),
    ensures
        !lex_lt(b, a),
    decreases a.len(),
{
    if a.len() > 0 && b.len() > 0 && a[0] == b[0] {
        lemma_lex_asymmetric(a.skip(1), b.skip(1));
    }
}

/// `root` names a directory that contains `path`, at directory boundaries:
/// the empty root contains everything, a path is contained in itself, and
/// otherwise `root` must be a proper prefix followed by a path separator.
pub open spec fn dir_prefix(root: Seq<char>, path: Seq<char>) -> bool {
    ||| root.len() == 0
    ||| path == root
    ||| (root.len() < path.len() && path.subrange(0, root.len() as int) == root && path[root.len() as int]
        == '/')
}

/// Decides `dir_prefix`: whether the directory `root` contains `path`.
pub fn is_dir_prefix(root: &str, path: &str) -> (r: bool)
    ensures
        r == dir_prefix(root@, path@),
{
    let rlen = root.unicode_len();
    let plen = path.unicode_len();
    if rlen == 0 {
        return true;
    }
    if plen < rlen {
        proof {
            assert(path@ != root@) by {
                assert(path@.len() < root@.len());
            }
        }
        return false;
    }
    let mut i: usize = 0;
    while i < rlen
        invariant
            0 <= i <= rlen,
            rlen <= plen,
            rlen == root@.len(),
            plen == path@.len(),
            forall|k: int| 0 <= k < i ==> path@[k] == root@[k],
        decreases rlen - i,
    {
        let cr = root.get_char(i);
        let cp = path.get_char(i);
        if cr != cp {
            proof {
                if path@ == root@ {
                    assert(path@[i as int] == root@[i as int]);
                }
                if root@.len() < path@.len() && path@.subrange(0, root@.len() as int) == root@ {
                    assert(path@.subrange(0, root@.len() as int)[i as int] == root@[i as int]);
                }
            }
            return false;
        }
        i = i + 1;
    }
    if plen == rlen {
        proof {
            assert(path@ =~= root@);
        }
        return true;
    }
    proof {
        assert(path@.subrange(0, rlen as int) =~= root@);
        if path@ == root@ {
            assert(path@.len() == root@.len());
        }
    }
    let sep = path.get_char(rlen);
    sep == '/'
}

/// Index of the last `/` in `p`, or `-1` if `p` holds none.
pub open spec fn last_slash(p: Seq<char>) -> int
    decreases p.len(),
{
    if p.len() == 0 {
        -1
    } else if p[p.len() - 1] == '/' {
        p.len() - 1
    } else {
        last_slash(p.drop_last())
    }
}

/// Everything before the last `/` of `p`; empty when `p` holds no `/`.
pub open spec fn parent_of(p: Seq<char>) -> Seq<char> {
    if last_slash(p) <= 0 {
        Seq::empty()
    } else {
        p.subrange(0, last_slash(p))
    }
}

pub proof fn lemma_last_slash_bounds(p: Seq<char>)
    ensures
        -1 <= last_slash(p) < p.len(),
        last_slash(p) >= 0 ==> p[last_slash(p)] == '/',
        forall|k: int| last_slash(p) < k < p.len() ==> p[k] != '/',
    decreases p.len(),
{
    if p.len() > 0 && p[p.len() - 1] != '/' {
        lemma_last_slash_bounds(p.drop_last());
        assert forall|k: int| last_slash(p) < k < p.len() implies p[k] != '/' by {
            if k < p.len() - 1 {
                assert(p.drop_last()[k] != '/');
            }
        }
    }
}

/// The directory part of `p`: the characters before its last `/`.
pub fn parent_dir(p: &str) -> (r: String)
    ensures
        r@ == parent_of(p@),
{
    let len = p.unicode_len();
    proof {
        lemma_last_slash_bounds(p@);
    }
    let mut j: usize = len;
    while j > 0
        invariant
            0 <= j <= len,
            len == p@.len(),
            forall|k: int| j <= k < len ==> p@[k] != '/',
        decreases j,
    {
        let c = p.get_char(j - 1);
        if c == '/' {
            proof {
                assert(last_slash(p@) == j - 1) by {
                    lemma_last_slash_bounds(p@);
                    if last_slash(p@) > j - 1 {
                        assert(p@[last_slash(p@)] != '/');
                    }
                    if last_slash(p@) < j - 1 {
                        assert(p@[j - 1] != '/');
                    }
                }
            }
            if j - 1 == 0 {
                let r = String::new();
                return r;
            }
            let sub = p.substring_char(0, j - 1);
            let r = sub.to_owned();
            return r;
        }
        j = j - 1;
    }
    proof {
        assert(last_slash(p@) <= 0) by {
            lemma_last_slash_bounds(p@);
            if last_slash(p@) > 0 {
                assert(p@[last_slash(p@)] != '/');
            }
        }
    }
    let r = String::new();
    r
}

/// `needle` occurs contiguously somewhere inside `hay`.
pub open spec fn contains_seq(hay: Seq<char>, needle: Seq<char>) -> bool {
    exists|i: int|
        0 <= i && i + needle.len() <= hay.len() && #[trigger] hay.subrange(i, i + needle.len())
            == needle
}

/// Decides `contains_seq`: substring containment.
pub fn str_contains(hay: &str, needle: &str) -> (r: bool)
    ensures
        r == contains_seq(hay@, needle@),
{
    let hlen = hay.unicode_len();
    let nlen = needle.unicode_len();
    if nlen > hlen {
        return false;
    }
    if nlen == 0 {
        proof {
            assert(hay@.subrange(0, 0) =~= needle@);
            assert(hay@.subrange(0, 0 + needle@.len() as int) == needle@);
        }
        return true;
    }
    let mut i: usize = 0;
    while i <= hlen - nlen
        invariant
            0 <= i <= hlen - nlen + 1,
            1 <= nlen <= hlen,
            hlen == hay@.len(),
            nlen == needle@.len(),
            forall|s: int|
                0 <= s < i ==> #[trigger] hay@.subrange(s, s + needle@.len()) != needle@,
        decreases hlen - i,
    {
        let mut j: usize = 0;
        let mut matches: bool = true;
        proof {
            assert(hay@.subrange(i as int, i as int) =~= needle@.subrange(0, 0));
        }
        while j < nlen
            invariant
                0 <= j <= nlen,
                0 <= i <= hlen - nlen,
                hlen == hay@.len(),
                nlen == needle@.len(),
                matches == (hay@.subrange(i as int, i + j) == needle@.subrange(0, j as int)),
            decreases nlen - j,
        {
            let ch = hay.get_char(i + j);
            let cn = needle.get_char(j);
            proof {
                let a = hay@.subrange(i as int, i + j + 1);
                let b = needle@.subrange(0, j + 1);
                let a0 = hay@.subrange(i as int, i + j);
                let b0 = needle@.subrange(0, j as int);
                assert(a[j as int] == hay@[i + j]);
                assert(b[j as int] == needle@[j as int]);
                if matches && ch == cn {
                    assert(a =~= b) by {
                        assert forall|k: int| 0 <= k < j + 1 implies #[trigger] a[k] == b[k] by {
                            if k < j {
                                assert(a0[k] == b0[k]);
                                assert(a[k] == a0[k]);
                                assert(b[k] == b0[k]);
                            }
                        }
                    }
                } else if ch != cn {
                    assert(a != b) by {
                        if a == b {
                            assert(a[j as int] == b[j as int]);
                        }
                    }
                } else {
                    assert(a != b) by {
                        if a == b {
                            assert(a0 =~= b0) by {
                                assert forall|k: int| 0 <= k < j implies #[trigger] a0[k]
                                    == b0[k] by {
                                    assert(a[k] == b[k]);
                                    assert(a[k] == a0[k]);
                                    assert(b[k] == b0[k]);
                                }
                            }
                        }
                    }
                }
            }
            matches = matches && ch == cn;
            j = j + 1;
        }
        if matches {
            proof {
                assert(needle@.subrange(0, nlen as int) =~= needle@);
                assert(hay@.subrange(i as int, i as int + needle@.len()) == needle@);
            }
            return true;
        }
        proof {
            assert(needle@.subrange(0, nlen as int) =~= needle@);
            assert(hay@.subrange(i as int, i as int + needle@.len()) != needle@);
        }
        i = i + 1;
    }
    proof {
        assert(!contains_seq(hay@, needle@)) by {
            if contains_seq(hay@, needle@) {
                let s = choose|s: int|
                    0 <= s && s + needle@.len() <= hay@.len() && #[trigger] hay@.subrange(
                        s,
                        s + needle@.len(),
                    ) == needle@;
                assert(s < i);
            }
        }
    }
    false
}

} // verus!
