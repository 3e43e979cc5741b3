//! Paths as sequences of characters: the order in which a tree lists them,
//! and the prefix tests by which it finds a directory's contents.

use vstd::prelude::*;
use vstd::std_specs::iter::IteratorSpec;
use vstd::string::StringExecFns;

verus! {

/// The character that separates the components of a path.
pub const SEPARATOR: char = '/';

/// `a` and `b` agree before position `k`, and there `a` ends while `b` goes
/// on, or `a` holds the character with the smaller code point.
pub open spec fn precedes_at(a: Seq<char>, b: Seq<char>, k: int) -> bool {
    &&& 0 <= k <= a.len()
    &&& k < b.len()
    &&& forall|i: int| 0 <= i < k ==> a[i] == b[i]
    &&& k < a.len() ==> (a[k] as int) < (b[k] as int)
}

/// `a` comes strictly before `b` in lexicographic order by code point.
pub open spec fn precedes(a: Seq<char>, b: Seq<char>) -> bool {
    exists|k: int| precedes_at(a, b, k)
}

/// The path of a directory followed by the separator: the prefix that all
/// paths below the directory share.
pub open spec fn dir_prefix(dir: Seq<char>) -> Seq<char> {
    dir.push(SEPARATOR)
}

/// `path` lies below the directory `dir`, at any depth.
pub open spec fn is_below(path: Seq<char>, dir: Seq<char>) -> bool {
    dir_prefix(dir).is_prefix_of(path)
}

/// No string comes before itself.
pub proof fn lemma_precedes_irreflexive(a: Seq<char>)
    ensures
        !precedes(a, a),
{
    assert forall|k: int| !precedes_at(a, a, k) by {}
}

/// The order is transitive.
pub proof fn lemma_precedes_transitive(a: Seq<char>, b: Seq<char>, c: Seq<char>)
    requires
        precedes(a, b),
        precedes(b, c),
    ensures
        precedes(a, c),
{
    let k1 = choose|k: int| precedes_at(a, b, k);
    let k2 = choose|k: int| precedes_at(b, c, k);
    let k = if k1 <= k2 { k1 } else { k2 };
    assert forall|i: int| 0 <= i < k implies a[i] == c[i] by {
        assert(a[i] == b[i]);
        assert(b[i] == c[i]);
    }
    if k < a.len() {
        if k1 < k2 {
            assert(b[k] == c[k]);
        } else if k2 < k1 {
            assert(a[k] == b[k]);
        }
    }
    assert(precedes_at(a, c, k));
}

/// No two strings come before each other.
pub proof fn lemma_precedes_asymmetric(a: Seq<char>, b: Seq<char>)
    requires
        precedes(a, b),
    ensures
        !precedes(b, a),
{
    if precedes(b, a) {
        lemma_precedes_transitive(a, b, a);
        lemma_precedes_irreflexive(a);
    }
}

proof fn lemma_total_from(a: Seq<char>, b: Seq<char>, k: int)
    requires
        0 <= k <= a.len(),
        k <= b.len(),
        forall|i: int| 0 <= i < k ==> a[i] == b[i],
    ensures
        a == b || precedes(a, b) || precedes(b, a),
    decreases a.len() - k,
{
    if k == a.len() {
        if k == b.len() {
            assert(a =~= b);
        } else {
            assert(precedes_at(a, b, k));
        }
    } else if k == b.len() {
        assert(precedes_at(b, a, k));
    } else if a[k] == b[k] {
        lemma_total_from(a, b, k + 1);
    } else if (a[k] as int) < (b[k] as int) {
        assert(precedes_at(a, b, k));
    } else {
        assert(precedes_at(b, a, k));
    }
}

/// Of two different strings one comes before the other.
pub proof fn lemma_precedes_total(a: Seq<char>, b: Seq<char>)
    ensures
        a == b || precedes(a, b) || precedes(b, a),
{
    lemma_total_from(a, b, 0);
}

/// A string comes after each of its proper prefixes.
pub proof fn lemma_prefix_precedes(p: Seq<char>, s: Seq<char>)
    requires
        p.is_prefix_of(s),
        p.len() < s.len(),
    ensures
        precedes(p, s),
{
    assert forall|i: int| 0 <= i < p.len() implies p[i] == s[i] by {
        assert(s.subrange(0, p.len() as int)[i] == s[i]);
    }
    assert(precedes_at(p, s, p.len() as int));
}

/// A directory comes before everything below it.
pub proof fn lemma_dir_precedes_below(path: Seq<char>, dir: Seq<char>)
    requires
        is_below(path, dir),
    ensures
        precedes(dir, path),
        precedes(dir, dir_prefix(dir)),
{
    let p = dir_prefix(dir);
    assert(dir.is_prefix_of(p)) by {
        assert(p.subrange(0, dir.len() as int) =~= dir);
    }
    lemma_prefix_precedes(dir, p);
    assert forall|i: int| 0 <= i < dir.len() implies dir[i] == path[i] by {
        assert(path.subrange(0, p.len() as int)[i] == path[i]);
        assert(p[i] == dir[i]);
    }
    assert(precedes_at(dir, path, dir.len() as int));
}

/// What lies below a directory lies below every directory above that one.
pub proof fn lemma_below_transitive(path: Seq<char>, mid: Seq<char>, dir: Seq<char>)
    requires
        is_below(path, mid),
        is_below(mid, dir),
    ensures
        is_below(path, dir),
{
    let p = dir_prefix(dir);
    let m = dir_prefix(mid);
    assert forall|i: int| 0 <= i < p.len() implies path[i] == p[i] by {
        assert(path.subrange(0, m.len() as int)[i] == path[i]);
        assert(m[i] == mid[i]);
        assert(mid.subrange(0, p.len() as int)[i] == mid[i]);
    }
    assert(path.subrange(0, p.len() as int) =~= p);
}

/// What lies below a path that begins with `prefix` begins with it too.
pub proof fn lemma_below_prefix(path: Seq<char>, dir: Seq<char>, prefix: Seq<char>)
    requires
        is_below(path, dir),
        prefix.is_prefix_of(dir),
    ensures
        prefix.is_prefix_of(path),
{
    let d = dir_prefix(dir);
    assert forall|i: int| 0 <= i < prefix.len() implies path[i] == prefix[i] by {
        assert(path.subrange(0, d.len() as int)[i] == path[i]);
        assert(d[i] == dir[i]);
        assert(dir.subrange(0, prefix.len() as int)[i] == dir[i]);
    }
    assert(path.subrange(0, prefix.len() as int) =~= prefix);
}

/// A string that sorts between a prefix and a string that begins with this
/// prefix begins with it too.
pub proof fn lemma_between_shares_prefix(p: Seq<char>, s: Seq<char>, t: Seq<char>)
    requires
        p.is_prefix_of(t),
        !precedes(s, p),
        !precedes(t, s),
    ensures
        p.is_prefix_of(s),
{
    lemma_precedes_total(p, s);
    if p == s {
        assert(s.subrange(0, p.len() as int) =~= p);
    } else {
        let k = choose|k: int| precedes_at(p, s, k);
        if k < p.len() {
            assert forall|i: int| 0 <= i < k implies t[i] == s[i] by {
                assert(t.subrange(0, p.len() as int)[i] == t[i]);
                assert(p[i] == s[i]);
            }
            assert(t.subrange(0, p.len() as int)[k] == t[k]);
            assert(precedes_at(t, s, k));
        } else {
            assert(s.subrange(0, p.len() as int) =~= p);
        }
    }
}

/// The path of a directory followed by the separator.
pub fn with_separator(dir: &str) -> (r: String)
    ensures
        r@ == dir_prefix(dir@),
{
    let mut r = dir.to_owned();
    proof {
        reveal_strlit("/");
    }
    r.append("/");
    assert(r@ =~= dir@.push(SEPARATOR));
    r
}

/// The characters of a string.
pub fn chars_of(s: &str) -> (v: Vec<char>)
    ensures
        v@ == s@,
{
    let mut v: Vec<char> = Vec::new();
    for c in it: s.chars()
        invariant
            v@ == it.seq().take(it.index() as int),
            it.seq() == s@,
    {
        v.push(c);
    }
    v
}

/// Whether `s` begins with `p`.
pub fn starts_with(s: &str, p: &str) -> (r: bool)
    ensures
        r == p@.is_prefix_of(s@),
{
    let mut rest = s.chars();
    let mut want = p.chars();
    let ghost mut k: int = 0;
    loop
        invariant
            rest.obeys_prophetic_iter_laws(),
            want.obeys_prophetic_iter_laws(),
            want.decrease() is Some,
            0 <= k <= s@.len(),
            k <= p@.len(),
            rest.remaining() == s@.skip(k),
            want.remaining() == p@.skip(k),
            forall|i: int| 0 <= i < k ==> s@[i] == p@[i],
        decreases want.decrease()->0,
    {
        match want.next() {
            None => {
                assert(s@.subrange(0, p@.len() as int) =~= p@);
                return true;
            },
            Some(c) => {
                match rest.next() {
                    None => {
                        return false;
                    },
                    Some(d) => {
                        if c != d {
                            proof {
                                if p@.len() <= s@.len() {
                                    assert(s@.subrange(0, p@.len() as int)[k] == s@[k]);
                                }
                            }
                            return false;
                        }
                        proof {
                            assert(s@.skip(k).drop_first() =~= s@.skip(k + 1));
                            assert(p@.skip(k).drop_first() =~= p@.skip(k + 1));
                            k = k + 1;
                        }
                    },
                }
            },
        }
    }
}

/// Whether `path` lies below the directory `dir`: whether it begins with the
/// directory's path and a separator.
pub fn lies_below(path: &str, dir: &str) -> (r: bool)
    ensures
        r == is_below(path@, dir@),
{
    let mut rest = path.chars();
    let mut want = dir.chars();
    let ghost mut k: int = 0;
    let ghost prefix = dir_prefix(dir@);
    loop
        invariant
            rest.obeys_prophetic_iter_laws(),
            want.obeys_prophetic_iter_laws(),
            want.decrease() is Some,
            prefix == dir_prefix(dir@),
            0 <= k <= path@.len(),
            k <= dir@.len(),
            rest.remaining() == path@.skip(k),
            want.remaining() == dir@.skip(k),
            forall|i: int| 0 <= i < k ==> path@[i] == dir@[i],
        decreases want.decrease()->0,
    {
        match want.next() {
            None => {
                match rest.next() {
                    None => {
                        return false;
                    },
                    Some(d) => {
                        proof {
                            if d == SEPARATOR {
                                assert(path@.subrange(0, prefix.len() as int) =~= prefix);
                            } else {
                                if prefix.len() <= path@.len() {
                                    assert(path@.subrange(0, prefix.len() as int)[k] == path@[k]);
                                }
                            }
                        }
                        return d == SEPARATOR;
                    },
                }
            },
            Some(c) => {
                match rest.next() {
                    None => {
                        return false;
                    },
                    Some(d) => {
                        if c != d {
                            proof {
                                if prefix.len() <= path@.len() {
                                    assert(path@.subrange(0, prefix.len() as int)[k] == path@[k]);
                                }
                            }
                            return false;
                        }
                        proof {
                            assert(path@.skip(k).drop_first() =~= path@.skip(k + 1));
                            assert(dir@.skip(k).drop_first() =~= dir@.skip(k + 1));
                            k = k + 1;
                        }
                    },
                }
            },
        }
    }
}

/// Whether `a` comes strictly before `b` in lexicographic order by code
/// point.
pub fn comes_before(a: &str, b: &str) -> (r: bool)
    ensures
        r == precedes(a@, b@),
{
    let mut left = a.chars();
    let mut right = b.chars();
    let ghost mut k: int = 0;
    loop
        invariant
            left.obeys_prophetic_iter_laws(),
            right.obeys_prophetic_iter_laws(),
            right.decrease() is Some,
            0 <= k <= a@.len(),
            k <= b@.len(),
            left.remaining() == a@.skip(k),
            right.remaining() == b@.skip(k),
            forall|i: int| 0 <= i < k ==> a@[i] == b@[i],
        decreases right.decrease()->0,
    {
        match right.next() {
            None => {
                proof {
                    lemma_total_from(a@, b@, k);
                    if precedes(a@, b@) {
                        let j = choose|j: int| precedes_at(a@, b@, j);
                        assert(false);
                    }
                }
                return false;
            },
            Some(d) => {
                match left.next() {
                    None => {
                        assert(precedes_at(a@, b@, k));
                        return true;
                    },
                    Some(c) => {
                        if c != d {
                            let less = c < d;
                            proof {
                                if less {
                                    assert(precedes_at(a@, b@, k));
                                } else {
                                    assert(precedes_at(b@, a@, k));
                                    lemma_precedes_asymmetric(b@, a@);
                                }
                            }
                            return less;
                        }
                        proof {
                            assert(a@.skip(k).drop_first() =~= a@.skip(k + 1));
                            assert(b@.skip(k).drop_first() =~= b@.skip(k + 1));
                            k = k + 1;
                        }
                    },
                }
            },
        }
    }
}

} // verus!
