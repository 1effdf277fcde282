//! Logical paths and object keys.
//!
//! A logical path is a byte string using `/` as separator, with no
//! leading slash; the empty string names the root directory.

use vstd::prelude::*;

verus! {

/// The path separator byte, `'/'`.
pub const SLASH: u8 = 47;

/// A path with every leading `'/'` removed.
pub open spec fn trim_leading_slashes(s: Seq<u8>) -> Seq<u8>
    decreases s.len(),
{
    if s.len() > 0 && s[0] == SLASH {
        trim_leading_slashes(s.skip(1))
    } else {
        s
    }
}

/// The child path `parent/name`, or just `name` under the root.
pub open spec fn spec_join(parent: Seq<u8>, name: Seq<u8>) -> Seq<u8> {
    if parent.len() == 0 {
        name
    } else {
        parent + seq![SLASH] + name
    }
}

/// Build the child path of `name` below `parent`.
pub fn join_path(parent: &Vec<u8>, name: &Vec<u8>) -> (r: Vec<u8>)
    ensures
        r@ == spec_join(parent@, name@),
{
    let mut r: Vec<u8> = Vec::new();
    if parent.len() == 0 {
        let mut i: usize = 0;
        while i < name.len()
            invariant
                i <= name.len(),
                r@ == name@.take(i as int),
            decreases name.len() - i,
        {
            r.push(name[i]);
            i = i + 1;
        }
        assert(r@ == name@.take(name.len() as int));
        assert(name@.take(name.len() as int) == name@);
        r
    } else {
        let mut i: usize = 0;
        while i < parent.len()
            invariant
                i <= parent.len(),
                r@ == parent@.take(i as int),
            decreases parent.len() - i,
        {
            r.push(parent[i]);
            i = i + 1;
        }
        assert(parent@.take(parent.len() as int) == parent@);
        r.push(SLASH);
        let mut j: usize = 0;
        while j < name.len()
            invariant
                j <= name.len(),
                r@ == parent@ + seq![SLASH] + name@.take(j as int),
            decreases name.len() - j,
        {
            r.push(name[j]);
            j = j + 1;
        }
        assert(name@.take(name.len() as int) == name@);
        r
    }
}

/// Decide whether two byte strings are equal.
pub fn bytes_eq(a: &Vec<u8>, b: &Vec<u8>) -> (r: bool)
    ensures
        r <==> a@ == b@,
{
    if a.len() != b.len() {
        return false;
    }
    let mut i: usize = 0;
    while i < a.len()
        invariant
            i <= a.len(),
            a@.len() == b@.len(),
            forall|k: int| 0 <= k < i ==> a@[k] == b@[k],
        decreases a.len() - i,
    {
        if a[i] != b[i] {
            return false;
        }
        i = i + 1;
    }
    proof {
        assert(a@ =~= b@);
    }
    true
}

/// Decide whether `prefix` is a prefix of `a`.
pub fn starts_with(a: &Vec<u8>, prefix: &Vec<u8>) -> (r: bool)
    ensures
        r <==> prefix@.is_prefix_of(a@),
{
    if prefix.len() > a.len() {
        return false;
    }
    let mut i: usize = 0;
    while i < prefix.len()
        invariant
            i <= prefix.len() <= a.len(),
            forall|k: int| 0 <= k < i ==> a@[k] == prefix@[k],
        decreases prefix.len() - i,
    {
        if a[i] != prefix[i] {
            proof {
                assert(!prefix@.is_prefix_of(a@)) by {
                    if prefix@.is_prefix_of(a@) {
                        assert(a@.take(prefix@.len() as int)[i as int] == a@[i as int]);
                    }
                }
            }
            return false;
        }
        i = i + 1;
    }
    proof {
        assert(prefix@ =~= a@.take(prefix@.len() as int));
    }
    true
}

/// Copy a byte string.
pub fn copy_bytes(v: &Vec<u8>) -> (r: Vec<u8>)
    ensures
        r@ == v@,
{
    let mut r: Vec<u8> = Vec::new();
    let mut i: usize = 0;
    while i < v.len()
        invariant
            i <= v.len(),
            r@ == v@.take(i as int),
        decreases v.len() - i,
    {
        r.push(v[i]);
        i = i + 1;
    }
    proof {
        assert(v@.take(v@.len() as int) == v@);
    }
    r
}

/// Strict byte-wise lexicographic order on byte strings: a proper
/// prefix comes first, otherwise the first differing byte decides.
pub open spec fn lex_lt(a: Seq<u8>, b: Seq<u8>) -> bool
    decreases a.len(),
{
    if b.len() == 0 {
        false
    } else if a.len() == 0 {
        true
    } else if a[0] < b[0] {
        true
    } else if a[0] > b[0] {
        false
    } else {
        lex_lt(a.skip(1), b.skip(1))
    }
}

/// The order is total: two distinct byte strings compare one way.
pub proof fn lemma_lex_total(a: Seq<u8>, b: Seq<u8>)
    ensures
        a == b || lex_lt(a, b) || lex_lt(b, a),
    decreases a.len(),
{
    if a.len() == 0 && b.len() == 0 {
        assert(a =~= b);
    } else if a.len() > 0 && b.len() > 0 && a[0] == b[0] {
        lemma_lex_total(a.skip(1), b.skip(1));
        if a.skip(1) == b.skip(1) {
            assert(a.skip(1).len() == a.len() - 1);
            assert(b.skip(1).len() == b.len() - 1);
            assert(a.len() == b.len());
            assert forall|i: int| 0 <= i < a.len() implies a[i] == b[i] by {
                if i >= 1 {
                    assert(a.skip(1)[i - 1] == a[i]);
                    assert(b.skip(1)[i - 1] == b[i]);
                }
            }
            assert(a =~= b);
        }
    }
}

/// The order is transitive.
pub proof fn lemma_lex_trans(a: Seq<u8>, b: Seq<u8>, c: Seq<u8>)
    requires
        lex_lt(a, b),
        lex_lt(b, c),
    ensures
        lex_lt(a, c),
    decreases a.len(),
{
    if a.len() > 0 {
        if a[0] == b[0] && b[0] == c[0] {
            lemma_lex_trans(a.skip(1), b.skip(1), c.skip(1));
        }
    }
}

/// Decide the lexicographic order of two byte strings.
#[verifier::loop_isolation(false)]
pub fn bytes_lt(a: &Vec<u8>, b: &Vec<u8>) -> (r: bool)
    ensures
        r == lex_lt(a@, b@),
{
    let mut i: usize = 0;
    proof {
        assert(a@.skip(0) == a@);
        assert(b@.skip(0) == b@);
    }
    while i < a.len() && i < b.len()
        invariant
            i <= a@.len(),
            i <= b@.len(),
            lex_lt(a@, b@) == lex_lt(a@.skip(i as int), b@.skip(i as int)),
        decreases a@.len() - i,
    {
        proof {
            assert(a@.skip(i as int)[0] == a@[i as int]);
            assert(b@.skip(i as int)[0] == b@[i as int]);
        }
        if a[i] < b[i] {
            return true;
        }
        if a[i] > b[i] {
            return false;
        }
        proof {
            assert(a@.skip(i as int).skip(1) == a@.skip(i as int + 1));
            assert(b@.skip(i as int).skip(1) == b@.skip(i as int + 1));
        }
        i = i + 1;
    }
    proof {
        if i >= b@.len() {
            assert(b@.skip(i as int).len() == 0);
        } else {
            assert(a@.skip(i as int).len() == 0);
            assert(b@.skip(i as int).len() > 0);
        }
    }
    a.len() < b.len()
}

/// The two byte strings, one after the other.
pub fn concat_bytes(a: &Vec<u8>, b: &Vec<u8>) -> (r: Vec<u8>)
    ensures
        r@ == a@ + b@,
{
    let mut r = copy_bytes(a);
    let mut i: usize = 0;
    while i < b.len()
        invariant
            i <= b.len(),
            r@ == a@ + b@.take(i as int),
        decreases b.len() - i,
    {
        r.push(b[i]);
        i = i + 1;
    }
    proof {
        assert(b@.take(b@.len() as int) == b@);
    }
    r
}

/// The index of the last separator in a path, if the path has one.
pub open spec fn last_slash_index(s: Seq<u8>) -> Option<int>
    decreases s.len(),
{
    if s.len() == 0 {
        None
    } else if s[s.len() - 1] == SLASH {
        Some(s.len() - 1)
    } else {
        last_slash_index(s.drop_last())
    }
}

/// The longest strict prefix of a path before its last separator, if the
/// path has a separator at all.
pub open spec fn spec_parent(s: Seq<u8>) -> Option<Seq<u8>> {
    match last_slash_index(s) {
        Some(i) => Some(s.take(i)),
        None => None,
    }
}

/// Split off the parent of a path: everything before the last separator,
/// or nothing when the path has no separator.
pub fn split_parent(path: &Vec<u8>) -> (r: Option<Vec<u8>>)
    ensures
        match r {
            Some(p) => spec_parent(path@) == Some(p@),
            None => spec_parent(path@) is None,
        },
{
    let mut j: usize = path.len();
    proof {
        assert(path@.take(path.len() as int) == path@);
    }
    while j > 0 && path[j - 1] != SLASH
        invariant
            j <= path.len(),
            last_slash_index(path@) == last_slash_index(path@.take(j as int)),
        decreases j,
    {
        proof {
            assert(path@.take(j as int).drop_last() == path@.take(j as int - 1));
        }
        j = j - 1;
    }
    if j == 0 {
        proof {
            assert(path@.take(0).len() == 0);
        }
        return None;
    }
    proof {
        assert(last_slash_index(path@.take(j as int)) == Some(j as int - 1));
    }
    let mut p: Vec<u8> = Vec::new();
    let mut i: usize = 0;
    while i < j - 1
        invariant
            1 <= j <= path.len(),
            i <= j - 1,
            p@ == path@.take(i as int),
        decreases j - i,
    {
        p.push(path[i]);
        i = i + 1;
    }
    Some(p)
}

/// The object key for a logical path: the configured prefix followed by
/// the path with any leading slashes removed.
pub fn object_key(prefix: &Vec<u8>, path: &Vec<u8>) -> (r: Vec<u8>)
    ensures
        r@ == prefix@ + trim_leading_slashes(path@),
{
    let mut start: usize = 0;
    proof {
        assert(path@.skip(0) == path@);
    }
    while start < path.len() && path[start] == SLASH
        invariant
            start <= path.len(),
            trim_leading_slashes(path@) == trim_leading_slashes(path@.skip(start as int)),
        decreases path.len() - start,
    {
        proof {
            assert(path@.skip(start as int).skip(1) == path@.skip(start as int + 1));
        }
        start = start + 1;
    }
    proof {
        if start < path.len() {
            assert(trim_leading_slashes(path@.skip(start as int)) == path@.skip(start as int));
        } else {
            assert(path@.skip(start as int) == Seq::<u8>::empty());
        }
    }
    let mut r: Vec<u8> = Vec::new();
    let mut i: usize = 0;
    while i < prefix.len()
        invariant
            i <= prefix.len(),
            r@ == prefix@.take(i as int),
        decreases prefix.len() - i,
    {
        r.push(prefix[i]);
        i = i + 1;
    }
    assert(prefix@.take(prefix.len() as int) == prefix@);
    let mut j: usize = start;
    while j < path.len()
        invariant
            start <= j <= path.len(),
            r@ == prefix@ + path@.skip(start as int).take(j - start as int),
        decreases path.len() - j,
    {
        r.push(path[j]);
        j = j + 1;
    }
    proof {
        assert(path@.skip(start as int).take(path@.len() - start as int) == path@.skip(
            start as int,
        ));
    }
    r
}

} // verus!
