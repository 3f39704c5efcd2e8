use crate::text::{appended, chars_of};
use vstd::prelude::*;
use vstd::string::*;

verus! {

/// Whether `p` starts at the root.
pub open spec fn is_rooted(p: Seq<char>) -> bool {
    p.len() > 0 && p[0] == '/'
}

/// `rel` resolved against `base`, both written with `/` between components:
/// a `rel` that starts at the root stands alone, and otherwise it follows
/// `base`, with one `/` put between them unless `base` is empty or already
/// ends in one.
pub open spec fn joined_path(base: Seq<char>, rel: Seq<char>) -> Seq<char> {
    if is_rooted(rel) {
        rel
    } else if base.len() == 0 || base.last() == '/' {
        base + rel
    } else {
        base + seq!['/'] + rel
    }
}

/// Resolves `rel` against `base`.
pub fn join_path(base: &str, rel: &str) -> (r: String)
    ensures
        r@ == joined_path(base@, rel@),
{
    let bc = chars_of(base);
    let rc = chars_of(rel);
    if rc.len() > 0 && rc[0] == '/' {
        String::from_str(rel)
    } else if bc.len() == 0 || bc[bc.len() - 1] == '/' {
        appended(base, rel)
    } else {
        proof {
            reveal_strlit("/");
            assert("/"@ =~= seq!['/']);
        }
        let with_sep = appended(base, "/");
        appended(with_sep.as_str(), rel)
    }
}

/// Below one directory, different relative paths stay apart: what is
/// resolved against the same base comes out equal only where it went in
/// equal.
pub proof fn lemma_joined_apart(base: Seq<char>, a: Seq<char>, b: Seq<char>)
    requires
        !is_rooted(a),
        !is_rooted(b),
        joined_path(base, a) == joined_path(base, b),
    ensures
        a == b,
{
    let stem = if base.len() == 0 || base.last() == '/' {
        base
    } else {
        base + seq!['/']
    };
    assert(joined_path(base, a) =~= stem + a);
    assert(joined_path(base, b) =~= stem + b);
    assert((stem + a).skip(stem.len() as int) =~= a);
    assert((stem + b).skip(stem.len() as int) =~= b);
}

/// The position of the last `/` in `p`, or -1 where it has none.
pub open spec fn last_slash(p: Seq<char>) -> int
    decreases p.len(),
{
    if p.len() == 0 {
        -1
    } else if p.last() == '/' {
        p.len() - 1
    } else {
        last_slash(p.drop_last())
    }
}

/// The directory that holds `p`: what stands before the last `/`. A path
/// without `/` lies in the empty (current) directory, and one whose only `/`
/// is the leading one lies in the root.
pub open spec fn parent_of(p: Seq<char>) -> Seq<char> {
    let k = last_slash(p);
    if k < 0 {
        Seq::empty()
    } else if k == 0 {
        p.take(1)
    } else {
        p.take(k)
    }
}

proof fn lemma_last_slash_skip(p: Seq<char>, k: int)
    requires
        0 <= k <= p.len(),
        forall|j: int| k <= j < p.len() ==> p[j] != '/',
    ensures
        last_slash(p) == last_slash(p.take(k)),
    decreases p.len() - k,
{
    if k < p.len() {
        assert(p.drop_last().take(k) =~= p.take(k));
        lemma_last_slash_skip(p.drop_last(), k);
    } else {
        assert(p.take(k) =~= p);
    }
}

/// The directory that holds `path`.
pub fn parent_dir(path: &str) -> (r: String)
    ensures
        r@ == parent_of(path@),
{
    let pc = chars_of(path);
    let mut k: usize = pc.len();
    while k > 0 && pc[k - 1] != '/'
        invariant
            pc@ == path@,
            k <= pc.len(),
            forall|j: int| k <= j < pc.len() ==> pc@[j] != '/',
        decreases k,
    {
        k = k - 1;
    }
    proof {
        lemma_last_slash_skip(path@, k as int);
        if k > 0 {
            assert(path@.take(k as int).last() == '/');
        }
    }
    if k == 0 {
        String::new()
    } else if k == 1 {
        String::from_str(path.substring_char(0, 1))
    } else {
        String::from_str(path.substring_char(0, k - 1))
    }
}

/// Whether directory `dir` is `root` itself or lies below it.
pub open spec fn is_under(dir: Seq<char>, root: Seq<char>) -> bool {
    dir == root || (root + seq!['/']).is_prefix_of(dir)
}

/// Whether directory `dir` is `root` itself or lies below it.
pub fn lies_under(dir: &str, root: &str) -> (r: bool)
    ensures
        r == is_under(dir@, root@),
{
    let dc = chars_of(dir);
    let rc = chars_of(root);
    if dc.len() < rc.len() {
        assert(dir@.len() != root@.len());
        return false;
    }
    let mut i: usize = 0;
    while i < rc.len()
        invariant
            dc@ == dir@,
            rc@ == root@,
            rc.len() <= dc.len(),
            i <= rc.len(),
            dir@.subrange(0, i as int) == root@.subrange(0, i as int),
        decreases rc.len() - i,
    {
        if dc[i] != rc[i] {
            assert(dir@[i as int] != root@[i as int]);
            assert((root@ + seq!['/'])[i as int] == root@[i as int]);
            proof {
                if dir@.len() > root@.len() {
                    assert(dir@.subrange(0, (root@.len() + 1) as int)[i as int] == dir@[i as int]);
                }
            }
            return false;
        }
        assert(dir@.subrange(0, i + 1) =~= dir@.subrange(0, i as int).push(dir@[i as int]));
        assert(root@.subrange(0, i + 1) =~= root@.subrange(0, i as int).push(root@[i as int]));
        i = i + 1;
    }
    assert(root@.subrange(0, i as int) =~= root@);
    if dc.len() == rc.len() {
        assert(dir@.subrange(0, i as int) =~= dir@);
        true
    } else {
        let ghost with_sep = root@ + seq!['/'];
        if dc[rc.len()] == '/' {
            assert(dir@.subrange(0, with_sep.len() as int) =~= with_sep);
            true
        } else {
            assert(dir@.subrange(0, with_sep.len() as int)[root@.len() as int] != with_sep[root@.len() as int]);
            false
        }
    }
}

/// The manifest file of the directory `dir`.
pub open spec fn manifest_of(dir: Seq<char>) -> Seq<char> {
    joined_path(dir, "BUILD"@)
}

/// The manifest file of the directory `dir`.
pub fn manifest_path(dir: &str) -> (path: String)
    ensures
        path@ == manifest_of(dir@),
{
    join_path(dir, "BUILD")
}

/// The pattern that matches the manifest files in and below the directory
/// `library`.
pub fn manifest_pattern(library: &str) -> (pattern: String)
    ensures
        pattern@ == library@ + "/**/BUILD"@,
{
    appended(library, "/**/BUILD")
}

/// The pattern that matches everything in and below the directory `dir`.
pub fn subtree_pattern(dir: &str) -> (pattern: String)
    ensures
        pattern@ == dir@ + "/**"@,
{
    appended(dir, "/**")
}

} // verus!
