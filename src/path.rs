//! Paths as text: joining, making a path relative to the filesystem root,
//! and mapping a stored file back to its original place.
use vstd::prelude::*;

verus! {

/// Appends `part` to `base` as a path does: an absolute `part` replaces
/// `base`, and one separator stands between the two.
pub open spec fn join_path(base: Seq<char>, part: Seq<char>) -> Seq<char> {
    if part.len() > 0 && part[0] == '/' {
        part
    } else if base.len() == 0 || base.last() == '/' {
        base + part
    } else {
        base + seq!['/'] + part
    }
}

/// The path with its leading separators removed.
pub open spec fn strip_root(p: Seq<char>) -> Seq<char>
    decreases p.len(),
{
    if p.len() > 0 && p[0] == '/' {
        strip_root(p.drop_first())
    } else {
        p
    }
}

/// The last component of a path: what follows its last separator.
pub open spec fn base_name(p: Seq<char>) -> Seq<char>
    decreases p.len(),
{
    if p.len() == 0 || p.last() == '/' {
        Seq::empty()
    } else {
        base_name(p.drop_last()).push(p.last())
    }
}

/// Where a file found at `walked` inside the directory `dir` goes back to:
/// its path below `dir`, taken from the filesystem root.
pub open spec fn restore_target(dir: Seq<char>, walked: Seq<char>) -> Option<Seq<char>> {
    if walked.len() > dir.len() + 1 && walked.subrange(0, dir.len() as int) == dir
        && walked[dir.len() as int] == '/' {
        Some(walked.subrange(dir.len() as int, walked.len() as int))
    } else {
        None
    }
}

/// Joins two paths.
pub fn join(base: &str, part: &str) -> (r: String)
    ensures
        r@ == join_path(base@, part@),
{
    let pn = part.unicode_len();
    if pn > 0 && part.get_char(0) == '/' {
        return String::from_str(part);
    }
    let bn = base.unicode_len();
    let mut out = String::from_str(base);
    if !(bn == 0 || base.get_char(bn - 1) == '/') {
        proof { reveal_strlit("/"); }
        out.append("/");
    }
    out.append(part);
    out
}

/// Removes the leading separators of a path.
pub fn strip_root_of(p: &str) -> (r: String)
    ensures
        r@ == strip_root(p@),
{
    let n = p.unicode_len();
    let mut i: usize = 0;
    assert(p@.subrange(0, n as int) =~= p@);
    while i < n && p.get_char(i) == '/'
        invariant
            i <= n,
            n == p@.len(),
            strip_root(p@) == strip_root(p@.subrange(i as int, n as int)),
        decreases n - i,
    {
        proof {
            let rest = p@.subrange(i as int, n as int);
            assert(rest.drop_first() =~= p@.subrange(i + 1, n as int));
        }
        i = i + 1;
    }
    let r = String::from_str(p.substring_char(i, n));
    proof {
        let rest = p@.subrange(i as int, n as int);
        assert(rest =~= r@);
        assert(strip_root(rest) == rest);
    }
    r
}

/// The last component of a path.
pub fn base_name_of(p: &str) -> (r: String)
    ensures
        r@ == base_name(p@),
{
    let n = p.unicode_len();
    let mut i: usize = n;
    assert(p@.subrange(0, n as int) =~= p@);
    assert(p@.subrange(n as int, n as int) =~= Seq::<char>::empty());
    assert(p@ + Seq::<char>::empty() =~= p@);
    while i > 0 && p.get_char(i - 1) != '/'
        invariant
            i <= n,
            n == p@.len(),
            base_name(p@) == base_name(p@.subrange(0, i as int)) + p@.subrange(i as int, n as int),
        decreases i,
    {
        proof {
            let pre = p@.subrange(0, i as int);
            assert(pre.drop_last() =~= p@.subrange(0, i - 1));
            assert(p@.subrange(i - 1, n as int) =~= seq![pre.last()] + p@.subrange(i as int, n as int));
            assert(base_name(pre) == base_name(pre.drop_last()).push(pre.last()));
            assert(base_name(pre.drop_last()).push(pre.last()) + p@.subrange(i as int, n as int)
                =~= base_name(pre.drop_last()) + p@.subrange(i - 1, n as int));
        }
        i = i - 1;
    }
    proof {
        assert(base_name(p@.subrange(0, i as int)) =~= Seq::<char>::empty());
        assert(Seq::<char>::empty() + p@.subrange(i as int, n as int) =~= p@.subrange(i as int, n as int));
    }
    String::from_str(p.substring_char(i, n))
}

/// Where a file found at `walked` inside `dir` is restored to, or `None`
/// where `walked` does not lie below `dir`.
pub fn restore_path(dir: &str, walked: &str) -> (r: Option<String>)
    ensures
        r matches Some(t) ==> restore_target(dir@, walked@) == Some(t@),
        r is None ==> restore_target(dir@, walked@) is None,
{
    let dn = dir.unicode_len();
    let wn = walked.unicode_len();
    if wn <= dn || wn - dn < 2 {
        return None;
    }
    let mut i: usize = 0;
    while i < dn
        invariant
            i <= dn < wn,
            dn == dir@.len(),
            wn == walked@.len(),
            forall|k: int| 0 <= k < i ==> walked@[k] == dir@[k],
        decreases dn - i,
    {
        if walked.get_char(i) != dir.get_char(i) {
            proof {
                assert(walked@.subrange(0, dn as int)[i as int] != dir@[i as int]);
            }
            return None;
        }
        i = i + 1;
    }
    assert(walked@.subrange(0, dn as int) =~= dir@);
    if walked.get_char(dn) != '/' {
        return None;
    }
    Some(String::from_str(walked.substring_char(dn, wn)))
}

} // verus!
