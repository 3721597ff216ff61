use vstd::prelude::*;

use crate::errno::Errno;

verus! {

pub const SLASH: u8 = 47;

pub const DOT: u8 = 46;

pub const TILDE: u8 = 126;

/// The byte views of a list of byte vectors.
pub open spec fn views(v: Seq<Vec<u8>>) -> Seq<Seq<u8>> {
    v.map_values(|x: Vec<u8>| x@)
}

/// `p` without its leading `~/~/` prefixes.
pub open spec fn strip_home(p: Seq<u8>) -> Seq<u8>
    decreases p.len(),
{
    if p.len() >= 4 && p[0] == TILDE && p[1] == SLASH && p[2] == TILDE && p[3] == SLASH {
        strip_home(p.subrange(4, p.len() as int))
    } else {
        p
    }
}

/// The path to normalize: a path rooted at `~` stands alone, any other is
/// read relative to the current directory `cwd`.
pub open spec fn full_path(cwd: Seq<u8>, p: Seq<u8>) -> Seq<u8> {
    let q = strip_home(p);
    if q.len() > 0 && q[0] == TILDE {
        q
    } else {
        cwd + seq![SLASH] + q
    }
}

/// Adds one component to the resolved components: `..` drops the last one
/// (`None` when there is none: no escape above the root), an empty
/// component, `.` and `~` are skipped, any other is appended.
pub open spec fn apply_comp(res: Option<Seq<Seq<u8>>>, c: Seq<u8>) -> Option<Seq<Seq<u8>>> {
    match res {
        None => None,
        Some(r) => if c == seq![DOT, DOT] {
            if r.len() == 0 {
                None
            } else {
                Some(r.drop_last())
            }
        } else if c.len() == 0 || c == seq![DOT] || c == seq![TILDE] {
            Some(r)
        } else {
            Some(r.push(c))
        },
    }
}

/// The state after reading the first `n` bytes of `s`: the components
/// resolved so far, and the component being read.
pub open spec fn scan(s: Seq<u8>, n: nat) -> (Option<Seq<Seq<u8>>>, Seq<u8>)
    decreases n,
{
    if n == 0 || n > s.len() {
        (Some(Seq::empty()), Seq::empty())
    } else {
        let (r, c) = scan(s, (n - 1) as nat);
        if s[n - 1] == SLASH {
            (apply_comp(r, c), Seq::empty())
        } else {
            (r, c.push(s[n - 1]))
        }
    }
}

/// The components of `s` once `.`, `..`, `~` and empty components are
/// resolved; `None` where `..` would climb above the root.
pub open spec fn normalize(s: Seq<u8>) -> Option<Seq<Seq<u8>>> {
    let (r, c) = scan(s, s.len());
    apply_comp(r, c)
}

/// The components that `path` designates with `cwd` as current directory.
pub open spec fn resolved(cwd: Seq<u8>, path: Seq<u8>) -> Option<Seq<Seq<u8>>> {
    normalize(full_path(cwd, path))
}

proof fn lemma_scan_failed_stays(s: Seq<u8>, i: nat, n: nat)
    requires
        i <= n <= s.len(),
        scan(s, i).0 is None,
    ensures
        scan(s, n).0 is None,
    decreases n - i,
{
    if i < n {
        lemma_scan_failed_stays(s, i, (n - 1) as nat);
    }
}

fn is_bytes2(c: &Vec<u8>, a: u8, b: u8) -> (r: bool)
    ensures
        r == (c@ == seq![a, b]),
{
    if c.len() == 2 && c[0] == a && c[1] == b {
        assert(c@ =~= seq![a, b]);
        true
    } else {
        false
    }
}

fn is_byte1(c: &Vec<u8>, a: u8) -> (r: bool)
    ensures
        r == (c@ == seq![a]),
{
    if c.len() == 1 && c[0] == a {
        assert(c@ =~= seq![a]);
        true
    } else {
        false
    }
}

/// Adds the component `c` to `parts`, as `apply_comp` says; `false` where
/// it is a `..` with nothing to drop.
fn push_comp(parts: &mut Vec<Vec<u8>>, c: Vec<u8>) -> (ok: bool)
    ensures
        ok == apply_comp(Some(views(old(parts)@)), c@) is Some,
        ok ==> Some(views(final(parts)@)) == apply_comp(Some(views(old(parts)@)), c@),
{
    if is_bytes2(&c, DOT, DOT) {
        if parts.len() == 0 {
            return false;
        }
        parts.pop();
        assert(views(parts@) =~= views(old(parts)@).drop_last());
        true
    } else if c.len() == 0 || is_byte1(&c, DOT) || is_byte1(&c, TILDE) {
        true
    } else {
        let ghost c0 = c@;
        parts.push(c);
        assert(views(parts@) =~= views(old(parts)@).push(c0));
        true
    }
}

/// Index of the first byte after the leading `~/~/` prefixes of `p`.
fn home_stripped_start(p: &[u8]) -> (start: usize)
    ensures
        start <= p@.len(),
        strip_home(p@) == p@.subrange(start as int, p@.len() as int),
{
    let mut start: usize = 0;
    assert(p@ =~= p@.subrange(0, p@.len() as int));
    while p.len() >= 4 && start <= p.len() - 4 && p[start] == TILDE && p[start + 1] == SLASH && p[start + 2]
        == TILDE && p[start + 3] == SLASH
        invariant
            start <= p@.len(),
            strip_home(p@) == strip_home(p@.subrange(start as int, p@.len() as int)),
        decreases p@.len() - start,
    {
        let ghost q = p@.subrange(start as int, p@.len() as int);
        assert(q.subrange(4, q.len() as int) =~= p@.subrange(start + 4, p@.len() as int));
        start = start + 4;
    }
    start
}

/// The path that `path` designates with `cwd` as current directory, as a
/// list of components: `.` and empty components dropped, `..` applied, a
/// path rooted at `~` read from the root. `Notcapable` where `..` would
/// climb above the root.
pub fn resolve_path(cwd: &[u8], path: &[u8]) -> (r: Result<Vec<Vec<u8>>, Errno>)
    ensures
        match resolved(cwd@, path@) {
            None => r == Err::<Vec<Vec<u8>>, Errno>(Errno::Notcapable),
            Some(c) => r is Ok && views(r.unwrap()@) == c,
        },
{
    let start = home_stripped_start(path);
    let mut full: Vec<u8> = Vec::new();
    if !(start < path.len() && path[start] == TILDE) {
        let mut k: usize = 0;
        while k < cwd.len()
            invariant
                k <= cwd@.len(),
                full@ == cwd@.subrange(0, k as int),
            decreases cwd@.len() - k,
        {
            full.push(cwd[k]);
            k = k + 1;
            assert(full@ =~= cwd@.subrange(0, k as int));
        }
        full.push(SLASH);
    }
    let ghost pre = full@;
    let mut k: usize = start;
    while k < path.len()
        invariant
            start <= k <= path@.len(),
            full@ == pre + path@.subrange(start as int, k as int),
        decreases path@.len() - k,
    {
        full.push(path[k]);
        k = k + 1;
        assert(full@ =~= pre + path@.subrange(start as int, k as int));
    }
    assert(full@ =~= full_path(cwd@, path@));
    let mut parts: Vec<Vec<u8>> = Vec::new();
    let mut cur: Vec<u8> = Vec::new();
    let mut i: usize = 0;
    assert(views(parts@) =~= Seq::<Seq<u8>>::empty());
    while i < full.len()
        invariant
            i <= full@.len(),
            full@ == full_path(cwd@, path@),
            scan(full@, i as nat) == (Some(views(parts@)), cur@),
        decreases full@.len() - i,
    {
        let b = full[i];
        if b == SLASH {
            let c = cur;
            cur = Vec::new();
            let ghost c0 = c@;
            let ghost p0 = views(parts@);
            if !push_comp(&mut parts, c) {
                proof {
                    assert(scan(full@, (i + 1) as nat) == (apply_comp(Some(p0), c0), Seq::<u8>::empty()));
                    lemma_scan_failed_stays(full@, (i + 1) as nat, full@.len());
                    assert(normalize(full@) is None);
                }
                return Err(Errno::Notcapable);
            }
        } else {
            cur.push(b);
        }
        i = i + 1;
    }
    if !push_comp(&mut parts, cur) {
        return Err(Errno::Notcapable);
    }
    Ok(parts)
}

} // verus!
