use vstd::prelude::*;

use crate::tree::DirEntry;

verus! {

pub const NEWLINE: u8 = 10;

/// The lines of `s`: the pieces between newlines, the last one included
/// even where it is empty.
pub open spec fn lines(s: Seq<u8>) -> Seq<Seq<u8>>
    decreases s.len(),
{
    if s.len() == 0 {
        seq![Seq::empty()]
    } else {
        let l = lines(s.drop_last());
        if s.last() == NEWLINE {
            l.push(Seq::empty())
        } else {
            l.update(l.len() - 1, l.last().push(s.last()))
        }
    }
}

proof fn lemma_lines_nonempty(s: Seq<u8>)
    ensures
        lines(s).len() >= 1,
    decreases s.len(),
{
    if s.len() > 0 {
        lemma_lines_nonempty(s.drop_last());
    }
}

/// Splits `s` into its lines (see `lines`).
pub fn split_lines(s: &[u8]) -> (r: Vec<Vec<u8>>)
    ensures
        crate::path::views(r@) == lines(s@),
{
    let mut out: Vec<Vec<u8>> = Vec::new();
    let mut cur: Vec<u8> = Vec::new();
    let mut i: usize = 0;
    assert(s@.subrange(0, 0) =~= Seq::<u8>::empty());
    while i < s.len()
        invariant
            i <= s@.len(),
            crate::path::views(out@).push(cur@) == lines(s@.subrange(0, i as int)),
        decreases s@.len() - i,
    {
        let ghost before = crate::path::views(out@).push(cur@);
        let ghost pre = s@.subrange(0, i as int);
        assert(s@.subrange(0, i + 1).drop_last() =~= pre);
        let b = s[i];
        if b == NEWLINE {
            let c = cur;
            let ghost cv = c@;
            out.push(c);
            cur = Vec::new();
            assert(crate::path::views(out@) =~= crate::path::views(out@.drop_last()).push(cv));
        } else {
            cur.push(b);
        }
        i = i + 1;
        proof {
            lemma_lines_nonempty(pre);
            assert(crate::path::views(out@).push(cur@) =~= lines(s@.subrange(0, i as int)));
        }
    }
    assert(s@.subrange(0, s@.len() as int) =~= s@);
    let ghost vo = crate::path::views(out@);
    let ghost cv = cur@;
    out.push(cur);
    assert(crate::path::views(out@) =~= vo.push(cv));
    out
}

/// The lines of `s` taken two by two, `(source, name)`; `None` where their
/// number is odd.
pub fn pair_lines(s: &[u8]) -> (r: Option<Vec<(Vec<u8>, Vec<u8>)>>)
    ensures
        lines(s@).len() % 2 == 1 ==> r is None,
        lines(s@).len() % 2 == 0 ==> r is Some && r.unwrap()@.len() * 2 == lines(s@).len() && forall|i: int|
            0 <= i < r.unwrap()@.len() ==> (#[trigger] r.unwrap()@[i]).0@ == lines(s@)[2 * i] && r.unwrap()@[i].1@
                == lines(s@)[2 * i + 1],
{
    let mut ls = split_lines(s);
    if ls.len() % 2 == 1 {
        return None;
    }
    let ghost l = lines(s@);
    let n = ls.len();
    let mut out: Vec<(Vec<u8>, Vec<u8>)> = Vec::new();
    let mut i: usize = 0;
    // pairs are taken from the back, then put back in order
    while i < n / 2
        invariant
            n == l.len(),
            n % 2 == 0,
            i <= n / 2,
            ls@.len() == n - 2 * i,
            forall|j: int| 0 <= j < ls@.len() ==> (#[trigger] ls@[j])@ == l[j],
            out@.len() == i,
            forall|j: int| 0 <= j < i ==> (#[trigger] out@[j]).0@ == l[n - 2 * j - 2] && out@[j].1@ == l[n - 2 * j - 1],
        decreases n / 2 - i,
    {
        let name = ls.pop().unwrap();
        let src = ls.pop().unwrap();
        out.push((src, name));
        i = i + 1;
    }
    let mut res: Vec<(Vec<u8>, Vec<u8>)> = Vec::new();
    let m = out.len();
    while out.len() > 0
        invariant
            m == n / 2,
            n == l.len(),
            n % 2 == 0,
            out@.len() + res@.len() == m,
            forall|j: int| 0 <= j < out@.len() ==> (#[trigger] out@[j]).0@ == l[n - 2 * j - 2] && out@[j].1@ == l[n - 2 * j - 1],
            forall|j: int| 0 <= j < res@.len() ==> (#[trigger] res@[j]).0@ == l[2 * j] && res@[j].1@ == l[2 * j + 1],
        decreases out@.len(),
    {
        let ghost k = out@.len() - 1;
        let p = out.pop().unwrap();
        assert(n - 2 * k - 2 == 2 * res@.len());
        res.push(p);
    }
    Some(res)
}

/// Whether an entry with cookie `c` is listed by a read that resumes at
/// `cookie`: every entry when no cookie is given, else those with a cookie
/// no greater than it.
pub open spec fn listed(c: u64, cookie: Option<u64>) -> bool {
    match cookie {
        None => true,
        Some(k) => c <= k,
    }
}

/// The indexes, in order, of the entries of `entries` that a directory
/// read resuming at `cookie` lists.
pub fn listed_entries(entries: &[DirEntry], cookie: Option<u64>) -> (r: Vec<usize>)
    ensures
        forall|j: int| 0 <= j < r@.len() ==> (#[trigger] r@[j]) < entries@.len() && listed(entries@[r@[j] as int].cookie, cookie),
        forall|j: int, k: int| 0 <= j < k < r@.len() ==> r@[j] < r@[k],
        forall|i: int| 0 <= i < entries@.len() && listed(#[trigger] entries@[i].cookie, cookie) ==> r@.contains(i as usize),
{
    let mut r: Vec<usize> = Vec::new();
    let mut i: usize = 0;
    while i < entries.len()
        invariant
            i <= entries@.len(),
            forall|j: int| 0 <= j < r@.len() ==> (#[trigger] r@[j]) < i && listed(entries@[r@[j] as int].cookie, cookie),
            forall|j: int, k: int| 0 <= j < k < r@.len() ==> r@[j] < r@[k],
            forall|x: int| 0 <= x < i && listed(#[trigger] entries@[x].cookie, cookie) ==> r@.contains(x as usize),
        decreases entries@.len() - i,
    {
        let keep = match cookie {
            None => true,
            Some(k) => entries[i].cookie <= k,
        };
        if keep {
            let ghost r0 = r@;
            r.push(i);
            proof {
                assert forall|x: int| 0 <= x < i + 1 && listed(#[trigger] entries@[x].cookie, cookie) implies r@.contains(x as usize) by {
                    if x < i {
                        assert(r0.contains(x as usize));
                        let w = choose|w: int| 0 <= w < r0.len() && r0[w] == x as usize;
                        assert(r@[w] == x as usize);
                    } else {
                        assert(r@[r0.len() as int] == i);
                    }
                }
            }
        }
        i = i + 1;
    }
    r
}

} // verus!
