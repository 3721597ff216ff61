use vstd::prelude::*;

use crate::body::{grow_to, resized, zeros, RegularFile};
use crate::errno::Filetype;
use crate::tree::{
    dir_key_at, entry_moved, file_added, find_from, has_bucket, locate, lookup_in, parent_of,
    DirEntries, DirEntry, Table,
};

verus! {

/// Every directory entry of a well-formed table names a children list that
/// the table holds.
pub proof fn lemma_entry_lists_exist(ents: &DirEntries, k: int, i: int)
    requires
        ents.wf(),
        has_bucket(ents.tbl(), k),
        0 <= i < ents.bucket(k).len(),
        ents.bucket(k)[i].entries is Some,
    ensures
        has_bucket(ents.tbl(), ents.bucket(k)[i].entries.unwrap() as int),
{
    assert(ents.entry_ok(ents.bucket(k)[i]));
}

/// Within one directory, cookies increase strictly in the order of the
/// entries.
pub proof fn lemma_cookies_increase(ents: &DirEntries, k: int, i: int, j: int)
    requires
        ents.wf(),
        has_bucket(ents.tbl(), k),
        0 <= i < j < ents.bucket(k).len(),
    ensures
        ents.bucket(k)[i].cookie < ents.bucket(k)[j].cookie,
{
    assert(crate::tree::cookies_increase_in(ents.tbl()));
}

/// Promotion happens once: an inline body stays as it is, whatever the host
/// would deliver, so a second write finds the buffer the first one left.
pub proof fn lemma_promotion_idempotent(f: RegularFile, fetched: Option<Vec<u8>>)
    requires
        f.bytes() is Some,
    ensures
        f.promoted(fetched) == f.bytes(),
{
}

/// Truncating to 0 leaves an empty body.
pub proof fn lemma_truncate_to_zero(b: Seq<u8>)
    ensures
        resized(b, 0) == Seq::<u8>::empty(),
{
    assert(resized(b, 0) =~= Seq::<u8>::empty());
}

/// Allocating up to `end` gives a body of `max(size, end)` bytes that keeps
/// the old bytes and is zero past them.
pub proof fn lemma_allocate_grows(b: Seq<u8>, end: nat)
    ensures
        grow_to(b, end).len() == if end > b.len() { end } else { b.len() },
        grow_to(b, end).subrange(0, b.len() as int) == b,
        forall|i: int| b.len() <= i < grow_to(b, end).len() ==> grow_to(b, end)[i] == 0u8,
{
    if end > b.len() {
        assert(grow_to(b, end).subrange(0, b.len() as int) =~= b);
    } else {
        assert(grow_to(b, end).subrange(0, b.len() as int) =~= b);
    }
}

proof fn lemma_find_push_other(b: Seq<DirEntry>, e: DirEntry, name: Seq<u8>, i: int)
    requires
        0 <= i <= b.len(),
    ensures
        find_from(b, name, i) is Some ==> find_from(b.push(e), name, i) == find_from(b, name, i),
        find_from(b, name, i) is None ==> find_from(b.push(e), name, i) == (if e.name@ == name {
            Some(b.len() as int)
        } else {
            None
        }),
    decreases b.len() - i,
{
    if i < b.len() {
        assert(b.push(e)[i] == b[i]);
        lemma_find_push_other(b, e, name, i + 1);
    } else {
        assert(b.push(e)[i] == e);
        if e.name@ != name {
            assert(find_from(b.push(e), name, i + 1) is None);
        }
    }
}

/// Adding a regular file to a list does not change where any walk through
/// directories leads.
proof fn lemma_walk_ignores_file(t: Table, p: int, e: DirEntry, key: int, comps: Seq<Seq<u8>>)
    requires
        has_bucket(t, p),
        e.entries is None,
    ensures
        dir_key_at(t.update(p, Some(t[p].unwrap().push(e))), key, comps) == dir_key_at(t, key, comps),
    decreases comps.len(),
{
    let t2 = t.update(p, Some(t[p].unwrap().push(e)));
    if comps.len() > 0 {
        if key == p {
            lemma_find_push_other(t[p].unwrap(), e, comps[0], 0);
            match lookup_in(t, key, comps[0]) {
                Some(i) => {
                    crate::tree::lemma_find_from_public(t[p].unwrap(), comps[0], 0);
                    assert(t2[key].unwrap()[i] == t[key].unwrap()[i]);
                },
                None => {},
            }
        }
        match lookup_in(t, key, comps[0]) {
            Some(i) => {
                match t[key].unwrap()[i].entries {
                    Some(k) => {
                        lemma_walk_ignores_file(t, p, e, k as int, comps.drop_first());
                    },
                    None => {},
                }
            },
            None => {},
        }
    }
}

/// After `write_file` has added a regular file at the path `comps`, that
/// path leads to it: `open` then finds the new entry, whose body is the one
/// written.
pub proof fn lemma_written_file_found(a: &DirEntries, b: &DirEntries, root: int, comps: Seq<Seq<u8>>)
    requires
        a.wf(),
        has_bucket(a.tbl(), root),
        comps.len() > 0,
        locate(a.tbl(), root, comps) is None,
        parent_of(a.tbl(), root, comps) is Some,
        file_added(a, b, parent_of(a.tbl(), root, comps).unwrap(), comps.last()),
    ensures
        ({
            let p = parent_of(a.tbl(), root, comps).unwrap();
            &&& locate(b.tbl(), root, comps) == Some((p, a.bucket(p).len() as int))
            &&& b.bucket(p)[a.bucket(p).len() as int].file == a.files@.len()
            &&& b.bucket(p)[a.bucket(p).len() as int].filetype == Filetype::RegularFile
        }),
{
    let p = parent_of(a.tbl(), root, comps).unwrap();
    let e = b.bucket(p).last();
    crate::tree::lemma_dir_key_has_bucket(*a, root, comps.drop_last());
    lemma_walk_ignores_file(a.tbl(), p, e, root, comps.drop_last());
    lemma_find_push_other(a.bucket(p), e, comps.last(), 0);
    assert(b.bucket(p) == a.bucket(p).push(e));
    assert(lookup_in(a.tbl(), p, comps.last()) is None);
    assert(lookup_in(b.tbl(), p, comps.last()) == Some(a.bucket(p).len() as int));
}

/// Every entry of `t` that names a list names one that `t` holds.
pub open spec fn lists_named_exist(t: Table) -> bool {
    forall|k: int, i: int|
        has_bucket(t, k) && 0 <= i < t[k].unwrap().len() && (#[trigger] t[k].unwrap()[i]).entries is Some
            ==> has_bucket(t, t[k].unwrap()[i].entries.unwrap() as int)
}

proof fn lemma_walk_lands(t: Table, key: int, comps: Seq<Seq<u8>>)
    requires
        lists_named_exist(t),
        has_bucket(t, key),
    ensures
        dir_key_at(t, key, comps) matches Some(k) ==> has_bucket(t, k),
    decreases comps.len(),
{
    if comps.len() > 0 {
        match lookup_in(t, key, comps[0]) {
            Some(i) => {
                crate::tree::lemma_find_from_public(t[key].unwrap(), comps[0], 0);
                match t[key].unwrap()[i].entries {
                    Some(k) => lemma_walk_lands(t, k as int, comps.drop_first()),
                    None => {},
                }
            },
            None => {},
        }
    }
}

/// After `rename` has moved a regular file to the path `to`, where its new
/// directory held no entry of that name, `to` leads to the moved entry.
pub proof fn lemma_renamed_file_found(
    a: &DirEntries,
    b: &DirEntries,
    root: int,
    p: int,
    i: int,
    q: int,
    to: Seq<Seq<u8>>,
)
    requires
        a.wf(),
        has_bucket(a.tbl(), root),
        has_bucket(a.tbl(), p),
        0 <= i < a.bucket(p).len(),
        a.bucket(p)[i].entries is None,
        to.len() > 0,
        dir_key_at(a.tbl().update(p, Some(a.bucket(p).remove(i))), root, to.drop_last()) == Some(q),
        lookup_in(a.tbl().update(p, Some(a.bucket(p).remove(i))), q, to.last()) is None,
        entry_moved(a, b, a.tbl().update(p, Some(a.bucket(p).remove(i))), q, a.bucket(p)[i], to.last()),
    ensures
        ({
            let t1 = a.tbl().update(p, Some(a.bucket(p).remove(i)));
            &&& locate(b.tbl(), root, to) == Some((q, t1[q].unwrap().len() as int))
            &&& b.bucket(q)[t1[q].unwrap().len() as int].file == a.bucket(p)[i].file
            &&& b.bucket(q)[t1[q].unwrap().len() as int].name@ == to.last()
        }),
{
    let ta = a.tbl();
    let t1 = ta.update(p, Some(a.bucket(p).remove(i)));
    assert forall|k: int, j: int|
        has_bucket(t1, k) && 0 <= j < t1[k].unwrap().len() && (#[trigger] t1[k].unwrap()[j]).entries is Some
            implies has_bucket(t1, t1[k].unwrap()[j].entries.unwrap() as int) by {
        let j0 = if k == p && j >= i { j + 1 } else { j };
        assert(t1[k].unwrap()[j] == ta[k].unwrap()[j0]);
        assert(a.entry_ok(a.bucket(k)[j0]));
    }
    lemma_walk_lands(t1, root, to.drop_last());
    let m = b.bucket(q).last();
    lemma_walk_ignores_file(t1, q, m, root, to.drop_last());
    lemma_find_push_other(t1[q].unwrap(), m, to.last(), 0);
    assert(b.bucket(q) == t1[q].unwrap().push(m));
}

proof fn lemma_find_first(b: Seq<DirEntry>, name: Seq<u8>, i: int, j: int)
    requires
        0 <= i <= j < b.len(),
        b[j].name@ == name,
        forall|m: int| i <= m < j ==> (#[trigger] b[m]).name@ != name,
    ensures
        find_from(b, name, i) == Some(j),
    decreases j - i,
{
    if i < j {
        lemma_find_first(b, name, i + 1, j);
    }
}

proof fn lemma_find_none(b: Seq<DirEntry>, name: Seq<u8>, i: int)
    requires
        0 <= i <= b.len(),
        forall|m: int| i <= m < b.len() ==> (#[trigger] b[m]).name@ != name,
    ensures
        find_from(b, name, i) is None,
    decreases b.len() - i,
{
    if i < b.len() {
        lemma_find_none(b, name, i + 1);
    }
}

/// Taking out entry `i`, whose name no other entry of `b` has: a lookup of
/// another name finds the same entry, a lookup of that name finds nothing.
proof fn lemma_find_after_remove(b: Seq<DirEntry>, i: int, name: Seq<u8>)
    requires
        0 <= i < b.len(),
        forall|m: int| 0 <= m < b.len() && m != i ==> (#[trigger] b[m]).name@ != b[i].name@,
    ensures
        name == b[i].name@ ==> find_from(b.remove(i), name, 0) is None,
        name != b[i].name@ ==> match find_from(b, name, 0) {
            Some(j) => find_from(b.remove(i), name, 0) == Some(if j < i { j } else { j - 1 }),
            None => find_from(b.remove(i), name, 0) is None,
        },
{
    let r = b.remove(i);
    crate::tree::lemma_find_from_public(b, name, 0);
    if name == b[i].name@ {
        assert forall|m: int| 0 <= m < r.len() implies (#[trigger] r[m]).name@ != name by {
            if m < i {
                assert(r[m] == b[m]);
            } else {
                assert(r[m] == b[m + 1]);
            }
        }
        lemma_find_none(r, name, 0);
    } else {
        match find_from(b, name, 0) {
            Some(j) => {
                lemma_find_from_all(b, name);
                let j2 = if j < i { j } else { j - 1 };
                assert(r[j2] == b[j]);
                assert forall|m: int| 0 <= m < j2 implies (#[trigger] r[m]).name@ != name by {
                    if m < i {
                        assert(r[m] == b[m]);
                    } else {
                        assert(r[m] == b[m + 1]);
                    }
                }
                lemma_find_first(r, name, 0, j2);
            },
            None => {
                lemma_find_from_all(b, name);
                assert forall|m: int| 0 <= m < r.len() implies (#[trigger] r[m]).name@ != name by {
                    if m < i {
                        assert(r[m] == b[m]);
                    } else {
                        assert(r[m] == b[m + 1]);
                    }
                }
                lemma_find_none(r, name, 0);
            },
        }
    }
}

proof fn lemma_find_from_all(b: Seq<DirEntry>, name: Seq<u8>)
    ensures
        match find_from(b, name, 0) {
            Some(j) => 0 <= j < b.len() && b[j].name@ == name && forall|m: int| 0 <= m < j ==> (#[trigger] b[m]).name@ != name,
            None => forall|m: int| 0 <= m < b.len() ==> (#[trigger] b[m]).name@ != name,
        },
{
    crate::tree::lemma_find_from_all_public(b, name);
}

/// Taking a regular file whose name is unique in its list out of the table
/// does not change where any walk through directories leads.
proof fn lemma_walk_ignores_removal(t: Table, p: int, i: int, key: int, comps: Seq<Seq<u8>>)
    requires
        has_bucket(t, p),
        0 <= i < t[p].unwrap().len(),
        t[p].unwrap()[i].entries is None,
        forall|m: int| 0 <= m < t[p].unwrap().len() && m != i ==> (#[trigger] t[p].unwrap()[m]).name@ != t[p].unwrap()[i].name@,
    ensures
        dir_key_at(t.update(p, Some(t[p].unwrap().remove(i))), key, comps) == dir_key_at(t, key, comps),
    decreases comps.len(),
{
    let t2 = t.update(p, Some(t[p].unwrap().remove(i)));
    if comps.len() > 0 {
        let b = t[p].unwrap();
        if key == p {
            lemma_find_after_remove(b, i, comps[0]);
            if comps[0] != b[i].name@ {
                match find_from(b, comps[0], 0) {
                    Some(j) => {
                        lemma_find_from_all(b, comps[0]);
                        let j2 = if j < i { j } else { j - 1 };
                        assert(t2[key].unwrap()[j2] == b[j]);
                    },
                    None => {},
                }
            } else {
                lemma_find_from_all(b, comps[0]);
            }
        }
        match lookup_in(t, key, comps[0]) {
            Some(j) => match t[key].unwrap()[j].entries {
                Some(k) => {
                    lemma_walk_ignores_removal(t, p, i, k as int, comps.drop_first());
                },
                None => {},
            },
            None => {},
        }
    }
}

/// After `rename` has moved a regular file whose name is unique in its
/// directory to another path, the old path leads nowhere.
pub proof fn lemma_renamed_file_gone(
    a: &DirEntries,
    b: &DirEntries,
    root: int,
    from: Seq<Seq<u8>>,
    p: int,
    i: int,
    q: int,
    to: Seq<Seq<u8>>,
)
    requires
        a.wf(),
        has_bucket(a.tbl(), root),
        from.len() > 0,
        to.len() > 0,
        locate(a.tbl(), root, from) == Some((p, i)),
        a.bucket(p)[i].entries is None,
        forall|m: int| 0 <= m < a.bucket(p).len() && m != i ==> (#[trigger] a.bucket(p)[m]).name@ != a.bucket(p)[i].name@,
        !(q == p && to.last() == from.last()),
        dir_key_at(a.tbl().update(p, Some(a.bucket(p).remove(i))), root, to.drop_last()) == Some(q),
        entry_moved(a, b, a.tbl().update(p, Some(a.bucket(p).remove(i))), q, a.bucket(p)[i], to.last()),
    ensures
        locate(b.tbl(), root, from) is None,
{
    let ta = a.tbl();
    let t1 = ta.update(p, Some(a.bucket(p).remove(i)));
    crate::tree::lemma_dir_key_has_bucket(*a, root, from.drop_last());
    crate::tree::lemma_find_from_public(a.bucket(p), from.last(), 0);
    lemma_walk_ignores_removal(ta, p, i, root, from.drop_last());
    assert forall|k: int, j: int|
        has_bucket(t1, k) && 0 <= j < t1[k].unwrap().len() && (#[trigger] t1[k].unwrap()[j]).entries is Some
            implies has_bucket(t1, t1[k].unwrap()[j].entries.unwrap() as int) by {
        let j0 = if k == p && j >= i { j + 1 } else { j };
        assert(t1[k].unwrap()[j] == ta[k].unwrap()[j0]);
        assert(a.entry_ok(a.bucket(k)[j0]));
    }
    lemma_walk_lands(t1, root, to.drop_last());
    let m = b.bucket(q).last();
    lemma_walk_ignores_file(t1, q, m, root, from.drop_last());
    lemma_find_after_remove(a.bucket(p), i, from.last());
    if q == p {
        lemma_find_push_other(t1[p].unwrap(), m, from.last(), 0);
    } else {
        assert(b.tbl()[p] == t1[p]);
    }
}

} // verus!
