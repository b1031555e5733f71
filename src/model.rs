use vstd::prelude::*;

use crate::config::{dedup, lemma_without, no_dups, views, without};
use crate::error::ErrorKind;
use crate::manifest::{is_ignored, Manifest};
use crate::patcher::{
    first_payload, installs, is_payload, moved_aside, payload, probed, restore_probed, restored, written, Entry, PatchRun,
    Phase, UnpatchRun,
};
use crate::paths::{bak, bak_ext, has_extension, is_sep};

verus! {

/// The files under the install directory: each path with its contents.
pub type Disk = Map<Seq<char>, Seq<u8>>;

/// What backing up the file at `p` reports: `AlreadyExists` where a backup is
/// there, `NotFound` where there is no file.
pub open spec fn backup_result(d: Disk, p: Seq<char>) -> Result<(), ErrorKind> {
    if d.contains_key(bak(p)) {
        Err(ErrorKind::AlreadyExists)
    } else if !d.contains_key(p) {
        Err(ErrorKind::NotFound)
    } else {
        Ok(())
    }
}

/// The disk after backing up the file at `p`.
pub open spec fn after_backup(d: Disk, p: Seq<char>) -> Disk {
    if backup_result(d, p) is Ok {
        d.remove(p).insert(bak(p), d[p])
    } else {
        d
    }
}

/// The disk after installing `data` at `p`.
pub open spec fn after_install(d: Disk, p: Seq<char>, data: Seq<u8>) -> Disk {
    after_backup(d, p).insert(p, data)
}

/// The disk after a patch installs `items`, in order.
pub open spec fn after_patch(d: Disk, items: Seq<(Seq<char>, Seq<u8>)>) -> Disk
    decreases items.len(),
{
    if items.len() == 0 {
        d
    } else {
        after_install(after_patch(d, items.drop_last()), items.last().0, items.last().1)
    }
}

/// The disk after restoring the file at `p` from its backup, where there is one.
pub open spec fn after_restore(d: Disk, p: Seq<char>) -> Disk {
    if d.contains_key(bak(p)) && has_extension(bak(p), bak_ext()) {
        d.remove(bak(p)).insert(p, d[bak(p)])
    } else {
        d
    }
}

/// The disk after restoring each file of `ledger`, in order.
pub open spec fn after_unpatch(d: Disk, ledger: Seq<Seq<char>>) -> Disk
    decreases ledger.len(),
{
    if ledger.len() == 0 {
        d
    } else {
        after_restore(after_unpatch(d, ledger.drop_last()), ledger.last())
    }
}

/// The paths of `items`.
pub open spec fn paths(items: Seq<(Seq<char>, Seq<u8>)>) -> Seq<Seq<char>> {
    items.map_values(|x: (Seq<char>, Seq<u8>)| x.0)
}

/// No two paths of `ps` coincide, and none is the backup path of another.
pub open spec fn separate(ps: Seq<Seq<char>>) -> bool {
    &&& no_dups(ps)
    &&& forall|i: int, j: int| 0 <= i < ps.len() && 0 <= j < ps.len() ==> ps[i] != bak(ps[j])
}

/// `q` is neither one of the paths of `items` nor the backup of one.
pub open spec fn untouched(items: Seq<(Seq<char>, Seq<u8>)>, q: Seq<char>) -> bool {
    forall|j: int| 0 <= j < items.len() ==> q != #[trigger] items[j].0 && q != bak(items[j].0)
}

/// `p` can name a file: it is not empty and does not end in a separator.
pub open spec fn is_file_path(p: Seq<char>) -> bool {
    p.len() > 0 && !is_sep(p.last())
}

proof fn lemma_bak(p: Seq<char>, q: Seq<char>)
    ensures
        bak(p) == bak(q) ==> p == q,
        bak(p) != p,
        is_file_path(p) ==> has_extension(bak(p), bak_ext()),
{
    if bak(p) == bak(q) {
        assert(p =~= bak(p).subrange(0, p.len() as int));
        assert(q =~= bak(q).subrange(0, q.len() as int));
    }
    assert(bak(p).len() != p.len());
    if is_file_path(p) {
        let b = bak(p);
        assert(b.subrange(b.len() - 4, b.len() as int) =~= seq!['.'] + bak_ext());
        assert(b[b.len() - 5] == p.last());
    }
}

/// A patch leaves alone every path that it neither installs nor backs up to.
proof fn lemma_patch_other(d: Disk, items: Seq<(Seq<char>, Seq<u8>)>, q: Seq<char>)
    requires
        forall|j: int| 0 <= j < items.len() ==> q != items[j].0 && q != bak(items[j].0),
    ensures
        after_patch(d, items).contains_key(q) == d.contains_key(q),
        d.contains_key(q) ==> after_patch(d, items)[q] == d[q],
    decreases items.len(),
{
    if items.len() > 0 {
        lemma_patch_other(d, items.drop_last(), q);
        assert(q != items[items.len() - 1].0 && q != bak(items[items.len() - 1].0));
    }
}

/// After a patch, each installed path holds its new contents, and its backup
/// holds what was there first: the earlier backup where there was one, else
/// the file that the patch overwrote.
proof fn lemma_patch_at(d: Disk, items: Seq<(Seq<char>, Seq<u8>)>, i: int)
    requires
        separate(paths(items)),
        0 <= i < items.len(),
    ensures
        after_patch(d, items).contains_key(items[i].0),
        after_patch(d, items)[items[i].0] == items[i].1,
        after_patch(d, items).contains_key(bak(items[i].0)) == (d.contains_key(bak(items[i].0)) || d.contains_key(
            items[i].0,
        )),
        d.contains_key(bak(items[i].0)) ==> after_patch(d, items)[bak(items[i].0)] == d[bak(items[i].0)],
        !d.contains_key(bak(items[i].0)) && d.contains_key(items[i].0) ==> after_patch(d, items)[bak(items[i].0)]
            == d[items[i].0],
    decreases items.len(),
{
    let n = items.len() - 1;
    let rest = items.drop_last();
    let p = items[i].0;
    let pn = items[n].0;
    assert(paths(rest) =~= paths(items).drop_last());
    assert(paths(items)[i] == p);
    assert(paths(items)[n] == pn);
    lemma_bak(p, pn);
    lemma_bak(pn, p);
    if i < n {
        lemma_patch_at(d, rest, i);
        assert(p != pn);
        assert(p != bak(pn));
        assert(bak(p) != pn);
    } else {
        assert forall|j: int| 0 <= j < rest.len() implies pn != rest[j].0 && pn != bak(rest[j].0) by {
            assert(paths(items)[j] == rest[j].0);
        }
        assert forall|j: int| 0 <= j < rest.len() implies bak(pn) != rest[j].0 && bak(pn) != bak(rest[j].0) by {
            assert(paths(items)[j] == rest[j].0);
            lemma_bak(pn, rest[j].0);
        }
        lemma_patch_other(d, rest, pn);
        lemma_patch_other(d, rest, bak(pn));
    }
}

/// An unpatch leaves alone every path that is neither in its ledger nor the
/// backup of one.
proof fn lemma_unpatch_other(d: Disk, ledger: Seq<Seq<char>>, q: Seq<char>)
    requires
        forall|j: int| 0 <= j < ledger.len() ==> q != ledger[j] && q != bak(ledger[j]),
    ensures
        after_unpatch(d, ledger).contains_key(q) == d.contains_key(q),
        d.contains_key(q) ==> after_unpatch(d, ledger)[q] == d[q],
    decreases ledger.len(),
{
    if ledger.len() > 0 {
        lemma_unpatch_other(d, ledger.drop_last(), q);
        assert(q != ledger[ledger.len() - 1] && q != bak(ledger[ledger.len() - 1]));
    }
}

/// After an unpatch, no path of the ledger has a backup left; each one that had
/// a backup holds its contents again, and the others are left as they were.
proof fn lemma_unpatch_at(d: Disk, ledger: Seq<Seq<char>>, i: int)
    requires
        separate(ledger),
        forall|j: int| 0 <= j < ledger.len() ==> is_file_path(#[trigger] ledger[j]),
        0 <= i < ledger.len(),
    ensures
        !after_unpatch(d, ledger).contains_key(bak(ledger[i])),
        d.contains_key(bak(ledger[i])) ==> after_unpatch(d, ledger).contains_key(ledger[i])
            && after_unpatch(d, ledger)[ledger[i]] == d[bak(ledger[i])],
        !d.contains_key(bak(ledger[i])) ==> after_unpatch(d, ledger).contains_key(ledger[i]) == d.contains_key(
            ledger[i],
        ),
        !d.contains_key(bak(ledger[i])) && d.contains_key(ledger[i]) ==> after_unpatch(d, ledger)[ledger[i]]
            == d[ledger[i]],
    decreases ledger.len(),
{
    let n = ledger.len() - 1;
    let rest = ledger.drop_last();
    let p = ledger[i];
    let pn = ledger[n];
    lemma_bak(p, pn);
    lemma_bak(pn, p);
    if i < n {
        assert(rest[i] == p);
        lemma_unpatch_at(d, rest, i);
        assert(p != pn);
        assert(p != bak(pn));
        assert(bak(p) != pn);
    } else {
        assert forall|j: int| 0 <= j < rest.len() implies pn != rest[j] && pn != bak(rest[j]) by {
            assert(ledger[j] == rest[j]);
        }
        assert forall|j: int| 0 <= j < rest.len() implies bak(pn) != rest[j] && bak(pn) != bak(rest[j]) by {
            assert(ledger[j] == rest[j]);
            lemma_bak(pn, rest[j]);
        }
        lemma_unpatch_other(d, rest, pn);
        lemma_unpatch_other(d, rest, bak(pn));
    }
}

/// A sequence without repeated paths is left as it is by deduplication.
pub proof fn lemma_dedup_no_dups(s: Seq<Seq<char>>)
    requires
        no_dups(s),
    ensures
        dedup(s) == s,
    decreases s.len(),
{
    if s.len() > 0 {
        lemma_dedup_no_dups(s.drop_last());
        crate::config::lemma_dedup(s.drop_last());
        if dedup(s.drop_last()).contains(s.last()) {
            let k = choose|k: int| 0 <= k < s.drop_last().len() && s.drop_last()[k] == s.last();
            assert(s[k] == s[s.len() - 1]);
        }
        assert(dedup(s) =~= s);
    }
}

/// Patching and then unpatching puts back every file that the patch
/// overwrote and leaves no backup behind, where the installed paths are files
/// that do not overlap (none twice, none the backup of another) and none of
/// them had a backup before; every other path is left as it was.
pub proof fn lemma_round_trip(d: Disk, items: Seq<(Seq<char>, Seq<u8>)>)
    requires
        separate(paths(items)),
        forall|i: int| 0 <= i < items.len() ==> is_file_path(#[trigger] items[i].0),
        forall|i: int| 0 <= i < items.len() ==> !d.contains_key(bak(#[trigger] items[i].0)),
    ensures
        forall|i: int|
            0 <= i < items.len() ==> !after_unpatch(after_patch(d, items), dedup(paths(items))).contains_key(
                bak(#[trigger] items[i].0),
            ),
        forall|i: int|
            0 <= i < items.len() && d.contains_key(#[trigger] items[i].0) ==> after_unpatch(
                after_patch(d, items),
                dedup(paths(items)),
            ).contains_key(items[i].0) && after_unpatch(after_patch(d, items), dedup(paths(items)))[items[i].0]
                == d[items[i].0],
        forall|q: Seq<char>|
            #[trigger] untouched(items, q) ==> {
                &&& after_unpatch(after_patch(d, items), dedup(paths(items))).contains_key(q) == d.contains_key(q)
                &&& d.contains_key(q) ==> after_unpatch(after_patch(d, items), dedup(paths(items)))[q] == d[q]
            },
{
    let ps = paths(items);
    let e = after_patch(d, items);
    lemma_dedup_no_dups(ps);
    assert forall|j: int| 0 <= j < ps.len() implies is_file_path(#[trigger] ps[j]) by {
        assert(ps[j] == items[j].0);
    }
    assert forall|i: int| 0 <= i < items.len() implies !after_unpatch(e, ps).contains_key(bak(#[trigger] items[i].0)) by {
        assert(ps[i] == items[i].0);
        lemma_patch_at(d, items, i);
        lemma_unpatch_at(e, ps, i);
    }
    assert forall|i: int|
        0 <= i < items.len() && d.contains_key(#[trigger] items[i].0) implies after_unpatch(e, ps).contains_key(
        items[i].0,
    ) && after_unpatch(e, ps)[items[i].0] == d[items[i].0] by {
        assert(ps[i] == items[i].0);
        lemma_patch_at(d, items, i);
        lemma_unpatch_at(e, ps, i);
    }
    assert forall|q: Seq<char>|
        #[trigger] untouched(items, q) implies {
        &&& after_unpatch(e, ps).contains_key(q) == d.contains_key(q)
        &&& d.contains_key(q) ==> after_unpatch(e, ps)[q] == d[q]
    } by {
        lemma_patch_other(d, items, q);
        assert forall|j: int| 0 <= j < ps.len() implies q != ps[j] && q != bak(ps[j]) by {
            assert(ps[j] == items[j].0);
        }
        lemma_unpatch_other(e, ps, q);
    }
}

/// Patching twice in a row keeps the first backup of every file that was there
/// before the first patch: in the second patch each backup of such a file
/// reports `AlreadyExists`, and the backups end as the first patch left them.
pub proof fn lemma_repatch(d: Disk, items: Seq<(Seq<char>, Seq<u8>)>, i: int)
    requires
        separate(paths(items)),
        0 <= i < items.len(),
        d.contains_key(items[i].0) || d.contains_key(bak(items[i].0)),
    ensures
        backup_result(after_patch(after_patch(d, items), items.take(i)), items[i].0) == Err::<(), ErrorKind>(
            ErrorKind::AlreadyExists,
        ),
        after_patch(after_patch(d, items), items).contains_key(bak(items[i].0)),
        after_patch(after_patch(d, items), items)[bak(items[i].0)] == after_patch(d, items)[bak(items[i].0)],
{
    let e = after_patch(d, items);
    let p = items[i].0;
    let ps = paths(items);
    let first = items.take(i);
    lemma_patch_at(d, items, i);
    lemma_patch_at(e, items, i);
    assert forall|j: int| 0 <= j < first.len() implies bak(p) != first[j].0 && bak(p) != bak(first[j].0) by {
        assert(ps[j] == first[j].0);
        assert(ps[i] == p);
        lemma_bak(p, first[j].0);
    }
    lemma_patch_other(e, first, bak(p));
}

/// The disk after moving the file at `from` to `to`, and what the move reports:
/// `NotFound` where there is no file at `from`.
pub open spec fn disk_rename(d: Disk, from: Seq<char>, to: Seq<char>) -> (Disk, Result<(), ErrorKind>) {
    if d.contains_key(from) {
        (d.remove(from).insert(to, d[from]), Ok(()))
    } else {
        (d, Err(ErrorKind::NotFound))
    }
}

/// A patch run with the disk it works on and the ledger.
pub type PatchWorld = (PatchRun, Disk, Seq<Seq<char>>);

/// One step of a patch run whose requests the disk `w.1` answers.
pub open spec fn patch_turn(w: PatchWorld) -> PatchWorld {
    let (s, d, l) = w;
    if s.is_done() {
        w
    } else {
        let p = s.current().name@;
        match s.phase {
            Phase::Probe => (probed(s, d.contains_key(bak(p))), d, l),
            Phase::Rename => {
                let (d2, r) = disk_rename(d, p, bak(p));
                (moved_aside(s, r), d2, l)
            },
            Phase::Write => (written(s, Ok(())), d.insert(p, s.current().data@), l.push(p)),
            Phase::Failed(_) => w,
        }
    }
}

/// `n` steps of a patch run answered by its disk.
pub open spec fn patch_turns(w: PatchWorld, n: nat) -> PatchWorld
    decreases n,
{
    if n == 0 {
        w
    } else {
        patch_turns(patch_turn(w), (n - 1) as nat)
    }
}

proof fn lemma_patch_turns_add(w: PatchWorld, a: nat, b: nat)
    ensures
        patch_turns(w, a + b) == patch_turns(patch_turns(w, a), b),
    decreases a,
{
    if a > 0 {
        lemma_patch_turns_add(patch_turn(w), (a - 1) as nat, b);
        assert((a + b - 1) as nat == (a - 1) as nat + b);
    }
}

/// Members passed over between `k` and the next payload member add nothing to the payload.
proof fn lemma_skip(m: Manifest, es: Seq<Entry>, k: int)
    requires
        0 <= k <= es.len(),
    ensures
        k <= first_payload(m, es, k) <= es.len(),
        first_payload(m, es, k) == es.len() || is_payload(m, es[first_payload(m, es, k)]),
        payload(m, es.take(first_payload(m, es, k))) == payload(m, es.take(k)),
        installs(m, es.take(first_payload(m, es, k))) == installs(m, es.take(k)),
    decreases es.len() - k,
{
    if k < es.len() && !is_payload(m, es[k]) {
        lemma_skip(m, es, k + 1);
        assert(es.take(k + 1).drop_last() =~= es.take(k));
    }
}

/// One payload file: its backup is probed, made where needed, and the file written.
proof fn lemma_patch_item(w: PatchWorld) -> (n: nat)
    requires
        !w.0.is_done(),
        w.0.phase == Phase::Probe,
    ensures
        patch_turns(w, n).0 == (PatchRun {
            next: first_payload(w.0.manifest, w.0.entries@, w.0.next + 1) as usize,
            phase: Phase::Probe,
            ..w.0
        }),
        patch_turns(w, n).1 == after_install(w.1, w.0.current().name@, w.0.current().data@),
        patch_turns(w, n).2 == w.2.push(w.0.current().name@),
{
    let (s, d, l) = w;
    let p = s.current().name@;
    let w1 = patch_turn(w);
    let w2 = patch_turn(w1);
    let w3 = patch_turn(w2);
    assert(patch_turns(w2, 0) == w2);
    assert(patch_turns(w1, 1) == patch_turns(w2, 0));
    assert(patch_turns(w, 2) == patch_turns(w1, 1));
    if d.contains_key(bak(p)) {
        assert(after_backup(d, p) == d);
        2
    } else {
        assert(patch_turns(w3, 0) == w3);
        assert(patch_turns(w2, 1) == patch_turns(w3, 0));
        assert(patch_turns(w1, 2) == patch_turns(w2, 1));
        assert(patch_turns(w, 3) == patch_turns(w1, 2));
        3
    }
}

proof fn lemma_patch_from(w: PatchWorld, d0: Disk, l0: Seq<Seq<char>>) -> (n: nat)
    requires
        w.0.phase == Phase::Probe,
        w.0.entries@.len() <= usize::MAX,
        w.0.next <= w.0.entries@.len(),
        w.0.next == first_payload(w.0.manifest, w.0.entries@, w.0.next as int),
        w.1 == after_patch(d0, payload(w.0.manifest, w.0.entries@.take(w.0.next as int))),
        w.2 == l0 + installs(w.0.manifest, w.0.entries@.take(w.0.next as int)),
    ensures
        patch_turns(w, n).0.is_done(),
        patch_turns(w, n).0.phase == Phase::Probe,
        patch_turns(w, n).1 == after_patch(d0, payload(w.0.manifest, w.0.entries@)),
        patch_turns(w, n).2 == l0 + installs(w.0.manifest, w.0.entries@),
    decreases w.0.entries@.len() - w.0.next,
{
    let s = w.0;
    let m = s.manifest;
    let es = s.entries@;
    let i = s.next as int;
    if s.is_done() {
        assert(es.take(i) =~= es);
        assert(patch_turns(w, 0) == w);
        0
    } else {
        lemma_skip(m, es, i);
        let a = lemma_patch_item(w);
        let w2 = patch_turns(w, a);
        assert(es.take(i + 1).drop_last() =~= es.take(i));
        assert(es.take(i + 1).last() == es[i]);
        lemma_skip(m, es, i + 1);
        let j = first_payload(m, es, i + 1);
        assert(first_payload(m, es, j) == j);
        assert(w2.0.next == j);
        let pv = (es[i].name@, es[i].data@);
        assert(payload(m, es.take(i + 1)) == payload(m, es.take(i)).push(pv));
        assert(payload(m, es.take(i)).push(pv).drop_last() =~= payload(m, es.take(i)));
        assert(w2.1 == after_patch(d0, payload(m, es.take(i + 1))));
        assert(w2.2 =~= l0 + installs(m, es.take(i + 1)));
        let b = lemma_patch_from(w2, d0, l0);
        lemma_patch_turns_add(w, a, b);
        a + b
    }
}

/// A patch run whose requests are answered by the disk `d`, as a file system
/// answers them, ends having installed the archive's payload over `d`, as
/// `after_patch` states, and having added the payload's paths to the ledger.
pub proof fn lemma_patch_run(s: PatchRun, d: Disk, l: Seq<Seq<char>>) -> (n: nat)
    requires
        s.phase == Phase::Probe,
        s.entries@.len() <= usize::MAX,
        s.next == first_payload(s.manifest, s.entries@, 0),
    ensures
        patch_turns((s, d, l), n).0.is_done(),
        patch_turns((s, d, l), n).0.phase == Phase::Probe,
        patch_turns((s, d, l), n).1 == after_patch(d, payload(s.manifest, s.entries@)),
        patch_turns((s, d, l), n).2 == l + installs(s.manifest, s.entries@),
{
    lemma_skip(s.manifest, s.entries@, 0);
    assert(s.entries@.take(0) =~= Seq::<Entry>::empty());
    assert(l + installs(s.manifest, s.entries@.take(0)) =~= l);
    lemma_patch_from((s, d, l), d, l)
}

/// `l` with every path of `ps` taken out, one after the other.
pub open spec fn without_all(l: Seq<Seq<char>>, ps: Seq<Seq<char>>) -> Seq<Seq<char>>
    decreases ps.len(),
{
    if ps.len() == 0 {
        l
    } else {
        without(without_all(l, ps.drop_last()), ps.last())
    }
}

proof fn lemma_without_all(l: Seq<Seq<char>>, ps: Seq<Seq<char>>)
    ensures
        forall|x: Seq<char>| without_all(l, ps).contains(x) <==> (l.contains(x) && !ps.contains(x)),
    decreases ps.len(),
{
    if ps.len() > 0 {
        lemma_without_all(l, ps.drop_last());
        lemma_without(without_all(l, ps.drop_last()), ps.last());
        assert forall|x: Seq<char>| without_all(l, ps).contains(x) <==> (l.contains(x) && !ps.contains(x)) by {
            if ps.contains(x) && x != ps.last() {
                let k = choose|k: int| 0 <= k < ps.len() && ps[k] == x;
                assert(ps.drop_last()[k] == x);
            }
            if ps.drop_last().contains(x) {
                let k = choose|k: int| 0 <= k < ps.drop_last().len() && ps.drop_last()[k] == x;
                assert(ps[k] == x);
            }
            if x == ps.last() {
                assert(ps[ps.len() - 1] == x);
            }
        }
    }
}

/// An unpatch run with the disk it works on and the ledger.
pub type UnpatchWorld = (UnpatchRun, Disk, Seq<Seq<char>>);

/// One step of an unpatch run whose requests the disk `w.1` answers.
pub open spec fn unpatch_turn(w: UnpatchWorld) -> UnpatchWorld {
    let (s, d, l) = w;
    if s.is_done() {
        w
    } else {
        let p = s.current();
        match s.phase {
            Phase::Probe => {
                let present = d.contains_key(bak(p));
                (restore_probed(s, present), d, if present { l } else { without(l, p) })
            },
            Phase::Rename => {
                let (d2, r) = disk_rename(d, bak(p), p);
                (restored(s, r), d2, if r is Ok { without(l, p) } else { l })
            },
            _ => w,
        }
    }
}

/// `n` steps of an unpatch run answered by its disk.
pub open spec fn unpatch_turns(w: UnpatchWorld, n: nat) -> UnpatchWorld
    decreases n,
{
    if n == 0 {
        w
    } else {
        unpatch_turns(unpatch_turn(w), (n - 1) as nat)
    }
}

proof fn lemma_unpatch_turns_add(w: UnpatchWorld, a: nat, b: nat)
    ensures
        unpatch_turns(w, a + b) == unpatch_turns(unpatch_turns(w, a), b),
    decreases a,
{
    if a > 0 {
        lemma_unpatch_turns_add(unpatch_turn(w), (a - 1) as nat, b);
        assert((a + b - 1) as nat == (a - 1) as nat + b);
    }
}

/// One ledger path: its backup is probed and, where there is one, moved back.
proof fn lemma_unpatch_item(w: UnpatchWorld) -> (n: nat)
    requires
        !w.0.is_done(),
        w.0.phase == Phase::Probe,
        is_file_path(w.0.current()),
    ensures
        unpatch_turns(w, n).0 == (UnpatchRun { next: (w.0.next + 1) as usize, ..w.0 }),
        unpatch_turns(w, n).1 == after_restore(w.1, w.0.current()),
        unpatch_turns(w, n).2 == without(w.2, w.0.current()),
{
    let (s, d, l) = w;
    let p = s.current();
    lemma_bak(p, p);
    let w1 = unpatch_turn(w);
    let w2 = unpatch_turn(w1);
    assert(unpatch_turns(w1, 0) == w1);
    assert(unpatch_turns(w, 1) == unpatch_turns(w1, 0));
    if d.contains_key(bak(p)) {
        assert(unpatch_turns(w2, 0) == w2);
        assert(unpatch_turns(w1, 1) == unpatch_turns(w2, 0));
        assert(unpatch_turns(w, 2) == unpatch_turns(w1, 1));
        2
    } else {
        1
    }
}

proof fn lemma_unpatch_from(w: UnpatchWorld, d0: Disk, l0: Seq<Seq<char>>) -> (n: nat)
    requires
        w.0.phase == Phase::Probe,
        w.0.pending@.len() <= usize::MAX,
        w.0.next <= w.0.pending@.len(),
        forall|j: int| 0 <= j < w.0.pending@.len() ==> is_file_path(#[trigger] w.0.pending@[j]@),
        w.1 == after_unpatch(d0, views(w.0.pending@).take(w.0.next as int)),
        w.2 == without_all(l0, views(w.0.pending@).take(w.0.next as int)),
    ensures
        unpatch_turns(w, n).0.is_done(),
        unpatch_turns(w, n).0.phase == Phase::Probe,
        unpatch_turns(w, n).1 == after_unpatch(d0, views(w.0.pending@)),
        unpatch_turns(w, n).2 == without_all(l0, views(w.0.pending@)),
    decreases w.0.pending@.len() - w.0.next,
{
    let s = w.0;
    let ps = views(s.pending@);
    let i = s.next as int;
    if s.is_done() {
        assert(ps.take(i) =~= ps);
        assert(unpatch_turns(w, 0) == w);
        0
    } else {
        assert(is_file_path(s.pending@[i]@));
        let a = lemma_unpatch_item(w);
        let w2 = unpatch_turns(w, a);
        assert(ps.take(i + 1).drop_last() =~= ps.take(i));
        assert(ps.take(i + 1).last() == s.current());
        let b = lemma_unpatch_from(w2, d0, l0);
        lemma_unpatch_turns_add(w, a, b);
        a + b
    }
}

/// An unpatch run whose requests are answered by the disk `d`, as a file system
/// answers them, ends having restored the ledger's files over `d`, as
/// `after_unpatch` states, and with an empty ledger, where every path of the
/// ledger can name a file.
pub proof fn lemma_unpatch_run(s: UnpatchRun, d: Disk) -> (n: nat)
    requires
        s.phase == Phase::Probe,
        s.next == 0,
        s.pending@.len() <= usize::MAX,
        forall|j: int| 0 <= j < s.pending@.len() ==> is_file_path(#[trigger] s.pending@[j]@),
    ensures
        unpatch_turns((s, d, views(s.pending@)), n).0.is_done(),
        unpatch_turns((s, d, views(s.pending@)), n).1 == after_unpatch(d, views(s.pending@)),
        unpatch_turns((s, d, views(s.pending@)), n).2.len() == 0,
{
    let ps = views(s.pending@);
    assert(ps.take(0) =~= Seq::<Seq<char>>::empty());
    let n = lemma_unpatch_from((s, d, ps), d, ps);
    let l = unpatch_turns((s, d, ps), n).2;
    lemma_without_all(ps, ps);
    assert(l == without_all(ps, ps));
    if l.len() > 0 {
        assert(l.contains(l[0]));
        assert(ps.contains(l[0]));
    }
    n
}

/// Patching with `a` and then with `b` is patching with `a` followed by `b`:
/// archives installed one after another act as one run over their payloads.
pub proof fn lemma_patch_concat(d: Disk, a: Seq<(Seq<char>, Seq<u8>)>, b: Seq<(Seq<char>, Seq<u8>)>)
    ensures
        after_patch(after_patch(d, a), b) == after_patch(d, a + b),
    decreases b.len(),
{
    if b.len() > 0 {
        lemma_patch_concat(d, a, b.drop_last());
        assert((a + b).drop_last() =~= a + b.drop_last());
        assert((a + b).last() == b.last());
    } else {
        assert(a + b =~= a);
    }
}

/// A patch run over an archive, then an unpatch run over the ledger it leaves
/// (its installed paths, each once), both answered by the disk: every file that
/// the patch overwrote holds its old contents again, no backup is left, the
/// ledger ends empty, and every path the payload does not touch is as it was.
/// This holds where the payload's paths are files that do not overlap (none
/// twice, none the backup of another) and none of them had a backup before.
pub proof fn lemma_runs_round_trip(s: PatchRun, d: Disk, u: UnpatchRun) -> (n: (nat, nat))
    requires
        s.phase == Phase::Probe,
        s.entries@.len() <= usize::MAX,
        s.next == first_payload(s.manifest, s.entries@, 0),
        u.phase == Phase::Probe,
        u.next == 0,
        u.pending@.len() <= usize::MAX,
        views(u.pending@) == dedup(installs(s.manifest, s.entries@)),
        separate(paths(payload(s.manifest, s.entries@))),
        forall|i: int|
            0 <= i < payload(s.manifest, s.entries@).len() ==> is_file_path(
                (#[trigger] payload(s.manifest, s.entries@)[i]).0,
            ),
        forall|i: int|
            0 <= i < payload(s.manifest, s.entries@).len() ==> !d.contains_key(
                bak((#[trigger] payload(s.manifest, s.entries@)[i]).0),
            ),
    ensures
        ({
            let items = payload(s.manifest, s.entries@);
            let after = patch_turns((s, d, seq![]), n.0);
            let back = unpatch_turns((u, after.1, views(u.pending@)), n.1);
            &&& after.0.is_done()
            &&& after.2 == paths(items)
            &&& back.0.is_done()
            &&& back.2.len() == 0
            &&& forall|i: int| 0 <= i < items.len() ==> !back.1.contains_key(bak(#[trigger] items[i].0))
            &&& forall|i: int|
                0 <= i < items.len() && d.contains_key(#[trigger] items[i].0) ==> back.1.contains_key(items[i].0)
                    && back.1[items[i].0] == d[items[i].0]
            &&& forall|q: Seq<char>|
                #[trigger] untouched(items, q) ==> back.1.contains_key(q) == d.contains_key(q) && (d.contains_key(q)
                    ==> back.1[q] == d[q])
        }),
{
    let m = s.manifest;
    let es = s.entries@;
    let items = payload(m, es);
    crate::patcher::lemma_payload_paths(m, es);
    let empty = Seq::<Seq<char>>::empty();
    let n1 = lemma_patch_run(s, d, empty);
    assert(empty + installs(m, es) =~= installs(m, es));
    let after = patch_turns((s, d, empty), n1);
    crate::config::lemma_dedup(installs(m, es));
    assert forall|j: int| 0 <= j < u.pending@.len() implies is_file_path(#[trigger] u.pending@[j]@) by {
        let x = u.pending@[j]@;
        assert(views(u.pending@)[j] == x);
        assert(views(u.pending@).contains(x));
        assert(installs(m, es).contains(x));
        let k = choose|k: int| 0 <= k < installs(m, es).len() && installs(m, es)[k] == x;
        assert(paths(items)[k] == items[k].0);
        assert(is_file_path(items[k].0));
    }
    let n2 = lemma_unpatch_run(u, after.1);
    lemma_round_trip(d, items);
    (n1, n2)
}

/// Two patch runs over the same archive in a row, both answered by the disk:
/// the second keeps every backup that the first made or found, for each payload
/// file that was there (or had a backup) before the first run, where the
/// payload's paths do not overlap.
pub proof fn lemma_runs_repatch(s: PatchRun, d: Disk) -> (n: (nat, nat))
    requires
        s.phase == Phase::Probe,
        s.entries@.len() <= usize::MAX,
        s.next == first_payload(s.manifest, s.entries@, 0),
        separate(paths(payload(s.manifest, s.entries@))),
    ensures
        ({
            let items = payload(s.manifest, s.entries@);
            let first = patch_turns((s, d, seq![]), n.0);
            let second = patch_turns((s, first.1, first.2), n.1);
            &&& second.0.is_done()
            &&& second.1 == after_patch(first.1, items)
            &&& forall|i: int|
                0 <= i < items.len() && (d.contains_key(#[trigger] items[i].0) || d.contains_key(bak(items[i].0)))
                    ==> second.1.contains_key(bak(items[i].0)) && second.1[bak(items[i].0)] == first.1[bak(
                    items[i].0,
                )]
        }),
{
    let items = payload(s.manifest, s.entries@);
    let empty = Seq::<Seq<char>>::empty();
    let n1 = lemma_patch_run(s, d, empty);
    let first = patch_turns((s, d, empty), n1);
    let n2 = lemma_patch_run(s, first.1, first.2);
    assert forall|i: int|
        0 <= i < items.len() && (d.contains_key(#[trigger] items[i].0) || d.contains_key(bak(items[i].0)))
            implies after_patch(first.1, items).contains_key(bak(items[i].0)) && after_patch(first.1, items)[bak(
        items[i].0,
    )] == first.1[bak(items[i].0)] by {
        lemma_repatch(d, items, i);
    }
    (n1, n2)
}

/// A patch run answered by the disk leaves a path on the manifest's ignore list,
/// and its backup path, as they were: the path is neither copied nor backed up.
/// This holds where neither path is the backup path or the path of a payload file.
pub proof fn lemma_run_ignores(s: PatchRun, d: Disk, l: Seq<Seq<char>>, p: Seq<char>) -> (n: nat)
    requires
        s.phase == Phase::Probe,
        s.entries@.len() <= usize::MAX,
        s.next == first_payload(s.manifest, s.entries@, 0),
        is_ignored(s.manifest, p),
        forall|j: int|
            0 <= j < payload(s.manifest, s.entries@).len() ==> p != bak((#[trigger] payload(s.manifest, s.entries@)[j]).0)
                && bak(p) != payload(s.manifest, s.entries@)[j].0,
    ensures
        patch_turns((s, d, l), n).0.is_done(),
        patch_turns((s, d, l), n).1.contains_key(p) == d.contains_key(p),
        d.contains_key(p) ==> patch_turns((s, d, l), n).1[p] == d[p],
        patch_turns((s, d, l), n).1.contains_key(bak(p)) == d.contains_key(bak(p)),
        d.contains_key(bak(p)) ==> patch_turns((s, d, l), n).1[bak(p)] == d[bak(p)],
        !patch_turns((s, d, l), n).2.contains(p) || l.contains(p),
{
    let m = s.manifest;
    let es = s.entries@;
    let items = payload(m, es);
    let n = lemma_patch_run(s, d, l);
    crate::patcher::lemma_ignored_not_installed(m, es, p);
    assert forall|j: int| 0 <= j < items.len() implies p != #[trigger] items[j].0 && p != bak(items[j].0) by {}
    assert forall|j: int| 0 <= j < items.len() implies bak(p) != #[trigger] items[j].0 && bak(p) != bak(items[j].0) by {
        lemma_bak(p, items[j].0);
    }
    lemma_patch_other(d, items, p);
    lemma_patch_other(d, items, bak(p));
    let r = l + installs(m, es);
    if r.contains(p) && !l.contains(p) {
        let k = choose|k: int| 0 <= k < r.len() && r[k] == p;
        if k < l.len() {
            assert(l[k] == p);
        } else {
            assert(installs(m, es)[k - l.len()] == p);
        }
    }
    n
}

} // verus!
