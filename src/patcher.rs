use vstd::prelude::*;

use crate::config::{views, without, Config};
use crate::error::ErrorKind;
use crate::manifest::{ignores, is_ignored, is_manifest_name, manifest_name, Manifest, ManifestLookup, Mod};
use crate::model::paths;
use crate::paths::{backup_path, bak, bak_ext, has_extension, is_archive_name, restore_path, zip_ext};

verus! {

/// A member of a mod archive.
#[derive(Clone, Debug)]
pub struct Entry {
    /// The member's path inside the archive.
    pub name: String,
    pub is_dir: bool,
    /// The member's contents.
    pub data: Vec<u8>,
}

/// A mod archive as read from the mods folder.
#[derive(Clone, Debug)]
pub struct Archive {
    pub manifest: ManifestLookup,
    /// The members, in the archive's own order.
    pub entries: Vec<Entry>,
}

/// An entry of the mods folder.
#[derive(Clone, Debug)]
pub struct FolderEntry {
    pub path: String,
    pub is_dir: bool,
}

/// Whether a patch installs the member `e` of an archive with manifest `m`:
/// a file that is neither the manifest nor on the ignore list.
pub open spec fn is_payload(m: Manifest, e: Entry) -> bool {
    &&& !e.is_dir
    &&& e.name@ != manifest_name()
    &&& !is_ignored(m, e.name@)
}

/// The paths that a patch installs from the members `es`, in order.
pub open spec fn installs(m: Manifest, es: Seq<Entry>) -> Seq<Seq<char>>
    decreases es.len(),
{
    if es.len() == 0 {
        seq![]
    } else {
        let r = installs(m, es.drop_last());
        if is_payload(m, es.last()) {
            r.push(es.last().name@)
        } else {
            r
        }
    }
}

/// The paths that a patch installs from the members `es`, with their contents.
pub open spec fn payload(m: Manifest, es: Seq<Entry>) -> Seq<(Seq<char>, Seq<u8>)>
    decreases es.len(),
{
    if es.len() == 0 {
        seq![]
    } else {
        let r = payload(m, es.drop_last());
        if is_payload(m, es.last()) {
            r.push((es.last().name@, es.last().data@))
        } else {
            r
        }
    }
}

/// The paths that a patch installs are those of its payload.
pub proof fn lemma_payload_paths(m: Manifest, es: Seq<Entry>)
    ensures
        paths(payload(m, es)) == installs(m, es),
    decreases es.len(),
{
    if es.len() > 0 {
        lemma_payload_paths(m, es.drop_last());
        assert(paths(payload(m, es)) =~= installs(m, es));
    }
}

/// A path on the ignore list of the manifest is neither installed nor backed up:
/// it is none of the payload's paths.
pub proof fn lemma_ignored_not_installed(m: Manifest, es: Seq<Entry>, p: Seq<char>)
    requires
        is_ignored(m, p),
    ensures
        !installs(m, es).contains(p),
        forall|i: int| 0 <= i < payload(m, es).len() ==> (#[trigger] payload(m, es)[i]).0 != p,
    decreases es.len(),
{
    if es.len() > 0 {
        lemma_ignored_not_installed(m, es.drop_last(), p);
        let r = installs(m, es.drop_last());
        if installs(m, es).contains(p) {
            let k = choose|k: int| 0 <= k < installs(m, es).len() && installs(m, es)[k] == p;
            if is_payload(m, es.last()) && k == r.len() {
                assert(es.last().name@ == p);
            } else {
                assert(r[k] == p);
            }
        }
        assert forall|i: int| 0 <= i < payload(m, es).len() implies (#[trigger] payload(m, es)[i]).0 != p by {
            let q = payload(m, es.drop_last());
            if i < q.len() {
                assert(payload(m, es)[i] == q[i]);
            }
        }
    }
}

/// Whether a patch installs the member `e` of an archive with manifest `m`.
pub fn is_payload_entry(m: &Manifest, e: &Entry) -> (r: bool)
    ensures
        r == is_payload(*m, *e),
{
    !e.is_dir && !is_manifest_name(&e.name) && !ignores(m, &e.name)
}

/// Whether a failed backup lets the patch go on: the file is new, or it was
/// backed up by an earlier patch.
pub fn backup_failure_absorbed(e: ErrorKind) -> (r: bool)
    ensures
        r == (e == ErrorKind::NotFound || e == ErrorKind::AlreadyExists),
{
    e == ErrorKind::NotFound || e == ErrorKind::AlreadyExists
}

/// The index of the first member at or after `i` that a patch installs, or the
/// number of members where there is none.
pub open spec fn first_payload(m: Manifest, es: Seq<Entry>, i: int) -> int
    decreases es.len() - i,
{
    if i >= es.len() {
        es.len() as int
    } else if is_payload(m, es[i]) {
        i
    } else {
        first_payload(m, es, i + 1)
    }
}

/// Finds the first member at or after `from` that a patch installs.
fn seek(m: &Manifest, es: &Vec<Entry>, from: usize) -> (r: usize)
    requires
        from <= es@.len(),
    ensures
        r == first_payload(*m, es@, from as int),
{
    let mut j = from;
    while j < es.len() && !is_payload_entry(m, &es[j])
        invariant
            from <= j <= es@.len(),
            first_payload(*m, es@, j as int) == first_payload(*m, es@, from as int),
        decreases es.len() - j,
    {
        j = j + 1;
    }
    j
}

/// What a run waits for from the install directory.
#[derive(Clone, Copy, Debug, PartialEq, Eq, Structural)]
pub enum Phase {
    /// Whether the backup path of the current file exists.
    Probe,
    /// The current file moved to its backup path, or back from it.
    Rename,
    /// The current file written.
    Write,
    /// Nothing: the run stopped with this error.
    Failed(ErrorKind),
}

/// What a run asks of the install directory next; every path is relative to it.
#[derive(Debug)]
pub enum Action {
    /// Report whether something exists at the path.
    Probe(String),
    /// Move the file at the first path to the second, replacing what is there.
    Rename(String, String),
    /// Create the parent directories of the path and write there the contents
    /// of the archive member with this index.
    Write(String, usize),
    /// Nothing is left to do.
    Done,
    /// The run stopped with this error.
    Failed(ErrorKind),
}

/// The installation of one archive's payload, driven by the answers of the
/// install directory. For each file of the payload, in the archive's order: the
/// backup path is probed; where nothing is there the file is moved to it (a
/// missing file, `NotFound`, lets the run go on); then the member is written
/// and its path recorded in the ledger.
pub struct PatchRun {
    pub manifest: Manifest,
    pub entries: Vec<Entry>,
    /// The member being installed; the number of members once done.
    pub next: usize,
    pub phase: Phase,
}

impl PatchRun {
    pub open spec fn is_done(&self) -> bool {
        self.next >= self.entries@.len()
    }

    pub open spec fn current(&self) -> Entry {
        self.entries@[self.next as int]
    }
}

/// The run after the install directory said whether the current backup path exists.
pub open spec fn probed(s: PatchRun, present: bool) -> PatchRun {
    if !s.is_done() && s.phase == Phase::Probe {
        PatchRun { phase: if present { Phase::Write } else { Phase::Rename }, ..s }
    } else {
        s
    }
}

/// The run after the current file was moved to its backup path, with result `r`.
pub open spec fn moved_aside(s: PatchRun, r: Result<(), ErrorKind>) -> PatchRun {
    if !s.is_done() && s.phase == Phase::Rename {
        PatchRun {
            phase: match r {
                Ok(_) => Phase::Write,
                Err(e) => if e == ErrorKind::NotFound || e == ErrorKind::AlreadyExists {
                    Phase::Write
                } else {
                    Phase::Failed(e)
                },
            },
            ..s
        }
    } else {
        s
    }
}

/// The run after the current file was written, with result `r`.
pub open spec fn written(s: PatchRun, r: Result<(), ErrorKind>) -> PatchRun {
    if !s.is_done() && s.phase == Phase::Write {
        match r {
            Ok(_) => PatchRun {
                next: first_payload(s.manifest, s.entries@, s.next + 1) as usize,
                phase: Phase::Probe,
                ..s
            },
            Err(e) => PatchRun { phase: Phase::Failed(e), ..s },
        }
    } else {
        s
    }
}

/// Whether `a` is what the run `s` asks for next.
pub open spec fn patch_action(s: PatchRun, a: Action) -> bool {
    match s.phase {
        Phase::Failed(e) => a matches Action::Failed(e2) && e2 == e,
        Phase::Probe => if s.is_done() {
            a is Done
        } else {
            a matches Action::Probe(q) && q@ == bak(s.current().name@)
        },
        Phase::Rename => if s.is_done() {
            a is Done
        } else {
            a matches Action::Rename(f, t) && f@ == s.current().name@ && t@ == bak(s.current().name@)
        },
        Phase::Write => if s.is_done() {
            a is Done
        } else {
            a matches Action::Write(p, k) && p@ == s.current().name@ && k == s.next
        },
    }
}

impl PatchRun {
    /// Starts the installation of `archive`: none where it has no manifest, an
    /// error where its manifest does not parse.
    pub fn start(archive: Archive) -> (r: Result<Option<PatchRun>, ErrorKind>)
        ensures
            archive.manifest is Missing ==> r matches Ok(None),
            archive.manifest is Malformed ==> (r matches Err(e) && e == ErrorKind::InvalidData),
            archive.manifest is Found ==> (r matches Ok(Some(run)) && {
                &&& run.manifest == archive.manifest->Found_0
                &&& run.entries == archive.entries
                &&& run.phase == Phase::Probe
                &&& run.next == first_payload(run.manifest, run.entries@, 0)
            }),
    {
        match archive.manifest {
            ManifestLookup::Missing => Ok(None),
            ManifestLookup::Malformed => Err(ErrorKind::InvalidData),
            ManifestLookup::Found(manifest) => {
                let next = seek(&manifest, &archive.entries, 0);
                Ok(Some(PatchRun { manifest, entries: archive.entries, next, phase: Phase::Probe }))
            },
        }
    }

    /// What the run asks for next.
    pub fn action(&self) -> (r: Action)
        ensures
            patch_action(*self, r),
    {
        match self.phase {
            Phase::Failed(e) => Action::Failed(e),
            Phase::Probe => if self.next >= self.entries.len() {
                Action::Done
            } else {
                Action::Probe(backup_path(self.entries[self.next].name.as_str()))
            },
            Phase::Rename => if self.next >= self.entries.len() {
                Action::Done
            } else {
                let name = &self.entries[self.next].name;
                Action::Rename(name.clone(), backup_path(name.as_str()))
            },
            Phase::Write => if self.next >= self.entries.len() {
                Action::Done
            } else {
                Action::Write(self.entries[self.next].name.clone(), self.next)
            },
        }
    }

    /// Takes the answer to `Probe`: whether the backup path exists.
    pub fn on_probe(&mut self, present: bool)
        ensures
            *final(self) == probed(*old(self), present),
    {
        if self.next < self.entries.len() && self.phase == Phase::Probe {
            self.phase = if present { Phase::Write } else { Phase::Rename };
        }
    }

    /// Takes the result of `Rename`.
    pub fn on_rename(&mut self, r: Result<(), ErrorKind>)
        ensures
            *final(self) == moved_aside(*old(self), r),
    {
        if self.next < self.entries.len() && self.phase == Phase::Rename {
            self.phase = match r {
                Ok(_) => Phase::Write,
                Err(e) => if backup_failure_absorbed(e) {
                    Phase::Write
                } else {
                    Phase::Failed(e)
                },
            };
        }
    }

    /// Takes the result of `Write`; a written file is recorded in the ledger.
    pub fn on_write(&mut self, r: Result<(), ErrorKind>, cfg: &mut Config)
        ensures
            *final(self) == written(*old(self), r),
            final(cfg).steam_path == old(cfg).steam_path,
            final(cfg).td_path == old(cfg).td_path,
            final(cfg).ledger() == if !old(self).is_done() && old(self).phase == Phase::Write && r is Ok {
                old(cfg).ledger().push(old(self).current().name@)
            } else {
                old(cfg).ledger()
            },
    {
        if self.next < self.entries.len() && self.phase == Phase::Write {
            match r {
                Ok(_) => {
                    cfg.record(self.entries[self.next].name.clone());
                    self.next = seek(&self.manifest, &self.entries, self.next + 1);
                    self.phase = Phase::Probe;
                },
                Err(e) => {
                    self.phase = Phase::Failed(e);
                },
            }
        }
    }
}

/// The restoration of the files of a ledger, driven by the answers of the
/// install directory. For each path, in the ledger's order: the backup path is
/// probed; where nothing is there the path is dropped from the ledger; else the
/// backup is moved back over the file, and the path dropped from the ledger.
pub struct UnpatchRun {
    /// The ledger as it was when the run started.
    pub pending: Vec<String>,
    /// The path being restored; the number of paths once done.
    pub next: usize,
    pub phase: Phase,
}

impl UnpatchRun {
    pub open spec fn is_done(&self) -> bool {
        self.next >= self.pending@.len()
    }

    pub open spec fn current(&self) -> Seq<char> {
        self.pending@[self.next as int]@
    }
}

/// The run after the install directory said whether the current backup path
/// exists. A backup path without the `.bak` extension stops it with `InvalidInput`.
pub open spec fn restore_probed(s: UnpatchRun, present: bool) -> UnpatchRun {
    if !s.is_done() && s.phase == Phase::Probe {
        if !present {
            UnpatchRun { next: (s.next + 1) as usize, ..s }
        } else if has_extension(bak(s.current()), bak_ext()) {
            UnpatchRun { phase: Phase::Rename, ..s }
        } else {
            UnpatchRun { phase: Phase::Failed(ErrorKind::InvalidInput), ..s }
        }
    } else {
        s
    }
}

/// The run after the backup was moved back, with result `r`.
pub open spec fn restored(s: UnpatchRun, r: Result<(), ErrorKind>) -> UnpatchRun {
    if !s.is_done() && s.phase == Phase::Rename {
        match r {
            Ok(_) => UnpatchRun { next: (s.next + 1) as usize, phase: Phase::Probe, ..s },
            Err(e) => UnpatchRun { phase: Phase::Failed(e), ..s },
        }
    } else {
        s
    }
}

/// Whether `a` is what the run `s` asks for next.
pub open spec fn unpatch_action(s: UnpatchRun, a: Action) -> bool {
    match s.phase {
        Phase::Failed(e) => a matches Action::Failed(e2) && e2 == e,
        Phase::Probe => if s.is_done() {
            a is Done
        } else {
            a matches Action::Probe(q) && q@ == bak(s.current())
        },
        _ => if s.is_done() {
            a is Done
        } else {
            a matches Action::Rename(f, t) && f@ == bak(s.current()) && t@ == s.current()
        },
    }
}

impl UnpatchRun {
    /// Starts the restoration of the files of the ledger of `cfg`.
    pub fn start(cfg: &Config) -> (r: UnpatchRun)
        ensures
            views(r.pending@) == cfg.ledger(),
            r.next == 0,
            r.phase == Phase::Probe,
    {
        let mut pending: Vec<String> = Vec::new();
        let mut j: usize = 0;
        while j < cfg.patched_files.len()
            invariant
                j <= cfg.patched_files@.len(),
                pending@.len() == j,
                forall|k: int| 0 <= k < j ==> pending@[k]@ == cfg.patched_files@[k]@,
            decreases cfg.patched_files.len() - j,
        {
            pending.push(cfg.patched_files[j].clone());
            j = j + 1;
        }
        assert(views(pending@) =~= cfg.ledger());
        UnpatchRun { pending, next: 0, phase: Phase::Probe }
    }

    /// What the run asks for next.
    pub fn action(&self) -> (r: Action)
        ensures
            unpatch_action(*self, r),
    {
        match self.phase {
            Phase::Failed(e) => Action::Failed(e),
            Phase::Probe => if self.next >= self.pending.len() {
                Action::Done
            } else {
                Action::Probe(backup_path(self.pending[self.next].as_str()))
            },
            _ => if self.next >= self.pending.len() {
                Action::Done
            } else {
                let p = &self.pending[self.next];
                Action::Rename(backup_path(p.as_str()), p.clone())
            },
        }
    }

    /// Takes the answer to `Probe`: whether the backup path exists. A path
    /// without a backup is dropped from the ledger.
    pub fn on_probe(&mut self, present: bool, cfg: &mut Config)
        ensures
            *final(self) == restore_probed(*old(self), present),
            final(cfg).steam_path == old(cfg).steam_path,
            final(cfg).td_path == old(cfg).td_path,
            final(cfg).ledger() == if !old(self).is_done() && old(self).phase == Phase::Probe && !present {
                without(old(cfg).ledger(), old(self).current())
            } else {
                old(cfg).ledger()
            },
    {
        if self.next < self.pending.len() && self.phase == Phase::Probe {
            if !present {
                cfg.forget(self.pending[self.next].as_str());
                self.next = self.next + 1;
            } else {
                let b = backup_path(self.pending[self.next].as_str());
                match restore_path(b.as_str()) {
                    Ok(_) => {
                        self.phase = Phase::Rename;
                    },
                    Err(e) => {
                        self.phase = Phase::Failed(e);
                    },
                }
            }
        }
    }

    /// Takes the result of `Rename`; a restored path is dropped from the ledger.
    pub fn on_rename(&mut self, r: Result<(), ErrorKind>, cfg: &mut Config)
        ensures
            *final(self) == restored(*old(self), r),
            final(cfg).steam_path == old(cfg).steam_path,
            final(cfg).td_path == old(cfg).td_path,
            final(cfg).ledger() == if !old(self).is_done() && old(self).phase == Phase::Rename && r is Ok {
                without(old(cfg).ledger(), old(self).current())
            } else {
                old(cfg).ledger()
            },
    {
        if self.next < self.pending.len() && self.phase == Phase::Rename {
            match r {
                Ok(_) => {
                    cfg.forget(self.pending[self.next].as_str());
                    self.next = self.next + 1;
                    self.phase = Phase::Probe;
                },
                Err(e) => {
                    self.phase = Phase::Failed(e);
                },
            }
        }
    }
}
/// The paths of the entries of the mods folder that are `.zip` files, in order.
pub open spec fn archive_paths_of(es: Seq<FolderEntry>) -> Seq<Seq<char>>
    decreases es.len(),
{
    if es.len() == 0 {
        seq![]
    } else {
        let r = archive_paths_of(es.drop_last());
        if !es.last().is_dir && has_extension(es.last().path@, zip_ext()) {
            r.push(es.last().path@)
        } else {
            r
        }
    }
}

/// The paths of the entries of the mods folder that are `.zip` files, in the
/// order in which the folder lists them; directories and other files are passed over.
pub fn archive_paths(entries: &Vec<FolderEntry>) -> (r: Vec<String>)
    ensures
        views(r@) == archive_paths_of(entries@),
{
    let mut r: Vec<String> = Vec::new();
    let mut i: usize = 0;
    while i < entries.len()
        invariant
            i <= entries@.len(),
            views(r@) == archive_paths_of(entries@.take(i as int)),
        decreases entries.len() - i,
    {
        let fe = &entries[i];
        assert(entries@.take(i + 1).drop_last() =~= entries@.take(i as int));
        if !fe.is_dir && is_archive_name(fe.path.as_str()) {
            r.push(fe.path.clone());
            assert(views(r@) =~= archive_paths_of(entries@.take(i as int)).push(fe.path@));
        }
        i = i + 1;
    }
    assert(entries@.take(i as int) =~= entries@);
    r
}

/// The four fields of a mod.
pub open spec fn mod_view(md: Mod) -> (Seq<char>, Seq<char>, Seq<char>, Seq<char>) {
    (md.name@, md.description@, md.author@, md.path@)
}

/// The mods that the archives at the given paths hold, with what reading their
/// manifests gave: one for each archive with a manifest, in order.
pub open spec fn mods_of(found: Seq<(String, ManifestLookup)>) -> Seq<(Seq<char>, Seq<char>, Seq<char>, Seq<char>)>
    decreases found.len(),
{
    if found.len() == 0 {
        seq![]
    } else {
        let r = mods_of(found.drop_last());
        match found.last().1 {
            ManifestLookup::Found(m) => r.push((m.name@, m.description@, m.author@, found.last().0@)),
            _ => r,
        }
    }
}

/// Some archive among `found` has a manifest that does not parse.
pub open spec fn any_malformed(found: Seq<(String, ManifestLookup)>) -> bool {
    exists|k: int| 0 <= k < found.len() && found[k].1 is Malformed
}

/// The mods held by the archives of `found`, each given with what reading its
/// manifest gave, in order. An archive without a manifest is passed over; a
/// manifest that does not parse makes the whole listing fail.
pub fn list_mods(found: &Vec<(String, ManifestLookup)>) -> (r: Result<Vec<Mod>, ErrorKind>)
    ensures
        any_malformed(found@) ==> (r matches Err(e) && e == ErrorKind::InvalidData),
        !any_malformed(found@) ==> (r is Ok && r.unwrap()@.map_values(|md: Mod| mod_view(md)) == mods_of(found@)),
{
    let mut mods: Vec<Mod> = Vec::new();
    let mut i: usize = 0;
    while i < found.len()
        invariant
            i <= found@.len(),
            !any_malformed(found@.take(i as int)),
            mods@.map_values(|md: Mod| mod_view(md)) == mods_of(found@.take(i as int)),
        decreases found.len() - i,
    {
        assert(found@.take(i + 1).drop_last() =~= found@.take(i as int));
        match &found[i].1 {
            ManifestLookup::Malformed => {
                assert(found@[i as int].1 is Malformed);
                return Err(ErrorKind::InvalidData);
            },
            ManifestLookup::Missing => {},
            ManifestLookup::Found(m) => {
                let md = Mod {
                    name: m.name.clone(),
                    description: m.description.clone(),
                    author: m.author.clone(),
                    path: found[i].0.clone(),
                };
                mods.push(md);
                assert(mods@.map_values(|md: Mod| mod_view(md)) =~= mods_of(found@.take(i as int)).push(mod_view(md)));
            },
        }
        i = i + 1;
        assert(!any_malformed(found@.take(i as int))) by {
            if any_malformed(found@.take(i as int)) {
                let k = choose|k: int| 0 <= k < i && found@.take(i as int)[k].1 is Malformed;
                if k < i - 1 {
                    assert(found@.take(i - 1)[k].1 is Malformed);
                }
            }
        }
    }
    assert(found@.take(i as int) =~= found@);
    Ok(mods)
}

} // verus!
