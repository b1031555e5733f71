use std::collections::BTreeMap;

use teardown_patcher::config::Config;
use teardown_patcher::error::ErrorKind;
use teardown_patcher::manifest::{Manifest, ManifestLookup, Mod};
use teardown_patcher::patcher::{
    archive_paths, backup_failure_absorbed, is_payload_entry, list_mods, Action, Archive, Entry, FolderEntry,
    PatchRun, Phase, UnpatchRun,
};

#[derive(Default)]
struct MemDisk {
    files: BTreeMap<String, Vec<u8>>,
    refuse_writes: bool,
}

impl MemDisk {
    fn with(files: &[(&str, &str)]) -> MemDisk {
        let mut d = MemDisk::default();
        for (p, c) in files {
            d.files.insert(p.to_string(), c.as_bytes().to_vec());
        }
        d
    }

    fn text(&self, p: &str) -> Option<String> {
        self.files.get(p).map(|b| String::from_utf8(b.clone()).unwrap())
    }

    fn is_present(&self, rel: &str) -> bool {
        self.files.contains_key(rel)
    }

    fn rename(&mut self, from: &str, to: &str) -> Result<(), ErrorKind> {
        match self.files.remove(from) {
            Some(b) => {
                self.files.insert(to.to_string(), b);
                Ok(())
            }
            None => Err(ErrorKind::NotFound),
        }
    }

    fn write_file(&mut self, rel: &str, data: &[u8]) -> Result<(), ErrorKind> {
        if self.refuse_writes {
            return Err(ErrorKind::Other);
        }
        self.files.insert(rel.to_string(), data.to_vec());
        Ok(())
    }
}

#[derive(Default)]
struct MemMods {
    listing: Vec<FolderEntry>,
    archives: BTreeMap<String, Archive>,
}

impl MemMods {
    fn add(&mut self, path: &str, archive: Archive) {
        self.listing.push(FolderEntry { path: path.to_string(), is_dir: false });
        self.archives.insert(path.to_string(), archive);
    }

    fn open(&self, path: &str) -> Result<Archive, ErrorKind> {
        self.archives.get(path).cloned().ok_or(ErrorKind::Other)
    }
}

fn drive_patch(disk: &mut MemDisk, run: &mut PatchRun, cfg: &mut Config) -> Result<(), ErrorKind> {
    loop {
        match run.action() {
            Action::Probe(p) => run.on_probe(disk.is_present(&p)),
            Action::Rename(from, to) => run.on_rename(disk.rename(&from, &to)),
            Action::Write(p, k) => {
                let r = disk.write_file(&p, &run.entries[k].data);
                run.on_write(r, cfg);
            }
            Action::Done => return Ok(()),
            Action::Failed(e) => return Err(e),
        }
    }
}

fn patch_archive(disk: &mut MemDisk, cfg: &mut Config, archive: &Archive) -> Result<(), ErrorKind> {
    match PatchRun::start(archive.clone())? {
        Some(mut run) => drive_patch(disk, &mut run, cfg),
        None => Ok(()),
    }
}

fn patch(disk: &mut MemDisk, mods: &mut MemMods, cfg: &mut Config) -> Result<bool, ErrorKind> {
    for path in archive_paths(&mods.listing) {
        let archive = mods.open(&path)?;
        patch_archive(disk, cfg, &archive)?;
    }
    cfg.remove_ledger_duplicates();
    Ok(true)
}

fn unpatch(disk: &mut MemDisk, cfg: &mut Config) -> Result<bool, ErrorKind> {
    let mut run = UnpatchRun::start(cfg);
    loop {
        match run.action() {
            Action::Probe(p) => {
                let present = disk.is_present(&p);
                run.on_probe(present, cfg);
            }
            Action::Rename(from, to) => {
                let r = disk.rename(&from, &to);
                run.on_rename(r, cfg);
            }
            Action::Write(..) => panic!("an unpatch run writes nothing"),
            Action::Done => break,
            Action::Failed(e) => return Err(e),
        }
    }
    cfg.remove_ledger_duplicates();
    Ok(true)
}

fn list(mods: &mut MemMods) -> Result<Vec<Mod>, ErrorKind> {
    let mut found = Vec::new();
    for path in archive_paths(&mods.listing) {
        let lookup = mods.open(&path)?.manifest;
        found.push((path, lookup));
    }
    list_mods(&found)
}

fn manifest(name: &str, ignore: Option<Vec<&str>>) -> ManifestLookup {
    ManifestLookup::Found(Manifest {
        name: name.to_string(),
        description: format!("{name} mod"),
        author: "someone".to_string(),
        ignore: ignore.map(|l| l.into_iter().map(|s| s.to_string()).collect()),
    })
}

fn file(name: &str, data: &str) -> Entry {
    Entry { name: name.to_string(), is_dir: false, data: data.as_bytes().to_vec() }
}

fn dir_entry(name: &str) -> Entry {
    Entry { name: name.to_string(), is_dir: true, data: Vec::new() }
}

fn manifest_entry() -> Entry {
    file("manifest.toml", "name = \"A\"")
}

fn config() -> Config {
    Config::new("C:/Steam".to_string(), "C:/Steam/steamapps/common/Teardown".to_string())
}

fn ledger(cfg: &Config) -> Vec<String> {
    let mut v = cfg.patched_files.clone();
    v.sort();
    v
}

#[test]
fn splash_patched_then_restored() {
    let mut disk = MemDisk::with(&[("data/ui/splash.lua", "X")]);
    let mut mods = MemMods::default();
    mods.add(
        "mods/a.zip",
        Archive { manifest: manifest("A", None), entries: vec![manifest_entry(), file("data/ui/splash.lua", "NEW")] },
    );
    let mut cfg = config();

    assert_eq!(patch(&mut disk, &mut mods, &mut cfg), Ok(true));
    assert_eq!(disk.text("data/ui/splash.lua").as_deref(), Some("NEW"));
    assert_eq!(disk.text("data/ui/splash.lua.bak").as_deref(), Some("X"));
    assert_eq!(cfg.patched_files, vec!["data/ui/splash.lua".to_string()]);

    assert_eq!(unpatch(&mut disk, &mut cfg), Ok(true));
    assert_eq!(disk.text("data/ui/splash.lua").as_deref(), Some("X"));
    assert!(!disk.is_present("data/ui/splash.lua.bak"));
    assert!(cfg.patched_files.is_empty());
}

#[test]
fn round_trip_restores_every_overwritten_file() {
    let mut disk = MemDisk::with(&[("a.lua", "old a"), ("sub/b.txt", "old b"), ("keep", "k")]);
    let mut mods = MemMods::default();
    mods.add(
        "mods/one.zip",
        Archive {
            manifest: manifest("one", None),
            entries: vec![manifest_entry(), dir_entry("sub/"), file("a.lua", "new a"), file("sub/b.txt", "new b")],
        },
    );
    mods.add(
        "mods/two.zip",
        Archive { manifest: manifest("two", None), entries: vec![file("fresh.lua", "added")] },
    );
    let mut cfg = config();
    patch(&mut disk, &mut mods, &mut cfg).unwrap();
    assert_eq!(disk.text("a.lua").as_deref(), Some("new a"));
    assert_eq!(disk.text("sub/b.txt").as_deref(), Some("new b"));
    assert_eq!(disk.text("fresh.lua").as_deref(), Some("added"));
    assert_eq!(ledger(&cfg), vec!["a.lua", "fresh.lua", "sub/b.txt"]);

    unpatch(&mut disk, &mut cfg).unwrap();
    assert_eq!(disk.text("a.lua").as_deref(), Some("old a"));
    assert_eq!(disk.text("sub/b.txt").as_deref(), Some("old b"));
    assert_eq!(disk.text("keep").as_deref(), Some("k"));
    assert!(disk.files.keys().all(|k| !k.ends_with(".bak")));
    assert!(cfg.patched_files.is_empty());
}

#[test]
fn second_patch_keeps_first_backup() {
    let mut disk = MemDisk::with(&[("data/ui/splash.lua", "X")]);
    let mut mods = MemMods::default();
    mods.add(
        "mods/a.zip",
        Archive { manifest: manifest("A", None), entries: vec![manifest_entry(), file("data/ui/splash.lua", "NEW")] },
    );
    let mut cfg = config();
    patch(&mut disk, &mut mods, &mut cfg).unwrap();
    patch(&mut disk, &mut mods, &mut cfg).unwrap();
    assert_eq!(disk.text("data/ui/splash.lua.bak").as_deref(), Some("X"));
    assert_eq!(disk.text("data/ui/splash.lua").as_deref(), Some("NEW"));
    assert_eq!(cfg.patched_files, vec!["data/ui/splash.lua".to_string()]);
    unpatch(&mut disk, &mut cfg).unwrap();
    assert_eq!(disk.text("data/ui/splash.lua").as_deref(), Some("X"));
}

#[test]
fn ledger_holds_each_path_once() {
    let mut disk = MemDisk::with(&[("shared.lua", "orig")]);
    let mut mods = MemMods::default();
    mods.add("mods/a.zip", Archive { manifest: manifest("A", None), entries: vec![file("shared.lua", "from a")] });
    mods.add("mods/b.zip", Archive { manifest: manifest("B", None), entries: vec![file("shared.lua", "from b")] });
    let mut cfg = config();
    cfg.patched_files.push("shared.lua".to_string());
    patch(&mut disk, &mut mods, &mut cfg).unwrap();
    assert_eq!(cfg.patched_files, vec!["shared.lua".to_string()]);
    assert_eq!(disk.text("shared.lua").as_deref(), Some("from b"));
    assert_eq!(disk.text("shared.lua.bak").as_deref(), Some("orig"));
}

#[test]
fn archive_without_manifest_is_skipped() {
    let mut disk = MemDisk::with(&[("a.lua", "old")]);
    let mut mods = MemMods::default();
    mods.add("mods/bare.zip", Archive { manifest: ManifestLookup::Missing, entries: vec![file("a.lua", "bare")] });
    mods.add("mods/good.zip", Archive { manifest: manifest("good", None), entries: vec![file("b.lua", "b")] });
    let mut cfg = config();
    assert_eq!(patch(&mut disk, &mut mods, &mut cfg), Ok(true));
    assert_eq!(disk.text("a.lua").as_deref(), Some("old"));
    assert_eq!(disk.text("b.lua").as_deref(), Some("b"));
    assert_eq!(cfg.patched_files, vec!["b.lua".to_string()]);

    let found = list(&mut mods).unwrap();
    assert_eq!(found.len(), 1);
    assert_eq!(found[0].name, "good");
    assert_eq!(found[0].description, "good mod");
    assert_eq!(found[0].author, "someone");
    assert_eq!(found[0].path, "mods/good.zip");
}

#[test]
fn ignored_paths_are_neither_copied_nor_backed_up() {
    let mut disk = MemDisk::with(&[("a.lua", "old a"), ("b.lua", "old b")]);
    let mut mods = MemMods::default();
    mods.add(
        "mods/a.zip",
        Archive {
            manifest: manifest("A", Some(vec!["b.lua"])),
            entries: vec![manifest_entry(), file("a.lua", "new a"), file("b.lua", "new b")],
        },
    );
    let mut cfg = config();
    patch(&mut disk, &mut mods, &mut cfg).unwrap();
    assert_eq!(disk.text("a.lua").as_deref(), Some("new a"));
    assert_eq!(disk.text("b.lua").as_deref(), Some("old b"));
    assert!(!disk.is_present("b.lua.bak"));
    assert_eq!(cfg.patched_files, vec!["a.lua".to_string()]);
}

#[test]
fn malformed_manifest_is_refused() {
    let mut disk = MemDisk::default();
    let mut mods = MemMods::default();
    mods.add("mods/bad.zip", Archive { manifest: ManifestLookup::Malformed, entries: vec![file("x", "y")] });
    let mut cfg = config();
    assert_eq!(patch(&mut disk, &mut mods, &mut cfg), Err(ErrorKind::InvalidData));
    assert!(disk.files.is_empty());
    assert_eq!(list(&mut mods).unwrap_err(), ErrorKind::InvalidData);
}

#[test]
fn folder_entries_that_are_not_archives_are_passed_over() {
    let mut disk = MemDisk::default();
    let mut mods = MemMods::default();
    mods.add("mods/readme.txt", Archive { manifest: manifest("txt", None), entries: vec![file("t", "t")] });
    mods.listing.push(FolderEntry { path: "mods/folder.zip".to_string(), is_dir: true });
    mods.add("mods/real.zip", Archive { manifest: manifest("real", None), entries: vec![file("r", "r")] });
    let mut cfg = config();
    patch(&mut disk, &mut mods, &mut cfg).unwrap();
    assert_eq!(cfg.patched_files, vec!["r".to_string()]);
    let found = list(&mut mods).unwrap();
    assert_eq!(found.len(), 1);
    assert_eq!(found[0].path, "mods/real.zip");
}

#[test]
fn unreadable_archive_stops_the_listing() {
    let mut mods = MemMods::default();
    mods.listing.push(FolderEntry { path: "mods/gone.zip".to_string(), is_dir: false });
    assert_eq!(list(&mut mods).unwrap_err(), ErrorKind::Other);
}

#[test]
fn failed_write_stops_the_patch_after_earlier_files() {
    let mut disk = MemDisk::with(&[("a.lua", "old")]);
    disk.refuse_writes = true;
    let mut cfg = config();
    let archive = Archive { manifest: manifest("A", None), entries: vec![file("a.lua", "new")] };
    assert_eq!(patch_archive(&mut disk, &mut cfg, &archive), Err(ErrorKind::Other));
    assert!(cfg.patched_files.is_empty());
    assert_eq!(disk.text("a.lua.bak").as_deref(), Some("old"));
}

#[test]
fn unpatch_drops_entries_without_backup() {
    let mut disk = MemDisk::with(&[("a.lua", "patched"), ("b.lua", "patched b"), ("b.lua.bak", "orig b")]);
    let mut cfg = config();
    cfg.patched_files = vec!["a.lua".to_string(), "b.lua".to_string(), "a.lua".to_string()];
    assert_eq!(unpatch(&mut disk, &mut cfg), Ok(true));
    assert!(cfg.patched_files.is_empty());
    assert_eq!(disk.text("a.lua").as_deref(), Some("patched"));
    assert_eq!(disk.text("b.lua").as_deref(), Some("orig b"));
    assert!(!disk.is_present("b.lua.bak"));
}

#[test]
fn unpatch_refuses_a_ledger_entry_without_file_name() {
    let mut disk = MemDisk::with(&[("dir/.bak", "stray")]);
    let mut cfg = config();
    cfg.patched_files = vec!["ok.lua".to_string(), "dir/".to_string(), "later.lua".to_string()];
    assert_eq!(unpatch(&mut disk, &mut cfg), Err(ErrorKind::InvalidInput));
    assert_eq!(cfg.patched_files, vec!["dir/".to_string(), "later.lua".to_string()]);
}

#[test]
fn payload_excludes_directories_manifest_and_ignored() {
    let m = Manifest {
        name: "m".to_string(),
        description: String::new(),
        author: String::new(),
        ignore: Some(vec!["skip.lua".to_string()]),
    };
    assert!(is_payload_entry(&m, &file("a.lua", "")));
    assert!(is_payload_entry(&m, &file("sub/manifest.toml", "")));
    assert!(!is_payload_entry(&m, &file("manifest.toml", "")));
    assert!(!is_payload_entry(&m, &file("skip.lua", "")));
    assert!(!is_payload_entry(&m, &dir_entry("data/")));
}

#[test]
fn only_missing_file_and_existing_backup_are_absorbed() {
    assert!(backup_failure_absorbed(ErrorKind::NotFound));
    assert!(backup_failure_absorbed(ErrorKind::AlreadyExists));
    assert!(!backup_failure_absorbed(ErrorKind::InvalidData));
    assert!(!backup_failure_absorbed(ErrorKind::InvalidInput));
    assert!(!backup_failure_absorbed(ErrorKind::Other));
}

#[test]
fn existing_backup_is_never_overwritten() {
    let mut disk = MemDisk::with(&[("a.lua", "current"), ("a.lua.bak", "first")]);
    let mut cfg = config();
    let archive = Archive { manifest: manifest("A", None), entries: vec![file("a.lua", "new")] };
    let mut run = PatchRun::start(archive).unwrap().unwrap();
    match run.action() {
        Action::Probe(p) => assert_eq!(p, "a.lua.bak"),
        other => panic!("unexpected {:?}", other),
    }
    run.on_probe(true);
    assert_eq!(run.phase, Phase::Write);
    match run.action() {
        Action::Write(p, k) => {
            assert_eq!(p, "a.lua");
            assert_eq!(k, 0);
        }
        other => panic!("unexpected {:?}", other),
    }
    drive_patch(&mut disk, &mut run, &mut cfg).unwrap();
    assert_eq!(disk.text("a.lua.bak").as_deref(), Some("first"));
    assert_eq!(disk.text("a.lua").as_deref(), Some("new"));
}

#[test]
fn backup_moves_the_file_aside_before_writing() {
    let archive = Archive { manifest: manifest("A", None), entries: vec![manifest_entry(), file("x/y.lua", "n")] };
    let mut run = PatchRun::start(archive).unwrap().unwrap();
    assert_eq!(run.next, 1);
    run.on_probe(false);
    match run.action() {
        Action::Rename(from, to) => {
            assert_eq!(from, "x/y.lua");
            assert_eq!(to, "x/y.lua.bak");
        }
        other => panic!("unexpected {:?}", other),
    }
    run.on_rename(Err(ErrorKind::Other));
    assert_eq!(run.phase, Phase::Failed(ErrorKind::Other));
    assert!(matches!(run.action(), Action::Failed(ErrorKind::Other)));
}

#[test]
fn new_file_is_installed_without_backup() {
    let mut disk = MemDisk::default();
    let mut cfg = config();
    let archive = Archive { manifest: manifest("A", None), entries: vec![file("new.lua", "n")] };
    patch_archive(&mut disk, &mut cfg, &archive).unwrap();
    assert_eq!(disk.text("new.lua").as_deref(), Some("n"));
    assert!(!disk.is_present("new.lua.bak"));
    assert_eq!(cfg.patched_files, vec!["new.lua".to_string()]);
}

#[test]
fn restore_moves_backup_back_over_the_file() {
    let mut cfg = config();
    cfg.patched_files = vec!["README".to_string()];
    let mut run = UnpatchRun::start(&cfg);
    match run.action() {
        Action::Probe(p) => assert_eq!(p, "README.bak"),
        other => panic!("unexpected {:?}", other),
    }
    run.on_probe(true, &mut cfg);
    match run.action() {
        Action::Rename(from, to) => {
            assert_eq!(from, "README.bak");
            assert_eq!(to, "README");
        }
        other => panic!("unexpected {:?}", other),
    }
    assert_eq!(cfg.patched_files, vec!["README".to_string()]);
    run.on_rename(Ok(()), &mut cfg);
    assert!(cfg.patched_files.is_empty());
    assert!(matches!(run.action(), Action::Done));
}

#[test]
fn malformed_manifest_stops_listing_even_after_good_ones() {
    let found = vec![
        ("mods/a.zip".to_string(), manifest("A", None)),
        ("mods/b.zip".to_string(), ManifestLookup::Malformed),
    ];
    assert_eq!(list_mods(&found).unwrap_err(), ErrorKind::InvalidData);
}

#[test]
fn archive_paths_keep_folder_order() {
    let listing = vec![
        FolderEntry { path: "mods/b.zip".to_string(), is_dir: false },
        FolderEntry { path: "mods/notes.txt".to_string(), is_dir: false },
        FolderEntry { path: "mods/dir.zip".to_string(), is_dir: true },
        FolderEntry { path: "mods/a.zip".to_string(), is_dir: false },
    ];
    assert_eq!(archive_paths(&listing), vec!["mods/b.zip".to_string(), "mods/a.zip".to_string()]);
}
