use vstd::prelude::*;
use vstd::string::*;

use crate::error::ErrorKind;

verus! {

/// What an archive says about the mod it holds.
#[derive(Clone, Debug)]
pub struct Manifest {
    pub name: String,
    pub description: String,
    pub author: String,
    /// Archive paths that are not to be installed.
    pub ignore: Option<Vec<String>>,
}

/// A mod found in the mods folder.
#[derive(Clone, Debug)]
pub struct Mod {
    pub name: String,
    pub description: String,
    pub author: String,
    /// The archive that holds the mod.
    pub path: String,
}

/// What reading an archive's manifest gave.
#[derive(Clone, Debug)]
pub enum ManifestLookup {
    /// The archive has no manifest.
    Missing,
    /// The archive has a manifest that does not parse.
    Malformed,
    /// The archive's manifest.
    Found(Manifest),
}

/// The name of the manifest inside an archive.
pub open spec fn manifest_name() -> Seq<char> {
    seq!['m', 'a', 'n', 'i', 'f', 'e', 's', 't', '.', 't', 'o', 'm', 'l']
}

/// Whether the manifest lists `p` among the paths to leave alone.
pub open spec fn is_ignored(m: Manifest, p: Seq<char>) -> bool {
    match m.ignore {
        Some(list) => exists|k: int| 0 <= k < list@.len() && list@[k]@ == p,
        None => false,
    }
}

/// Whether `p` is on the ignore list of `m`.
pub fn ignores(m: &Manifest, p: &String) -> (r: bool)
    ensures
        r == is_ignored(*m, p@),
{
    match &m.ignore {
        None => false,
        Some(list) => {
            let mut i: usize = 0;
            while i < list.len()
                invariant
                    m.ignore == Some(*list),
                    i <= list@.len(),
                    forall|j: int| 0 <= j < i ==> list@[j]@ != p@,
                decreases list.len() - i,
            {
                if list[i] == *p {
                    assert(list@[i as int]@ == p@);
                    assert(m.ignore->Some_0@[i as int]@ == p@);
                    return true;
                }
                i = i + 1;
            }
            false
        },
    }
}

/// Whether `p` is the name of the manifest.
pub fn is_manifest_name(p: &String) -> (r: bool)
    ensures
        r == (p@ == manifest_name()),
{
    let name = String::from_str("manifest.toml");
    proof {
        reveal_strlit("manifest.toml");
    }
    assert(name@ =~= manifest_name());
    *p == name
}

/// The mod that the archive at `path` holds: none where the archive has no
/// manifest, and an error where its manifest does not parse.
pub fn mod_of(path: String, lookup: ManifestLookup) -> (r: Result<Option<Mod>, ErrorKind>)
    ensures
        lookup is Missing ==> r == Ok::<Option<Mod>, ErrorKind>(None),
        lookup is Malformed ==> r == Err::<Option<Mod>, _>(ErrorKind::InvalidData),
        lookup is Found ==> (r matches Ok(Some(md)) && {
            let m = lookup->Found_0;
            &&& md.name == m.name
            &&& md.description == m.description
            &&& md.author == m.author
            &&& md.path == path
        }),
{
    match lookup {
        ManifestLookup::Missing => Ok(None),
        ManifestLookup::Malformed => Err(ErrorKind::InvalidData),
        ManifestLookup::Found(m) => Ok(Some(Mod { name: m.name, description: m.description, author: m.author, path })),
    }
}

} // verus!
