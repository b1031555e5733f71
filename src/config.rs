use vstd::prelude::*;
use vstd::string::*;

use crate::error::ErrorKind;

verus! {

/// The text of each string of `s`.
pub open spec fn views(s: Seq<String>) -> Seq<Seq<char>> {
    s.map_values(|x: String| x@)
}

/// `s` with only the first occurrence of each path kept.
pub open spec fn dedup(s: Seq<Seq<char>>) -> Seq<Seq<char>>
    decreases s.len(),
{
    if s.len() == 0 {
        s
    } else {
        let r = dedup(s.drop_last());
        if r.contains(s.last()) {
            r
        } else {
            r.push(s.last())
        }
    }
}

/// `s` with every occurrence of `x` taken out.
pub open spec fn without(s: Seq<Seq<char>>, x: Seq<char>) -> Seq<Seq<char>>
    decreases s.len(),
{
    if s.len() == 0 {
        s
    } else {
        let r = without(s.drop_last(), x);
        if s.last() == x {
            r
        } else {
            r.push(s.last())
        }
    }
}

/// No path occurs twice in `s`.
pub open spec fn no_dups(s: Seq<Seq<char>>) -> bool {
    forall|i: int, j: int| 0 <= i < j < s.len() ==> s[i] != s[j]
}

/// Deduplication keeps exactly the paths it was given, each once.
pub proof fn lemma_dedup(s: Seq<Seq<char>>)
    ensures
        no_dups(dedup(s)),
        forall|x: Seq<char>| dedup(s).contains(x) <==> s.contains(x),
    decreases s.len(),
{
    if s.len() > 0 {
        lemma_dedup(s.drop_last());
        let r = dedup(s.drop_last());
        assert forall|x: Seq<char>| dedup(s).contains(x) <==> s.contains(x) by {
            if s.contains(x) {
                let k = choose|k: int| 0 <= k < s.len() && s[k] == x;
                if k < s.len() - 1 {
                    assert(s.drop_last()[k] == x);
                    assert(s.drop_last().contains(x));
                    assert(r.contains(x));
                    let j = choose|j: int| 0 <= j < r.len() && r[j] == x;
                    assert(dedup(s)[j] == x);
                } else if !r.contains(s.last()) {
                    assert(dedup(s)[r.len() as int] == x);
                } else {
                    assert(dedup(s) == r);
                }
            }
            if dedup(s).contains(x) {
                let k = choose|k: int| 0 <= k < dedup(s).len() && dedup(s)[k] == x;
                if k < r.len() {
                    assert(dedup(s)[k] == r[k]);
                    assert(r.contains(x));
                    assert(s.drop_last().contains(x));
                    let m = choose|m: int| 0 <= m < s.drop_last().len() && s.drop_last()[m] == x;
                    assert(s[m] == x);
                } else {
                    assert(s[s.len() - 1] == x);
                }
            }
        }
    }
}

/// Removing a path keeps every other path and no occurrence of it.
pub proof fn lemma_without(s: Seq<Seq<char>>, x: Seq<char>)
    ensures
        forall|y: Seq<char>| without(s, x).contains(y) <==> (s.contains(y) && y != x),
    decreases s.len(),
{
    if s.len() > 0 {
        lemma_without(s.drop_last(), x);
        let r = without(s.drop_last(), x);
        assert forall|y: Seq<char>| without(s, x).contains(y) <==> (s.contains(y) && y != x) by {
            if s.contains(y) && y != x {
                let k = choose|k: int| 0 <= k < s.len() && s[k] == y;
                if k < s.len() - 1 {
                    assert(s.drop_last()[k] == y);
                    assert(s.drop_last().contains(y));
                    assert(r.contains(y));
                    let j = choose|j: int| 0 <= j < r.len() && r[j] == y;
                    assert(without(s, x)[j] == y);
                } else if s.last() != x {
                    assert(without(s, x)[r.len() as int] == y);
                } else {
                    assert(without(s, x) == r);
                }
            }
            if without(s, x).contains(y) {
                let k = choose|k: int| 0 <= k < without(s, x).len() && without(s, x)[k] == y;
                if k < r.len() {
                    assert(without(s, x)[k] == r[k]);
                    assert(r.contains(y));
                    assert(s.drop_last().contains(y));
                    let m = choose|m: int| 0 <= m < s.drop_last().len() && s.drop_last()[m] == y;
                    assert(s[m] == y);
                } else {
                    assert(s[s.len() - 1] == y);
                }
            }
        }
    }
}

/// Whether `v` holds a string with the text of `x`.
fn contains_str(v: &Vec<String>, x: &String) -> (r: bool)
    ensures
        r == views(v@).contains(x@),
{
    let mut i: usize = 0;
    while i < v.len()
        invariant
            i <= v@.len(),
            forall|j: int| 0 <= j < i ==> v@[j]@ != x@,
        decreases v.len() - i,
    {
        if v[i] == *x {
            assert(views(v@)[i as int] == x@);
            return true;
        }
        i = i + 1;
    }
    proof {
        if views(v@).contains(x@) {
            let k = choose|k: int| 0 <= k < views(v@).len() && views(v@)[k] == x@;
            assert(v@[k]@ == x@);
        }
    }
    false
}

/// Returns the paths of `v`, each once, in the order of their first occurrence.
pub fn remove_duplicates(v: Vec<String>) -> (r: Vec<String>)
    ensures
        views(r@) == dedup(views(v@)),
        no_dups(views(r@)),
        forall|x: Seq<char>| views(r@).contains(x) <==> views(v@).contains(x),
{
    let mut r: Vec<String> = Vec::new();
    let mut i: usize = 0;
    while i < v.len()
        invariant
            i <= v@.len(),
            views(r@) == dedup(views(v@).subrange(0, i as int)),
        decreases v.len() - i,
    {
        let ghost before = views(v@).subrange(0, i as int);
        let ghost next = views(v@).subrange(0, i + 1);
        assert(next.drop_last() =~= before);
        assert(next.last() == v@[i as int]@);
        if !contains_str(&r, &v[i]) {
            let s = v[i].clone();
            r.push(s);
            assert(views(r@) =~= dedup(before).push(v@[i as int]@));
        }
        i = i + 1;
    }
    assert(views(v@).subrange(0, v@.len() as int) =~= views(v@));
    proof {
        lemma_dedup(views(v@));
    }
    r
}

/// Installation paths and the ledger of the files that the last patch overwrote,
/// each path relative to the game's install directory.
#[derive(Clone, Debug)]
pub struct Config {
    pub steam_path: String,
    pub td_path: String,
    pub patched_files: Vec<String>,
}

impl Config {
    /// The ledger as a sequence of paths.
    pub open spec fn ledger(&self) -> Seq<Seq<char>> {
        views(self.patched_files@)
    }

    /// The three stored fields.
    pub open spec fn fields(&self) -> (Seq<char>, Seq<char>, Seq<Seq<char>>) {
        (self.steam_path@, self.td_path@, self.ledger())
    }

    /// A configuration with the two install paths and an empty ledger.
    pub fn new(steam_path: String, td_path: String) -> (r: Config)
        ensures
            r.steam_path@ == steam_path@,
            r.td_path@ == td_path@,
            r.ledger().len() == 0,
    {
        Config { steam_path, td_path, patched_files: Vec::new() }
    }

    /// Notes in the ledger that the file at `rel` was overwritten.
    pub fn record(&mut self, rel: String)
        ensures
            final(self).steam_path == old(self).steam_path,
            final(self).td_path == old(self).td_path,
            final(self).ledger() == old(self).ledger().push(rel@),
    {
        self.patched_files.push(rel);
        assert(self.ledger() =~= old(self).ledger().push(rel@));
    }

    /// Takes every entry for `rel` out of the ledger.
    pub fn forget(&mut self, rel: &str)
        ensures
            final(self).steam_path == old(self).steam_path,
            final(self).td_path == old(self).td_path,
            final(self).ledger() == without(old(self).ledger(), rel@),
    {
        let key = String::from_str(rel);
        let mut kept: Vec<String> = Vec::new();
        let mut i: usize = 0;
        while i < self.patched_files.len()
            invariant
                self.steam_path == old(self).steam_path,
                self.td_path == old(self).td_path,
                self.patched_files == old(self).patched_files,
                i <= self.patched_files@.len(),
                key@ == rel@,
                views(kept@) == without(self.ledger().subrange(0, i as int), rel@),
            decreases self.patched_files.len() - i,
        {
            let ghost before = self.ledger().subrange(0, i as int);
            let ghost next = self.ledger().subrange(0, i + 1);
            assert(next.drop_last() =~= before);
            assert(next.last() == self.patched_files@[i as int]@);
            if !(self.patched_files[i] == key) {
                let s = self.patched_files[i].clone();
                kept.push(s);
                assert(views(kept@) =~= without(before, rel@).push(self.patched_files@[i as int]@));
            }
            i = i + 1;
        }
        assert(self.ledger().subrange(0, i as int) =~= self.ledger());
        self.patched_files = kept;
    }

    /// Leaves each path at most once in the ledger.
    pub fn remove_ledger_duplicates(&mut self)
        ensures
            final(self).steam_path == old(self).steam_path,
            final(self).td_path == old(self).td_path,
            final(self).ledger() == dedup(old(self).ledger()),
            no_dups(final(self).ledger()),
            forall|x: Seq<char>| final(self).ledger().contains(x) <==> old(self).ledger().contains(x),
    {
        let mut files: Vec<String> = Vec::new();
        std::mem::swap(&mut files, &mut self.patched_files);
        self.patched_files = remove_duplicates(files);
    }
}

/// The bytes that bincode writes for the three stored fields, in order.
pub uninterp spec fn config_encoding(steam: Seq<char>, game: Seq<char>, files: Seq<Seq<char>>) -> Seq<u8>;

/// The three stored fields that bincode reads from `bytes`, if it can.
pub uninterp spec fn config_decoding(bytes: Seq<u8>) -> Option<(Seq<char>, Seq<char>, Seq<Seq<char>>)>;

/// Relies on bincode::serialize, which writes a tuple field after field, as it
/// writes a struct with the same fields. With no size limit, strings and a
/// vector of strings always serialize, and bincode::deserialize reads back
/// what it wrote.
#[verifier::external_body]
fn encode_fields(steam: &String, game: &String, files: &Vec<String>) -> (r: Option<Vec<u8>>)
    ensures
        r.is_some(),
        r.unwrap()@ == config_encoding(steam@, game@, views(files@)),
        config_decoding(r.unwrap()@) == Some((steam@, game@, views(files@))),
{
    bincode::serialize(&(steam, game, files)).ok()
}

/// Relies on bincode::deserialize, which reads a tuple field after field;
/// `None` where it reports an error.
#[verifier::external_body]
fn decode_fields(bytes: &Vec<u8>) -> (r: Option<(String, String, Vec<String>)>)
    ensures
        r.is_some() == config_decoding(bytes@).is_some(),
        r.is_some() ==> (r.unwrap().0@, r.unwrap().1@, views(r.unwrap().2@)) == config_decoding(bytes@).unwrap(),
{
    bincode::deserialize::<(String, String, Vec<String>)>(bytes.as_slice()).ok()
}

/// Reads the stored configuration from the contents of its file, `None` where
/// there is no such file.
pub fn get(stored: Option<Vec<u8>>) -> (r: Result<Config, ErrorKind>)
    ensures
        stored is None ==> r == Err::<Config, _>(ErrorKind::NotFound),
        stored is Some ==> match config_decoding(stored.unwrap()@) {
            Some(t) => r is Ok && r.unwrap().fields() == t,
            None => r == Err::<Config, _>(ErrorKind::InvalidData),
        },
{
    match stored {
        None => Err(ErrorKind::NotFound),
        Some(bytes) => match decode_fields(&bytes) {
            Some((steam_path, td_path, patched_files)) => Ok(Config { steam_path, td_path, patched_files }),
            None => Err(ErrorKind::InvalidData),
        },
    }
}

/// The bytes to store for `cfg`; `get` reads them back as `cfg`.
pub fn save(cfg: &Config) -> (r: Result<Vec<u8>, ErrorKind>)
    ensures
        r is Ok,
        r.unwrap()@ == config_encoding(cfg.steam_path@, cfg.td_path@, cfg.ledger()),
        config_decoding(r.unwrap()@) == Some(cfg.fields()),
{
    match encode_fields(&cfg.steam_path, &cfg.td_path, &cfg.patched_files) {
        Some(bytes) => Ok(bytes),
        None => Err(ErrorKind::InvalidData),
    }
}

/// A new configuration from the looked-up install paths, with an empty ledger;
/// the first failed lookup is the error.
pub fn new_config(steam_path: Result<String, ErrorKind>, td_path: Result<String, ErrorKind>) -> (r: Result<
    Config,
    ErrorKind,
>)
    ensures
        steam_path is Err ==> r == Err::<Config, _>(steam_path->Err_0),
        steam_path is Ok && td_path is Err ==> r == Err::<Config, _>(td_path->Err_0),
        steam_path is Ok && td_path is Ok ==> (r matches Ok(c) && c.fields() == (
            steam_path->Ok_0@,
            td_path->Ok_0@,
            Seq::<Seq<char>>::empty(),
        )),
{
    let steam_path = steam_path?;
    let td_path = td_path?;
    let c = Config::new(steam_path, td_path);
    assert(c.ledger() =~= Seq::<Seq<char>>::empty());
    Ok(c)
}

/// Finds where Steam and the game are installed.
pub trait PathResolver {
    /// Where Steam is installed.
    fn steam_path(&mut self) -> Result<String, ErrorKind>;

    /// Where the game is installed.
    fn game_path(&mut self) -> Result<String, ErrorKind>;
}

/// Where the configuration is stored.
pub trait ConfigFile {
    /// Replaces the stored configuration with `bytes`.
    fn write(&mut self, bytes: &Vec<u8>) -> Result<(), ErrorKind>;
}

/// Loads the configuration from `stored`, the contents of its file. Where there
/// is no file, builds a new one with an empty ledger: the Steam path comes from
/// `auto`, the game's path from `auto` or else from `picker`; the new
/// configuration is then written to `file`.
pub fn init<A: PathResolver, B: PathResolver, F: ConfigFile>(
    stored: Option<Vec<u8>>,
    auto: &mut A,
    picker: &mut B,
    file: &mut F,
) -> (r: Result<Config, ErrorKind>)
    ensures
        stored is Some ==> match config_decoding(stored.unwrap()@) {
            Some(t) => r is Ok && r.unwrap().fields() == t,
            None => r == Err::<Config, _>(ErrorKind::InvalidData),
        },
        stored is None && r is Ok ==> r.unwrap().ledger().len() == 0,
{
    match get(stored) {
        Ok(cfg) => {
            return Ok(cfg);
        },
        Err(e) => {
            if e != ErrorKind::NotFound {
                return Err(e);
            }
        },
    }
    let steam_path = auto.steam_path()?;
    let td_path = match auto.game_path() {
        Ok(p) => Ok(p),
        Err(_) => picker.game_path(),
    };
    let cfg = new_config(Ok(steam_path), td_path)?;
    let bytes = save(&cfg)?;
    file.write(&bytes)?;
    Ok(cfg)
}

} // verus!
