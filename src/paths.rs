use vstd::prelude::*;
use vstd::string::*;

verus! {

/// Separators between the components of a path.
pub open spec fn is_sep(c: char) -> bool {
    c == '/' || c == '\\'
}

/// `s` names a file whose extension is exactly `ext`: it ends in `.` and `ext`,
/// and the file name has a non-empty stem before that dot.
pub open spec fn has_extension(s: Seq<char>, ext: Seq<char>) -> bool {
    let k = ext.len() + 1;
    &&& s.len() > k
    &&& s.subrange(s.len() - k, s.len() as int) == seq!['.'] + ext
    &&& !is_sep(s[s.len() - k - 1])
}

/// The extension of backup files.
pub open spec fn bak_ext() -> Seq<char> {
    seq!['b', 'a', 'k']
}

/// The extension of mod archives.
pub open spec fn zip_ext() -> Seq<char> {
    seq!['z', 'i', 'p']
}

/// Where the backup of the file at `p` lives: `p` with `.bak` appended.
pub open spec fn bak(p: Seq<char>) -> Seq<char> {
    p + seq!['.'] + bak_ext()
}

/// Whether `s` ends with the extension `ext`.
fn ends_with_extension(s: &str, ext: &str) -> (r: bool)
    ensures
        r == has_extension(s@, ext@),
{
    let n = s.unicode_len();
    let k = ext.unicode_len();
    if n <= k || n - k <= 1 {
        return false;
    }
    let start = n - k;
    let mut i: usize = 0;
    while i < k
        invariant
            n == s@.len(),
            k == ext@.len(),
            start == n - k,
            n > k + 1,
            i <= k,
            forall|j: int| 0 <= j < i ==> s@[start + j] == ext@[j],
        decreases k - i,
    {
        if s.get_char(start + i) != ext.get_char(i) {
            assert(s@.subrange(n - k - 1, n as int)[i + 1] != (seq!['.'] + ext@)[i + 1]);
            return false;
        }
        i = i + 1;
    }
    let dot = s.get_char(start - 1);
    let before = s.get_char(start - 2);
    if dot != '.' {
        assert(s@.subrange(n - k - 1, n as int)[0] != (seq!['.'] + ext@)[0]);
        return false;
    }
    assert(s@.subrange(n - k - 1, n as int) =~= seq!['.'] + ext@);
    !(before == '/' || before == '\\')
}

/// Whether `path` names a mod archive: its extension is `zip`.
pub fn is_archive_name(path: &str) -> (r: bool)
    ensures
        r == has_extension(path@, zip_ext()),
{
    proof {
        reveal_strlit("zip");
    }
    assert("zip"@ =~= zip_ext());
    ends_with_extension(path, "zip")
}

/// Names the backup of the file at `p` (`a.lua` becomes `a.lua.bak`, `a` becomes `a.bak`).
pub fn backup_path(p: &str) -> (r: String)
    ensures
        r@ == bak(p@),
{
    let mut r = String::from_str(p);
    r.append(".bak");
    proof {
        reveal_strlit(".bak");
    }
    assert(".bak"@ =~= seq!['.'] + bak_ext());
    assert(r@ =~= bak(p@));
    r
}

/// Recovers the path of a backed-up file from the path of its backup by dropping its `.bak`
/// extension; a path without that extension is refused.
pub fn restore_path(b: &str) -> (r: Result<String, crate::error::ErrorKind>)
    ensures
        has_extension(b@, bak_ext()) ==> (r matches Ok(p) && bak(p@) == b@),
        !has_extension(b@, bak_ext()) ==> r == Err::<String, _>(crate::error::ErrorKind::InvalidInput),
{
    proof {
        reveal_strlit("bak");
    }
    assert("bak"@ =~= bak_ext());
    if !ends_with_extension(b, "bak") {
        return Err(crate::error::ErrorKind::InvalidInput);
    }
    let n = b.unicode_len();
    let p = String::from_str(b.substring_char(0, n - 4));
    assert(b@ =~= p@ + b@.subrange(n - 4, n as int));
    assert(bak(p@) =~= b@);
    Ok(p)
}

} // verus!
