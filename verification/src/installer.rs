//! Installing resource packs from zip archives: which entries of an archive
//! are written where, and which archive paths are refused.

use vstd::prelude::*;
use crate::settings::{SettingsError, check_relative_path, relative_path_error, str_views};

verus! {

#[verifier::external_type_specification]
#[verifier::external_body]
pub struct ExZipError(zip::result::ZipError);

/// Why installing or removing a pack failed.
#[derive(Debug)]
pub enum ContentError {
    Settings(SettingsError),
    Zip(zip::result::ZipError),
    InvalidPack(String),
    UnknownPack(String),
}

/// A pack installed from Modrinth.
#[derive(Debug, Clone)]
pub struct InstalledPack {
    pub id: String,
    pub path: String,
    pub project_title: String,
    pub version_id: String,
}

/// The message of a refused archive path.
pub open spec fn unsafe_zip_path_message(rel: Seq<char>) -> Seq<char> {
    "unsafe zip path: "@ + rel
}

/// Accepts an archive path only if it is a relative path of ordinary names
/// (see [`relative_path_error`]).
pub fn safe_relative_path(rel: &str) -> (r: Result<String, ContentError>)
    ensures
        match relative_path_error(rel@) {
            None => r matches Ok(p) && p@ == rel@,
            Some(_) => r matches Err(ContentError::InvalidPack(m)) && m@ == unsafe_zip_path_message(
                rel@,
            ),
        },
{
    match check_relative_path(rel) {
        Ok(()) => Ok(String::from_str(rel)),
        Err(_) => {
            let mut m = String::from_str("unsafe zip path: ");
            m.append(rel);
            Err(ContentError::InvalidPack(m))
        },
    }
}

/// `s` with every backslash turned into a slash.
pub open spec fn with_slashes(s: Seq<char>) -> Seq<char> {
    s.map_values(|c: char| if c == '\\' { '/' } else { c })
}

/// Turns every backslash of `s` into a slash.
pub fn to_forward_slashes(s: &str) -> (r: String)
    ensures
        r@ == with_slashes(s@),
{
    let n = s.unicode_len();
    let mut out = String::new();
    let mut i: usize = 0;
    while i < n
        invariant
            n == s@.len(),
            i <= n,
            out@ == with_slashes(s@.take(i as int)),
        decreases n - i,
    {
        let c = s.get_char(i);
        if c == '\\' {
            out.append("/");
            proof {
                reveal_strlit("/");
            }
        } else {
            out.append(s.substring_char(i, i + 1));
        }
        assert(with_slashes(s@.take(i as int + 1)) =~= with_slashes(s@.take(i as int)).push(
            if c == '\\' { '/' } else { c },
        ));
        i = i + 1;
    }
    assert(s@.take(n as int) =~= s@);
    out
}

/// Index of the first slash of `s`, or -1.
pub open spec fn first_slash(s: Seq<char>) -> int
    decreases s.len(),
{
    if s.len() == 0 {
        -1
    } else {
        let r = first_slash(s.drop_last());
        if r >= 0 {
            r
        } else if s.last() == '/' {
            s.len() - 1
        } else {
            -1
        }
    }
}

proof fn lemma_first_slash(s: Seq<char>)
    ensures
        -1 <= first_slash(s) < s.len(),
        first_slash(s) >= 0 ==> s[first_slash(s)] == '/',
        forall|j: int| 0 <= j < s.len() && (first_slash(s) < 0 || j < first_slash(s)) ==> s[j] != '/',
    decreases s.len(),
{
    if s.len() > 0 {
        lemma_first_slash(s.drop_last());
        assert forall|j: int| 0 <= j < s.len() - 1 implies s.drop_last()[j] == s[j] by {}
    }
}

/// The part of `s` before its first slash (all of `s` without one).
pub open spec fn first_segment(s: Seq<char>) -> Seq<char> {
    if first_slash(s) >= 0 {
        s.take(first_slash(s))
    } else {
        s
    }
}

/// Where the first slash of `s` is, if there is one.
fn find_first_slash(s: &str) -> (r: Option<usize>)
    ensures
        match r {
            Some(k) => first_slash(s@) == k && k < s@.len(),
            None => first_slash(s@) < 0,
        },
{
    proof {
        lemma_first_slash(s@);
    }
    let n = s.unicode_len();
    let mut i: usize = 0;
    while i < n
        invariant
            n == s@.len(),
            i <= n,
            forall|j: int| 0 <= j < i ==> s@[j] != '/',
            -1 <= first_slash(s@) < s@.len(),
            first_slash(s@) >= 0 ==> s@[first_slash(s@)] == '/',
            forall|j: int|
                0 <= j < s@.len() && (first_slash(s@) < 0 || j < first_slash(s@)) ==> s@[j] != '/',
        decreases n - i,
    {
        if s.get_char(i) == '/' {
            return Some(i);
        }
        i = i + 1;
    }
    None
}

/// Scanning archive names for one top-level folder that wraps the whole
/// archive: `None` before any name, `Some(Some(p))` while every name lies
/// in folder `p`, `Some(None)` once a name sits at the archive root (has no
/// leading folder) or two names lie in different folders.
pub open spec fn prefix_scan(ns: Seq<Seq<char>>) -> Option<Option<Seq<char>>>
    decreases ns.len(),
{
    if ns.len() == 0 {
        None
    } else {
        let prev = prefix_scan(ns.drop_last());
        let n = ns.last();
        let first = first_segment(n);
        if first.len() > 0 && n.contains('/') {
            match prev {
                None => Some(Some(first)),
                Some(Some(p)) => if p == first {
                    prev
                } else {
                    Some(None)
                },
                Some(None) => prev,
            }
        } else {
            Some(None)
        }
    }
}

/// The folder that wraps every archive name, if there is one.
pub open spec fn top_level_prefix(ns: Seq<Seq<char>>) -> Option<Seq<char>> {
    match prefix_scan(ns) {
        Some(Some(p)) => Some(p),
        _ => None,
    }
}

proof fn lemma_segment_of_slash(n: Seq<char>)
    ensures
        (first_segment(n).len() > 0 && n.contains('/')) <==> first_slash(n) > 0,
{
    lemma_first_slash(n);
    if n.contains('/') {
        let k = choose|k: int| 0 <= k < n.len() && n[k] == '/';
        assert(first_slash(n) >= 0);
    }
    if first_slash(n) >= 0 {
        assert(n.contains('/')) by {
            assert(n[first_slash(n)] == '/');
        }
    }
}

/// Finds the folder that wraps every archive name, if there is one.
pub fn find_top_level_prefix(names: &Vec<String>) -> (r: Option<String>)
    ensures
        match r {
            Some(p) => top_level_prefix(str_views(names@)) == Some(p@),
            None => top_level_prefix(str_views(names@)) is None,
        },
{
    let ghost ns = str_views(names@);
    let mut found: Option<String> = None;
    let mut i: usize = 0;
    while i < names.len()
        invariant
            i <= names@.len(),
            ns == str_views(names@),
            match found {
                Some(p) => prefix_scan(ns.take(i as int)) == Some(Some(p@)),
                None => prefix_scan(ns.take(i as int)) is None,
            },
        decreases names@.len() - i,
    {
        assert(ns.take(i as int + 1).drop_last() =~= ns.take(i as int));
        assert(ns.take(i as int + 1).last() == names@[i as int]@);
        let name = names[i].as_str();
        proof {
            lemma_segment_of_slash(name@);
        }
        match find_first_slash(name) {
            Some(k) => {
                if k > 0 {
                    let first = name.substring_char(0, k);
                    match &found {
                        None => {
                            found = Some(String::from_str(first));
                        },
                        Some(p) => {
                            if !crate::text::str_eq(p.as_str(), first) {
                                proof {
                                    lemma_scan_stays_mixed(ns, i as int + 1);
                                    assert(prefix_scan(ns.take(i as int + 1)) == Some(
                                        None::<Seq<char>>,
                                    ));
                                    assert(ns.take(names@.len() as int) =~= ns);
                                }
                                return None;
                            }
                        },
                    }
                } else {
                    proof {
                        lemma_scan_stays_mixed(ns, i as int + 1);
                        assert(ns.take(names@.len() as int) =~= ns);
                    }
                    return None;
                }
            },
            None => {
                proof {
                    lemma_scan_stays_mixed(ns, i as int + 1);
                    assert(ns.take(names@.len() as int) =~= ns);
                }
                return None;
            },
        }
        i = i + 1;
    }
    assert(ns.take(names@.len() as int) =~= ns);
    found
}

/// Once two folders differ, the scan stays undecided whatever follows.
proof fn lemma_scan_stays_mixed(ns: Seq<Seq<char>>, k: int)
    requires
        0 <= k <= ns.len(),
        prefix_scan(ns.take(k)) == Some(None::<Seq<char>>),
    ensures
        prefix_scan(ns) == Some(None::<Seq<char>>),
    decreases ns.len() - k,
{
    if k < ns.len() {
        assert(ns.take(k + 1).drop_last() =~= ns.take(k));
        lemma_scan_stays_mixed(ns, k + 1);
    } else {
        assert(ns.take(k) =~= ns);
    }
}

/// An archive name relative to the shared top-level folder: the part after
/// `prefix` and a slash when the name starts with both, the whole name
/// otherwise.
pub open spec fn relative_name(n: Seq<char>, prefix: Option<Seq<char>>) -> Seq<char> {
    match prefix {
        Some(p) => if n.len() > p.len() && n.take(p.len() as int) == p && n[p.len() as int] == '/' {
            n.skip(p.len() as int + 1)
        } else {
            n
        },
        None => n,
    }
}

/// Whether `s` starts with `p`.
fn starts_with_str(s: &str, p: &str) -> (r: bool)
    ensures
        r == (p@.len() <= s@.len() && s@.take(p@.len() as int) == p@),
{
    let n = s.unicode_len();
    let m = p.unicode_len();
    if m > n {
        return false;
    }
    let mut i: usize = 0;
    while i < m
        invariant
            n == s@.len(),
            m == p@.len(),
            m <= n,
            i <= m,
            forall|j: int| 0 <= j < i ==> s@[j] == p@[j],
        decreases m - i,
    {
        if s.get_char(i) != p.get_char(i) {
            assert(s@.take(m as int)[i as int] != p@[i as int]);
            return false;
        }
        i = i + 1;
    }
    assert(s@.take(m as int) =~= p@);
    true
}

/// Strips the shared top-level folder and its slash from an archive name.
pub fn strip_top_level(name: &str, prefix: &Option<String>) -> (r: String)
    ensures
        r@ == relative_name(
            name@,
            match prefix {
                Some(p) => Some(p@),
                None => None,
            },
        ),
{
    match prefix {
        Some(p) => {
            let n = name.unicode_len();
            let m = p.unicode_len();
            if n > m && starts_with_str(name, p.as_str()) && name.get_char(m) == '/' {
                String::from_str(name.substring_char(m + 1, n))
            } else {
                String::from_str(name)
            }
        },
        None => String::from_str(name),
    }
}

/// What extracting one archive entry does.
#[derive(Debug, Clone, Copy, PartialEq, Eq, Structural)]
pub enum ZipEntryKind {
    /// Nothing: the entry is the shared top-level folder itself.
    Skip,
    /// Create the directory.
    Directory,
    /// Write the entry's bytes to the file.
    File,
}

/// One archive entry's extraction: what to do, at which path below the
/// destination.
#[derive(Debug, Clone)]
pub struct ZipEntryAction {
    pub kind: ZipEntryKind,
    pub path: String,
}

/// The extraction of an entry whose name relative to the top-level folder
/// is `rel`, or the message it is refused with.
pub open spec fn entry_action(rel: Seq<char>) -> Result<(ZipEntryKind, Seq<char>), Seq<char>> {
    if rel.len() == 0 {
        Ok((ZipEntryKind::Skip, rel))
    } else if relative_path_error(rel) is Some {
        Err(unsafe_zip_path_message(rel))
    } else if rel.last() == '/' {
        Ok((ZipEntryKind::Directory, rel))
    } else {
        Ok((ZipEntryKind::File, rel))
    }
}

/// The extraction of every entry in archive order, or the message of the
/// first refused entry.
pub open spec fn extraction_plan(ns: Seq<Seq<char>>, prefix: Option<Seq<char>>) -> Result<
    Seq<(ZipEntryKind, Seq<char>)>,
    Seq<char>,
>
    decreases ns.len(),
{
    if ns.len() == 0 {
        Ok(Seq::empty())
    } else {
        match extraction_plan(ns.drop_last(), prefix) {
            Err(m) => Err(m),
            Ok(acts) => match entry_action(relative_name(ns.last(), prefix)) {
                Err(m) => Err(m),
                Ok(a) => Ok(acts.push(a)),
            },
        }
    }
}

/// The archive names with slashes for backslashes.
pub open spec fn slashed_names(names: Seq<Seq<char>>) -> Seq<Seq<char>> {
    names.map_values(|n: Seq<char>| with_slashes(n))
}

/// Whether `acts` carry exactly the kinds and paths of `plan`.
pub open spec fn actions_match(acts: Seq<ZipEntryAction>, plan: Seq<(ZipEntryKind, Seq<char>)>) -> bool {
    &&& acts.len() == plan.len()
    &&& forall|i: int| 0 <= i < acts.len() ==> (#[trigger] acts[i].kind, acts[i].path@) == plan[i]
}

/// The result of planning an extraction of the archive names `names`.
pub open spec fn plan_outcome(names: Seq<Seq<char>>, r: Result<Vec<ZipEntryAction>, ContentError>) -> bool {
    let ns = slashed_names(names);
    match extraction_plan(ns, top_level_prefix(ns)) {
        Ok(plan) => r matches Ok(v) && actions_match(v@, plan),
        Err(m) => r matches Err(ContentError::InvalidPack(mm)) && mm@ == m,
    }
}

/// Plans the extraction of an archive from its entry names, in archive
/// order: backslashes become slashes; when one top-level folder wraps
/// every name, that folder is stripped; an entry naming
/// the folder itself is skipped, a name ending in a slash is a directory
/// and any other a file. The first entry whose path is not a relative path
/// of ordinary names refuses the whole archive.
pub fn plan_zip_extraction(names: &Vec<String>) -> (r: Result<Vec<ZipEntryAction>, ContentError>)
    ensures
        plan_outcome(str_views(names@), r),
{
    let ghost ns = slashed_names(str_views(names@));
    let mut slashed: Vec<String> = Vec::new();
    let mut i: usize = 0;
    while i < names.len()
        invariant
            i <= names@.len(),
            ns == slashed_names(str_views(names@)),
            str_views(slashed@) == ns.take(i as int),
        decreases names@.len() - i,
    {
        let s = to_forward_slashes(names[i].as_str());
        let ghost before = slashed@;
        slashed.push(s);
        assert(str_views(slashed@) =~= str_views(before).push(s@));
        assert(ns[i as int] == with_slashes(names@[i as int]@));
        assert(str_views(slashed@) =~= ns.take(i as int + 1));
        i = i + 1;
    }
    assert(ns.take(names@.len() as int) =~= ns);
    let prefix = find_top_level_prefix(&slashed);
    let ghost pre = top_level_prefix(ns);
    let mut out: Vec<ZipEntryAction> = Vec::new();
    let mut k: usize = 0;
    while k < slashed.len()
        invariant
            k <= slashed@.len(),
            str_views(slashed@) == ns,
            ns == slashed_names(str_views(names@)),
            pre == top_level_prefix(ns),
            pre == match prefix {
                Some(p) => Some(p@),
                None => None::<Seq<char>>,
            },
            extraction_plan(ns.take(k as int), pre) matches Ok(plan) && actions_match(out@, plan),
        decreases slashed@.len() - k,
    {
        assert(ns.take(k as int + 1).drop_last() =~= ns.take(k as int));
        assert(ns.take(k as int + 1).last() == slashed@[k as int]@);
        let rel = strip_top_level(slashed[k].as_str(), &prefix);
        let n = rel.unicode_len();
        let ghost plan0 = extraction_plan(ns.take(k as int), pre)->Ok_0;
        if n == 0 {
            out.push(ZipEntryAction { kind: ZipEntryKind::Skip, path: rel });
        } else {
            match safe_relative_path(rel.as_str()) {
                Err(e) => {
                    proof {
                        assert(relative_name(ns.take(k as int + 1).last(), pre) == rel@);
                        assert(extraction_plan(ns.take(k as int + 1), pre) == Err::<
                            Seq<(ZipEntryKind, Seq<char>)>,
                            Seq<char>,
                        >(unsafe_zip_path_message(rel@)));
                        lemma_plan_error_persists(ns, k as int + 1, pre);
                        assert(ns.take(slashed@.len() as int) =~= ns);
                    }
                    return Err(e);
                },
                Ok(p) => {
                    let kind = if rel.as_str().get_char(n - 1) == '/' {
                        ZipEntryKind::Directory
                    } else {
                        ZipEntryKind::File
                    };
                    out.push(ZipEntryAction { kind, path: p });
                },
            }
        }
        assert(actions_match(out@, extraction_plan(ns.take(k as int + 1), pre)->Ok_0));
        k = k + 1;
    }
    assert(ns.take(slashed@.len() as int) =~= ns);
    Ok(out)
}

/// A refused entry refuses the whole archive, with its own message.
proof fn lemma_plan_error_persists(ns: Seq<Seq<char>>, k: int, prefix: Option<Seq<char>>)
    requires
        0 <= k <= ns.len(),
        extraction_plan(ns.take(k), prefix) is Err,
    ensures
        extraction_plan(ns, prefix) == extraction_plan(ns.take(k), prefix),
    decreases ns.len() - k,
{
    if k < ns.len() {
        assert(ns.take(k + 1).drop_last() =~= ns.take(k));
        lemma_plan_error_persists(ns, k + 1, prefix);
    } else {
        assert(ns.take(k) =~= ns);
    }
}

/// The entry names of the zip archive held in `bytes`, in archive order, or
/// `None` when the archive or one of its entries cannot be read.
pub uninterp spec fn zip_entry_names(bytes: Seq<u8>) -> Option<Seq<Seq<char>>>;

/// Opens the archive with `zip::ZipArchive::new` over the bytes and reads
/// each entry with `ZipArchive::by_index`, listing `ZipFile::name` in
/// archive order; the first failure of either is returned. Claimed: the
/// listing is a function of the bytes alone, named [`zip_entry_names`].
#[verifier::external_body]
fn list_zip_entries(bytes: &[u8]) -> (r: Result<Vec<String>, zip::result::ZipError>)
    ensures
        match r {
            Ok(names) => zip_entry_names(bytes@) == Some(str_views(names@)),
            Err(_) => zip_entry_names(bytes@) is None,
        },
{
    let mut archive = zip::ZipArchive::new(std::io::Cursor::new(bytes))?;
    let mut names = Vec::new();
    for i in 0..archive.len() {
        names.push(archive.by_index(i)?.name().to_string());
    }
    Ok(names)
}

/// Plans the extraction of the zip archive held in `bytes` (see
/// [`plan_zip_extraction`]); an archive that cannot be read is a zip
/// error.
pub fn zip_extraction_plan(bytes: &[u8]) -> (r: Result<Vec<ZipEntryAction>, ContentError>)
    ensures
        match zip_entry_names(bytes@) {
            None => r matches Err(ContentError::Zip(_)),
            Some(ns) => plan_outcome(ns, r),
        },
{
    match list_zip_entries(bytes) {
        Err(e) => Err(ContentError::Zip(e)),
        Ok(names) => {
            plan_zip_extraction(&names)
        },
    }
}


/// Every directory or file an extraction plan creates lies inside the
/// destination: its path is a relative path of ordinary names (no `..`, no
/// leading `/` or `.`, no backslash).
pub proof fn lemma_planned_paths_are_safe(ns: Seq<Seq<char>>, prefix: Option<Seq<char>>)
    ensures
        extraction_plan(ns, prefix) matches Ok(plan) ==> forall|i: int|
            0 <= i < plan.len() && #[trigger] plan[i].0 != ZipEntryKind::Skip ==> relative_path_error(
                plan[i].1,
            ) is None,
    decreases ns.len(),
{
    if ns.len() > 0 {
        lemma_planned_paths_are_safe(ns.drop_last(), prefix);
        match extraction_plan(ns, prefix) {
            Ok(plan) => {
                let prev = extraction_plan(ns.drop_last(), prefix)->Ok_0;
                assert forall|i: int|
                    0 <= i < plan.len() && #[trigger] plan[i].0 != ZipEntryKind::Skip implies relative_path_error(
                        plan[i].1,
                    ) is None by {
                    if i < prev.len() {
                        assert(plan[i] == prev[i]);
                    }
                }
            },
            Err(_) => {},
        }
    }
}

} // verus!
