//! Resource-pack, player and graphics settings: the rules that keep the
//! settings file consistent. Reading and writing the file is done by the
//! caller; this module decides what the settings hold.

use vstd::prelude::*;

verus! {

/// Errors of settings operations.
#[derive(Debug)]
pub enum SettingsError {
    /// No resource pack has this id.
    UnknownPack(String),
    /// A resource pack path that is not a single safe relative directory.
    InvalidPath(String),
    /// A username the protocol rejects.
    InvalidUsername(String),
}

/// Player settings.
#[derive(Debug, Clone)]
pub struct PlayerSection {
    pub username: String,
}

/// Username used when the settings file names none.
pub fn default_username() -> (r: String)
    ensures
        r@ == "Player"@,
{
    String::from_str("Player")
}

impl Default for PlayerSection {
    fn default() -> (r: Self)
        ensures
            r.username@ == "Player"@,
    {
        PlayerSection { username: default_username() }
    }
}

/// Overall graphics quality.
#[derive(Debug, Clone, Copy, PartialEq, Eq, Structural)]
pub enum GraphicsQualityTier {
    Low,
    Medium,
    High,
    Ultra,
}

impl Default for GraphicsQualityTier {
    fn default() -> (r: Self)
        ensures
            r == GraphicsQualityTier::Medium,
    {
        GraphicsQualityTier::Medium
    }
}

/// How reflections are rendered.
#[derive(Debug, Clone, Copy, PartialEq, Eq, Structural)]
pub enum GraphicsReflectionTier {
    SkyOnly,
    Ssr,
    Planar,
}

impl Default for GraphicsReflectionTier {
    fn default() -> (r: Self)
        ensures
            r == GraphicsReflectionTier::Ssr,
    {
        GraphicsReflectionTier::Ssr
    }
}

/// Parses a stored reflection tier name. The removed `VoxelRt` tier loads as
/// `Planar` so that old settings files stay loadable; any other unknown name
/// is rejected.
pub fn parse_reflection_tier(name: &str) -> (r: Option<GraphicsReflectionTier>)
    ensures
        r == (if name@ == "SkyOnly"@ {
            Some(GraphicsReflectionTier::SkyOnly)
        } else if name@ == "Ssr"@ {
            Some(GraphicsReflectionTier::Ssr)
        } else if name@ == "Planar"@ || name@ == "VoxelRt"@ {
            Some(GraphicsReflectionTier::Planar)
        } else {
            None
        }),
{
    if crate::text::str_eq(name, "SkyOnly") {
        Some(GraphicsReflectionTier::SkyOnly)
    } else if crate::text::str_eq(name, "Ssr") {
        Some(GraphicsReflectionTier::Ssr)
    } else if crate::text::str_eq(name, "Planar") || crate::text::str_eq(name, "VoxelRt") {
        Some(GraphicsReflectionTier::Planar)
    } else {
        None
    }
}

/// Number of shadow cascades when the settings file names none.
pub fn default_shadow_cascades() -> (r: u32)
    ensures
        r == 3,
{
    3
}

/// Bit pattern of the default shadow distance, 96.0 as an `f32`.
pub fn default_shadow_distance_bits() -> (r: u32)
    ensures
        r == 0x42C0_0000,
{
    0x42C0_0000
}

/// Default for the graphics toggles that are on unless turned off.
pub fn default_true() -> (r: bool)
    ensures
        r,
{
    true
}

/// Graphics settings. The shadow distance is an `f32` held by its bit
/// pattern (`f32::to_bits`).
#[derive(Debug, Clone, Copy)]
pub struct GraphicsSection {
    pub tier: GraphicsQualityTier,
    pub reflection_tier: GraphicsReflectionTier,
    pub shadow_cascades: u32,
    pub shadow_distance_bits: u32,
    pub ssao: bool,
    pub bloom: bool,
    pub taa: bool,
    pub volumetric_light: bool,
    pub fog: bool,
    pub dof: bool,
    pub sharpen: bool,
}

impl Default for GraphicsSection {
    fn default() -> (r: Self)
        ensures
            r.tier == GraphicsQualityTier::Medium,
            r.reflection_tier == GraphicsReflectionTier::Ssr,
            r.shadow_cascades == 3,
            r.shadow_distance_bits == 0x42C0_0000,
            r.ssao && r.bloom && r.taa && !r.volumetric_light && r.fog && !r.dof && r.sharpen,
    {
        GraphicsSection {
            tier: GraphicsQualityTier::Medium,
            reflection_tier: GraphicsReflectionTier::Ssr,
            shadow_cascades: default_shadow_cascades(),
            shadow_distance_bits: default_shadow_distance_bits(),
            ssao: true,
            bloom: true,
            taa: true,
            volumetric_light: false,
            fog: true,
            dof: false,
            sharpen: true,
        }
    }
}

/// A resource pack installed from Modrinth.
#[derive(Debug, Clone)]
pub struct ModrinthSource {
    pub project: String,
    pub version_id: String,
}

/// Where a resource pack came from.
#[derive(Debug, Clone)]
pub enum ContentSource {
    Local,
    Modrinth(ModrinthSource),
}

impl ContentSource {
    pub fn local() -> (r: Self)
        ensures
            r is Local,
    {
        ContentSource::Local
    }

    pub fn modrinth(project: String, version_id: String) -> (r: Self)
        ensures
            r matches ContentSource::Modrinth(m) && m.project == project && m.version_id
                == version_id,
    {
        ContentSource::Modrinth(ModrinthSource { project, version_id })
    }

    pub fn is_modrinth(&self) -> (r: bool)
        ensures
            r == (self is Modrinth),
    {
        match self {
            ContentSource::Modrinth(_) => true,
            ContentSource::Local => false,
        }
    }
}

/// Resource packs are enabled unless the settings file says otherwise.
pub fn default_enabled() -> (r: bool)
    ensures
        r,
{
    true
}

/// Resource packs are local unless the settings file says otherwise.
pub fn default_source() -> (r: ContentSource)
    ensures
        r is Local,
{
    ContentSource::local()
}

/// One installed resource pack.
#[derive(Debug, Clone)]
pub struct ResourcePackEntry {
    pub id: String,
    /// Directory name under the resource pack folder.
    pub path: String,
    pub enabled: bool,
    pub source: ContentSource,
    pub installed_at: Option<String>,
}

/// Resource pack settings.
#[derive(Debug, Clone)]
pub struct ContentSection {
    /// Pack ids in priority order.
    pub resource_pack_order: Vec<String>,
    pub resource_pack_setup_dismissed: bool,
    pub resource_packs: Vec<ResourcePackEntry>,
}

impl Default for ContentSection {
    fn default() -> (r: Self)
        ensures
            r.resource_pack_order@.len() == 0,
            !r.resource_pack_setup_dismissed,
            r.resource_packs@.len() == 0,
    {
        ContentSection {
            resource_pack_order: Vec::new(),
            resource_pack_setup_dismissed: false,
            resource_packs: Vec::new(),
        }
    }
}

/// Direction to move a pack in the priority order.
#[derive(Debug, Clone, Copy, PartialEq, Eq, Structural)]
pub enum MoveDirection {
    Up,
    Down,
}


/// The first character is a path separator.
pub open spec fn is_absolute_path(s: Seq<char>) -> bool {
    s.len() > 0 && s[0] == '/'
}

/// The path starts with a `.` component.
pub open spec fn leading_cur_dir(s: Seq<char>) -> bool {
    s.len() > 0 && s[0] == '.' && (s.len() == 1 || s[1] == '/')
}

/// A `..` component starts at character `i`.
pub open spec fn parent_segment_at(s: Seq<char>, i: int) -> bool {
    &&& 0 <= i
    &&& i + 2 <= s.len()
    &&& s[i] == '.'
    &&& s[i + 1] == '.'
    &&& (i == 0 || s[i - 1] == '/')
    &&& (i + 2 == s.len() || s[i + 2] == '/')
}

pub open spec fn has_parent_segment(s: Seq<char>) -> bool {
    exists|i: int| parent_segment_at(s, i)
}

/// A component other than the first starts at character `j`: a name after
/// a `/`, where a `.` component counts for nothing (as path parsing
/// skips it).
pub open spec fn later_segment_at(s: Seq<char>, j: int) -> bool {
    &&& 1 <= j < s.len()
    &&& s[j - 1] == '/'
    &&& s[j] != '/'
    &&& !(s[j] == '.' && (j + 1 == s.len() || s[j + 1] == '/'))
}

/// The path has more than one component.
pub open spec fn has_second_segment(s: Seq<char>) -> bool {
    exists|j: int| later_segment_at(s, j)
}

/// Why a pack directory name is rejected, if it is: it must be a single
/// ordinary name (a trailing `/` or a `.` component after it is ignored, as
/// path parsing does).
pub open spec fn pack_path_error(s: Seq<char>) -> Option<Seq<char>> {
    match relative_path_error(s) {
        Some(m) => Some(m),
        None => if has_second_segment(s) {
            Some(s)
        } else {
            None
        },
    }
}

/// Why a relative path is rejected, if it is: it must be a relative path
/// whose components are all ordinary names (`/` separates components; a
/// `.` component after the first one is ignored, as path parsing does).
pub open spec fn relative_path_error(s: Seq<char>) -> Option<Seq<char>> {
    if s.len() == 0 {
        Some("empty path"@)
    } else if s.contains('\\') {
        Some("backslash not allowed"@)
    } else if is_absolute_path(s) {
        Some("absolute path"@)
    } else if leading_cur_dir(s) || has_parent_segment(s) {
        Some(s)
    } else {
        None
    }
}

/// Whether `c` occurs in `s`.
pub fn contains_char(s: &str, c: char) -> (r: bool)
    ensures
        r == s@.contains(c),
{
    let n = s.unicode_len();
    let mut i: usize = 0;
    while i < n
        invariant
            n == s@.len(),
            i <= n,
            forall|j: int| 0 <= j < i ==> s@[j] != c,
        decreases n - i,
    {
        if s.get_char(i) == c {
            return true;
        }
        i = i + 1;
    }
    false
}

/// Whether a `..` component occurs in `s`.
fn find_parent_segment(s: &str) -> (r: bool)
    ensures
        r == has_parent_segment(s@),
{
    let n = s.unicode_len();
    if n < 2 {
        return false;
    }
    let mut i: usize = 0;
    while i < n - 1
        invariant
            n == s@.len(),
            n >= 2,
            i <= n - 1,
            forall|j: int| 0 <= j < i ==> !parent_segment_at(s@, j),
        decreases n - i,
    {
        if s.get_char(i) == '.' && s.get_char(i + 1) == '.' && (i == 0 || s.get_char(i - 1)
            == '/') && (i + 2 == n || s.get_char(i + 2) == '/') {
            assert(parent_segment_at(s@, i as int));
            return true;
        }
        i = i + 1;
    }
    false
}

/// Whether `s` has more than one component.
fn find_second_segment(s: &str) -> (r: bool)
    ensures
        r == has_second_segment(s@),
{
    let n = s.unicode_len();
    let mut j: usize = 1;
    while j < n
        invariant
            n == s@.len(),
            1 <= j,
            forall|k: int| 1 <= k < j ==> !later_segment_at(s@, k),
        decreases n - j,
    {
        let c = s.get_char(j);
        if s.get_char(j - 1) == '/' && c != '/' && !(c == '.' && (j + 1 == n || s.get_char(j + 1)
            == '/')) {
            assert(later_segment_at(s@, j as int));
            return true;
        }
        j = j + 1;
    }
    false
}

/// Rejects anything but a relative path of ordinary names.
pub fn check_relative_path(path: &str) -> (r: Result<(), SettingsError>)
    ensures
        match relative_path_error(path@) {
            None => r is Ok,
            Some(msg) => r matches Err(SettingsError::InvalidPath(m)) && m@ == msg,
        },
{
    if path.unicode_len() == 0 {
        return Err(SettingsError::InvalidPath(String::from_str("empty path")));
    }
    if contains_char(path, '\\') {
        return Err(SettingsError::InvalidPath(String::from_str("backslash not allowed")));
    }
    if path.get_char(0) == '/' {
        return Err(SettingsError::InvalidPath(String::from_str("absolute path")));
    }
    let n = path.unicode_len();
    if (path.get_char(0) == '.' && (n == 1 || path.get_char(1) == '/')) || find_parent_segment(
        path,
    ) {
        return Err(SettingsError::InvalidPath(path.to_owned()));
    }
    Ok(())
}

/// The character sequences of a list of strings.
pub open spec fn str_views(v: Seq<String>) -> Seq<Seq<char>> {
    v.map_values(|x: String| x@)
}

/// The ids of a list of resource packs.
pub open spec fn pack_ids(p: Seq<ResourcePackEntry>) -> Seq<Seq<char>> {
    p.map_values(|e: ResourcePackEntry| e.id@)
}

/// Index of the first occurrence of `id` in `ids`, or -1.
pub open spec fn first_index(ids: Seq<Seq<char>>, id: Seq<char>) -> int
    decreases ids.len(),
{
    if ids.len() == 0 {
        -1
    } else {
        let r = first_index(ids.drop_last(), id);
        if r >= 0 {
            r
        } else if ids.last() == id {
            ids.len() - 1
        } else {
            -1
        }
    }
}

pub proof fn lemma_first_index(ids: Seq<Seq<char>>, id: Seq<char>)
    ensures
        -1 <= first_index(ids, id) < ids.len(),
        first_index(ids, id) == -1 <==> !ids.contains(id),
        first_index(ids, id) >= 0 ==> ids[first_index(ids, id)] == id,
        forall|j: int| 0 <= j < first_index(ids, id) ==> ids[j] != id,
        first_index(ids, id) == -1 ==> forall|j: int| 0 <= j < ids.len() ==> ids[j] != id,
    decreases ids.len(),
{
    if ids.len() > 0 {
        lemma_first_index(ids.drop_last(), id);
        let r = first_index(ids.drop_last(), id);
        if r >= 0 {
            assert(ids.contains(id)) by {
                assert(ids[r] == id);
            }
            assert forall|j: int| 0 <= j < r implies ids[j] != id by {
                assert(ids.drop_last()[j] == ids[j]);
            }
        } else if ids.last() == id {
            assert(ids.contains(id)) by {
                assert(ids[ids.len() - 1] == id);
            }
            assert forall|j: int| 0 <= j < ids.len() - 1 implies ids[j] != id by {
                assert(ids.drop_last()[j] == ids[j]);
            }
        } else {
            assert forall|j: int| 0 <= j < ids.len() implies ids[j] != id by {
                if j < ids.len() - 1 {
                    assert(ids.drop_last()[j] == ids[j]);
                }
            }
        }
    }
}

/// A position `k` where `id` occurs with no earlier occurrence is the first
/// index.
pub proof fn lemma_first_index_unique(ids: Seq<Seq<char>>, id: Seq<char>, k: int)
    requires
        0 <= k < ids.len(),
        ids[k] == id,
        forall|j: int| 0 <= j < k ==> ids[j] != id,
    ensures
        first_index(ids, id) == k,
{
    lemma_first_index(ids, id);
    assert(ids.contains(id));
}

/// Position of the first pack with this id.
pub fn position_of_pack(packs: &Vec<ResourcePackEntry>, id: &str) -> (r: Option<usize>)
    ensures
        match r {
            Some(k) => k as int == first_index(pack_ids(packs@), id@) && k < packs@.len(),
            None => first_index(pack_ids(packs@), id@) == -1,
        },
{
    let ghost ids = pack_ids(packs@);
    let mut k: usize = 0;
    while k < packs.len()
        invariant
            k <= packs@.len(),
            ids == pack_ids(packs@),
            forall|j: int| 0 <= j < k ==> ids[j] != id@,
        decreases packs@.len() - k,
    {
        if crate::text::str_eq(packs[k].id.as_str(), id) {
            proof {
                lemma_first_index_unique(ids, id@, k as int);
            }
            return Some(k);
        }
        k = k + 1;
    }
    proof {
        lemma_first_index(ids, id@);
        if ids.contains(id@) {
            let j = choose|j: int| 0 <= j < ids.len() && ids[j] == id@;
        }
    }
    None
}

/// Position of the first occurrence of `id` in a list of strings.
pub fn position_of_str(v: &Vec<String>, id: &str) -> (r: Option<usize>)
    ensures
        match r {
            Some(k) => k as int == first_index(str_views(v@), id@) && k < v@.len(),
            None => first_index(str_views(v@), id@) == -1,
        },
{
    let ghost ids = str_views(v@);
    let mut k: usize = 0;
    while k < v.len()
        invariant
            k <= v@.len(),
            ids == str_views(v@),
            forall|j: int| 0 <= j < k ==> ids[j] != id@,
        decreases v@.len() - k,
    {
        if crate::text::str_eq(v[k].as_str(), id) {
            proof {
                lemma_first_index_unique(ids, id@, k as int);
            }
            return Some(k);
        }
        k = k + 1;
    }
    proof {
        lemma_first_index(ids, id@);
        if ids.contains(id@) {
            let j = choose|j: int| 0 <= j < ids.len() && ids[j] == id@;
        }
    }
    None
}

/// Whether `id` occurs in a list of strings.
pub fn contains_str(v: &Vec<String>, id: &str) -> (r: bool)
    ensures
        r == str_views(v@).contains(id@),
{
    proof {
        lemma_first_index(str_views(v@), id@);
    }
    position_of_str(v, id).is_some()
}

/// Whether some pack has this id.
pub fn contains_pack(packs: &Vec<ResourcePackEntry>, id: &str) -> (r: bool)
    ensures
        r == pack_ids(packs@).contains(id@),
{
    proof {
        lemma_first_index(pack_ids(packs@), id@);
    }
    position_of_pack(packs, id).is_some()
}

/// `order` with every pack id missing from it appended, in pack order and
/// each at most once.
pub open spec fn append_missing(order: Seq<Seq<char>>, ids: Seq<Seq<char>>) -> Seq<Seq<char>>
    decreases ids.len(),
{
    if ids.len() == 0 {
        order
    } else {
        let o = append_missing(order, ids.drop_last());
        if o.contains(ids.last()) {
            o
        } else {
            o.push(ids.last())
        }
    }
}

/// The priority order after normalizing: unknown ids dropped, then every
/// pack that is missing from the order appended.
pub open spec fn normalized_order(order: Seq<Seq<char>>, ids: Seq<Seq<char>>) -> Seq<Seq<char>> {
    append_missing(order.filter(|x: Seq<char>| ids.contains(x)), ids)
}

/// Keeps the strings of `v` for which `keep` holds of their characters.
fn retain_strs(v: &mut Vec<String>, known: &Vec<ResourcePackEntry>)
    ensures
        str_views(final(v)@) == str_views(old(v)@).filter(
            |x: Seq<char>| pack_ids(known@).contains(x),
        ),
{
    let ghost pred = |x: Seq<char>| pack_ids(known@).contains(x);
    let mut out: Vec<String> = Vec::new();
    let mut k: usize = 0;
    while k < v.len()
        invariant
            k <= v@.len(),
            v@ == old(v)@,
            pred == (|x: Seq<char>| pack_ids(known@).contains(x)),
            str_views(out@) == str_views(v@).take(k as int).filter(pred),
        decreases v@.len() - k,
    {
        let ghost before = str_views(v@).take(k as int);
        assert(str_views(v@).take(k as int + 1).drop_last() =~= before);
        if contains_pack(known, v[k].as_str()) {
            let c = v[k].clone();
            out.push(c);
        }
        proof {
            reveal_with_fuel(Seq::<_>::filter, 1);
            assert(str_views(out@) =~= str_views(v@).take(k as int + 1).filter(pred));
        }
        k = k + 1;
    }
    assert(str_views(v@).take(v@.len() as int) =~= str_views(v@));
    *v = out;
}

/// Removes every occurrence of `id` from a list of strings.
fn remove_str(v: &mut Vec<String>, id: &str)
    ensures
        str_views(final(v)@) == str_views(old(v)@).filter(|x: Seq<char>| x != id@),
{
    let ghost pred = |x: Seq<char>| x != id@;
    let mut out: Vec<String> = Vec::new();
    let mut k: usize = 0;
    while k < v.len()
        invariant
            k <= v@.len(),
            v@ == old(v)@,
            pred == (|x: Seq<char>| x != id@),
            str_views(out@) == str_views(v@).take(k as int).filter(pred),
        decreases v@.len() - k,
    {
        let ghost before = str_views(v@).take(k as int);
        assert(str_views(v@).take(k as int + 1).drop_last() =~= before);
        if !crate::text::str_eq(v[k].as_str(), id) {
            let c = v[k].clone();
            out.push(c);
        }
        proof {
            reveal_with_fuel(Seq::<_>::filter, 1);
            assert(str_views(out@) =~= str_views(v@).take(k as int + 1).filter(pred));
        }
        k = k + 1;
    }
    assert(str_views(v@).take(v@.len() as int) =~= str_views(v@));
    *v = out;
}

/// Appends every pack id missing from `order`.
fn append_missing_ids(order: &mut Vec<String>, packs: &Vec<ResourcePackEntry>)
    ensures
        str_views(final(order)@) == append_missing(str_views(old(order)@), pack_ids(packs@)),
{
    let ghost start = str_views(order@);
    let ghost ids = pack_ids(packs@);
    let mut k: usize = 0;
    assert(ids.take(0) =~= Seq::<Seq<char>>::empty());
    while k < packs.len()
        invariant
            k <= packs@.len(),
            ids == pack_ids(packs@),
            start == str_views(old(order)@),
            str_views(order@) == append_missing(start, ids.take(k as int)),
        decreases packs@.len() - k,
    {
        assert(ids.take(k as int + 1).drop_last() =~= ids.take(k as int));
        assert(ids.take(k as int + 1).last() == packs@[k as int].id@);
        if !contains_str(order, packs[k].id.as_str()) {
            let c = packs[k].id.clone();
            order.push(c);
            assert(str_views(order@) =~= append_missing(start, ids.take(k as int)).push(
                packs@[k as int].id@,
            ));
        }
        k = k + 1;
    }
    assert(ids.take(packs@.len() as int) =~= ids);
}


/// The settings file's sections.
#[derive(Debug, Clone)]
pub struct ContentSettingsFile {
    pub content: ContentSection,
    pub player: PlayerSection,
    pub graphics: GraphicsSection,
}

impl Default for ContentSettingsFile {
    fn default() -> (r: Self)
        ensures
            r.content.resource_pack_order@.len() == 0,
            !r.content.resource_pack_setup_dismissed,
            r.content.resource_packs@.len() == 0,
            r.player.username@ == "Player"@,
            r.graphics.tier == GraphicsQualityTier::Medium,
            r.graphics.reflection_tier == GraphicsReflectionTier::Ssr,
            r.graphics.shadow_cascades == 3,
            r.graphics.shadow_distance_bits == 0x42C0_0000,
            r.graphics.ssao && r.graphics.bloom && r.graphics.taa && !r.graphics.volumetric_light
                && r.graphics.fog && !r.graphics.dof && r.graphics.sharpen,
    {
        ContentSettingsFile {
            content: ContentSection::default(),
            player: PlayerSection::default(),
            graphics: GraphicsSection::default(),
        }
    }
}

/// Whether a pack's directory name is acceptable.
pub open spec fn pack_path_ok(e: ResourcePackEntry) -> bool {
    pack_path_error(e.path@) is None
}

/// The packs kept when a settings file is loaded.
pub open spec fn valid_packs(p: Seq<ResourcePackEntry>) -> Seq<ResourcePackEntry> {
    p.filter(|e: ResourcePackEntry| pack_path_ok(e))
}

/// Asset path of a pack directory relative to the data root's parent.
pub open spec fn asset_path(data_root: Seq<char>, path: Seq<char>) -> Seq<char> {
    data_root + "/resourcepacks/"@ + path
}

/// Indices of the packs that are used, in priority order: for each id in
/// the order, its first pack, when that pack is enabled and present on disk.
pub open spec fn enabled_indices(
    order: Seq<Seq<char>>,
    packs: Seq<ResourcePackEntry>,
    present: Seq<bool>,
) -> Seq<int>
    decreases order.len(),
{
    if order.len() == 0 {
        Seq::empty()
    } else {
        let prev = enabled_indices(order.drop_last(), packs, present);
        let k = first_index(pack_ids(packs), order.last());
        if k >= 0 && packs[k].enabled && present[k] {
            prev.push(k)
        } else {
            prev
        }
    }
}

/// Resource-pack, player and graphics settings of one data directory.
#[derive(Debug, Clone)]
pub struct ContentSettings {
    data_dir: String,
    file: ContentSettingsFile,
}

impl ContentSettings {
    pub closed spec fn file_spec(&self) -> ContentSettingsFile {
        self.file
    }

    pub closed spec fn data_dir_spec(&self) -> Seq<char> {
        self.data_dir@
    }

    /// The installed packs.
    pub open spec fn packs(&self) -> Seq<ResourcePackEntry> {
        self.file_spec().content.resource_packs@
    }

    /// The pack ids in priority order.
    pub open spec fn order(&self) -> Seq<Seq<char>> {
        str_views(self.file_spec().content.resource_pack_order@)
    }

    /// Everything but the pack list and the priority order is as in `other`.
    pub open spec fn same_but_packs(&self, other: &Self) -> bool {
        &&& self.data_dir_spec() == other.data_dir_spec()
        &&& self.file_spec().player == other.file_spec().player
        &&& self.file_spec().graphics == other.file_spec().graphics
        &&& self.file_spec().content.resource_pack_setup_dismissed
            == other.file_spec().content.resource_pack_setup_dismissed
    }

    /// Rejects path traversal and pack directory names that are not a
    /// single segment.
    pub fn validate_pack_path(path: &str) -> (r: Result<(), SettingsError>)
        ensures
            match pack_path_error(path@) {
                None => r is Ok,
                Some(msg) => r matches Err(SettingsError::InvalidPath(m)) && m@ == msg,
            },
    {
        match check_relative_path(path) {
            Err(e) => Err(e),
            Ok(()) => {
                if find_second_segment(path) {
                    Err(SettingsError::InvalidPath(path.to_owned()))
                } else {
                    Ok(())
                }
            },
        }
    }

    /// Settings with every section at its default.
    pub fn empty(data_dir: String) -> (r: Self)
        ensures
            r.data_dir_spec() == data_dir@,
            r.packs().len() == 0,
            r.order().len() == 0,
            !r.file_spec().content.resource_pack_setup_dismissed,
            r.file_spec().player.username@ == "Player"@,
            r.file_spec().graphics.tier == GraphicsQualityTier::Medium,
            r.file_spec().graphics.reflection_tier == GraphicsReflectionTier::Ssr,
            r.file_spec().graphics.shadow_cascades == 3,
            r.file_spec().graphics.shadow_distance_bits == 0x42C0_0000,
    {
        ContentSettings { data_dir, file: ContentSettingsFile::default() }
    }

    /// Settings read from a settings file: packs with an unsafe directory
    /// name are dropped, the priority order keeps only known ids, and every
    /// known pack missing from the order is appended to it.
    pub fn from_file(data_dir: String, file: ContentSettingsFile) -> (r: Self)
        ensures
            r.data_dir_spec() == data_dir@,
            r.packs() == valid_packs(file.content.resource_packs@),
            r.order() == normalized_order(
                str_views(file.content.resource_pack_order@).filter(
                    |x: Seq<char>| pack_ids(valid_packs(file.content.resource_packs@)).contains(x),
                ),
                pack_ids(valid_packs(file.content.resource_packs@)),
            ),
            r.file_spec().player == file.player,
            r.file_spec().graphics == file.graphics,
            r.file_spec().content.resource_pack_setup_dismissed
                == file.content.resource_pack_setup_dismissed,
    {
        let mut file = file;
        Self::sanitize_loaded_packs(&mut file);
        let mut this = ContentSettings { data_dir, file };
        this.normalize_order();
        this
    }

    /// Drops packs with an unsafe directory name, then order ids of no pack.
    fn sanitize_loaded_packs(file: &mut ContentSettingsFile)
        ensures
            final(file).content.resource_packs@ == valid_packs(old(file).content.resource_packs@),
            str_views(final(file).content.resource_pack_order@) == str_views(
                old(file).content.resource_pack_order@,
            ).filter(
                |x: Seq<char>| pack_ids(valid_packs(old(file).content.resource_packs@)).contains(x),
            ),
            final(file).player == old(file).player,
            final(file).graphics == old(file).graphics,
            final(file).content.resource_pack_setup_dismissed
                == old(file).content.resource_pack_setup_dismissed,
    {
        let ghost orig = file.content.resource_packs@;
        let total = file.content.resource_packs.len();
        assert(orig.len() == total);
        let mut rest: Vec<ResourcePackEntry> = Vec::new();
        std::mem::swap(&mut rest, &mut file.content.resource_packs);
        let mut kept: Vec<ResourcePackEntry> = Vec::new();
        let ghost pred = |e: ResourcePackEntry| pack_path_ok(e);
        let mut n: usize = 0;
        while rest.len() > 0
            invariant
                n <= orig.len(),
                rest@ == orig.skip(n as int),
                rest@.len() == orig.len() - n,
                orig.len() <= usize::MAX,
                pred == (|e: ResourcePackEntry| pack_path_ok(e)),
                kept@ == orig.take(n as int).filter(pred),
            decreases rest@.len(),
        {
            let e = rest.remove(0);
            assert(orig.take(n as int + 1).drop_last() =~= orig.take(n as int));
            assert(orig.take(n as int + 1).last() == e);
            if Self::validate_pack_path(e.path.as_str()).is_ok() {
                kept.push(e);
            }
            proof {
                reveal_with_fuel(Seq::<_>::filter, 1);
            }
            n = n + 1;
            assert(rest@ =~= orig.skip(n as int));
        }
        assert(orig.take(n as int) =~= orig);
        file.content.resource_packs = kept;
        retain_strs(&mut file.content.resource_pack_order, &file.content.resource_packs);
    }

    /// Drops order ids of no pack, then appends each pack missing from the
    /// order.
    fn normalize_order(&mut self)
        ensures
            final(self).packs() == old(self).packs(),
            final(self).order() == normalized_order(old(self).order(), pack_ids(old(self).packs())),
            final(self).same_but_packs(old(self)),
    {
        retain_strs(&mut self.file.content.resource_pack_order, &self.file.content.resource_packs);
        append_missing_ids(
            &mut self.file.content.resource_pack_order,
            &self.file.content.resource_packs,
        );
    }

    pub fn data_dir(&self) -> (r: &String)
        ensures
            r@ == self.data_dir_spec(),
    {
        &self.data_dir
    }

    pub fn content(&self) -> (r: &ContentSection)
        ensures
            *r == self.file_spec().content,
    {
        &self.file.content
    }

    /// The content section, for changing it in place.
    pub fn content_mut(&mut self) -> (r: &mut ContentSection)
        ensures
            *r == old(self).file_spec().content,
            final(self).file_spec().content == *final(r),
            final(self).file_spec().player == old(self).file_spec().player,
            final(self).file_spec().graphics == old(self).file_spec().graphics,
            final(self).data_dir_spec() == old(self).data_dir_spec(),
    {
        &mut self.file.content
    }

    pub fn graphics(&self) -> (r: &GraphicsSection)
        ensures
            *r == self.file_spec().graphics,
    {
        &self.file.graphics
    }

    pub fn set_graphics(&mut self, section: GraphicsSection)
        ensures
            final(self).file_spec().graphics == section,
            final(self).file_spec().player == old(self).file_spec().player,
            final(self).file_spec().content == old(self).file_spec().content,
            final(self).data_dir_spec() == old(self).data_dir_spec(),
    {
        self.file.graphics = section;
    }

    pub fn player(&self) -> (r: &PlayerSection)
        ensures
            *r == self.file_spec().player,
    {
        &self.file.player
    }

    pub fn username(&self) -> (r: &str)
        ensures
            r@ == self.file_spec().player.username@,
    {
        self.file.player.username.as_str()
    }

    /// Sets the username when the protocol's username check (`check`, the
    /// outcome of validating `username`) accepted it; otherwise reports the
    /// check's message and changes nothing.
    pub fn set_username(&mut self, username: String, check: Result<(), String>) -> (r: Result<
        (),
        SettingsError,
    >)
        ensures
            match check {
                Ok(()) => {
                    &&& r is Ok
                    &&& final(self).file_spec().player.username == username
                },
                Err(msg) => {
                    &&& r matches Err(SettingsError::InvalidUsername(m)) && m == msg
                    &&& final(self).file_spec().player == old(self).file_spec().player
                },
            },
            final(self).file_spec().graphics == old(self).file_spec().graphics,
            final(self).file_spec().content == old(self).file_spec().content,
            final(self).data_dir_spec() == old(self).data_dir_spec(),
    {
        match check {
            Ok(()) => {
                self.file.player.username = username;
                Ok(())
            },
            Err(msg) => Err(SettingsError::InvalidUsername(msg)),
        }
    }

    pub fn resource_pack_setup_dismissed(&self) -> (r: bool)
        ensures
            r == self.file_spec().content.resource_pack_setup_dismissed,
    {
        self.file.content.resource_pack_setup_dismissed
    }

    pub fn set_setup_dismissed(&mut self, dismissed: bool)
        ensures
            final(self).file_spec().content.resource_pack_setup_dismissed == dismissed,
            final(self).packs() == old(self).packs(),
            final(self).file_spec().content.resource_pack_order == old(self).file_spec().content.resource_pack_order,
            final(self).file_spec().player == old(self).file_spec().player,
            final(self).file_spec().graphics == old(self).file_spec().graphics,
            final(self).data_dir_spec() == old(self).data_dir_spec(),
    {
        self.file.content.resource_pack_setup_dismissed = dismissed;
    }
}


/// The pack list after upserting `entry`: the first pack with its id is
/// replaced, or it is appended when no pack has that id.
pub open spec fn upserted_packs(packs: Seq<ResourcePackEntry>, entry: ResourcePackEntry) -> Seq<
    ResourcePackEntry,
> {
    let k = first_index(pack_ids(packs), entry.id@);
    if k >= 0 {
        packs.update(k, entry)
    } else {
        packs.push(entry)
    }
}

/// The priority order after upserting `entry`: a new id not yet in the
/// order joins its end, then the order is normalized against the new pack
/// list.
pub open spec fn upserted_order(
    packs: Seq<ResourcePackEntry>,
    order: Seq<Seq<char>>,
    entry: ResourcePackEntry,
) -> Seq<Seq<char>> {
    let k = first_index(pack_ids(packs), entry.id@);
    let mid = if k < 0 && !order.contains(entry.id@) {
        order.push(entry.id@)
    } else {
        order
    };
    normalized_order(mid, pack_ids(upserted_packs(packs, entry)))
}

/// The pack list and the priority order agree: no pack id occurs twice,
/// and the order holds exactly the pack ids.
pub open spec fn packs_consistent(packs: Seq<ResourcePackEntry>, order: Seq<Seq<char>>) -> bool {
    &&& pack_ids(packs).no_duplicates()
    &&& forall|x: Seq<char>| #[trigger] order.contains(x) <==> pack_ids(packs).contains(x)
}

/// The priority order after `move_pack` moved the id at `pos` one step.
pub open spec fn moved_order(order: Seq<Seq<char>>, pos: int, direction: MoveDirection) -> Seq<
    Seq<char>,
> {
    match direction {
        MoveDirection::Up => if pos > 0 {
            order.update(pos, order[pos - 1]).update(pos - 1, order[pos])
        } else {
            order
        },
        MoveDirection::Down => if pos + 1 < order.len() {
            order.update(pos, order[pos + 1]).update(pos + 1, order[pos])
        } else {
            order
        },
    }
}

impl ContentSettings {
    /// The first pack with this id.
    pub fn pack_by_id(&self, id: &str) -> (r: Option<&ResourcePackEntry>)
        ensures
            ({
                let k = first_index(pack_ids(self.packs()), id@);
                if k >= 0 {
                    r matches Some(e) && *e == self.packs()[k]
                } else {
                    r is None
                }
            }),
    {
        match position_of_pack(&self.file.content.resource_packs, id) {
            Some(k) => Some(&self.file.content.resource_packs[k]),
            None => None,
        }
    }

    /// The first pack with this id, for changing it in place.
    pub fn pack_by_id_mut(&mut self, id: &str) -> (r: Option<&mut ResourcePackEntry>)
        ensures
            ({
                let k = first_index(pack_ids(old(self).packs()), id@);
                if k >= 0 {
                    &&& r matches Some(e) && *e == old(self).packs()[k] && final(self).packs()
                        == old(self).packs().update(k, *final(e))
                } else {
                    &&& r is None
                    &&& final(self).packs() == old(self).packs()
                }
            }),
            final(self).order() == old(self).order(),
            final(self).same_but_packs(old(self)),
    {
        match position_of_pack(&self.file.content.resource_packs, id) {
            Some(k) => Some(&mut self.file.content.resource_packs[k]),
            None => None,
        }
    }

    /// Adds a pack, or replaces the first pack with the same id, then
    /// normalizes the priority order; a new id joins the end of the order.
    /// A pack whose directory name is unsafe is rejected and nothing changes.
    pub fn upsert_pack(&mut self, entry: ResourcePackEntry) -> (r: Result<(), SettingsError>)
        ensures
            match pack_path_error(entry.path@) {
                Some(msg) => {
                    &&& r matches Err(SettingsError::InvalidPath(m)) && m@ == msg
                    &&& *final(self) == *old(self)
                },
                None => {
                    &&& r is Ok
                    &&& final(self).packs() == upserted_packs(old(self).packs(), entry)
                    &&& final(self).order() == upserted_order(old(self).packs(), old(self).order(), entry)
                    &&& final(self).same_but_packs(old(self))
                },
            },
    {
        match Self::validate_pack_path(entry.path.as_str()) {
            Err(e) => {
                return Err(e);
            },
            Ok(()) => {},
        }
        match position_of_pack(&self.file.content.resource_packs, entry.id.as_str()) {
            Some(k) => {
                self.file.content.resource_packs.set(k, entry);
            },
            None => {
                let id = entry.id.clone();
                self.file.content.resource_packs.push(entry);
                if !contains_str(&self.file.content.resource_pack_order, id.as_str()) {
                    self.file.content.resource_pack_order.push(id);
                    assert(self.order() =~= old(self).order().push(entry.id@));
                }
            },
        }
        self.normalize_order();
        Ok(())
    }

    /// Drops `id` from the priority order and removes the first pack with
    /// that id, returning it.
    pub fn remove_pack(&mut self, id: &str) -> (r: Option<ResourcePackEntry>)
        ensures
            final(self).order() == old(self).order().filter(|x: Seq<char>| x != id@),
            final(self).same_but_packs(old(self)),
            ({
                let k = first_index(pack_ids(old(self).packs()), id@);
                if k >= 0 {
                    &&& r == Some(old(self).packs()[k])
                    &&& final(self).packs() == old(self).packs().remove(k)
                } else {
                    &&& r is None
                    &&& final(self).packs() == old(self).packs()
                }
            }),
    {
        remove_str(&mut self.file.content.resource_pack_order, id);
        match position_of_pack(&self.file.content.resource_packs, id) {
            Some(k) => Some(self.file.content.resource_packs.remove(k)),
            None => None,
        }
    }

    /// Enables or disables the first pack with this id.
    pub fn set_enabled(&mut self, id: &str, enabled: bool) -> (r: Result<(), SettingsError>)
        ensures
            ({
                let k = first_index(pack_ids(old(self).packs()), id@);
                if k >= 0 {
                    &&& r is Ok
                    &&& final(self).packs() == old(self).packs().update(
                        k,
                        ResourcePackEntry { enabled, ..old(self).packs()[k] },
                    )
                } else {
                    &&& r matches Err(SettingsError::UnknownPack(m)) && m@ == id@
                    &&& final(self).packs() == old(self).packs()
                }
            }),
            final(self).order() == old(self).order(),
            final(self).same_but_packs(old(self)),
    {
        match position_of_pack(&self.file.content.resource_packs, id) {
            Some(k) => {
                let mut e = self.file.content.resource_packs.remove(k);
                e.enabled = enabled;
                self.file.content.resource_packs.insert(k, e);
                assert(self.packs() =~= old(self).packs().update(
                    k as int,
                    ResourcePackEntry { enabled, ..old(self).packs()[k as int] },
                ));
                Ok(())
            },
            None => Err(SettingsError::UnknownPack(id.to_owned())),
        }
    }

    /// Moves a pack one step up (higher priority) or down in the order; at
    /// either end the order stays as it is.
    pub fn move_pack(&mut self, id: &str, direction: MoveDirection) -> (r: Result<(), SettingsError>)
        ensures
            ({
                let pos = first_index(old(self).order(), id@);
                if pos >= 0 {
                    &&& r is Ok
                    &&& final(self).order() == moved_order(old(self).order(), pos, direction)
                } else {
                    &&& r matches Err(SettingsError::UnknownPack(m)) && m@ == id@
                    &&& final(self).order() == old(self).order()
                }
            }),
            final(self).packs() == old(self).packs(),
            final(self).same_but_packs(old(self)),
    {
        let pos = match position_of_str(&self.file.content.resource_pack_order, id) {
            Some(p) => p,
            None => {
                return Err(SettingsError::UnknownPack(id.to_owned()));
            },
        };
        let len = self.file.content.resource_pack_order.len();
        let new_pos = match direction {
            MoveDirection::Up => {
                if pos > 0 {
                    pos - 1
                } else {
                    return Ok(());
                }
            },
            MoveDirection::Down => {
                if pos + 1 < len {
                    pos + 1
                } else {
                    return Ok(());
                }
            },
        };
        let ghost o = self.order();
        let moved = self.file.content.resource_pack_order.remove(pos);
        self.file.content.resource_pack_order.insert(new_pos, moved);
        assert(self.order() =~= o.update(pos as int, o[new_pos as int]).update(
            new_pos as int,
            o[pos as int],
        ));
        Ok(())
    }

    /// Whether some enabled pack is in the priority order and present on
    /// disk; `present[k]` tells whether pack `k`'s directory holds a
    /// `pack.mcmeta`.
    pub fn has_enabled_pack(&self, present: &Vec<bool>) -> (r: bool)
        requires
            present@.len() == self.packs().len(),
        ensures
            r == exists|k: int|
                0 <= k < self.packs().len() && #[trigger] self.packs()[k].enabled
                    && self.order().contains(self.packs()[k].id@) && present@[k],
    {
        let packs = &self.file.content.resource_packs;
        let mut k: usize = 0;
        while k < packs.len()
            invariant
                k <= packs@.len(),
                packs@ == self.packs(),
                present@.len() == packs@.len(),
                forall|j: int|
                    0 <= j < k ==> !(#[trigger] packs@[j].enabled && self.order().contains(
                        packs@[j].id@,
                    ) && present@[j]),
            decreases packs@.len() - k,
        {
            if packs[k].enabled && contains_str(&self.file.content.resource_pack_order, packs[k].id.as_str())
                && present[k] {
                return true;
            }
            k = k + 1;
        }
        false
    }

    /// Indices of the packs in use, in priority order (see
    /// [`enabled_indices`]).
    pub fn enabled_pack_indices(&self, present: &Vec<bool>) -> (r: Vec<usize>)
        requires
            present@.len() == self.packs().len(),
        ensures
            r@.len() == enabled_indices(self.order(), self.packs(), present@).len(),
            forall|j: int|
                0 <= j < r@.len() ==> #[trigger] r@[j] as int == enabled_indices(
                    self.order(),
                    self.packs(),
                    present@,
                )[j],
    {
        let order = &self.file.content.resource_pack_order;
        let packs = &self.file.content.resource_packs;
        let mut out: Vec<usize> = Vec::new();
        let mut i: usize = 0;
        while i < order.len()
            invariant
                i <= order@.len(),
                str_views(order@) == self.order(),
                packs@ == self.packs(),
                present@.len() == packs@.len(),
                out@.len() == enabled_indices(self.order().take(i as int), packs@, present@).len(),
                forall|j: int|
                    0 <= j < out@.len() ==> #[trigger] out@[j] as int == enabled_indices(
                        self.order().take(i as int),
                        packs@,
                        present@,
                    )[j],
            decreases order@.len() - i,
        {
            assert(self.order().take(i as int + 1).drop_last() =~= self.order().take(i as int));
            assert(self.order().take(i as int + 1).last() == order@[i as int]@);
            match position_of_pack(packs, order[i].as_str()) {
                Some(k) => {
                    if packs[k].enabled && present[k] {
                        out.push(k);
                    }
                },
                None => {},
            }
            i = i + 1;
        }
        assert(self.order().take(order@.len() as int) =~= self.order());
        out
    }

    /// Asset paths of the packs in use, in priority order: the data root,
    /// the resource pack folder and the pack's directory name.
    pub fn enabled_pack_asset_paths(&self, data_root: &str, present: &Vec<bool>) -> (r: Vec<String>)
        requires
            present@.len() == self.packs().len(),
        ensures
            r@.len() == enabled_indices(self.order(), self.packs(), present@).len(),
            forall|j: int|
                0 <= j < r@.len() ==> #[trigger] r@[j]@ == asset_path(
                    data_root@,
                    self.packs()[enabled_indices(self.order(), self.packs(), present@)[j]].path@,
                ),
    {
        let idx = self.enabled_pack_indices(present);
        let packs = &self.file.content.resource_packs;
        let ghost en = enabled_indices(self.order(), self.packs(), present@);
        proof {
            self.lemma_enabled_indices_in_range(present@);
        }
        let mut out: Vec<String> = Vec::new();
        let mut j: usize = 0;
        while j < idx.len()
            invariant
                j <= idx@.len(),
                idx@.len() == en.len(),
                forall|m: int| 0 <= m < idx@.len() ==> #[trigger] idx@[m] as int == en[m],
                forall|m: int| 0 <= m < en.len() ==> 0 <= #[trigger] en[m] < self.packs().len(),
                packs@ == self.packs(),
                out@.len() == j,
                forall|m: int|
                    0 <= m < j ==> #[trigger] out@[m]@ == asset_path(
                        data_root@,
                        self.packs()[en[m]].path@,
                    ),
            decreases idx@.len() - j,
        {
            let k = idx[j];
            assert(k as int == en[j as int]);
            let mut p = String::from_str(data_root);
            p.append("/resourcepacks/");
            p.append(packs[k].path.as_str());
            out.push(p);
            j = j + 1;
        }
        out
    }

    proof fn lemma_enabled_indices_in_range(&self, present: Seq<bool>)
        ensures
            forall|m: int|
                0 <= m < enabled_indices(self.order(), self.packs(), present).len() ==> 0
                    <= #[trigger] enabled_indices(self.order(), self.packs(), present)[m]
                    < self.packs().len(),
    {
        lemma_enabled_indices_range(self.order(), self.packs(), present);
    }
}

proof fn lemma_enabled_indices_range(
    order: Seq<Seq<char>>,
    packs: Seq<ResourcePackEntry>,
    present: Seq<bool>,
)
    ensures
        forall|m: int|
            0 <= m < enabled_indices(order, packs, present).len() ==> 0
                <= #[trigger] enabled_indices(order, packs, present)[m] < packs.len(),
    decreases order.len(),
{
    if order.len() > 0 {
        lemma_enabled_indices_range(order.drop_last(), packs, present);
        lemma_first_index(pack_ids(packs), order.last());
        assert(pack_ids(packs).len() == packs.len());
        let prev = enabled_indices(order.drop_last(), packs, present);
        let cur = enabled_indices(order, packs, present);
        assert forall|m: int| 0 <= m < cur.len() implies 0 <= #[trigger] cur[m] < packs.len() by {
            if m < prev.len() {
                assert(cur[m] == prev[m]);
            }
        }
    }
}


proof fn lemma_append_missing(order: Seq<Seq<char>>, ids: Seq<Seq<char>>)
    ensures
        forall|x: Seq<char>|
            #[trigger] append_missing(order, ids).contains(x) <==> (order.contains(x) || ids.contains(
                x,
            )),
        order.no_duplicates() ==> append_missing(order, ids).no_duplicates(),
    decreases ids.len(),
{
    if ids.len() > 0 {
        let rest = ids.drop_last();
        let a = ids.last();
        lemma_append_missing(order, rest);
        let o = append_missing(order, rest);
        assert(rest.push(a) =~= ids);
        assert forall|x: Seq<char>|
            #[trigger] append_missing(order, ids).contains(x) <==> (order.contains(x)
                || ids.contains(x)) by {
            vstd::seq_lib::lemma_seq_contains_after_push(rest, a, x);
            vstd::seq_lib::lemma_seq_contains_after_push(o, a, x);
        }
        if order.no_duplicates() && !o.contains(a) {
            let r = o.push(a);
            assert forall|i: int, j: int|
                0 <= i < r.len() && 0 <= j < r.len() && i != j implies r[i] != r[j] by {
                if i == o.len() {
                    assert(o[j] == r[j]);
                } else if j == o.len() {
                    assert(o[i] == r[i]);
                }
            }
        }
    }
}

proof fn lemma_filter_no_duplicates(s: Seq<Seq<char>>, pred: spec_fn(Seq<char>) -> bool)
    requires
        s.no_duplicates(),
    ensures
        s.filter(pred).no_duplicates(),
    decreases s.len(),
{
    reveal_with_fuel(Seq::<_>::filter, 1);
    if s.len() > 0 {
        let rest = s.drop_last();
        assert(rest.no_duplicates()) by {
            assert forall|i: int, j: int|
                0 <= i < rest.len() && 0 <= j < rest.len() && i != j implies rest[i] != rest[j] by {
                assert(rest[i] == s[i] && rest[j] == s[j]);
            }
        }
        lemma_filter_no_duplicates(rest, pred);
        let f = rest.filter(pred);
        if pred(s.last()) {
            if f.contains(s.last()) {
                rest.lemma_filter_contains_rev(pred, s.last());
                let k = choose|k: int| 0 <= k < rest.len() && rest[k] == s.last();
                assert(s[k] == s[s.len() - 1]);
            }
            let r = f.push(s.last());
            assert forall|i: int, j: int|
                0 <= i < r.len() && 0 <= j < r.len() && i != j implies r[i] != r[j] by {
                if i == f.len() {
                    assert(f[j] == r[j]);
                } else if j == f.len() {
                    assert(f[i] == r[i]);
                }
            }
        }
    }
}

/// Normalizing a priority order leaves exactly the known pack ids in it:
/// every pack id appears, and no id of an unknown pack. When the order held
/// no id twice, the normalized order holds none twice either.
pub proof fn lemma_normalized_order_lists_each_pack(order: Seq<Seq<char>>, ids: Seq<Seq<char>>)
    ensures
        forall|x: Seq<char>| #[trigger] normalized_order(order, ids).contains(x) <==> ids.contains(x),
        order.no_duplicates() ==> normalized_order(order, ids).no_duplicates(),
{
    let pred = |x: Seq<char>| ids.contains(x);
    let kept = order.filter(pred);
    lemma_append_missing(kept, ids);
    assert forall|x: Seq<char>| #[trigger] kept.contains(x) implies ids.contains(x) by {
        let k = choose|k: int| 0 <= k < kept.len() && kept[k] == x;
        order.lemma_filter_pred(pred, k);
    }
    if order.no_duplicates() {
        lemma_filter_no_duplicates(order, pred);
    }
}

/// Moving a pack up and then moving it down again restores the priority
/// order, when the pack was not already first.
pub proof fn lemma_move_up_then_down_restores(order: Seq<Seq<char>>, id: Seq<char>)
    requires
        first_index(order, id) > 0,
    ensures
        ({
            let up = moved_order(order, first_index(order, id), MoveDirection::Up);
            &&& first_index(up, id) == first_index(order, id) - 1
            &&& moved_order(up, first_index(up, id), MoveDirection::Down) == order
        }),
{
    lemma_first_index(order, id);
    let p = first_index(order, id);
    let up = moved_order(order, p, MoveDirection::Up);
    assert(up[p - 1] == id);
    assert forall|j: int| 0 <= j < p - 1 implies up[j] != id by {
        assert(up[j] == order[j]);
    }
    lemma_first_index_unique(up, id, p - 1);
    assert(moved_order(up, p - 1, MoveDirection::Down) =~= order);
}

/// Moving a pack only reorders the priority order: it holds the same ids,
/// each as often as before.
pub proof fn lemma_moved_order_is_permutation(
    order: Seq<Seq<char>>,
    pos: int,
    direction: MoveDirection,
)
    requires
        0 <= pos < order.len(),
    ensures
        moved_order(order, pos, direction).to_multiset() == order.to_multiset(),
{
    broadcast use {
        vstd::seq_lib::to_multiset_update,
        vstd::multiset::group_multiset_axioms,
    };

    let other = match direction {
        MoveDirection::Up => pos - 1,
        MoveDirection::Down => pos + 1,
    };
    if 0 <= other < order.len() {
        let a = order[pos];
        let b = order[other];
        let s1 = order.update(pos, b);
        assert(s1.to_multiset() == order.to_multiset().insert(b).remove(a));
        assert(s1[other] == b);
        let s2 = s1.update(other, a);
        assert(s2.to_multiset() == s1.to_multiset().insert(a).remove(b));
        let m = order.to_multiset();
        assert(order.contains(a) && order.contains(b)) by {
            assert(order[pos] == a && order[other] == b);
        }
        vstd::seq_lib::to_multiset_contains(order, a);
        vstd::seq_lib::to_multiset_contains(order, b);
        assert forall|x: Seq<char>| #[trigger] s2.to_multiset().count(x) == m.count(x) by {}
        assert(s2.to_multiset() =~= m);
        assert(moved_order(order, pos, direction) == s2);
    }
}

/// Keeping only known ids changes nothing when every id is known.
proof fn lemma_filter_known(s: Seq<Seq<char>>, ids: Seq<Seq<char>>)
    requires
        forall|i: int| 0 <= i < s.len() ==> ids.contains(#[trigger] s[i]),
    ensures
        s.filter(|x: Seq<char>| ids.contains(x)) == s,
    decreases s.len(),
{
    reveal_with_fuel(Seq::<_>::filter, 1);
    if s.len() > 0 {
        let rest = s.drop_last();
        assert forall|i: int| 0 <= i < rest.len() implies ids.contains(#[trigger] rest[i]) by {
            assert(rest[i] == s[i]);
        }
        lemma_filter_known(rest, ids);
        assert(ids.contains(s[s.len() - 1]));
        assert(rest.push(s.last()) =~= s);
    }
}

/// Appending missing ids changes nothing when every id is already there.
proof fn lemma_append_none_missing(order: Seq<Seq<char>>, ids: Seq<Seq<char>>)
    requires
        forall|i: int| 0 <= i < ids.len() ==> order.contains(#[trigger] ids[i]),
    ensures
        append_missing(order, ids) == order,
    decreases ids.len(),
{
    if ids.len() > 0 {
        let rest = ids.drop_last();
        assert forall|i: int| 0 <= i < rest.len() implies order.contains(#[trigger] rest[i]) by {
            assert(rest[i] == ids[i]);
        }
        lemma_append_none_missing(order, rest);
        assert(order.contains(ids[ids.len() - 1]));
    }
}

/// Normalizing changes nothing when the order holds exactly the known ids.
proof fn lemma_normalized_exact(order: Seq<Seq<char>>, ids: Seq<Seq<char>>)
    requires
        forall|x: Seq<char>| #[trigger] order.contains(x) <==> ids.contains(x),
    ensures
        normalized_order(order, ids) == order,
{
    assert forall|i: int| 0 <= i < order.len() implies ids.contains(#[trigger] order[i]) by {
        assert(order.contains(order[i]));
    }
    lemma_filter_known(order, ids);
    assert forall|i: int| 0 <= i < ids.len() implies order.contains(#[trigger] ids[i]) by {
        assert(ids.contains(ids[i]));
    }
    lemma_append_none_missing(order, ids);
}

/// Upserting a pack keeps the pack list and the priority order in
/// agreement. A pack with a new id joins the end of both; a pack whose id
/// is known replaces that pack in place and leaves the order as it was.
pub proof fn lemma_upsert_keeps_packs_consistent(
    packs: Seq<ResourcePackEntry>,
    order: Seq<Seq<char>>,
    entry: ResourcePackEntry,
)
    requires
        packs_consistent(packs, order),
    ensures
        packs_consistent(upserted_packs(packs, entry), upserted_order(packs, order, entry)),
        pack_ids(packs).contains(entry.id@) ==> {
            &&& upserted_order(packs, order, entry) == order
            &&& upserted_packs(packs, entry).len() == packs.len()
            &&& pack_ids(upserted_packs(packs, entry)) == pack_ids(packs)
        },
        !pack_ids(packs).contains(entry.id@) ==> {
            &&& upserted_order(packs, order, entry) == order.push(entry.id@)
            &&& upserted_packs(packs, entry) == packs.push(entry)
        },
{
    let ids = pack_ids(packs);
    lemma_first_index(ids, entry.id@);
    let k = first_index(ids, entry.id@);
    let np = upserted_packs(packs, entry);
    let nids = pack_ids(np);
    if k >= 0 {
        assert(nids =~= ids);
        lemma_normalized_exact(order, ids);
    } else {
        assert(nids =~= ids.push(entry.id@));
        assert(!order.contains(entry.id@));
        let mid = order.push(entry.id@);
        assert forall|x: Seq<char>| #[trigger] mid.contains(x) <==> nids.contains(x) by {
            if mid.contains(x) {
                let i = choose|i: int| 0 <= i < mid.len() && mid[i] == x;
                if i < order.len() {
                    assert(order.contains(x));
                    let j = choose|j: int| 0 <= j < ids.len() && ids[j] == x;
                    assert(nids[j] == x);
                } else {
                    assert(nids[ids.len() as int] == x);
                }
            }
            if nids.contains(x) {
                let j = choose|j: int| 0 <= j < nids.len() && nids[j] == x;
                if j < ids.len() {
                    assert(ids[j] == x);
                    assert(ids.contains(x));
                    assert(order.contains(x));
                    let i = choose|i: int| 0 <= i < order.len() && order[i] == x;
                    assert(mid[i] == x);
                } else {
                    assert(mid[order.len() as int] == x);
                }
            }
        }
        lemma_normalized_exact(mid, nids);
        assert(nids.no_duplicates()) by {
            assert forall|i: int, j: int| 0 <= i < nids.len() && 0 <= j < nids.len() && i != j implies nids[i] != nids[j] by {
                if i < ids.len() && j < ids.len() {
                    assert(nids[i] == ids[i] && nids[j] == ids[j]);
                } else if i < ids.len() {
                    assert(nids[i] == ids[i]);
                } else if j < ids.len() {
                    assert(nids[j] == ids[j]);
                }
            }
        }
    }
}

} // verus!
