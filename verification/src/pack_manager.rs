//! The resource pack manager screen: what pressing one of its buttons does
//! to the screen's state and to the pack settings, and which outside work
//! (a search, a download, saving, removing files) it asks for.

use vstd::prelude::*;
use crate::connect::{trim, trim_str};
use crate::settings::{
    ContentSettings, MoveDirection, ResourcePackEntry, first_index, lemma_first_index, moved_order,
    pack_ids, position_of_pack, str_views,
};
use crate::text::{has_substring, str_contains};

verus! {

/// A digit as a character.
pub open spec fn digit_char(d: nat) -> char {
    (('0' as u32) + d) as char
}

/// The decimal digits of `n`.
pub open spec fn decimal(n: nat) -> Seq<char>
    decreases n,
{
    if n < 10 {
        seq![digit_char(n)]
    } else {
        decimal(n / 10).push(digit_char(n % 10))
    }
}

fn digit_str(d: usize) -> (r: &'static str)
    requires
        d < 10,
    ensures
        r@ == seq![digit_char(d as nat)],
{
    proof {
        reveal_strlit("0");
        reveal_strlit("1");
        reveal_strlit("2");
        reveal_strlit("3");
        reveal_strlit("4");
        reveal_strlit("5");
        reveal_strlit("6");
        reveal_strlit("7");
        reveal_strlit("8");
        reveal_strlit("9");
    }
    let r = if d == 0 {
        "0"
    } else if d == 1 {
        "1"
    } else if d == 2 {
        "2"
    } else if d == 3 {
        "3"
    } else if d == 4 {
        "4"
    } else if d == 5 {
        "5"
    } else if d == 6 {
        "6"
    } else if d == 7 {
        "7"
    } else if d == 8 {
        "8"
    } else {
        "9"
    };
    assert(r@ =~= seq![digit_char(d as nat)]);
    r
}

/// Writes `n` in decimal.
pub fn decimal_string(n: usize) -> (r: String)
    ensures
        r@ == decimal(n as nat),
    decreases n,
{
    if n < 10 {
        String::from_str(digit_str(n))
    } else {
        let mut s = decimal_string(n / 10);
        s.append(digit_str(n % 10));
        s
    }
}

/// A button of the pack manager screen.
#[derive(Debug, Clone)]
pub enum ManagerAction {
    Back,
    Search,
    InstallSlug(String),
    ToggleEnabled(String),
    MoveUp(String),
    MoveDown(String),
    Delete(String),
    ConfirmDelete,
    CancelDelete,
}

/// Outside work a button press asks for.
#[derive(Debug, Clone)]
pub enum ManagerEffect {
    /// Nothing beyond the state change.
    Nothing,
    /// Ignore this press and every further press of this frame.
    Stop,
    /// Leave for the main menu.
    OpenMainMenu,
    /// Search Modrinth for the query.
    StartSearch(String),
    /// Download and install the project with this slug.
    StartInstall(String),
    /// Write the pack settings to disk.
    SaveSettings,
    /// Ask to confirm deleting this pack, unless the question is already
    /// shown.
    ShowDeleteConfirm(String),
    /// Close the question and remove this pack's files and settings entry.
    RemovePack(String),
    /// Close the question.
    CloseDeleteConfirm,
}

/// The pack manager screen's state (its running tasks and search results
/// live beside it).
#[derive(Debug, Clone)]
pub struct PackManagerState {
    pub search_query: String,
    pub status: String,
    pub busy: bool,
    pub needs_refresh: bool,
    pub pending_delete: Option<String>,
}

impl PackManagerState {
    /// The screen as it opens.
    pub fn new() -> (r: Self)
        ensures
            r.search_query@.len() == 0,
            r.status@.len() == 0,
            !r.busy,
            !r.needs_refresh,
            r.pending_delete is None,
    {
        PackManagerState {
            search_query: String::new(),
            status: String::new(),
            busy: false,
            needs_refresh: false,
            pending_delete: None,
        }
    }
}

/// What pressing a button does (see [`press_manager_button`]).
pub open spec fn pressed(
    state: PackManagerState,
    settings: ContentSettings,
    action: ManagerAction,
    search_text: Seq<char>,
    after: PackManagerState,
    settings_after: ContentSettings,
    effect: ManagerEffect,
) -> bool {
    if state.busy {
        &&& effect is Stop
        &&& after == state
        &&& settings_after == settings
    } else {
        match action {
            ManagerAction::Back => {
                &&& effect is OpenMainMenu
                &&& after == state
                &&& settings_after == settings
            },
            ManagerAction::Search => {
                let q = trim(search_text);
                &&& after.search_query@ == q
                &&& after.pending_delete == state.pending_delete
                &&& after.needs_refresh
                &&& settings_after == settings
                &&& if q.len() == 0 {
                    &&& effect is Nothing
                    &&& after.status@ == "Enter a search query."@
                    &&& after.busy == state.busy
                } else {
                    &&& effect matches ManagerEffect::StartSearch(s) && s@ == q
                    &&& after.status@ == "Searching for \""@ + q + "\"..."@
                    &&& after.busy
                }
            },
            ManagerAction::InstallSlug(slug) => {
                &&& effect matches ManagerEffect::StartInstall(s) && s@ == slug@
                &&& after.status@ == "Installing "@ + slug@ + "..."@
                &&& after.busy
                &&& after.needs_refresh
                &&& after.search_query == state.search_query
                &&& after.pending_delete == state.pending_delete
                &&& settings_after == settings
            },
            ManagerAction::ToggleEnabled(id) => {
                let k = first_index(pack_ids(settings.packs()), id@);
                &&& after.status == state.status
                &&& after.search_query == state.search_query
                &&& after.pending_delete == state.pending_delete
                &&& after.busy == state.busy
                &&& settings_after.order() == settings.order()
                &&& settings_after.same_but_packs(&settings)
                &&& if k >= 0 {
                    &&& effect is SaveSettings
                    &&& after.needs_refresh
                    &&& settings_after.packs() == settings.packs().update(
                        k,
                        crate::settings::ResourcePackEntry {
                            enabled: !settings.packs()[k].enabled,
                            ..settings.packs()[k]
                        },
                    )
                } else {
                    &&& effect is Nothing
                    &&& after.needs_refresh == state.needs_refresh
                    &&& settings_after.packs() == settings.packs()
                }
            },
            ManagerAction::MoveUp(id) => moved_by(state, settings, id@, MoveDirection::Up, after, settings_after, effect),
            ManagerAction::MoveDown(id) => moved_by(state, settings, id@, MoveDirection::Down, after, settings_after, effect),
            ManagerAction::Delete(id) => {
                &&& effect matches ManagerEffect::ShowDeleteConfirm(s) && s@ == id@
                &&& after.pending_delete matches Some(p) && p@ == id@
                &&& after.status == state.status
                &&& after.search_query == state.search_query
                &&& after.busy == state.busy
                &&& after.needs_refresh == state.needs_refresh
                &&& settings_after == settings
            },
            ManagerAction::ConfirmDelete => {
                &&& settings_after == settings
                &&& match state.pending_delete {
                    None => {
                        &&& effect is Stop
                        &&& after == state
                    },
                    Some(id) => {
                        &&& effect matches ManagerEffect::RemovePack(s) && s@ == id@
                        &&& after.pending_delete is None
                        &&& after.status == state.status
                        &&& after.search_query == state.search_query
                        &&& after.busy == state.busy
                        &&& after.needs_refresh == state.needs_refresh
                    },
                }
            },
            ManagerAction::CancelDelete => {
                &&& effect is CloseDeleteConfirm
                &&& after.pending_delete is None
                &&& after.status == state.status
                &&& after.search_query == state.search_query
                &&& after.busy == state.busy
                &&& after.needs_refresh == state.needs_refresh
                &&& settings_after == settings
            },
        }
    }
}

/// A move button's press: the pack moves one step in the priority order
/// (when it is in it), the settings are saved and the screen redrawn.
pub open spec fn moved_by(
    state: PackManagerState,
    settings: ContentSettings,
    id: Seq<char>,
    direction: MoveDirection,
    after: PackManagerState,
    settings_after: ContentSettings,
    effect: ManagerEffect,
) -> bool {
    let pos = first_index(settings.order(), id);
    &&& effect is SaveSettings
    &&& after.needs_refresh
    &&& after.status == state.status
    &&& after.search_query == state.search_query
    &&& after.pending_delete == state.pending_delete
    &&& after.busy == state.busy
    &&& settings_after.packs() == settings.packs()
    &&& settings_after.same_but_packs(&settings)
    &&& settings_after.order() == if pos >= 0 {
        moved_order(settings.order(), pos, direction)
    } else {
        settings.order()
    }
}

/// Handles a press of a manager button. While a search or download runs
/// every press is ignored. `search_text` is what the search field holds.
pub fn press_manager_button(
    state: &mut PackManagerState,
    settings: &mut ContentSettings,
    action: ManagerAction,
    search_text: &str,
) -> (effect: ManagerEffect)
    ensures
        pressed(*old(state), *old(settings), action, search_text@, *final(state), *final(settings), effect),
{
    if state.busy {
        return ManagerEffect::Stop;
    }
    match action {
        ManagerAction::Back => ManagerEffect::OpenMainMenu,
        ManagerAction::Search => {
            let query = trim_str(search_text);
            state.search_query = query.clone();
            state.needs_refresh = true;
            if query.as_str().unicode_len() == 0 {
                state.status = String::from_str("Enter a search query.");
                ManagerEffect::Nothing
            } else {
                state.busy = true;
                let mut s = String::from_str("Searching for \"");
                s.append(query.as_str());
                s.append("\"...");
                state.status = s;
                ManagerEffect::StartSearch(query)
            }
        },
        ManagerAction::InstallSlug(slug) => {
            state.busy = true;
            let mut s = String::from_str("Installing ");
            s.append(slug.as_str());
            s.append("...");
            state.status = s;
            state.needs_refresh = true;
            ManagerEffect::StartInstall(slug)
        },
        ManagerAction::ToggleEnabled(id) => {
            let current = match settings.pack_by_id(id.as_str()) {
                Some(e) => Some(e.enabled),
                None => None,
            };
            match current {
                Some(enabled) => {
                    let _ = settings.set_enabled(id.as_str(), !enabled);
                    state.needs_refresh = true;
                    ManagerEffect::SaveSettings
                },
                None => ManagerEffect::Nothing,
            }
        },
        ManagerAction::MoveUp(id) => {
            let _ = settings.move_pack(id.as_str(), MoveDirection::Up);
            state.needs_refresh = true;
            ManagerEffect::SaveSettings
        },
        ManagerAction::MoveDown(id) => {
            let _ = settings.move_pack(id.as_str(), MoveDirection::Down);
            state.needs_refresh = true;
            ManagerEffect::SaveSettings
        },
        ManagerAction::Delete(id) => {
            state.pending_delete = Some(id.clone());
            ManagerEffect::ShowDeleteConfirm(id)
        },
        ManagerAction::ConfirmDelete => {
            match state.pending_delete.take() {
                None => ManagerEffect::Stop,
                Some(id) => ManagerEffect::RemovePack(id),
            }
        },
        ManagerAction::CancelDelete => {
            state.pending_delete = None;
            ManagerEffect::CloseDeleteConfirm
        },
    }
}

/// Records how a download ended: `None` when the task ended without a
/// result, otherwise the install's outcome.
pub fn finish_install(state: &mut PackManagerState, outcome: Option<Result<(), String>>)
    ensures
        !final(state).busy,
        final(state).needs_refresh,
        final(state).search_query == old(state).search_query,
        final(state).pending_delete == old(state).pending_delete,
        final(state).status@ == match outcome {
            Some(Ok(())) => "Pack installed."@,
            Some(Err(e)) => "Install failed: "@ + e@,
            None => "Install failed: task ended without result"@,
        },
{
    state.busy = false;
    state.status = match outcome {
        Some(Ok(())) => String::from_str("Pack installed."),
        Some(Err(e)) => {
            let mut s = String::from_str("Install failed: ");
            s.append(e.as_str());
            s
        },
        None => String::from_str("Install failed: task ended without result"),
    };
    state.needs_refresh = true;
}

/// Records how a search ended: `None` when the task ended without a
/// result, otherwise the number of hits or the error.
pub fn finish_search(state: &mut PackManagerState, outcome: Option<Result<usize, String>>)
    ensures
        !final(state).busy,
        final(state).needs_refresh,
        final(state).search_query == old(state).search_query,
        final(state).pending_delete == old(state).pending_delete,
        final(state).status@ == match outcome {
            Some(Ok(n)) => decimal(n as nat) + " results."@,
            Some(Err(e)) => "Search failed: "@ + e@,
            None => "Search failed: task ended without result"@,
        },
{
    state.busy = false;
    state.status = match outcome {
        Some(Ok(n)) => {
            let mut s = decimal_string(n);
            s.append(" results.");
            s
        },
        Some(Err(e)) => {
            let mut s = String::from_str("Search failed: ");
            s.append(e.as_str());
            s
        },
        None => String::from_str("Search failed: task ended without result"),
    };
    state.needs_refresh = true;
}

/// Records how removing pack `id` ended: `Ok` or the error's message.
pub fn finish_remove(state: &mut PackManagerState, id: &str, outcome: Result<(), String>)
    ensures
        final(state).needs_refresh,
        final(state).busy == old(state).busy,
        final(state).search_query == old(state).search_query,
        final(state).pending_delete == old(state).pending_delete,
        final(state).status@ == match outcome {
            Ok(()) => "Removed pack "@ + id@ + "."@,
            Err(e) => "Delete failed: "@ + e@,
        },
{
    state.status = match outcome {
        Ok(()) => {
            let mut s = String::from_str("Removed pack ");
            s.append(id);
            s.append(".");
            s
        },
        Err(e) => {
            let mut s = String::from_str("Delete failed: ");
            s.append(e.as_str());
            s
        },
    };
    state.needs_refresh = true;
}


/// How the screen shows its status message.
#[derive(Debug, Clone, Copy, PartialEq, Eq, Structural)]
pub enum StatusLine {
    /// No message.
    Hidden,
    /// A task runs: the message is shown prominently.
    Busy,
    /// The message reports a failure.
    Error,
    /// Any other message.
    Note,
}

/// How the status message is shown: prominently while a task runs, as an
/// error when it mentions `failed`, otherwise as a note, not at all when
/// empty.
pub fn status_line(state: &PackManagerState) -> (r: StatusLine)
    ensures
        r == if state.busy {
            StatusLine::Busy
        } else if state.status@.len() == 0 {
            StatusLine::Hidden
        } else if has_substring(state.status@, "failed"@) {
            StatusLine::Error
        } else {
            StatusLine::Note
        },
{
    if state.busy {
        StatusLine::Busy
    } else if state.status.as_str().unicode_len() == 0 {
        StatusLine::Hidden
    } else if str_contains(state.status.as_str(), "failed") {
        StatusLine::Error
    } else {
        StatusLine::Note
    }
}

/// One installed pack as the screen lists it.
#[derive(Debug, Clone)]
pub struct InstalledRow {
    pub id: String,
    pub detail: String,
    pub enabled: bool,
}

/// The detail line of an installed pack: its source and directory, and a
/// warning when the directory holds no `pack.mcmeta`.
pub open spec fn row_detail(e: ResourcePackEntry, valid: bool) -> Seq<char> {
    let source = if e.source is Modrinth { "Modrinth"@ } else { "Local"@ };
    let base = source + " · "@ + e.path@;
    if valid {
        base
    } else {
        base + " · invalid — missing pack.mcmeta"@
    }
}

/// The installed packs the screen lists, in priority order: each id of the
/// order that names a pack, with the first pack of that id.
pub open spec fn listed_packs(order: Seq<Seq<char>>, packs: Seq<ResourcePackEntry>) -> Seq<int>
    decreases order.len(),
{
    if order.len() == 0 {
        Seq::empty()
    } else {
        let prev = listed_packs(order.drop_last(), packs);
        let k = first_index(pack_ids(packs), order.last());
        if k >= 0 {
            prev.push(k)
        } else {
            prev
        }
    }
}

/// Whether `row` shows pack `k` of `packs` whose directory is `valid`.
pub open spec fn row_shows(row: InstalledRow, order_id: Seq<char>, e: ResourcePackEntry, valid: bool) -> bool {
    &&& row.id@ == order_id
    &&& row.detail@ == row_detail(e, valid)
    &&& row.enabled == e.enabled
}

proof fn lemma_listed_packs_range(order: Seq<Seq<char>>, packs: Seq<ResourcePackEntry>)
    ensures
        forall|m: int| 0 <= m < listed_packs(order, packs).len() ==> 0 <= #[trigger] listed_packs(order, packs)[m] < packs.len(),
    decreases order.len(),
{
    if order.len() > 0 {
        lemma_listed_packs_range(order.drop_last(), packs);
        lemma_first_index(pack_ids(packs), order.last());
        let prev = listed_packs(order.drop_last(), packs);
        let cur = listed_packs(order, packs);
        assert forall|m: int| 0 <= m < cur.len() implies 0 <= #[trigger] cur[m] < packs.len() by {
            if m < prev.len() {
                assert(cur[m] == prev[m]);
            }
        }
    }
}

/// The rows of the installed packs (see [`listed_packs`] and
/// [`row_detail`]); `present[k]` tells whether pack `k`'s directory holds a
/// `pack.mcmeta`.
pub fn installed_rows(settings: &ContentSettings, present: &Vec<bool>) -> (r: Vec<InstalledRow>)
    requires
        present@.len() == settings.packs().len(),
    ensures
        r@.len() == listed_packs(settings.order(), settings.packs()).len(),
        forall|j: int|
            0 <= j < r@.len() ==> {
                let k = listed_packs(settings.order(), settings.packs())[j];
                &&& 0 <= k < settings.packs().len()
                &&& row_shows(#[trigger] r@[j], settings.packs()[k].id@, settings.packs()[k], present@[k])
            },
{
    let order = &settings.content().resource_pack_order;
    let packs = &settings.content().resource_packs;
    let ghost ord = settings.order();
    let ghost ps = settings.packs();
    proof {
        lemma_listed_packs_range(ord, ps);
    }
    let mut out: Vec<InstalledRow> = Vec::new();
    let mut i: usize = 0;
    while i < order.len()
        invariant
            i <= order@.len(),
            str_views(order@) == ord,
            packs@ == ps,
            present@.len() == ps.len(),
            out@.len() == listed_packs(ord.take(i as int), ps).len(),
            forall|j: int|
                0 <= j < out@.len() ==> {
                    let k = listed_packs(ord.take(i as int), ps)[j];
                    &&& 0 <= k < ps.len()
                    &&& row_shows(#[trigger] out@[j], ps[k].id@, ps[k], present@[k])
                },
        decreases order@.len() - i,
    {
        let ghost pre = ord.take(i as int);
        assert(ord.take(i as int + 1).drop_last() =~= pre);
        assert(ord.take(i as int + 1).last() == order@[i as int]@);
        proof {
            lemma_listed_packs_range(ord.take(i as int + 1), ps);
        }
        match position_of_pack(packs, order[i].as_str()) {
            Some(k) => {
                let e = &packs[k];
                let valid = present[k];
                let mut detail = if e.source.is_modrinth() {
                    String::from_str("Modrinth")
                } else {
                    String::from_str("Local")
                };
                detail.append(" · ");
                detail.append(e.path.as_str());
                if !valid {
                    detail.append(" · invalid — missing pack.mcmeta");
                }
                let ghost before = out@;
                out.push(InstalledRow { id: e.id.clone(), detail, enabled: e.enabled });
                assert forall|j: int| 0 <= j < out@.len() implies {
                    let k2 = listed_packs(ord.take(i as int + 1), ps)[j];
                    &&& 0 <= k2 < ps.len()
                    &&& row_shows(#[trigger] out@[j], ps[k2].id@, ps[k2], present@[k2])
                } by {
                    if j < before.len() {
                        assert(out@[j] == before[j]);
                        assert(listed_packs(ord.take(i as int + 1), ps)[j] == listed_packs(pre, ps)[j]);
                    }
                }
            },
            None => {},
        }
        i = i + 1;
    }
    assert(ord.take(order@.len() as int) =~= ord);
    out
}

/// Indices of the recommended projects whose slug no installed pack has as
/// its id, in order.
pub open spec fn missing_recommended_spec(slugs: Seq<Seq<char>>, packs: Seq<ResourcePackEntry>) -> Seq<int>
    decreases slugs.len(),
{
    if slugs.len() == 0 {
        Seq::empty()
    } else {
        let prev = missing_recommended_spec(slugs.drop_last(), packs);
        if pack_ids(packs).contains(slugs.last()) {
            prev
        } else {
            prev.push(slugs.len() - 1)
        }
    }
}

/// Which recommended projects (by slug) are not installed yet.
pub fn missing_recommended(settings: &ContentSettings, slugs: &Vec<String>) -> (r: Vec<usize>)
    ensures
        r@.len() == missing_recommended_spec(str_views(slugs@), settings.packs()).len(),
        forall|j: int|
            0 <= j < r@.len() ==> #[trigger] r@[j] as int == missing_recommended_spec(
                str_views(slugs@),
                settings.packs(),
            )[j],
{
    let packs = &settings.content().resource_packs;
    let ghost ss = str_views(slugs@);
    let mut out: Vec<usize> = Vec::new();
    let mut i: usize = 0;
    while i < slugs.len()
        invariant
            i <= slugs@.len(),
            ss == str_views(slugs@),
            packs@ == settings.packs(),
            out@.len() == missing_recommended_spec(ss.take(i as int), packs@).len(),
            forall|j: int|
                0 <= j < out@.len() ==> #[trigger] out@[j] as int == missing_recommended_spec(
                    ss.take(i as int),
                    packs@,
                )[j],
        decreases slugs@.len() - i,
    {
        assert(ss.take(i as int + 1).drop_last() =~= ss.take(i as int));
        assert(ss.take(i as int + 1).last() == slugs@[i as int]@);
        if !crate::settings::contains_pack(packs, slugs[i].as_str()) {
            out.push(i);
        }
        i = i + 1;
    }
    assert(ss.take(slugs@.len() as int) =~= ss);
    out
}


/// A button of the first-start resource pack screen.
#[derive(Debug, Clone)]
pub enum SetupAction {
    DownloadRecommended(String),
    BrowseModrinth,
    Skip,
}

/// Outside work a first-start screen button asks for.
#[derive(Debug, Clone)]
pub enum SetupEffect {
    /// Ignore this press and every further press of this frame.
    Stop,
    /// Download and install the project with this slug.
    StartDownload(String),
    /// Open the pack manager.
    OpenPackManager,
    /// Write the settings to disk and open the main menu.
    SaveAndOpenMainMenu,
}

/// The first-start screen's state (its download task lives beside it).
#[derive(Debug, Clone)]
pub struct SetupState {
    pub status: String,
    pub busy: bool,
    pub needs_refresh: bool,
}

/// Handles a press of a first-start screen button; while a download runs
/// every press is ignored. Skipping records that the screen was dismissed.
pub fn press_setup_button(state: &mut SetupState, settings: &mut ContentSettings, action: SetupAction) -> (effect: SetupEffect)
    ensures
        old(state).busy ==> {
            &&& effect is Stop
            &&& *final(state) == *old(state)
            &&& *final(settings) == *old(settings)
        },
        !old(state).busy ==> match action {
            SetupAction::DownloadRecommended(slug) => {
                &&& effect matches SetupEffect::StartDownload(s) && s@ == slug@
                &&& final(state).busy
                &&& final(state).needs_refresh
                &&& final(state).status@ == "Downloading "@ + slug@ + "..."@
                &&& *final(settings) == *old(settings)
            },
            SetupAction::BrowseModrinth => {
                &&& effect is OpenPackManager
                &&& *final(state) == *old(state)
                &&& *final(settings) == *old(settings)
            },
            SetupAction::Skip => {
                &&& effect is SaveAndOpenMainMenu
                &&& *final(state) == *old(state)
                &&& final(settings).file_spec().content.resource_pack_setup_dismissed
                &&& final(settings).packs() == old(settings).packs()
                &&& final(settings).order() == old(settings).order()
                &&& final(settings).file_spec().player == old(settings).file_spec().player
                &&& final(settings).file_spec().graphics == old(settings).file_spec().graphics
                &&& final(settings).data_dir_spec() == old(settings).data_dir_spec()
            },
        },
{
    if state.busy {
        return SetupEffect::Stop;
    }
    match action {
        SetupAction::DownloadRecommended(slug) => {
            state.busy = true;
            let mut s = String::from_str("Downloading ");
            s.append(slug.as_str());
            s.append("...");
            state.status = s;
            state.needs_refresh = true;
            SetupEffect::StartDownload(slug)
        },
        SetupAction::BrowseModrinth => SetupEffect::OpenPackManager,
        SetupAction::Skip => {
            settings.set_setup_dismissed(true);
            SetupEffect::SaveAndOpenMainMenu
        },
    }
}

/// Records how the first-start download ended (`None` when the task ended
/// without a result); returns whether to reload the settings and open the
/// main menu, which happens when the download succeeded.
pub fn finish_setup_download(state: &mut SetupState, outcome: Option<Result<(), String>>) -> (r: bool)
    ensures
        !final(state).busy,
        r == (outcome matches Some(Ok(()))),
        r ==> final(state).status == old(state).status && final(state).needs_refresh == old(state).needs_refresh,
        !r ==> final(state).needs_refresh,
        final(state).status@ == match outcome {
            Some(Ok(())) => old(state).status@,
            Some(Err(e)) => "Download failed: "@ + e@,
            None => "Download failed: task ended without result"@,
        },
{
    state.busy = false;
    match outcome {
        Some(Ok(())) => true,
        Some(Err(e)) => {
            let mut s = String::from_str("Download failed: ");
            s.append(e.as_str());
            state.status = s;
            state.needs_refresh = true;
            false
        },
        None => {
            state.status = String::from_str("Download failed: task ended without result");
            state.needs_refresh = true;
            false
        },
    }
}

} // verus!
