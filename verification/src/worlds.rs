//! Names of local worlds.

use vstd::prelude::*;
use vstd::multiset::Multiset;

verus! {

/// `c` is an ASCII control character (U+0000..=U+001F or U+007F).
pub open spec fn is_ascii_control(c: char) -> bool {
    (c as u32) < 0x20 || (c as u32) == 0x7F
}

/// Two dots follow each other somewhere in `s`.
pub open spec fn has_double_dot(s: Seq<char>) -> bool {
    exists|i: int| 0 <= i < s.len() - 1 && s[i] == '.' && #[trigger] s[i + 1] == '.'
}

/// Bytes the UTF-8 encoding of `c` takes.
pub open spec fn utf8_len_char(c: char) -> int {
    let u = c as u32;
    if u < 0x80 {
        1
    } else if u < 0x800 {
        2
    } else if u < 0x10000 {
        3
    } else {
        4
    }
}

/// Bytes the UTF-8 encoding of `s` takes (what `str::len` reports).
pub open spec fn utf8_len(s: Seq<char>) -> int
    decreases s.len(),
{
    if s.len() == 0 {
        0
    } else {
        utf8_len(s.drop_last()) + utf8_len_char(s.last())
    }
}

/// A world name is its folder's name: not empty, no path separators, no
/// `..`, no control characters, at most 128 bytes of UTF-8.
pub open spec fn valid_world_name(name: Seq<char>) -> bool {
    &&& name.len() > 0
    &&& !name.contains('/')
    &&& !name.contains('\\')
    &&& !has_double_dot(name)
    &&& forall|i: int| 0 <= i < name.len() ==> !is_ascii_control(#[trigger] name[i])
    &&& utf8_len(name) <= 128
}

proof fn lemma_utf8_len_grows(s: Seq<char>, k: int)
    requires
        0 <= k <= s.len(),
    ensures
        utf8_len(s.take(k)) <= utf8_len(s),
    decreases s.len() - k,
{
    if k < s.len() {
        assert(s.take(k + 1).drop_last() =~= s.take(k));
        lemma_utf8_len_grows(s, k + 1);
    } else {
        assert(s.take(k) =~= s);
    }
}

/// Whether `name` can name a world (see [`valid_world_name`]).
pub fn is_valid_world_name(name: &str) -> (r: bool)
    ensures
        r == valid_world_name(name@),
{
    let n = name.unicode_len();
    if n == 0 {
        return false;
    }
    let mut bytes: usize = 0;
    let mut i: usize = 0;
    while i < n
        invariant
            n == name@.len(),
            n > 0,
            i <= n,
            bytes == utf8_len(name@.take(i as int)),
            bytes <= 128,
            forall|j: int| 0 <= j < i ==> name@[j] != '/' && name@[j] != '\\',
            forall|j: int| 0 <= j < i ==> !is_ascii_control(#[trigger] name@[j]),
            forall|j: int| 0 <= j < i && j + 1 < n ==> !(name@[j] == '.' && #[trigger] name@[j + 1] == '.'),
        decreases n - i,
    {
        let c = name.get_char(i);
        let u = c as u32;
        if c == '/' || c == '\\' || u < 0x20 || u == 0x7F {
            proof {
                if c == '/' {
                    assert(name@.contains('/')) by {
                        assert(name@[i as int] == '/');
                    }
                }
                if c == '\\' {
                    assert(name@.contains('\\')) by {
                        assert(name@[i as int] == '\\');
                    }
                }
            }
            return false;
        }
        if i + 1 < n && c == '.' && name.get_char(i + 1) == '.' {
            assert(name@[i as int + 1] == '.');
            return false;
        }
        let w: usize = if u < 0x80 {
            1
        } else if u < 0x800 {
            2
        } else if u < 0x10000 {
            3
        } else {
            4
        };
        assert(name@.take(i as int + 1).drop_last() =~= name@.take(i as int));
        if bytes + w > 128 {
            proof {
                lemma_utf8_len_grows(name@, i as int + 1);
            }
            return false;
        }
        bytes = bytes + w;
        i = i + 1;
    }
    proof {
        assert(name@.take(n as int) =~= name@);
        if has_double_dot(name@) {
            let k = choose|k: int| 0 <= k < name@.len() - 1 && name@[k] == '.' && #[trigger] name@[k + 1] == '.';
            assert(!(name@[k] == '.' && name@[k + 1] == '.'));
        }
        if name@.contains('/') {
            let k = choose|k: int| 0 <= k < name@.len() && name@[k] == '/';
            assert(name@[k] != '/');
        }
        if name@.contains('\\') {
            let k = choose|k: int| 0 <= k < name@.len() && name@[k] == '\\';
            assert(name@[k] != '\\');
        }
    }
    true
}

/// A local world found on disk.
#[derive(Debug, Clone)]
pub struct WorldEntry {
    pub name: String,
    pub seed: u64,
    pub circuit_tick: u64,
}

/// Index of the first world named `name`, or -1.
pub open spec fn world_index(ws: Seq<WorldEntry>, name: Seq<char>) -> int
    decreases ws.len(),
{
    if ws.len() == 0 {
        -1
    } else {
        let r = world_index(ws.drop_last(), name);
        if r >= 0 {
            r
        } else if ws.last().name@ == name {
            ws.len() - 1
        } else {
            -1
        }
    }
}

proof fn lemma_world_index(ws: Seq<WorldEntry>, name: Seq<char>)
    ensures
        -1 <= world_index(ws, name) < ws.len(),
        world_index(ws, name) >= 0 ==> ws[world_index(ws, name)].name@ == name,
        forall|j: int|
            0 <= j < ws.len() && (world_index(ws, name) < 0 || j < world_index(ws, name))
                ==> ws[j].name@ != name,
    decreases ws.len(),
{
    if ws.len() > 0 {
        lemma_world_index(ws.drop_last(), name);
        assert forall|j: int| 0 <= j < ws.len() - 1 implies ws.drop_last()[j] == ws[j] by {}
    }
}

/// The world the play button starts: the selected one, or the first listed
/// when none is selected, provided a listed world has that name.
pub open spec fn world_to_play_spec(selected: Option<Seq<char>>, ws: Seq<WorldEntry>) -> Option<(Seq<char>, u64)> {
    let name = match selected {
        Some(n) => Some(n),
        None => if ws.len() > 0 { Some(ws[0].name@) } else { None },
    };
    match name {
        None => None,
        Some(n) => if world_index(ws, n) >= 0 {
            Some((ws[world_index(ws, n)].name@, ws[world_index(ws, n)].seed))
        } else {
            None
        },
    }
}

/// The name and seed of the world to play (see [`world_to_play_spec`]).
pub fn world_to_play(selected: &Option<String>, worlds: &Vec<WorldEntry>) -> (r: Option<(String, u64)>)
    ensures
        match world_to_play_spec(
            match selected {
                Some(s) => Some(s@),
                None => None,
            },
            worlds@,
        ) {
            None => r is None,
            Some((n, seed)) => r matches Some((rn, rs)) && rn@ == n && rs == seed,
        },
{
    let name: &str = match selected {
        Some(s) => s.as_str(),
        None => {
            if worlds.len() == 0 {
                return None;
            }
            worlds[0].name.as_str()
        },
    };
    proof {
        lemma_world_index(worlds@, name@);
    }
    let mut i: usize = 0;
    while i < worlds.len()
        invariant
            i <= worlds@.len(),
            match selected {
                Some(s) => name@ == s@,
                None => worlds@.len() > 0 && name@ == worlds@[0].name@,
            },
            forall|j: int| 0 <= j < i ==> worlds@[j].name@ != name@,
            -1 <= world_index(worlds@, name@) < worlds@.len(),
            world_index(worlds@, name@) >= 0 ==> worlds@[world_index(worlds@, name@)].name@ == name@,
            forall|j: int|
                0 <= j < worlds@.len() && (world_index(worlds@, name@) < 0 || j < world_index(worlds@, name@))
                    ==> worlds@[j].name@ != name@,
        decreases worlds@.len() - i,
    {
        if crate::text::str_eq(worlds[i].name.as_str(), name) {
            assert(world_index(worlds@, name@) == i);
            return Some((worlds[i].name.clone(), worlds[i].seed));
        }
        i = i + 1;
    }
    None
}

/// The value of decimal digits.
pub open spec fn digits_value(s: Seq<char>) -> int
    decreases s.len(),
{
    if s.len() == 0 {
        0
    } else {
        digits_value(s.drop_last()) * 10 + (s.last() as u32 - '0' as u32)
    }
}

pub open spec fn all_digits(s: Seq<char>) -> bool {
    forall|i: int| 0 <= i < s.len() ==> '0' <= #[trigger] s[i] <= '9'
}

/// What `u64::from_str` gives: an optional `+` followed by at least one
/// decimal digit and nothing else, whose value fits in 64 bits.
pub open spec fn parsed_u64(s: Seq<char>) -> Option<u64> {
    let d = if s.len() > 0 && s[0] == '+' { s.skip(1) } else { s };
    if d.len() > 0 && all_digits(d) && digits_value(d) <= u64::MAX {
        Some(digits_value(d) as u64)
    } else {
        None
    }
}

proof fn lemma_digits_value_nonneg(s: Seq<char>)
    requires
        all_digits(s),
    ensures
        digits_value(s) >= 0,
    decreases s.len(),
{
    if s.len() > 0 {
        lemma_digits_value_nonneg(s.drop_last());
    }
}

proof fn lemma_digits_value_grows(s: Seq<char>, k: int)
    requires
        all_digits(s),
        0 <= k <= s.len(),
    ensures
        digits_value(s.take(k)) <= digits_value(s),
    decreases s.len() - k,
{
    if k < s.len() {
        assert(s.take(k + 1).drop_last() =~= s.take(k));
        lemma_digits_value_nonneg(s.take(k));
        lemma_digits_value_grows(s, k + 1);
    } else {
        assert(s.take(k) =~= s);
    }
}

/// Parses an unsigned 64-bit decimal number as `u64::from_str` does.
pub fn parse_u64(s: &str) -> (r: Option<u64>)
    ensures
        r == parsed_u64(s@),
{
    let n = s.unicode_len();
    let start: usize = if n > 0 && s.get_char(0) == '+' { 1 } else { 0 };
    let ghost d = if s@.len() > 0 && s@[0] == '+' { s@.skip(1) } else { s@ };
    assert(d =~= s@.skip(start as int));
    if start >= n {
        return None;
    }
    let mut v: u64 = 0;
    let mut i: usize = start;
    while i < n
        invariant
            n == s@.len(),
            start <= i <= n,
            d == s@.skip(start as int),
            d == (if s@.len() > 0 && s@[0] == '+' { s@.skip(1) } else { s@ }),
            all_digits(d.take(i - start)),
            v == digits_value(d.take(i - start)),
        decreases n - i,
    {
        let c = s.get_char(i);
        let ghost t = d.take(i - start + 1);
        assert(t.drop_last() =~= d.take(i - start));
        assert(t.last() == c);
        if !('0' <= c && c <= '9') {
            assert(!all_digits(d)) by {
                assert(d[i - start] == c);
            }
            return None;
        }
        let digit = (c as u32 - '0' as u32) as u64;
        assert(all_digits(t));
        if v > 1844674407370955161 || (v == 1844674407370955161 && digit > 5) {
            proof {
                if all_digits(d) {
                    lemma_digits_value_grows(d, i - start + 1);
                }
            }
            return None;
        }
        v = v * 10 + digit;
        i = i + 1;
    }
    assert(d.take(n - start) =~= d);
    Some(v)
}

/// The world the create form asks for: none when the trimmed name is not a
/// valid world name; otherwise the trimmed name, and its seed unless the
/// seed field held no nonzero number (then a random seed is drawn).
pub open spec fn new_world_spec(name_text: Seq<char>, seed_text: Seq<char>) -> Option<(Seq<char>, Option<u64>)> {
    let name = crate::connect::trim(name_text);
    let seed = match parsed_u64(crate::connect::trim(seed_text)) {
        Some(v) => v,
        None => 0,
    };
    if valid_world_name(name) {
        Some((name, if seed == 0 { None } else { Some(seed) }))
    } else {
        None
    }
}

/// `a` does not come after `b` in the order `str` compares names by: the
/// first differing character decides by its code point, and a name comes
/// before every longer name it begins.
pub open spec fn name_le(a: Seq<char>, b: Seq<char>) -> bool
    decreases a.len(),
{
    if a.len() == 0 {
        true
    } else if b.len() == 0 {
        false
    } else if (a[0] as u32) != (b[0] as u32) {
        (a[0] as u32) < (b[0] as u32)
    } else {
        name_le(a.drop_first(), b.drop_first())
    }
}

proof fn lemma_name_le_total(a: Seq<char>, b: Seq<char>)
    ensures
        name_le(a, b) || name_le(b, a),
    decreases a.len(),
{
    if a.len() > 0 && b.len() > 0 && (a[0] as u32) == (b[0] as u32) {
        lemma_name_le_total(a.drop_first(), b.drop_first());
    }
}

proof fn lemma_name_le_trans(a: Seq<char>, b: Seq<char>, c: Seq<char>)
    requires
        name_le(a, b),
        name_le(b, c),
    ensures
        name_le(a, c),
    decreases a.len(),
{
    if a.len() > 0 && b.len() > 0 && c.len() > 0 && (a[0] as u32) == (b[0] as u32) && (b[0] as u32) == (c[0] as u32) {
        lemma_name_le_trans(a.drop_first(), b.drop_first(), c.drop_first());
    }
}

/// Whether `a` does not come after `b` (see [`name_le`]).
pub fn name_not_after(a: &str, b: &str) -> (r: bool)
    ensures
        r == name_le(a@, b@),
{
    let na = a.unicode_len();
    let nb = b.unicode_len();
    let mut i: usize = 0;
    assert(a@.subrange(0, na as int) =~= a@);
    assert(b@.subrange(0, nb as int) =~= b@);
    while i < na && i < nb
        invariant
            na == a@.len(),
            nb == b@.len(),
            i <= na,
            i <= nb,
            name_le(a@, b@) == name_le(a@.subrange(i as int, na as int), b@.subrange(i as int, nb as int)),
        decreases na - i,
    {
        let ca = a.get_char(i);
        let cb = b.get_char(i);
        let ghost sa = a@.subrange(i as int, na as int);
        let ghost sb = b@.subrange(i as int, nb as int);
        assert(sa[0] == ca && sb[0] == cb);
        if (ca as u32) != (cb as u32) {
            return (ca as u32) < (cb as u32);
        }
        assert(sa.drop_first() =~= a@.subrange(i + 1, na as int));
        assert(sb.drop_first() =~= b@.subrange(i + 1, nb as int));
        i = i + 1;
    }
    i == na
}

/// Each world's name does not come after the next ones'.
pub open spec fn sorted_by_name(ws: Seq<WorldEntry>) -> bool {
    forall|i: int, j: int| 0 <= i < j < ws.len() ==> name_le(#[trigger] ws[i].name@, #[trigger] ws[j].name@)
}

/// Orders the worlds found on disk by name.
pub fn sort_worlds_by_name(list: Vec<WorldEntry>) -> (r: Vec<WorldEntry>)
    ensures
        r@.to_multiset() == list@.to_multiset(),
        sorted_by_name(r@),
{
    broadcast use vstd::seq_lib::group_to_multiset_ensures;

    let mut rest = list;
    let mut out: Vec<WorldEntry> = Vec::new();
    assert(out@.to_multiset() =~= Multiset::<WorldEntry>::empty());
    while rest.len() > 0
        invariant
            rest@.to_multiset().add(out@.to_multiset()) == list@.to_multiset(),
            sorted_by_name(out@),
        decreases rest@.len(),
    {
        let ghost before = rest@;
        let x = match rest.pop() {
            Some(x) => x,
            None => { return out; },
        };
        proof {
            vstd::seq_lib::to_multiset_build(rest@, x);
            assert(before =~= rest@.push(x));
        }
        let mut pos: usize = 0;
        while pos < out.len() && !name_not_after(x.name.as_str(), out[pos].name.as_str())
            invariant
                pos <= out@.len(),
                forall|j: int| 0 <= j < pos ==> !name_le(x.name@, #[trigger] out@[j].name@),
            decreases out@.len() - pos,
        {
            pos = pos + 1;
        }
        let ghost old_out = out@;
        proof {
            vstd::seq_lib::to_multiset_insert(old_out, pos as int, x);
            assert forall|i: int, j: int| 0 <= i < j < old_out.len() + 1 implies name_le(
                #[trigger] old_out.insert(pos as int, x)[i].name@,
                #[trigger] old_out.insert(pos as int, x)[j].name@,
            ) by {
                let s = old_out.insert(pos as int, x);
                if j < pos {
                } else if j == pos {
                    lemma_name_le_total(x.name@, old_out[i].name@);
                } else if i < pos {
                    lemma_name_le_total(x.name@, old_out[i].name@);
                    assert(name_le(x.name@, old_out[pos as int].name@));
                    lemma_name_le_trans(old_out[i].name@, x.name@, old_out[pos as int].name@);
                    if j - 1 > pos {
                        lemma_name_le_trans(old_out[i].name@, old_out[pos as int].name@, old_out[j - 1].name@);
                    }
                } else if i == pos {
                    if j - 1 > pos {
                        lemma_name_le_trans(x.name@, old_out[pos as int].name@, old_out[j - 1].name@);
                    }
                } else {
                    assert(s[i] == old_out[i - 1] && s[j] == old_out[j - 1]);
                }
            }
        }
        out.insert(pos, x);
        assert(out@ == old_out.insert(pos as int, x));
    }
    assert(rest@.to_multiset() =~= Multiset::<WorldEntry>::empty());
    out
}

/// The seed of a new world drawn from the clock: the nanoseconds since the
/// Unix epoch folded onto 64 bits (high half mixed into the low half).
pub fn seed_from_nanos(nanos: u128) -> (r: u64)
    ensures
        r == (nanos ^ (nanos >> 32u128)) as u64,
{
    (nanos ^ (nanos >> 32u32)) as u64
}

/// Reads the create-world form: `None` when the trimmed name is not a valid
/// world name, otherwise the name and the typed seed (`None` for a random
/// one).
pub fn new_world_plan(name_text: &str, seed_text: &str) -> (r: Option<(String, Option<u64>)>)
    ensures
        match new_world_spec(name_text@, seed_text@) {
            None => r is None,
            Some((name, seed)) => r matches Some((rn, rs)) && rn@ == name && rs == seed,
        },
{
    let name = crate::connect::trim_str(name_text);
    if !is_valid_world_name(name.as_str()) {
        return None;
    }
    let seed_str = crate::connect::trim_str(seed_text);
    let seed = match parse_u64(seed_str.as_str()) {
        Some(v) => v,
        None => 0,
    };
    Some((name, if seed == 0 { None } else { Some(seed) }))
}

/// A button of the world select screen.
#[derive(Debug, Clone)]
pub enum WorldSelectAction {
    Play,
    Back,
    CreateNew,
    ConfirmCreate,
    CancelCreate,
    Delete(String),
    ConfirmDelete,
    CancelDelete,
}

/// Outside work a world select button asks for.
#[derive(Debug, Clone)]
pub enum WorldSelectEffect {
    /// Nothing beyond the state change.
    Nothing,
    /// Ignore this press and every further press of this frame.
    Stop,
    /// Leave for the main menu.
    OpenMainMenu,
    /// Start the embedded server on this world (name and seed).
    StartWorld(String, u64),
    /// Replace the world list with the create-world form.
    ShowCreateForm,
    /// Clear the form, scan the worlds on disk again and show the list.
    ShowWorldList,
    /// Create this world (name, and its seed or `None` for one drawn from
    /// the clock) unless its directory exists, then start it.
    CreateWorld(String, Option<u64>),
    /// Ask to confirm deleting this world, unless the question is already
    /// shown.
    ShowDeleteConfirm(String),
    /// Delete this world's directory, close the question, scan the worlds
    /// again and show the list.
    DeleteWorld(String),
    /// Close the question.
    CloseDeleteConfirm,
}

/// The world select screen's state: the highlighted world and the world
/// whose deletion waits for confirmation.
#[derive(Debug, Clone)]
pub struct WorldSelectState {
    pub selected_entry: Option<String>,
    pub pending_delete: Option<String>,
}

/// What pressing a world select button does: the state after it and the
/// outside work it asks for. `worlds` is the listed worlds, `name_text`
/// and `seed_text` the create form's fields.
pub open spec fn world_button_pressed(
    state: WorldSelectState,
    action: WorldSelectAction,
    worlds: Seq<WorldEntry>,
    name_text: Seq<char>,
    seed_text: Seq<char>,
    after: WorldSelectState,
    effect: WorldSelectEffect,
) -> bool {
    match action {
        WorldSelectAction::Play => {
            &&& after == state
            &&& match world_to_play_spec(
                match state.selected_entry {
                    Some(s) => Some(s@),
                    None => None,
                },
                worlds,
            ) {
                None => effect is Nothing,
                Some((n, seed)) => effect matches WorldSelectEffect::StartWorld(en, es) && en@ == n && es
                    == seed,
            }
        },
        WorldSelectAction::Back => after == state && effect is OpenMainMenu,
        WorldSelectAction::CreateNew => after == state && effect is ShowCreateForm,
        WorldSelectAction::CancelCreate => after == state && effect is ShowWorldList,
        WorldSelectAction::ConfirmCreate => {
            &&& after == state
            &&& match new_world_spec(name_text, seed_text) {
                None => effect is Nothing,
                Some((n, seed)) => effect matches WorldSelectEffect::CreateWorld(en, es) && en@ == n && es
                    == seed,
            }
        },
        WorldSelectAction::Delete(name) => {
            &&& after.selected_entry == state.selected_entry
            &&& after.pending_delete matches Some(p) && p@ == name@
            &&& effect matches WorldSelectEffect::ShowDeleteConfirm(n) && n@ == name@
        },
        WorldSelectAction::ConfirmDelete => match state.pending_delete {
            None => after == state && effect is Stop,
            Some(name) => {
                &&& after.selected_entry is None
                &&& after.pending_delete is None
                &&& effect matches WorldSelectEffect::DeleteWorld(n) && n@ == name@
            },
        },
        WorldSelectAction::CancelDelete => {
            &&& after.selected_entry == state.selected_entry
            &&& after.pending_delete is None
            &&& effect is CloseDeleteConfirm
        },
    }
}

/// Handles a press of a world select button (see [`world_button_pressed`]).
pub fn press_world_button(
    state: &mut WorldSelectState,
    action: WorldSelectAction,
    worlds: &Vec<WorldEntry>,
    name_text: &str,
    seed_text: &str,
) -> (effect: WorldSelectEffect)
    ensures
        world_button_pressed(*old(state), action, worlds@, name_text@, seed_text@, *final(state), effect),
{
    match action {
        WorldSelectAction::Play => match world_to_play(&state.selected_entry, worlds) {
            Some((n, seed)) => WorldSelectEffect::StartWorld(n, seed),
            None => WorldSelectEffect::Nothing,
        },
        WorldSelectAction::Back => WorldSelectEffect::OpenMainMenu,
        WorldSelectAction::CreateNew => WorldSelectEffect::ShowCreateForm,
        WorldSelectAction::CancelCreate => WorldSelectEffect::ShowWorldList,
        WorldSelectAction::ConfirmCreate => match new_world_plan(name_text, seed_text) {
            Some((n, seed)) => WorldSelectEffect::CreateWorld(n, seed),
            None => WorldSelectEffect::Nothing,
        },
        WorldSelectAction::Delete(name) => {
            state.pending_delete = Some(name.clone());
            WorldSelectEffect::ShowDeleteConfirm(name)
        },
        WorldSelectAction::ConfirmDelete => {
            let pending = state.pending_delete.take();
            match pending {
                None => WorldSelectEffect::Stop,
                Some(name) => {
                    state.selected_entry = None;
                    WorldSelectEffect::DeleteWorld(name)
                },
            }
        },
        WorldSelectAction::CancelDelete => {
            state.pending_delete = None;
            WorldSelectEffect::CloseDeleteConfirm
        },
    }
}

/// Highlights the world `name` when its row is clicked; returns whether
/// the highlight changed (the list is then scanned again and redrawn, and
/// no further row of this frame is handled).
pub fn select_world_entry(state: &mut WorldSelectState, name: &str) -> (changed: bool)
    ensures
        final(state).selected_entry matches Some(s) && s@ == name@,
        final(state).pending_delete == old(state).pending_delete,
        changed == !(old(state).selected_entry matches Some(s) && s@ == name@),
{
    let changed = match &state.selected_entry {
        Some(s) => !crate::text::str_eq(s.as_str(), name),
        None => true,
    };
    state.selected_entry = Some(name.to_string());
    changed
}

} // verus!
