use stagcrest::minimap::MinimapSubscription;
use stagcrest::pack_manager::{finish_setup_download, press_setup_button, SetupAction, SetupEffect, SetupState};
use stagcrest::pack_manager::{status_line, StatusLine};
use stagcrest::pack_manager::{installed_rows, missing_recommended};
use stagcrest::text::str_contains;
use stagcrest::chat::{format_line, ChatKind, ChatLine, ChatUiState, MAX_MESSAGES};
use stagcrest::connect::{connect_address, normalize_addr, trim_str, ConnectionHistory, MAX_HISTORY};
use stagcrest::graphics::{clamp_shadow_cascades, directional_light_gpu_indices};
use stagcrest::graphics::{overflow_warning, GpuOverflowCounters};
use stagcrest::hotbar::{keyboard_selection, scroll_selection};
use stagcrest::minimap::{zoom_bpp, zoom_index_after, MinimapDecodeQueue, ZOOM_LEVELS};
use stagcrest::pack_manager::{
    decimal_string, finish_install, finish_remove, finish_search, press_manager_button,
    ManagerAction, ManagerEffect, PackManagerState,
};
use stagcrest::settings::{ContentSettings, ContentSource, ResourcePackEntry};
use stagcrest::worlds::{is_valid_world_name, new_world_plan, parse_u64, world_to_play, WorldEntry};
use stagcrest::worlds::{name_not_after, seed_from_nanos, sort_worlds_by_name};
use stagcrest::worlds::{press_world_button, select_world_entry, WorldSelectAction, WorldSelectEffect, WorldSelectState};
use stagcrest::minimap::fill_unloaded_rgba;

#[test]
fn addresses_get_the_default_port() {
    assert_eq!(normalize_addr("  example.org "), "example.org:4242");
    assert_eq!(normalize_addr("10.0.0.1:9000"), "10.0.0.1:9000");
    assert_eq!(normalize_addr(""), ":4242");
    assert_eq!(trim_str("\t a b \n"), "a b");
    assert_eq!(trim_str("\u{3000}x\u{2003}"), "x");
}

#[test]
fn empty_address_does_not_connect() {
    assert_eq!(connect_address("host"), Some("host:4242".to_string()));
    assert_eq!(connect_address("   "), None);
    assert_eq!(connect_address(":80"), None);
}

#[test]
fn history_moves_address_to_front() {
    let mut h = ConnectionHistory(vec!["a:1".into(), "b:2".into(), "c:3".into()]);
    h.push_front("b:2".into());
    assert_eq!(h.0, vec!["b:2", "a:1", "c:3"]);
    h.push_front("d:4".into());
    assert_eq!(h.0, vec!["d:4", "b:2", "a:1", "c:3"]);
}

#[test]
fn history_keeps_the_most_recent_ten() {
    let mut h = ConnectionHistory::default();
    for i in 0..15 {
        h.push_front(format!("host{i}:1"));
    }
    assert_eq!(h.0.len(), MAX_HISTORY);
    assert_eq!(h.0[0], "host14:1");
    assert_eq!(h.0[9], "host5:1");
}

#[test]
fn chat_lines_format_by_sender() {
    let player = ChatLine { kind: ChatKind::Player { sender: "Alex".into() }, text: "hi".into() };
    let system = ChatLine { kind: ChatKind::System, text: "Server restarting".into() };
    assert_eq!(format_line(&player), "<Alex> hi");
    assert_eq!(format_line(&system), "Server restarting");
}

#[test]
fn chat_log_keeps_the_newest_lines() {
    let mut chat = ChatUiState::new();
    for i in 0..(MAX_MESSAGES as u64 + 5) {
        chat.push_chat_line(ChatLine { kind: ChatKind::System, text: format!("{i}") }, i);
    }
    assert!(chat.dirty);
    assert_eq!(chat.messages.len(), MAX_MESSAGES);
    assert_eq!(chat.messages[0].0.text, "5");
    assert_eq!(chat.messages[0].1, 5);
    assert_eq!(chat.messages[MAX_MESSAGES - 1].0.text, "104");
}

#[test]
fn hotbar_scroll_wraps() {
    assert_eq!(scroll_selection(0, 9, 1), 8);
    assert_eq!(scroll_selection(8, 9, -1), 0);
    assert_eq!(scroll_selection(4, 9, -1), 5);
    assert_eq!(scroll_selection(4, 9, 0), 4);
}

#[test]
fn hotbar_keys_select_the_last_pressed() {
    assert_eq!(keyboard_selection(3, &vec![false; 9]), 3);
    let mut pressed = vec![false; 9];
    pressed[1] = true;
    pressed[6] = true;
    assert_eq!(keyboard_selection(3, &pressed), 6);
}

#[test]
fn world_names_are_validated() {
    assert!(is_valid_world_name("My World"));
    assert!(!is_valid_world_name(""));
    assert!(!is_valid_world_name("a/b"));
    assert!(!is_valid_world_name("a\\b"));
    assert!(!is_valid_world_name("a..b"));
    assert!(!is_valid_world_name("tab\there"));
    assert!(is_valid_world_name(&"x".repeat(128)));
    assert!(!is_valid_world_name(&"x".repeat(129)));
    assert!(is_valid_world_name(&"é".repeat(64)));
    assert!(!is_valid_world_name(&"é".repeat(65)));
}

#[test]
fn seeds_parse_like_u64() {
    assert_eq!(parse_u64("42"), Some(42));
    assert_eq!(parse_u64("+7"), Some(7));
    assert_eq!(parse_u64("18446744073709551615"), Some(u64::MAX));
    assert_eq!(parse_u64("18446744073709551616"), None);
    assert_eq!(parse_u64(""), None);
    assert_eq!(parse_u64("+"), None);
    assert_eq!(parse_u64("-1"), None);
    assert_eq!(parse_u64("12a"), None);
    for s in ["0", "007", "+123", "99999999999999999999", "1 2"] {
        assert_eq!(parse_u64(s), s.parse::<u64>().ok(), "{s}");
    }
}

#[test]
fn create_form_plans_a_world() {
    assert_eq!(new_world_plan("  Alpha ", " 12 "), Some(("Alpha".to_string(), Some(12))));
    assert_eq!(new_world_plan("Beta", "zero"), Some(("Beta".to_string(), None)));
    assert_eq!(new_world_plan("Beta", "0"), Some(("Beta".to_string(), None)));
    assert_eq!(new_world_plan("../x", "1"), None);
}

#[test]
fn play_picks_selected_or_first_world() {
    let worlds = vec![
        WorldEntry { name: "A".into(), seed: 1, circuit_tick: 0 },
        WorldEntry { name: "B".into(), seed: 2, circuit_tick: 5 },
    ];
    assert_eq!(world_to_play(&None, &worlds), Some(("A".to_string(), 1)));
    assert_eq!(world_to_play(&Some("B".into()), &worlds), Some(("B".to_string(), 2)));
    assert_eq!(world_to_play(&Some("C".into()), &worlds), None);
    assert_eq!(world_to_play(&None, &vec![]), None);
}

#[test]
fn zoom_levels_cover_range() {
    assert_eq!(ZOOM_LEVELS[0], 1);
    assert_eq!(ZOOM_LEVELS[4], 16);
}

#[test]
fn zoom_steps_stay_in_range() {
    assert_eq!(zoom_index_after(0, true, false), 1);
    assert_eq!(zoom_index_after(4, true, false), 4);
    assert_eq!(zoom_index_after(0, false, true), 0);
    assert_eq!(zoom_index_after(2, true, true), 2);
    assert_eq!(zoom_bpp(3), 8);
}

#[test]
fn decode_queue_replaces_and_bounds_pending_tiles() {
    let mut q: MinimapDecodeQueue<(i32, i32, usize)> = MinimapDecodeQueue::new();
    q.enqueue(0, 0, vec![1]);
    q.enqueue(1, 0, vec![2]);
    q.enqueue(0, 0, vec![3, 3]);
    q.pump(|x, z, b| (x, z, b.len()));
    let running = q.take_in_flight();
    assert_eq!(running, vec![(0, 0, 2), (1, 0, 1)]);
    for i in 0..70 {
        q.enqueue(i, 1, vec![]);
    }
    q.pump(|x, z, _| (x, z, 0));
    let running = q.take_in_flight();
    assert_eq!(running.len(), 8);
    assert_eq!(running[0], (6, 1, 0));
}

#[test]
fn decode_queue_drains_finished_tiles() {
    let mut q: MinimapDecodeQueue<u32> = MinimapDecodeQueue::new();
    let ready = q.drain_ready(vec![(1u32, None), (2, Some(Some("tile"))), (3, Some(None))]);
    assert_eq!(ready, vec!["tile"]);
    assert_eq!(q.take_in_flight(), vec![1]);
}

#[test]
fn shadow_cascades_are_clamped() {
    assert_eq!(clamp_shadow_cascades(0), 1);
    assert_eq!(clamp_shadow_cascades(3), 3);
    assert_eq!(clamp_shadow_cascades(9), 4);
}

#[test]
fn directional_light_indices_follow_bevy_sort_when_only_moon_shadows() {
    let sun = 10u64;
    let moon = 20u64;
    let indices = directional_light_gpu_indices(&vec![(sun, false), (moon, true)]);
    assert_eq!(indices, vec![0, 1]);
    let swapped = directional_light_gpu_indices(&vec![(moon, false), (sun, true)]);
    assert_eq!(swapped, vec![0, 1]);
}

#[test]
fn directional_light_indices_stable_when_both_cast_shadows() {
    let indices = directional_light_gpu_indices(&vec![(20, true), (10, true)]);
    assert_eq!(indices, vec![1, 0]);
}

fn pack(id: &str) -> ResourcePackEntry {
    ResourcePackEntry {
        id: id.into(),
        path: id.into(),
        enabled: true,
        source: ContentSource::local(),
        installed_at: None,
    }
}

#[test]
fn manager_search_and_install_set_status() {
    let mut state = PackManagerState::new();
    let mut settings = ContentSettings::empty("data".into());
    let e = press_manager_button(&mut state, &mut settings, ManagerAction::Search, "   ");
    assert!(matches!(e, ManagerEffect::Nothing));
    assert_eq!(state.status, "Enter a search query.");
    let e = press_manager_button(&mut state, &mut settings, ManagerAction::Search, " faithful ");
    assert!(matches!(e, ManagerEffect::StartSearch(ref q) if q == "faithful"));
    assert_eq!(state.status, "Searching for \"faithful\"...");
    assert!(state.busy);
    let e = press_manager_button(&mut state, &mut settings, ManagerAction::Back, "");
    assert!(matches!(e, ManagerEffect::Stop));
    finish_search(&mut state, Some(Ok(12)));
    assert_eq!(state.status, "12 results.");
    assert!(!state.busy);
    let e = press_manager_button(&mut state, &mut settings, ManagerAction::InstallSlug("fa".into()), "");
    assert!(matches!(e, ManagerEffect::StartInstall(ref s) if s == "fa"));
    assert_eq!(state.status, "Installing fa...");
    finish_install(&mut state, Some(Err("timeout".into())));
    assert_eq!(state.status, "Install failed: timeout");
    finish_install(&mut state, None);
    assert_eq!(state.status, "Install failed: task ended without result");
}

#[test]
fn manager_toggles_moves_and_deletes() {
    let mut state = PackManagerState::new();
    let mut settings = ContentSettings::empty("data".into());
    settings.upsert_pack(pack("a")).unwrap();
    settings.upsert_pack(pack("b")).unwrap();
    let e = press_manager_button(&mut state, &mut settings, ManagerAction::ToggleEnabled("a".into()), "");
    assert!(matches!(e, ManagerEffect::SaveSettings));
    assert!(!settings.pack_by_id("a").unwrap().enabled);
    let e = press_manager_button(&mut state, &mut settings, ManagerAction::ToggleEnabled("zz".into()), "");
    assert!(matches!(e, ManagerEffect::Nothing));
    press_manager_button(&mut state, &mut settings, ManagerAction::MoveDown("a".into()), "");
    assert_eq!(settings.content().resource_pack_order, vec!["b", "a"]);
    let e = press_manager_button(&mut state, &mut settings, ManagerAction::ConfirmDelete, "");
    assert!(matches!(e, ManagerEffect::Stop));
    press_manager_button(&mut state, &mut settings, ManagerAction::Delete("b".into()), "");
    assert_eq!(state.pending_delete.as_deref(), Some("b"));
    let e = press_manager_button(&mut state, &mut settings, ManagerAction::ConfirmDelete, "");
    assert!(matches!(e, ManagerEffect::RemovePack(ref id) if id == "b"));
    assert!(state.pending_delete.is_none());
    finish_remove(&mut state, "b", Ok(()));
    assert_eq!(state.status, "Removed pack b.");
    finish_remove(&mut state, "b", Err("io".into()));
    assert_eq!(state.status, "Delete failed: io");
}

#[test]
fn numbers_are_written_in_decimal() {
    assert_eq!(decimal_string(0), "0");
    assert_eq!(decimal_string(7), "7");
    assert_eq!(decimal_string(1203), "1203");
    assert_eq!(decimal_string(usize::MAX), usize::MAX.to_string());
}

#[test]
fn status_line_marks_failures() {
    let mut state = PackManagerState::new();
    assert_eq!(status_line(&state), StatusLine::Hidden);
    finish_install(&mut state, Some(Err("disk full".into())));
    assert_eq!(status_line(&state), StatusLine::Error);
    finish_install(&mut state, Some(Ok(())));
    assert_eq!(status_line(&state), StatusLine::Note);
    state.busy = true;
    assert_eq!(status_line(&state), StatusLine::Busy);
}

#[test]
fn installed_rows_follow_priority() {
    let mut settings = ContentSettings::empty("data".into());
    settings.upsert_pack(pack("a")).unwrap();
    let mut b = pack("b");
    b.source = ContentSource::modrinth("b".into(), "v2".into());
    b.enabled = false;
    settings.upsert_pack(b).unwrap();
    settings.move_pack("b", stagcrest::settings::MoveDirection::Up).unwrap();
    let rows = installed_rows(&settings, &vec![true, false]);
    assert_eq!(rows.len(), 2);
    assert_eq!(rows[0].id, "b");
    assert_eq!(rows[0].detail, "Modrinth · b · invalid — missing pack.mcmeta");
    assert!(!rows[0].enabled);
    assert_eq!(rows[1].id, "a");
    assert_eq!(rows[1].detail, "Local · a");
    assert!(rows[1].enabled);
    let slugs = vec!["a".to_string(), "faithful".to_string(), "b".to_string(), "vanilla-plus".to_string()];
    assert_eq!(missing_recommended(&settings, &slugs), vec![1, 3]);
}

#[test]
fn substring_search() {
    assert!(str_contains("Install failed: x", "failed"));
    assert!(!str_contains("Pack installed.", "failed"));
    assert!(str_contains("abc", ""));
    assert!(!str_contains("ab", "abc"));
}

#[test]
fn first_start_screen_buttons() {
    let mut state = SetupState { status: String::new(), busy: false, needs_refresh: false };
    let mut settings = ContentSettings::empty("data".into());
    let e = press_setup_button(&mut state, &mut settings, SetupAction::DownloadRecommended("faithful".into()));
    assert!(matches!(e, SetupEffect::StartDownload(ref s) if s == "faithful"));
    assert_eq!(state.status, "Downloading faithful...");
    assert!(matches!(press_setup_button(&mut state, &mut settings, SetupAction::Skip), SetupEffect::Stop));
    assert!(!finish_setup_download(&mut state, Some(Err("offline".into()))));
    assert_eq!(state.status, "Download failed: offline");
    assert!(matches!(press_setup_button(&mut state, &mut settings, SetupAction::BrowseModrinth), SetupEffect::OpenPackManager));
    assert!(matches!(press_setup_button(&mut state, &mut settings, SetupAction::Skip), SetupEffect::SaveAndOpenMainMenu));
    assert!(settings.resource_pack_setup_dismissed());
    assert!(finish_setup_download(&mut state, Some(Ok(()))));
}

#[test]
fn minimap_subscription_follows_visible_tiles() {
    let mut sub = MinimapSubscription { visible: true, last_subscribed_tiles: vec![], needs_subscribe: false };
    let tiles = vec![(0, 0), (1, 0)];
    assert!(sub.mark_subscribe_if_needed(&tiles));
    assert!(!sub.mark_subscribe_if_needed(&vec![(1, 0), (0, 0)]));
    assert_eq!(sub.build_subscribe_message(&tiles), Some((true, tiles.clone())));
    assert_eq!(sub.build_subscribe_message(&tiles), None);
    sub.visible = false;
    assert!(!sub.mark_subscribe_if_needed(&tiles));
    assert!(sub.needs_subscribe);
    assert_eq!(sub.build_subscribe_message(&tiles), Some((false, vec![])));
    assert!(sub.last_subscribed_tiles.is_empty());
}

#[test]
fn worlds_are_listed_by_name() {
    let found = vec![
        WorldEntry { name: "beta".into(), seed: 2, circuit_tick: 0 },
        WorldEntry { name: "Alpha".into(), seed: 1, circuit_tick: 0 },
        WorldEntry { name: "alpha".into(), seed: 3, circuit_tick: 7 },
        WorldEntry { name: "al".into(), seed: 4, circuit_tick: 0 },
    ];
    let sorted = sort_worlds_by_name(found);
    let names: Vec<&str> = sorted.iter().map(|w| w.name.as_str()).collect();
    assert_eq!(names, vec!["Alpha", "al", "alpha", "beta"]);
    assert_eq!(sorted[2].seed, 3);
    assert_eq!(sorted[2].circuit_tick, 7);
    assert!(sort_worlds_by_name(Vec::new()).is_empty());
}

#[test]
fn world_names_compare_like_str() {
    let names = ["", "a", "ab", "b", "Z", "\u{e9}", "\u{1F600}", "e"];
    for a in names {
        for b in names {
            assert_eq!(name_not_after(a, b), a <= b, "{a:?} {b:?}");
        }
    }
}

#[test]
fn clock_seed_folds_high_bits() {
    assert_eq!(seed_from_nanos(0), 0);
    assert_eq!(seed_from_nanos(1 << 32), (1u64 << 32) | 1);
    let n: u128 = 0x0123_4567_89ab_cdef_0011_2233_4455_6677;
    assert_eq!(seed_from_nanos(n), ((n ^ (n >> 32)) & 0xffff_ffff_ffff_ffff) as u64);
    assert_eq!(seed_from_nanos(n), 0x89ab_cdef_0011_2233 ^ 0x0011_2233_4455_6677);
}

#[test]
fn unloaded_minimap_pixels_are_opaque() {
    let px = fill_unloaded_rgba(10, [10, 20, 30]);
    assert_eq!(px, vec![10, 20, 30, 255, 10, 20, 30, 255, 10, 20]);
    assert!(fill_unloaded_rgba(0, [1, 2, 3]).is_empty());
}

#[test]
fn directional_light_indices_are_a_ranking() {
    let lights = vec![(7, true), (3, false), (9, false), (1, true), (5, false)];
    let idx = directional_light_gpu_indices(&lights);
    assert_eq!(idx, vec![4, 0, 2, 3, 1]);
    let mut seen = idx.clone();
    seen.sort();
    assert_eq!(seen, vec![0, 1, 2, 3, 4]);
    let reordered = vec![(5, false), (1, true), (9, false), (3, false), (7, true)];
    let idx2 = directional_light_gpu_indices(&reordered);
    for (i, l) in lights.iter().enumerate() {
        let j = reordered.iter().position(|m| m == l).unwrap();
        assert_eq!(idx[i], idx2[j]);
    }
}

#[test]
fn world_select_buttons() {
    let worlds = vec![
        WorldEntry { name: "Alpha".into(), seed: 11, circuit_tick: 0 },
        WorldEntry { name: "Beta".into(), seed: 22, circuit_tick: 0 },
    ];
    let mut st = WorldSelectState { selected_entry: None, pending_delete: None };
    match press_world_button(&mut st, WorldSelectAction::Play, &worlds, "", "") {
        WorldSelectEffect::StartWorld(n, s) => assert_eq!((n.as_str(), s), ("Alpha", 11)),
        other => panic!("{other:?}"),
    }
    assert!(select_world_entry(&mut st, "Beta"));
    assert!(!select_world_entry(&mut st, "Beta"));
    match press_world_button(&mut st, WorldSelectAction::Play, &worlds, "", "") {
        WorldSelectEffect::StartWorld(n, s) => assert_eq!((n.as_str(), s), ("Beta", 22)),
        other => panic!("{other:?}"),
    }
    match press_world_button(&mut st, WorldSelectAction::ConfirmCreate, &worlds, "  New World ", " 42 ") {
        WorldSelectEffect::CreateWorld(n, s) => assert_eq!((n.as_str(), s), ("New World", Some(42))),
        other => panic!("{other:?}"),
    }
    assert!(matches!(
        press_world_button(&mut st, WorldSelectAction::ConfirmCreate, &worlds, "a/b", "1"),
        WorldSelectEffect::Nothing
    ));
    assert!(matches!(
        press_world_button(&mut st, WorldSelectAction::ConfirmDelete, &worlds, "", ""),
        WorldSelectEffect::Stop
    ));
    match press_world_button(&mut st, WorldSelectAction::Delete("Beta".into()), &worlds, "", "") {
        WorldSelectEffect::ShowDeleteConfirm(n) => assert_eq!(n, "Beta"),
        other => panic!("{other:?}"),
    }
    assert_eq!(st.pending_delete.as_deref(), Some("Beta"));
    match press_world_button(&mut st, WorldSelectAction::ConfirmDelete, &worlds, "", "") {
        WorldSelectEffect::DeleteWorld(n) => assert_eq!(n, "Beta"),
        other => panic!("{other:?}"),
    }
    assert_eq!(st.selected_entry, None);
    assert_eq!(st.pending_delete, None);
    assert!(matches!(
        press_world_button(&mut st, WorldSelectAction::Back, &worlds, "", ""),
        WorldSelectEffect::OpenMainMenu
    ));
    assert!(matches!(
        press_world_button(&mut st, WorldSelectAction::CancelDelete, &worlds, "", ""),
        WorldSelectEffect::CloseDeleteConfirm
    ));
}

#[test]
fn overflow_warning_flags_lost_work() {
    let quiet = GpuOverflowCounters {
        overflow_pending: false,
        global_overflow_buckets: 0,
        scratch_overflow_chunks: 0,
        upload_failures: 0,
        evictions: 0,
    };
    assert_eq!(overflow_warning(None), "");
    assert_eq!(overflow_warning(Some(quiet)), "");
    assert_eq!(overflow_warning(Some(GpuOverflowCounters { evictions: 2, ..quiet })), "  OVERFLOW");
    assert_eq!(overflow_warning(Some(GpuOverflowCounters { overflow_pending: true, ..quiet })), "  OVERFLOW");
}
