use stagcrest::settings::{
    parse_reflection_tier, ContentSettings, ContentSettingsFile, ContentSource, GraphicsQualityTier,
    GraphicsReflectionTier, GraphicsSection, MoveDirection, ResourcePackEntry, SettingsError,
};

fn entry(id: &str, path: &str) -> ResourcePackEntry {
    ResourcePackEntry {
        id: id.into(),
        path: path.into(),
        enabled: true,
        source: ContentSource::local(),
        installed_at: None,
    }
}

fn order(s: &ContentSettings) -> Vec<String> {
    s.content().resource_pack_order.clone()
}

fn reload(s: &ContentSettings) -> ContentSettings {
    let file = ContentSettingsFile {
        content: s.content().clone(),
        player: s.player().clone(),
        graphics: *s.graphics(),
    };
    ContentSettings::from_file(s.data_dir().clone(), file)
}

#[test]
fn settings_round_trip() {
    let mut settings = ContentSettings::empty("data".into());
    settings.upsert_pack(entry("a", "Pack A")).unwrap();
    let loaded = reload(&settings);
    assert_eq!(loaded.content().resource_packs.len(), 1);
    assert_eq!(loaded.content().resource_pack_order, vec!["a"]);
}

#[test]
fn rejects_traversal_path() {
    let mut settings = ContentSettings::empty("data".into());
    let err = settings.upsert_pack(entry("evil", "../escape")).unwrap_err();
    assert!(matches!(err, SettingsError::InvalidPath(_)));
}

#[test]
fn enabled_paths_skip_missing_mcmeta() {
    let mut settings = ContentSettings::empty("data".into());
    settings.upsert_pack(entry("ghost", "ghost")).unwrap();
    assert!(settings.enabled_pack_asset_paths("data", &vec![false]).is_empty());
}

#[test]
fn reorder_moves_priority() {
    let mut settings = ContentSettings::empty("data".into());
    for id in ["a", "b", "c"] {
        settings.upsert_pack(entry(id, id)).unwrap();
    }
    settings.move_pack("c", MoveDirection::Up).unwrap();
    settings.move_pack("c", MoveDirection::Up).unwrap();
    assert_eq!(settings.content().resource_pack_order, vec!["c", "a", "b"]);
}

#[test]
fn graphics_section_round_trip() {
    let mut settings = ContentSettings::empty("data".into());
    settings.set_graphics(GraphicsSection {
        tier: GraphicsQualityTier::High,
        reflection_tier: GraphicsReflectionTier::Planar,
        shadow_cascades: 4,
        shadow_distance_bits: 128.0f32.to_bits(),
        ssao: false,
        bloom: true,
        taa: false,
        volumetric_light: true,
        fog: false,
        dof: true,
        sharpen: false,
    });
    let loaded = reload(&settings);
    let g = loaded.graphics();
    assert_eq!(g.tier, GraphicsQualityTier::High);
    assert_eq!(g.reflection_tier, GraphicsReflectionTier::Planar);
    assert_eq!(g.shadow_cascades, 4);
    assert!((f32::from_bits(g.shadow_distance_bits) - 128.0).abs() < f32::EPSILON);
    assert!(!g.ssao);
    assert!(g.bloom);
    assert!(!g.taa);
    assert!(g.volumetric_light);
    assert!(!g.fog);
    assert!(g.dof);
    assert!(!g.sharpen);
}

#[test]
fn username_round_trip() {
    let mut settings = ContentSettings::empty("data".into());
    settings.set_username("Steve".into(), Ok(())).unwrap();
    let loaded = reload(&settings);
    assert_eq!(loaded.username(), "Steve");
}

#[test]
fn username_validation_rejects_short_name() {
    let mut settings = ContentSettings::empty("data".into());
    let err = settings
        .set_username("ab".into(), Err("username must be at least 3 characters".into()))
        .unwrap_err();
    assert!(matches!(err, SettingsError::InvalidUsername(_)));
    assert_eq!(settings.username(), "Player");
}

#[test]
fn defaults_of_an_empty_settings_file() {
    let settings = ContentSettings::empty("data".into());
    assert_eq!(settings.username(), "Player");
    assert!(settings.content().resource_packs.is_empty());
    assert!(!settings.resource_pack_setup_dismissed());
    let g = settings.graphics();
    assert_eq!(g.tier, GraphicsQualityTier::Medium);
    assert_eq!(g.reflection_tier, GraphicsReflectionTier::Ssr);
    assert_eq!(g.shadow_cascades, 3);
    assert_eq!(f32::from_bits(g.shadow_distance_bits), 96.0);
}

#[test]
fn path_validation_messages() {
    let msg = |p: &str| match ContentSettings::validate_pack_path(p) {
        Err(SettingsError::InvalidPath(m)) => m,
        other => panic!("{p}: {other:?}"),
    };
    assert_eq!(msg(""), "empty path");
    assert_eq!(msg("a\\b"), "backslash not allowed");
    assert_eq!(msg("/etc"), "absolute path");
    assert_eq!(msg("./pack"), "./pack");
    assert_eq!(msg("a/../b"), "a/../b");
    assert_eq!(msg(".."), "..");
    assert_eq!(msg("packs/a"), "packs/a");
    assert_eq!(msg("a/./b"), "a/./b");
    assert_eq!(msg("a//b"), "a//b");
    assert!(ContentSettings::validate_pack_path("Pack A").is_ok());
    assert!(ContentSettings::validate_pack_path("a..b").is_ok());
    assert!(ContentSettings::validate_pack_path("dir/").is_ok());
    assert!(ContentSettings::validate_pack_path("dir/.").is_ok());
}

#[test]
fn unknown_pack_errors() {
    let mut settings = ContentSettings::empty("data".into());
    match settings.set_enabled("nope", false) {
        Err(SettingsError::UnknownPack(id)) => assert_eq!(id, "nope"),
        other => panic!("{other:?}"),
    }
    match settings.move_pack("nope", MoveDirection::Down) {
        Err(SettingsError::UnknownPack(id)) => assert_eq!(id, "nope"),
        other => panic!("{other:?}"),
    }
    assert!(settings.remove_pack("nope").is_none());
}

#[test]
fn move_up_then_down_restores_order() {
    let mut settings = ContentSettings::empty("data".into());
    for id in ["a", "b", "c"] {
        settings.upsert_pack(entry(id, id)).unwrap();
    }
    settings.move_pack("b", MoveDirection::Up).unwrap();
    assert_eq!(order(&settings), vec!["b", "a", "c"]);
    settings.move_pack("b", MoveDirection::Down).unwrap();
    assert_eq!(order(&settings), vec!["a", "b", "c"]);
    settings.move_pack("a", MoveDirection::Up).unwrap();
    settings.move_pack("c", MoveDirection::Down).unwrap();
    assert_eq!(order(&settings), vec!["a", "b", "c"]);
}

#[test]
fn loading_normalizes_the_order() {
    let mut file = ContentSettingsFile::default();
    file.content.resource_packs = vec![entry("a", "a"), entry("bad", "../x"), entry("b", "b")];
    file.content.resource_pack_order = vec!["b".into(), "gone".into(), "bad".into()];
    let loaded = ContentSettings::from_file("data".into(), file);
    let ids: Vec<&str> = loaded.content().resource_packs.iter().map(|e| e.id.as_str()).collect();
    assert_eq!(ids, vec!["a", "b"]);
    assert_eq!(order(&loaded), vec!["b", "a"]);
}

#[test]
fn upsert_replaces_and_remove_drops() {
    let mut settings = ContentSettings::empty("data".into());
    settings.upsert_pack(entry("a", "a")).unwrap();
    settings.upsert_pack(entry("b", "b")).unwrap();
    let mut replaced = entry("a", "A2");
    replaced.enabled = false;
    settings.upsert_pack(replaced).unwrap();
    assert_eq!(settings.content().resource_packs.len(), 2);
    assert_eq!(settings.pack_by_id("a").unwrap().path, "A2");
    assert_eq!(order(&settings), vec!["a", "b"]);
    let removed = settings.remove_pack("a").unwrap();
    assert_eq!(removed.path, "A2");
    assert_eq!(order(&settings), vec!["b"]);
    assert!(settings.pack_by_id("a").is_none());
}

#[test]
fn enabled_paths_follow_priority_and_presence() {
    let mut settings = ContentSettings::empty("data".into());
    for id in ["a", "b", "c"] {
        settings.upsert_pack(entry(id, &format!("dir_{id}"))).unwrap();
    }
    settings.move_pack("c", MoveDirection::Up).unwrap();
    settings.set_enabled("a", false).unwrap();
    let present = vec![true, true, true];
    assert_eq!(
        settings.enabled_pack_asset_paths("data", &present),
        vec!["data/resourcepacks/dir_c", "data/resourcepacks/dir_b"]
    );
    assert_eq!(settings.enabled_pack_indices(&present), vec![2, 1]);
    assert!(settings.has_enabled_pack(&present));
    assert!(!settings.has_enabled_pack(&vec![true, false, false]));
}

#[test]
fn reflection_tier_names() {
    assert_eq!(parse_reflection_tier("SkyOnly"), Some(GraphicsReflectionTier::SkyOnly));
    assert_eq!(parse_reflection_tier("Ssr"), Some(GraphicsReflectionTier::Ssr));
    assert_eq!(parse_reflection_tier("Planar"), Some(GraphicsReflectionTier::Planar));
    assert_eq!(parse_reflection_tier("VoxelRt"), Some(GraphicsReflectionTier::Planar));
    assert_eq!(parse_reflection_tier("Raytraced"), None);
}

#[test]
fn content_source_constructors() {
    assert!(!ContentSource::local().is_modrinth());
    let m = ContentSource::modrinth("proj".into(), "v1".into());
    assert!(m.is_modrinth());
}

#[test]
fn packs_can_be_changed_in_place() {
    let mut settings = ContentSettings::empty("data".into());
    settings.upsert_pack(entry("a", "a")).unwrap();
    settings.pack_by_id_mut("a").unwrap().enabled = false;
    assert!(!settings.pack_by_id("a").unwrap().enabled);
    assert!(settings.pack_by_id_mut("zz").is_none());
    settings.content_mut().resource_pack_setup_dismissed = true;
    assert!(settings.resource_pack_setup_dismissed());
}

#[test]
fn pack_directory_must_be_one_segment() {
    let mut settings = ContentSettings::empty("data".into());
    match settings.upsert_pack(entry("nested", "a/b")) {
        Err(SettingsError::InvalidPath(m)) => assert_eq!(m, "a/b"),
        other => panic!("{other:?}"),
    }
    assert!(settings.content().resource_packs.is_empty());
    assert!(settings.content().resource_pack_order.is_empty());
}

#[test]
fn upsert_appends_new_and_replaces_known() {
    let mut settings = ContentSettings::empty("data".into());
    settings.upsert_pack(entry("a", "a")).unwrap();
    settings.upsert_pack(entry("b", "b")).unwrap();
    assert_eq!(settings.content().resource_pack_order, vec!["a", "b"]);
    let mut replaced = entry("a", "a2");
    replaced.enabled = false;
    settings.upsert_pack(replaced).unwrap();
    assert_eq!(settings.content().resource_pack_order, vec!["a", "b"]);
    assert_eq!(settings.content().resource_packs.len(), 2);
    assert_eq!(settings.content().resource_packs[0].path, "a2");
    assert!(!settings.content().resource_packs[0].enabled);
    settings.upsert_pack(entry("c", "c")).unwrap();
    assert_eq!(settings.content().resource_pack_order, vec!["a", "b", "c"]);
    assert_eq!(settings.content().resource_packs[2].id, "c");
}
