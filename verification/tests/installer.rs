use std::io::Write;

use stagcrest::installer::{
    find_top_level_prefix, plan_zip_extraction, safe_relative_path, strip_top_level,
    to_forward_slashes, zip_extraction_plan, ContentError, InstalledPack, ZipEntryKind,
};

fn names(ns: &[&str]) -> Vec<String> {
    ns.iter().map(|s| s.to_string()).collect()
}

fn plan(ns: &[&str]) -> Vec<(ZipEntryKind, String)> {
    plan_zip_extraction(&names(ns))
        .unwrap()
        .into_iter()
        .map(|a| (a.kind, a.path))
        .collect()
}

fn zip_bytes(entries: &[(&str, Option<&[u8]>)]) -> Vec<u8> {
    let mut w = zip::ZipWriter::new(std::io::Cursor::new(Vec::new()));
    let opts = zip::write::SimpleFileOptions::default();
    for (name, data) in entries {
        match data {
            Some(bytes) => {
                w.start_file(*name, opts).unwrap();
                w.write_all(bytes).unwrap();
            }
            None => w.add_directory(*name, opts).unwrap(),
        }
    }
    w.finish().unwrap().into_inner()
}

#[test]
fn safe_relative_path_accepts_plain_names() {
    assert_eq!(safe_relative_path("textures/block/stone.png").unwrap(), "textures/block/stone.png");
    for bad in ["", "a\\b", "/abs", "../up", "a/../b", "./here"] {
        match safe_relative_path(bad) {
            Err(ContentError::InvalidPack(m)) => assert_eq!(m, format!("unsafe zip path: {bad}")),
            other => panic!("{bad}: {other:?}"),
        }
    }
}

#[test]
fn backslashes_become_slashes() {
    assert_eq!(to_forward_slashes("a\\b\\c.png"), "a/b/c.png");
    assert_eq!(to_forward_slashes("plain"), "plain");
}

#[test]
fn single_top_folder_is_detected() {
    assert_eq!(find_top_level_prefix(&names(&["pack/a", "pack/b/c"])), Some("pack".into()));
    assert_eq!(find_top_level_prefix(&names(&["pack/a", "pack/b/c", "root.txt"])), None);
    assert_eq!(find_top_level_prefix(&names(&["root.txt", "pack/a"])), None);
    assert_eq!(find_top_level_prefix(&names(&["a/x", "b/y"])), None);
    assert_eq!(find_top_level_prefix(&names(&["x", "y"])), None);
    assert_eq!(find_top_level_prefix(&names(&["/abs/x"])), None);
}

#[test]
fn top_folder_is_stripped() {
    assert_eq!(strip_top_level("pack/a.txt", &Some("pack".into())), "a.txt");
    assert_eq!(strip_top_level("pack", &Some("pack".into())), "pack");
    assert_eq!(strip_top_level("packs/a", &Some("pack".into())), "packs/a");
    assert_eq!(strip_top_level("pack/a", &None), "pack/a");
}

#[test]
fn extraction_plan_of_a_wrapped_pack() {
    assert_eq!(
        plan(&["pack/", "pack/pack.mcmeta", "pack/textures/", "pack\\textures\\a.png"]),
        vec![
            (ZipEntryKind::Skip, "".to_string()),
            (ZipEntryKind::File, "pack.mcmeta".to_string()),
            (ZipEntryKind::Directory, "textures/".to_string()),
            (ZipEntryKind::File, "textures/a.png".to_string()),
        ]
    );
}

#[test]
fn extraction_plan_refuses_escaping_entries() {
    match plan_zip_extraction(&names(&["pack/ok.txt", "pack/../evil.txt"])) {
        Err(ContentError::InvalidPack(m)) => assert_eq!(m, "unsafe zip path: ../evil.txt"),
        other => panic!("{other:?}"),
    }
}

#[test]
fn extraction_plan_of_zip_bytes() {
    let bytes = zip_bytes(&[
        ("pack/pack.mcmeta", Some(b"{}")),
        ("pack/textures/", None),
        ("pack/textures/a.png", Some(b"png")),
    ]);
    let actions: Vec<(ZipEntryKind, String)> = zip_extraction_plan(&bytes)
        .unwrap()
        .into_iter()
        .map(|a| (a.kind, a.path))
        .collect();
    assert_eq!(
        actions,
        vec![
            (ZipEntryKind::File, "pack.mcmeta".to_string()),
            (ZipEntryKind::Directory, "textures/".to_string()),
            (ZipEntryKind::File, "textures/a.png".to_string()),
        ]
    );
}

#[test]
fn unreadable_archive_is_a_zip_error() {
    assert!(matches!(zip_extraction_plan(b"not a zip"), Err(ContentError::Zip(_))));
}

#[test]
fn installed_pack_record() {
    let p = InstalledPack {
        id: "faithful".into(),
        path: "faithful".into(),
        project_title: "Faithful".into(),
        version_id: "v1".into(),
    };
    assert_eq!(p.clone().project_title, "Faithful");
}

#[test]
fn root_level_entry_keeps_every_folder() {
    assert_eq!(
        plan(&["pack.mcmeta", "assets/minecraft/textures/block/stone.png"]),
        vec![
            (ZipEntryKind::File, "pack.mcmeta".to_string()),
            (ZipEntryKind::File, "assets/minecraft/textures/block/stone.png".to_string()),
        ]
    );
    let bytes = zip_bytes(&[
        ("pack.mcmeta", Some(b"{}")),
        ("assets/minecraft/textures/block/stone.png", Some(b"png")),
    ]);
    let planned: Vec<(ZipEntryKind, String)> =
        zip_extraction_plan(&bytes).unwrap().into_iter().map(|a| (a.kind, a.path)).collect();
    assert_eq!(planned[1], (ZipEntryKind::File, "assets/minecraft/textures/block/stone.png".to_string()));
    assert_eq!(
        plan(&["MyPack/pack.mcmeta", "MyPack/assets/x.png"]),
        vec![
            (ZipEntryKind::File, "pack.mcmeta".to_string()),
            (ZipEntryKind::File, "assets/x.png".to_string()),
        ]
    );
}
