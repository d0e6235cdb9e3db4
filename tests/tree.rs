use modcrab::adapter::{check_attr_change, load_cache, register_path};
use modcrab::codec::{decode, encode};
use modcrab::node::{FileKind, FsError};
use modcrab::path::fold;
use modcrab::transform::{record, replay, VirtualFileTransformation};
use modcrab::tree::{MappedEntry, VirtualFileTree};

fn b(s: &str) -> Vec<u8> {
    s.as_bytes().to_vec()
}

/// The overlay of the end-to-end scenario: `/base`, then `/mid`, then the
/// surface `/top` mapped last.
fn scenario_tree() -> VirtualFileTree {
    let mut t = VirtualFileTree::new(b("/top"));
    let base = vec![
        MappedEntry { path: b("/base/Abdgo"), kind: FileKind::RegularFile, parent: None },
        MappedEntry { path: b("/base/from_alpha"), kind: FileKind::RegularFile, parent: None },
    ];
    let mid = vec![
        MappedEntry { path: b("/mid/aBdgo"), kind: FileKind::RegularFile, parent: None },
        MappedEntry { path: b("/mid/from_beta"), kind: FileKind::RegularFile, parent: None },
    ];
    let top = vec![
        MappedEntry { path: b("/top/abdgO"), kind: FileKind::RegularFile, parent: None },
        MappedEntry { path: b("/top/from_over"), kind: FileKind::RegularFile, parent: None },
    ];
    t.map_directory(None, &base).unwrap();
    t.map_directory(None, &mid).unwrap();
    t.map_directory(None, &top).unwrap();
    t
}

#[test]
fn case_insensitive_merge() {
    let t = scenario_tree();
    assert_eq!(t.translate_path(&b("/ABDGO")), Some(&b("/top/abdgO")));
    assert_eq!(t.translate_path(&b("/From_Alpha")), Some(&b("/base/from_alpha")));
    assert_eq!(t.translate_path(&b("/from_beta")), Some(&b("/mid/from_beta")));
    assert_eq!(t.translate_path(&b("/from_over")), Some(&b("/top/from_over")));
}

#[test]
fn every_case_permutation_resolves_alike() {
    let t = scenario_tree();
    let n = t.find_index(&b("/abdgo"));
    assert!(n.is_some());
    for p in ["/ABDGO", "/AbDgO", "abdgo", "//aBdGo/", "/./abdgo"] {
        assert_eq!(t.find_index(&b(p)), n);
    }
}

#[test]
fn later_layer_shadows_earlier() {
    let t = scenario_tree();
    assert_eq!(t.translate_path(&b("/abdgo")), Some(&b("/top/abdgO")));
    let mut t2 = VirtualFileTree::new(b("/top"));
    t2.map_file(&b("/x"), b("/base/Abdgo"), FileKind::RegularFile).unwrap();
    assert_eq!(t2.translate_path(&b("/abdgo")), Some(&b("/base/Abdgo")));
    t2.map_file(&b("/x"), b("/mid/aBdgo"), FileKind::RegularFile).unwrap();
    assert_eq!(t2.translate_path(&b("/abdgo")), Some(&b("/mid/aBdgo")));
}

#[test]
fn listing_keeps_case_on_disk() {
    let mut t = scenario_tree();
    let h = t.open_dir(&b("/")).unwrap();
    let mut names: Vec<Vec<u8>> = t.view_dir(h).unwrap().into_iter().map(|e| e.name).collect();
    names.sort();
    assert_eq!(names, vec![b("abdgO"), b("from_alpha"), b("from_beta"), b("from_over")]);
}

#[test]
fn closed_handle_is_unknown() {
    let mut t = scenario_tree();
    let h = t.open_dir(&b("/")).unwrap();
    assert!(t.is_dir_open(h));
    assert!(t.view_dir(h).is_ok());
    t.close_dir(h);
    assert!(!t.is_dir_open(h));
    assert!(matches!(t.view_dir(h), Err(FsError::NotFound)));
    t.close_dir(h);
    assert!(matches!(t.open_dir(&b("/missing")), Err(FsError::NotFound)));
}

#[test]
fn listing_a_file_handle_fails() {
    let mut t = scenario_tree();
    let h = t.open_dir(&b("/from_over")).unwrap();
    assert!(matches!(t.view_dir(h), Err(FsError::NotFound)));
}

#[test]
fn root_cannot_be_removed_or_moved() {
    let mut t = scenario_tree();
    assert!(matches!(t.remove_file(&b("/")), Err(FsError::InvalidInput)));
    assert!(matches!(t.move_file(&b("/"), &b("/elsewhere")), Err(FsError::InvalidInput)));
    assert_eq!(t.translate_path(&b("/")), Some(&b("/top")));
    assert!(t.is_dir(&b("/")));
}

#[test]
fn remove_missing_is_not_found() {
    let mut t = scenario_tree();
    assert!(matches!(t.remove_file(&b("/nothing")), Err(FsError::NotFound)));
}

#[test]
fn removing_a_directory_drops_its_subtree() {
    let mut t = VirtualFileTree::new(b("/top"));
    let walk = vec![
        MappedEntry { path: b("/lower/Dir"), kind: FileKind::Directory, parent: None },
        MappedEntry { path: b("/lower/Dir/Inner"), kind: FileKind::Directory, parent: Some(0) },
        MappedEntry { path: b("/lower/Dir/Inner/file"), kind: FileKind::RegularFile, parent: Some(1) },
        MappedEntry { path: b("/lower/other"), kind: FileKind::RegularFile, parent: None },
    ];
    let ids = t.map_directory(None, &walk).unwrap();
    assert_eq!(ids.len(), 4);
    assert_eq!(t.translate_path(&b("/dir/inner/FILE")), Some(&b("/lower/Dir/Inner/file")));
    let removed = t.remove_file(&b("/DIR")).unwrap();
    assert_eq!(removed.path, b("/lower/Dir"));
    assert!(!t.contains(&b("/dir")));
    assert!(!t.contains(&b("/dir/inner")));
    assert!(!t.contains(&b("/dir/inner/file")));
    assert!(t.contains(&b("/other")));
}

#[test]
fn map_directory_refuses_bad_walks() {
    let mut t = VirtualFileTree::new(b("/top"));
    let forward = vec![MappedEntry { path: b("/a/x"), kind: FileKind::RegularFile, parent: Some(0) }];
    assert!(matches!(t.map_directory(None, &forward), Err(FsError::InvalidInput)));
    let under_file = vec![
        MappedEntry { path: b("/a/f"), kind: FileKind::RegularFile, parent: None },
        MappedEntry { path: b("/a/f/x"), kind: FileKind::RegularFile, parent: Some(0) },
    ];
    assert!(matches!(t.map_directory(None, &under_file), Err(FsError::InvalidInput)));
    assert!(!t.contains(&b("/f")));
    let ok = vec![MappedEntry { path: b("/a/f"), kind: FileKind::RegularFile, parent: None }];
    assert!(matches!(t.map_directory(Some(12345), &ok), Err(FsError::NotFound)));
}

#[test]
fn map_file_errors() {
    let mut t = VirtualFileTree::new(b("/top"));
    assert!(matches!(t.map_file(&b("/"), b("/r/x"), FileKind::RegularFile), Err(FsError::InvalidInput)));
    assert!(matches!(t.map_file(&b("/no/such/x"), b("/r/x"), FileKind::RegularFile), Err(FsError::NotFound)));
    assert!(matches!(t.map_file(&b("/x"), b("/"), FileKind::RegularFile), Err(FsError::InvalidInput)));
}

#[test]
fn attach_point_overlay() {
    let mut t = VirtualFileTree::new(b("/top"));
    let sub = t.add_node(&b("/mnt_sub")).unwrap();
    assert_eq!(t.translate_path(&b("/MNT_SUB")), Some(&b("<VIRTUAL>/mnt_sub")));
    let extra = vec![MappedEntry { path: b("/extra/anything"), kind: FileKind::RegularFile, parent: None }];
    t.map_directory(Some(sub), &extra).unwrap();
    assert_eq!(t.translate_path(&b("/mnt_sub/anything")), Some(&b("/extra/anything")));
    let top = vec![
        MappedEntry { path: b("/top/mnt_sub"), kind: FileKind::Directory, parent: None },
        MappedEntry { path: b("/top/mnt_sub/anything"), kind: FileKind::RegularFile, parent: Some(0) },
    ];
    t.map_directory(None, &top).unwrap();
    assert_eq!(t.translate_path(&b("/mnt_sub/anything")), Some(&b("/top/mnt_sub/anything")));
    assert!(matches!(t.add_node(&b("/")), Err(FsError::InvalidInput)));
    assert!(matches!(t.add_node(&b("/no/such")), Err(FsError::NotFound)));
}

#[test]
fn deletion_persists_across_rebuild() {
    let mut t = scenario_tree();
    let mut log = Vec::new();
    record(&mut t, &mut log, VirtualFileTransformation::Deletion { target: b("/from_alpha") }).unwrap();
    assert!(!t.contains(&b("/from_alpha")));
    let bytes = encode(&log);
    let mut fresh = scenario_tree();
    let cached = load_cache(Some(&bytes));
    let kept = replay(&mut fresh, &cached).unwrap();
    assert_eq!(kept.len(), 1);
    assert!(!fresh.contains(&b("/FROM_ALPHA")));
    assert!(fresh.contains(&b("/from_beta")));
}

#[test]
fn rename_persists_across_rebuild() {
    let mut t = scenario_tree();
    let mut log = Vec::new();
    let t1 = VirtualFileTransformation::Relocation { from: b("/from_beta"), to: b("/renamed_beta") };
    record(&mut t, &mut log, t1).unwrap();
    assert_eq!(t.translate_path(&b("/renamed_beta")), Some(&b("/mid/from_beta")));
    let bytes = encode(&log);
    let mut fresh = scenario_tree();
    let kept = replay(&mut fresh, &load_cache(Some(&bytes))).unwrap();
    assert_eq!(kept.len(), 1);
    assert_eq!(fresh.translate_path(&b("/Renamed_Beta")), Some(&b("/mid/from_beta")));
    assert!(!fresh.contains(&b("/from_beta")));
}

#[test]
fn failed_edit_is_not_logged() {
    let mut t = scenario_tree();
    let mut log = Vec::new();
    let r = record(&mut t, &mut log, VirtualFileTransformation::Deletion { target: b("/nope") });
    assert!(matches!(r, Err(FsError::NotFound)));
    assert!(log.is_empty());
}

#[test]
fn cache_self_heals() {
    let stale = vec![
        VirtualFileTransformation::Relocation { from: b("/x"), to: b("/y") },
        VirtualFileTransformation::Deletion { target: b("/from_over") },
        VirtualFileTransformation::Relocation { from: b("/from_beta"), to: b("/abdgo") },
    ];
    let bytes = encode(&stale);
    let mut t = scenario_tree();
    let kept = replay(&mut t, &load_cache(Some(&bytes))).unwrap();
    assert_eq!(kept.len(), 1);
    assert!(matches!(&kept[0], VirtualFileTransformation::Deletion { target } if *target == b("/from_over")));
    assert!(t.contains(&b("/from_beta")));
    assert!(!t.contains(&b("/from_over")));
}

#[test]
fn validity_is_judged_before_application() {
    let t = scenario_tree();
    assert!(VirtualFileTransformation::Deletion { target: b("/ABDGO") }.is_valid(&t));
    assert!(!VirtualFileTransformation::Deletion { target: b("/zzz") }.is_valid(&t));
    assert!(VirtualFileTransformation::Relocation { from: b("/abdgo"), to: b("/new") }.is_valid(&t));
    assert!(!VirtualFileTransformation::Relocation { from: b("/abdgo"), to: b("/from_beta") }.is_valid(&t));
}

#[test]
fn directory_attribute_change_is_refused() {
    let t = scenario_tree();
    assert!(matches!(check_attr_change(&t, &b("/")), Err(FsError::NotSupported)));
    assert!(check_attr_change(&t, &b("/from_alpha")).is_ok());
}

#[test]
fn registering_a_created_file() {
    let mut t = scenario_tree();
    register_path(&mut t, &b("/top"), b("/top/NewFile"), FileKind::RegularFile).unwrap();
    assert_eq!(t.translate_path(&b("/newfile")), Some(&b("/top/NewFile")));
    let r = register_path(&mut t, &b("/top"), b("/elsewhere/f"), FileKind::RegularFile);
    assert!(matches!(r, Err(FsError::InvalidInput)));
}

#[test]
fn folding_paths() {
    let f = fold(&b("/Mods/./SKSE//Plugins/"));
    assert_eq!(f, vec![b("mods"), b("skse"), b("plugins")]);
    assert_eq!(fold(&b("/")), Vec::<Vec<u8>>::new());
    assert_eq!(fold(&b("ÄB")), vec![vec![0xC3, 0x84, b'b']]);
    let again = fold(&f.join(&b'/'));
    assert_eq!(again, f);
}

#[test]
fn cache_round_trip() {
    let list = vec![
        VirtualFileTransformation::Deletion { target: b("/a/B") },
        VirtualFileTransformation::Relocation { from: b("/c"), to: vec![0xff, 0x00, b'/'] },
    ];
    let bytes = encode(&list);
    let back = decode(&bytes).unwrap();
    assert_eq!(back.len(), 2);
    assert!(matches!(&back[0], VirtualFileTransformation::Deletion { target } if *target == b("/a/B")));
    assert!(matches!(&back[1], VirtualFileTransformation::Relocation { from, to } if *from == b("/c") && *to == vec![0xff, 0x00, b'/']));
    assert_eq!(decode(&encode(&Vec::new())).unwrap().len(), 0);
}

#[test]
fn cache_layout() {
    let list = vec![VirtualFileTransformation::Deletion { target: b("/x") }];
    let bytes = encode(&list);
    let mut expected = vec![1, 0, 0, 0, 0, 0, 0, 0, 0, 0, 0, 0, 2, 0, 0, 0, 0, 0, 0, 0];
    expected.extend_from_slice(b"/x");
    assert_eq!(bytes, expected);
}

#[test]
fn unreadable_cache_is_empty() {
    assert!(load_cache(None).is_empty());
    assert!(load_cache(Some(&vec![])).is_empty());
    assert!(load_cache(Some(&vec![1, 2, 3])).is_empty());
    let mut bytes = encode(&vec![VirtualFileTransformation::Deletion { target: b("/x") }]);
    bytes.pop();
    assert!(load_cache(Some(&bytes)).is_empty());
    let mut bytes = encode(&vec![VirtualFileTransformation::Deletion { target: b("/x") }]);
    bytes.push(0);
    assert!(decode(&bytes).is_none());
    let mut bad_tag = encode(&vec![VirtualFileTransformation::Deletion { target: b("/x") }]);
    bad_tag[8] = 7;
    assert!(decode(&bad_tag).is_none());
}
