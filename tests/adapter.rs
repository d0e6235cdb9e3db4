use modcrab::adapter::{attr_change_target, fabricated_dir_attr, AttrTarget, getattr_source, is_shadowing, path_starts_with, relate_path, split_overlay, AttrSource};
use modcrab::node::{FileKind, FsError};
use modcrab::tree::VirtualFileTree;

fn b(s: &str) -> Vec<u8> {
    s.as_bytes().to_vec()
}

#[test]
fn shadowed_paths() {
    assert!(is_shadowing(&b("/mnt"), &b("/mnt/from_under")));
    assert!(is_shadowing(&b("/mnt"), &b("/mnt")));
    assert!(!is_shadowing(&b("/mnt"), &b("/mntx/a")));
    assert!(!is_shadowing(&b("/mnt"), &b("mnt/a")));
    assert!(path_starts_with(&b("/a//b/c"), &b("/a/b")));
}

#[test]
fn relating_to_the_mountpoint() {
    assert_eq!(relate_path(&b("/mnt"), &b("/mnt/a/b")).unwrap(), b("a/b"));
    assert_eq!(relate_path(&b("/mnt"), &b("/mnt")).unwrap(), b(""));
    assert!(matches!(relate_path(&b("/mnt"), &b("/other/a")), Err(FsError::InvalidInput)));
}

#[test]
fn attribute_sources() {
    let mut t = VirtualFileTree::new(b("/top"));
    t.map_file(&b("/f"), b("/top/f"), FileKind::RegularFile).unwrap();
    t.map_file(&b("/u"), b("/mnt/u"), FileKind::RegularFile).unwrap();
    assert!(matches!(getattr_source(&t, &b("/mnt"), &b("/"), None), Ok(AttrSource::Fabricated)));
    assert!(matches!(getattr_source(&t, &b("/mnt"), &b("/F"), None), Ok(AttrSource::Real(p)) if p == b("/top/f")));
    assert!(matches!(getattr_source(&t, &b("/mnt"), &b("/u"), None), Ok(AttrSource::Shadowed(p)) if p == b("u")));
    assert!(matches!(getattr_source(&t, &b("/mnt"), &b("/none"), None), Err(FsError::NotFound)));
    assert!(matches!(getattr_source(&t, &b("/mnt"), &b("/none"), Some(5)), Ok(AttrSource::Descriptor(5))));
    let h = t.open_dir(&b("/")).unwrap();
    assert!(matches!(getattr_source(&t, &b("/mnt"), &b("/"), Some(h)), Ok(AttrSource::Fabricated)));
}

#[test]
fn overlay_split() {
    let (layers, surface) = split_overlay(vec![b("/base"), b("/mid"), b("/top")]).unwrap();
    assert_eq!(layers, vec![b("/base"), b("/mid")]);
    assert_eq!(surface, b("/top"));
    assert!(matches!(split_overlay(Vec::new()), Err(FsError::InvalidInput)));
}

#[test]
fn tree_stat_and_fstat() {
    let mut t = VirtualFileTree::new(b("/top"));
    t.map_file(&b("/f"), b("/top/f"), FileKind::RegularFile).unwrap();
    assert!(matches!(t.stat(&b("/")), Ok(AttrSource::Fabricated)));
    assert!(matches!(t.stat(&b("/F")), Ok(AttrSource::Real(p)) if p == b("/top/f")));
    assert!(matches!(t.stat(&b("/g")), Err(FsError::NotFound)));
    let h = t.open_dir(&b("/")).unwrap();
    assert!(matches!(t.fstat(h), AttrSource::Fabricated));
    let other = if h == 3 { 4 } else { 3 };
    assert!(matches!(t.fstat(other), AttrSource::Descriptor(d) if d == other));
}

#[test]
fn attribute_change_routing() {
    let mut t = VirtualFileTree::new(b("/top"));
    t.map_file(&b("/f"), b("/top/f"), FileKind::RegularFile).unwrap();
    t.map_file(&b("/u"), b("/mnt/u"), FileKind::RegularFile).unwrap();
    assert!(matches!(attr_change_target(&t, &b("/mnt"), &b("/"), Some(9)), Err(FsError::NotSupported)));
    assert!(matches!(attr_change_target(&t, &b("/mnt"), &b("/f"), Some(9)), Ok(AttrTarget::Descriptor(9))));
    assert!(matches!(attr_change_target(&t, &b("/mnt"), &b("/F"), None), Ok(AttrTarget::Real(p)) if p == b("/top/f")));
    assert!(matches!(attr_change_target(&t, &b("/mnt"), &b("/u"), None), Ok(AttrTarget::Shadowed(p)) if p == b("/mnt/u")));
    assert!(matches!(attr_change_target(&t, &b("/mnt"), &b("/x"), None), Err(FsError::NotFound)));
    let a = fabricated_dir_attr();
    assert_eq!((a.size, a.nlink, a.perm), (0, 2, 0o755));
}

#[test]
fn claiming_handles() {
    let mut t = VirtualFileTree::new(b("/top"));
    assert!(t.claim_handle(77, 0));
    assert!(t.is_dir_open(77));
    assert!(!t.claim_handle(77, 0));
    t.close_dir(77);
    assert!(t.claim_handle(77, 0));
}
