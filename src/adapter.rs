//! The decisions of the filesystem adapter, apart from the system calls
//! that carry them out: which paths lie under the shadowed mountpoint,
//! which virtual path a newly created real file gets, which attribute
//! changes are refused, where attributes come from, and what a cache file
//! holds.
use vstd::prelude::*;

use crate::codec::{decode, encoding};
use crate::node::{FileKind, FsError};
use crate::path::{components, components_of, same_bytes, views, SEPARATOR};
use crate::transform::{views_of, TransformView, VirtualFileTransformation};
use crate::tree::{map_file_outcome, VirtualFileTree};

verus! {

/// A path that starts with a separator.
pub open spec fn is_absolute(p: Seq<u8>) -> bool {
    p.len() > 0 && p[0] == SEPARATOR
}

/// `p` lies at or under `base`, component by component.
pub open spec fn path_under(p: Seq<u8>, base: Seq<u8>) -> bool {
    &&& is_absolute(p) == is_absolute(base)
    &&& components(base).len() <= components(p).len()
    &&& components(p).take(components(base).len() as int) == components(base)
}

/// The components joined by separators, without a leading one.
pub open spec fn join(cs: Seq<Seq<u8>>) -> Seq<u8>
    decreases cs.len(),
{
    if cs.len() == 0 {
        Seq::empty()
    } else if cs.len() == 1 {
        cs[0]
    } else {
        join(cs.drop_last()) + seq![SEPARATOR] + cs.last()
    }
}

/// `p` relative to `base`: its components after those of `base`.
pub open spec fn relative_to(p: Seq<u8>, base: Seq<u8>) -> Seq<u8> {
    join(components(p).skip(components(base).len() as int))
}

/// Whether `p` lies at or under `base`, component by component.
pub fn path_starts_with(p: &Vec<u8>, base: &Vec<u8>) -> (r: bool)
    ensures
        r == path_under(p@, base@),
{
    let pa = p.len() > 0 && p[0] == SEPARATOR;
    let ba = base.len() > 0 && base[0] == SEPARATOR;
    if pa != ba {
        return false;
    }
    let pc = components_of(p);
    let bc = components_of(base);
    if bc.len() > pc.len() {
        return false;
    }
    let mut i: usize = 0;
    while i < bc.len()
        invariant
            0 <= i <= bc.len() <= pc.len(),
            views(pc@) == components(p@),
            views(bc@) == components(base@),
            forall|j: int| 0 <= j < i ==> pc@[j]@ == bc@[j]@,
        decreases bc.len() - i,
    {
        if !same_bytes(&pc[i], &bc[i]) {
            assert(components(p@).take(bc@.len() as int)[i as int] != components(base@)[i as int]);
            return false;
        }
        i += 1;
    }
    assert(components(p@).take(bc@.len() as int) =~= components(base@));
    true
}

/// Whether a real path lies inside the shadowed mountpoint `shadowed`, so
/// that it must be reached through the mountpoint's held directory.
pub fn is_shadowing(shadowed: &Vec<u8>, real_file: &Vec<u8>) -> (r: bool)
    ensures
        r == path_under(real_file@, shadowed@),
{
    path_starts_with(real_file, shadowed)
}

/// `p` relative to `base`, for a path-relative system call on the held
/// directory of `base`; `InvalidInput` where `p` does not lie under `base`.
pub fn relate_path(base: &Vec<u8>, p: &Vec<u8>) -> (r: Result<Vec<u8>, FsError>)
    ensures
        !path_under(p@, base@) ==> r == Err::<Vec<u8>, FsError>(FsError::InvalidInput),
        path_under(p@, base@) ==> (r matches Ok(v) && v@ == relative_to(p@, base@)),
{
    if !path_starts_with(p, base) {
        return Err(FsError::InvalidInput);
    }
    let pc = components_of(p);
    let k = components_of(base).len();
    let ghost rest = components(p@).skip(k as int);
    let mut out: Vec<u8> = Vec::new();
    let mut i: usize = k;
    assert(views(pc@).skip(k as int).take(0) =~= Seq::<Seq<u8>>::empty());
    while i < pc.len()
        invariant
            k <= i <= pc.len(),
            views(pc@) == components(p@),
            rest == components(p@).skip(k as int),
            out@ == join(rest.take(i - k)),
        decreases pc.len() - i,
    {
        let ghost o0 = out@;
        if i > k {
            out.push(SEPARATOR);
        }
        let c = &pc[i];
        let mut j: usize = 0;
        let ghost mid = out@;
        while j < c.len()
            invariant
                0 <= j <= c.len(),
                out@ == mid + c@.take(j as int),
            decreases c.len() - j,
        {
            out.push(c[j]);
            j += 1;
            assert(out@ =~= mid + c@.take(j as int));
        }
        proof {
            assert(c@.take(c@.len() as int) =~= c@);
            assert(rest.take(i + 1 - k).drop_last() =~= rest.take(i - k));
            assert(rest.take(i + 1 - k).last() == c@);
            if i == k {
                assert(rest.take(1) =~= seq![c@]);
                assert(out@ =~= c@);
            } else {
                assert(out@ =~= o0 + seq![SEPARATOR] + c@);
            }
        }
        i += 1;
    }
    assert(rest.take(pc@.len() - k) =~= rest);
    Ok(out)
}

/// Makes a real file created under the surface directory reachable: its
/// virtual path is its path relative to `surface`, and it is mapped there
/// with `map_file`. `InvalidInput` where it does not lie under `surface`.
pub fn register_path(tree: &mut VirtualFileTree, surface: &Vec<u8>, real_file: Vec<u8>, kind: FileKind) -> (r: Result<(), FsError>)
    requires
        old(tree).wf(),
    ensures
        final(tree).wf(),
        !path_under(real_file@, surface@) ==> r == Err::<(), FsError>(FsError::InvalidInput) && *final(tree) == *old(tree),
        path_under(real_file@, surface@) ==> map_file_outcome(*old(tree), *final(tree), relative_to(real_file@, surface@), real_file@, kind, r),
{
    let virt = match relate_path(surface, &real_file) {
        Ok(v) => v,
        Err(e) => {
            return Err(e);
        },
    };
    tree.map_file(&virt, real_file, kind)
}

/// Refuses a change of mode, owner or times on a path that names a
/// directory of the tree: such a directory has no single inode.
pub fn check_attr_change(tree: &VirtualFileTree, path: &Vec<u8>) -> (r: Result<(), FsError>)
    requires
        tree.wf(),
    ensures
        r is Err <==> (tree.find(path@) is Some && tree.nodes()[tree.find(path@)->0].kind == FileKind::Directory),
        r matches Err(e) ==> e == FsError::NotSupported,
{
    if tree.is_dir(path) {
        Err(FsError::NotSupported)
    } else {
        Ok(())
    }
}

/// The attributes made up for a directory of the tree, apart from its
/// times and owner, which are the current ones.
pub struct DirAttr {
    pub size: u64,
    pub blocks: u64,
    pub nlink: u32,
    pub perm: u16,
    pub rdev: u32,
}

/// A directory of the tree is empty in size, has two links and mode
/// `0o755`.
pub fn fabricated_dir_attr() -> (r: DirAttr)
    ensures
        r.size == 0,
        r.blocks == 0,
        r.nlink == 2,
        r.perm == 0o755,
        r.rdev == 0,
{
    DirAttr { size: 0, blocks: 0, nlink: 2, perm: 0o755, rdev: 0 }
}

/// What a change of mode, owner, size or times applies to.
pub enum AttrTarget {
    /// The kernel file descriptor.
    Descriptor(u64),
    /// This real path, inside the shadowed mountpoint.
    Shadowed(Vec<u8>),
    /// This real path.
    Real(Vec<u8>),
}

/// Routes a change of mode, owner, size or times: a path that names a
/// directory of the tree is refused with `NotSupported` first; then a given
/// descriptor is used; else the real path the path resolves to, through the
/// shadowed mountpoint where it lies inside it; `NotFound` where the path
/// does not resolve.
pub fn attr_change_target(tree: &VirtualFileTree, shadowed: &Vec<u8>, path: &Vec<u8>, fh: Option<u64>) -> (r: Result<AttrTarget, FsError>)
    requires
        tree.wf(),
    ensures
        match tree.find(path@) {
            Some(n) if tree.nodes()[n].kind == FileKind::Directory => r == Err::<AttrTarget, FsError>(FsError::NotSupported),
            found => match fh {
                Some(h) => r matches Ok(AttrTarget::Descriptor(d)) && d == h,
                None => match found {
                    None => r == Err::<AttrTarget, FsError>(FsError::NotFound),
                    Some(n) => if path_under(tree.nodes()[n].path@, shadowed@) {
                        r matches Ok(AttrTarget::Shadowed(v)) && v@ == tree.nodes()[n].path@
                    } else {
                        r matches Ok(AttrTarget::Real(v)) && v@ == tree.nodes()[n].path@
                    },
                },
            },
        },
{
    if tree.is_dir(path) {
        return Err(FsError::NotSupported);
    }
    if let Some(h) = fh {
        return Ok(AttrTarget::Descriptor(h));
    }
    match tree.translate_path(path) {
        None => Err(FsError::NotFound),
        Some(real_path) => {
            let v = crate::transform::copy_bytes(real_path);
            if is_shadowing(shadowed, real_path) {
                Ok(AttrTarget::Shadowed(v))
            } else {
                Ok(AttrTarget::Real(v))
            }
        },
    }
}

/// Where the attributes of a path come from.
pub enum AttrSource {
    /// From the kernel file descriptor.
    Descriptor(u64),
    /// From a no-follow stat of this path relative to the shadowed
    /// mountpoint.
    Shadowed(Vec<u8>),
    /// Made up for a directory of the tree.
    Fabricated,
    /// From a no-follow stat of this real path.
    Real(Vec<u8>),
}

impl VirtualFileTree {
    /// Where the attributes of the node at `path` come from: made up for a
    /// directory, a no-follow stat of the real path for any other kind;
    /// `NotFound` where the path does not resolve.
    pub fn stat(&self, path: &Vec<u8>) -> (r: Result<AttrSource, FsError>)
        requires
            self.wf(),
        ensures
            match self.find(path@) {
                None => r == Err::<AttrSource, FsError>(FsError::NotFound),
                Some(n) => if self.nodes()[n].kind == FileKind::Directory {
                    r matches Ok(AttrSource::Fabricated)
                } else {
                    r matches Ok(AttrSource::Real(v)) && v@ == self.nodes()[n].path@
                },
            },
    {
        let is_dir = self.is_dir(path);
        match self.translate_path(path) {
            None => Err(FsError::NotFound),
            Some(real_path) => {
                if is_dir {
                    Ok(AttrSource::Fabricated)
                } else {
                    Ok(AttrSource::Real(crate::transform::copy_bytes(real_path)))
                }
            },
        }
    }

    /// Where the attributes behind a handle come from: made up for an open
    /// directory handle; any other handle is a kernel file descriptor.
    pub fn fstat(&self, handle: u64) -> (r: AttrSource)
        ensures
            self.handles().contains_key(handle) ==> r matches AttrSource::Fabricated,
            !self.handles().contains_key(handle) ==> (r matches AttrSource::Descriptor(d) && d == handle),
    {
        if self.is_dir_open(handle) {
            AttrSource::Fabricated
        } else {
            AttrSource::Descriptor(handle)
        }
    }
}

/// Where `getattr` takes the attributes of `path` from: a handle that is
/// not an open directory handle is a kernel file descriptor; else a path
/// that resolves to a real path inside the shadowed mountpoint is stat'ed
/// through it; else a directory of the tree gets made-up attributes and
/// any other node a stat of its real path. `NotFound` where the path does
/// not resolve.
pub fn getattr_source(tree: &VirtualFileTree, shadowed: &Vec<u8>, path: &Vec<u8>, fh: Option<u64>) -> (r: Result<AttrSource, FsError>)
    requires
        tree.wf(),
    ensures
        fh is Some && !tree.handles().contains_key(fh->0) ==> (r matches Ok(AttrSource::Descriptor(d)) && d == fh->0),
        !(fh is Some && !tree.handles().contains_key(fh->0)) ==> ({
            match tree.find(path@) {
                None => r == Err::<AttrSource, FsError>(FsError::NotFound),
                Some(n) => {
                    let real_path = tree.nodes()[n].path@;
                    if path_under(real_path, shadowed@) {
                        (r matches Ok(AttrSource::Shadowed(v)) && v@ == relative_to(real_path, shadowed@))
                    } else if tree.nodes()[n].kind == FileKind::Directory {
                        r matches Ok(AttrSource::Fabricated)
                    } else {
                        (r matches Ok(AttrSource::Real(v)) && v@ == real_path)
                    }
                },
            }
        }),
{
    if let Some(h) = fh {
        if !tree.is_dir_open(h) {
            return Ok(AttrSource::Descriptor(h));
        }
    }
    let is_dir = tree.is_dir(path);
    match tree.translate_path(path) {
        None => Err(FsError::NotFound),
        Some(real_path) => {
            if is_shadowing(shadowed, real_path) {
                match relate_path(shadowed, real_path) {
                    Ok(rel) => Ok(AttrSource::Shadowed(rel)),
                    Err(e) => Err(e),
                }
            } else if is_dir {
                Ok(AttrSource::Fabricated)
            } else {
                Ok(AttrSource::Real(crate::transform::copy_bytes(real_path)))
            }
        },
    }
}

/// The list that a cache file holds: an absent file, and one whose bytes
/// are not the encoding of any list, hold the empty list.
pub fn load_cache(bytes: Option<&Vec<u8>>) -> (r: Vec<VirtualFileTransformation>)
    ensures
        bytes is None ==> r@.len() == 0,
        forall|ts: Seq<TransformView>| #![trigger encoding(ts)] bytes is Some && encoding(ts) == bytes->0@ ==> views_of(r@) == ts,
        bytes is Some && (forall|ts: Seq<TransformView>| #![trigger encoding(ts)] encoding(ts) != bytes->0@) ==> r@.len() == 0,
{
    match bytes {
        None => Vec::new(),
        Some(b) => match decode(b) {
            Some(v) => v,
            None => Vec::new(),
        },
    }
}

/// Splits the overlay list into the layers below the surface, bottom
/// first, and the surface, which is the last entry; `InvalidInput` for an
/// empty list.
pub fn split_overlay(overlay: Vec<Vec<u8>>) -> (r: Result<(Vec<Vec<u8>>, Vec<u8>), FsError>)
    ensures
        overlay@.len() == 0 ==> r == Err::<(Vec<Vec<u8>>, Vec<u8>), FsError>(FsError::InvalidInput),
        overlay@.len() > 0 ==> (r matches Ok((layers, surface)) && layers@ == overlay@.drop_last() && surface == overlay@.last()),
{
    let mut layers = overlay;
    match layers.pop() {
        Some(surface) => Ok((layers, surface)),
        None => Err(FsError::InvalidInput),
    }
}

} // verus!
