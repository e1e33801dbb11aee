use multi_map::MultiMap;
use vstd::prelude::*;
use vstd::string::*;

use crate::error::HoardError;
use crate::hash::{hash_named_by, storage_path, FileHash, FileObject};

verus! {

#[verifier::external_type_specification]
#[verifier::external_body]
#[verifier::reject_recursive_types(K1)]
#[verifier::reject_recursive_types(K2)]
#[verifier::reject_recursive_types(V)]
pub struct ExMultiMap<K1: Eq + std::hash::Hash, K2: Eq + std::hash::Hash, V>(MultiMap<K1, K2, V>);

/// The objects of a store by inode: the hash key, the path and the hash of
/// each.
pub uninterp spec fn objects_by_ino(m: MultiMap<u64, String, FileObject>) -> Map<
    u64,
    (Seq<char>, Seq<char>, Seq<char>),
>;

/// The inode that each hash key of a store leads to.
pub uninterp spec fn inos_by_hash(m: MultiMap<u64, String, FileObject>) -> Map<Seq<char>, u64>;

/// Relies on multi_map::MultiMap::new: both key maps start empty.
#[verifier::external_body]
fn multimap_new() -> (r: MultiMap<u64, String, FileObject>)
    ensures
        objects_by_ino(r).dom() == Set::<u64>::empty(),
        inos_by_hash(r).dom() == Set::<Seq<char>>::empty(),
{
    MultiMap::new()
}

/// Relies on multi_map::MultiMap::insert: the second key is mapped to the
/// first, and the first key to the second key and the value.
#[verifier::external_body]
fn multimap_insert(m: &mut MultiMap<u64, String, FileObject>, ino: u64, hash: String, object: FileObject)
    ensures
        objects_by_ino(*final(m)) == objects_by_ino(*old(m)).insert(
            ino,
            (hash@, object.spec_path(), object.spec_hash()),
        ),
        inos_by_hash(*final(m)) == inos_by_hash(*old(m)).insert(hash@, ino),
{
    m.insert(ino, hash, object)
}

/// Relies on multi_map::MultiMap::get: the value stored under the first key.
#[verifier::external_body]
fn multimap_get<'a>(m: &'a MultiMap<u64, String, FileObject>, ino: &u64) -> (r: Option<&'a FileObject>)
    ensures
        match r {
            Some(o) => objects_by_ino(*m).contains_key(*ino) && objects_by_ino(*m)[*ino].1
                == o.spec_path() && objects_by_ino(*m)[*ino].2 == o.spec_hash(),
            None => !objects_by_ino(*m).contains_key(*ino),
        },
{
    m.get(ino)
}

/// Relies on multi_map::MultiMap::get_alt: the value under the first key that
/// the second key leads to.
#[verifier::external_body]
fn multimap_get_alt<'a>(m: &'a MultiMap<u64, String, FileObject>, hash: &String) -> (r: Option<
    &'a FileObject,
>)
    ensures
        match r {
            Some(o) => inos_by_hash(*m).contains_key(hash@) && objects_by_ino(*m).contains_key(
                inos_by_hash(*m)[hash@],
            ) && objects_by_ino(*m)[inos_by_hash(*m)[hash@]].1 == o.spec_path()
                && objects_by_ino(*m)[inos_by_hash(*m)[hash@]].2 == o.spec_hash(),
            None => !(inos_by_hash(*m).contains_key(hash@) && objects_by_ino(*m).contains_key(
                inos_by_hash(*m)[hash@],
            )),
        },
{
    m.get_alt(hash)
}

/// Content with hash `h` is stored, as far as the two key maps tell.
pub open spec fn stores_hash(
    by_ino: Map<u64, (Seq<char>, Seq<char>, Seq<char>)>,
    by_hash: Map<Seq<char>, u64>,
    h: Seq<char>,
) -> bool {
    by_hash.contains_key(h) && by_ino.contains_key(by_hash[h])
}

/// Every object is filed under its own hash, and that hash key leads to a
/// filed inode.
pub open spec fn store_wf(
    by_ino: Map<u64, (Seq<char>, Seq<char>, Seq<char>)>,
    by_hash: Map<Seq<char>, u64>,
) -> bool {
    forall|i: u64| #[trigger] by_ino.contains_key(i) ==> by_ino[i].0 == by_ino[i].2
        && stores_hash(by_ino, by_hash, by_ino[i].0)
}

/// What ingesting a file asks of its caller next.
#[derive(Debug)]
pub enum PutStep {
    /// The content is in the store under this hash; nothing to do.
    Done(FileHash),
    /// The file's inode is unknown: hash its content and ask again.
    NeedHash,
    /// New content: hard-link the file to `dst`, where the store now files it.
    Link { dst: String, hash: FileHash },
}

pub enum PutView {
    Done(Seq<char>),
    NeedHash,
    Link(Seq<char>, Seq<char>),
}

impl View for PutStep {
    type V = PutView;

    open spec fn view(&self) -> PutView {
        match self {
            PutStep::Done(h) => PutView::Done(h@),
            PutStep::NeedHash => PutView::NeedHash,
            PutStep::Link { dst, hash } => PutView::Link(dst@, hash@),
        }
    }
}

pub open spec fn hash_view(h: Option<FileHash>) -> Option<Seq<char>> {
    match h {
        Some(h) => Some(h@),
        None => None,
    }
}

/// Ingesting the file with inode `ino` into a store with the key maps
/// `by_ino` and `by_hash` under `dir`, given the content hash if known: what
/// the caller is asked next, and the key maps after.
pub open spec fn put_outcome(
    by_ino: Map<u64, (Seq<char>, Seq<char>, Seq<char>)>,
    by_hash: Map<Seq<char>, u64>,
    dir: Seq<char>,
    ino: u64,
    hash: Option<Seq<char>>,
) -> (PutView, Map<u64, (Seq<char>, Seq<char>, Seq<char>)>, Map<Seq<char>, u64>) {
    if by_ino.contains_key(ino) {
        (PutView::Done(by_ino[ino].2), by_ino, by_hash)
    } else {
        match hash {
            None => (PutView::NeedHash, by_ino, by_hash),
            Some(h) => if stores_hash(by_ino, by_hash, h) {
                (PutView::Done(h), by_ino, by_hash)
            } else {
                let dst = dir + seq!['/'] + storage_path(h);
                (PutView::Link(dst, h), by_ino.insert(ino, (h, dst, h)), by_hash.insert(h, ino))
            },
        }
    }
}

/// The directory of the content-addressed pool under a repository root.
pub open spec fn objects_dir(root: Seq<char>) -> Seq<char> {
    root + "/.hoard/objects"@
}

/// A content-addressed pool of files, indexed by inode and by hash.
pub struct ObjectStore {
    path: String,
    objects: MultiMap<u64, String, FileObject>,
}

impl ObjectStore {
    pub closed spec fn by_ino(&self) -> Map<u64, (Seq<char>, Seq<char>, Seq<char>)> {
        objects_by_ino(self.objects)
    }

    pub closed spec fn by_hash(&self) -> Map<Seq<char>, u64> {
        inos_by_hash(self.objects)
    }

    pub closed spec fn dir(&self) -> Seq<char> {
        self.path@
    }

    pub open spec fn wf(&self) -> bool {
        store_wf(self.by_ino(), self.by_hash())
    }

    /// An empty store for the repository at `root`.
    pub fn new(root: &str) -> (r: ObjectStore)
        ensures
            r.dir() == objects_dir(root@),
            r.by_ino().dom() == Set::<u64>::empty(),
            r.by_hash().dom() == Set::<Seq<char>>::empty(),
            r.wf(),
    {
        proof {
            reveal_strlit("/.hoard/objects");
        }
        let path = String::from_str(root).concat("/.hoard/objects");
        ObjectStore { path, objects: multimap_new() }
    }

    pub fn path(&self) -> (r: &str)
        ensures
            r@ == self.dir(),
    {
        self.path.as_str()
    }

    /// Files the stored file at `path`, whose inode is `ino`, under the hash
    /// that its last two segments spell.
    pub fn load(&mut self, path: &str, ino: u64) -> (r: Result<(), HoardError>)
        requires
            old(self).wf(),
        ensures
            final(self).wf(),
            final(self).dir() == old(self).dir(),
            match hash_named_by(path@) {
                Some(h) => r is Ok && final(self).by_ino() == old(self).by_ino().insert(
                    ino,
                    (h, path@, h),
                ) && final(self).by_hash() == old(self).by_hash().insert(h, ino),
                None => r == Err::<(), HoardError>(HoardError::InvalidFormat) && final(self).by_ino()
                    == old(self).by_ino() && final(self).by_hash() == old(self).by_hash(),
            },
    {
        let object = FileObject::new(path)?;
        let key = object.hash().as_str().to_owned();
        multimap_insert(&mut self.objects, ino, key, object);
        Ok(())
    }

    /// The object whose inode is `ino`.
    pub fn get_by_ino(&self, ino: &u64) -> (r: Option<&FileObject>)
        ensures
            match r {
                Some(o) => self.by_ino().contains_key(*ino) && self.by_ino()[*ino].1
                    == o.spec_path() && self.by_ino()[*ino].2 == o.spec_hash(),
                None => !self.by_ino().contains_key(*ino),
            },
    {
        multimap_get(&self.objects, ino)
    }

    /// The object whose content has hash `hash`.
    pub fn get_by_hash(&self, hash: &FileHash) -> (r: Option<&FileObject>)
        ensures
            r is Some == stores_hash(self.by_ino(), self.by_hash(), hash@),
            r matches Some(o) ==> self.by_ino()[self.by_hash()[hash@]].2 == o.spec_hash(),
    {
        let key = hash.as_str().to_owned();
        multimap_get_alt(&self.objects, &key)
    }

    /// Ingests the file with inode `ino`, whose content hash is `hash` once
    /// the caller has computed it. A tracked inode is answered without the
    /// hash; known content is not stored twice; new content is filed at its
    /// storage path, which the caller then links to the file.
    pub fn put(&mut self, ino: u64, hash: Option<FileHash>) -> (r: PutStep)
        requires
            old(self).wf(),
            hash matches Some(h) ==> h.wf(),
        ensures
            final(self).wf(),
            final(self).dir() == old(self).dir(),
            (r@, final(self).by_ino(), final(self).by_hash()) == put_outcome(
                old(self).by_ino(),
                old(self).by_hash(),
                old(self).dir(),
                ino,
                hash_view(hash),
            ),
    {
        match self.get_by_ino(&ino) {
            Some(object) => {
                return PutStep::Done(object.hash().duplicate());
            },
            None => {},
        }
        let hash = match hash {
            Some(h) => h,
            None => {
                return PutStep::NeedHash;
            },
        };
        if self.get_by_hash(&hash).is_some() {
            return PutStep::Done(hash);
        }
        let rel = hash.as_path();
        proof {
            reveal_strlit("/");
        }
        let dst = String::from_str(self.path.as_str()).concat("/").concat(rel.as_str());
        assert(dst@ =~= self.dir() + seq!['/'] + storage_path(hash@));
        let object = FileObject::at(dst.clone(), hash.duplicate());
        let key = hash.as_str().to_owned();
        multimap_insert(&mut self.objects, ino, key, object);
        PutStep::Link { dst, hash }
    }
}

/// What making `dst` a hard link of `src` takes.
#[derive(Debug, PartialEq, Eq, Structural)]
pub enum LinkAction {
    /// The destination is missing: create the link.
    Create,
    /// The destination already shares the source's inode: nothing to do.
    Keep,
    /// The destination holds other content: remove it, then create the link.
    Replace,
}

impl LinkAction {
    /// Whether the link is a fresh creation rather than a replacement or a
    /// no-op.
    pub fn created(&self) -> (r: bool)
        ensures
            r == (*self == LinkAction::Create),
    {
        match self {
            LinkAction::Create => true,
            _ => false,
        }
    }
}

pub open spec fn link_action(src_ino: u64, dst_ino: Option<u64>) -> LinkAction {
    match dst_ino {
        None => LinkAction::Create,
        Some(d) => if d == src_ino {
            LinkAction::Keep
        } else {
            LinkAction::Replace
        },
    }
}

/// The inode found at the destination after the action is carried out.
pub open spec fn dst_after(action: LinkAction, src_ino: u64, dst_ino: Option<u64>) -> Option<u64> {
    match action {
        LinkAction::Keep => dst_ino,
        _ => Some(src_ino),
    }
}

/// Decides how to link the file with inode `src_ino` to a destination whose
/// inode is `dst_ino` (`None` when the destination does not exist).
pub fn link(src_ino: u64, dst_ino: Option<u64>) -> (r: LinkAction)
    ensures
        r == link_action(src_ino, dst_ino),
        dst_after(r, src_ino, dst_ino) == Some(src_ino),
{
    match dst_ino {
        None => LinkAction::Create,
        Some(d) => if d == src_ino {
            LinkAction::Keep
        } else {
            LinkAction::Replace
        },
    }
}

/// Linking twice in a row: the second call finds the destination already
/// sharing the source's inode, changes nothing and reports no creation.
pub proof fn law_link_idempotent(src_ino: u64, dst_ino: Option<u64>)
    ensures
        ({
            let first = dst_after(link_action(src_ino, dst_ino), src_ino, dst_ino);
            &&& link_action(src_ino, first) == LinkAction::Keep
            &&& dst_after(link_action(src_ino, first), src_ino, first) == first
        }),
{
}

/// Ingesting the same file twice: the second call returns the hash that the
/// first settled on and leaves the store as the first left it.
pub proof fn law_ingest_idempotent(
    by_ino: Map<u64, (Seq<char>, Seq<char>, Seq<char>)>,
    by_hash: Map<Seq<char>, u64>,
    dir: Seq<char>,
    ino: u64,
    h: Seq<char>,
)
    requires
        store_wf(by_ino, by_hash),
    ensures
        ({
            let (first, bi, bh) = put_outcome(by_ino, by_hash, dir, ino, Some(h));
            let (second, bi2, bh2) = put_outcome(bi, bh, dir, ino, Some(h));
            &&& first matches PutView::Done(g1) ==> second == PutView::Done(g1)
            &&& first matches PutView::Link(_, g1) ==> second == PutView::Done(g1)
            &&& bi2 == bi
            &&& bh2 == bh
        }),
{
}

/// Ingesting two files of the same content `h`, into a store that files any
/// tracked inode under its content's hash: both are answered with `h`, only
/// the first call may file a new object, and the second adds nothing.
pub proof fn law_ingest_dedup(
    by_ino: Map<u64, (Seq<char>, Seq<char>, Seq<char>)>,
    by_hash: Map<Seq<char>, u64>,
    dir: Seq<char>,
    ino1: u64,
    ino2: u64,
    h: Seq<char>,
)
    requires
        store_wf(by_ino, by_hash),
        by_ino.contains_key(ino1) ==> by_ino[ino1].2 == h,
        by_ino.contains_key(ino2) ==> by_ino[ino2].2 == h,
        ino1 != ino2,
    ensures
        ({
            let (first, bi, bh) = put_outcome(by_ino, by_hash, dir, ino1, Some(h));
            let (second, bi2, bh2) = put_outcome(bi, bh, dir, ino2, Some(h));
            &&& first matches PutView::Done(g) ==> g == h
            &&& first matches PutView::Link(dst, g) ==> g == h && bi == by_ino.insert(ino1, (h, dst, h))
                && bh == by_hash.insert(h, ino1)
            &&& (first is Link <==> !by_ino.contains_key(ino1) && !stores_hash(by_ino, by_hash, h))
            &&& !(first is Link) ==> bi == by_ino && bh == by_hash
            &&& second == PutView::Done(h)
            &&& bi2 == bi
            &&& bh2 == bh
            &&& stores_hash(bi2, bh2, h)
        }),
{
    let (first, bi, bh) = put_outcome(by_ino, by_hash, dir, ino1, Some(h));
    if by_ino.contains_key(ino1) {
        assert(by_ino[ino1].0 == h);
        assert(stores_hash(by_ino, by_hash, h));
    } else if !stores_hash(by_ino, by_hash, h) {
        assert(bh[h] == ino1);
        assert(bi.contains_key(ino1));
    }
    if bi.contains_key(ino2) {
        assert(by_ino.contains_key(ino2));
        assert(bi[ino2] == by_ino[ino2]);
    }
}

} // verus!
