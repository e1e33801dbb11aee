use vstd::prelude::*;

use crate::hash::FileHash;
use crate::order::str_eq;

verus! {

/// What an entry of the name index stands for.
pub struct ObjectView {
    pub path: Seq<char>,
    pub hash: Seq<char>,
    pub name: Seq<char>,
    pub ino: u64,
}

/// An entry of the name index: a named reference to stored content.
#[derive(Debug)]
pub struct Object {
    path: String,
    hash: FileHash,
    name: String,
    ino: u64,
}

impl View for Object {
    type V = ObjectView;

    closed spec fn view(&self) -> ObjectView {
        ObjectView { path: self.path@, hash: self.hash@, name: self.name@, ino: self.ino }
    }
}

impl Object {
    pub fn new(path: String, hash: FileHash, name: String, ino: u64) -> (r: Object)
        ensures
            r@ == (ObjectView { path: path@, hash: hash@, name: name@, ino }),
    {
        Object { path, hash, name, ino }
    }

    /// A copy of this entry.
    pub fn duplicate(&self) -> (r: Object)
        ensures
            r@ == self@,
    {
        Object {
            path: self.path.clone(),
            hash: self.hash.duplicate(),
            name: self.name.clone(),
            ino: self.ino,
        }
    }

    pub fn ino(&self) -> (r: &u64)
        ensures
            *r == self@.ino,
    {
        &self.ino
    }

    pub fn name(&self) -> (r: &str)
        ensures
            r@ == self@.name,
    {
        self.name.as_str()
    }

    pub fn path(&self) -> (r: &str)
        ensures
            r@ == self@.path,
    {
        self.path.as_str()
    }

    pub fn hash(&self) -> (r: &FileHash)
        ensures
            r@ == self@.hash,
    {
        &self.hash
    }
}

/// The last entry with the given inode: later entries win.
pub open spec fn last_with_ino(objs: Seq<ObjectView>, ino: u64) -> Option<ObjectView>
    decreases objs.len(),
{
    if objs.len() == 0 {
        None
    } else if objs.last().ino == ino {
        Some(objs.last())
    } else {
        last_with_ino(objs.drop_last(), ino)
    }
}

/// The last entry with the given name: later entries win.
pub open spec fn last_with_name(objs: Seq<ObjectView>, name: Seq<char>) -> Option<ObjectView>
    decreases objs.len(),
{
    if objs.len() == 0 {
        None
    } else if objs.last().name == name {
        Some(objs.last())
    } else {
        last_with_name(objs.drop_last(), name)
    }
}

/// The last entry with the given hash: later entries win.
pub open spec fn last_with_hash(objs: Seq<ObjectView>, hash: Seq<char>) -> Option<ObjectView>
    decreases objs.len(),
{
    if objs.len() == 0 {
        None
    } else if objs.last().hash == hash {
        Some(objs.last())
    } else {
        last_with_hash(objs.drop_last(), hash)
    }
}

pub proof fn lemma_last_with_name_matches(objs: Seq<ObjectView>, name: Seq<char>)
    ensures
        last_with_name(objs, name) matches Some(o) ==> o.name == name,
    decreases objs.len(),
{
    if objs.len() > 0 {
        lemma_last_with_name_matches(objs.drop_last(), name);
    }
}

/// The objects of a hoard, looked up by inode, by name or by hash.
pub struct Index {
    objects: Vec<Object>,
}

impl Index {
    pub closed spec fn objs(&self) -> Seq<ObjectView> {
        self.objects@.map_values(|o: Object| o@)
    }

    pub fn new(objects: Vec<Object>) -> (r: Index)
        ensures
            r.objs() == objects@.map_values(|o: Object| o@),
    {
        Index { objects }
    }

    pub fn objects(&self) -> (r: &Vec<Object>)
        ensures
            r@.map_values(|o: Object| o@) == self.objs(),
    {
        &self.objects
    }

    /// The entry whose reference has inode `ino`.
    pub fn by_ino(&self, ino: u64) -> (r: Option<&Object>)
        ensures
            match r {
                Some(o) => last_with_ino(self.objs(), ino) == Some(o@),
                None => last_with_ino(self.objs(), ino) is None,
            },
    {
        let ghost objs = self.objs();
        let mut k: usize = self.objects.len();
        assert(objs.subrange(0, k as int) =~= objs);
        while k > 0
            invariant
                k <= self.objects.len(),
                objs == self.objs(),
                last_with_ino(objs, ino) == last_with_ino(objs.subrange(0, k as int), ino),
            decreases k,
        {
            assert(objs.subrange(0, k as int).drop_last() =~= objs.subrange(0, k - 1));
            if self.objects[k - 1].ino == ino {
                return Some(&self.objects[k - 1]);
            }
            k = k - 1;
        }
        None
    }

    /// The entry with the name `name`.
    pub fn by_name(&self, name: &str) -> (r: Option<&Object>)
        ensures
            match r {
                Some(o) => last_with_name(self.objs(), name@) == Some(o@),
                None => last_with_name(self.objs(), name@) is None,
            },
    {
        let ghost objs = self.objs();
        let mut k: usize = self.objects.len();
        assert(objs.subrange(0, k as int) =~= objs);
        while k > 0
            invariant
                k <= self.objects.len(),
                objs == self.objs(),
                last_with_name(objs, name@) == last_with_name(objs.subrange(0, k as int), name@),
            decreases k,
        {
            assert(objs.subrange(0, k as int).drop_last() =~= objs.subrange(0, k - 1));
            if str_eq(self.objects[k - 1].name.as_str(), name) {
                return Some(&self.objects[k - 1]);
            }
            k = k - 1;
        }
        None
    }

    /// The entry whose content has the hash `hash`.
    pub fn by_hash(&self, hash: &FileHash) -> (r: Option<&Object>)
        ensures
            match r {
                Some(o) => last_with_hash(self.objs(), hash@) == Some(o@),
                None => last_with_hash(self.objs(), hash@) is None,
            },
    {
        let ghost objs = self.objs();
        let mut k: usize = self.objects.len();
        assert(objs.subrange(0, k as int) =~= objs);
        while k > 0
            invariant
                k <= self.objects.len(),
                objs == self.objs(),
                last_with_hash(objs, hash@) == last_with_hash(objs.subrange(0, k as int), hash@),
            decreases k,
        {
            assert(objs.subrange(0, k as int).drop_last() =~= objs.subrange(0, k - 1));
            if str_eq(self.objects[k - 1].hash.as_str(), hash.as_str()) {
                return Some(&self.objects[k - 1]);
            }
            k = k - 1;
        }
        None
    }
}

} // verus!
