use vstd::prelude::*;
use vstd::string::*;

use crate::error::HoardError;
use crate::order::str_eq;
use crate::state::{files_view, strings_view};

verus! {

/// `p` is `root` itself or lies below it.
pub open spec fn is_under(root: Seq<char>, p: Seq<char>) -> bool {
    p == root || (p.len() > root.len() && p.subrange(0, root.len() as int) == root
        && p[root.len() as int] == '/')
}

/// The file `k` of a walk is a redundant copy: it is not one of the paths to
/// keep, and another walked path of the same inode is kept or comes first.
pub open spec fn redundant(files: Seq<(Seq<char>, u64)>, keep: Seq<Seq<char>>, k: int) -> bool {
    &&& !keep.contains(files[k].0)
    &&& exists|j: int|
        0 <= j < files.len() && j != k && #[trigger] files[j].1 == files[k].1 && files[j].0
            != files[k].0 && (keep.contains(files[j].0) || j < k)
}

/// A hoard repository, by its root directory.
pub struct Repository {
    root: String,
}

impl Repository {
    pub closed spec fn spec_root(&self) -> Seq<char> {
        self.root@
    }

    /// The directories that make `path` a repository: the store's by-hash
    /// and by-name trees under the `.hoard` marker.
    pub fn init(path: &str) -> (r: Vec<String>)
        ensures
            r@.len() == 2,
            r@[0]@ == path@ + "/.hoard/objects/by-hash"@,
            r@[1]@ == path@ + "/.hoard/objects/by-name"@,
    {
        let by_hash = String::from_str(path).concat("/.hoard/objects/by-hash");
        let by_name = String::from_str(path).concat("/.hoard/objects/by-name");
        let mut dirs: Vec<String> = Vec::new();
        dirs.push(by_hash);
        dirs.push(by_name);
        dirs
    }

    /// Opens the repository whose root is `root`.
    pub fn load(root: &str) -> (r: Repository)
        ensures
            r.spec_root() == root@,
    {
        Repository { root: root.to_owned() }
    }

    pub fn root(&self) -> (r: &str)
        ensures
            r@ == self.spec_root(),
    {
        self.root.as_str()
    }

    /// Whether `path` lies in the repository.
    pub fn contains(&self, path: &str) -> (r: bool)
        ensures
            r == is_under(self.spec_root(), path@),
    {
        let root = self.root.as_str();
        let n = root.unicode_len();
        let m = path.unicode_len();
        if str_eq(root, path) {
            return true;
        }
        if m <= n {
            return false;
        }
        let head = path.substring_char(0, n);
        str_eq(head, root) && path.get_char(n) == '/'
    }

    /// Accepts `path` for ingestion only if it lies in the repository.
    pub fn check_inside(&self, path: &str) -> (r: Result<(), HoardError>)
        ensures
            r is Ok <==> is_under(self.spec_root(), path@),
            r matches Err(e) ==> e == HoardError::PathOutsideRepository,
    {
        if self.contains(path) {
            Ok(())
        } else {
            Err(HoardError::PathOutsideRepository)
        }
    }

    /// The positions, in walk order, of the redundant copies among `files`
    /// (each walked path with its inode), given the paths to keep.
    pub fn plan_apply(files: &Vec<(String, u64)>, keep: &Vec<String>) -> (r: Vec<usize>)
        ensures
            forall|i: int, j: int| 0 <= i < j < r@.len() ==> r@[i] < r@[j],
            forall|i: int| 0 <= i < r@.len() ==> r@[i] < files@.len(),
            forall|k: int|
                0 <= k < files@.len() ==> (r@.contains(k as usize) <==> #[trigger] redundant(files_view(*files), strings_view(*keep), k)),
    {
        let ghost fv = files_view(*files);
        let ghost kv = strings_view(*keep);
        let mut r: Vec<usize> = Vec::new();
        let mut k: usize = 0;
        while k < files.len()
            invariant
                k <= files.len(),
                fv == files_view(*files),
                kv == strings_view(*keep),
                forall|i: int, j: int| 0 <= i < j < r@.len() ==> r@[i] < r@[j],
                forall|i: int| 0 <= i < r@.len() ==> r@[i] < k,
                forall|q: int| 0 <= q < k ==> (r@.contains(q as usize) <==> #[trigger] redundant(fv, kv, q)),
            decreases files.len() - k,
        {
            let kept = is_listed(keep, files[k].0.as_str());
            let mut found = false;
            if !kept {
                let mut j: usize = 0;
                while j < files.len()
                    invariant
                        k < files.len(),
                        j <= files.len(),
                        fv == files_view(*files),
                        kv == strings_view(*keep),
                        found ==> exists|x: int|
                            0 <= x < fv.len() && x != k && #[trigger] fv[x].1 == fv[k as int].1
                                && fv[x].0 != fv[k as int].0 && (kv.contains(fv[x].0) || x < k),
                        !found ==> forall|x: int|
                            0 <= x < j && x != k && #[trigger] fv[x].1 == fv[k as int].1 ==> !(
                            fv[x].0 != fv[k as int].0 && (kv.contains(fv[x].0) || x < k)),
                    decreases files.len() - j,
                {
                    if !found && j != k && files[j].1 == files[k].1 && !str_eq(
                        files[j].0.as_str(),
                        files[k].0.as_str(),
                    ) && (j < k || is_listed(keep, files[j].0.as_str())) {
                        found = true;
                        assert(fv[j as int].1 == fv[k as int].1);
                    }
                    j = j + 1;
                }
            }
            let ghost r0 = r@;
            if found {
                r.push(k);
            }
            assert forall|q: int| 0 <= q < k + 1 implies (r@.contains(q as usize) <==> #[trigger] redundant(fv, kv, q)) by {
                if q < k {
                    if r0.contains(q as usize) {
                        let m = choose|m: int| 0 <= m < r0.len() && r0[m] == q as usize;
                        assert(r@[m] == q as usize);
                    }
                    if r@.contains(q as usize) {
                        let m = choose|m: int| 0 <= m < r@.len() && r@[m] == q as usize;
                        if m < r0.len() {
                            assert(r0[m] == q as usize);
                        }
                    }
                } else {
                    if found {
                        assert(r@[r0.len() as int] == k);
                    } else {
                        if r@.contains(k) {
                            let m = choose|m: int| 0 <= m < r@.len() && r@[m] == k;
                            assert(r0[m] < k);
                        }
                    }
                }
            }
            k = k + 1;
        }
        r
    }
}

fn is_listed(keep: &Vec<String>, p: &str) -> (r: bool)
    ensures
        r == strings_view(*keep).contains(p@),
{
    let ghost kv = strings_view(*keep);
    let mut i: usize = 0;
    while i < keep.len()
        invariant
            i <= keep.len(),
            kv == strings_view(*keep),
            forall|k: int| 0 <= k < i ==> kv[k] != p@,
        decreases keep.len() - i,
    {
        if str_eq(keep[i].as_str(), p) {
            assert(kv[i as int] == p@);
            return true;
        }
        i = i + 1;
    }
    false
}

} // verus!
