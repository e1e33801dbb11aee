use sha2::Digest;
use vstd::prelude::*;
use vstd::string::*;

use crate::error::HoardError;

verus! {

/// A lowercase hexadecimal digit.
pub open spec fn is_hex_lower(c: char) -> bool {
    ('0' <= c && c <= '9') || ('a' <= c && c <= 'f')
}

/// The textual form of a SHA-256 digest: 64 lowercase hexadecimal digits.
pub open spec fn is_hash_str(s: Seq<char>) -> bool {
    s.len() == 64 && forall|i: int| 0 <= i < 64 ==> #[trigger] is_hex_lower(s[i])
}

/// The lowercase hexadecimal digit of a value below 16.
pub open spec fn hex_digit(n: int) -> char {
    if n < 10 {
        (n + 48) as char
    } else {
        (n + 87) as char
    }
}

/// Two lowercase digits per byte, high half first.
pub open spec fn hex_encoding(b: Seq<u8>) -> Seq<char> {
    Seq::new(
        2 * b.len(),
        |i: int|
            if i % 2 == 0 {
                hex_digit(b[i / 2] as int / 16)
            } else {
                hex_digit(b[i / 2] as int % 16)
            },
    )
}

/// The SHA-256 digest of a byte sequence.
pub uninterp spec fn sha256_of(data: Seq<u8>) -> Seq<u8>;

/// Relies on sha2::Sha256::digest: the 32-byte digest, a function of the
/// input bytes alone.
#[verifier::external_body]
fn sha256(data: &[u8]) -> (r: Vec<u8>)
    ensures
        r@ == sha256_of(data@),
        r@.len() == 32,
{
    sha2::Sha256::digest(data).to_vec()
}

/// Relies on hex::encode: each byte becomes two lowercase digits, high half
/// first.
#[verifier::external_body]
fn hex_encode(data: &[u8]) -> (r: String)
    ensures
        r@ == hex_encoding(data@),
{
    hex::encode(data)
}

proof fn lemma_hex_encoding_is_hash(b: Seq<u8>)
    requires
        b.len() == 32,
    ensures
        is_hash_str(hex_encoding(b)),
{
    assert forall|i: int| 0 <= i < 64 implies #[trigger] is_hex_lower(hex_encoding(b)[i]) by {
        let v = b[i / 2] as int;
        assert(0 <= v / 16 < 16);
        assert(0 <= v % 16 < 16);
    }
}

/// The index of the last `/` strictly before `end`, or -1 when there is none.
pub open spec fn last_slash_before(p: Seq<char>, end: int) -> int
    decreases end,
{
    if end <= 0 {
        -1
    } else if p[end - 1] == '/' {
        end - 1
    } else {
        last_slash_before(p, end - 1)
    }
}

/// The last two `/`-separated segments of a path, concatenated; `None` when
/// the path has a single segment.
pub open spec fn last_two_segments(p: Seq<char>) -> Option<Seq<char>> {
    let j = last_slash_before(p, p.len() as int);
    if j < 0 {
        None
    } else {
        let i = last_slash_before(p, j);
        Some(p.subrange(i + 1, j) + p.subrange(j + 1, p.len() as int))
    }
}

/// The hash that a path names through the store's two-level layout, if any.
pub open spec fn hash_named_by(p: Seq<char>) -> Option<Seq<char>> {
    match last_two_segments(p) {
        Some(s) => if is_hash_str(s) {
            Some(s)
        } else {
            None
        },
        None => None,
    }
}

/// Location of a hash under the objects root: two digits, a slash, the rest.
pub open spec fn storage_path(h: Seq<char>) -> Seq<char> {
    h.subrange(0, 2) + seq!['/'] + h.subrange(2, h.len() as int)
}

fn is_valid_hash(s: &str) -> (r: bool)
    ensures
        r == is_hash_str(s@),
{
    let n = s.unicode_len();
    if n != 64 {
        return false;
    }
    let mut i: usize = 0;
    while i < 64
        invariant
            s@.len() == 64,
            i <= 64,
            forall|k: int| 0 <= k < i ==> #[trigger] is_hex_lower(s@[k]),
        decreases 64 - i,
    {
        let c = s.get_char(i);
        if !(('0' <= c && c <= '9') || ('a' <= c && c <= 'f')) {
            assert(!is_hex_lower(s@[i as int]));
            return false;
        }
        i = i + 1;
    }
    true
}

fn find_last_slash(p: &str, end: usize) -> (r: Option<usize>)
    requires
        end <= p@.len(),
    ensures
        match r {
            Some(k) => last_slash_before(p@, end as int) == k as int && k < end,
            None => last_slash_before(p@, end as int) == -1,
        },
{
    let mut k: usize = end;
    while k > 0
        invariant
            k <= end <= p@.len(),
            last_slash_before(p@, end as int) == last_slash_before(p@, k as int),
        decreases k,
    {
        if p.get_char(k - 1) == '/' {
            return Some(k - 1);
        }
        k = k - 1;
    }
    None
}

/// The concatenated last two segments of `path`, when it has two.
fn segments_of(path: &str) -> (r: Option<String>)
    ensures
        match r {
            Some(s) => last_two_segments(path@) == Some(s@),
            None => last_two_segments(path@) is None,
        },
{
    let n = path.unicode_len();
    match find_last_slash(path, n) {
        None => None,
        Some(j) => {
            let start = match find_last_slash(path, j) {
                Some(i) => i + 1,
                None => 0,
            };
            let prefix = path.substring_char(start, j);
            let object = path.substring_char(j + 1, n);
            Some(String::from_str(prefix).concat(object))
        },
    }
}

/// A validated SHA-256 digest in lowercase hexadecimal.
#[derive(Debug, PartialEq, Eq, Clone)]
pub struct FileHash(String);

impl View for FileHash {
    type V = Seq<char>;

    closed spec fn view(&self) -> Seq<char> {
        self.0@
    }
}

impl FileHash {
    pub open spec fn wf(&self) -> bool {
        is_hash_str(self@)
    }

    /// The hash of a file's content.
    pub fn of(content: &[u8]) -> (r: FileHash)
        ensures
            r@ == hex_encoding(sha256_of(content@)),
            r.wf(),
    {
        let digest = sha256(content);
        let text = hex_encode(digest.as_slice());
        proof {
            lemma_hex_encoding_is_hash(digest@);
        }
        FileHash(text)
    }

    /// Parses a hash from its textual form.
    pub fn from_str(hash_str: &String) -> (r: Result<FileHash, HoardError>)
        ensures
            match r {
                Ok(h) => is_hash_str(hash_str@) && h@ == hash_str@ && h.wf(),
                Err(e) => !is_hash_str(hash_str@) && e == HoardError::InvalidFormat,
            },
    {
        if is_valid_hash(hash_str.as_str()) {
            Ok(FileHash(hash_str.clone()))
        } else {
            Err(HoardError::InvalidFormat)
        }
    }

    /// The hash that `path` names through the store's two-level layout; `None`
    /// when its content has to be hashed instead.
    pub fn from_path(path: &str) -> (r: Option<FileHash>)
        ensures
            match r {
                Some(h) => hash_named_by(path@) == Some(h@) && h.wf(),
                None => hash_named_by(path@) is None,
            },
    {
        match segments_of(path) {
            None => None,
            Some(s) => match FileHash::from_str(&s) {
                Ok(h) => Some(h),
                Err(_) => None,
            },
        }
    }

    /// The hash that `path` names, or else the hash of `content`, which is
    /// the content of the file at `path`.
    pub fn from_path_or_content(path: &str, content: &[u8]) -> (r: FileHash)
        ensures
            r.wf(),
            r@ == match hash_named_by(path@) {
                Some(h) => h,
                None => hex_encoding(sha256_of(content@)),
            },
    {
        match FileHash::from_path(path) {
            Some(h) => h,
            None => FileHash::of(content),
        }
    }

    /// Where the object with this hash lives under the objects root.
    pub fn as_path(&self) -> (r: String)
        requires
            self.wf(),
        ensures
            r@ == storage_path(self@),
    {
        let s = self.0.as_str();
        let head = s.substring_char(0, 2);
        let tail = s.substring_char(2, 64);
        proof {
            reveal_strlit("/");
        }
        String::from_str(head).concat("/").concat(tail)
    }

    /// A copy of this hash.
    pub fn duplicate(&self) -> (r: FileHash)
        ensures
            r@ == self@,
    {
        FileHash(self.0.clone())
    }

    pub fn as_str(&self) -> (r: &str)
        ensures
            r@ == self@,
    {
        self.0.as_str()
    }
}

/// A stored object: its path in the store and the hash that the path names.
pub struct FileObject {
    path: String,
    hash: FileHash,
}

impl FileObject {
    pub closed spec fn wf(&self) -> bool {
        self.hash.wf()
    }

    pub closed spec fn spec_path(&self) -> Seq<char> {
        self.path@
    }

    pub closed spec fn spec_hash(&self) -> Seq<char> {
        self.hash@
    }

    /// The object stored at `path`, whose last two segments spell its hash.
    pub fn new(path: &str) -> (r: Result<FileObject, HoardError>)
        ensures
            match r {
                Ok(o) => hash_named_by(path@) == Some(o.spec_hash()) && o.spec_path() == path@
                    && o.wf(),
                Err(e) => hash_named_by(path@) is None && e == HoardError::InvalidFormat,
            },
    {
        match FileHash::from_path(path) {
            Some(hash) => Ok(FileObject { path: path.to_owned(), hash }),
            None => Err(HoardError::InvalidFormat),
        }
    }

    /// The object filed at `path` under `hash`.
    pub(crate) fn at(path: String, hash: FileHash) -> (r: FileObject)
        requires
            hash.wf(),
        ensures
            r.spec_path() == path@,
            r.spec_hash() == hash@,
            r.wf(),
    {
        FileObject { path, hash }
    }

    pub fn path(&self) -> (r: &String)
        ensures
            r@ == self.spec_path(),
    {
        &self.path
    }

    pub fn hash(&self) -> (r: &FileHash)
        ensures
            r@ == self.spec_hash(),
            self.wf() ==> r.wf(),
    {
        &self.hash
    }
}

/// Files with the same bytes get the same hash.
pub proof fn law_content_identity(a: Seq<u8>, b: Seq<u8>)
    requires
        a == b,
    ensures
        hex_encoding(sha256_of(a)) == hex_encoding(sha256_of(b)),
{
}

} // verus!
