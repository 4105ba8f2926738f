//! The index of patch files: one entry per version directory under the patch
//! root, each with the files found beneath it.
use vstd::prelude::*;
use crate::path::{bytes_equal, components, path_components, views};
use vstd::utf8::encode_utf8;

verus! {

/// One directory directly under the patch root, as read from disk.
pub struct VersionListing {
    /// The directory's name, which must be a version number.
    pub name: String,
    /// The directory's path.
    pub dir: String,
    /// The path of every regular file beneath the directory.
    pub files: Vec<String>,
}

/// The files of one version.
pub struct Patch {
    pub version: usize,
    /// Path of the version directory.
    pub dir: String,
    /// Paths of the files beneath `dir`.
    pub files: Vec<String>,
}

/// A snapshot of the patch root.
pub struct PatchProvider {
    location: String,
    patches: Vec<Patch>,
}

/// Why the index could not be set up or rebuilt.
#[derive(Debug, Clone, Copy, PartialEq, Eq, Structural)]
pub enum PatchError {
    /// The patch root is not a directory.
    NotADirectory,
    /// A directory under the patch root is not named by a version number.
    MalformedVersionName,
}

/// The bytes of a path.
pub open spec fn path_bytes(s: Seq<char>) -> Seq<u8> {
    encode_utf8(s)
}

/// The file `file` beneath `dir` has the relative path `req`: its path's
/// components are those of `dir` followed by those of `req`.
pub open spec fn file_matches(file: Seq<char>, dir: Seq<char>, req: Seq<char>) -> bool {
    components(path_bytes(file)) == components(path_bytes(dir)) + components(path_bytes(req))
}

/// File `i` is the first of the patch whose relative path is `req`.
pub open spec fn is_first_match(p: Patch, req: Seq<char>, i: int) -> bool {
    &&& 0 <= i < p.files@.len()
    &&& file_matches(p.files@[i]@, p.dir@, req)
    &&& forall|k: int| 0 <= k < i ==> !file_matches(#[trigger] p.files@[k]@, p.dir@, req)
}

/// The patch holds a file of relative path `req`.
pub open spec fn has_file(p: Patch, req: Seq<char>) -> bool {
    exists|i: int| 0 <= i < p.files@.len() && file_matches(#[trigger] p.files@[i]@, p.dir@, req)
}

/// Among the first `n` patches, `j` is the one that serves `req`: it holds
/// the file, no patch that holds it has a higher version, and none after it
/// has the same version.
pub open spec fn serves_upto(ps: Seq<Patch>, n: int, j: int, req: Seq<char>) -> bool {
    &&& 0 <= j < n <= ps.len()
    &&& has_file(ps[j], req)
    &&& forall|k: int|
        0 <= k < n && #[trigger] has_file(ps[k], req) ==> ps[k].version <= ps[j].version
    &&& forall|k: int|
        j < k < n && #[trigger] has_file(ps[k], req) ==> ps[k].version < ps[j].version
}

/// Patch `j` serves `req`.
pub open spec fn serves(ps: Seq<Patch>, j: int, req: Seq<char>) -> bool {
    serves_upto(ps, ps.len() as int, j, req)
}

/// The patch that serves `req`, if any.
pub open spec fn lookup(ps: Seq<Patch>, req: Seq<char>) -> Option<int> {
    if exists|j: int| serves(ps, j, req) {
        Some(choose|j: int| serves(ps, j, req))
    } else {
        None
    }
}

/// `req` resolves to the file `file`: the first file of relative path `req`
/// in the patch that serves it.
pub open spec fn resolves_to(ps: Seq<Patch>, req: Seq<char>, file: Seq<char>) -> bool {
    &&& lookup(ps, req) is Some
    &&& exists|i: int|
        is_first_match(ps[lookup(ps, req)->Some_0], req, i) && file
            == ps[lookup(ps, req)->Some_0].files@[i]@
}

/// `d` holds ASCII digits alone.
pub open spec fn all_digits(d: Seq<u8>) -> bool {
    forall|i: int| 0 <= i < d.len() ==> 48 <= #[trigger] d[i] <= 57
}

/// The number that the decimal digits `d` denote.
pub open spec fn digits_value(d: Seq<u8>) -> nat
    decreases d.len(),
{
    if d.len() == 0 {
        0
    } else {
        digits_value(d.drop_last()) * 10 + (d.last() - 48) as nat
    }
}

/// The digits of a version name: all of it, after an optional `+`.
pub open spec fn digits_of(name: Seq<u8>) -> Seq<u8> {
    if name.len() > 0 && name[0] == 43 {
        name.drop_first()
    } else {
        name
    }
}

/// `name` is a base-10 number that fits in `usize`.
pub open spec fn is_version_name(name: Seq<u8>) -> bool {
    let d = digits_of(name);
    d.len() > 0 && all_digits(d) && digits_value(d) <= usize::MAX
}

/// The version that a directory name stands for.
pub open spec fn version_of(name: Seq<u8>) -> nat {
    digits_value(digits_of(name))
}

/// The patch that a directory listing becomes.
pub open spec fn patch_of(l: VersionListing) -> Patch {
    Patch { version: version_of(path_bytes(l.name@)) as usize, dir: l.dir, files: l.files }
}

/// Every directory of the listing is named by a version number.
pub open spec fn listing_valid(listing: Seq<VersionListing>) -> bool {
    forall|i: int| 0 <= i < listing.len() ==> is_version_name(path_bytes(#[trigger] listing[i].name@))
}

/// The snapshot that a listing of the patch root becomes.
pub open spec fn patches_of(listing: Seq<VersionListing>) -> Seq<Patch> {
    listing.map_values(|l: VersionListing| patch_of(l))
}

impl View for PatchProvider {
    type V = Seq<Patch>;

    closed spec fn view(&self) -> Seq<Patch> {
        self.patches@
    }
}

impl PatchProvider {
    /// The patch root.
    pub closed spec fn spec_location(&self) -> Seq<char> {
        self.location@
    }
}

proof fn lemma_serves_unique(ps: Seq<Patch>, req: Seq<char>, a: int, b: int)
    requires
        serves(ps, a, req),
        serves(ps, b, req),
    ensures
        a == b,
{
    if a < b {
        assert(has_file(ps[b], req));
    } else if b < a {
        assert(has_file(ps[a], req));
    }
}

proof fn lemma_lookup_of_server(ps: Seq<Patch>, req: Seq<char>, j: int)
    requires
        serves(ps, j, req),
    ensures
        lookup(ps, req) == Some(j),
{
    let c = choose|c: int| serves(ps, c, req);
    lemma_serves_unique(ps, req, c, j);
}

/// A path that only one version holds resolves to that version's file.
pub proof fn lemma_single_version_resolves(provider: PatchProvider, req: Seq<char>, j: int)
    requires
        0 <= j < provider@.len(),
        has_file(provider@[j], req),
        forall|k: int| 0 <= k < provider@.len() && k != j ==> !has_file(provider@[k], req),
    ensures
        lookup(provider@, req) == Some(j),
{
    lemma_newest_version_resolves(provider, req, j);
}

/// A path that several versions hold resolves to the file of the highest.
pub proof fn lemma_newest_version_resolves(provider: PatchProvider, req: Seq<char>, j: int)
    requires
        0 <= j < provider@.len(),
        has_file(provider@[j], req),
        forall|k: int|
            0 <= k < provider@.len() && k != j && has_file(provider@[k], req)
                ==> provider@[k].version < provider@[j].version,
    ensures
        lookup(provider@, req) == Some(j),
{
    assert(serves(provider@, j, req));
    lemma_lookup_of_server(provider@, req, j);
}

/// A path that no version holds is not found.
pub proof fn lemma_absent_not_found(provider: PatchProvider, req: Seq<char>)
    requires
        forall|k: int| 0 <= k < provider@.len() ==> !has_file(provider@[k], req),
    ensures
        lookup(provider@, req) is None,
{
}

/// Adding a version directory that holds a path no other version holds makes
/// the path resolve to it; without that directory the path is not found.
pub proof fn lemma_added_version_resolves(
    listing: Seq<VersionListing>,
    added: VersionListing,
    pos: int,
    req: Seq<char>,
)
    requires
        0 <= pos <= listing.len(),
        has_file(patch_of(added), req),
        forall|k: int| 0 <= k < listing.len() ==> !has_file(patch_of(#[trigger] listing[k]), req),
    ensures
        lookup(patches_of(listing.insert(pos, added)), req) == Some(pos),
        lookup(patches_of(listing), req) is None,
{
    let grown = patches_of(listing.insert(pos, added));
    assert(grown[pos] == patch_of(added));
    assert forall|k: int| 0 <= k < grown.len() && k != pos implies !has_file(grown[k], req) by {
        if k < pos {
            assert(grown[k] == patch_of(listing[k]));
        } else {
            assert(grown[k] == patch_of(listing[k - 1]));
        }
    }
    assert(serves(grown, pos, req));
    lemma_lookup_of_server(grown, req, pos);
    let before = patches_of(listing);
    assert forall|j: int| !serves(before, j, req) by {
        if 0 <= j < before.len() {
            assert(before[j] == patch_of(listing[j]));
        }
    }
}

/// Whether `patch_file`, a file beneath the version directory `dir`, has the
/// relative path `requested`, comparing path components.
pub fn files_match(patch_file: &String, dir: &String, requested: &String) -> (r: bool)
    ensures
        r == file_matches(patch_file@, dir@, requested@),
{
    let f = path_components(patch_file.as_str().as_bytes());
    let d = path_components(dir.as_str().as_bytes());
    let q = path_components(requested.as_str().as_bytes());
    let ghost want = views(d@) + views(q@);
    if f.len() < d.len() || f.len() - d.len() != q.len() {
        assert(views(f@).len() != want.len());
        return false;
    }
    let mut i: usize = 0;
    while i < f.len()
        invariant
            f@.len() == d@.len() + q@.len(),
            want == views(d@) + views(q@),
            views(f@) == components(path_bytes(patch_file@)),
            views(d@) == components(path_bytes(dir@)),
            views(q@) == components(path_bytes(requested@)),
            i <= f@.len(),
            forall|k: int| 0 <= k < i ==> views(f@)[k] == want[k],
        decreases f@.len() - i,
    {
        let same = if i < d.len() {
            bytes_equal(&f[i], &d[i])
        } else {
            bytes_equal(&f[i], &q[i - d.len()])
        };
        if !same {
            assert(views(f@)[i as int] != want[i as int]);
            assert(views(f@) != want);
            return false;
        }
        i = i + 1;
    }
    assert(views(f@) =~= want);
    true
}

impl Patch {
    /// The patch of version `version` whose files lie beneath `dir`.
    pub fn new(version: usize, dir: String, files: Vec<String>) -> (r: Patch)
        ensures
            r == (Patch { version, dir, files }),
    {
        Patch { version, dir, files }
    }

    /// The first file of this patch whose relative path is `path`.
    pub fn find_file(&self, path: &String) -> (r: Option<&String>)
        ensures
            r is None <==> !has_file(*self, path@),
            r matches Some(f) ==> exists|i: int| is_first_match(*self, path@, i) && f@ == self.files@[i]@,
    {
        let mut i: usize = 0;
        while i < self.files.len()
            invariant
                i <= self.files@.len(),
                forall|k: int| 0 <= k < i ==> !file_matches(#[trigger] self.files@[k]@, self.dir@, path@),
            decreases self.files@.len() - i,
        {
            if files_match(&self.files[i], &self.dir, path) {
                assert(is_first_match(*self, path@, i as int));
                return Some(&self.files[i]);
            }
            i = i + 1;
        }
        None
    }
}

impl PatchProvider {
    /// The location of the newest file whose relative path is `path`: the
    /// first such file of the patch of highest version, and of the last such
    /// directory where two have the same version.
    pub fn get_latest_version(&self, path: &String) -> (r: Option<String>)
        ensures
            r is None <==> lookup(self@, path@) is None,
            r matches Some(s) ==> resolves_to(self@, path@, s@),
    {
        let ghost ps = self@;
        let ghost req = path@;
        let mut best: Option<usize> = None;
        let mut found: Option<&String> = None;
        let mut j: usize = 0;
        while j < self.patches.len()
            invariant
                ps == self.patches@,
                req == path@,
                j <= ps.len(),
                best is None <==> found is None,
                best is None ==> forall|k: int| 0 <= k < j ==> !has_file(#[trigger] ps[k], req),
                best matches Some(b) ==> serves_upto(ps, j as int, b as int, req),
                best matches Some(b) ==> found matches Some(f) && exists|i: int|
                    is_first_match(ps[b as int], req, i) && f@ == ps[b as int].files@[i]@,
            decreases ps.len() - j,
        {
            let patch = &self.patches[j];
            match patch.find_file(path) {
                Some(f) => {
                    let newer = match best {
                        None => true,
                        Some(b) => patch.version >= self.patches[b].version,
                    };
                    if newer {
                        proof {
                            let i = choose|i: int| is_first_match(*patch, path@, i) && f@ == patch.files@[i]@;
                            assert(is_first_match(ps[j as int], req, i) && f@ == ps[j as int].files@[i]@);
                        }
                        best = Some(j);
                        found = Some(f);
                    }
                },
                None => {},
            }
            j = j + 1;
        }
        match best {
            Some(b) => {
                proof {
                    lemma_lookup_of_server(ps, req, b as int);
                }
                match found {
                    Some(f) => {
                        let ghost i = choose|i: int|
                            is_first_match(ps[b as int], req, i) && f@ == ps[b as int].files@[i]@;
                        let s = f.clone();
                        assert(self@ == ps);
                        assert(lookup(ps, req)->Some_0 == b as int);
                        assert(is_first_match(ps[lookup(ps, req)->Some_0], req, i));
                        assert(s@ == ps[lookup(ps, req)->Some_0].files@[i]@);
                        assert(resolves_to(ps, req, s@));
                        Some(s)
                    },
                    None => None,
                }
            },
            None => {
                assert(!exists|k: int| serves(ps, k, req));
                None
            },
        }
    }
}

proof fn lemma_digits_value_prefix(d: Seq<u8>, j: int)
    requires
        0 <= j <= d.len(),
        all_digits(d),
    ensures
        digits_value(d.take(j)) <= digits_value(d),
    decreases d.len(),
{
    if j < d.len() {
        assert(d.drop_last().take(j) =~= d.take(j));
        lemma_digits_value_prefix(d.drop_last(), j);
    } else {
        assert(d.take(j) =~= d);
    }
}

/// The version that a directory name stands for, if it is a base-10 number
/// that fits in `usize`, with an optional leading `+`.
#[verifier::rlimit(40)]
pub fn parse_version(name: &String) -> (r: Option<usize>)
    ensures
        r is Some <==> is_version_name(path_bytes(name@)),
        r matches Some(v) ==> v as nat == version_of(path_bytes(name@)),
{
    let b = name.as_str().as_bytes();
    let ghost bytes = path_bytes(name@);
    let mut start: usize = 0;
    if b.len() > 0 && b[0] == 43u8 {
        start = 1;
    }
    let ghost d = digits_of(bytes);
    assert(d =~= b@.subrange(start as int, b@.len() as int));
    if start >= b.len() {
        return None;
    }
    let mut acc: usize = 0;
    let mut i: usize = start;
    while i < b.len()
        invariant
            b@ == bytes,
            bytes == path_bytes(name@),
            d == digits_of(bytes),
            d == b@.subrange(start as int, b@.len() as int),
            start <= i <= b@.len(),
            acc as nat == digits_value(d.take(i - start)),
            all_digits(d.take(i - start)),
        decreases b@.len() - i,
    {
        let c = b[i];
        if c < 48u8 || c > 57u8 {
            assert(d[i - start] == c);
            return None;
        }
        let digit = (c - 48u8) as usize;
        let ghost next = d.take(i - start + 1);
        assert(next.drop_last() =~= d.take(i - start));
        assert(all_digits(next));
        assert(next.last() == c);
        assert(digits_value(next) == acc * 10 + digit);
        if acc > (usize::MAX - digit) / 10 {
            assert(acc * 10 + digit > usize::MAX) by (nonlinear_arith)
                requires
                    acc > (usize::MAX - digit) / 10,
                    digit <= 9,
            ;
            proof {
                if all_digits(d) {
                    lemma_digits_value_prefix(d, i - start + 1);
                }
            }
            return None;
        }
        assert(acc * 10 + digit <= usize::MAX) by (nonlinear_arith)
            requires
                acc <= (usize::MAX - digit) / 10,
                digit <= 9,
        ;
        acc = acc * 10 + digit;
        i = i + 1;
    }
    assert(d.take(i - start) =~= d);
    Some(acc)
}

impl PatchProvider {
    /// An empty index over the patch root `location`; `is_dir` tells whether
    /// that path is a directory.
    pub fn new(location: String, is_dir: bool) -> (r: Result<PatchProvider, PatchError>)
        ensures
            r is Ok <==> is_dir,
            r matches Ok(p) ==> p.spec_location() == location@ && p@.len() == 0,
            r matches Err(e) ==> e == PatchError::NotADirectory,
    {
        if !is_dir {
            return Err(PatchError::NotADirectory);
        }
        Ok(PatchProvider { location, patches: Vec::new() })
    }

    /// The patch root.
    pub fn location(&self) -> (r: &String)
        ensures
            r@ == self.spec_location(),
    {
        &self.location
    }

    /// Replaces the snapshot with the one that `listing`, a listing of the
    /// patch root, describes. Fails, leaving the snapshot as it was, when a
    /// directory of the listing is not named by a version number.
    pub fn load_patches(&mut self, listing: Vec<VersionListing>) -> (r: Result<(), PatchError>)
        ensures
            r is Ok <==> listing_valid(listing@),
            r is Ok ==> final(self)@ == patches_of(listing@) && final(self).spec_location()
                == old(self).spec_location(),
            r matches Err(e) ==> e == PatchError::MalformedVersionName && *final(self) == *old(
                self,
            ),
    {
        let ghost orig = listing@;
        let mut versions: Vec<usize> = Vec::new();
        let mut i: usize = 0;
        while i < listing.len()
            invariant
                listing@ == orig,
                i <= orig.len(),
                versions@.len() == i,
                forall|k: int| 0 <= k < i ==> is_version_name(path_bytes(#[trigger] orig[k].name@)),
                forall|k: int|
                    0 <= k < i ==> #[trigger] versions@[k] as nat == version_of(
                        path_bytes(orig[k].name@),
                    ),
            decreases orig.len() - i,
        {
            match parse_version(&listing[i].name) {
                Some(v) => versions.push(v),
                None => {
                    return Err(PatchError::MalformedVersionName);
                },
            }
            i = i + 1;
        }
        let mut rest = listing;
        let mut patches: Vec<Patch> = Vec::new();
        let mut n: usize = 0;
        while rest.len() > 0
            invariant
                n + rest@.len() == orig.len(),
                orig.len() <= usize::MAX,
                rest@ == orig.skip(n as int),
                versions@.len() == orig.len(),
                forall|k: int|
                    0 <= k < orig.len() ==> #[trigger] versions@[k] as nat == version_of(
                        path_bytes(orig[k].name@),
                    ),
                patches@ == patches_of(orig.take(n as int)),
            decreases rest@.len(),
        {
            let entry = rest.remove(0);
            assert(entry == orig[n as int]);
            let patch = Patch::new(versions[n], entry.dir, entry.files);
            patches.push(patch);
            assert(patches@ =~= patches_of(orig.take(n + 1)));
            assert(rest@ =~= orig.skip(n + 1));
            n = n + 1;
        }
        assert(orig.take(n as int) =~= orig);
        self.patches = patches;
        Ok(())
    }

    /// The number of version directories in the snapshot.
    pub fn get_patch_count(&self) -> (r: usize)
        ensures
            r == self@.len(),
    {
        self.patches.len()
    }
}

} // verus!
