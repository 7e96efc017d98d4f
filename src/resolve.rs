use vstd::prelude::*;

use crate::error::{ErrorModel, RawImportError, text_result};
use crate::path::{is_absolute, normalize_path, normalized};
use crate::text::{chars_of, string_of};

verus! {

/// The plugin's configuration.
pub struct Config {
    pub root_dir: Option<String>,
}

impl Config {
    /// The configured root directory, which must be present.
    pub fn required_root_dir(&self) -> (r: Result<String, RawImportError>)
        ensures
            self.root_dir is None ==> r matches Err(RawImportError::MissingConfiguration),
            self.root_dir matches Some(d) ==> r matches Ok(s) && s@ == d@,
    {
        match &self.root_dir {
            Some(d) => Ok(d.clone()),
            None => Err(RawImportError::MissingConfiguration),
        }
    }
}

/// `s` without its `pre` prefix, where it has one.
pub open spec fn strip_prefix(s: Seq<char>, pre: Seq<char>) -> Seq<char> {
    if pre.is_prefix_of(s) {
        s.skip(pre.len() as int)
    } else {
        s
    }
}

/// `s` without any of its leading `/` characters.
pub open spec fn trim_leading_slashes(s: Seq<char>) -> Seq<char>
    decreases s.len(),
{
    if s.len() > 0 && s[0] == '/' {
        trim_leading_slashes(s.skip(1))
    } else {
        s
    }
}

/// `rel` appended to `base` as a path: an absolute `rel` replaces `base`,
/// and a `/` is put between the two where `base` does not end in one. Used
/// where `rel` is known to be relative or where replacing is intended.
pub open spec fn join_path(base: Seq<char>, rel: Seq<char>) -> Seq<char> {
    if is_absolute(rel) {
        rel
    } else if base.len() == 0 || base.last() == '/' {
        base + rel
    } else {
        base + seq!['/'] + rel
    }
}

/// Index of the last `/` in `p`, or -1 where there is none.
pub open spec fn last_slash(p: Seq<char>) -> int
    decreases p.len(),
{
    if p.len() == 0 {
        -1
    } else if p.last() == '/' {
        p.len() - 1
    } else {
        last_slash(p.drop_last())
    }
}

/// `p` without its last segment: the directory that holds the file `p`.
pub open spec fn parent_dir(p: Seq<char>) -> Seq<char> {
    let k = last_slash(p);
    if k < 0 {
        Seq::empty()
    } else if k == 0 {
        seq!['/']
    } else {
        p.take(k)
    }
}

/// Where the file being compiled lies under the root: its path with the root
/// prefix and leading separators removed, joined onto the root.
pub open spec fn current_location(root: Seq<char>, current: Seq<char>) -> Seq<char> {
    join_path(root, trim_leading_slashes(strip_prefix(current, root)))
}

/// The working directory: the current location, or its parent where the
/// current location is a regular file.
pub open spec fn working_dir(root: Seq<char>, current: Seq<char>, current_is_file: bool) -> Seq<
    char,
> {
    if current_is_file {
        parent_dir(current_location(root, current))
    } else {
        current_location(root, current)
    }
}

/// `s` with every NUL character removed.
pub open spec fn without_nul(s: Seq<char>) -> Seq<char>
    decreases s.len(),
{
    if s.len() == 0 {
        s
    } else if s.last() == '\0' {
        without_nul(s.drop_last())
    } else {
        without_nul(s.drop_last()).push(s.last())
    }
}

pub open spec fn has_nul(s: Seq<char>) -> bool {
    exists|i: int| 0 <= i < s.len() && s[i] == '\0'
}

pub open spec fn node_modules() -> Seq<char> {
    seq!['n', 'o', 'd', 'e', '_', 'm', 'o', 'd', 'u', 'l', 'e', 's']
}

/// A resolver: what it knows of one compiled file.
pub ghost struct ResolverModel {
    pub root: Seq<char>,
    pub cwd: Seq<char>,
    pub root_accessible: bool,
}

/// The normalized path that a raw import path names. NUL characters are
/// removed first. A path that starts with `.` is joined onto the working
/// directory; any other, absolute ones included, is placed under the root's
/// `node_modules` directory.
pub open spec fn target_path(r: ResolverModel, raw: Seq<char>) -> Seq<char> {
    let clean = without_nul(raw);
    if clean.len() > 0 && clean[0] == '.' {
        normalized(join_path(r.cwd, clean))
    } else {
        normalized(join_path(r.root, node_modules()) + seq!['/'] + clean)
    }
}

/// What resolving `raw` gives: the target path, or the error that stops it.
pub open spec fn resolution(r: ResolverModel, raw: Seq<char>) -> Result<Seq<char>, ErrorModel> {
    if !r.root_accessible {
        Err(ErrorModel::SandboxedEnvironment(r.root))
    } else if has_nul(target_path(r, raw)) {
        Err(ErrorModel::InvalidPath(target_path(r, raw)))
    } else {
        Ok(target_path(r, raw))
    }
}

/// Resolves the raw import paths of one compiled file.
pub struct RawImport {
    root: String,
    cwd: String,
    root_accessible: bool,
}

impl View for RawImport {
    type V = ResolverModel;

    closed spec fn view(&self) -> ResolverModel {
        ResolverModel { root: self.root@, cwd: self.cwd@, root_accessible: self.root_accessible }
    }
}

fn join_chars(base: &Vec<char>, rel: &Vec<char>) -> (r: Vec<char>)
    ensures
        r@ == join_path(base@, rel@),
{
    if rel.len() > 0 && rel[0] == '/' {
        return rel.clone();
    }
    let mut r = base.clone();
    if !(base.len() == 0 || base[base.len() - 1] == '/') {
        r.push('/');
    }
    let ghost prefix = r@;
    let mut i: usize = 0;
    while i < rel.len()
        invariant
            i <= rel@.len(),
            r@ == prefix + rel@.take(i as int),
        decreases rel@.len() - i,
    {
        r.push(rel[i]);
        i = i + 1;
        assert(r@ =~= prefix + rel@.take(i as int));
    }
    assert(rel@.take(rel@.len() as int) =~= rel@);
    r
}

fn append_chars(v: &mut Vec<char>, cs: &Vec<char>)
    ensures
        final(v)@ == old(v)@ + cs@,
{
    let mut i: usize = 0;
    while i < cs.len()
        invariant
            i <= cs@.len(),
            v@ == old(v)@ + cs@.take(i as int),
        decreases cs@.len() - i,
    {
        v.push(cs[i]);
        i = i + 1;
        assert(v@ =~= old(v)@ + cs@.take(i as int));
    }
    assert(cs@.take(cs@.len() as int) =~= cs@);
}

fn location_chars(root: &Vec<char>, current: &Vec<char>) -> (r: Vec<char>)
    ensures
        r@ == current_location(root@, current@),
{
    let mut start: usize = 0;
    if root.len() <= current.len() {
        let mut i: usize = 0;
        while i < root.len() && root[i] == current[i]
            invariant
                root@.len() <= current@.len(),
                i <= root@.len(),
                forall|j: int| 0 <= j < i ==> root@[j] == current@[j],
            decreases root@.len() - i,
        {
            i = i + 1;
        }
        if i == root.len() {
            start = i;
            assert(root@.is_prefix_of(current@));
        } else {
            assert(!root@.is_prefix_of(current@)) by {
                assert(root@[i as int] != current@[i as int]);
            }
        }
    } else {
        assert(!root@.is_prefix_of(current@));
    }
    let ghost stripped = strip_prefix(current@, root@);
    assert(current@.skip(start as int) =~= stripped);
    while start < current.len() && current[start] == '/'
        invariant
            start <= current@.len(),
            trim_leading_slashes(current@.skip(start as int)) == trim_leading_slashes(stripped),
        decreases current@.len() - start,
    {
        assert(current@.skip(start as int).skip(1) =~= current@.skip(start + 1));
        start = start + 1;
    }
    let mut rest: Vec<char> = Vec::new();
    let mut k: usize = start;
    while k < current.len()
        invariant
            start <= k <= current@.len(),
            rest@ == current@.subrange(start as int, k as int),
        decreases current@.len() - k,
    {
        rest.push(current[k]);
        k = k + 1;
        assert(rest@ =~= current@.subrange(start as int, k as int));
    }
    assert(rest@ =~= current@.skip(start as int));
    assert(trim_leading_slashes(rest@) == rest@);
    join_chars(root, &rest)
}

fn parent_chars(p: &Vec<char>) -> (r: Vec<char>)
    ensures
        r@ == parent_dir(p@),
{
    let mut n: usize = p.len();
    assert(p@.take(n as int) =~= p@);
    while n > 0 && p[n - 1] != '/'
        invariant
            n <= p@.len(),
            last_slash(p@) == last_slash(p@.take(n as int)),
        decreases n,
    {
        assert(p@.take(n as int).drop_last() =~= p@.take(n - 1));
        n = n - 1;
    }
    if n == 0 {
        assert(p@.take(0) =~= Seq::<char>::empty());
        Vec::new()
    } else if n == 1 {
        assert(p@.take(1).last() == '/');
        let mut r: Vec<char> = Vec::new();
        r.push('/');
        assert(r@ =~= seq!['/']);
        r
    } else {
        assert(p@.take(n as int).last() == '/');
        let mut r: Vec<char> = Vec::new();
        let mut i: usize = 0;
        while i < n - 1
            invariant
                n <= p@.len(),
                i <= n - 1,
                r@ == p@.take(i as int),
            decreases n - 1 - i,
        {
            r.push(p[i]);
            i = i + 1;
            assert(r@ =~= p@.take(i as int));
        }
        r
    }
}

fn strip_nul(s: &Vec<char>) -> (r: Vec<char>)
    ensures
        r@ == without_nul(s@),
{
    let mut r: Vec<char> = Vec::new();
    let mut i: usize = 0;
    while i < s.len()
        invariant
            i <= s@.len(),
            r@ == without_nul(s@.take(i as int)),
        decreases s@.len() - i,
    {
        assert(s@.take(i + 1).drop_last() =~= s@.take(i as int));
        if s[i] != '\0' {
            r.push(s[i]);
        }
        i = i + 1;
    }
    assert(s@.take(s@.len() as int) =~= s@);
    r
}

fn find_nul(s: &String) -> (r: bool)
    ensures
        r == has_nul(s@),
{
    let cs = chars_of(s.as_str());
    let mut i: usize = 0;
    while i < cs.len()
        invariant
            cs@ == s@,
            i <= cs@.len(),
            forall|j: int| 0 <= j < i ==> cs@[j] != '\0',
        decreases cs@.len() - i,
    {
        if cs[i] == '\0' {
            return true;
        }
        i = i + 1;
    }
    false
}

impl RawImport {
    /// Where the file being compiled lies under `root_dir`: `current_path`
    /// with the `root_dir` prefix and leading separators removed, joined onto
    /// `root_dir`. The caller checks whether this is a regular file.
    pub fn current_location(root_dir: &String, current_path: &String) -> (r: String)
        ensures
            r@ == current_location(root_dir@, current_path@),
    {
        let root = chars_of(root_dir.as_str());
        let current = chars_of(current_path.as_str());
        string_of(&location_chars(&root, &current))
    }

    /// A resolver for the file at `current_path`. `current_is_file` tells
    /// whether its location under the root is a regular file, and
    /// `root_accessible` whether the root directory can be read from here.
    pub fn new(root_dir: String, current_path: String, current_is_file: bool, root_accessible: bool) -> (r: Self)
        ensures
            r@.root == root_dir@,
            r@.cwd == working_dir(root_dir@, current_path@, current_is_file),
            r@.root_accessible == root_accessible,
    {
        let root = chars_of(root_dir.as_str());
        let current = chars_of(current_path.as_str());
        let loc = location_chars(&root, &current);
        let cwd = if current_is_file {
            parent_chars(&loc)
        } else {
            loc
        };
        RawImport { root: root_dir, cwd: string_of(&cwd), root_accessible }
    }

    /// The working directory that relative raw paths start from.
    pub fn working_dir(&self) -> (r: String)
        ensures
            r@ == self@.cwd,
    {
        self.cwd.clone()
    }

    /// The normalized absolute path that the raw import path `raw_path`
    /// names, or the error that stops its resolution.
    pub fn resolve_path(&self, raw_path: &String) -> (r: Result<String, RawImportError>)
        ensures
            text_result(r) == resolution(self@, raw_path@),
    {
        if !self.root_accessible {
            return Err(RawImportError::SandboxedEnvironment { root: self.root.clone() });
        }
        let clean = strip_nul(&chars_of(raw_path.as_str()));
        let joined = if clean.len() > 0 && clean[0] == '.' {
            join_chars(&chars_of(self.cwd.as_str()), &clean)
        } else {
            let nm = "node_modules";
            proof {
                reveal_strlit("node_modules");
            }
            let nm_chars = chars_of(nm);
            assert(nm_chars@ =~= node_modules());
            let mut dir = join_chars(&chars_of(self.root.as_str()), &nm_chars);
            let ghost nm_dir = dir@;
            dir.push('/');
            append_chars(&mut dir, &clean);
            assert(dir@ =~= nm_dir + seq!['/'] + clean@);
            dir
        };
        assert(normalized(joined@) == target_path(self@, raw_path@));
        let path = normalize_path(string_of(&joined));
        if find_nul(&path) {
            Err(RawImportError::InvalidPath { path })
        } else {
            Ok(path)
        }
    }
}

} // verus!
