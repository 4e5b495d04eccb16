//! A directory tree built from a terminal transcript: named directories and
//! files, sizes summed recursively, path-addressed insertion and lookup, and
//! working-directory arithmetic.
use vstd::prelude::*;

use vstd::pervasive::VecAdditionalExecFns;

use crate::text::{chars_eq, chars_of, split_fields, split_raw, string_from_chars, parse_u32};

verus! {

pub struct File {
    pub name: String,
    pub size: u32,
}

impl File {
    pub fn new(name: &str, size: u32) -> (r: File)
        ensures
            r.name@ == name@,
            r.size == size,
    {
        File { name: name.to_owned(), size }
    }
}

pub struct Directory {
    pub root: bool,
    pub name: String,
    pub subdirectories: Vec<Directory>,
    pub content: Vec<File>,
}

/// The mathematical shape of a file: its name and size.
pub struct FileModel {
    pub name: Seq<char>,
    pub size: u32,
}

/// The mathematical shape of a directory tree.
pub struct DirModel {
    pub root: bool,
    pub name: Seq<char>,
    pub subdirs: Seq<DirModel>,
    pub files: Seq<FileModel>,
}

/// The model of a directory tree.
pub open spec fn dir_model(d: Directory) -> DirModel
    decreases d,
{
    DirModel {
        root: d.root,
        name: d.name@,
        subdirs: sub_models(d.subdirectories@, 0),
        files: Seq::new(
            d.content@.len(),
            |i: int| FileModel { name: d.content@[i].name@, size: d.content@[i].size },
        ),
    }
}

/// The models of the directories of `s` from index `i` on.
pub open spec fn sub_models(s: Seq<Directory>, i: int) -> Seq<DirModel>
    decreases s, s.len() - i,
{
    if i < 0 || i >= s.len() {
        Seq::empty()
    } else {
        seq![dir_model(s[i])] + sub_models(s, i + 1)
    }
}

/// Each model in `sub_models` is the model of the matching directory.
pub proof fn lemma_sub_models(s: Seq<Directory>, i: int)
    requires
        0 <= i <= s.len(),
    ensures
        sub_models(s, i).len() == s.len() - i,
        forall|j: int|
            0 <= j < s.len() - i ==> #[trigger] sub_models(s, i)[j] == dir_model(s[i + j]),
    decreases s.len() - i,
{
    if i < s.len() {
        lemma_sub_models(s, i + 1);
        assert forall|j: int|
            0 <= j < s.len() - i implies #[trigger] sub_models(s, i)[j] == dir_model(
            s[i + j],
        ) by {
            if j == 0 {
                assert(sub_models(s, i)[0] == dir_model(s[i]));
            } else {
                assert(sub_models(s, i)[j] == sub_models(s, i + 1)[j - 1]);
                assert(sub_models(s, i + 1)[j - 1] == dir_model(s[i + 1 + (j - 1)]));
            }
        }
    }
}

impl View for Directory {
    type V = DirModel;

    open spec fn view(&self) -> DirModel {
        dir_model(*self)
    }
}

/// The total size of the files in a directory and everything below it.
pub open spec fn msize(m: DirModel) -> int
    decreases m,
{
    msubs_size(m.subdirs, 0) + mfiles_size(m.files, 0)
}

/// The summed sizes of the directory models of `s` from index `i` on.
pub open spec fn msubs_size(s: Seq<DirModel>, i: int) -> int
    decreases s, s.len() - i,
{
    if i < 0 || i >= s.len() {
        0
    } else {
        msize(s[i]) + msubs_size(s, i + 1)
    }
}

/// The summed sizes of the file models of `s` from index `i` on.
pub open spec fn mfiles_size(s: Seq<FileModel>, i: int) -> int
    decreases s.len() - i,
{
    if i < 0 || i >= s.len() {
        0
    } else {
        s[i].size + mfiles_size(s, i + 1)
    }
}

pub proof fn lemma_msize_nonneg(m: DirModel)
    ensures
        msize(m) >= 0,
    decreases m,
{
    lemma_msubs_size_nonneg(m.subdirs, 0);
    lemma_mfiles_size_nonneg(m.files, 0);
}

pub proof fn lemma_msubs_size_nonneg(s: Seq<DirModel>, i: int)
    ensures
        msubs_size(s, i) >= 0,
    decreases s, s.len() - i,
{
    if 0 <= i < s.len() {
        lemma_msize_nonneg(s[i]);
        lemma_msubs_size_nonneg(s, i + 1);
    }
}

pub proof fn lemma_mfiles_size_nonneg(s: Seq<FileModel>, i: int)
    ensures
        mfiles_size(s, i) >= 0,
    decreases s.len() - i,
{
    if 0 <= i < s.len() {
        lemma_mfiles_size_nonneg(s, i + 1);
    }
}

impl Directory {
    /// A fresh non-root directory with the given name.
    pub fn new(name: &str) -> (r: Directory)
        ensures
            r@ == (DirModel {
                root: false,
                name: name@,
                subdirs: Seq::empty(),
                files: Seq::empty(),
            }),
    {
        let r = Directory {
            name: name.to_owned(),
            subdirectories: Vec::new(),
            content: Vec::new(),
            root: false,
        };
        proof {
            assert(r@.subdirs =~= Seq::<DirModel>::empty());
            assert(r@.files =~= Seq::<FileModel>::empty());
        }
        r
    }

    /// The root directory, named `/`.
    pub fn new_root() -> (r: Directory)
        ensures
            r@ == (DirModel {
                root: true,
                name: "/"@,
                subdirs: Seq::empty(),
                files: Seq::empty(),
            }),
    {
        let r = Directory {
            name: String::from_str("/"),
            subdirectories: Vec::new(),
            content: Vec::new(),
            root: true,
        };
        proof {
            assert(r@.subdirs =~= Seq::<DirModel>::empty());
            assert(r@.files =~= Seq::<FileModel>::empty());
        }
        r
    }

    /// The total size of everything in and below this directory.
    pub fn size(&self) -> (r: u32)
        requires
            msize(self@) <= u32::MAX,
        ensures
            r == msize(self@),
        decreases *self,
    {
        let ghost m = self@;
        let mut size: u32 = 0;
        proof {
            lemma_sub_models(self.subdirectories@, 0);
            lemma_msubs_size_nonneg(m.subdirs, 0);
            lemma_mfiles_size_nonneg(m.files, 0);
        }
        let nd = self.subdirectories.len();
        let mut i: usize = 0;
        while i < nd
            invariant
                m == self@,
                msize(m) <= u32::MAX,
                nd == self.subdirectories@.len(),
                nd == m.subdirs.len(),
                i <= nd,
                size + msubs_size(m.subdirs, i as int) == msubs_size(m.subdirs, 0),
                size >= 0,
            decreases nd - i,
        {
            proof {
                lemma_sub_models(self.subdirectories@, 0);
                assert(m.subdirs[i as int] == dir_model(self.subdirectories@[i as int]));
                lemma_msize_nonneg(m.subdirs[i as int]);
                lemma_msubs_size_nonneg(m.subdirs, i + 1);
                lemma_mfiles_size_nonneg(m.files, 0);
            }
            let sub = self.subdirectories[i].size();
            size = size + sub;
            i = i + 1;
        }
        let nf = self.content.len();
        let mut j: usize = 0;
        while j < nf
            invariant
                m == self@,
                msize(m) <= u32::MAX,
                nf == self.content@.len(),
                nf == m.files.len(),
                j <= nf,
                size - msubs_size(m.subdirs, 0) + mfiles_size(m.files, j as int) == mfiles_size(
                    m.files,
                    0,
                ),
                size >= 0,
            decreases nf - j,
        {
            proof {
                assert(m.files[j as int].size == self.content@[j as int].size);
                lemma_mfiles_size_nonneg(m.files, j + 1);
                lemma_msubs_size_nonneg(m.subdirs, 0);
            }
            size = size + self.content[j].size;
            j = j + 1;
        }
        size
    }

    /// Adds a subdirectory; the root cannot be re-attached below another
    /// directory.
    pub fn add_dir(&mut self, dir: Directory)
        requires
            !dir.root,
        ensures
            final(self)@ == (DirModel {
                subdirs: old(self)@.subdirs.push(dir@),
                ..old(self)@
            }),
    {
        self.subdirectories.push(dir);
        proof {
            lemma_sub_models(self.subdirectories@, 0);
            lemma_sub_models(old(self).subdirectories@, 0);
            assert(self@.subdirs =~= old(self)@.subdirs.push(dir_model(dir)));
            assert(self@.files =~= old(self)@.files);
        }
    }

    /// Adds a file to this directory.
    pub fn add_file(&mut self, file: File)
        ensures
            final(self)@ == (DirModel {
                files: old(self)@.files.push(
                    FileModel { name: file.name@, size: file.size },
                ),
                ..old(self)@
            }),
    {
        let ghost fm = FileModel { name: file.name@, size: file.size };
        self.content.push(file);
        proof {
            assert(self@.files =~= old(self)@.files.push(fm));
            assert(self@.subdirs =~= old(self)@.subdirs);
        }
    }
}

// ---------------------------------------------------------------------------
// Path resolution
// ---------------------------------------------------------------------------
/// `s` with every repetition of the (non-empty) prefix `pat` stripped off the
/// front, as `str::trim_start_matches` does.
pub open spec fn strip_repeat(s: Seq<char>, pat: Seq<char>) -> Seq<char>
    decreases s.len(),
{
    if pat.len() > 0 && s.len() >= pat.len() && s.take(pat.len() as int) == pat {
        strip_repeat(s.skip(pat.len() as int), pat)
    } else {
        s
    }
}

/// The part of `path` left for `d` to resolve: the root strips repetitions of
/// its name (`/`); any other directory strips repetitions of its own name and
/// then of `/`.
pub open spec fn spec_subpath(m: DirModel, path: Seq<char>) -> Seq<char> {
    if m.root {
        strip_repeat(path, m.name)
    } else {
        strip_repeat(strip_repeat(path, m.name), "/"@)
    }
}

/// A found index lies within the sequence.
pub proof fn lemma_find_subdir_bound(s: Seq<DirModel>, name: Seq<char>, i: int)
    requires
        find_subdir(s, name, i) is Some,
    ensures
        i <= find_subdir(s, name, i)->Some_0 < s.len(),
    decreases s.len() - i,
{
    if !(i < 0 || i >= s.len()) && !(s[i].name == name) {
        lemma_find_subdir_bound(s, name, i + 1);
    }
}

/// The first index from `i` on of a subdirectory with the given name.
pub open spec fn find_subdir(s: Seq<DirModel>, name: Seq<char>, i: int) -> Option<int>
    decreases s.len() - i,
{
    if i < 0 || i >= s.len() {
        None
    } else if s[i].name == name {
        Some(i)
    } else {
        find_subdir(s, name, i + 1)
    }
}

/// The directory a path names: an exhausted subpath names the directory
/// itself, otherwise its first `/`-separated component names the
/// subdirectory to descend into.
pub open spec fn spec_get_path(m: DirModel, path: Seq<char>) -> Option<DirModel>
    decreases m,
{
    let sp = spec_subpath(m, path);
    if sp == Seq::<char>::empty() || sp == "/"@ {
        Some(m)
    } else {
        match find_subdir(m.subdirs, split_raw(sp, '/')[0], 0) {
            None => None,
            Some(i) => if 0 <= i < m.subdirs.len() {
                spec_get_path(m.subdirs[i], sp)
            } else {
                None
            },
        }
    }
}

/// The tree after adding `nd` below the directory `path` names, or nothing
/// when the path does not resolve.
pub open spec fn spec_add_dir_at(m: DirModel, path: Seq<char>, nd: DirModel) -> Option<DirModel>
    decreases m,
{
    let sp = spec_subpath(m, path);
    if sp == Seq::<char>::empty() || sp == "/"@ {
        Some(DirModel { subdirs: m.subdirs.push(nd), ..m })
    } else {
        match find_subdir(m.subdirs, split_raw(sp, '/')[0], 0) {
            None => None,
            Some(i) => if 0 <= i < m.subdirs.len() {
                match spec_add_dir_at(m.subdirs[i], sp, nd) {
                    None => None,
                    Some(nsub) => Some(DirModel { subdirs: m.subdirs.update(i, nsub), ..m }),
                }
            } else {
                None
            },
        }
    }
}

/// The tree after adding file `nf` to the directory `path` names, or nothing
/// when the path does not resolve.
pub open spec fn spec_add_file_at(m: DirModel, path: Seq<char>, nf: FileModel) -> Option<DirModel>
    decreases m,
{
    let sp = spec_subpath(m, path);
    if sp == Seq::<char>::empty() || sp == "/"@ {
        Some(DirModel { files: m.files.push(nf), ..m })
    } else {
        match find_subdir(m.subdirs, split_raw(sp, '/')[0], 0) {
            None => None,
            Some(i) => if 0 <= i < m.subdirs.len() {
                match spec_add_file_at(m.subdirs[i], sp, nf) {
                    None => None,
                    Some(nsub) => Some(DirModel { subdirs: m.subdirs.update(i, nsub), ..m }),
                }
            } else {
                None
            },
        }
    }
}

impl Directory {
    /// The first subdirectory with the given name.
    pub fn get_subdir(&self, name: &str) -> (r: Option<&Directory>)
        ensures
            (match find_subdir(self@.subdirs, name@, 0) {
                None => r is None,
                Some(i) => r is Some && 0 <= i < self@.subdirs.len() && r->Some_0@
                    == self@.subdirs[i] && *r->Some_0 == self.subdirectories@[i],
            }),
    {
        proof {
            lemma_sub_models(self.subdirectories@, 0);
        }
        let n = self.subdirectories.len();
        let mut i: usize = 0;
        while i < n
            invariant
                n == self.subdirectories@.len(),
                n == self@.subdirs.len(),
                i <= n,
                find_subdir(self@.subdirs, name@, 0) == find_subdir(self@.subdirs, name@, i as int),
            decreases n - i,
        {
            proof {
                lemma_sub_models(self.subdirectories@, 0);
                assert(self@.subdirs[i as int] == dir_model(self.subdirectories@[i as int]));
            }
            if crate::text::str_eq(self.subdirectories[i].name.as_str(), name) {
                return Some(&self.subdirectories[i]);
            }
            i = i + 1;
        }
        None
    }

    /// The directory the path names, if it resolves.
    pub fn get_path(&self, path: &str) -> (r: Option<&Directory>)
        ensures
            (match spec_get_path(self@, path@) {
                None => r is None,
                Some(found) => r is Some && r->Some_0@ == found,
            }),
    {
        let cs = chars_of(path);
        self.get_path_from(&cs)
    }

    /// As `get_path`, over an already decoded path.
    fn get_path_from(&self, path: &Vec<char>) -> (r: Option<&Directory>)
        ensures
            (match spec_get_path(self@, path@) {
                None => r is None,
                Some(found) => r is Some && r->Some_0@ == found,
            }),
        decreases *self,
    {
        proof {
            reveal_strlit("/");
        }
        let sp = self.subpath_chars_vec(path);
        let is_done = sp.len() == 0 || (sp.len() == 1 && sp[0] == '/');
        proof {
            if sp.len() == 0 {
                assert(sp@ =~= Seq::<char>::empty());
            }
            if sp.len() == 1 && sp@[0] == '/' {
                assert(sp@ =~= "/"@);
            }
            if sp@ == Seq::<char>::empty() {
                assert(sp.len() == 0);
            }
            if sp@ == "/"@ {
                assert(sp.len() == 1 && sp@[0] == '/');
            }
        }
        if is_done {
            return Some(self);
        }
        let fields = split_fields(&sp, '/');
        let first = string_from_chars(&fields[0]);
        match self.get_subdir(first.as_str()) {
            None => None,
            Some(sub) => {
                proof {
                    let i = find_subdir(self@.subdirs, first@, 0)->Some_0;
                    lemma_sub_models(self.subdirectories@, 0);
                    assert(0 <= i < self.subdirectories@.len());
                    assert(sub@ == self@.subdirs[i]);
                    assert(*sub == self.subdirectories@[i]);
                    assert(decreases_to!(*self => self.subdirectories));
                    assert(decreases_to!(self.subdirectories => self.subdirectories@));
                    assert(decreases_to!(self.subdirectories@ => self.subdirectories@[i]));
                    assert(decreases_to!(*self => self.subdirectories@[i]));
                }
                sub.get_path_from(&sp)
            },
        }
    }

    /// As `subpath_chars`, over an already decoded path.
    fn subpath_chars_vec(&self, path: &Vec<char>) -> (r: Vec<char>)
        ensures
            r@ == spec_subpath(self@, path@),
    {
        let name = chars_of(self.name.as_str());
        let stripped = strip_repeat_exec(path, &name);
        if self.root {
            stripped
        } else {
            let mut slash: Vec<char> = Vec::new();
            slash.push('/');
            proof {
                reveal_strlit("/");
                assert(slash@ =~= "/"@);
            }
            strip_repeat_exec(&stripped, &slash)
        }
    }
}

/// Strips repetitions of `pat` off the front of `s`.
fn strip_repeat_exec(s: &Vec<char>, pat: &Vec<char>) -> (r: Vec<char>)
    ensures
        r@ == strip_repeat(s@, pat@),
    decreases s@.len(),
{
    let m = pat.len();
    if m == 0 || s.len() < m {
        let mut r: Vec<char> = Vec::new();
        let n = s.len();
        for i in 0..n
            invariant
                n == s@.len(),
                r@ =~= s@.take(i as int),
        {
            r.push(s[i]);
            assert(r@ =~= s@.take(i + 1));
        }
        assert(r@ =~= s@);
        return r;
    }
    let mut matches = true;
    for i in 0..m
        invariant
            m == pat@.len(),
            m <= s@.len(),
            matches <==> (forall|k: int| 0 <= k < i ==> s@[k] == pat@[k]),
    {
        if s[i] != pat[i] {
            matches = false;
        }
    }
    if matches {
        proof {
            assert(s@.take(m as int) =~= pat@);
        }
        let mut rest: Vec<char> = Vec::new();
        let n = s.len();
        let mut i: usize = m;
        while i < n
            invariant
                n == s@.len(),
                m <= i <= n,
                rest@ =~= s@.skip(m as int).take(i - m),
            decreases n - i,
        {
            rest.push(s[i]);
            proof {
                assert(rest@ =~= s@.skip(m as int).take(i + 1 - m));
            }
            i = i + 1;
        }
        proof {
            assert(rest@ =~= s@.skip(m as int));
        }
        strip_repeat_exec(&rest, pat)
    } else {
        proof {
            let k = choose|k: int| 0 <= k < m && s@[k] != pat@[k];
            assert(s@.take(m as int)[k] == s@[k]);
            assert(s@.take(m as int) != pat@);
        }
        let mut r: Vec<char> = Vec::new();
        let n = s.len();
        for i in 0..n
            invariant
                n == s@.len(),
                r@ =~= s@.take(i as int),
        {
            r.push(s[i]);
            assert(r@ =~= s@.take(i + 1));
        }
        assert(r@ =~= s@);
        r
    }
}

/// The tree after the transcript line `entry` (a `dir <name>` or
/// `<size> <name>` listing) is applied below `working_directory`.
pub open spec fn spec_modify_root(m: DirModel, wd: Seq<char>, entry: Seq<char>) -> Option<
    DirModel,
> {
    let fields = split_raw(entry, ' ');
    if fields.len() < 2 {
        None
    } else if fields[0] == "dir"@ {
        spec_add_dir_at(
            m,
            wd,
            DirModel { root: false, name: fields[1], subdirs: Seq::empty(), files: Seq::empty() },
        )
    } else if fields[0].len() > 0 && crate::text::all_digits(fields[0]) && crate::text::dec_val(
        fields[0],
    ) <= u32::MAX {
        spec_add_file_at(
            m,
            wd,
            FileModel { name: fields[1], size: crate::text::dec_val(fields[0]) as u32 },
        )
    } else {
        None
    }
}

impl Directory {
    /// Adds a directory below the one `path` names; reports whether the path
    /// resolved, leaving the tree alone when it did not.
    pub fn add_dir_to_path(&mut self, path: &str, directory: Directory) -> (r: Option<bool>)
        requires
            !directory.root,
        ensures
            r is Some <==> spec_add_dir_at(old(self)@, path@, directory@) is Some,
            r is Some ==> r->Some_0 == true && final(self)@ == spec_add_dir_at(
                old(self)@,
                path@,
                directory@,
            )->Some_0,
            r is None ==> final(self)@ == old(self)@,
    {
        let cs = chars_of(path);
        let mut taken = Directory::new("");
        core::mem::swap(self, &mut taken);
        let (back, r) = add_dir_walk(taken, &cs, directory);
        let mut back = back;
        core::mem::swap(self, &mut back);
        r
    }

    /// Adds a file to the directory `path` names; reports whether the path
    /// resolved, leaving the tree alone when it did not.
    pub fn add_file_to_path(&mut self, path: &str, file: File) -> (r: Option<bool>)
        ensures
            r is Some <==> spec_add_file_at(
                old(self)@,
                path@,
                (FileModel { name: file.name@, size: file.size }),
            ) is Some,
            r is Some ==> r->Some_0 == true && final(self)@ == spec_add_file_at(
                old(self)@,
                path@,
                (FileModel { name: file.name@, size: file.size }),
            )->Some_0,
            r is None ==> final(self)@ == old(self)@,
    {
        let cs = chars_of(path);
        let mut taken = Directory::new("");
        core::mem::swap(self, &mut taken);
        let (back, r) = add_file_walk(taken, &cs, file);
        let mut back = back;
        core::mem::swap(self, &mut back);
        r
    }
}

/// The recursive worker behind `add_dir_to_path`.
fn add_dir_walk(d: Directory, path: &Vec<char>, directory: Directory) -> (r: (
    Directory,
    Option<bool>,
))
    requires
        !directory.root,
    ensures
        r.1 is Some <==> spec_add_dir_at(d@, path@, directory@) is Some,
        r.1 is Some ==> r.1->Some_0 == true && r.0@ == spec_add_dir_at(
            d@,
            path@,
            directory@,
        )->Some_0,
        r.1 is None ==> r.0@ == d@,
    decreases d,
{
    proof {
        reveal_strlit("/");
    }
    let ghost m = d@;
    let mut d = d;
    let sp = d.subpath_chars_vec(path);
    let is_done = sp.len() == 0 || (sp.len() == 1 && sp[0] == '/');
    proof {
        if sp.len() == 0 {
            assert(sp@ =~= Seq::<char>::empty());
        }
        if sp.len() == 1 && sp@[0] == '/' {
            assert(sp@ =~= "/"@);
        }
        if sp@ == Seq::<char>::empty() {
            assert(sp.len() == 0);
        }
        if sp@ == "/"@ {
            assert(sp.len() == 1 && sp@[0] == '/');
        }
    }
    if is_done {
        let ghost dirm = directory@;
        d.add_dir(directory);
        proof {
            assert(d@ == (DirModel { subdirs: m.subdirs.push(dirm), ..m }));
        }
        return (d, Some(true));
    }
    let fields = split_fields(&sp, '/');
    let first = string_from_chars(&fields[0]);
    let idx = match d.find_subdir_index(first.as_str()) {
        Some(i) => i,
        None => {
            return (d, None);
        },
    };
    let dlen = d.subdirectories.len();
    proof {
        lemma_sub_models(d.subdirectories@, 0);
        lemma_find_subdir_bound(d@.subdirs, first@, 0);
        assert(m.subdirs.len() == dlen as int);
        assert(idx < d.subdirectories@.len());
        assert(decreases_to!(d => d.subdirectories));
        assert(decreases_to!(d.subdirectories => d.subdirectories@));
        assert(decreases_to!(d.subdirectories@ => d.subdirectories@[idx as int]));
        assert(decreases_to!(d => d.subdirectories@[idx as int]));
    }
    let mut child = Directory::new("");
    d.subdirectories.set_and_swap(idx, &mut child);
    let ghost childm = m.subdirs[idx as int];
    proof {
        assert(child@ == childm);
    }
    let (child2, r) = add_dir_walk(child, &sp, directory);
    let mut child2 = child2;
    d.subdirectories.set_and_swap(idx, &mut child2);
    proof {
        lemma_sub_models(d.subdirectories@, 0);
        assert(first@ == split_raw(sp@, '/')[0]);
        assert(spec_subpath(m, path@) == sp@);
        assert(sp@ != Seq::<char>::empty() && sp@ != "/"@);
        assert(find_subdir(m.subdirs, first@, 0) is Some);
        let gi = find_subdir(m.subdirs, first@, 0)->Some_0;
        lemma_find_subdir_bound(m.subdirs, first@, 0);
        assert(0 <= gi < m.subdirs.len());
        assert(m.subdirs.len() == dlen as int);
        assert(gi <= usize::MAX);
        assert(idx == gi as usize);
        assert(gi == idx as int);
        assert(find_subdir(m.subdirs, split_raw(sp@, '/')[0], 0) == Some(idx as int));
        match r {
            Some(_) => {
                assert(d@.subdirs =~= m.subdirs.update(
                    idx as int,
                    spec_add_dir_at(childm, sp@, directory@)->Some_0,
                ));
                assert(d@ == (DirModel {
                    subdirs: m.subdirs.update(
                        idx as int,
                        spec_add_dir_at(childm, sp@, directory@)->Some_0,
                    ),
                    ..m
                }));
                assert(spec_add_dir_at(m, path@, directory@) == Some(d@));
            },
            None => {
                assert(spec_add_dir_at(childm, sp@, directory@) is None);
                assert(spec_add_dir_at(m, path@, directory@) is None);
                assert(d@.subdirs =~= m.subdirs);
                assert(d@ == m);
            },
        }
    }
    (d, r)
}

/// The recursive worker behind `add_file_to_path`.
fn add_file_walk(d: Directory, path: &Vec<char>, file: File) -> (r: (Directory, Option<bool>))
    ensures
        r.1 is Some <==> spec_add_file_at(
            d@,
            path@,
            (FileModel { name: file.name@, size: file.size }),
        ) is Some,
        r.1 is Some ==> r.1->Some_0 == true && r.0@ == spec_add_file_at(
            d@,
            path@,
            (FileModel { name: file.name@, size: file.size }),
        )->Some_0,
        r.1 is None ==> r.0@ == d@,
    decreases d,
{
    proof {
        reveal_strlit("/");
    }
    let ghost m = d@;
    let ghost fm = FileModel { name: file.name@, size: file.size };
    let mut d = d;
    let sp = d.subpath_chars_vec(path);
    let is_done = sp.len() == 0 || (sp.len() == 1 && sp[0] == '/');
    proof {
        if sp.len() == 0 {
            assert(sp@ =~= Seq::<char>::empty());
        }
        if sp.len() == 1 && sp@[0] == '/' {
            assert(sp@ =~= "/"@);
        }
        if sp@ == Seq::<char>::empty() {
            assert(sp.len() == 0);
        }
        if sp@ == "/"@ {
            assert(sp.len() == 1 && sp@[0] == '/');
        }
    }
    if is_done {
        d.add_file(file);
        proof {
            assert(d@ == (DirModel { files: m.files.push(fm), ..m }));
        }
        return (d, Some(true));
    }
    let fields = split_fields(&sp, '/');
    let first = string_from_chars(&fields[0]);
    let idx = match d.find_subdir_index(first.as_str()) {
        Some(i) => i,
        None => {
            return (d, None);
        },
    };
    let dlen = d.subdirectories.len();
    proof {
        lemma_sub_models(d.subdirectories@, 0);
        lemma_find_subdir_bound(d@.subdirs, first@, 0);
        assert(m.subdirs.len() == dlen as int);
        assert(idx < d.subdirectories@.len());
        assert(decreases_to!(d => d.subdirectories));
        assert(decreases_to!(d.subdirectories => d.subdirectories@));
        assert(decreases_to!(d.subdirectories@ => d.subdirectories@[idx as int]));
        assert(decreases_to!(d => d.subdirectories@[idx as int]));
    }
    let mut child = Directory::new("");
    d.subdirectories.set_and_swap(idx, &mut child);
    let ghost childm = m.subdirs[idx as int];
    proof {
        assert(child@ == childm);
    }
    let (child2, r) = add_file_walk(child, &sp, file);
    let mut child2 = child2;
    d.subdirectories.set_and_swap(idx, &mut child2);
    proof {
        lemma_sub_models(d.subdirectories@, 0);
        assert(first@ == split_raw(sp@, '/')[0]);
        assert(spec_subpath(m, path@) == sp@);
        assert(sp@ != Seq::<char>::empty() && sp@ != "/"@);
        assert(find_subdir(m.subdirs, first@, 0) is Some);
        let gi = find_subdir(m.subdirs, first@, 0)->Some_0;
        lemma_find_subdir_bound(m.subdirs, first@, 0);
        assert(0 <= gi < m.subdirs.len());
        assert(m.subdirs.len() == dlen as int);
        assert(gi <= usize::MAX);
        assert(idx == gi as usize);
        assert(gi == idx as int);
        assert(find_subdir(m.subdirs, split_raw(sp@, '/')[0], 0) == Some(idx as int));
        match r {
            Some(_) => {
                assert(d@.subdirs =~= m.subdirs.update(
                    idx as int,
                    spec_add_file_at(childm, sp@, fm)->Some_0,
                ));
                assert(d@ == (DirModel {
                    subdirs: m.subdirs.update(idx as int, spec_add_file_at(childm, sp@, fm)->Some_0),
                    ..m
                }));
                assert(spec_add_file_at(m, path@, fm) == Some(d@));
            },
            None => {
                assert(spec_add_file_at(childm, sp@, fm) is None);
                assert(spec_add_file_at(m, path@, fm) is None);
                assert(d@.subdirs =~= m.subdirs);
                assert(d@ == m);
            },
        }
    }
    (d, r)
}

impl Directory {
    /// The index of the first subdirectory with the given name.
    fn find_subdir_index(&self, name: &str) -> (r: Option<usize>)
        ensures
            (match find_subdir(self@.subdirs, name@, 0) {
                None => r is None,
                Some(i) => r == Some(i as usize),
            }),
    {
        proof {
            lemma_sub_models(self.subdirectories@, 0);
        }
        let n = self.subdirectories.len();
        let mut i: usize = 0;
        while i < n
            invariant
                n == self.subdirectories@.len(),
                n == self@.subdirs.len(),
                i <= n,
                find_subdir(self@.subdirs, name@, 0) == find_subdir(self@.subdirs, name@, i as int),
            decreases n - i,
        {
            proof {
                lemma_sub_models(self.subdirectories@, 0);
                assert(self@.subdirs[i as int] == dir_model(self.subdirectories@[i as int]));
            }
            if crate::text::str_eq(self.subdirectories[i].name.as_str(), name) {
                return Some(i);
            }
            i = i + 1;
        }
        None
    }

    /// Applies one transcript listing line below the working directory:
    /// `dir <name>` adds a directory, `<size> <name>` adds a file. Reports
    /// whether the line was readable and the path resolved.
    pub fn modify_root(&mut self, working_directory: &str, entry: &str) -> (r: bool)
        ensures
            r <==> spec_modify_root(old(self)@, working_directory@, entry@) is Some,
            r ==> final(self)@ == spec_modify_root(
                old(self)@,
                working_directory@,
                entry@,
            )->Some_0,
            !r ==> final(self)@ == old(self)@,
    {
        proof {
            reveal_strlit("dir");
        }
        let cs = chars_of(entry);
        let fields = split_fields(&cs, ' ');
        if fields.len() < 2 {
            return false;
        }
        let second = string_from_chars(&fields[1]);
        if chars_eq(&fields[0], "dir") {
            let nd = Directory::new(second.as_str());
            match self.add_dir_to_path(working_directory, nd) {
                Some(_) => true,
                None => false,
            }
        } else {
            match parse_u32(&fields[0]) {
                Some(size) => {
                    let nf = File::new(second.as_str(), size);
                    match self.add_file_to_path(working_directory, nf) {
                        Some(_) => true,
                        None => false,
                    }
                },
                None => false,
            }
        }
    }
}

/// The components after applying one `cd` step list: `..` pops, anything
/// else is pushed.
pub open spec fn spec_apply_cd(parts: Seq<Seq<char>>, steps: Seq<Seq<char>>) -> Seq<Seq<char>>
    decreases steps.len(),
{
    if steps.len() == 0 {
        parts
    } else if steps[0] == ".."@ {
        spec_apply_cd(
            if parts.len() == 0 {
                parts
            } else {
                parts.drop_last()
            },
            steps.drop_first(),
        )
    } else {
        spec_apply_cd(parts.push(steps[0]), steps.drop_first())
    }
}

/// Components joined with `/` between them.
pub open spec fn spec_join(parts: Seq<Seq<char>>) -> Seq<char>
    decreases parts.len(),
{
    if parts.len() == 0 {
        Seq::empty()
    } else if parts.len() == 1 {
        parts[0]
    } else {
        parts[0] + seq!['/'] + spec_join(parts.drop_first())
    }
}

/// The working directory after a `cd`: an absolute target replaces it; a
/// relative target is applied component by component, `..` going up one
/// level, and the result is re-rooted with a leading `/`.
pub open spec fn spec_change_directory(wd: Seq<char>, target: Seq<char>) -> Seq<char> {
    if target[0] == '/' {
        target
    } else {
        seq!['/'] + spec_join(spec_apply_cd(split_raw(wd, '/'), split_raw(target, '/')))
    }
}

/// Applies a `cd` target to a working directory.
pub fn change_directory(working_dir: &str, target_dir: &str) -> (r: String)
    requires
        target_dir@.len() > 0,
    ensures
        r@ == spec_change_directory(working_dir@, target_dir@),
{
    proof {
        reveal_strlit("..");
        reveal_strlit("/");
    }
    let tcs = chars_of(target_dir);
    if tcs[0] == '/' {
        return target_dir.to_owned();
    }
    let wcs = chars_of(working_dir);
    let mut parts = split_fields(&wcs, '/');
    let steps = split_fields(&tcs, '/');
    let ghost parts0 = split_raw(working_dir@, '/');
    let ghost steps0 = split_raw(target_dir@, '/');
    let ghost goal = spec_apply_cd(parts0, steps0);
    let n = steps.len();
    proof {
        assert(steps0.skip(0) =~= steps0);
        assert(parts_model(parts@) =~= parts0);
    }
    let mut k: usize = 0;
    while k < n
        invariant
            goal == spec_apply_cd(parts0, steps0),
            n == steps@.len(),
            n == steps0.len(),
            k <= n,
            forall|j: int| 0 <= j < n ==> (#[trigger] steps@[j])@ == steps0[j],
            parts@.len() == parts_model(parts@).len(),
            goal == spec_apply_cd(parts_model(parts@), steps0.skip(k as int)),
        decreases n - k,
    {
        let ghost rest = steps0.skip(k as int);
        proof {
            assert(rest[0] == steps0[k as int]);
            assert(rest.drop_first() =~= steps0.skip(k + 1));
        }
        if chars_eq(&steps[k], "..") {
            let ghost pm = parts_model(parts@);
            if parts.len() > 0 {
                parts.pop();
                proof {
                    assert(parts_model(parts@) =~= pm.drop_last());
                }
            }
        } else {
            let ghost pm = parts_model(parts@);
            let mut comp: Vec<char> = Vec::new();
            let m = steps[k].len();
            for t in 0..m
                invariant
                    n == steps@.len(),
                    k < n,
                    m == steps@[k as int]@.len(),
                    comp@ =~= steps@[k as int]@.take(t as int),
            {
                comp.push(steps[k][t]);
                assert(comp@ =~= steps@[k as int]@.take(t + 1));
            }
            assert(comp@ =~= steps@[k as int]@);
            parts.push(comp);
            proof {
                assert(parts_model(parts@) =~= pm.push(steps0[k as int]));
            }
        }
        k = k + 1;
    }
    proof {
        assert(steps0.skip(n as int) =~= Seq::<Seq<char>>::empty());
    }
    // join the components back together under a leading slash
    let mut out: Vec<char> = Vec::new();
    out.push('/');
    let np = parts.len();
    let ghost pm = parts_model(parts@);
    let mut j: usize = 0;
    while j < np
        invariant
            np == parts@.len(),
            pm == parts_model(parts@),
            pm.len() == np,
            j <= np,
            out@ =~= seq!['/'] + spec_join(pm.take(j as int)) + (if 0 < j < np {
                seq!['/']
            } else {
                Seq::<char>::empty()
            }),
        decreases np - j,
    {
        let m = parts[j].len();
        let ghost out0 = out@;
        for t in 0..m
            invariant
                np == parts@.len(),
                j < np,
                m == parts@[j as int]@.len(),
                out@ =~= out0 + parts@[j as int]@.take(t as int),
        {
            out.push(parts[j][t]);
            assert(out@ =~= out0 + parts@[j as int]@.take(t + 1));
        }
        proof {
            assert(out@ =~= out0 + parts@[j as int]@);
            assert(parts@[j as int]@ == pm[j as int]);
        }
        if j + 1 < np {
            out.push('/');
        }
        proof {
            lemma_join_take(pm, j + 1);
        }
        j = j + 1;
    }
    proof {
        assert(pm.take(np as int) =~= pm);
    }
    string_from_chars(&out)
}

/// The views of a vector of component vectors.
pub open spec fn parts_model(parts: Seq<Vec<char>>) -> Seq<Seq<char>> {
    parts.map_values(|v: Vec<char>| v@)
}

/// Unrolling `spec_join` at the back.
proof fn lemma_join_take(pm: Seq<Seq<char>>, j: int)
    requires
        1 <= j <= pm.len(),
    ensures
        spec_join(pm.take(j)) == if j == 1 {
            pm[0]
        } else {
            spec_join(pm.take(j - 1)) + seq!['/'] + pm[j - 1]
        },
    decreases j,
{
    if j == 1 {
        assert(pm.take(1) =~= seq![pm[0]]);
        assert(spec_join(seq![pm[0]]) == pm[0]);
    } else {
        lemma_join_take(pm, j - 1);
        lemma_join_front(pm.take(j), pm.take(j - 1));
    }
}

/// Join splits around the first component.
proof fn lemma_join_front(a: Seq<Seq<char>>, b: Seq<Seq<char>>)
    requires
        a.len() >= 2,
        b =~= a.drop_last(),
    ensures
        spec_join(a) == spec_join(b) + seq!['/'] + a.last(),
    decreases a.len(),
{
    if a.len() == 2 {
        assert(a.drop_first() =~= seq![a[1]]);
        assert(spec_join(seq![a[1]]) == a[1]);
        assert(b =~= seq![a[0]]);
        assert(spec_join(b) == a[0]);
    } else {
        lemma_join_front(a.drop_first(), b.drop_first());
        assert(a.drop_first().drop_last() =~= b.drop_first());
        assert(a.drop_first().last() == a.last());
        assert(spec_join(a) == a[0] + seq!['/'] + spec_join(a.drop_first()));
        assert(spec_join(b) == b[0] + seq!['/'] + spec_join(b.drop_first()));
        assert(a[0] == b[0]);
        assert(a[0] + seq!['/'] + (spec_join(b.drop_first()) + seq!['/'] + a.last()) =~= (a[0]
            + seq!['/'] + spec_join(b.drop_first())) + seq!['/'] + a.last());
    }
}

/// Every directory below `m`, in preorder: each child followed by its own
/// descendants.
pub open spec fn all_subdirs(m: DirModel) -> Seq<DirModel>
    decreases m,
{
    subs_below(m.subdirs, 0)
}

/// The preorder flattening of the directories of `ms` from index `i` on.
pub open spec fn subs_below(ms: Seq<DirModel>, i: int) -> Seq<DirModel>
    decreases ms, ms.len() - i,
{
    if i < 0 || i >= ms.len() {
        Seq::empty()
    } else {
        seq![ms[i]] + all_subdirs(ms[i]) + subs_below(ms, i + 1)
    }
}

impl Directory {
    /// Every directory below this one, in preorder.
    pub fn get_all_sub_directories(&self) -> (r: Vec<&Directory>)
        ensures
            r@.len() == all_subdirs(self@).len(),
            forall|j: int|
                0 <= j < r@.len() ==> (#[trigger] r@[j])@ == all_subdirs(self@)[j],
        decreases *self,
    {
        let ghost ms = self@.subdirs;
        let mut all_dirs: Vec<&Directory> = Vec::new();
        proof {
            lemma_sub_models(self.subdirectories@, 0);
        }
        let n = self.subdirectories.len();
        let mut i: usize = 0;
        while i < n
            invariant
                ms == self@.subdirs,
                n == self.subdirectories@.len(),
                n == ms.len(),
                i <= n,
                all_dirs@.len() + subs_below(ms, i as int).len() == subs_below(ms, 0).len(),
                forall|j: int|
                    0 <= j < all_dirs@.len() ==> (#[trigger] all_dirs@[j])@ == subs_below(ms, 0)[j],
            decreases n - i,
        {
            let ghost len0 = all_dirs@.len() as int;
            proof {
                lemma_sub_models(self.subdirectories@, 0);
                assert(ms[i as int] == dir_model(self.subdirectories@[i as int]));
                assert(decreases_to!(*self => self.subdirectories));
                assert(decreases_to!(self.subdirectories => self.subdirectories@));
                assert(decreases_to!(self.subdirectories@ => self.subdirectories@[i as int]));
                assert(decreases_to!(*self => self.subdirectories@[i as int]));
            }
            let directory = &self.subdirectories[i];
            all_dirs.push(directory);
            let mut rest = directory.get_all_sub_directories();
            let ghost restlen = rest@.len() as int;
            all_dirs.append(&mut rest);
            proof {
                let here = subs_below(ms, i as int);
                assert(here == seq![ms[i as int]] + all_subdirs(ms[i as int]) + subs_below(
                    ms,
                    i + 1,
                ));
                assert forall|j: int|
                    0 <= j < all_dirs@.len() implies (#[trigger] all_dirs@[j])@ == subs_below(
                    ms,
                    0,
                )[j] by {
                    if j < len0 {
                    } else if j == len0 {
                        assert(all_dirs@[j]@ == ms[i as int]);
                        assert(here[0] == ms[i as int]);
                        assert(subs_below(ms, 0)[len0 + 0] == here[0]) by {
                            lemma_subs_below_split(ms, i as int, 0);
                        }
                    } else {
                        assert(all_dirs@[j]@ == all_subdirs(ms[i as int])[j - len0 - 1]);
                        assert(here[j - len0] == all_subdirs(ms[i as int])[j - len0 - 1]);
                        assert(subs_below(ms, 0)[len0 + (j - len0)] == here[j - len0]) by {
                            lemma_subs_below_split(ms, i as int, j - len0);
                        }
                    }
                }
                assert(all_dirs@.len() == len0 + 1 + restlen);
                assert(all_dirs@.len() + subs_below(ms, i + 1).len() == subs_below(ms, 0).len());
            }
            i = i + 1;
        }
        proof {
            assert(subs_below(ms, n as int).len() == 0);
        }
        all_dirs
    }
}

/// The flattening from index 0 passes through the flattening from `i`: the
/// elements of `subs_below(ms, i)` sit at the tail of `subs_below(ms, 0)`.
proof fn lemma_subs_below_split(ms: Seq<DirModel>, i: int, k: int)
    requires
        0 <= i <= ms.len(),
        0 <= k < subs_below(ms, i).len(),
    ensures
        subs_below(ms, 0).len() - subs_below(ms, i).len() + k < subs_below(ms, 0).len(),
        subs_below(ms, 0)[subs_below(ms, 0).len() - subs_below(ms, i).len() + k] == subs_below(
            ms,
            i,
        )[k],
    decreases i,
{
    if i > 0 {
        lemma_subs_below_prefix(ms, i - 1);
        lemma_subs_below_split(ms, i - 1, subs_below(ms, i - 1).len() - subs_below(ms, i).len()
            + k);
    }
}

/// One unrolling: the flattening from `i` is the entry for `ms[i]`, its
/// descendants, then the flattening from `i + 1`.
proof fn lemma_subs_below_prefix(ms: Seq<DirModel>, i: int)
    requires
        0 <= i < ms.len(),
    ensures
        subs_below(ms, i).len() == 1 + all_subdirs(ms[i]).len() + subs_below(ms, i + 1).len(),
        forall|k: int|
            0 <= k < subs_below(ms, i + 1).len() ==> #[trigger] subs_below(ms, i + 1)[k]
                == subs_below(ms, i)[1 + all_subdirs(ms[i]).len() + k],
{
    assert(subs_below(ms, i) == seq![ms[i]] + all_subdirs(ms[i]) + subs_below(ms, i + 1));
}

} // verus!
