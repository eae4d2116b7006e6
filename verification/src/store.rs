//! The content-addressed library store: one directory per imported
//! book, identified by the fingerprint of the book's bytes. Importing
//! content that the store already holds returns the existing entry and
//! changes nothing; new content gets a fresh directory named by its
//! fingerprint, holding the book file and a hash sidecar.
//!
//! The structures here model what stands on disk under the store's
//! books directory; the surrounding application reads the directory
//! tree into them and performs the actions the import decides.
//!
//! Known limitation: the check-then-create sequence is not atomic.
//! Two concurrent imports of the same new content can both miss the
//! lookup and create two directories; callers that may overlap must
//! serialize imports per fingerprint themselves.

use vstd::prelude::*;
use crate::scan::matches_extension;
use crate::text::{clone_opt_string, clone_string_vec};

verus! {

/// One per-book directory, as found on disk: its name, the names of
/// the plain files in it, and the contents of its two text sidecars,
/// when present.
pub struct BookDir {
    /// Name of the directory under the books directory.
    pub name: String,
    /// Names of the plain files inside the directory.
    pub files: Vec<String>,
    /// Contents of the hash sidecar file, if that file exists.
    pub hash_text: Option<String>,
    /// Contents of the last-opened sidecar file, if that file exists.
    pub last_opened_text: Option<String>,
}

/// Mathematical value of a `BookDir`.
pub struct BookDirView {
    pub name: Seq<char>,
    pub files: Seq<Seq<char>>,
    pub hash_text: Option<Seq<char>>,
    pub last_opened_text: Option<Seq<char>>,
}

impl View for BookDir {
    type V = BookDirView;

    open spec fn view(&self) -> BookDirView {
        BookDirView {
            name: self.name@,
            files: self.files.deep_view(),
            hash_text: self.hash_text.deep_view(),
            last_opened_text: self.last_opened_text.deep_view(),
        }
    }
}

/// The store: every per-book directory currently on disk, in the
/// order the application listed them.
pub struct Library {
    pub dirs: Vec<BookDir>,
}

impl View for Library {
    type V = Seq<BookDirView>;

    open spec fn view(&self) -> Seq<BookDirView> {
        Seq::new(self.dirs@.len(), |i: int| self.dirs@[i]@)
    }
}

/// A directory holds the content with fingerprint `h` if it is named
/// by the fingerprint, or its hash sidecar records it.
pub open spec fn dir_matches(d: BookDirView, h: Seq<char>) -> bool {
    d.name == h || d.hash_text == Some(h)
}

/// The dedup invariant: no two directories hold the same fingerprint.
pub open spec fn lib_wf(dirs: Seq<BookDirView>) -> bool {
    forall|i: int, j: int, h: Seq<char>|
        0 <= i < j < dirs.len() ==> !(#[trigger] dir_matches(dirs[i], h)
            && #[trigger] dir_matches(dirs[j], h))
}

/// Index of the first directory at or after `from` holding `h`, or
/// the length if there is none.
pub open spec fn first_match(dirs: Seq<BookDirView>, h: Seq<char>, from: int) -> int
    decreases dirs.len() - from,
{
    if from < 0 || from >= dirs.len() {
        dirs.len() as int
    } else if dir_matches(dirs[from], h) {
        from
    } else {
        first_match(dirs, h, from + 1)
    }
}

/// The book-file extension of the store.
pub open spec fn epub_ext() -> Seq<char> {
    seq!['e', 'p', 'u', 'b']
}

/// Index of the first book file at or after `from`, or the length if
/// there is none.
pub open spec fn first_epub(files: Seq<Seq<char>>, from: int) -> int
    decreases files.len() - from,
{
    if from < 0 || from >= files.len() {
        files.len() as int
    } else if matches_extension(files[from], epub_ext()) {
        from
    } else {
        first_epub(files, from + 1)
    }
}

/// The directory a fresh import creates: named by the fingerprint,
/// holding the book file and the hash sidecar.
pub open spec fn new_book_dir(h: Seq<char>, file_name: Seq<char>) -> BookDirView {
    BookDirView { name: h, files: seq![file_name], hash_text: Some(h), last_opened_text: None }
}

/// The store after importing content with fingerprint `h` carried by
/// a file named `file_name`: on a hit nothing changes, unless the
/// matched directory lost its book file, in which case the file is
/// restored into it; on a miss a fresh directory is appended.
pub open spec fn spec_import(dirs: Seq<BookDirView>, h: Seq<char>, file_name: Seq<char>) -> Seq<
    BookDirView,
> {
    let i = first_match(dirs, h, 0);
    if i < dirs.len() {
        if first_epub(dirs[i].files, 0) < dirs[i].files.len() {
            dirs
        } else {
            dirs.update(
                i,
                BookDirView {
                    name: dirs[i].name,
                    files: dirs[i].files.push(file_name),
                    hash_text: dirs[i].hash_text,
                    last_opened_text: dirs[i].last_opened_text,
                },
            )
        }
    } else {
        dirs.push(new_book_dir(h, file_name))
    }
}

/// The directory that holds the content after the import: the hit's
/// directory, or the fresh one named by the fingerprint.
pub open spec fn spec_import_dir_name(dirs: Seq<BookDirView>, h: Seq<char>) -> Seq<char> {
    let i = first_match(dirs, h, 0);
    if i < dirs.len() {
        dirs[i].name
    } else {
        h
    }
}

/// What the surrounding application must do after an import decision.
pub struct ImportResult {
    /// Name of the directory that holds the entry.
    pub dir_name: String,
    /// Name of the book file inside that directory.
    pub book_file: String,
    /// Whether a fresh directory must be created on disk, with its
    /// hash sidecar written.
    pub created: bool,
    /// Whether the origin file must be copied into the directory.
    pub needs_copy: bool,
}

impl Library {
    /// Index of the directory holding fingerprint `h`, if any: a
    /// directory named by `h`, or one whose hash sidecar records `h`.
    pub fn find_entry(&self, h: &String) -> (r: Option<usize>)
        ensures
            match r {
                Some(i) => i as int == first_match(self@, h@, 0) && i < self@.len(),
                None => first_match(self@, h@, 0) == self@.len(),
            },
    {
        let ghost dirs = self@;
        proof {
            lemma_first_match_bounds(dirs, h@, 0);
        }
        let mut i: usize = 0;
        while i < self.dirs.len()
            invariant
                i <= dirs.len(),
                first_match(dirs, h@, 0) >= i,
            decreases dirs.len() - i,
        {
            proof {
                lemma_first_match_step(dirs, h@, i as int);
            }
            let d = &self.dirs[i];
            let name_hit = d.name == *h;
            let hash_hit = match &d.hash_text {
                Some(t) => *t == *h,
                None => false,
            };
            if name_hit || hash_hit {
                proof {
                    assert(dir_matches(dirs[i as int], h@));
                }
                return Some(i);
            }
            proof {
                assert(!dir_matches(dirs[i as int], h@));
            }
            i = i + 1;
        }
        None
    }

    /// Import content with fingerprint `h` arriving in a file named
    /// `file_name`: return the existing entry when one holds `h`, and
    /// create a fresh directory named by `h` otherwise. A hit mutates
    /// nothing, unless the directory lost its book file; then the
    /// file is copied back in.
    pub fn import_or_locate(&mut self, h: &String, file_name: &String) -> (r: ImportResult)
        ensures
            final(self)@ == spec_import(old(self)@, h@, file_name@),
            r.dir_name@ == spec_import_dir_name(old(self)@, h@),
            r.created <==> first_match(old(self)@, h@, 0) == old(self)@.len(),
            r.created ==> r.needs_copy,
            ({
                let i = first_match(old(self)@, h@, 0);
                i < old(self)@.len() ==> {
                    let files = old(self)@[i].files;
                    &&& (r.needs_copy <==> first_epub(files, 0) == files.len())
                    &&& (first_epub(files, 0) < files.len() ==> r.book_file@ == files[first_epub(
                        files,
                        0,
                    )])
                    &&& (first_epub(files, 0) == files.len() ==> r.book_file@ == file_name@)
                }
            }),
            r.created ==> r.book_file@ == file_name@,
            lib_wf(old(self)@) ==> lib_wf(final(self)@),
    {
        let ghost dirs0 = self@;
        let found = self.find_entry(h);
        proof {
            if lib_wf(dirs0) {
                lemma_import_preserves_wf(dirs0, h@, file_name@);
            }
        }
        match found {
            Some(i) => {
                let ghost iv = i as int;
                let dir_name = self.dirs[i].name.clone();
                let book = find_book_file(&self.dirs[i].files);
                match book {
                    Some(j) => {
                        let book_file = self.dirs[i].files[j].clone();
                        ImportResult { dir_name, book_file, created: false, needs_copy: false }
                    },
                    None => {
                        let mut nf = clone_string_vec(&self.dirs[i].files);
                        nf.push(file_name.clone());
                        let nd = BookDir {
                            name: self.dirs[i].name.clone(),
                            files: nf,
                            hash_text: clone_opt_string(&self.dirs[i].hash_text),
                            last_opened_text: clone_opt_string(&self.dirs[i].last_opened_text),
                        };
                        self.dirs[i] = nd;
                        proof {
                            assert(self.dirs@[iv]@.files =~= dirs0[iv].files.push(file_name@));
                            assert(self@ =~= dirs0.update(
                                iv,
                                BookDirView {
                                    name: dirs0[iv].name,
                                    files: dirs0[iv].files.push(file_name@),
                                    hash_text: dirs0[iv].hash_text,
                                    last_opened_text: dirs0[iv].last_opened_text,
                                },
                            ));
                        }
                        ImportResult {
                            dir_name,
                            book_file: file_name.clone(),
                            created: false,
                            needs_copy: true,
                        }
                    },
                }
            },
            None => {
                let mut files: Vec<String> = Vec::new();
                files.push(file_name.clone());
                let d = BookDir {
                    name: h.clone(),
                    files,
                    hash_text: Some(h.clone()),
                    last_opened_text: None,
                };
                proof {
                    assert(d@.files =~= seq![file_name@]);
                    assert(d@ == new_book_dir(h@, file_name@));
                }
                self.dirs.push(d);
                proof {
                    assert(self@ =~= dirs0.push(new_book_dir(h@, file_name@)));
                }
                ImportResult {
                    dir_name: h.clone(),
                    book_file: file_name.clone(),
                    created: true,
                    needs_copy: true,
                }
            },
        }
    }
}

/// Index of the first book file in a directory's listing, if any.
pub fn find_book_file(files: &Vec<String>) -> (r: Option<usize>)
    ensures
        match r {
            Some(j) => j as int == first_epub(files.deep_view(), 0) && j < files@.len(),
            None => first_epub(files.deep_view(), 0) == files.deep_view().len(),
        },
{
    let ghost names = files.deep_view();
    proof {
        assert(names.len() == files@.len());
        assert(forall|k: int| 0 <= k < names.len() ==> names[k] == files@[k]@);
        lemma_first_epub_bounds(names, 0);
    }
    let mut j: usize = 0;
    while j < files.len()
        invariant
            j <= names.len(),
            first_epub(names, 0) >= j,
        decreases names.len() - j,
    {
        proof {
            lemma_first_epub_step(names, j as int);
        }
        if crate::scan::has_extension(files[j].as_str(), "epub") {
            proof {
                reveal_strlit("epub");
                assert("epub"@ =~= epub_ext());
            }
            return Some(j);
        }
        proof {
            reveal_strlit("epub");
            assert("epub"@ =~= epub_ext());
        }
        j = j + 1;
    }
    None
}

proof fn lemma_first_match_bounds(dirs: Seq<BookDirView>, h: Seq<char>, from: int)
    requires
        0 <= from <= dirs.len(),
    ensures
        from <= first_match(dirs, h, from) <= dirs.len(),
    decreases dirs.len() - from,
{
    if from < dirs.len() {
        lemma_first_match_bounds(dirs, h, from + 1);
    }
}

proof fn lemma_first_match_step(dirs: Seq<BookDirView>, h: Seq<char>, i: int)
    requires
        0 <= i < dirs.len(),
        first_match(dirs, h, 0) >= i,
    ensures
        dir_matches(dirs[i], h) ==> first_match(dirs, h, 0) == i,
        !dir_matches(dirs[i], h) ==> first_match(dirs, h, 0) >= i + 1,
{
    lemma_first_match_from(dirs, h, 0, i);
}

proof fn lemma_first_match_from(dirs: Seq<BookDirView>, h: Seq<char>, from: int, i: int)
    requires
        0 <= from <= i < dirs.len(),
        first_match(dirs, h, from) >= i,
    ensures
        dir_matches(dirs[i], h) ==> first_match(dirs, h, from) == i,
        !dir_matches(dirs[i], h) ==> first_match(dirs, h, from) >= i + 1,
    decreases i - from,
{
    lemma_first_match_bounds(dirs, h, from + 1);
    if from < i {
        lemma_first_match_from(dirs, h, from + 1, i);
    }
}

/// The first match is a match, and nothing before it matches.
pub proof fn lemma_first_match_found(dirs: Seq<BookDirView>, h: Seq<char>, from: int)
    requires
        0 <= from <= dirs.len(),
    ensures
        from <= first_match(dirs, h, from) <= dirs.len(),
        first_match(dirs, h, from) < dirs.len() ==> dir_matches(dirs[first_match(dirs, h, from)], h),
        forall|k: int| from <= k < first_match(dirs, h, from) ==> !dir_matches(#[trigger] dirs[k], h),
        (exists|k: int| from <= k < dirs.len() && dir_matches(#[trigger] dirs[k], h))
            ==> first_match(dirs, h, from) < dirs.len(),
    decreases dirs.len() - from,
{
    if from < dirs.len() && !dir_matches(dirs[from], h) {
        lemma_first_match_found(dirs, h, from + 1);
    } else {
        lemma_first_match_bounds(dirs, h, from);
    }
}

proof fn lemma_first_epub_bounds(files: Seq<Seq<char>>, from: int)
    requires
        0 <= from <= files.len(),
    ensures
        from <= first_epub(files, from) <= files.len(),
    decreases files.len() - from,
{
    if from < files.len() {
        lemma_first_epub_bounds(files, from + 1);
    }
}

proof fn lemma_first_epub_step(files: Seq<Seq<char>>, i: int)
    requires
        0 <= i < files.len(),
        first_epub(files, 0) >= i,
    ensures
        matches_extension(files[i], epub_ext()) ==> first_epub(files, 0) == i,
        !matches_extension(files[i], epub_ext()) ==> first_epub(files, 0) >= i + 1,
{
    lemma_first_epub_from(files, 0, i);
}

proof fn lemma_first_epub_from(files: Seq<Seq<char>>, from: int, i: int)
    requires
        0 <= from <= i < files.len(),
        first_epub(files, from) >= i,
    ensures
        matches_extension(files[i], epub_ext()) ==> first_epub(files, from) == i,
        !matches_extension(files[i], epub_ext()) ==> first_epub(files, from) >= i + 1,
    decreases i - from,
{
    lemma_first_epub_bounds(files, from + 1);
    if from < i {
        lemma_first_epub_from(files, from + 1, i);
    }
}

/// If some file is a book file, the scan finds one.
proof fn lemma_first_epub_exists(files: Seq<Seq<char>>, from: int)
    requires
        0 <= from <= files.len(),
    ensures
        (exists|k: int|
            from <= k < files.len() && matches_extension(#[trigger] files[k], epub_ext()))
            ==> first_epub(files, from) < files.len(),
    decreases files.len() - from,
{
    if from < files.len() && !matches_extension(files[from], epub_ext()) {
        lemma_first_epub_exists(files, from + 1);
    }
}

/// An import keeps the dedup invariant: a hit changes no directory's
/// identity, and a fresh directory answers only to a fingerprint that
/// no other directory held.
proof fn lemma_import_preserves_wf(dirs: Seq<BookDirView>, h: Seq<char>, file_name: Seq<char>)
    requires
        lib_wf(dirs),
    ensures
        lib_wf(spec_import(dirs, h, file_name)),
{
    lemma_first_match_found(dirs, h, 0);
    let i = first_match(dirs, h, 0);
    let r = spec_import(dirs, h, file_name);
    if i < dirs.len() {
        if first_epub(dirs[i].files, 0) < dirs[i].files.len() {
        } else {
            assert forall|x: int, y: int, g: Seq<char>|
                0 <= x < y < r.len() implies !(#[trigger] dir_matches(r[x], g)
                && #[trigger] dir_matches(r[y], g)) by {
                assert(dir_matches(r[x], g) == dir_matches(dirs[x], g));
                assert(dir_matches(r[y], g) == dir_matches(dirs[y], g));
            }
        }
    } else {
        assert forall|x: int, y: int, g: Seq<char>|
            0 <= x < y < r.len() implies !(#[trigger] dir_matches(r[x], g) && #[trigger] dir_matches(
            r[y],
            g,
        )) by {
            if y == dirs.len() {
                if dir_matches(r[y], g) {
                    assert(r[y] == new_book_dir(h, file_name));
                    assert(g == h);
                    assert(!dir_matches(dirs[x], h));
                }
            } else {
                assert(dir_matches(r[x], g) == dir_matches(dirs[x], g));
                assert(dir_matches(r[y], g) == dir_matches(dirs[y], g));
            }
        }
    }
}

/// Law: after an import, exactly one directory holds the fingerprint;
/// re-importing never creates a second entry.
pub proof fn lemma_import_dedup(dirs: Seq<BookDirView>, h: Seq<char>, file_name: Seq<char>)
    requires
        lib_wf(dirs),
    ensures
        lib_wf(spec_import(dirs, h, file_name)),
        ({
            let r = spec_import(dirs, h, file_name);
            let i = first_match(r, h, 0);
            &&& i < r.len()
            &&& dir_matches(r[i], h)
            &&& forall|k: int| 0 <= k < r.len() && k != i ==> !dir_matches(#[trigger] r[k], h)
        }),
{
    lemma_import_preserves_wf(dirs, h, file_name);
    lemma_first_match_found(dirs, h, 0);
    let i0 = first_match(dirs, h, 0);
    let r = spec_import(dirs, h, file_name);
    lemma_first_match_found(r, h, 0);
    if i0 < dirs.len() {
        assert(dir_matches(r[i0], h));
        lemma_first_epub_bounds(dirs[i0].files, 0);
    } else {
        assert(r[dirs.len() as int] == new_book_dir(h, file_name));
        assert(dir_matches(r[dirs.len() as int], h));
    }
    let i = first_match(r, h, 0);
    assert(exists|k: int| 0 <= k < r.len() && dir_matches(#[trigger] r[k], h));
    assert(i < r.len());
    assert forall|k: int| 0 <= k < r.len() && k != i implies !dir_matches(#[trigger] r[k], h) by {
        if k < i {
        } else {
            assert(lib_wf(r));
            assert(!(dir_matches(r[i], h) && dir_matches(r[k], h)));
        }
    }
}

/// Law: importing byte-identical content twice, whatever the second
/// file's name, changes nothing the second time and lands in the same
/// directory.
pub proof fn lemma_import_idempotent(
    dirs: Seq<BookDirView>,
    h: Seq<char>,
    f1: Seq<char>,
    f2: Seq<char>,
)
    requires
        lib_wf(dirs),
        matches_extension(f1, epub_ext()),
    ensures
        spec_import(spec_import(dirs, h, f1), h, f2) == spec_import(dirs, h, f1),
        spec_import_dir_name(spec_import(dirs, h, f1), h) == spec_import_dir_name(dirs, h),
{
    lemma_first_match_found(dirs, h, 0);
    let i0 = first_match(dirs, h, 0);
    let l1 = spec_import(dirs, h, f1);
    lemma_first_match_found(l1, h, 0);
    let i1 = first_match(l1, h, 0);
    if i0 < dirs.len() {
        assert(dir_matches(l1[i0], h));
        assert(forall|k: int| 0 <= k < i0 ==> !dir_matches(#[trigger] l1[k], h)) by {
            assert(forall|k: int| 0 <= k < i0 ==> l1[k] == dirs[k]);
        }
        lemma_first_match_char(l1, h, i0);
        assert(i1 == i0);
        if first_epub(dirs[i0].files, 0) < dirs[i0].files.len() {
            assert(l1 == dirs);
        } else {
            let nf = dirs[i0].files.push(f1);
            assert(l1[i0].files == nf);
            assert(nf[nf.len() - 1] == f1);
            lemma_first_epub_exists(nf, 0);
            assert(first_epub(nf, 0) < nf.len());
            assert(spec_import(l1, h, f2) == l1);
        }
        assert(spec_import_dir_name(l1, h) == l1[i0].name);
        assert(l1[i0].name == dirs[i0].name);
    } else {
        let n = dirs.len() as int;
        assert(l1 == dirs.push(new_book_dir(h, f1)));
        assert(dir_matches(l1[n], h));
        assert(forall|k: int| 0 <= k < n ==> !dir_matches(#[trigger] l1[k], h)) by {
            assert(forall|k: int| 0 <= k < n ==> l1[k] == dirs[k]);
        }
        lemma_first_match_char(l1, h, n);
        assert(i1 == n);
        assert(l1[n].files == seq![f1]);
        assert(l1[n].files[0] == f1);
        lemma_first_epub_exists(l1[n].files, 0);
        assert(first_epub(l1[n].files, 0) < l1[n].files.len());
        assert(spec_import(l1, h, f2) == l1);
        assert(spec_import_dir_name(l1, h) == l1[n].name);
        assert(l1[n].name == h);
    }
}

/// Law: importing the same file content twice, even from files of
/// different names, lands in the same directory and leaves the store
/// exactly as the first import left it: the fingerprint is computed
/// from the bytes alone, and the store never grows a second entry
/// for it.
pub proof fn lemma_import_same_content(
    dirs: Seq<BookDirView>,
    bytes: Seq<u8>,
    f1: Seq<char>,
    f2: Seq<char>,
)
    requires
        lib_wf(dirs),
        matches_extension(f1, epub_ext()),
    ensures
        ({
            let h = crate::hash::fingerprint_of(bytes);
            let once = spec_import(dirs, h, f1);
            &&& spec_import(once, h, f2) == once
            &&& spec_import_dir_name(once, h) == spec_import_dir_name(dirs, h)
            &&& lib_wf(once)
        }),
{
    let h = crate::hash::fingerprint_of(bytes);
    lemma_import_idempotent(dirs, h, f1, f2);
    lemma_import_preserves_wf(dirs, h, f1);
}

/// A position that matches, with nothing matching before it, is the
/// first match.
proof fn lemma_first_match_char(dirs: Seq<BookDirView>, h: Seq<char>, i: int)
    requires
        0 <= i < dirs.len(),
        dir_matches(dirs[i], h),
        forall|k: int| 0 <= k < i ==> !dir_matches(#[trigger] dirs[k], h),
    ensures
        first_match(dirs, h, 0) == i,
{
    lemma_first_match_found(dirs, h, 0);
    let f = first_match(dirs, h, 0);
    assert(exists|k: int| 0 <= k < dirs.len() && dir_matches(#[trigger] dirs[k], h));
    assert(f < dirs.len());
    if f < i {
        assert(!dir_matches(dirs[f], h));
    }
    if f > i {
        assert(!dir_matches(dirs[i], h));
    }
}

} // verus!
