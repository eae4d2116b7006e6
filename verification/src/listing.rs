//! The store's listing: every book file the store holds, joined with
//! its directory's cached cover path and last-opened stamp.

use vstd::prelude::*;
use crate::codec::parse_last_opened;
use crate::codec::spec_last_opened;
use crate::model::EpubFile;
use crate::model::LibError;
use crate::model::EpubFileView;
use crate::scan::matches_extension;
use crate::store::BookDirView;
use crate::store::Library;
use crate::store::epub_ext;

verus! {

/// Path of a file inside a book's directory.
pub open spec fn file_path(root: Seq<char>, dir: Seq<char>, file: Seq<char>) -> Seq<char> {
    root + "/"@ + dir + "/"@ + file
}

/// Path of a book directory's cached cover.
pub open spec fn cover_path(root: Seq<char>, dir: Seq<char>) -> Seq<char> {
    root + "/"@ + dir + "/cover.jpg"@
}

/// Whether a directory's last-opened sidecar is readable: absent, or
/// holding exactly one decimal number.
pub open spec fn dir_stamp_ok(d: BookDirView) -> bool {
    spec_last_opened(d.last_opened_text) is Ok
}

/// The last-opened stamp of a directory whose sidecar is readable.
pub open spec fn last_opened_of(d: BookDirView) -> Option<u64> {
    match spec_last_opened(d.last_opened_text) {
        Ok(v) => v,
        Err(_) => None,
    }
}

/// The listing entry of one book file.
pub open spec fn entry_of(root: Seq<char>, name: Seq<char>, lo: Option<u64>, file: Seq<char>)
    -> EpubFileView {
    EpubFileView {
        cover: cover_path(root, name),
        path: file_path(root, name, file),
        last_opened: lo,
    }
}

/// The listing entries one directory contributes: one per book file,
/// in the order the files were listed.
pub open spec fn dir_entries(
    root: Seq<char>,
    name: Seq<char>,
    lo: Option<u64>,
    files: Seq<Seq<char>>,
) -> Seq<EpubFileView>
    decreases files.len(),
{
    if files.len() == 0 {
        Seq::empty()
    } else {
        let head: Seq<EpubFileView> = if matches_extension(files[0], epub_ext()) {
            seq![entry_of(root, name, lo, files[0])]
        } else {
            Seq::empty()
        };
        head + dir_entries(root, name, lo, files.drop_first())
    }
}

/// The whole listing: each directory's entries, in directory order.
pub open spec fn spec_listing(root: Seq<char>, dirs: Seq<BookDirView>) -> Seq<EpubFileView>
    decreases dirs.len(),
{
    if dirs.len() == 0 {
        Seq::empty()
    } else {
        dir_entries(root, dirs[0].name, last_opened_of(dirs[0]), dirs[0].files) + spec_listing(
            root,
            dirs.drop_first(),
        )
    }
}

/// The abstract entries a vector of listing entries stands for.
pub open spec fn entries_view(v: Seq<EpubFile>) -> Seq<EpubFileView> {
    Seq::new(v.len(), |i: int| v[i]@)
}

/// List every book file of the store, each with its directory's
/// cover path and last-opened stamp, in directory order. A directory
/// whose last-opened sidecar is present but malformed fails the whole
/// read as a deserialization error.
pub fn load_all_local_epub_files(lib: &Library, root: &str) -> (r: Result<Vec<EpubFile>, LibError>)
    ensures
        match r {
            Ok(entries) => entries_view(entries@) == spec_listing(root@, lib@) && forall|k: int|
                0 <= k < lib@.len() ==> dir_stamp_ok(#[trigger] lib@[k]),
            Err(e) => e == LibError::Deserialization && exists|k: int|
                0 <= k < lib@.len() && !dir_stamp_ok(#[trigger] lib@[k]),
        },
{
    let mut out: Vec<EpubFile> = Vec::new();
    let mut i: usize = 0;
    while i < lib.dirs.len()
        invariant
            i <= lib.dirs@.len(),
            entries_view(out@) == spec_listing(root@, lib@.subrange(0, i as int)),
            forall|k: int| 0 <= k < i ==> dir_stamp_ok(#[trigger] lib@[k]),
        decreases lib.dirs@.len() - i,
    {
        let ghost outer_pre = entries_view(out@);
        let d = &lib.dirs[i];
        let ghost dv = lib@[i as int];
        let stamp_text = match &d.last_opened_text {
            Some(t) => Some(t.as_str()),
            None => None,
        };
        proof {
            assert(stamp_text.deep_view() == dv.last_opened_text);
        }
        let last_opened = match parse_last_opened(stamp_text) {
            Ok(v) => v,
            Err(e) => {
                proof {
                    assert(!dir_stamp_ok(lib@[i as int]));
                }
                return Err(e);
            },
        };
        proof {
            assert(dir_stamp_ok(dv));
            assert(last_opened == last_opened_of(dv));
        }
        let mut j: usize = 0;
        while j < d.files.len()
            invariant
                j <= d.files@.len(),
                entries_view(out@) == outer_pre + dir_entries(
                    root@,
                    dv.name,
                    last_opened_of(dv),
                    dv.files.subrange(0, j as int),
                ),
            decreases d.files@.len() - j,
        {
            let ghost inner_pre = entries_view(out@);
            proof {
                assert(dv.files[j as int] == d.files@[j as int]@);
                lemma_dir_entries_snoc(root@, dv.name, last_opened_of(dv), dv.files, j as int);
            }
            if crate::scan::has_extension(d.files[j].as_str(), "epub") {
                proof {
                    reveal_strlit("epub");
                    assert("epub"@ =~= epub_ext());
                }
                let mut path = String::from_str(root);
                path.append("/");
                path.append(d.name.as_str());
                path.append("/");
                path.append(d.files[j].as_str());
                let mut cover = String::from_str(root);
                cover.append("/");
                cover.append(d.name.as_str());
                cover.append("/cover.jpg");
                out.push(EpubFile { cover, path, last_opened });
                proof {
                    assert(entries_view(out@) =~= inner_pre + seq![
                        entry_of(root@, dv.name, last_opened_of(dv), dv.files[j as int]),
                    ]);
                }
            } else {
                proof {
                    reveal_strlit("epub");
                    assert("epub"@ =~= epub_ext());
                }
            }
            proof {
                assert(entries_view(out@) =~= outer_pre + dir_entries(
                    root@,
                    dv.name,
                    last_opened_of(dv),
                    dv.files.subrange(0, j as int + 1),
                ));
            }
            j = j + 1;
        }
        proof {
            assert(dv.files.subrange(0, dv.files.len() as int) =~= dv.files);
            lemma_listing_snoc(root@, lib@, i as int);
            assert(entries_view(out@) =~= spec_listing(root@, lib@.subrange(0, i as int + 1)));
        }
        i = i + 1;
    }
    proof {
        assert(lib@.subrange(0, lib@.len() as int) =~= lib@);
    }
    Ok(out)
}

/// Directory entries restated over a file prefix growing by one.
proof fn lemma_dir_entries_snoc(
    root: Seq<char>,
    name: Seq<char>,
    lo: Option<u64>,
    files: Seq<Seq<char>>,
    j: int,
)
    requires
        0 <= j < files.len(),
    ensures
        dir_entries(root, name, lo, files.subrange(0, j + 1)) == dir_entries(
            root,
            name,
            lo,
            files.subrange(0, j),
        ) + (if matches_extension(files[j], epub_ext()) {
            seq![entry_of(root, name, lo, files[j])]
        } else {
            Seq::<EpubFileView>::empty()
        }),
    decreases j,
{
    if j == 0 {
        assert(files.subrange(0, 1) =~= seq![files[0]]);
        assert(seq![files[0]].drop_first() =~= Seq::<Seq<char>>::empty());
        assert(files.subrange(0, 0) =~= Seq::<Seq<char>>::empty());
        assert(dir_entries(root, name, lo, Seq::<Seq<char>>::empty())
            == Seq::<EpubFileView>::empty());
        assert(files.subrange(0, 1)[0] == files[0]);
        if matches_extension(files[0], epub_ext()) {
            assert(dir_entries(root, name, lo, files.subrange(0, 1)) =~= Seq::<
                EpubFileView,
            >::empty() + seq![entry_of(root, name, lo, files[0])]);
        } else {
            assert(dir_entries(root, name, lo, files.subrange(0, 1)) =~= Seq::<
                EpubFileView,
            >::empty());
        }
    } else {
        let t = files.drop_first();
        lemma_dir_entries_snoc(root, name, lo, t, j - 1);
        assert(files.subrange(0, j + 1).drop_first() =~= t.subrange(0, j));
        assert(files.subrange(0, j).drop_first() =~= t.subrange(0, j - 1));
        assert(files.subrange(0, j + 1)[0] == files[0]);
        assert(files.subrange(0, j)[0] == files[0]);
        assert(t[j - 1] == files[j]);
        let h: Seq<EpubFileView> = if matches_extension(files[0], epub_ext()) {
            seq![entry_of(root, name, lo, files[0])]
        } else {
            Seq::empty()
        };
        let tail: Seq<EpubFileView> = if matches_extension(files[j], epub_ext()) {
            seq![entry_of(root, name, lo, files[j])]
        } else {
            Seq::empty()
        };
        assert(h + (dir_entries(root, name, lo, t.subrange(0, j - 1)) + tail) =~= (h
            + dir_entries(root, name, lo, t.subrange(0, j - 1))) + tail);
    }
}

/// The listing restated over a directory prefix growing by one.
proof fn lemma_listing_snoc(root: Seq<char>, dirs: Seq<BookDirView>, i: int)
    requires
        0 <= i < dirs.len(),
    ensures
        spec_listing(root, dirs.subrange(0, i + 1)) == spec_listing(root, dirs.subrange(0, i))
            + dir_entries(root, dirs[i].name, last_opened_of(dirs[i]), dirs[i].files),
    decreases i,
{
    if i == 0 {
        assert(dirs.subrange(0, 1) =~= seq![dirs[0]]);
        assert(seq![dirs[0]].drop_first() =~= Seq::<BookDirView>::empty());
        assert(dirs.subrange(0, 0) =~= Seq::<BookDirView>::empty());
        assert(spec_listing(root, Seq::<BookDirView>::empty()) == Seq::<EpubFileView>::empty());
        assert(dirs.subrange(0, 1)[0] == dirs[0]);
        assert(spec_listing(root, dirs.subrange(0, 1)) =~= Seq::<EpubFileView>::empty()
            + dir_entries(root, dirs[0].name, last_opened_of(dirs[0]), dirs[0].files));
    } else {
        let t = dirs.drop_first();
        lemma_listing_snoc(root, t, i - 1);
        assert(dirs.subrange(0, i + 1).drop_first() =~= t.subrange(0, i));
        assert(dirs.subrange(0, i).drop_first() =~= t.subrange(0, i - 1));
        assert(dirs.subrange(0, i + 1)[0] == dirs[0]);
        assert(dirs.subrange(0, i)[0] == dirs[0]);
        assert(t[i - 1] == dirs[i]);
        let h = dir_entries(root, dirs[0].name, last_opened_of(dirs[0]), dirs[0].files);
        let tail = dir_entries(root, dirs[i].name, last_opened_of(dirs[i]), dirs[i].files);
        assert(h + (spec_listing(root, t.subrange(0, i - 1)) + tail) =~= (h + spec_listing(
            root,
            t.subrange(0, i - 1),
        )) + tail);
    }
}

} // verus!
