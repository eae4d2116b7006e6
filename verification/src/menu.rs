//! The menu's view of a book: its cover image rendered as base64 for
//! the frontend, and the media type a converted book's images are
//! served under.

use vstd::prelude::*;
use crate::listing::file_path;
use crate::model::MenuItem;
use crate::model::MenuItemView;
use crate::scan::matches_extension;
use crate::store::BookDirView;
use crate::store::Library;
use crate::store::epub_ext;

verus! {

/// The base64 rendering (standard alphabet, padded) of a byte
/// sequence. Its value is determined by the bytes alone.
pub uninterp spec fn base64_of(bytes: Seq<u8>) -> Seq<char>;

/// Relies on base64's standard engine `encode`: standard alphabet
/// with padding, four output characters for every started group of
/// three input bytes, determined by the bytes alone.
#[verifier::external_body]
fn base64_encode(bytes: &Vec<u8>) -> (r: String)
    ensures
        r@ == base64_of(bytes@),
        r@.len() == ((bytes@.len() + 2) / 3) * 4,
{
    base64::Engine::encode(&base64::engine::general_purpose::STANDARD, bytes.as_slice())
}

/// The base64 text of a cover image, as the frontend displays it.
pub fn read_cover_file(content: &Vec<u8>) -> (r: String)
    ensures
        r@ == base64_of(content@),
        r@.len() == ((content@.len() + 2) / 3) * 4,
{
    base64_encode(content)
}

/// The media type an image file is served under, decided by its
/// file-name extension.
pub open spec fn spec_mime_for(name: Seq<char>) -> Seq<char> {
    if matches_extension(name, "jpg"@) || matches_extension(name, "jpeg"@) {
        "image/jpeg"@
    } else if matches_extension(name, "png"@) {
        "image/png"@
    } else if matches_extension(name, "gif"@) {
        "image/gif"@
    } else if matches_extension(name, "svg"@) {
        "image/svg+xml"@
    } else if matches_extension(name, "webp"@) {
        "image/webp"@
    } else {
        "application/octet-stream"@
    }
}

/// Decide the media type of an image file from its name.
pub fn mime_for_image(name: &str) -> (r: &'static str)
    ensures
        r@ == spec_mime_for(name@),
{
    if crate::scan::has_extension(name, "jpg") || crate::scan::has_extension(name, "jpeg") {
        "image/jpeg"
    } else if crate::scan::has_extension(name, "png") {
        "image/png"
    } else if crate::scan::has_extension(name, "gif") {
        "image/gif"
    } else if crate::scan::has_extension(name, "svg") {
        "image/svg+xml"
    } else if crate::scan::has_extension(name, "webp") {
        "image/webp"
    } else {
        "application/octet-stream"
    }
}

/// The menu entries one directory contributes: one per book file, in
/// file order, each carrying the directory's cover text.
pub open spec fn menu_dir_entries(
    root: Seq<char>,
    name: Seq<char>,
    cover: Seq<char>,
    files: Seq<Seq<char>>,
) -> Seq<MenuItemView>
    decreases files.len(),
{
    if files.len() == 0 {
        Seq::empty()
    } else {
        let head: Seq<MenuItemView> = if matches_extension(files[0], epub_ext()) {
            seq![MenuItemView { cover, file_path: file_path(root, name, files[0]) }]
        } else {
            Seq::empty()
        };
        head + menu_dir_entries(root, name, cover, files.drop_first())
    }
}

/// The whole menu: each directory whose cover could be read
/// contributes its book files with the cover rendered as base64;
/// directories without a readable cover are skipped.
pub open spec fn spec_menu(
    root: Seq<char>,
    dirs: Seq<BookDirView>,
    covers: Seq<Option<Seq<u8>>>,
) -> Seq<MenuItemView>
    decreases dirs.len(),
{
    if dirs.len() == 0 {
        Seq::empty()
    } else {
        let head: Seq<MenuItemView> = match covers[0] {
            Some(b) => menu_dir_entries(root, dirs[0].name, base64_of(b), dirs[0].files),
            None => Seq::empty(),
        };
        head + spec_menu(root, dirs.drop_first(), covers.drop_first())
    }
}

/// The abstract entries a vector of menu items stands for.
pub open spec fn menu_view(v: Seq<MenuItem>) -> Seq<MenuItemView> {
    Seq::new(v.len(), |i: int| v[i]@)
}

/// Join every book file of the store with its directory's cover,
/// rendered as base64. `covers` holds, directory by directory, the
/// cover bytes the application could read; a directory whose cover
/// could not be read is left out, as the menu cannot show it.
pub fn get_all_local_files(lib: &Library, root: &str, covers: &Vec<Option<Vec<u8>>>) -> (r: Vec<
    MenuItem,
>)
    requires
        covers@.len() == lib@.len(),
    ensures
        menu_view(r@) == spec_menu(root@, lib@, covers.deep_view()),
{
    let ghost cvs = covers.deep_view();
    proof {
        assert(cvs.len() == covers@.len());
    }
    let mut out: Vec<MenuItem> = Vec::new();
    let mut i: usize = 0;
    while i < lib.dirs.len()
        invariant
            i <= lib.dirs@.len(),
            menu_view(out@) == spec_menu(
                root@,
                lib@.subrange(0, i as int),
                cvs.subrange(0, i as int),
            ),
        decreases lib.dirs@.len() - i,
    {
        let ghost outer_pre = menu_view(out@);
        let d = &lib.dirs[i];
        let ghost dv = lib@[i as int];
        proof {
            assert(cvs[i as int] == (match covers@[i as int] {
                Some(b) => Some(b@),
                None => None,
            }));
            lemma_menu_snoc(root@, lib@, cvs, i as int);
        }
        match &covers[i] {
            Some(bytes) => {
                let cover = base64_encode(bytes);
                let ghost cb = base64_of(bytes@);
                let mut j: usize = 0;
                while j < d.files.len()
                    invariant
                        j <= d.files@.len(),
                        menu_view(out@) == outer_pre + menu_dir_entries(
                            root@,
                            dv.name,
                            cb,
                            dv.files.subrange(0, j as int),
                        ),
                    decreases d.files@.len() - j,
                {
                    let ghost inner_pre = menu_view(out@);
                    proof {
                        assert(dv.files[j as int] == d.files@[j as int]@);
                        lemma_menu_dir_entries_snoc(root@, dv.name, cb, dv.files, j as int);
                    }
                    if crate::scan::has_extension(d.files[j].as_str(), "epub") {
                        proof {
                            reveal_strlit("epub");
                            assert("epub"@ =~= epub_ext());
                        }
                        let mut path = String::from_str(root);
                        path.append("/");
                        path.append(d.name.as_str());
                        path.append("/");
                        path.append(d.files[j].as_str());
                        out.push(MenuItem { cover: cover.clone(), file_path: path });
                        proof {
                            assert(menu_view(out@) =~= inner_pre + seq![
                                MenuItemView {
                                    cover: cb,
                                    file_path: file_path(root@, dv.name, dv.files[j as int]),
                                },
                            ]);
                        }
                    } else {
                        proof {
                            reveal_strlit("epub");
                            assert("epub"@ =~= epub_ext());
                        }
                    }
                    proof {
                        assert(menu_view(out@) =~= outer_pre + menu_dir_entries(
                            root@,
                            dv.name,
                            cb,
                            dv.files.subrange(0, j as int + 1),
                        ));
                    }
                    j = j + 1;
                }
                proof {
                    assert(dv.files.subrange(0, dv.files.len() as int) =~= dv.files);
                    assert(menu_view(out@) =~= spec_menu(
                        root@,
                        lib@.subrange(0, i as int + 1),
                        cvs.subrange(0, i as int + 1),
                    ));
                }
            },
            None => {
                proof {
                    assert(menu_view(out@) =~= spec_menu(
                        root@,
                        lib@.subrange(0, i as int + 1),
                        cvs.subrange(0, i as int + 1),
                    ));
                }
            },
        }
        i = i + 1;
    }
    proof {
        assert(lib@.subrange(0, lib@.len() as int) =~= lib@);
        assert(cvs.subrange(0, cvs.len() as int) =~= cvs);
    }
    out
}

/// Menu entries restated over a file prefix growing by one.
proof fn lemma_menu_dir_entries_snoc(
    root: Seq<char>,
    name: Seq<char>,
    cover: Seq<char>,
    files: Seq<Seq<char>>,
    j: int,
)
    requires
        0 <= j < files.len(),
    ensures
        menu_dir_entries(root, name, cover, files.subrange(0, j + 1)) == menu_dir_entries(
            root,
            name,
            cover,
            files.subrange(0, j),
        ) + (if matches_extension(files[j], epub_ext()) {
            seq![MenuItemView { cover, file_path: file_path(root, name, files[j]) }]
        } else {
            Seq::<MenuItemView>::empty()
        }),
    decreases j,
{
    if j == 0 {
        assert(files.subrange(0, 1) =~= seq![files[0]]);
        assert(seq![files[0]].drop_first() =~= Seq::<Seq<char>>::empty());
        assert(files.subrange(0, 0) =~= Seq::<Seq<char>>::empty());
        assert(menu_dir_entries(root, name, cover, Seq::<Seq<char>>::empty()) == Seq::<
            MenuItemView,
        >::empty());
        assert(files.subrange(0, 1)[0] == files[0]);
        if matches_extension(files[0], epub_ext()) {
            assert(menu_dir_entries(root, name, cover, files.subrange(0, 1)) =~= Seq::<
                MenuItemView,
            >::empty() + seq![
                MenuItemView { cover, file_path: file_path(root, name, files[0]) },
            ]);
        } else {
            assert(menu_dir_entries(root, name, cover, files.subrange(0, 1)) =~= Seq::<
                MenuItemView,
            >::empty());
        }
    } else {
        let t = files.drop_first();
        lemma_menu_dir_entries_snoc(root, name, cover, t, j - 1);
        assert(files.subrange(0, j + 1).drop_first() =~= t.subrange(0, j));
        assert(files.subrange(0, j).drop_first() =~= t.subrange(0, j - 1));
        assert(files.subrange(0, j + 1)[0] == files[0]);
        assert(files.subrange(0, j)[0] == files[0]);
        assert(t[j - 1] == files[j]);
        let h: Seq<MenuItemView> = if matches_extension(files[0], epub_ext()) {
            seq![MenuItemView { cover, file_path: file_path(root, name, files[0]) }]
        } else {
            Seq::empty()
        };
        let tail: Seq<MenuItemView> = if matches_extension(files[j], epub_ext()) {
            seq![MenuItemView { cover, file_path: file_path(root, name, files[j]) }]
        } else {
            Seq::empty()
        };
        assert(h + (menu_dir_entries(root, name, cover, t.subrange(0, j - 1)) + tail) =~= (h
            + menu_dir_entries(root, name, cover, t.subrange(0, j - 1))) + tail);
    }
}

/// The menu restated over a directory prefix growing by one.
proof fn lemma_menu_snoc(
    root: Seq<char>,
    dirs: Seq<BookDirView>,
    covers: Seq<Option<Seq<u8>>>,
    i: int,
)
    requires
        0 <= i < dirs.len(),
        dirs.len() <= covers.len(),
    ensures
        spec_menu(root, dirs.subrange(0, i + 1), covers.subrange(0, i + 1)) == spec_menu(
            root,
            dirs.subrange(0, i),
            covers.subrange(0, i),
        ) + (match covers[i] {
            Some(b) => menu_dir_entries(root, dirs[i].name, base64_of(b), dirs[i].files),
            None => Seq::<MenuItemView>::empty(),
        }),
    decreases i,
{
    if i == 0 {
        assert(dirs.subrange(0, 1) =~= seq![dirs[0]]);
        assert(seq![dirs[0]].drop_first() =~= Seq::<BookDirView>::empty());
        assert(dirs.subrange(0, 0) =~= Seq::<BookDirView>::empty());
        assert(covers.subrange(0, 1).drop_first() =~= covers.subrange(1, 1));
        assert(spec_menu(root, Seq::<BookDirView>::empty(), covers.subrange(1, 1)) == Seq::<
            MenuItemView,
        >::empty());
        assert(spec_menu(root, Seq::<BookDirView>::empty(), covers.subrange(0, 0)) == Seq::<
            MenuItemView,
        >::empty());
        assert(dirs.subrange(0, 1)[0] == dirs[0]);
        assert(covers.subrange(0, 1)[0] == covers[0]);
        match covers[0] {
            Some(b) => {
                assert(spec_menu(root, dirs.subrange(0, 1), covers.subrange(0, 1))
                    =~= Seq::<MenuItemView>::empty() + menu_dir_entries(
                    root,
                    dirs[0].name,
                    base64_of(b),
                    dirs[0].files,
                ));
            },
            None => {
                assert(spec_menu(root, dirs.subrange(0, 1), covers.subrange(0, 1)) =~= Seq::<
                    MenuItemView,
                >::empty());
            },
        }
    } else {
        let td = dirs.drop_first();
        let tc = covers.drop_first();
        lemma_menu_snoc(root, td, tc, i - 1);
        assert(dirs.subrange(0, i + 1).drop_first() =~= td.subrange(0, i));
        assert(dirs.subrange(0, i).drop_first() =~= td.subrange(0, i - 1));
        assert(covers.subrange(0, i + 1).drop_first() =~= tc.subrange(0, i));
        assert(covers.subrange(0, i).drop_first() =~= tc.subrange(0, i - 1));
        assert(dirs.subrange(0, i + 1)[0] == dirs[0]);
        assert(dirs.subrange(0, i)[0] == dirs[0]);
        assert(covers.subrange(0, i + 1)[0] == covers[0]);
        assert(covers.subrange(0, i)[0] == covers[0]);
        assert(td[i - 1] == dirs[i]);
        assert(tc[i - 1] == covers[i]);
        let h: Seq<MenuItemView> = match covers[0] {
            Some(b) => menu_dir_entries(root, dirs[0].name, base64_of(b), dirs[0].files),
            None => Seq::empty(),
        };
        let tail: Seq<MenuItemView> = match covers[i] {
            Some(b) => menu_dir_entries(root, dirs[i].name, base64_of(b), dirs[i].files),
            None => Seq::empty(),
        };
        assert(h + (spec_menu(root, td.subrange(0, i - 1), tc.subrange(0, i - 1)) + tail) =~= (h
            + spec_menu(root, td.subrange(0, i - 1), tc.subrange(0, i - 1))) + tail);
    }
}

} // verus!
