//! The conversion flow's decisions: what a book's directory still
//! lacks before a conversion is attempted, whether a converted entry
//! file already exists, the address the converted archive is fetched
//! from, and which of several conversion attempts' outcomes is kept.

use vstd::prelude::*;
use crate::scan::spec_select_html;
use crate::scan::select_html_file;
use crate::store::BookDir;

verus! {

/// What the surrounding application must still do to a book's
/// directory, and whether a converted entry file is already there.
pub struct ConversionPlan {
    /// The hash sidecar is missing and must be written.
    pub write_hash: bool,
    /// The book file itself is missing and must be copied in.
    pub copy_epub: bool,
    /// The cover cache file is missing and must be resolved.
    pub write_cover: bool,
    /// Index, among the scanned extraction files, of an entry file
    /// of an earlier conversion; nothing means the book must be
    /// uploaded for conversion.
    pub existing_html: Option<usize>,
}

/// Whether a directory's listing holds a file of the given name.
pub fn dir_contains_file(files: &Vec<String>, name: &String) -> (r: bool)
    ensures
        r == files.deep_view().contains(name@),
{
    let ghost names = files.deep_view();
    let mut i: usize = 0;
    while i < files.len()
        invariant
            i <= names.len(),
            forall|k: int| 0 <= k < i ==> names[k] != name@,
        decreases names.len() - i,
    {
        proof {
            assert(names[i as int] == files@[i as int]@);
        }
        if files[i] == *name {
            proof {
                assert(names.contains(name@)) by {
                    assert(names[i as int] == name@);
                }
            }
            return true;
        }
        i = i + 1;
    }
    proof {
        assert(forall|k: int| 0 <= k < names.len() ==> names[k] != name@);
    }
    false
}

/// Decide what the conversion flow must do for a book: restore any
/// missing pieces of its directory, and reuse an earlier conversion's
/// entry file when the scan of the extraction directory found one.
pub fn plan_conversion(dir: &BookDir, epub_name: &String, extracted: &Vec<String>) -> (r:
    ConversionPlan)
    ensures
        r.write_hash == (dir@.hash_text is None),
        r.copy_epub == !dir@.files.contains(epub_name@),
        r.write_cover == !dir@.files.contains("cover.jpg"@),
        match r.existing_html {
            Some(i) => Some(i as int) == spec_select_html(extracted.deep_view()),
            None => spec_select_html(extracted.deep_view()) is None,
        },
{
    let write_hash = match &dir.hash_text {
        Some(_) => false,
        None => true,
    };
    let copy_epub = !dir_contains_file(&dir.files, epub_name);
    let cover_name = String::from_str("cover.jpg");
    let write_cover = !dir_contains_file(&dir.files, &cover_name);
    let existing_html = select_html_file(extracted);
    ConversionPlan { write_hash, copy_epub, write_cover, existing_html }
}

/// The address the converted archive is downloaded from, for the
/// identifier the conversion service returned.
pub fn download_url_for(id: &str) -> (s: String)
    ensures
        s@ == "https://products.fileformat.app/zh/word-processing/conversion/Download?id="@
            + id@,
{
    let mut s = String::from_str(
        "https://products.fileformat.app/zh/word-processing/conversion/Download?id=",
    );
    s.append(id);
    s
}

/// The outcome kept among several conversion attempts, in order: the
/// last success, if there was any.
pub open spec fn spec_last_ok(rs: Seq<Result<Seq<char>, Seq<char>>>) -> Option<Seq<char>>
    decreases rs.len(),
{
    if rs.len() == 0 {
        None
    } else {
        match rs.last() {
            Ok(p) => Some(p),
            Err(_) => spec_last_ok(rs.drop_last()),
        }
    }
}

/// The abstract outcomes a vector of attempt results stands for.
pub open spec fn results_view(rs: Seq<Result<String, String>>) -> Seq<
    Result<Seq<char>, Seq<char>>,
> {
    Seq::new(
        rs.len(),
        |i: int|
            match rs[i] {
                Ok(p) => Ok(p@),
                Err(e) => Err(e@),
            },
    )
}

/// The last successful path among the attempts' outcomes, if any.
pub fn last_successful_path(results: &Vec<Result<String, String>>) -> (r: Option<String>)
    ensures
        match r {
            Some(p) => spec_last_ok(results_view(results@)) == Some(p@),
            None => spec_last_ok(results_view(results@)) is None,
        },
{
    let ghost rs = results_view(results@);
    proof {
        assert(rs.len() == results@.len());
        assert(rs.subrange(0, rs.len() as int) =~= rs);
    }
    let mut k = results.len();
    while k > 0
        invariant
            k <= rs.len(),
            spec_last_ok(rs) == spec_last_ok(rs.subrange(0, k as int)),
        decreases k,
    {
        k = k - 1;
        proof {
            assert(rs.subrange(0, k as int + 1).last() == rs.subrange(0, k as int + 1)[k as int]);
            assert(rs.subrange(0, k as int + 1)[k as int] == rs[k as int]);
            assert(rs[k as int] == match results@[k as int] {
                Ok(p) => Ok::<Seq<char>, Seq<char>>(p@),
                Err(e) => Err::<Seq<char>, Seq<char>>(e@),
            });
            assert(rs.subrange(0, k as int + 1).drop_last() =~= rs.subrange(0, k as int));
        }
        match &results[k] {
            Ok(p) => {
                proof {
                    assert(rs[k as int] == Ok::<Seq<char>, Seq<char>>(p@));
                }
                return Some(p.clone());
            },
            Err(_) => {
            },
        }
    }
    proof {
        assert(rs.subrange(0, 0) =~= Seq::<Result<Seq<char>, Seq<char>>>::empty());
    }
    None
}

} // verus!
