//! Data model: marks and bookmarks of one book, the listing entry of an
//! imported book, and the error taxonomy shared by the whole library.

use vstd::prelude::*;

verus! {

/// Error categories surfaced by the library. The host turns them into
/// user-visible messages; the categories themselves are the contract.
#[derive(Clone, Copy, Debug, PartialEq, Eq, Structural)]
pub enum LibError {
    /// A filesystem open/read/write/copy/create failure.
    Io,
    /// A missing parent directory, file-name component, or converted file.
    NotFound,
    /// A sidecar file was present but malformed.
    Deserialization,
    /// A transport failure or non-success status from the conversion service.
    Network,
    /// Neither an embedded cover nor the bundled default cover is available.
    Cover,
}

/// One saved reading position inside a book.
#[derive(Debug)]
pub struct Mark {
    /// Page number; at most one mark exists per page.
    pub page: u32,
    /// Text the reader attached to the mark.
    pub content: String,
    /// Window width when the mark was created.
    pub width: u32,
    /// Window height when the mark was created.
    pub height: u32,
    /// Content fragment identifier locating the exact position.
    pub cfi: String,
}

/// Mathematical value of a `Mark`: the strings abstracted to their
/// character sequences.
pub struct MarkView {
    pub page: u32,
    pub content: Seq<char>,
    pub width: u32,
    pub height: u32,
    pub cfi: Seq<char>,
}

impl View for Mark {
    type V = MarkView;

    open spec fn view(&self) -> MarkView {
        MarkView {
            page: self.page,
            content: self.content@,
            width: self.width,
            height: self.height,
            cfi: self.cfi@,
        }
    }
}

impl Clone for Mark {
    fn clone(&self) -> (r: Self)
        ensures
            r@ == self@,
    {
        Mark {
            page: self.page,
            content: self.content.clone(),
            width: self.width,
            height: self.height,
            cfi: self.cfi.clone(),
        }
    }
}

/// The set of saved reading positions of one book, keyed by the book's
/// resolved local path.
#[derive(Debug)]
pub struct BookMark {
    /// Resolved local path of the book's primary content file.
    pub book_path: String,
    /// Marks in insertion order of their (distinct) pages.
    pub list: Vec<Mark>,
}

/// Mathematical value of a `BookMark`.
pub struct BookMarkView {
    pub book_path: Seq<char>,
    pub list: Seq<MarkView>,
}

impl View for BookMark {
    type V = BookMarkView;

    open spec fn view(&self) -> BookMarkView {
        BookMarkView { book_path: self.book_path@, list: Seq::new(self.list@.len(), |i: int| self.list@[i]@) }
    }
}

impl Clone for BookMark {
    fn clone(&self) -> (r: Self)
        ensures
            r@ == self@,
    {
        let mut list: Vec<Mark> = Vec::new();
        let mut i: usize = 0;
        while i < self.list.len()
            invariant
                i <= self.list.len(),
                list@.len() == i,
                forall|k: int| 0 <= k < i ==> list@[k]@ == self.list@[k]@,
            decreases self.list.len() - i,
        {
            list.push(self.list[i].clone());
            i = i + 1;
        }
        let r = BookMark { book_path: self.book_path.clone(), list };
        proof {
            assert(r@.list =~= self@.list);
        }
        r
    }
}

/// One book of the store's listing: its cached cover image, the path
/// of the book file, and when it was last opened.
#[derive(Debug)]
pub struct EpubFile {
    /// Path of the cached cover image.
    pub cover: String,
    /// Path of the book file.
    pub path: String,
    /// Unix timestamp of the last opening, if one was recorded.
    pub last_opened: Option<u64>,
}

/// Mathematical value of an `EpubFile`.
pub struct EpubFileView {
    pub cover: Seq<char>,
    pub path: Seq<char>,
    pub last_opened: Option<u64>,
}

impl View for EpubFile {
    type V = EpubFileView;

    open spec fn view(&self) -> EpubFileView {
        EpubFileView { cover: self.cover@, path: self.path@, last_opened: self.last_opened }
    }
}

/// One entry of the books menu: a cover image rendered as base64 and
/// the path of the book file it belongs to.
#[derive(Debug)]
pub struct MenuItem {
    /// Base64 text of the directory's cover image.
    pub cover: String,
    /// Path of the book file.
    pub file_path: String,
}

/// Mathematical value of a `MenuItem`.
pub struct MenuItemView {
    pub cover: Seq<char>,
    pub file_path: Seq<char>,
}

impl View for MenuItem {
    type V = MenuItemView;

    open spec fn view(&self) -> MenuItemView {
        MenuItemView { cover: self.cover@, file_path: self.file_path@ }
    }
}

/// One result of an online book search.
#[derive(Debug)]
pub struct BookSearchResult {
    /// Book title.
    pub title: String,
    /// Author name.
    pub author: String,
    /// Address of the cover image.
    pub cover_image: String,
    /// Short description of the book.
    pub description: String,
    /// Address of the details page.
    pub details_url: String,
    /// Address the book can be downloaded from.
    pub download_url: String,
}

/// Reading preferences of the whole application. The line height is
/// held in tenths, so that a height of one and four tenths is 14.
#[derive(Debug)]
pub struct ReaderStyle {
    /// Font family name.
    pub font_family: String,
    /// Font size in points.
    pub font_size: u32,
    /// Line height in tenths of the font size.
    pub line_height_tenths: u32,
    /// Name of the colour theme.
    pub theme: String,
}

/// Mathematical value of a `ReaderStyle`.
pub struct ReaderStyleView {
    pub font_family: Seq<char>,
    pub font_size: u32,
    pub line_height_tenths: u32,
    pub theme: Seq<char>,
}

impl View for ReaderStyle {
    type V = ReaderStyleView;

    open spec fn view(&self) -> ReaderStyleView {
        ReaderStyleView {
            font_family: self.font_family@,
            font_size: self.font_size,
            line_height_tenths: self.line_height_tenths,
            theme: self.theme@,
        }
    }
}

/// The style used until the first save: a serif face at size 18 with
/// a line height of one and four tenths, and no named theme.
pub open spec fn default_style() -> ReaderStyleView {
    ReaderStyleView {
        font_family: "Noto Serif"@,
        font_size: 18,
        line_height_tenths: 14,
        theme: ""@,
    }
}

impl Default for ReaderStyle {
    fn default() -> (r: Self)
        ensures
            r@ == default_style(),
    {
        let r = ReaderStyle {
            font_family: String::from_str("Noto Serif"),
            font_size: 18,
            line_height_tenths: 14,
            theme: String::new(),
        };
        proof {
            reveal_strlit("");
            assert(r@.theme =~= ""@);
        }
        r
    }
}

impl Clone for ReaderStyle {
    fn clone(&self) -> (r: Self)
        ensures
            r@ == self@,
    {
        ReaderStyle {
            font_family: self.font_family.clone(),
            font_size: self.font_size,
            line_height_tenths: self.line_height_tenths,
            theme: self.theme.clone(),
        }
    }
}

/// Well-formedness of a mark list: at most one mark per page.
pub open spec fn wf_marks(s: Seq<MarkView>) -> bool {
    forall|i: int, j: int| 0 <= i < j < s.len() ==> s[i].page != s[j].page
}

/// Effect of adding a mark: the first mark with an equal page is
/// overwritten in place; otherwise the mark is appended.
pub open spec fn spec_add_mark(s: Seq<MarkView>, m: MarkView) -> Seq<MarkView>
    decreases s.len(),
{
    if s.len() == 0 {
        seq![m]
    } else if s[0].page == m.page {
        seq![m] + s.drop_first()
    } else {
        seq![s[0]] + spec_add_mark(s.drop_first(), m)
    }
}

/// Effect of removing a page: every mark with that page is dropped,
/// the order of the rest is kept.
pub open spec fn spec_remove_mark(s: Seq<MarkView>, page: u32) -> Seq<MarkView>
    decreases s.len(),
{
    if s.len() == 0 {
        Seq::empty()
    } else if s[0].page == page {
        spec_remove_mark(s.drop_first(), page)
    } else {
        seq![s[0]] + spec_remove_mark(s.drop_first(), page)
    }
}

/// The marks of `s` whose page equals `page`, in order.
pub open spec fn marks_with_page(s: Seq<MarkView>, page: u32) -> Seq<MarkView>
    decreases s.len(),
{
    if s.len() == 0 {
        Seq::empty()
    } else if s[0].page == page {
        seq![s[0]] + marks_with_page(s.drop_first(), page)
    } else {
        marks_with_page(s.drop_first(), page)
    }
}

impl BookMark {
    /// A fresh, empty bookmark bound to the given book path.
    pub fn new(book_path: String) -> (r: Self)
        ensures
            r@.book_path == book_path@,
            r@.list == Seq::<MarkView>::empty(),
    {
        let r = BookMark { book_path, list: Vec::new() };
        proof {
            assert(r@.list =~= Seq::<MarkView>::empty());
        }
        r
    }

    /// Add a mark for `page`, or overwrite the existing one: last write
    /// wins, and a page never appears twice.
    pub fn add_mark(&mut self, page: u32, content: String, width: u32, height: u32, cfi: String)
        ensures
            final(self)@.book_path == old(self)@.book_path,
            final(self)@.list == spec_add_mark(
                old(self)@.list,
                MarkView { page, content: content@, width, height, cfi: cfi@ },
            ),
            wf_marks(old(self)@.list) ==> wf_marks(final(self)@.list),
    {
        let ghost m = MarkView { page, content: content@, width, height, cfi: cfi@ };
        let ghost s0 = self@.list;
        let mut i: usize = 0;
        while i < self.list.len()
            invariant
                i <= self.list.len(),
                self@.list == s0,
                self@.book_path == old(self)@.book_path,
                forall|k: int| 0 <= k < i ==> s0[k].page != page,
            decreases self.list.len() - i,
        {
            if self.list[i].page == page {
                proof {
                    assert(s0[i as int].page == page);
                }
                self.list[i] = Mark { page, content, width, height, cfi };
                proof {
                    assert(self@.list =~= s0.update(i as int, m));
                    lemma_add_mark_update(s0, m, i as int);
                    lemma_add_mark_wf(s0, m);
                }
                return;
            }
            i = i + 1;
        }
        self.list.push(Mark { page, content, width, height, cfi });
        proof {
            assert(self@.list =~= s0.push(m));
            lemma_add_mark_push(s0, m);
            lemma_add_mark_wf(s0, m);
        }
    }

    /// Remove every mark for `page`; marks for other pages are untouched.
    pub fn remove_mark(&mut self, page: u32)
        ensures
            final(self)@.book_path == old(self)@.book_path,
            final(self)@.list == spec_remove_mark(old(self)@.list, page),
            wf_marks(old(self)@.list) ==> wf_marks(final(self)@.list),
    {
        let ghost s0 = self@.list;
        let mut out: Vec<Mark> = Vec::new();
        let mut i: usize = 0;
        while i < self.list.len()
            invariant
                i <= self.list.len(),
                self@.list == s0,
                self@.book_path == old(self)@.book_path,
                Seq::new(out@.len(), |k: int| out@[k]@) == spec_remove_mark(
                    s0.subrange(0, i as int),
                    page,
                ),
            decreases self.list.len() - i,
        {
            let ghost ov = Seq::new(out@.len(), |k: int| out@[k]@);
            proof {
                assert(s0[i as int] == self.list@[i as int]@);
                lemma_remove_mark_snoc(s0, i as int, page);
            }
            if self.list[i].page != page {
                let m = self.list[i].clone();
                out.push(m);
                proof {
                    assert(Seq::new(out@.len(), |k: int| out@[k]@) =~= ov + seq![
                        s0[i as int],
                    ]);
                }
            }
            i = i + 1;
        }
        proof {
            assert(s0.subrange(0, i as int) =~= s0);
        }
        self.list = out;
        proof {
            lemma_remove_mark_keeps_others(s0, page);
        }
    }
}

/// When the first mark with the new mark's page stands at `i`, adding
/// overwrites exactly that position.
proof fn lemma_add_mark_update(s: Seq<MarkView>, m: MarkView, i: int)
    requires
        0 <= i < s.len(),
        s[i].page == m.page,
        forall|k: int| 0 <= k < i ==> s[k].page != m.page,
    ensures
        spec_add_mark(s, m) == s.update(i, m),
    decreases s.len(),
{
    if i == 0 {
        assert(spec_add_mark(s, m) == seq![m] + s.drop_first());
        assert(seq![m] + s.drop_first() =~= s.update(0, m));
    } else {
        assert(s.drop_first()[i - 1].page == m.page);
        lemma_add_mark_update(s.drop_first(), m, i - 1);
        assert(seq![s[0]] + s.drop_first().update(i - 1, m) =~= s.update(i, m));
    }
}

/// When no mark has the new mark's page, adding appends it.
proof fn lemma_add_mark_push(s: Seq<MarkView>, m: MarkView)
    requires
        forall|k: int| 0 <= k < s.len() ==> s[k].page != m.page,
    ensures
        spec_add_mark(s, m) == s.push(m),
    decreases s.len(),
{
    if s.len() == 0 {
        assert(seq![m] =~= s.push(m));
    } else {
        lemma_add_mark_push(s.drop_first(), m);
        assert(seq![s[0]] + s.drop_first().push(m) =~= s.push(m));
    }
}

/// Adding a mark keeps the one-mark-per-page invariant.
proof fn lemma_add_mark_wf(s: Seq<MarkView>, m: MarkView)
    ensures
        wf_marks(s) ==> wf_marks(spec_add_mark(s, m)),
{
    if wf_marks(s) {
        let j = first_page_index(s, m.page, 0);
        lemma_first_page_index(s, m.page, 0);
        if j < s.len() {
            lemma_add_mark_update(s, m, j);
            let r = s.update(j, m);
            assert forall|x: int, y: int| 0 <= x < y < r.len() implies (#[trigger] r[x]).page
                != (#[trigger] r[y]).page by {
                assert(s[x].page == if x == j { s[j].page } else { s[x].page });
            }
        } else {
            lemma_add_mark_push(s, m);
            let r = s.push(m);
            assert forall|x: int, y: int| 0 <= x < y < r.len() implies (#[trigger] r[x]).page
                != (#[trigger] r[y]).page by {
                if y == s.len() {
                    assert(r[x] == s[x] && r[y] == m);
                } else {
                    assert(r[x] == s[x] && r[y] == s[y]);
                }
            }
        }
    }
}

impl BookMark {
    /// Apply one bookmark command: the removal action deletes the
    /// page's mark, any other adds or updates it with the given
    /// fields; a missing locator is stored as the empty string.
    pub fn apply_action(
        &mut self,
        page: u32,
        content: String,
        width: u32,
        height: u32,
        cfi: Option<String>,
        action: Option<u32>,
    )
        ensures
            final(self)@.book_path == old(self)@.book_path,
            final(self)@.list == (if action == Some(1u32) {
                spec_remove_mark(old(self)@.list, page)
            } else {
                spec_add_mark(
                    old(self)@.list,
                    MarkView {
                        page,
                        content: content@,
                        width,
                        height,
                        cfi: match cfi {
                            Some(c) => c@,
                            None => Seq::empty(),
                        },
                    },
                )
            }),
            wf_marks(old(self)@.list) ==> wf_marks(final(self)@.list),
    {
        let is_remove = match &action {
            Some(a) => *a == 1,
            None => false,
        };
        if is_remove {
            self.remove_mark(page);
        } else {
            let c = match cfi {
                Some(c) => c,
                None => String::new(),
            };
            self.add_mark(page, content, width, height, c);
        }
    }
}

/// Law: adding two marks for the same page is the same as adding only
/// the second; the first write is overwritten entirely.
pub proof fn lemma_add_mark_last_write_wins(s: Seq<MarkView>, m1: MarkView, m2: MarkView)
    requires
        m1.page == m2.page,
    ensures
        spec_add_mark(spec_add_mark(s, m1), m2) == spec_add_mark(s, m2),
    decreases s.len(),
{
    if s.len() == 0 {
        assert(spec_add_mark(s, m1) == seq![m1]);
        assert(seq![m1].drop_first() =~= Seq::<MarkView>::empty());
        assert(seq![m2] + seq![m1].drop_first() =~= seq![m2]);
    } else if s[0].page == m1.page {
        let t = s.drop_first();
        assert(spec_add_mark(s, m1) == seq![m1] + t);
        assert((seq![m1] + t)[0] == m1);
        assert((seq![m1] + t).drop_first() =~= t);
    } else {
        let t = s.drop_first();
        lemma_add_mark_last_write_wins(t, m1, m2);
        assert(spec_add_mark(s, m1) == seq![s[0]] + spec_add_mark(t, m1));
        assert((seq![s[0]] + spec_add_mark(t, m1))[0] == s[0]);
        assert((seq![s[0]] + spec_add_mark(t, m1)).len() > 0);
        assert((seq![s[0]] + spec_add_mark(t, m1)).drop_first() =~= spec_add_mark(t, m1));
    }
}

/// Law: after adding a mark to a well-formed list, exactly that mark
/// stands for its page.
pub proof fn lemma_add_mark_exactly_one(s: Seq<MarkView>, m: MarkView)
    requires
        wf_marks(s),
    ensures
        marks_with_page(spec_add_mark(s, m), m.page) == seq![m],
    decreases s.len(),
{
    if s.len() == 0 {
        assert(spec_add_mark(s, m) == seq![m]);
        assert(seq![m].drop_first() =~= Seq::<MarkView>::empty());
        assert(marks_with_page(Seq::<MarkView>::empty(), m.page) == Seq::<MarkView>::empty());
        assert(seq![m][0] == m);
        assert(marks_with_page(seq![m], m.page) =~= seq![m]);
    } else if s[0].page == m.page {
        let t = s.drop_first();
        let r = seq![m] + t;
        assert(r[0] == m);
        assert(r.drop_first() =~= t);
        assert(forall|k: int| 0 <= k < t.len() ==> (#[trigger] t[k]).page != m.page) by {
            assert(forall|k: int| 0 <= k < t.len() ==> t[k] == s[k + 1]);
        }
        lemma_marks_with_page_absent(t, m.page);
        assert(marks_with_page(r, m.page) =~= seq![m]);
    } else {
        let t = s.drop_first();
        lemma_add_mark_exactly_one(t, m);
        let r = seq![s[0]] + spec_add_mark(t, m);
        assert(r[0] == s[0]);
        assert(r.drop_first() =~= spec_add_mark(t, m));
    }
}

/// Law: removing a page leaves no mark for it, and marks for every
/// other page exactly as they were.
pub proof fn lemma_remove_mark_effect(s: Seq<MarkView>, page: u32, other: u32)
    requires
        other != page,
    ensures
        marks_with_page(spec_remove_mark(s, page), page) == Seq::<MarkView>::empty(),
        marks_with_page(spec_remove_mark(s, page), other) == marks_with_page(s, other),
    decreases s.len(),
{
    lemma_remove_mark_keeps_others(s, page);
    lemma_marks_with_page_absent(spec_remove_mark(s, page), page);
    if s.len() == 0 {
    } else {
        let t = s.drop_first();
        lemma_remove_mark_effect(t, page, other);
        if s[0].page == page {
        } else {
            let r = seq![s[0]] + spec_remove_mark(t, page);
            assert(r[0] == s[0]);
            assert(r.drop_first() =~= spec_remove_mark(t, page));
        }
    }
}

/// A list without the page has no marks for it.
proof fn lemma_marks_with_page_absent(s: Seq<MarkView>, page: u32)
    requires
        forall|k: int| 0 <= k < s.len() ==> (#[trigger] s[k]).page != page,
    ensures
        marks_with_page(s, page) == Seq::<MarkView>::empty(),
    decreases s.len(),
{
    if s.len() > 0 {
        assert(forall|k: int| 0 <= k < s.drop_first().len() ==> s.drop_first()[k] == s[k + 1]);
        lemma_marks_with_page_absent(s.drop_first(), page);
    }
}

/// Index of the first mark at or after `from` whose page is `page`,
/// or the length of `s` if there is none.
spec fn first_page_index(s: Seq<MarkView>, page: u32, from: int) -> int
    decreases s.len() - from,
{
    if from < 0 || from >= s.len() {
        s.len() as int
    } else if s[from].page == page {
        from
    } else {
        first_page_index(s, page, from + 1)
    }
}

proof fn lemma_first_page_index(s: Seq<MarkView>, page: u32, from: int)
    requires
        0 <= from <= s.len(),
    ensures
        from <= first_page_index(s, page, from) <= s.len(),
        first_page_index(s, page, from) < s.len() ==> s[first_page_index(s, page, from)].page
            == page,
        forall|k: int|
            from <= k < first_page_index(s, page, from) ==> s[k].page != page,
        (exists|k: int| from <= k < s.len() && s[k].page == page) ==> first_page_index(
            s,
            page,
            from,
        ) < s.len(),
    decreases s.len() - from,
{
    if from < s.len() && s[from].page != page {
        lemma_first_page_index(s, page, from + 1);
    }
}

/// Removing, restated over a prefix growing by one element.
proof fn lemma_remove_mark_snoc(s: Seq<MarkView>, j: int, page: u32)
    requires
        0 <= j < s.len(),
    ensures
        s[j].page == page ==> spec_remove_mark(s.subrange(0, j + 1), page) == spec_remove_mark(
            s.subrange(0, j),
            page,
        ),
        s[j].page != page ==> spec_remove_mark(s.subrange(0, j + 1), page) == spec_remove_mark(
            s.subrange(0, j),
            page,
        ) + seq![s[j]],
    decreases j,
{
    if j == 0 {
        assert(s.subrange(0, 1) =~= seq![s[0]]);
        assert(s.subrange(0, 0) =~= Seq::<MarkView>::empty());
        assert(seq![s[0]].drop_first() =~= Seq::<MarkView>::empty());
        if s[0].page != page {
            assert(spec_remove_mark(seq![s[0]], page) =~= spec_remove_mark(
                Seq::empty(),
                page,
            ) + seq![s[0]]);
        }
    } else {
        let t = s.drop_first();
        lemma_remove_mark_snoc(t, j - 1, page);
        assert(s.subrange(0, j + 1).drop_first() =~= t.subrange(0, j));
        assert(s.subrange(0, j).drop_first() =~= t.subrange(0, j - 1));
        assert(s.subrange(0, j + 1)[0] == s[0]);
        assert(s.subrange(0, j)[0] == s[0]);
        assert(t[j - 1] == s[j]);
        if s[0].page == page {
            assert(spec_remove_mark(s.subrange(0, j + 1), page) == spec_remove_mark(
                t.subrange(0, j),
                page,
            ));
            assert(spec_remove_mark(s.subrange(0, j), page) == spec_remove_mark(
                t.subrange(0, j - 1),
                page,
            ));
        } else {
            assert(spec_remove_mark(s.subrange(0, j + 1), page) == seq![s[0]]
                + spec_remove_mark(t.subrange(0, j), page));
            assert(spec_remove_mark(s.subrange(0, j), page) == seq![s[0]] + spec_remove_mark(
                t.subrange(0, j - 1),
                page,
            ));
            if s[j].page != page {
                assert(seq![s[0]] + (spec_remove_mark(t.subrange(0, j - 1), page) + seq![s[j]])
                    =~= (seq![s[0]] + spec_remove_mark(t.subrange(0, j - 1), page))
                    + seq![s[j]]);
            }
        }
    }
}

/// Removing a page leaves none of that page behind, keeps only marks
/// that already stood in the input, and keeps the invariant.
proof fn lemma_remove_mark_keeps_others(s: Seq<MarkView>, page: u32)
    ensures
        forall|k: int|
            0 <= k < spec_remove_mark(s, page).len() ==> (#[trigger] spec_remove_mark(s, page)[k]).page != page,
        forall|k: int|
            0 <= k < spec_remove_mark(s, page).len() ==> exists|w: int|
                0 <= w < s.len() && #[trigger] s[w] == #[trigger] spec_remove_mark(s, page)[k],
        wf_marks(s) ==> wf_marks(spec_remove_mark(s, page)),
    decreases s.len(),
{
    let r = spec_remove_mark(s, page);
    if s.len() == 0 {
    } else {
        let t = s.drop_first();
        let rt = spec_remove_mark(t, page);
        lemma_remove_mark_keeps_others(t, page);
        assert(forall|w: int| 0 <= w < t.len() ==> #[trigger] t[w] == s[w + 1]);
        if s[0].page == page {
            assert(r == rt);
            assert forall|k: int| 0 <= k < r.len() implies exists|w: int|
                0 <= w < s.len() && #[trigger] s[w] == #[trigger] r[k] by {
                let w0 = choose|w0: int| 0 <= w0 < t.len() && t[w0] == rt[k];
                assert(s[w0 + 1] == r[k]);
            }
            if wf_marks(s) {
                assert(wf_marks(t));
            }
        } else {
            assert(r == seq![s[0]] + rt);
            assert forall|k: int| 0 <= k < r.len() implies exists|w: int|
                0 <= w < s.len() && #[trigger] s[w] == #[trigger] r[k] by {
                if k == 0 {
                    assert(s[0] == r[0]);
                } else {
                    assert(r[k] == rt[k - 1]);
                    let w0 = choose|w0: int| 0 <= w0 < t.len() && t[w0] == rt[k - 1];
                    assert(s[w0 + 1] == r[k]);
                }
            }
            if wf_marks(s) {
                assert(wf_marks(t));
                assert forall|i: int, j: int|
                    0 <= i < j < r.len() implies (#[trigger] r[i]).page != (#[trigger] r[j]).page by {
                    if i == 0 {
                        assert(r[j] == rt[j - 1]);
                        let w = choose|w: int| 0 <= w < t.len() && t[w] == rt[j - 1];
                        assert(s[0].page != s[w + 1].page);
                    } else {
                        assert(r[i] == rt[i - 1] && r[j] == rt[j - 1]);
                    }
                }
            }
        }
    }
}

} // verus!
