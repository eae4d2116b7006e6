//! File selection over directory listings: extension matching and the
//! choice of the converted HTML entry file among scanned candidates.
//!
//! The surrounding application walks the filesystem and hands the file
//! names it encountered, in traversal order; the functions here decide
//! which of them is wanted.

use vstd::prelude::*;

verus! {

/// `name` ends in a dot followed by exactly `ext`, with at least one
/// character before the dot.
pub open spec fn matches_extension(name: Seq<char>, ext: Seq<char>) -> bool {
    &&& name.len() >= ext.len() + 2
    &&& name.skip(name.len() - ext.len()) == ext
    &&& name[name.len() - ext.len() - 1] == '.'
}

/// Whether `name` has extension `ext`.
pub fn has_extension(name: &str, ext: &str) -> (r: bool)
    ensures
        r == matches_extension(name@, ext@),
{
    let n = name.unicode_len();
    let m = ext.unicode_len();
    if n <= m || n - m < 2 {
        return false;
    }
    if name.get_char(n - m - 1) != '.' {
        return false;
    }
    let mut k: usize = 0;
    while k < m
        invariant
            k <= m,
            n >= m + 2,
            forall|j: int| 0 <= j < k ==> name@[n - m + j] == ext@[j],
        decreases m - k,
    {
        if name.get_char(n - m + k) != ext.get_char(k) {
            proof {
                assert(name@.skip(n - m) != ext@) by {
                    assert(name@.skip((n - m) as int)[k as int] == name@[n - m + k]);
                }
            }
            return false;
        }
        k = k + 1;
    }
    proof {
        assert(name@.skip((n - m) as int) =~= ext@);
    }
    true
}

/// Case-insensitive equality of two characters, folding only the
/// ASCII letters.
pub open spec fn char_eq_ci(a: char, b: char) -> bool {
    ||| a == b
    ||| ('A' as u32 <= a as u32 <= 'Z' as u32 && b as u32 == a as u32 + 32)
    ||| ('A' as u32 <= b as u32 <= 'Z' as u32 && a as u32 == b as u32 + 32)
}

fn chars_eq_ci(a: char, b: char) -> (r: bool)
    ensures
        r == char_eq_ci(a, b),
{
    if a == b {
        true
    } else {
        let x = a as u32;
        let y = b as u32;
        (65 <= x && x <= 90 && y == x + 32) || (65 <= y && y <= 90 && x == y + 32)
    }
}

/// The name of the preferred entry file of a converted book.
pub open spec fn index_html_name() -> Seq<char> {
    seq!['i', 'n', 'd', 'e', 'x', '.', 'h', 't', 'm', 'l']
}

/// Whether `name` is `index.html` up to ASCII case.
pub open spec fn is_index_html(name: Seq<char>) -> bool {
    name.len() == 10 && forall|k: int| 0 <= k < 10 ==> char_eq_ci(name[k], index_html_name()[k])
}

/// Whether `name` carries one of the two hypertext extensions.
pub open spec fn is_html_name(name: Seq<char>) -> bool {
    matches_extension(name, seq!['h', 't', 'm', 'l']) || matches_extension(
        name,
        seq!['h', 't', 'm'],
    )
}

fn name_is_index_html(name: &str) -> (r: bool)
    ensures
        r == is_index_html(name@),
{
    let pattern = "index.html";
    proof {
        reveal_strlit("index.html");
        assert(pattern@ =~= index_html_name());
    }
    let n = name.unicode_len();
    if n != 10 {
        return false;
    }
    let mut k: usize = 0;
    while k < 10
        invariant
            k <= 10,
            forall|j: int| 0 <= j < k ==> char_eq_ci(name@[j], index_html_name()[j]),
        decreases 10 - k,
    {
        if !chars_eq_ci(name.get_char(k), pattern.get_char(k)) {
            return false;
        }
        k = k + 1;
    }
    true
}

fn name_is_html(name: &str) -> (r: bool)
    ensures
        r == is_html_name(name@),
{
    proof {
        reveal_strlit("html");
        reveal_strlit("htm");
        assert("html"@ =~= seq!['h', 't', 'm', 'l']);
        assert("htm"@ =~= seq!['h', 't', 'm']);
    }
    has_extension(name, "html") || has_extension(name, "htm")
}

/// Index of the first name at or after `from` that is `index.html` up
/// to case, or the length if there is none.
pub open spec fn first_index_html(names: Seq<Seq<char>>, from: int) -> int
    decreases names.len() - from,
{
    if from < 0 || from >= names.len() {
        names.len() as int
    } else if is_index_html(names[from]) {
        from
    } else {
        first_index_html(names, from + 1)
    }
}

/// Index of the first name at or after `from` with a hypertext
/// extension, or the length if there is none.
pub open spec fn first_html(names: Seq<Seq<char>>, from: int) -> int
    decreases names.len() - from,
{
    if from < 0 || from >= names.len() {
        names.len() as int
    } else if is_html_name(names[from]) {
        from
    } else {
        first_html(names, from + 1)
    }
}

/// The entry file chosen among scanned file names: the first name that
/// is `index.html` (case-insensitive) if any, else the first name with
/// extension `html` or `htm`, else nothing.
pub open spec fn spec_select_html(names: Seq<Seq<char>>) -> Option<int> {
    if first_index_html(names, 0) < names.len() {
        Some(first_index_html(names, 0))
    } else if first_html(names, 0) < names.len() {
        Some(first_html(names, 0))
    } else {
        None
    }
}

/// Choose the converted book's entry file among the file names found
/// by the scan, in traversal order: a file named `index.html` in any
/// case is preferred; otherwise the first `html` or `htm` file wins.
pub fn select_html_file(entries: &Vec<String>) -> (r: Option<usize>)
    ensures
        match r {
            Some(i) => Some(i as int) == spec_select_html(entries.deep_view()),
            None => spec_select_html(entries.deep_view()) is None,
        },
{
    let ghost names = entries.deep_view();
    let mut first_plain: Option<usize> = None;
    let mut i: usize = 0;
    proof {
        assert(names.len() == entries@.len());
        assert(forall|k: int| 0 <= k < names.len() ==> names[k] == entries@[k]@);
        lemma_first_bounds(names, 0);
    }
    while i < entries.len()
        invariant
            i <= names.len(),
            first_index_html(names, 0) >= i,
            match first_plain {
                Some(p) => p < i && first_html(names, 0) == p,
                None => first_html(names, 0) >= i,
            },
        decreases names.len() - i,
    {
        proof {
            lemma_first_index_html_step(names, i as int);
            if first_plain is None {
                lemma_first_html_step(names, i as int);
            }
        }
        if name_is_index_html(entries[i].as_str()) {
            return Some(i);
        }
        if first_plain.is_none() && name_is_html(entries[i].as_str()) {
            first_plain = Some(i);
        }
        i = i + 1;
    }
    proof {
        lemma_first_bounds(names, 0);
    }
    first_plain
}

/// Unfolding of `first_index_html` from a scan position.
proof fn lemma_first_index_html_step(names: Seq<Seq<char>>, i: int)
    requires
        0 <= i < names.len(),
        first_index_html(names, 0) >= i,
    ensures
        is_index_html(names[i]) ==> first_index_html(names, 0) == i,
        !is_index_html(names[i]) ==> first_index_html(names, 0) >= i + 1,
{
    lemma_first_index_html_from(names, 0, i);
}

proof fn lemma_first_index_html_from(names: Seq<Seq<char>>, from: int, i: int)
    requires
        0 <= from <= i < names.len(),
        first_index_html(names, from) >= i,
    ensures
        is_index_html(names[i]) ==> first_index_html(names, from) == i,
        !is_index_html(names[i]) ==> first_index_html(names, from) >= i + 1,
    decreases i - from,
{
    lemma_first_bounds(names, from + 1);
    if from < i {
        lemma_first_index_html_from(names, from + 1, i);
    }
}

/// Unfolding of `first_html` from a scan position.
proof fn lemma_first_html_step(names: Seq<Seq<char>>, i: int)
    requires
        0 <= i < names.len(),
        first_html(names, 0) >= i,
    ensures
        is_html_name(names[i]) ==> first_html(names, 0) == i,
        !is_html_name(names[i]) ==> first_html(names, 0) >= i + 1,
{
    lemma_first_html_from(names, 0, i);
}

proof fn lemma_first_html_from(names: Seq<Seq<char>>, from: int, i: int)
    requires
        0 <= from <= i < names.len(),
        first_html(names, from) >= i,
    ensures
        is_html_name(names[i]) ==> first_html(names, from) == i,
        !is_html_name(names[i]) ==> first_html(names, from) >= i + 1,
    decreases i - from,
{
    lemma_first_bounds(names, from + 1);
    if from < i {
        lemma_first_html_from(names, from + 1, i);
    }
}

/// Both scans return a position between the scan start and the length.
proof fn lemma_first_bounds(names: Seq<Seq<char>>, from: int)
    requires
        0 <= from <= names.len(),
    ensures
        from <= first_index_html(names, from) <= names.len(),
        from <= first_html(names, from) <= names.len(),
    decreases names.len() - from,
{
    if from < names.len() {
        lemma_first_bounds(names, from + 1);
    }
}

} // verus!
