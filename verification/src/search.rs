//! Address building for the online book search and for a downloaded
//! book's place under the application data root.

use vstd::prelude::*;
use crate::codec::dec_rep;
use crate::codec::push_dec_u64;
use crate::text::chars_to_string;

verus! {

/// The address of a keyword search: the search endpoint, the keyword,
/// and the page number when it is past the first.
pub fn search_url_for(keyword: &str, page: u32) -> (s: String)
    ensures
        page == 1 ==> s@ == "https://digilibraries.com/search/"@ + "/"@ + keyword@,
        page != 1 ==> s@ == "https://digilibraries.com/search/"@ + "/"@ + keyword@ + "/"@
            + dec_rep(page as nat),
{
    let mut s = String::from_str("https://digilibraries.com/search/");
    s.append("/");
    s.append(keyword);
    if page != 1 {
        s.append("/");
        let mut digits: Vec<char> = Vec::new();
        push_dec_u64(&mut digits, page as u64);
        let page_text = chars_to_string(&digits);
        s.append(page_text.as_str());
        proof {
            assert(digits@ =~= dec_rep(page as nat));
        }
    }
    s
}

/// The place a downloaded book is stored under the application data
/// root, named by its title.
pub fn download_path_for(data_root: &str, title: &str) -> (s: String)
    ensures
        s@ == data_root@ + "/epub/"@ + title@ + ".epub"@,
{
    let mut s = String::from_str(data_root);
    s.append("/epub/");
    s.append(title);
    s.append(".epub");
    s
}

} // verus!
