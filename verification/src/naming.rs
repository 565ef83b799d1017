//! The names of the files that the command-line front end writes.
use vstd::prelude::*;

use crate::text::{decimal, decimal_string};

verus! {

/// `n` in decimal, padded with a leading zero to at least two digits.
pub open spec fn two_digits(n: nat) -> Seq<char> {
    if n < 10 {
        seq!['0'] + decimal(n)
    } else {
        decimal(n)
    }
}

/// The name of one page of a multi-page output: `{stem}_{page:02}.{ext}`.
pub open spec fn paged_name(stem: Seq<char>, page: nat, ext: Seq<char>) -> Seq<char> {
    stem + seq!['_'] + two_digits(page) + seq!['.'] + ext
}

/// The name of the main part of a split page: `{stem}_p{page:02}_main.svg`.
pub open spec fn split_main_name(stem: Seq<char>, page: nat) -> Seq<char> {
    stem + "_p"@ + two_digits(page) + "_main.svg"@
}

/// The name of one rectangle of a split page:
/// `{stem}_p{page:02}_rect{index:02}.svg`.
pub open spec fn split_rect_name(stem: Seq<char>, page: nat, index: nat) -> Seq<char> {
    stem + "_p"@ + two_digits(page) + "_rect"@ + two_digits(index) + ".svg"@
}

/// Appends `n` with at least two digits.
fn push_two_digits(s: &mut String, n: usize)
    ensures
        final(s)@ == old(s)@ + two_digits(n as nat),
{
    proof {
        reveal_strlit("0");
    }
    if n < 10 {
        s.append("0");
    }
    s.append(decimal_string(n as u64).as_str());
}

/// The file name of page `page` when several pages are written:
/// `{stem}_{page:02}.{ext}`.
pub fn paged_file_name(stem: &str, page: usize, ext: &str) -> (r: String)
    ensures
        r@ == paged_name(stem@, page as nat, ext@),
{
    proof {
        reveal_strlit("_");
        reveal_strlit(".");
    }
    let mut s = String::from_str(stem);
    s.append("_");
    push_two_digits(&mut s, page);
    s.append(".");
    s.append(ext);
    s
}

/// The name of an output file made in a directory: `{stem}_{page:02}.{ext}`
/// when several pages are written, `{stem}.{ext}` for a single page.
pub open spec fn output_name(stem: Seq<char>, page: nat, ext: Seq<char>, multi_page: bool) -> Seq<char> {
    if multi_page {
        paged_name(stem, page, ext)
    } else {
        stem + seq!['.'] + ext
    }
}

/// The file name under which page `page` is written into a directory.
pub fn output_file_name(stem: &str, page: usize, ext: &str, multi_page: bool) -> (r: String)
    ensures
        r@ == output_name(stem@, page as nat, ext@, multi_page),
{
    if multi_page {
        paged_file_name(stem, page, ext)
    } else {
        proof {
            reveal_strlit(".");
        }
        let mut s = String::from_str(stem);
        s.append(".");
        s.append(ext);
        s
    }
}

/// The file name of the main part of a split page.
pub fn split_main_file_name(stem: &str, page: usize) -> (r: String)
    ensures
        r@ == split_main_name(stem@, page as nat),
{
    let mut s = String::from_str(stem);
    s.append("_p");
    push_two_digits(&mut s, page);
    s.append("_main.svg");
    s
}

/// The file name of rectangle `index` of a split page.
pub fn split_rect_file_name(stem: &str, page: usize, index: usize) -> (r: String)
    ensures
        r@ == split_rect_name(stem@, page as nat, index as nat),
{
    let mut s = String::from_str(stem);
    s.append("_p");
    push_two_digits(&mut s, page);
    s.append("_rect");
    push_two_digits(&mut s, index);
    s.append(".svg");
    s
}

} // verus!
