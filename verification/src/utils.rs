//! Helpers on file paths and on the text files that servers send: the
//! file name at the end of a path, the media that an HTML file shows, and
//! the decoding of a file's bytes as UTF-8 text.
use vstd::prelude::*;
use vstd::string::*;
use vstd::utf8::{decode_utf8, valid_utf8};

verus! {

/// The views of a sequence of strings.
pub open spec fn strings_view(v: Seq<String>) -> Seq<Seq<char>> {
    v.map_values(|s: String| s@)
}

/// The last component of a `/`-separated path: everything after the last
/// `/`, or the whole path when it has none.
pub open spec fn filename_of(s: Seq<char>) -> Seq<char>
    decreases s.len(),
{
    if s.len() == 0 {
        s
    } else if s.last() == '/' {
        Seq::empty()
    } else {
        filename_of(s.drop_last()).push(s.last())
    }
}

/// Given a path, returns only the file name.
pub fn get_filename_from_path(s: &str) -> (name: String)
    ensures
        name@ == filename_of(s@),
{
    let n = s.unicode_len();
    let mut start: usize = 0;
    let mut i: usize = 0;
    while i < n
        invariant
            n == s@.len(),
            start <= i <= n,
            filename_of(s@.take(i as int)) == s@.subrange(start as int, i as int),
        decreases n - i,
    {
        let c = s.get_char(i);
        proof {
            assert(s@.take(i + 1).drop_last() =~= s@.take(i as int));
            assert(s@.take(i + 1).last() == c);
        }
        if c == '/' {
            start = i + 1;
            assert(s@.subrange(start as int, i + 1) =~= Seq::<char>::empty());
        } else {
            assert(s@.subrange(start as int, i + 1) =~= s@.subrange(start as int, i as int).push(c));
        }
        i += 1;
    }
    assert(s@.take(n as int) =~= s@);
    String::from_str(s.substring_char(start, n))
}

/// The file name of a path holds no `/`, and the path is the file name
/// after a prefix that is empty or ends with `/`.
pub proof fn lemma_filename_of(s: Seq<char>)
    ensures
        !filename_of(s).contains('/'),
        filename_of(s).len() <= s.len(),
        s.subrange(s.len() - filename_of(s).len(), s.len() as int) == filename_of(s),
        s.len() == filename_of(s).len() || s[s.len() - filename_of(s).len() - 1] == '/',
    decreases s.len(),
{
    if s.len() > 0 && s.last() != '/' {
        let init = s.drop_last();
        lemma_filename_of(init);
        let f = filename_of(init);
        assert(filename_of(s) == f.push(s.last()));
        assert(s.subrange(s.len() - f.len() - 1, s.len() as int) =~= init.subrange(
            init.len() - f.len(),
            init.len() as int,
        ).push(s.last()));
        if filename_of(s).contains('/') {
            let k = choose|k: int| 0 <= k < filename_of(s).len() && filename_of(s)[k] == '/';
            if k < f.len() {
                assert(f[k] == '/');
            }
        }
    } else if s.len() > 0 {
        assert(s.subrange(s.len() as int, s.len() as int) =~= Seq::<char>::empty());
    }
}

/// The value of the `src` attribute of every `img` element of the HTML
/// document `html` (`None` for an element without one), in document order,
/// as the `scraper` crate parses and selects them.
pub uninterp spec fn html_img_src_attrs(html: Seq<char>) -> Seq<Option<Seq<char>>>;

/// The view of an optional string.
pub open spec fn opt_string_view(o: Option<String>) -> Option<Seq<char>> {
    match o {
        Some(s) => Some(s@),
        None => None,
    }
}

/// The present values of a sequence of options, in order.
pub open spec fn present_values(s: Seq<Option<Seq<char>>>) -> Seq<Seq<char>>
    decreases s.len(),
{
    if s.len() == 0 {
        Seq::empty()
    } else {
        match s.last() {
            Some(v) => present_values(s.drop_last()).push(v),
            None => present_values(s.drop_last()),
        }
    }
}

/// Each value kept from a sequence of options is present in it, and each
/// present value is kept.
pub proof fn lemma_present_values(s: Seq<Option<Seq<char>>>)
    ensures
        forall|i: int|
            0 <= i < present_values(s).len() ==> exists|j: int|
                0 <= j < s.len() && s[j] == Some(#[trigger] present_values(s)[i]),
        forall|j: int| 0 <= j < s.len() && (#[trigger] s[j]) is Some ==> present_values(s).contains(s[j]->0),
        present_values(s).len() <= s.len(),
    decreases s.len(),
{
    if s.len() > 0 {
        let init = s.drop_last();
        lemma_present_values(init);
        let rest = present_values(init);
        let r = present_values(s);
        assert(s.last() == s[s.len() - 1]);
        assert forall|i: int| 0 <= i < r.len() implies exists|j: int| 0 <= j < s.len() && s[j] == Some(#[trigger] r[i]) by {
            if i < rest.len() {
                assert(r[i] == rest[i]);
                let j = choose|j: int| 0 <= j < init.len() && init[j] == Some(#[trigger] rest[i]);
                assert(s[j] == init[j]);
            } else {
                assert(s[s.len() - 1] == Some(r[i]));
            }
        }
        assert forall|j: int| 0 <= j < s.len() && (#[trigger] s[j]) is Some implies r.contains(s[j]->0) by {
            if j < init.len() {
                assert(init[j] == s[j]);
                assert(rest.contains(init[j]->0));
                let k = choose|k: int| 0 <= k < rest.len() && rest[k] == init[j]->0;
                assert(r[k] == rest[k]);
            } else {
                assert(r[r.len() - 1] == s[j]->0);
            }
        }
    }
}

/// The media files that an HTML file shows: the `src` of its `img` elements.
pub open spec fn media_of_html(html: Seq<char>) -> Seq<Seq<char>> {
    present_values(html_img_src_attrs(html))
}

/// Parses `html` with `scraper::Html::parse_document`, selects its elements
/// with the selector `img` (`scraper::Selector::parse`, `Html::select`) and
/// reads the `src` attribute of each (`ElementRef::value`, `Element::attr`).
/// The contract claims only that the outcome is the one named by
/// `html_img_src_attrs` for this text.
#[verifier::external_body]
fn img_src_attributes(html: &str) -> (srcs: Vec<Option<String>>)
    ensures
        srcs@.map_values(|o: Option<String>| opt_string_view(o)) == html_img_src_attrs(html@),
{
    let document = scraper::Html::parse_document(html);
    match scraper::Selector::parse("img") {
        Ok(selector) => document.select(&selector).map(|e| e.value().attr("src").map(|a| a.to_string())).collect(),
        Err(_) => Vec::new(),
    }
}

/// The values that are present in `srcs`, in order: the media files that
/// a list of `src` attributes names.
pub fn present_sources(srcs: &Vec<Option<String>>) -> (media: Vec<String>)
    ensures
        strings_view(media@) == present_values(srcs@.map_values(|o: Option<String>| opt_string_view(o))),
{
    let ghost attrs = srcs@.map_values(|o: Option<String>| opt_string_view(o));
    let mut ret: Vec<String> = Vec::new();
    let n = srcs.len();
    let mut i: usize = 0;
    while i < n
        invariant
            i <= n,
            n == srcs@.len(),
            attrs == srcs@.map_values(|o: Option<String>| opt_string_view(o)),
            strings_view(ret@) == present_values(attrs.take(i as int)),
        decreases n - i,
    {
        assert(attrs[i as int] == opt_string_view(srcs@[i as int]));
        assert(attrs.take(i + 1).drop_last() =~= attrs.take(i as int));
        match &srcs[i] {
            Some(s) => {
                ret.push(s.clone());
                assert(strings_view(ret@) =~= present_values(attrs.take(i as int)).push(attrs[i as int]->0));
            },
            None => {},
        }
        i += 1;
    }
    assert(attrs.take(n as int) =~= attrs);
    ret
}

/// Given an HTML file, returns the files that its `img` tags show.
pub fn get_media_inside_html_file(file_str: &str) -> (media: Vec<String>)
    ensures
        strings_view(media@) == media_of_html(file_str@),
{
    let srcs = img_src_attributes(file_str);
    present_sources(&srcs)
}

/// Decodes `bytes` as UTF-8 text with `String::from_utf8`: the contract
/// claims that this succeeds exactly on valid UTF-8 (as vstd defines it)
/// and yields the characters that the bytes encode.
#[verifier::external_body]
pub(crate) fn string_from_utf8(bytes: Vec<u8>) -> (text: Option<String>)
    ensures
        text is Some <==> valid_utf8(bytes@),
        text matches Some(t) ==> t@ == decode_utf8(bytes@),
{
    String::from_utf8(bytes).ok()
}

} // verus!
