//! The marker that tells a screenshot already put in a device frame apart:
//! a PNG text chunk, read back from the file's bytes.
use vstd::prelude::*;

use crate::text::str_eq;

verus! {

/// The PNG text chunk that marks a screenshot already put in a frame.
pub const MARKER_KEY: &'static str = "launch";

pub const MARKER_VALUE: &'static str = "mockup";

pub open spec fn is_marker(keyword: Seq<char>, text: Seq<char>) -> bool {
    keyword == MARKER_KEY@ && text == MARKER_VALUE@
}

pub open spec fn chunk_views(v: Seq<(String, String)>) -> Seq<(Seq<char>, Seq<char>)> {
    v.map_values(|c: (String, String)| (c.0@, c.1@))
}

/// Whether a list of (keyword, text) chunks holds the marker.
pub open spec fn holds_marker(cs: Seq<(Seq<char>, Seq<char>)>) -> bool {
    exists|i: int| 0 <= i < cs.len() && is_marker(#[trigger] cs[i].0, cs[i].1)
}

/// Whether any of a PNG's text chunks (keyword, text) is the marker.
pub fn has_marker(chunks: &Vec<(String, String)>) -> (b: bool)
    ensures
        b == holds_marker(chunk_views(chunks@)),
{
    let ghost cs = chunk_views(chunks@);
    let n = chunks.len();
    let mut i: usize = 0;
    while i < n
        invariant
            n == chunks@.len(),
            cs == chunk_views(chunks@),
            i <= n,
            forall|j: int| 0 <= j < i ==> !is_marker(#[trigger] cs[j].0, cs[j].1),
        decreases n - i,
    {
        if str_eq(chunks[i].0.as_str(), MARKER_KEY) && str_eq(chunks[i].1.as_str(), MARKER_VALUE) {
            assert(is_marker(cs[i as int].0, cs[i as int].1));
            return true;
        }
        i = i + 1;
    }
    false
}

/// The (keyword, text) pairs of the uncompressed Latin-1 text chunks that
/// `png` reads before the image data of the PNG file `bytes`, in file
/// order; `None` when the decoder cannot read that far.
pub uninterp spec fn png_text_chunks(bytes: Seq<u8>) -> Option<Seq<(Seq<char>, Seq<char>)>>;

/// `png::Decoder::new(bytes).read_info()` with the default limits, then the
/// keyword and text of each entry of `info().uncompressed_latin1_text`;
/// `None` when `read_info` fails.
#[verifier::external_body]
fn read_png_text_chunks(bytes: &[u8]) -> (r: Option<Vec<(String, String)>>)
    ensures
        match r {
            Some(v) => png_text_chunks(bytes@) == Some(chunk_views(v@)),
            None => png_text_chunks(bytes@) is None,
        },
{
    let reader = png::Decoder::new(bytes).read_info().ok()?;
    let text = &reader.info().uncompressed_latin1_text;
    Some(text.iter().map(|t| (t.keyword.clone(), t.text.clone())).collect())
}

/// Whether the image file read as `bytes` (`None` when it could not be
/// read) is a PNG whose text chunks hold the marker.
pub fn is_already_processed(bytes: Option<&[u8]>) -> (b: bool)
    ensures
        b == match bytes {
            None => false,
            Some(x) => png_text_chunks(x@) matches Some(cs) && holds_marker(cs),
        },
{
    match bytes {
        None => false,
        Some(x) => match read_png_text_chunks(x) {
            None => false,
            Some(chunks) => has_marker(&chunks),
        },
    }
}

/// A PNG whose text chunks hold the marker chunk, among any others, is
/// recognized as already framed.
pub proof fn lemma_marker_recognized(bytes: Seq<u8>, cs: Seq<(Seq<char>, Seq<char>)>, k: int)
    requires
        png_text_chunks(bytes) == Some(cs),
        0 <= k < cs.len(),
        cs[k].0 == MARKER_KEY@,
        cs[k].1 == MARKER_VALUE@,
    ensures
        png_text_chunks(bytes) matches Some(c) && holds_marker(c),
{
    assert(is_marker(cs[k].0, cs[k].1));
}

} // verus!
