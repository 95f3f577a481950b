//! Showing the screenshots of a snapshot: which file to read for a picture
//! and how its bytes are handed to the page that shows it.

use base64::Engine;
use std::path::Path;
use vstd::prelude::*;
use crate::text::chars_of;

verus! {

broadcast use vstd::string::group_string_axioms;

/// `p` occurs in `s` at position `i`.
pub open spec fn occurs_at(s: Seq<char>, p: Seq<char>, i: int) -> bool {
    0 <= i && i + p.len() <= s.len() && s.subrange(i, i + p.len()) == p
}

/// The position of the first occurrence of `p` in `s`, or -1.
pub open spec fn first_occurrence(s: Seq<char>, p: Seq<char>) -> int
    decreases s.len(),
{
    if s.len() < p.len() {
        -1
    } else if s.take(p.len() as int) == p {
        0
    } else if s.len() == 0 || first_occurrence(s.drop_first(), p) < 0 {
        -1
    } else {
        first_occurrence(s.drop_first(), p) + 1
    }
}

proof fn lemma_first_occurrence_is(s: Seq<char>, p: Seq<char>, r: int)
    requires
        p.len() > 0,
        r == -1 || occurs_at(s, p, r),
        forall|j: int| 0 <= j && (r < 0 || j < r) ==> !#[trigger] occurs_at(s, p, j),
    ensures
        first_occurrence(s, p) == r,
    decreases s.len(),
{
    if s.len() >= p.len() {
        if s.take(p.len() as int) == p {
            assert(s.subrange(0, p.len() as int) =~= s.take(p.len() as int));
            assert(occurs_at(s, p, 0));
        } else {
            assert(s.subrange(0, p.len() as int) =~= s.take(p.len() as int));
            assert(r != 0);
            let rest = s.drop_first();
            assert forall|j: int| 0 <= j && (r - 1 < 0 || j < r - 1) implies !#[trigger] occurs_at(
                rest,
                p,
                j,
            ) by {
                if occurs_at(rest, p, j) {
                    assert(rest.subrange(j, j + p.len()) =~= s.subrange(j + 1, j + 1 + p.len()));
                    assert(occurs_at(s, p, j + 1));
                }
            }
            if r > 0 {
                assert(rest.subrange(r - 1, r - 1 + p.len()) =~= s.subrange(r, r + p.len()));
                lemma_first_occurrence_is(rest, p, r - 1);
            } else {
                lemma_first_occurrence_is(rest, p, -1);
            }
        }
    } else {
        assert(r == -1);
    }
}

/// `s` with the first occurrence of `from` replaced by `to`, as
/// `str::replacen(from, to, 1)` gives it.
pub open spec fn replace_first(s: Seq<char>, from: Seq<char>, to: Seq<char>) -> Seq<char> {
    let i = first_occurrence(s, from);
    if i < 0 {
        s
    } else {
        s.take(i) + to + s.skip(i + from.len())
    }
}

fn matches_at(chars: &Vec<char>, i: usize, pattern: &Vec<char>) -> (found: bool)
    requires
        i + pattern@.len() <= chars@.len(),
    ensures
        found == occurs_at(chars@, pattern@, i as int),
{
    let mut k: usize = 0;
    let n = chars.len();
    while k < pattern.len()
        invariant
            k <= pattern@.len(),
            n == chars@.len(),
            i + pattern@.len() <= chars@.len(),
            forall|m: int| 0 <= m < k ==> chars@[i + m] == #[trigger] pattern@[m],
        decreases pattern.len() - k,
    {
        if chars[i + k] != pattern[k] {
            proof {
                assert(chars@.subrange(i as int, i + pattern@.len())[k as int] != pattern@[k as int]);
            }
            return false;
        }
        k = k + 1;
    }
    proof {
        assert(chars@.subrange(i as int, i + pattern@.len()) =~= pattern@);
    }
    true
}

/// What `Path::file_name` gives for the path written as `path`: its last
/// component, `None` when it has none. The separators are those of the
/// target the program is built for, fixed when it is compiled.
pub uninterp spec fn path_file_name(path: Seq<char>) -> Option<Seq<char>>;

/// `Path::file_name`, with the name handed back as a `String`. A file name
/// taken from a `&str` is valid UTF-8, so the conversion back to text
/// never fails.
#[verifier::external_body]
fn file_name_of(path: &str) -> (name: Option<String>)
    ensures
        match name {
            Some(n) => path_file_name(path@) == Some(n@),
            None => path_file_name(path@) is None,
        },
{
    match Path::new(path).file_name() {
        Some(name) => match name.to_str() {
            Some(text) => Some(text.to_owned()),
            None => None,
        },
        None => None,
    }
}

/// The file read for the screenshot stored as `stored`: its file name, or
/// the thumbnail's name for it; `None` when the stored path has no file name.
pub open spec fn screenshot_file(stored: Seq<char>, thumbnail: bool) -> Option<Seq<char>> {
    match path_file_name(stored) {
        Some(name) => Some(
            if thumbnail {
                replace_first(name, "screen-"@, "thumb-"@)
            } else {
                name
            },
        ),
        None => None,
    }
}

/// The files to read for the screenshots of a snapshot, in order. A snapshot
/// without screenshots is refused with `该快照没有截图`; a stored path
/// without a file name gives `截图路径无效` in its place.
pub fn screenshot_image_files(screenshots: &[String], thumbnail: bool) -> (files: Result<
    Vec<Result<String, String>>,
    String,
>)
    ensures
        files is Err <==> screenshots@.len() == 0,
        files matches Err(message) ==> message@ == "该快照没有截图"@,
        files matches Ok(list) ==> list@.len() == screenshots@.len() && forall|i: int|
            0 <= i < list@.len() ==> match (#[trigger] list@[i]) {
                Ok(name) => screenshot_file(screenshots@[i]@, thumbnail) == Some(name@),
                Err(message) => screenshot_file(screenshots@[i]@, thumbnail) is None && message@
                    == "截图路径无效"@,
            },
{
    if screenshots.len() == 0 {
        return Err(String::from_str("该快照没有截图"));
    }
    let mut list: Vec<Result<String, String>> = Vec::new();
    let mut i: usize = 0;
    while i < screenshots.len()
        invariant
            i <= screenshots@.len(),
            list@.len() == i,
            forall|k: int|
                0 <= k < i ==> match (#[trigger] list@[k]) {
                    Ok(name) => screenshot_file(screenshots@[k]@, thumbnail) == Some(name@),
                    Err(message) => screenshot_file(screenshots@[k]@, thumbnail) is None && message@
                        == "截图路径无效"@,
                },
        decreases screenshots.len() - i,
    {
        let entry = match file_name_of(screenshots[i].as_str()) {
            Some(name) => Ok(image_file_name(name.as_str(), thumbnail)),
            None => Err(String::from_str("截图路径无效")),
        };
        list.push(entry);
        i = i + 1;
    }
    Ok(list)
}

/// The file to read for a screenshot: for a thumbnail, the first `screen-`
/// of the screenshot's file name becomes `thumb-`.
pub fn image_file_name(file_name: &str, thumbnail: bool) -> (name: String)
    ensures
        thumbnail ==> name@ == replace_first(file_name@, "screen-"@, "thumb-"@),
        !thumbnail ==> name@ == file_name@,
{
    if !thumbnail {
        return String::from_str(file_name);
    }
    let chars = chars_of(file_name);
    let pattern = chars_of("screen-");
    let n = chars.len();
    let m = pattern.len();
    proof {
        reveal_strlit("screen-");
        assert(pattern@.len() == 7);
    }
    let mut i: usize = 0;
    while i <= n && n - i >= m
        invariant
            thumbnail,
            n == chars@.len(),
            m == pattern@.len(),
            m == 7,
            chars@ == file_name@,
            pattern@ == "screen-"@,
            forall|j: int| 0 <= j < i ==> !#[trigger] occurs_at(chars@, pattern@, j),
        decreases n - i,
    {
        if matches_at(&chars, i, &pattern) {
            proof {
                lemma_first_occurrence_is(chars@, pattern@, i as int);
            }
            let mut name = String::new();
            let head = file_name.substring_char(0, i);
            name.append(head);
            name.append("thumb-");
            let tail = file_name.substring_char(i + m, n);
            name.append(tail);
            proof {
                assert(file_name@.skip(i + m) =~= file_name@.subrange(i + m, n as int));
                assert(file_name@.take(i as int) =~= file_name@.subrange(0, i as int));
            }
            return name;
        }
        i = i + 1;
    }
    proof {
        assert forall|j: int| 0 <= j implies !#[trigger] occurs_at(chars@, pattern@, j) by {
            if j >= i {
                assert(j + 7 > n || i > n);
            }
        }
        lemma_first_occurrence_is(chars@, pattern@, -1);
    }
    String::from_str(file_name)
}

/// The character of a 6-bit value in the standard Base64 alphabet.
pub open spec fn base64_digit(v: int) -> char {
    if v < 26 {
        (65 + v) as char
    } else if v < 52 {
        (71 + v) as char
    } else if v < 62 {
        (v - 4) as char
    } else if v == 62 {
        '+'
    } else {
        '/'
    }
}

/// Standard Base64 (RFC 4648, with `=` padding) of a byte sequence: each
/// group of three bytes becomes four characters, and a last group of one or
/// two bytes is padded.
pub open spec fn base64_standard(bytes: Seq<u8>) -> Seq<char>
    decreases bytes.len(),
{
    if bytes.len() == 0 {
        seq![]
    } else if bytes.len() == 1 {
        seq![base64_digit(bytes[0] as int / 4), base64_digit((bytes[0] as int % 4) * 16), '=', '=']
    } else if bytes.len() == 2 {
        seq![
            base64_digit(bytes[0] as int / 4),
            base64_digit((bytes[0] as int % 4) * 16 + bytes[1] as int / 16),
            base64_digit((bytes[1] as int % 16) * 4),
            '=',
        ]
    } else {
        seq![
            base64_digit(bytes[0] as int / 4),
            base64_digit((bytes[0] as int % 4) * 16 + bytes[1] as int / 16),
            base64_digit((bytes[1] as int % 16) * 4 + bytes[2] as int / 64),
            base64_digit(bytes[2] as int % 64),
        ] + base64_standard(bytes.skip(3))
    }
}

/// The length of the padded Base64 text of `len` bytes fits in a `usize`.
pub open spec fn base64_length_fits(len: nat) -> bool {
    (len / 3) * 4 + (if len % 3 == 0 { 0nat } else { 4nat }) <= usize::MAX
}

/// Whether the padded Base64 text of `len` bytes has a length that fits in
/// a `usize`, so that the bytes can be encoded.
pub fn base64_fits(len: usize) -> (fits: bool)
    ensures
        fits == base64_length_fits(len as nat),
{
    let groups: usize = len / 3 + if len % 3 == 0 {
        0
    } else {
        1
    };
    groups <= usize::MAX / 4
}

/// `base64::engine::general_purpose::STANDARD.encode`: the standard,
/// padded Base64 text of the bytes. The call panics when the length of the
/// text does not fit in a `usize`, so such inputs are excluded.
#[verifier::external_body]
fn encode_base64(bytes: &[u8]) -> (text: String)
    requires
        base64_length_fits(bytes@.len()),
    ensures
        text@ == base64_standard(bytes@),
{
    base64::engine::general_purpose::STANDARD.encode(bytes)
}

/// A `data:` URL that shows PNG image bytes.
pub fn image_data_url(bytes: &[u8]) -> (url: String)
    requires
        base64_length_fits(bytes@.len()),
    ensures
        url@ == "data:image/png;base64,"@ + base64_standard(bytes@),
{
    let mut url = String::from_str("data:image/png;base64,");
    let encoded = encode_base64(bytes);
    url.append(encoded.as_str());
    url
}

} // verus!
