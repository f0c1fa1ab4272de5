//! The Hub's addresses and answers: which URLs are asked, and what is read out of the replies.

use crate::text;
use crate::text::Trim;
use crate::tree;
use crate::tree::{RepoFile, RepoFileView};
use vstd::prelude::*;
use vstd::utf8::*;

verus! {

/// The bytes that may stand in a URL as they are.
pub open spec fn unreserved(b: u8) -> bool {
    ||| '0' as u8 <= b <= '9' as u8
    ||| 'A' as u8 <= b <= 'Z' as u8
    ||| 'a' as u8 <= b <= 'z' as u8
    ||| b == '-' as u8
    ||| b == '_' as u8
    ||| b == '.' as u8
    ||| b == '~' as u8
}

/// A hexadecimal digit, with upper case letters.
pub open spec fn hex_digit(n: int) -> char {
    if n < 10 {
        (n + '0' as int) as char
    } else {
        (n - 10 + 'A' as int) as char
    }
}

/// A byte in a URL: as it is, or as a percent sign and its two hexadecimal digits.
pub open spec fn percent_encoded_byte(b: u8) -> Seq<char> {
    if unreserved(b) {
        seq![b as char]
    } else {
        seq!['%', hex_digit(b as int / 16), hex_digit(b as int % 16)]
    }
}

pub open spec fn percent_encoded(bytes: Seq<u8>) -> Seq<char>
    decreases bytes.len(),
{
    if bytes.len() == 0 {
        Seq::empty()
    } else {
        percent_encoded_byte(bytes[0]) + percent_encoded(bytes.drop_first())
    }
}

/// A text in a URL.
pub open spec fn url_text(s: Seq<char>) -> Seq<char> {
    percent_encoded(encode_utf8(s))
}

/// `urlencoding::encode` writes every byte of the UTF-8 form of its argument that is not a letter
/// or digit of ASCII nor one of `-`, `_`, `.`, `~` as a percent sign and two upper case
/// hexadecimal digits, and leaves the other bytes as they are.
#[verifier::external_body]
fn encode(part: &str) -> (r: String)
    ensures
        r@ == url_text(part@),
{
    urlencoding::encode(part).into_owned()
}

/// A path in a URL: every piece is encoded, and the slashes between them stay.
pub open spec fn url_path(path: Seq<char>) -> Seq<char> {
    text::joined(url_texts(text::pieces(path, '/')), seq!['/'])
}

pub open spec fn url_texts(parts: Seq<Seq<char>>) -> Seq<Seq<char>> {
    parts.map_values(|part: Seq<char>| url_text(part))
}

/// The address that a file of a repository is fetched from.
pub open spec fn resolve_address(id: Seq<char>, path: Seq<char>) -> Seq<char> {
    "https://huggingface.co/"@ + id + "/resolve/main/"@ + url_path(path) + "?download=true"@
}

/// The address of a file of a repository.
pub fn resolve_url(id: &str, path: &str) -> (url: String)
    ensures
        url@ == resolve_address(id@, path@),
{
    let parts = text::split(path, '/');
    let ghost views = text::pieces(path@, '/');
    let mut encoded: Vec<String> = Vec::new();
    let mut i: usize = 0;
    while i < parts.len()
        invariant
            views == text::texts(parts@),
            i <= parts.len(),
            text::texts(encoded@) == url_texts(views.take(i as int)),
        decreases parts.len() - i,
    {
        let ghost before = encoded@;
        encoded.push(encode(parts[i].as_str()));
        assert(views.take(i + 1) =~= views.take(i as int).push(parts@[i as int]@));
        assert(text::texts(encoded@) =~= text::texts(before).push(url_text(parts@[i as int]@)));
        assert(url_texts(views.take(i + 1)) =~= url_texts(views.take(i as int)).push(
            url_text(parts@[i as int]@),
        ));
        i += 1;
    }
    assert(views.take(parts.len() as int) =~= views);
    let borrowed = text::borrowed(&encoded);
    proof {
        reveal_strlit("/");
        assert("/"@ =~= seq!['/']);
    }
    let tail = text::join(borrowed.as_slice(), "/");
    let mut url = "https://huggingface.co/".to_owned();
    url.append(id);
    url.append("/resolve/main/");
    url.append(tail.as_str());
    url.append("?download=true");
    url
}

/// The address that searches are sent to.
pub fn search_url() -> (url: String)
    ensures
        url@ == "https://huggingface.co/api/models"@,
{
    "https://huggingface.co/api/models".to_owned()
}

/// The address of what the Hub knows of a repository.
pub fn model_url(id: &str) -> (url: String)
    ensures
        url@ == "https://huggingface.co/api/models/"@ + id@,
{
    let mut url = "https://huggingface.co/api/models/".to_owned();
    url.append(id);
    url
}

/// The address of the first page of a repository's files.
pub open spec fn tree_address(id: Seq<char>) -> Seq<char> {
    "https://huggingface.co/api/models/"@ + id + "/tree/main?recursive=true&expand=false"@
}

pub fn tree_url(id: &str) -> (url: String)
    ensures
        url@ == tree_address(id@),
{
    let mut url = model_url(id);
    url.append("/tree/main?recursive=true&expand=false");
    url
}

/// What a search asks for: the models that match, the most downloaded first, up to a limit.
pub fn search_query(query: String) -> (r: Vec<(&'static str, String)>)
    ensures
        r.len() == 4,
        r[0].0@ == "search"@ && r[0].1@ == query@,
        r[1].0@ == "limit"@ && r[1].1@ == "50"@,
        r[2].0@ == "sort"@ && r[2].1@ == "downloads"@,
        r[3].0@ == "direction"@ && r[3].1@ == "-1"@,
{
    let mut r: Vec<(&'static str, String)> = Vec::new();
    r.push(("search", query));
    r.push(("limit", "50".to_owned()));
    r.push(("sort", "downloads".to_owned()));
    r.push(("direction", "-1".to_owned()));
    r
}

/// The bytes that may stand in the value of an HTTP header.
pub open spec fn header_byte(b: u8) -> bool {
    (b >= 32 && b != 127) || b == 9
}

pub open spec fn header_text(s: Seq<char>) -> bool {
    forall|i: int| 0 <= i < encode_utf8(s).len() ==> header_byte(#[trigger] encode_utf8(s)[i])
}

/// `reqwest::header::HeaderValue::from_str` accepts a text where every byte of its UTF-8 form is
/// a tab or at least 32 and not 127, and otherwise returns an error whose text is always the
/// same.
#[verifier::external_body]
fn check_header_value(value: &str) -> (r: Result<(), String>)
    ensures
        r is Ok <==> header_text(value@),
        r matches Err(error) ==> error@ == "failed to parse header value"@,
{
    match reqwest::header::HeaderValue::from_str(value) {
        Ok(_) => Ok(()),
        Err(error) => Err(error.to_string()),
    }
}

/// The token without the white space around it.
pub open spec fn bare_token(token: Seq<char>) -> Seq<char> {
    text::trimmed(token, Trim::WhiteSpace)
}

/// The value of the authorization header for a token. Without a token there is no header, and a
/// token that cannot stand in a header is refused.
pub fn authorization(token: &str) -> (r: Result<Option<String>, String>)
    ensures
        match r {
            Ok(None) => bare_token(token@).len() == 0,
            Ok(Some(value)) => bare_token(token@).len() > 0 && value@ == "Bearer "@ + bare_token(
                token@,
            ) && header_text(value@),
            Err(error) => bare_token(token@).len() > 0 && !header_text(
                "Bearer "@ + bare_token(token@),
            ) && error@ == "failed to parse header value"@,
        },
{
    let bare = text::trim_ends(token, Trim::WhiteSpace);
    if bare.as_str().is_empty() {
        return Ok(None);
    }
    let mut value = "Bearer ".to_owned();
    value.append(bare.as_str());
    match check_header_value(value.as_str()) {
        Ok(()) => Ok(Some(value)),
        Err(error) => Err(error),
    }
}

/// An entry of a repository's listing, as far as it is of interest. A field is `None` where the
/// entry lacks it or holds something of another type there.
#[derive(Debug)]
pub struct TreeEntry {
    pub kind: Option<String>,
    pub path: Option<String>,
    pub size: Option<u64>,
    pub lfs_oid: Option<String>,
}

pub open spec fn option_text(s: Option<String>) -> Option<Seq<char>> {
    match s {
        Some(s) => Some(s@),
        None => None,
    }
}

/// The file that an entry lists: an entry of the kind `file` that has a path.
pub open spec fn listed_file(entry: TreeEntry) -> Option<RepoFileView> {
    if option_text(entry.kind) == Some("file"@) && entry.path is Some {
        Some(
            RepoFileView {
                path: entry.path->0@,
                size: entry.size,
                sha256: option_text(entry.lfs_oid),
            },
        )
    } else {
        None
    }
}

/// The files that entries list, in order.
pub open spec fn listed_files(entries: Seq<TreeEntry>) -> Seq<RepoFileView>
    decreases entries.len(),
{
    if entries.len() == 0 {
        Seq::empty()
    } else {
        match listed_file(entries.last()) {
            Some(file) => listed_files(entries.drop_last()).push(file),
            None => listed_files(entries.drop_last()),
        }
    }
}

fn file_of(entry: &TreeEntry) -> (file: Option<RepoFile>)
    ensures
        match file {
            Some(file) => listed_file(*entry) == Some(file@),
            None => listed_file(*entry) is None,
        },
{
    match (&entry.kind, &entry.path) {
        (Some(kind), Some(path)) => {
            if text::same_text(kind.as_str(), "file") {
                Some(
                    RepoFile {
                        path: path.clone(),
                        size: entry.size,
                        sha256: match &entry.lfs_oid {
                            Some(oid) => Some(oid.clone()),
                            None => None,
                        },
                    },
                )
            } else {
                None
            }
        },
        _ => None,
    }
}

/// The address in a part of a link header that refers to the next page.
pub open spec fn link_target(part: Seq<char>) -> Option<Seq<char>> {
    match (text::first_position(part, '<'), text::first_position(part, '>')) {
        (Some(start), Some(end)) => if text::contains_text(part, "rel=\"next\""@) {
            Some(part.subrange(start + 1, end))
        } else {
            None
        },
        _ => None,
    }
}

/// The brackets of a part that refers to the next page are in order.
pub open spec fn part_readable(part: Seq<char>) -> bool {
    link_target(part) is Some ==> text::first_position(part, '<')->0 < text::first_position(
        part,
        '>',
    )->0
}

/// The brackets of every part that refers to the next page are in order.
pub open spec fn link_readable(link: Seq<char>) -> bool {
    forall|i: int|
        0 <= i < text::pieces(link, ',').len() ==> part_readable(
            #[trigger] text::pieces(link, ',')[i],
        )
}

/// The address of the next page: that of the last part that has one.
pub open spec fn next_link(parts: Seq<Seq<char>>) -> Option<Seq<char>>
    decreases parts.len(),
{
    if parts.len() == 0 {
        None
    } else {
        match link_target(parts.last()) {
            Some(target) => Some(target),
            None => next_link(parts.drop_last()),
        }
    }
}

fn is_part_readable(part: &str) -> (b: bool)
    ensures
        b == part_readable(part@),
{
    let chars = text::chars_of(part);
    match (text::find_char(&chars, '<'), text::find_char(&chars, '>')) {
        (Some(start), Some(end)) => start < end || !text::has_text(part, "rel=\"next\""),
        _ => true,
    }
}

/// The brackets in a link header are in order wherever [`next_page`] looks at them.
pub fn is_link_readable(link: &str) -> (b: bool)
    ensures
        b == link_readable(link@),
{
    let parts = text::split(link, ',');
    let ghost views = text::pieces(link@, ',');
    let mut i: usize = 0;
    while i < parts.len()
        invariant
            views == text::pieces(link@, ','),
            views == text::texts(parts@),
            i <= parts.len(),
            forall|k: int| 0 <= k < i ==> part_readable(#[trigger] views[k]),
        decreases parts.len() - i,
    {
        assert(views[i as int] == parts@[i as int]@);
        if !is_part_readable(parts[i].as_str()) {
            return false;
        }
        i += 1;
    }
    true
}

fn target_of(part: &str) -> (target: Option<String>)
    requires
        part_readable(part@),
    ensures
        match target {
            Some(target) => link_target(part@) == Some(target@),
            None => link_target(part@) is None,
        },
{
    let chars = text::chars_of(part);
    match (text::find_char(&chars, '<'), text::find_char(&chars, '>')) {
        (Some(start), Some(end)) => {
            if text::has_text(part, "rel=\"next\"") {
                Some(text::string_between(&chars, start + 1, end))
            } else {
                None
            }
        },
        _ => None,
    }
}

/// The address of the next page that a link header names.
pub fn next_page(link: &str) -> (url: Option<String>)
    requires
        link_readable(link@),
    ensures
        match url {
            Some(url) => next_link(text::pieces(link@, ',')) == Some(url@),
            None => next_link(text::pieces(link@, ',')) is None,
        },
{
    let parts = text::split(link, ',');
    let ghost views = text::pieces(link@, ',');
    let mut url: Option<String> = None;
    let mut i: usize = 0;
    while i < parts.len()
        invariant
            views == text::pieces(link@, ','),
            views == text::texts(parts@),
            link_readable(link@),
            i <= parts.len(),
            match url {
                Some(url) => next_link(views.take(i as int)) == Some(url@),
                None => next_link(views.take(i as int)) is None,
            },
        decreases parts.len() - i,
    {
        assert(views.take(i + 1).drop_last() =~= views.take(i as int));
        assert(views.take(i + 1).last() == parts@[i as int]@);
        assert(part_readable(views[i as int]));
        match target_of(parts[i].as_str()) {
            Some(target) => {
                url = Some(target);
            },
            None => {},
        }
        i += 1;
    }
    assert(views.take(parts.len() as int) =~= views);
    url
}

/// The listing of a repository's files, page by page.
#[derive(Debug)]
pub struct Listing {
    pub files: Vec<RepoFile>,
    /// The page that is to be asked for next.
    pub next: Option<String>,
}

impl Listing {
    /// A listing of which no page is there yet.
    pub fn new(id: &str) -> (listing: Listing)
        ensures
            listing.files@.len() == 0,
            option_text(listing.next) == Some(tree_address(id@)),
    {
        Listing { files: Vec::new(), next: Some(tree_url(id)) }
    }

    /// Takes in a page: its files are added, and its link header says where the next page is.
    pub fn add_page(&mut self, link: &str, entries: &Vec<TreeEntry>)
        requires
            link_readable(link@),
        ensures
            tree::file_views(final(self).files@) == tree::file_views(old(self).files@)
                + listed_files(entries@),
            option_text(final(self).next) == next_link(text::pieces(link@, ',')),
    {
        let ghost before = tree::file_views(self.files@);
        let mut i: usize = 0;
        assert(before + listed_files(entries@.take(0)) =~= before);
        while i < entries.len()
            invariant
                i <= entries.len(),
                tree::file_views(self.files@) == before + listed_files(entries@.take(i as int)),
            decreases entries.len() - i,
        {
            assert(entries@.take(i + 1).drop_last() =~= entries@.take(i as int));
            let ghost so_far = self.files@;
            match file_of(&entries[i]) {
                Some(file) => {
                    self.files.push(file);
                    assert(tree::file_views(self.files@) =~= tree::file_views(so_far).push(
                        file@,
                    ));
                },
                None => {},
            }
            i += 1;
            assert(tree::file_views(self.files@) =~= before + listed_files(
                entries@.take(i as int),
            ));
        }
        assert(entries@.take(entries.len() as int) =~= entries@);
        self.next = next_page(link);
    }
}

/// What the Hub says of the access to a repository.
#[derive(Clone, Copy, Debug, PartialEq, Eq, Structural)]
pub enum GatedFlag {
    Missing,
    Bool(bool),
    Text,
    Other,
}

/// A repository counts as gated where the Hub says so, or names a way in which it is.
pub fn repository_gated(flag: GatedFlag) -> (gated: bool)
    ensures
        gated == (flag == GatedFlag::Bool(true) || flag == GatedFlag::Text),
{
    match flag {
        GatedFlag::Bool(b) => b,
        GatedFlag::Text => true,
        _ => false,
    }
}

/// A search result is marked as gated unless the Hub says nothing or says that it is not.
pub fn result_gated(flag: GatedFlag) -> (gated: bool)
    ensures
        gated == (flag != GatedFlag::Bool(false) && flag != GatedFlag::Missing),
{
    match flag {
        GatedFlag::Bool(b) => b,
        GatedFlag::Missing => false,
        _ => true,
    }
}

/// The mark behind the name of a gated repository.
pub open spec fn gated_mark(gated: bool) -> Seq<char> {
    if gated {
        " \u{2022} gated"@
    } else {
        Seq::empty()
    }
}

/// The heading of an open repository.
pub fn repository_title(id: &str, gated: bool) -> (title: String)
    ensures
        title@ == id@ + gated_mark(gated),
{
    let mut title = id.to_owned();
    if gated {
        title.append(" \u{2022} gated");
    }
    assert(title@ =~= id@ + gated_mark(gated));
    title
}

/// The line below a search result.
pub fn result_subtitle(downloads: u64, likes: u64, flag: GatedFlag) -> (line: String)
    ensures
        line@ == text::decimal(downloads as nat) + " downloads \u{2022} "@ + text::decimal(
            likes as nat,
        ) + " likes"@ + gated_mark(flag != GatedFlag::Bool(false) && flag != GatedFlag::Missing),
{
    let mut line = text::decimal_text(downloads);
    line.append(" downloads \u{2022} ");
    line.append(text::decimal_text(likes).as_str());
    line.append(" likes");
    repository_title(line.as_str(), result_gated(flag))
}

/// The characters that an encoded text is made of.
pub open spec fn url_char(c: char) -> bool {
    ||| c == '%'
    ||| '0' <= c <= '9'
    ||| 'A' <= c <= 'Z'
    ||| 'a' <= c <= 'z'
    ||| c == '-'
    ||| c == '_'
    ||| c == '.'
    ||| c == '~'
}

proof fn lemma_encoded_chars(bytes: Seq<u8>)
    ensures
        forall|i: int|
            0 <= i < percent_encoded(bytes).len() ==> url_char(#[trigger] percent_encoded(bytes)[i]),
    decreases bytes.len(),
{
    if bytes.len() > 0 {
        let first = percent_encoded_byte(bytes[0]);
        let rest = percent_encoded(bytes.drop_first());
        lemma_encoded_chars(bytes.drop_first());
        let (high, low) = (bytes[0] as int / 16, bytes[0] as int % 16);
        assert(0 <= high < 16 && 0 <= low < 16);
        assert(url_char(hex_digit(high)) && url_char(hex_digit(low)));
        assert forall|i: int| 0 <= i < first.len() implies url_char(#[trigger] first[i]) by {}
        assert forall|i: int| 0 <= i < percent_encoded(bytes).len() implies url_char(
            #[trigger] percent_encoded(bytes)[i],
        ) by {
            if i < first.len() {
                assert(percent_encoded(bytes)[i] == first[i]);
            } else {
                assert(percent_encoded(bytes)[i] == rest[i - first.len()]);
            }
        }
    }
}

proof fn lemma_encoding_injective(a: Seq<u8>, b: Seq<u8>)
    requires
        percent_encoded(a) == percent_encoded(b),
    ensures
        a == b,
    decreases a.len(),
{
    if a.len() == 0 || b.len() == 0 {
        if a.len() > 0 {
            assert(percent_encoded(a).len() >= percent_encoded_byte(a[0]).len() > 0);
        }
        if b.len() > 0 {
            assert(percent_encoded(b).len() >= percent_encoded_byte(b[0]).len() > 0);
        }
        assert(a =~= b);
    } else {
        let (x, y) = (percent_encoded_byte(a[0]), percent_encoded_byte(b[0]));
        let (p, q) = (percent_encoded(a.drop_first()), percent_encoded(b.drop_first()));
        let whole = percent_encoded(a);
        assert(whole == x + p && whole == y + q);
        assert(whole[0] == x[0] && whole[0] == y[0]);
        assert(x.len() == y.len());
        assert forall|i: int| 0 <= i < x.len() implies x[i] == y[i] by {
            assert(whole[i] == x[i] && whole[i] == y[i]);
        }
        assert(a[0] == b[0]) by {
            if !unreserved(a[0]) {
                let (m, n) = (a[0] as int, b[0] as int);
                assert(hex_digit(m / 16) == hex_digit(n / 16));
                assert(hex_digit(m % 16) == hex_digit(n % 16));
                assert(m / 16 == n / 16 && m % 16 == n % 16);
            }
        }
        assert(p =~= q) by {
            assert(p =~= whole.skip(x.len() as int));
            assert(q =~= whole.skip(y.len() as int));
        }
        lemma_encoding_injective(a.drop_first(), b.drop_first());
        assert(seq![a[0]] + a.drop_first() =~= a);
        assert(seq![b[0]] + b.drop_first() =~= b);
    }
}

/// The path in the address of a file has the pieces of the file's path, each of them encoded, and
/// nothing in it but slashes, percent signs and characters that may stand in a URL as they are.
pub proof fn law_url_path_keeps_pieces(path: Seq<char>)
    ensures
        text::pieces(url_path(path), '/') == url_texts(text::pieces(path, '/')),
        forall|i: int|
            0 <= i < text::pieces(path, '/').len() ==> (forall|k: int|
                0 <= k < (#[trigger] url_texts(text::pieces(path, '/'))[i]).len() ==> url_char(
                    url_texts(text::pieces(path, '/'))[i][k],
                )),
{
    let parts = text::pieces(path, '/');
    let encoded = url_texts(parts);
    text::law_join_of_pieces(path, '/');
    assert forall|i: int| 0 <= i < parts.len() implies (forall|k: int|
        0 <= k < (#[trigger] encoded[i]).len() ==> url_char(encoded[i][k])) && !encoded[i].contains(
        '/',
    ) by {
        lemma_encoded_chars(encode_utf8(parts[i]));
        assert(encoded[i] == url_text(parts[i]));
        if encoded[i].contains('/') {
            let k = choose|k: int| 0 <= k < encoded[i].len() && encoded[i][k] == '/';
            assert(url_char(percent_encoded(encode_utf8(parts[i]))[k]));
        }
    }
    text::law_pieces_of_join(encoded, '/');
}

/// Different files of a repository have different addresses.
pub proof fn law_addresses_differ(id: Seq<char>, a: Seq<char>, b: Seq<char>)
    requires
        resolve_address(id, a) == resolve_address(id, b),
    ensures
        a == b,
{
    let head = "https://huggingface.co/"@ + id + "/resolve/main/"@;
    let tail = "?download=true"@;
    let whole = resolve_address(id, a);
    let (x, y) = (url_path(a), url_path(b));
    assert(x =~= whole.subrange(head.len() as int, whole.len() - tail.len()));
    assert(y =~= whole.subrange(head.len() as int, whole.len() - tail.len()));
    law_url_path_keeps_pieces(a);
    law_url_path_keeps_pieces(b);
    let (p, q) = (text::pieces(a, '/'), text::pieces(b, '/'));
    assert(url_texts(p) == url_texts(q));
    assert(p.len() == url_texts(p).len() && q.len() == url_texts(q).len());
    assert forall|i: int| 0 <= i < p.len() implies p[i] == q[i] by {
        assert(url_texts(p)[i] == url_text(p[i]) && url_texts(q)[i] == url_text(q[i]));
        lemma_encoding_injective(encode_utf8(p[i]), encode_utf8(q[i]));
        encode_utf8_decode_utf8(p[i]);
        encode_utf8_decode_utf8(q[i]);
    }
    assert(p =~= q);
    text::law_join_of_pieces(a, '/');
    text::law_join_of_pieces(b, '/');
}

} // verus!
