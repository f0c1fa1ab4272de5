//! What the addresses on the Hub and its listings come to.

use crate::hub;
use crate::hub::TreeEntry;
use crate::text;
use crate::text::Trim;
use crate::text_laws;
use vstd::prelude::*;
use vstd::utf8::*;

verus! {

/// The view of an optional string is that of the string, where there is one.
pub proof fn law_option_text_is_the_text(s: Option<String>)
    ensures
        s is None ==> hub::option_text(s) is None,
        s matches Some(t) ==> hub::option_text(s) == Some(t@),
{
}

/// An entry is listed exactly when it is of the kind `file` and has a path, whatever its size and
/// its LFS id are. The file has the path, the size and the id of the entry; what the entry does
/// not have, the file does not have.
pub proof fn law_files_are_listed(entry: TreeEntry)
    ensures
        hub::listed_file(entry) is Some <==> {
            &&& entry.kind is Some
            &&& entry.kind->0@ == seq!['f', 'i', 'l', 'e']
            &&& entry.path is Some
        },
        hub::listed_file(entry) matches Some(file) ==> {
            &&& file.path == entry.path->0@
            &&& file.size == entry.size
            &&& entry.lfs_oid is None ==> file.sha256 is None
            &&& entry.lfs_oid matches Some(oid) ==> file.sha256 == Some(oid@)
        },
{
    reveal_strlit("file");
    assert("file"@ =~= seq!['f', 'i', 'l', 'e']);
}

/// A page is listed entry by entry, in its order: one file for every entry that lists one, and
/// nothing for the others; and two pages are listed one after the other.
pub proof fn law_pages_are_listed_in_order(a: Seq<TreeEntry>, b: Seq<TreeEntry>, entry: TreeEntry)
    ensures
        hub::listed_files(Seq::empty()).len() == 0,
        hub::listed_file(entry) matches Some(file) ==> hub::listed_files(seq![entry]) == seq![file],
        hub::listed_file(entry) is None ==> hub::listed_files(seq![entry]).len() == 0,
        hub::listed_files(a + b) == hub::listed_files(a) + hub::listed_files(b),
    decreases b.len(),
{
    let none = Seq::<TreeEntry>::empty();
    assert(seq![entry].drop_last() =~= none);
    assert(hub::listed_files(none).len() == 0);
    if let Some(file) = hub::listed_file(entry) {
        assert(hub::listed_files(seq![entry]) =~= seq![file]);
    }
    if b.len() == 0 {
        assert(a + b =~= a);
        assert(hub::listed_files(a) + hub::listed_files(b) =~= hub::listed_files(a));
    } else {
        law_pages_are_listed_in_order(a, b.drop_last(), entry);
        assert((a + b).drop_last() =~= a + b.drop_last());
        assert((a + b).last() == b.last());
        assert(hub::listed_files(a + b) =~= hub::listed_files(a) + hub::listed_files(b));
    }
}

/// A part of a link header refers to the next page with the address between its brackets, exactly
/// when it says that it does.
pub proof fn law_link_is_between_brackets(
    before: Seq<char>,
    address: Seq<char>,
    after: Seq<char>,
)
    requires
        !before.contains('<') && !before.contains('>'),
        !address.contains('>'),
    ensures
        ({
            let part = before + seq!['<'] + address + seq!['>'] + after;
            &&& hub::part_readable(part)
            &&& hub::link_target(part) == if text::contains_text(part, "rel=\"next\""@) {
                Some(address)
            } else {
                None
            }
        }),
{
    let part = before + seq!['<'] + address + seq!['>'] + after;
    let start = before.len() as int;
    let end = start + 1 + address.len();
    text_laws::law_first_position_is_first(part, '<');
    text_laws::law_first_position_is_first(part, '>');
    assert(part[start] == '<');
    assert(part[end] == '>');
    assert forall|k: int| 0 <= k < start implies part[k] != '<' && part[k] != '>' by {
        assert(part[k] == before[k]);
        assert(before.contains(before[k]));
    }
    assert forall|k: int| start < k < end implies part[k] != '>' by {
        assert(part[k] == address[k - start - 1]);
        assert(address.contains(address[k - start - 1]));
    }
    assert(text::first_position(part, '<') == Some(start));
    assert(text::first_position(part, '>') == Some(end));
    assert(part.subrange(start + 1, end) =~= address);
}

/// A part without one of the brackets refers to no page.
pub proof fn law_link_needs_brackets(part: Seq<char>)
    requires
        !part.contains('<') || !part.contains('>'),
    ensures
        hub::link_target(part) is None,
        hub::part_readable(part),
{
    text_laws::law_first_position_is_first(part, '<');
    text_laws::law_first_position_is_first(part, '>');
    if let Some(i) = text::first_position(part, '<') {
        assert(part.contains(part[i]));
    }
    if let Some(i) = text::first_position(part, '>') {
        assert(part.contains(part[i]));
    }
}

/// The next page is that of the last part that refers to one.
pub proof fn law_last_link_counts(parts: Seq<Seq<char>>)
    ensures
        match hub::next_link(parts) {
            Some(address) => exists|i: int|
                0 <= i < parts.len() && hub::link_target(#[trigger] parts[i]) == Some(address)
                    && forall|k: int|
                    i < k < parts.len() ==> hub::link_target(#[trigger] parts[k]) is None,
            None => forall|k: int|
                0 <= k < parts.len() ==> hub::link_target(#[trigger] parts[k]) is None,
        },
    decreases parts.len(),
{
    if parts.len() > 0 {
        let front = parts.drop_last();
        let n = parts.len() - 1;
        law_last_link_counts(front);
        assert(forall|k: int| 0 <= k < n ==> front[k] == #[trigger] parts[k]);
        if hub::link_target(parts.last()) is Some {
            assert(hub::link_target(parts[n]) is Some);
        } else if let Some(address) = hub::next_link(front) {
            let i = choose|i: int|
                0 <= i < front.len() && hub::link_target(#[trigger] front[i]) == Some(address)
                    && forall|k: int|
                    i < k < front.len() ==> hub::link_target(#[trigger] front[k]) is None;
            assert(hub::link_target(parts[i]) == Some(address));
            assert forall|k: int| i < k < parts.len() implies hub::link_target(
                #[trigger] parts[k],
            ) is None by {
                if k < n {
                    assert(hub::link_target(front[k]) is None);
                }
            }
        }
    }
}

/// The value of an upper case hexadecimal digit.
pub open spec fn hex_value(c: char) -> int {
    if '0' <= c <= '9' {
        c as int - 48
    } else if 'A' <= c <= 'F' {
        c as int - 55
    } else {
        -1
    }
}

/// In an address, letters and digits of ASCII, `-`, `.`, `_` and `~` stand for themselves, and
/// every other byte is a percent sign and two hexadecimal digits that give its value.
pub proof fn law_bytes_in_an_address(b: u8)
    ensures
        ({
            let written = hub::percent_encoded_byte(b);
            let plain = 48 <= b <= 57 || 65 <= b <= 90 || 97 <= b <= 122 || b == 45 || b == 46 || b
                == 95 || b == 126;
            &&& plain ==> written.len() == 1 && written[0] as int == b
            &&& !plain ==> {
                &&& written.len() == 3
                &&& written[0] == '%'
                &&& hex_value(written[1]) >= 0
                &&& hex_value(written[2]) >= 0
                &&& 16 * hex_value(written[1]) + hex_value(written[2]) == b
            }
        }),
{
}

/// Bytes are encoded one after the other, and a text by the bytes of its UTF-8 form.
pub proof fn law_texts_in_an_address(a: Seq<u8>, b: Seq<u8>, s: Seq<char>)
    ensures
        hub::percent_encoded(a + b) == hub::percent_encoded(a) + hub::percent_encoded(b),
        a.len() == 1 ==> hub::percent_encoded(a) == hub::percent_encoded_byte(a[0]),
        hub::url_text(s) == hub::percent_encoded(encode_utf8(s)),
    decreases a.len(),
{
    if a.len() == 0 {
        assert(a + b =~= b);
        assert(hub::percent_encoded(a) + hub::percent_encoded(b) =~= hub::percent_encoded(b));
    } else {
        law_texts_in_an_address(a.drop_first(), b, s);
        assert((a + b).drop_first() =~= a.drop_first() + b);
        assert(hub::percent_encoded(a + b) =~= hub::percent_encoded(a) + hub::percent_encoded(b));
        if a.len() == 1 {
            assert(a.drop_first() =~= Seq::empty());
            assert(hub::percent_encoded(a) =~= hub::percent_encoded_byte(a[0]));
        }
    }
}

/// The address of a file is on the Hub, below its repository, on the branch `main`, at the encoded
/// path of the file, and asks for a download.
pub proof fn law_parts_of_a_file_address(id: Seq<char>, path: Seq<char>)
    ensures
        ({
            let address = hub::resolve_address(id, path);
            let head = "https://huggingface.co/"@;
            let branch = "/resolve/main/"@;
            let tail = "?download=true"@;
            let from = (head.len() + id.len() + branch.len()) as int;
            &&& address.len() == from + hub::url_path(path).len() + tail.len()
            &&& address.take(head.len() as int) == head
            &&& address.subrange(head.len() as int, (head.len() + id.len()) as int) == id
            &&& address.subrange((head.len() + id.len()) as int, from) == branch
            &&& address.subrange(from, address.len() - tail.len()) == hub::url_path(path)
            &&& address.skip(address.len() - tail.len()) == tail
        }),
{
    let address = hub::resolve_address(id, path);
    let head = "https://huggingface.co/"@;
    let branch = "/resolve/main/"@;
    let tail = "?download=true"@;
    let from = (head.len() + id.len() + branch.len()) as int;
    assert(address.take(head.len() as int) =~= head);
    assert(address.subrange(head.len() as int, (head.len() + id.len()) as int) =~= id);
    assert(address.subrange((head.len() + id.len()) as int, from) =~= branch);
    assert(address.subrange(from, address.len() - tail.len()) =~= hub::url_path(path));
    assert(address.skip(address.len() - tail.len()) =~= tail);
}

/// The first page of a listing is asked for at the repository, for all files at once.
pub proof fn law_parts_of_a_listing_address(id: Seq<char>)
    ensures
        ({
            let address = hub::tree_address(id);
            let head = "https://huggingface.co/api/models/"@;
            let tail = "/tree/main?recursive=true&expand=false"@;
            &&& address.len() == head.len() + id.len() + tail.len()
            &&& address.take(head.len() as int) == head
            &&& address.skip(head.len() as int).take(id.len() as int) == id
            &&& address.skip(address.len() - tail.len()) == tail
        }),
{
    let address = hub::tree_address(id);
    let head = "https://huggingface.co/api/models/"@;
    let tail = "/tree/main?recursive=true&expand=false"@;
    assert(address.take(head.len() as int) =~= head);
    assert(address.skip(head.len() as int).take(id.len() as int) =~= id);
    assert(address.skip(address.len() - tail.len()) =~= tail);
}

/// What counts of a token is what is left without the white space around it.
pub proof fn law_token_without_white_space(token: Seq<char>, from: int, to: int)
    requires
        text_laws::left_by_trim(token, Trim::WhiteSpace, from, to),
    ensures
        hub::bare_token(token) == token.subrange(from, to),
{
    text_laws::law_trim_leaves_the_middle(token, Trim::WhiteSpace, from, to);
}

/// A text can stand in a header exactly when none of its bytes is a control character, apart from
/// the tab.
pub proof fn law_control_characters_are_refused(s: Seq<char>)
    ensures
        !hub::header_text(s) <==> exists|i: int|
            0 <= i < encode_utf8(s).len() && (#[trigger] encode_utf8(s)[i] == 127 || (encode_utf8(
                s,
            )[i] < 32 && encode_utf8(s)[i] != 9)),
{
    let bytes = encode_utf8(s);
    if !hub::header_text(s) {
        let i = choose|i: int| 0 <= i < bytes.len() && !hub::header_byte(#[trigger] bytes[i]);
        assert(bytes[i] == 127 || (bytes[i] < 32 && bytes[i] != 9));
    }
    if exists|i: int|
        0 <= i < bytes.len() && (#[trigger] bytes[i] == 127 || (bytes[i] < 32 && bytes[i] != 9)) {
        let i = choose|i: int|
            0 <= i < bytes.len() && (#[trigger] bytes[i] == 127 || (bytes[i] < 32 && bytes[i] != 9));
        assert(!hub::header_byte(bytes[i]));
    }
}

/// A gated repository is marked as such, and one that is not gated is not marked.
pub proof fn law_gated_is_marked()
    ensures
        hub::gated_mark(true) == " \u{2022} gated"@,
        hub::gated_mark(false).len() == 0,
{
}

/// Every piece of a path is encoded by itself, in its place.
pub proof fn law_pieces_are_encoded_one_by_one(parts: Seq<Seq<char>>, i: int)
    requires
        0 <= i < parts.len(),
    ensures
        hub::url_texts(parts).len() == parts.len(),
        hub::url_texts(parts)[i] == hub::percent_encoded(encode_utf8(parts[i])),
{
}

} // verus!
