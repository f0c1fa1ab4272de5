//! Repository IDs: `organization/model`.

use crate::text;
use crate::text::Trim;
use crate::text_laws;
use vstd::prelude::*;

verus! {

/// The piece stands for a folder itself (`.`) or for the folder above it (`..`).
pub open spec fn is_dots(piece: Seq<char>) -> bool {
    piece == seq!['.'] || piece == seq!['.', '.']
}

/// A half of a repository ID that is also safe as the name of a folder.
pub open spec fn valid_half(half: Seq<char>) -> bool {
    half.len() > 0 && !is_dots(half) && !half.contains('\\') && !half.contains('\0')
}

/// The text is `organization/model`, with two halves that can serve as folder names.
pub open spec fn valid_repo_id(id: Seq<char>) -> bool {
    let halves = text::pieces(id, '/');
    halves.len() == 2 && valid_half(halves[0]) && valid_half(halves[1])
}

/// The repository that a user means by an entered text: white space around it and then slashes
/// around it do not count, and what is left has two halves of which neither is empty or a dot
/// name.
pub open spec fn entered_id(input: Seq<char>) -> Option<Seq<char>> {
    let id = text::trimmed(text::trimmed(input, Trim::WhiteSpace), Trim::Slash);
    let halves = text::pieces(id, '/');
    if halves.len() == 2 && halves[0].len() > 0 && !is_dots(halves[0]) && halves[1].len() > 0
        && !is_dots(halves[1]) {
        Some(id)
    } else {
        None
    }
}

/// The piece is `.` or `..`.
pub fn has_only_dots(piece: &str) -> (b: bool)
    ensures
        b == is_dots(piece@),
{
    proof {
        reveal_strlit(".");
        reveal_strlit("..");
        assert("."@ =~= seq!['.']);
        assert(".."@ =~= seq!['.', '.']);
    }
    text::same_text(piece, ".") || text::same_text(piece, "..")
}

fn is_valid_half(half: &str) -> (b: bool)
    ensures
        b == valid_half(half@),
{
    !half.is_empty() && !has_only_dots(half) && !text::contains_char(half, '\\')
        && !text::contains_char(half, '\0')
}

/// Accepts `organization/model` and refuses everything else.
pub fn validate_repo_id(repo_id: &str) -> (r: Result<(), String>)
    ensures
        r is Ok <==> valid_repo_id(repo_id@),
        r matches Err(error) ==> error@ == "repository ID must be organization/model"@,
{
    let halves = text::split(repo_id, '/');
    let ghost views = text::pieces(repo_id@, '/');
    assert(views.len() == halves.len());
    if halves.len() == 2 {
        assert(views[0] == halves@[0]@ && views[1] == halves@[1]@);
        if is_valid_half(halves[0].as_str()) && is_valid_half(halves[1].as_str()) {
            return Ok(());
        }
    }
    Err("repository ID must be organization/model".to_owned())
}

/// Reads the ID of a repository out of what a user entered.
pub fn parse_entered_id(input: &str) -> (r: Result<String, String>)
    ensures
        match r {
            Ok(id) => entered_id(input@) == Some(id@),
            Err(error) => entered_id(input@) is None && error@ == "Use organization/model"@,
        },
{
    let trimmed = text::trim_ends(input, Trim::WhiteSpace);
    let id = text::trim_ends(trimmed.as_str(), Trim::Slash);
    let halves = text::split(id.as_str(), '/');
    let ghost views = text::pieces(id@, '/');
    assert(views.len() == halves.len());
    if halves.len() == 2 {
        assert(views[0] == halves@[0]@ && views[1] == halves@[1]@);
        if !halves[0].as_str().is_empty() && !has_only_dots(halves[0].as_str())
            && !halves[1].as_str().is_empty() && !has_only_dots(halves[1].as_str()) {
            return Ok(id);
        }
    }
    Err("Use organization/model".to_owned())
}

/// An entered ID is written `organization/model`, and it is a valid repository ID unless it holds
/// a backslash or a zero character.
pub proof fn law_entered_id_is_valid(input: Seq<char>)
    requires
        entered_id(input) is Some,
    ensures
        ({
            let id = entered_id(input)->0;
            let halves = text::pieces(id, '/');
            &&& halves.len() == 2
            &&& id == halves[0] + seq!['/'] + halves[1]
            &&& !id.contains('\\') && !id.contains('\0') ==> valid_repo_id(id)
        }),
{
    let id = entered_id(input)->0;
    let halves = text::pieces(id, '/');
    lemma_two_halves(id);
    if !id.contains('\\') && !id.contains('\0') {
        assert forall|c: char| halves[0].contains(c) || halves[1].contains(c) implies id.contains(
            c,
        ) by {
            if halves[0].contains(c) {
                let k = choose|k: int| 0 <= k < halves[0].len() && halves[0][k] == c;
                assert(id[k] == c);
            } else {
                let k = choose|k: int| 0 <= k < halves[1].len() && halves[1][k] == c;
                assert(id[halves[0].len() + 1 + k] == c);
            }
        }
    }
}

/// A valid repository ID is organization, slash and model, without further slashes.
pub proof fn law_valid_id_has_two_halves(id: Seq<char>)
    requires
        valid_repo_id(id),
    ensures
        ({
            let halves = text::pieces(id, '/');
            &&& id == halves[0] + seq!['/'] + halves[1]
            &&& !halves[0].contains('/')
            &&& !halves[1].contains('/')
        }),
{
    let halves = text::pieces(id, '/');
    lemma_two_halves(id);
    text::law_pieces_hold_no_separator(id, '/');
    assert(!halves[0].contains('/') && !halves[1].contains('/'));
}

proof fn lemma_two_halves(id: Seq<char>)
    requires
        text::pieces(id, '/').len() == 2,
    ensures
        id == text::pieces(id, '/')[0] + seq!['/'] + text::pieces(id, '/')[1],
{
    let halves = text::pieces(id, '/');
    text::law_join_of_pieces(id, '/');
    assert(halves.drop_last() =~= seq![halves[0]]);
    assert(text::joined(halves.drop_last(), seq!['/']) == halves[0]);
}

/// A half of an ID that a user may enter: not empty and not a name for this folder or the one
/// above it.
pub open spec fn enterable(half: Seq<char>) -> bool {
    half.len() > 0 && half != seq!['.'] && half != seq!['.', '.']
}

/// A half of an ID that the engine accepts, without a backslash or a zero character too.
pub open spec fn acceptable(half: Seq<char>) -> bool {
    &&& enterable(half)
    &&& forall|i: int| 0 <= i < half.len() ==> #[trigger] half[i] != '\\' && half[i] != '\0'
}

/// Two halves without a slash and a slash between them are a valid ID exactly when both halves
/// are acceptable.
pub proof fn law_valid_iff_halves_are(a: Seq<char>, b: Seq<char>)
    requires
        !a.contains('/'),
        !b.contains('/'),
    ensures
        valid_repo_id(a + seq!['/'] + b) <==> acceptable(a) && acceptable(b),
{
    text_laws::law_separators_part_pieces(a, b, '/');
    text_laws::law_separators_part_pieces(b, a, '/');
    assert(text::pieces(a + seq!['/'] + b, '/') =~= seq![a, b]);
    lemma_acceptable(a);
    lemma_acceptable(b);
}

proof fn lemma_acceptable(half: Seq<char>)
    ensures
        valid_half(half) <==> acceptable(half),
{
    if valid_half(half) {
        assert forall|i: int| 0 <= i < half.len() implies #[trigger] half[i] != '\\' && half[i]
            != '\0' by {
            assert(half.contains(half[i]));
        }
    }
}

/// A text without a slash, or with more than one, is no valid ID.
pub proof fn law_valid_id_has_one_slash(a: Seq<char>, b: Seq<char>, c: Seq<char>)
    ensures
        !a.contains('/') ==> !valid_repo_id(a),
        !valid_repo_id(a + seq!['/'] + b + seq!['/'] + c),
        !a.contains('/') ==> entered_id(a) is None,
{
    text_laws::law_separators_part_pieces(a, b, '/');
    text_laws::law_separators_part_pieces(a + seq!['/'] + b, c, '/');
    text::law_join_of_pieces(a, '/');
    text::law_join_of_pieces(b, '/');
    text::law_join_of_pieces(c, '/');
    if !a.contains('/') {
        let first = text::trimmed(a, Trim::WhiteSpace);
        let id = text::trimmed(first, Trim::Slash);
        text_laws::law_trim_takes_off_the_ends(a, Trim::WhiteSpace);
        text_laws::law_trim_takes_off_the_ends(first, Trim::Slash);
        assert forall|k: int| 0 <= k < first.len() implies first[k] != '/' by {
            let (f, t): (int, int) = choose|f: int, t: int| #[trigger]
                text_laws::left_by_trim(a, Trim::WhiteSpace, f, t) && first == a.subrange(f, t);
            assert(a.contains(a[f + k]));
        }
        assert forall|k: int| 0 <= k < id.len() implies id[k] != '/' by {
            let (f, t): (int, int) = choose|f: int, t: int| #[trigger]
                text_laws::left_by_trim(first, Trim::Slash, f, t) && id == first.subrange(f, t);
            assert(first[f + k] != '/');
        }
        assert(!id.contains('/'));
        text_laws::law_separators_part_pieces(id, id, '/');
    }
}

/// An ID is found in what a user entered: white space around it and then slashes around it are
/// taken off, and what is left is the ID if its halves can be entered.
pub proof fn law_entered_id_is_found(
    space: Seq<char>,
    slashes: Seq<char>,
    a: Seq<char>,
    b: Seq<char>,
    more_slashes: Seq<char>,
    more_space: Seq<char>,
)
    requires
        forall|i: int| 0 <= i < space.len() ==> text::is_white_space(#[trigger] space[i]),
        forall|i: int| 0 <= i < more_space.len() ==> text::is_white_space(#[trigger] more_space[i]),
        forall|i: int| 0 <= i < slashes.len() ==> #[trigger] slashes[i] == '/',
        forall|i: int| 0 <= i < more_slashes.len() ==> #[trigger] more_slashes[i] == '/',
        a.len() > 0 && b.len() > 0,
        !a.contains('/') && !b.contains('/'),
        slashes.len() > 0 || !text::is_white_space(a[0]),
        more_slashes.len() > 0 || !text::is_white_space(b.last()),
    ensures
        ({
            let id = a + seq!['/'] + b;
            let input = space + slashes + id + more_slashes + more_space;
            entered_id(input) == if enterable(a) && enterable(b) {
                Some(id)
            } else {
                None
            }
        }),
{
    let id = a + seq!['/'] + b;
    let middle = slashes + id + more_slashes;
    let input = space + slashes + id + more_slashes + more_space;
    let from = space.len() as int;
    let to = from + middle.len();
    assert(input.subrange(from, to) =~= middle);
    assert(!text::is_white_space('/'));
    assert(a.contains(a[0]));
    assert(b.contains(b[b.len() - 1]));
    assert(text_laws::left_by_trim(input, Trim::WhiteSpace, from, to)) by {
        assert forall|k: int| 0 <= k < from implies text_laws::trimmed_off(
            Trim::WhiteSpace,
            #[trigger] input[k],
        ) by {
            assert(input[k] == space[k]);
        }
        assert forall|k: int| to <= k < input.len() implies text_laws::trimmed_off(
            Trim::WhiteSpace,
            #[trigger] input[k],
        ) by {
            assert(input[k] == more_space[k - to]);
        }
        assert(input[from] == middle[0]);
        assert(input[to - 1] == middle[middle.len() - 1]);
        if slashes.len() > 0 {
            assert(middle[0] == slashes[0]);
        } else {
            assert(middle[0] == a[0]);
        }
        if more_slashes.len() > 0 {
            assert(middle[middle.len() - 1] == more_slashes[more_slashes.len() - 1]);
        } else {
            assert(middle[middle.len() - 1] == b[b.len() - 1]);
        }
    }
    text_laws::law_trim_leaves_the_middle(input, Trim::WhiteSpace, from, to);
    let (f, t) = (slashes.len() as int, slashes.len() + id.len());
    assert(middle.subrange(f, t as int) =~= id);
    assert(text_laws::left_by_trim(middle, Trim::Slash, f, t as int)) by {
        assert forall|k: int| 0 <= k < f implies text_laws::trimmed_off(
            Trim::Slash,
            #[trigger] middle[k],
        ) by {
            assert(middle[k] == slashes[k]);
        }
        assert forall|k: int| t <= k < middle.len() implies text_laws::trimmed_off(
            Trim::Slash,
            #[trigger] middle[k],
        ) by {
            assert(middle[k] == more_slashes[k - t]);
        }
        assert(middle[f] == a[0]);
        assert(middle[t - 1] == b[b.len() - 1]);
    }
    text_laws::law_trim_leaves_the_middle(middle, Trim::Slash, f, t as int);
    text_laws::law_separators_part_pieces(a, b, '/');
    text_laws::law_separators_part_pieces(b, a, '/');
    assert(text::pieces(id, '/') =~= seq![a, b]);
}

/// What counts as entered is a part of the input: around it there is nothing but white space and
/// slashes, it has no slash at its ends, and it has one slash in it.
pub proof fn law_entered_id_is_what_is_left(input: Seq<char>)
    requires
        entered_id(input) is Some,
    ensures
        ({
            let id = entered_id(input)->0;
            &&& exists|from: int, to: int| #[trigger] is_surrounded(input, from, to) && id
                == input.subrange(from, to)
            &&& exists|a: Seq<char>, b: Seq<char>|
                id == #[trigger] (a + seq!['/'] + b) && enterable(a) && enterable(b)
                    && !a.contains('/') && !b.contains('/')
        }),
{
    let id = entered_id(input)->0;
    let first = text::trimmed(input, Trim::WhiteSpace);
    text_laws::law_trim_takes_off_the_ends(input, Trim::WhiteSpace);
    text_laws::law_trim_takes_off_the_ends(first, Trim::Slash);
    let (f, t): (int, int) = choose|f: int, t: int| #[trigger]
        text_laws::left_by_trim(input, Trim::WhiteSpace, f, t) && first == input.subrange(f, t);
    let (g, u): (int, int) = choose|g: int, u: int| #[trigger]
        text_laws::left_by_trim(first, Trim::Slash, g, u) && id == first.subrange(g, u);
    let (from, to) = (f + g, f + u);
    assert(input.subrange(from, to) =~= id);
    assert forall|k: int| 0 <= k < from || to <= k < input.len() implies text::is_white_space(
        #[trigger] input[k],
    ) || input[k] == '/' by {
        if f <= k < t {
            assert(first[k - f] == input[k]);
        } else {
            assert(text_laws::trimmed_off(Trim::WhiteSpace, input[k]));
        }
    }
    assert(is_surrounded(input, from, to));
    let halves = text::pieces(id, '/');
    lemma_two_halves(id);
    text::law_pieces_hold_no_separator(id, '/');
    assert(!halves[0].contains('/') && !halves[1].contains('/'));
    assert(id == halves[0] + seq!['/'] + halves[1]);
}

/// Around `input[from..to]` there is nothing but white space and slashes.
pub open spec fn is_surrounded(input: Seq<char>, from: int, to: int) -> bool {
    &&& 0 <= from <= to <= input.len()
    &&& forall|k: int|
        0 <= k < from || to <= k < input.len() ==> text::is_white_space(#[trigger] input[k])
            || input[k] == '/'
}

} // verus!
