//! Where a file of a repository is stored, and under which names it is kept on the way.

use crate::repo_id;
use crate::text;
use crate::text_laws;
use vstd::prelude::*;

verus! {

/// The pieces do not lead out of the folder that they start in: the path does not start at the
/// root or with a dot, no piece goes up, and there is no backslash.
pub open spec fn safe_path(path: Seq<char>) -> bool {
    let parts = text::pieces(path, '/');
    &&& !(path.len() > 0 && path[0] == '/')
    &&& !path.contains('\\')
    &&& parts[0] != seq!['.']
    &&& forall|i: int| 0 <= i < parts.len() ==> #[trigger] parts[i] != seq!['.', '.']
}

/// Accepts a path that stays below the folder that it is taken from.
pub fn safe_relative(value: &str) -> (r: Result<String, String>)
    ensures
        match r {
            Ok(path) => safe_path(value@) && path@ == value@,
            Err(error) => !safe_path(value@) && error@ == "unsafe repository path: "@ + value@,
        },
{
    if is_safe(value) {
        Ok(value.to_owned())
    } else {
        let mut error = "unsafe repository path: ".to_owned();
        error.append(value);
        Err(error)
    }
}

fn is_safe(value: &str) -> (b: bool)
    ensures
        b == safe_path(value@),
{
    proof {
        reveal_strlit(".");
        reveal_strlit("..");
        assert("."@ =~= seq!['.']);
        assert(".."@ =~= seq!['.', '.']);
    }
    let chars = text::chars_of(value);
    if chars.len() > 0 && chars[0] == '/' {
        return false;
    }
    if text::contains_char(value, '\\') {
        return false;
    }
    let parts = text::split(value, '/');
    let ghost views = text::pieces(value@, '/');
    assert(views.len() == parts.len());
    assert(views[0] == parts@[0]@);
    if text::same_text(parts[0].as_str(), ".") {
        return false;
    }
    let mut i: usize = 0;
    while i < parts.len()
        invariant
            views == text::pieces(value@, '/'),
            views == text::texts(parts@),
            i <= parts.len(),
            ".."@ == seq!['.', '.'],
            forall|k: int| 0 <= k < i ==> #[trigger] views[k] != seq!['.', '.'],
        decreases parts.len() - i,
    {
        assert(views[i as int] == parts@[i as int]@);
        if text::same_text(parts[i].as_str(), "..") {
            return false;
        }
        i += 1;
    }
    true
}

/// A path below another one. A path that starts at the root stands for itself.
pub open spec fn path_join(base: Seq<char>, path: Seq<char>) -> Seq<char> {
    if path.len() > 0 && path[0] == '/' {
        path
    } else if base.len() == 0 || base.last() == '/' {
        base + path
    } else {
        base.push('/') + path
    }
}

/// The path `path` below `base`.
pub fn join_path(base: &str, path: &str) -> (r: String)
    ensures
        r@ == path_join(base@, path@),
{
    let base_chars = text::chars_of(base);
    let path_chars = text::chars_of(path);
    if path_chars.len() > 0 && path_chars[0] == '/' {
        return path.to_owned();
    }
    let mut r = base.to_owned();
    if base_chars.len() > 0 && base_chars[base_chars.len() - 1] != '/' {
        r.push('/');
    }
    r.append(path);
    r
}

/// The piece of a path names something: it is not empty and does not stand for the folder itself.
pub open spec fn names_something(piece: Seq<char>) -> bool {
    piece.len() > 0 && piece != seq!['.']
}

/// The position of the last piece that names something.
pub open spec fn last_name(parts: Seq<Seq<char>>) -> Option<int>
    decreases parts.len(),
{
    if parts.len() == 0 {
        None
    } else if names_something(parts.last()) {
        Some(parts.len() - 1)
    } else {
        last_name(parts.drop_last())
    }
}

/// The last two pieces of the path that name something are there.
pub open spec fn has_parent(path: Seq<char>) -> bool {
    let parts = text::pieces(path, '/');
    last_name(parts) is Some && last_name(parts.take(last_name(parts)->0)) is Some
}

/// The name at the end of a path.
pub open spec fn file_name(path: Seq<char>) -> Seq<char> {
    let parts = text::pieces(path, '/');
    parts[last_name(parts)->0]
}

/// The folder that holds what a path names.
pub open spec fn parent(path: Seq<char>) -> Seq<char> {
    let parts = text::pieces(path, '/');
    text::joined(
        parts.take(last_name(parts.take(last_name(parts)->0))->0 + 1),
        seq!['/'],
    )
}

/// Where a file is stored, and the names that it is kept under until it is complete.
#[derive(Debug)]
pub struct DownloadPaths {
    /// The finished file.
    pub target: String,
    /// The folder of the file.
    pub folder: String,
    /// The file while it is being fetched.
    pub partial: String,
    /// The record of the ranges that are fetched already.
    pub ranges: String,
    /// The record while it is being written.
    pub ranges_temp: String,
}

/// What [`DownloadPaths`] holds.
#[verifier::ext_equal]
pub struct DownloadPathsView {
    pub target: Seq<char>,
    pub folder: Seq<char>,
    pub partial: Seq<char>,
    pub ranges: Seq<char>,
    pub ranges_temp: Seq<char>,
}

impl View for DownloadPaths {
    type V = DownloadPathsView;

    open spec fn view(&self) -> DownloadPathsView {
        DownloadPathsView {
            target: self.target@,
            folder: self.folder@,
            partial: self.partial@,
            ranges: self.ranges@,
            ranges_temp: self.ranges_temp@,
        }
    }
}

/// The finished file: below the destination, in the folder of the organization and there in that
/// of the model, under the path that it has in the repository.
pub open spec fn target_path(
    destination: Seq<char>,
    id: Seq<char>,
    path: Seq<char>,
) -> Seq<char> {
    path_join(path_join(destination, id), path)
}

/// The partial file and its record stand next to the finished file.
pub open spec fn paths_of(target: Seq<char>) -> DownloadPathsView {
    let partial = path_join(parent(target), file_name(target) + ".part"@);
    DownloadPathsView {
        target,
        folder: parent(target),
        partial,
        ranges: partial + ".ranges"@,
        ranges_temp: partial + ".ranges.tmp"@,
    }
}

fn last_name_index(parts: &Vec<String>, end: usize) -> (at: Option<usize>)
    requires
        end <= parts.len(),
    ensures
        match at {
            Some(i) => i < end && last_name(text::texts(parts@).take(end as int)) == Some(
                i as int,
            ),
            None => last_name(text::texts(parts@).take(end as int)) is None,
        },
{
    proof {
        reveal_strlit(".");
        assert("."@ =~= seq!['.']);
    }
    let ghost views = text::texts(parts@);
    let mut i: usize = end;
    while i > 0
        invariant
            views == text::texts(parts@),
            "."@ == seq!['.'],
            i <= end <= parts.len(),
            last_name(views.take(end as int)) == last_name(views.take(i as int)),
        decreases i,
    {
        assert(views.take(i as int).drop_last() =~= views.take(i - 1));
        assert(views.take(i as int).last() == parts@[i - 1]@);
        if !parts[i - 1].as_str().is_empty() && !text::same_text(parts[i - 1].as_str(), ".") {
            return Some(i - 1);
        }
        i -= 1;
    }
    None
}

/// The names around a finished file.
fn paths_around(target: String) -> (paths: DownloadPaths)
    requires
        has_parent(target@),
    ensures
        paths@ == paths_of(target@),
{
    let pieces = text::split(target.as_str(), '/');
    let ghost views = text::pieces(target@, '/');
    assert(views.take(pieces.len() as int) =~= views);
    let name_at = last_name_index(&pieces, pieces.len()).unwrap();
    let folder_at = last_name_index(&pieces, name_at).unwrap();
    let borrowed = text::borrowed(&pieces);
    let front = vstd::slice::slice_subrange(borrowed.as_slice(), 0, folder_at + 1);
    proof {
        reveal_strlit("/");
        assert("/"@ =~= seq!['/']);
        assert(text::strs(front@) =~= views.take(folder_at + 1));
        assert(views[name_at as int] == pieces@[name_at as int]@);
    }
    let folder = text::join(front, "/");
    let mut name = pieces[name_at].clone();
    name.append(".part");
    let partial = join_path(folder.as_str(), name.as_str());
    let mut ranges = partial.clone();
    ranges.append(".ranges");
    let mut ranges_temp = partial.clone();
    ranges_temp.append(".ranges.tmp");
    DownloadPaths { target, folder, partial, ranges, ranges_temp }
}

proof fn lemma_last_name_behind(parts: Seq<Seq<char>>, i: int)
    requires
        0 <= i < parts.len(),
        names_something(parts[i]),
    ensures
        last_name(parts) matches Some(k) && i <= k < parts.len(),
    decreases parts.len(),
{
    if !names_something(parts.last()) {
        lemma_last_name_behind(parts.drop_last(), i);
    }
}

/// What stands in front of the repository ID in the path of a file.
pub open spec fn folder_prefix(destination: Seq<char>) -> Seq<char> {
    if destination.len() == 0 || destination.last() == '/' {
        destination
    } else {
        destination.push('/')
    }
}

/// A file is stored at its path in the repository, below the folders of the organization and the
/// model, below the destination. On the way from there no piece of the path goes up.
pub proof fn law_target_keeps_structure(destination: Seq<char>, id: Seq<char>, path: Seq<char>)
    requires
        repo_id::valid_repo_id(id),
        safe_path(path),
    ensures
        target_path(destination, id, path) == folder_prefix(destination) + id + seq!['/'] + path,
        ({
            let parts = text::pieces(target_path(destination, id, path), '/');
            let inner = text::pieces(path, '/');
            let n = parts.len() - inner.len();
            &&& 2 <= n
            &&& parts[n - 2] == text::pieces(id, '/')[0]
            &&& parts[n - 1] == text::pieces(id, '/')[1]
            &&& parts.skip(n) == inner
            &&& forall|i: int| n <= i < parts.len() ==> #[trigger] parts[i] != seq!['.', '.']
        }),
        has_parent(target_path(destination, id, path)),
{
    let halves = text::pieces(id, '/');
    let inner = text::pieces(path, '/');
    let prefix = folder_prefix(destination);
    repo_id::law_valid_id_has_two_halves(id);
    assert(id[0] == halves[0][0]);
    assert(id[0] != '/') by {
        assert(halves[0].contains(halves[0][0]));
    }
    assert(id.last() == halves[1].last());
    assert(id.last() != '/') by {
        assert(halves[1].contains(halves[1][halves[1].len() - 1]));
    }
    let base = path_join(destination, id);
    assert(base =~= prefix + id);
    assert(base.last() == id.last());
    let target = target_path(destination, id, path);
    assert(target =~= base.push('/') + path);
    assert(target =~= prefix + id + seq!['/'] + path);
    text::lemma_pieces_concat(base, path, '/');
    text::law_join_of_pieces(path, '/');
    let front = text::pieces(base, '/');
    assert(front.len() >= 2 && front[front.len() - 2] == halves[0] && front[front.len() - 1]
        == halves[1]) by {
        if prefix.len() > 0 {
            assert(prefix.last() == '/');
            assert(prefix.drop_last().push('/') =~= prefix);
            text::lemma_pieces_concat(prefix.drop_last(), id, '/');
        } else {
            assert(base =~= id);
        }
    }
    let parts = text::pieces(target, '/');
    let n = front.len() as int;
    assert(parts == front + inner);
    assert(parts.skip(n) =~= inner);
    assert forall|i: int| n <= i < parts.len() implies #[trigger] parts[i] != seq!['.', '.'] by {
        assert(parts[i] == inner[i - n]);
    }
    assert(names_something(parts[n - 2]) && names_something(parts[n - 1]));
    lemma_last_name_behind(parts, n - 1);
    let at = last_name(parts)->0;
    lemma_last_name_behind(parts.take(at), n - 2);
}

/// The paths for a file of a repository.
pub fn plan_paths(destination: &str, id: &str, path: &str) -> (r: Result<DownloadPaths, String>)
    requires
        repo_id::valid_repo_id(id@),
    ensures
        match r {
            Ok(paths) => safe_path(path@) && paths@ == paths_of(
                target_path(destination@, id@, path@),
            ),
            Err(error) => !safe_path(path@) && error@ == "unsafe repository path: "@ + path@,
        },
{
    let relative = match safe_relative(path) {
        Ok(relative) => relative,
        Err(error) => {
            return Err(error);
        },
    };
    let base = join_path(destination, id);
    let target = join_path(base.as_str(), relative.as_str());
    proof {
        law_target_keeps_structure(destination@, id@, path@);
    }
    Ok(paths_around(target))
}

/// A name in a folder is found again as the name and the folder of the path.
pub proof fn law_name_in_folder(folder: Seq<char>, name: Seq<char>)
    requires
        names_something(text::pieces(folder, '/').last()),
        names_something(name),
        !name.contains('/'),
    ensures
        path_join(folder, name) == folder.push('/') + name,
        has_parent(path_join(folder, name)),
        file_name(path_join(folder, name)) == name,
        parent(path_join(folder, name)) == folder,
{
    lemma_name_in_folder(folder, name);
}

proof fn lemma_name_in_folder(folder: Seq<char>, name: Seq<char>)
    requires
        names_something(text::pieces(folder, '/').last()),
        names_something(name),
        !name.contains('/'),
    ensures
        path_join(folder, name) == folder.push('/') + name,
        has_parent(path_join(folder, name)),
        file_name(path_join(folder, name)) == name,
        parent(path_join(folder, name)) == folder,
{
    let front = text::pieces(folder, '/');
    text::law_join_of_pieces(folder, '/');
    text::law_pieces_hold_no_separator(folder, '/');
    assert(!front[front.len() - 1].contains('/'));
    assert(folder.len() > 0 && folder.last() == front.last().last()) by {
        if front.len() == 1 {
            assert(text::joined(front, seq!['/']) == front[0]);
        }
    }
    assert(front.last().contains(front.last()[front.last().len() - 1]));
    assert(name.contains(name[0]));
    let path = path_join(folder, name);
    assert(path == folder.push('/') + name);
    text::lemma_pieces_concat(folder, name, '/');
    assert forall|i: int| 0 <= i < seq![name].len() implies !(#[trigger] seq![name][i]).contains(
        '/',
    ) by {}
    text::law_pieces_of_join(seq![name], '/');
    let parts = text::pieces(path, '/');
    assert(parts =~= front.push(name));
    assert(parts.take(parts.len() - 1) =~= front);
    assert(parts.take(front.len() as int) =~= front);
}

/// The partial file and its records stand in the folder of the finished file, under its name with
/// endings that tell them apart.
pub proof fn law_partial_next_to_target(target: Seq<char>)
    requires
        has_parent(target),
    ensures
        parent(paths_of(target).partial) == parent(target),
        parent(paths_of(target).ranges) == parent(target),
        parent(paths_of(target).ranges_temp) == parent(target),
        file_name(paths_of(target).partial) == file_name(target) + ".part"@,
        file_name(paths_of(target).ranges) == file_name(target) + ".part.ranges"@,
        file_name(paths_of(target).ranges_temp) == file_name(target) + ".part.ranges.tmp"@,
{
    let parts = text::pieces(target, '/');
    let at = last_name(parts)->0;
    let folder_at = last_name(parts.take(at))->0;
    let folder = parent(target);
    let name = file_name(target);
    lemma_last_name_is_name(parts);
    lemma_last_name_is_name(parts.take(at));
    text::law_pieces_hold_no_separator(target, '/');
    assert(!parts[at].contains('/'));
    let front = parts.take(folder_at + 1);
    assert forall|i: int| 0 <= i < front.len() implies !(#[trigger] front[i]).contains('/') by {
        assert(!parts[i].contains('/'));
    }
    text::law_pieces_of_join(front, '/');
    assert(text::pieces(folder, '/').last() == parts[folder_at]);
    reveal_strlit(".part");
    reveal_strlit(".part.ranges");
    reveal_strlit(".part.ranges.tmp");
    reveal_strlit(".ranges");
    reveal_strlit(".ranges.tmp");
    assert(".part"@ + ".ranges"@ =~= ".part.ranges"@);
    assert(".part"@ + ".ranges.tmp"@ =~= ".part.ranges.tmp"@);
    lemma_ending_names(name, ".part"@);
    lemma_ending_names(name, ".part.ranges"@);
    lemma_ending_names(name, ".part.ranges.tmp"@);
    lemma_name_in_folder(folder, name + ".part"@);
    lemma_name_in_folder(folder, name + ".part.ranges"@);
    lemma_name_in_folder(folder, name + ".part.ranges.tmp"@);
    assert(paths_of(target).ranges =~= path_join(folder, name + ".part.ranges"@));
    assert(paths_of(target).ranges_temp =~= path_join(folder, name + ".part.ranges.tmp"@));
}

proof fn lemma_last_name_is_name(parts: Seq<Seq<char>>)
    requires
        last_name(parts) is Some,
    ensures
        0 <= last_name(parts)->0 < parts.len(),
        names_something(parts[last_name(parts)->0]),
    decreases parts.len(),
{
    if !names_something(parts.last()) {
        lemma_last_name_is_name(parts.drop_last());
    }
}

proof fn lemma_ending_names(name: Seq<char>, ending: Seq<char>)
    requires
        name.len() > 0,
        ending.len() > 0,
        !name.contains('/'),
        forall|i: int| 0 <= i < ending.len() ==> ending[i] != '/',
    ensures
        names_something(name + ending),
        !(name + ending).contains('/'),
{
    let whole = name + ending;
    assert(whole.len() > 1);
    assert(seq!['.'].len() == 1);
    if whole.contains('/') {
        let k = choose|k: int| 0 <= k < whole.len() && whole[k] == '/';
        if k < name.len() {
            assert(name[k] == '/');
        } else {
            assert(ending[k - name.len()] == '/');
        }
    }
}

proof fn lemma_joined_contains(parts: Seq<Seq<char>>, c: char)
    requires
        c != '/',
    ensures
        text::joined(parts, seq!['/']).contains(c) <==> exists|i: int|
            0 <= i < parts.len() && (#[trigger] parts[i]).contains(c),
    decreases parts.len(),
{
    let whole = text::joined(parts, seq!['/']);
    if parts.len() == 1 {
        if parts[0].contains(c) {
            assert(parts[0].contains(c));
        }
    } else if parts.len() > 1 {
        let front = text::joined(parts.drop_last(), seq!['/']);
        let last = parts.last();
        lemma_joined_contains(parts.drop_last(), c);
        assert(whole == front + seq!['/'] + last);
        if whole.contains(c) {
            let k = choose|k: int| 0 <= k < whole.len() && whole[k] == c;
            if k < front.len() {
                assert(front[k] == c);
                let i = choose|i: int|
                    0 <= i < parts.len() - 1 && (#[trigger] parts.drop_last()[i]).contains(c);
                assert(parts[i].contains(c));
            } else {
                assert(k > front.len());
                assert(last[k - front.len() - 1] == c);
                assert(parts[parts.len() - 1].contains(c));
            }
        }
        if exists|i: int| 0 <= i < parts.len() && (#[trigger] parts[i]).contains(c) {
            let i = choose|i: int| 0 <= i < parts.len() && (#[trigger] parts[i]).contains(c);
            if i < parts.len() - 1 {
                assert(parts.drop_last()[i].contains(c));
                let k = choose|k: int| 0 <= k < front.len() && front[k] == c;
                assert(whole[k] == c);
            } else {
                let k = choose|k: int| 0 <= k < last.len() && last[k] == c;
                assert(whole[front.len() + 1 + k] == c);
            }
        }
    }
}

/// A path is safe exactly when it does not start at the root or with a dot, no part of it is the
/// folder above, and no part holds a backslash. Nothing else keeps a path from being safe.
pub proof fn law_safe_iff_parts_are(parts: Seq<Seq<char>>)
    requires
        parts.len() > 0,
        forall|i: int| 0 <= i < parts.len() ==> !(#[trigger] parts[i]).contains('/'),
    ensures
        safe_path(text::joined(parts, seq!['/'])) <==> {
            &&& !(parts.len() > 1 && parts[0].len() == 0)
            &&& parts[0] != seq!['.']
            &&& forall|i: int|
                0 <= i < parts.len() ==> #[trigger] parts[i] != seq!['.', '.']
                    && !parts[i].contains('\\')
        },
{
    let path = text::joined(parts, seq!['/']);
    text::law_pieces_of_join(parts, '/');
    lemma_joined_contains(parts, '\\');
    assert(!parts[0].contains('/'));
    if parts.len() > 1 {
        text::lemma_joined_split(parts, seq!['/'], 1);
        assert(parts.take(1) =~= seq![parts[0]]);
        let rest = text::joined(parts.skip(1), seq!['/']);
        assert(path == parts[0] + seq!['/'] + rest);
        if parts[0].len() > 0 {
            assert(path[0] == parts[0][0]);
            assert(parts[0].contains(parts[0][0]));
        } else {
            assert(path[0] == '/');
        }
    } else if parts[0].len() > 0 {
        assert(parts[0].contains(parts[0][0]));
    }
}

/// A path is put below another one with one slash between them, unless one is there already, there
/// is nothing to put it below, or it starts at the root.
pub proof fn law_paths_are_joined_with_a_slash(base: Seq<char>, path: Seq<char>)
    ensures
        path.len() > 0 && path[0] == '/' ==> path_join(base, path) == path,
        !(path.len() > 0 && path[0] == '/') && base.len() > 0 && base.last() != '/' ==> path_join(
            base,
            path,
        ) == base + seq!['/'] + path,
        !(path.len() > 0 && path[0] == '/') && (base.len() == 0 || base.last() == '/')
            ==> path_join(base, path) == base + path,
{
    assert(base.push('/') + path =~= base + seq!['/'] + path);
}

/// Slashes and dots behind a path change neither the name at its end nor its folder.
pub proof fn law_trailing_slashes_and_dots(path: Seq<char>)
    requires
        has_parent(path),
    ensures
        file_name(path + seq!['/']) == file_name(path),
        parent(path + seq!['/']) == parent(path),
        file_name(path + seq!['/', '.']) == file_name(path),
        parent(path + seq!['/', '.']) == parent(path),
{
    let parts = text::pieces(path, '/');
    let none = Seq::<char>::empty();
    let dot = seq!['.'];
    text_laws::law_separators_part_pieces(path, none, '/');
    text_laws::law_separators_part_pieces(path, dot, '/');
    text_laws::law_separators_part_pieces(none, none, '/');
    text_laws::law_separators_part_pieces(dot, dot, '/');
    assert(path + seq!['/'] + none =~= path + seq!['/']);
    assert(path + seq!['/'] + dot =~= path + seq!['/', '.']);
    lemma_last_name_is_name(parts);
    let at = last_name(parts)->0;
    lemma_last_name_is_name(parts.take(at));
    let folder_at = last_name(parts.take(at))->0;
    assert(parts + seq![none] =~= parts.push(none));
    assert(parts + seq![dot] =~= parts.push(dot));
    assert(parts.push(none).drop_last() =~= parts);
    assert(parts.push(dot).drop_last() =~= parts);
    assert(parts.push(none).take(at) =~= parts.take(at));
    assert(parts.push(dot).take(at) =~= parts.take(at));
    assert(parts.push(none).take(folder_at + 1) =~= parts.take(folder_at + 1));
    assert(parts.push(dot).take(folder_at + 1) =~= parts.take(folder_at + 1));
}

/// The names around a finished file, written out: its folder, and below that its name with the
/// endings for the partial file, the record, and the record while it is written.
pub proof fn law_names_around_a_file(folder: Seq<char>, name: Seq<char>)
    requires
        names_something(text::pieces(folder, '/').last()),
        names_something(name),
        !name.contains('/'),
    ensures
        ({
            let target = folder + seq!['/'] + name;
            let paths = paths_of(target);
            &&& paths.target == target
            &&& paths.folder == folder
            &&& paths.partial == target + ".part"@
            &&& paths.ranges == target + ".part.ranges"@
            &&& paths.ranges_temp == target + ".part.ranges.tmp"@
        }),
{
    let target = folder + seq!['/'] + name;
    lemma_name_in_folder(folder, name);
    assert(target =~= folder.push('/') + name);
    assert(path_join(folder, name) == target);
    reveal_strlit(".part");
    reveal_strlit(".part.ranges");
    reveal_strlit(".part.ranges.tmp");
    reveal_strlit(".ranges");
    reveal_strlit(".ranges.tmp");
    assert(".part"@ + ".ranges"@ =~= ".part.ranges"@);
    assert(".part"@ + ".ranges.tmp"@ =~= ".part.ranges.tmp"@);
    lemma_ending_names(name, ".part"@);
    lemma_name_in_folder(folder, name + ".part"@);
    assert(folder.push('/') + (name + ".part"@) =~= target + ".part"@);
    assert(paths_of(target).ranges =~= target + ".part.ranges"@);
    assert(paths_of(target).ranges_temp =~= target + ".part.ranges.tmp"@);
}

/// The view of the paths shows every one of them.
pub proof fn law_paths_view_shows_every_path(paths: DownloadPaths)
    ensures
        paths@.target == paths.target@,
        paths@.folder == paths.folder@,
        paths@.partial == paths.partial@,
        paths@.ranges == paths.ranges@,
        paths@.ranges_temp == paths.ranges_temp@,
{
}

} // verus!
