//! Joining paths, on each kind of platform.

use vstd::prelude::*;

verus! {

/// The kinds of platforms, as far as paths and exit codes differ between them.
#[derive(Debug, Clone, Copy, PartialEq, Eq, Structural)]
pub enum Platform {
    Unix,
    Windows,
}

/// Whether `c` separates the names in a path.
pub open spec fn separates(platform: Platform, c: char) -> bool {
    c == '/' || (platform == Platform::Windows && c == '\\')
}

/// The separator that is put between two names.
pub open spec fn main_separator(platform: Platform) -> char {
    match platform {
        Platform::Unix => '/',
        Platform::Windows => '\\',
    }
}

/// Whether a drive, such as `C:`, stands in `path` at the position `at`.
pub open spec fn drive_at(path: Seq<char>, at: int) -> bool {
    &&& at + 2 <= path.len()
    &&& 'a' <= path[at] <= 'z' || 'A' <= path[at] <= 'Z'
    &&& path[at + 1] == ':'
}

/// Whether `path` has a verbatim prefix, `\\?\` and what follows it. Behind such a prefix only
/// `\` separates names.
pub open spec fn is_verbatim(platform: Platform, path: Seq<char>) -> bool {
    &&& platform == Platform::Windows
    &&& path.len() >= 4
    &&& path[0] == '\\' && path[1] == '\\' && path[2] == '?' && path[3] == '\\'
}

/// Whether `path` goes on with `UNC\` behind the `\\?\` that it begins with.
pub open spec fn is_verbatim_share(path: Seq<char>) -> bool {
    path.len() >= 8 && path[4] == 'U' && path[5] == 'N' && path[6] == 'C' && path[7] == '\\'
}

/// Whether a Windows path is cut at `c`: at `\`, and at `/` if `slash` says so.
pub open spec fn cuts(slash: bool, c: char) -> bool {
    c == '\\' || (slash && c == '/')
}

/// Where the name that begins at `from` ends: at the next cut or at the end of `path`.
pub open spec fn name_end(slash: bool, path: Seq<char>, from: int) -> int
    decreases path.len() - from,
{
    if from >= path.len() || cuts(slash, path[from]) {
        from
    } else {
        name_end(slash, path, from + 1)
    }
}

/// The length of the prefix of `path`, which says what the rest of it is relative to. Only
/// paths on Windows have one:
///
/// - a drive: `C:`;
/// - a share: `\\server\share`;
/// - a device: `\\.\device`;
/// - a verbatim share, drive or name: `\\?\UNC\server\share`, `\\?\C:`, `\\?\name`.
pub open spec fn prefix_len(platform: Platform, path: Seq<char>) -> int {
    if platform == Platform::Unix {
        0
    } else if drive_at(path, 0) {
        2
    } else if is_verbatim(platform, path) {
        if is_verbatim_share(path) {
            let server_end = name_end(false, path, 8);
            let share_end = name_end(false, path, server_end + 1);
            if server_end + 1 < share_end {
                share_end
            } else {
                server_end
            }
        } else if drive_at(path, 4) && (path.len() == 6 || cuts(true, path[6])) {
            6
        } else {
            name_end(false, path, 4)
        }
    } else if path.len() >= 2 && cuts(true, path[0]) && cuts(true, path[1]) {
        if path.len() >= 4 && path[2] == '.' && cuts(true, path[3]) {
            name_end(true, path, 4)
        } else {
            let server_end = name_end(true, path, 2);
            let share_end = name_end(true, path, server_end + 1);
            if 2 < server_end && server_end + 1 < share_end {
                share_end
            } else {
                0
            }
        }
    } else {
        0
    }
}

/// Whether `path` begins with a separator, once its prefix is taken off.
pub open spec fn has_root(platform: Platform, path: Seq<char>) -> bool {
    let start = prefix_len(platform, path);
    start < path.len() && separates(platform, path[start])
}

/// Whether a path means something only below another one.
pub open spec fn is_relative(platform: Platform, path: Seq<char>) -> bool {
    prefix_len(platform, path) == 0 && !has_root(platform, path)
}

/// A Windows path cut into pieces: always one more than there are cuts.
pub open spec fn pieces(slash: bool, path: Seq<char>) -> Seq<Seq<char>>
    decreases path.len(),
{
    if path.len() == 0 {
        seq![Seq::<char>::empty()]
    } else {
        let before = pieces(slash, path.drop_last());
        if cuts(slash, path.last()) {
            before.push(Seq::<char>::empty())
        } else {
            before.drop_last().push(before.last().push(path.last()))
        }
    }
}

/// Whether `name` stands for the directory itself.
pub open spec fn is_current(name: Seq<char>) -> bool {
    name.len() == 1 && name[0] == '.'
}

/// Whether `name` stands for the directory above.
pub open spec fn is_parent(name: Seq<char>) -> bool {
    name.len() == 2 && name[0] == '.' && name[1] == '.'
}

/// Whether `name` is the name of something in a directory.
pub open spec fn is_plain(name: Seq<char>) -> bool {
    name.len() > 0 && !is_current(name) && !is_parent(name)
}

/// The names that lead to `name` in the directory that `names` lead to. Nothing is above the
/// first name.
pub open spec fn entered(names: Seq<Seq<char>>, name: Seq<char>) -> Seq<Seq<char>> {
    if is_plain(name) {
        names.push(name)
    } else if is_parent(name) && names.len() > 0 {
        names.drop_last()
    } else {
        names
    }
}

/// The names that lead from the directory that `names` lead to along `list`.
pub open spec fn resolved(names: Seq<Seq<char>>, list: Seq<Seq<char>>) -> Seq<Seq<char>>
    decreases list.len(),
{
    if list.len() == 0 {
        names
    } else {
        entered(resolved(names, list.drop_last()), list.last())
    }
}

/// The names behind the prefix of a path that is verbatim.
pub open spec fn verbatim_names(path: Seq<char>) -> Seq<Seq<char>> {
    let start = prefix_len(Platform::Windows, path);
    if start < path.len() {
        resolved(Seq::empty(), pieces(false, path.skip(start + 1)))
    } else {
        Seq::empty()
    }
}

/// The names of `component` below the path `base`, which is verbatim.
pub open spec fn names_below(base: Seq<char>, component: Seq<char>) -> Seq<Seq<char>> {
    let own = if has_root(Platform::Windows, component) {
        Seq::empty()
    } else {
        verbatim_names(base)
    };
    resolved(own, pieces(true, component))
}

/// `names` with `\` before each of them.
pub open spec fn written(names: Seq<Seq<char>>) -> Seq<char>
    decreases names.len(),
{
    if names.len() == 0 {
        Seq::empty()
    } else {
        written(names.drop_last()).push('\\') + names.last()
    }
}

/// `component` below the path `base`, which is verbatim: the prefix of the base and the names,
/// none of which is `.` or `..`. The root stays if it is all that is left.
pub open spec fn verbatim_joined(base: Seq<char>, component: Seq<char>) -> Seq<char> {
    let start = prefix_len(Platform::Windows, base);
    let names = names_below(base, component);
    let rooted = start < base.len() || has_root(Platform::Windows, component);
    base.take(start) + if names.len() == 0 && rooted {
        seq!['\\']
    } else {
        written(names)
    }
}

/// `component` below `base`. A component with a prefix stands for itself. Joined to a verbatim
/// base, any other that is not empty gives a path without the names `.` and `..`. Else one
/// with a root keeps no more of the base than its prefix, and exactly one separator is put
/// between a relative one and the base, unless the base is empty, ends with a separator or is
/// a mere drive.
pub open spec fn joined_path(
    platform: Platform,
    base: Seq<char>,
    component: Seq<char>,
) -> Seq<char> {
    if prefix_len(platform, component) > 0 {
        component
    } else if is_verbatim(platform, base) && component.len() > 0 {
        verbatim_joined(base, component)
    } else if has_root(platform, component) {
        base.take(prefix_len(platform, base)) + component
    } else if base.len() == 0 || separates(platform, base.last()) || (platform
        == Platform::Windows && base.len() == 2 && drive_at(base, 0)) {
        base + component
    } else {
        base.push(main_separator(platform)) + component
    }
}

fn is_separator(platform: Platform, c: char) -> (yes: bool)
    ensures
        yes == separates(platform, c),
{
    c == '/' || (platform == Platform::Windows && c == '\\')
}

fn is_cut(slash: bool, c: char) -> (yes: bool)
    ensures
        yes == cuts(slash, c),
{
    c == '\\' || (slash && c == '/')
}

fn has_drive(path: &str, at: usize) -> (yes: bool)
    requires
        at <= path@.len(),
    ensures
        yes == drive_at(path@, at as int),
{
    if path.unicode_len() - at < 2 {
        return false;
    }
    let letter = path.get_char(at);
    (('a' <= letter && letter <= 'z') || ('A' <= letter && letter <= 'Z')) && path.get_char(at + 1)
        == ':'
}

fn verbatim(platform: Platform, path: &str) -> (yes: bool)
    ensures
        yes == is_verbatim(platform, path@),
{
    platform == Platform::Windows && path.unicode_len() >= 4 && path.get_char(0) == '\\'
        && path.get_char(1) == '\\' && path.get_char(2) == '?' && path.get_char(3) == '\\'
}

fn verbatim_share(path: &str) -> (yes: bool)
    ensures
        yes == is_verbatim_share(path@),
{
    path.unicode_len() >= 8 && path.get_char(4) == 'U' && path.get_char(5) == 'N'
        && path.get_char(6) == 'C' && path.get_char(7) == '\\'
}

fn end_of_name(slash: bool, path: &str, from: usize) -> (end: usize)
    requires
        from <= path@.len(),
    ensures
        from <= end <= path@.len(),
        end == name_end(slash, path@, from as int),
{
    let length: usize = path.unicode_len();
    let mut end: usize = from;
    while end < length && !is_cut(slash, path.get_char(end))
        invariant
            length == path@.len(),
            from <= end <= length,
            name_end(slash, path@, end as int) == name_end(slash, path@, from as int),
        decreases length - end,
    {
        end = end + 1;
    }
    end
}

/// Where the share ends whose server begins at `from`, or where the server ends if no share
/// follows it.
fn end_of_share(slash: bool, path: &str, from: usize) -> (ends: (usize, usize))
    requires
        from <= path@.len(),
    ensures
        from <= ends.0 <= ends.1 <= path@.len(),
        ends.0 == name_end(slash, path@, from as int),
        ({
            let share_end = name_end(slash, path@, ends.0 + 1);
            ends.1 == if ends.0 + 1 < share_end {
                share_end
            } else {
                ends.0 as int
            }
        }),
{
    let server_end: usize = end_of_name(slash, path, from);
    if server_end < path.unicode_len() {
        let share_end: usize = end_of_name(slash, path, server_end + 1);
        if server_end + 1 < share_end {
            return (server_end, share_end);
        }
    }
    (server_end, server_end)
}

fn prefix_length(platform: Platform, path: &str) -> (length: usize)
    ensures
        length <= path@.len(),
        length == prefix_len(platform, path@),
{
    if platform == Platform::Unix {
        return 0;
    }
    if has_drive(path, 0) {
        return 2;
    }
    let length: usize = path.unicode_len();
    if verbatim(platform, path) {
        if verbatim_share(path) {
            let (_, end) = end_of_share(false, path, 8);
            return end;
        }
        if has_drive(path, 4) && (length == 6 || is_cut(true, path.get_char(6))) {
            return 6;
        }
        return end_of_name(false, path, 4);
    }
    if length >= 2 && is_cut(true, path.get_char(0)) && is_cut(true, path.get_char(1)) {
        if length >= 4 && path.get_char(2) == '.' && is_cut(true, path.get_char(3)) {
            return end_of_name(true, path, 4);
        }
        let (server_end, share_end) = end_of_share(true, path, 2);
        if 2 < server_end && server_end < share_end {
            return share_end;
        }
    }
    0
}

fn with_root(platform: Platform, path: &str) -> (yes: bool)
    ensures
        yes == has_root(platform, path@),
{
    let start: usize = prefix_length(platform, path);
    start < path.unicode_len() && is_separator(platform, path.get_char(start))
}

/// Goes on to `name`.
fn enter(names: &mut Vec<String>, name: &str)
    ensures
        final(names).deep_view() == entered(old(names).deep_view(), name@),
{
    let length: usize = name.unicode_len();
    if length == 0 || (length == 1 && name.get_char(0) == '.') {
        return;
    }
    if length == 2 && name.get_char(0) == '.' && name.get_char(1) == '.' {
        names.pop();
        proof {
            if old(names)@.len() > 0 {
                assert(names.deep_view() =~= old(names).deep_view().drop_last());
            } else {
                assert(names.deep_view() =~= old(names).deep_view());
            }
        }
        return;
    }
    names.push(name.to_owned());
    assert(names.deep_view() =~= old(names).deep_view().push(name@));
}

/// Goes on along what `path` holds from `from` on.
fn enter_all(names: &mut Vec<String>, slash: bool, path: &str, from: usize)
    requires
        from <= path@.len(),
    ensures
        final(names).deep_view() == resolved(
            old(names).deep_view(),
            pieces(slash, path@.skip(from as int)),
        ),
{
    let ghost own = names.deep_view();
    let ghost rest = path@.skip(from as int);
    let length: usize = path.unicode_len();
    let mut start: usize = from;
    let mut next: usize = from;
    proof {
        assert(rest.take(0) =~= Seq::<char>::empty());
        assert(path@.subrange(start as int, next as int) =~= Seq::<char>::empty());
        assert(pieces(slash, rest.take(0)).drop_last() =~= Seq::<Seq<char>>::empty());
    }
    while next < length
        invariant
            length == path@.len(),
            from <= start <= next <= length,
            rest == path@.skip(from as int),
            pieces(slash, rest.take(next - from)).len() > 0,
            pieces(slash, rest.take(next - from)).last() == path@.subrange(
                start as int,
                next as int,
            ),
            names.deep_view() == resolved(
                own,
                pieces(slash, rest.take(next - from)).drop_last(),
            ),
        decreases length - next,
    {
        let ghost before = pieces(slash, rest.take(next - from));
        assert(rest.take(next + 1 - from).drop_last() =~= rest.take(next - from));
        assert(rest.take(next + 1 - from).last() == path@[next as int]);
        if is_cut(slash, path.get_char(next)) {
            enter(names, path.substring_char(start, next));
            start = next + 1;
            proof {
                assert(pieces(slash, rest.take(next + 1 - from)).drop_last() =~= before);
                assert(path@.subrange(next + 1, next + 1) =~= Seq::<char>::empty());
            }
        } else {
            assert(path@.subrange(start as int, next + 1) =~= before.last().push(
                path@[next as int],
            ));
            assert(pieces(slash, rest.take(next + 1 - from)).drop_last() =~= before.drop_last());
        }
        next = next + 1;
    }
    enter(names, path.substring_char(start, length));
    assert(rest.take(length - from) =~= rest);
}

/// Joins `component`, which has no prefix, to the path `base`, which is verbatim.
fn join_verbatim(base: &str, component: &str) -> (path: String)
    ensures
        path@ == verbatim_joined(base@, component@),
{
    let start: usize = prefix_length(Platform::Windows, base);
    let root = with_root(Platform::Windows, component);
    let rooted = start < base.unicode_len() || root;
    let mut names: Vec<String> = Vec::new();
    assert(names.deep_view() =~= Seq::<Seq<char>>::empty());
    if !root && start < base.unicode_len() {
        enter_all(&mut names, false, base, start + 1);
    }
    enter_all(&mut names, true, component, 0);
    assert(component@.skip(0) =~= component@);
    let mut path = base.substring_char(0, start).to_owned();
    assert(path@ =~= base@.take(start as int));
    proof {
        reveal_strlit("\\");
        assert("\\"@ =~= seq!['\\']);
    }
    if names.len() == 0 && rooted {
        path.append("\\");
        return path;
    }
    let ghost all = names.deep_view();
    assert(path@ =~= base@.take(start as int) + written(all.take(0)));
    for i in 0..names.len()
        invariant
            "\\"@ == seq!['\\'],
            all == names.deep_view(),
            path@ == base@.take(start as int) + written(all.take(i as int)),
    {
        assert(all.take(i + 1).drop_last() =~= all.take(i as int));
        path.append("\\");
        path.append(names[i].as_str());
        assert(path@ =~= base@.take(start as int) + written(all.take(i + 1)));
    }
    assert(all.take(all.len() as int) =~= all);
    path
}

/// Joins `component` to `base`.
pub fn join_path(platform: Platform, base: &str, component: &str) -> (path: String)
    ensures
        path@ == joined_path(platform, base@, component@),
{
    if prefix_length(platform, component) > 0 {
        return component.to_owned();
    }
    if verbatim(platform, base) && component.unicode_len() > 0 {
        return join_verbatim(base, component);
    }
    if with_root(platform, component) {
        let kept: usize = prefix_length(platform, base);
        let mut path = base.substring_char(0, kept).to_owned();
        assert(path@ =~= base@.take(kept as int));
        path.append(component);
        return path;
    }
    let mut path = base.to_owned();
    let length: usize = base.unicode_len();
    if length > 0 && !is_separator(platform, base.get_char(length - 1)) && !(platform
        == Platform::Windows && length == 2 && has_drive(base, 0)) {
        proof {
            reveal_strlit("/");
            reveal_strlit("\\");
        }
        match platform {
            Platform::Unix => path.append("/"),
            Platform::Windows => path.append("\\"),
        }
        assert(path@ =~= base@.push(main_separator(platform)));
    }
    path.append(component);
    path
}

proof fn lemma_name_end(slash: bool, path: Seq<char>, from: int)
    ensures
        from <= name_end(slash, path, from),
        from <= path.len() ==> name_end(slash, path, from) <= path.len(),
    decreases path.len() - from,
{
    if from < path.len() && !cuts(slash, path[from]) {
        lemma_name_end(slash, path, from + 1);
    }
}

proof fn lemma_prefix_len(platform: Platform, path: Seq<char>)
    ensures
        0 <= prefix_len(platform, path) <= path.len(),
        is_verbatim(platform, path) ==> prefix_len(platform, path) >= 4,
{
    lemma_name_end(false, path, 8);
    lemma_name_end(false, path, 4);
    lemma_name_end(true, path, 4);
    lemma_name_end(true, path, 2);
    lemma_name_end(false, path, name_end(false, path, 8) + 1);
    lemma_name_end(true, path, name_end(true, path, 2) + 1);
}

/// The names that lead somewhere are plain.
proof fn lemma_resolved_plain(names: Seq<Seq<char>>, list: Seq<Seq<char>>)
    requires
        forall|i: int| 0 <= i < names.len() ==> is_plain(#[trigger] names[i]),
    ensures
        forall|i: int|
            0 <= i < resolved(names, list).len() ==> is_plain(#[trigger] resolved(names, list)[i]),
    decreases list.len(),
{
    if list.len() > 0 {
        let before = resolved(names, list.drop_last());
        let now = resolved(names, list);
        lemma_resolved_plain(names, list.drop_last());
        assert forall|i: int| 0 <= i < now.len() implies is_plain(#[trigger] now[i]) by {
            if i < before.len() {
                assert(is_plain(before[i]));
            }
        }
    }
}

/// What is joined to a verbatim base is normalized: the names behind its prefix are plain, so
/// none is empty, `.` or `..`.
pub proof fn a_path_below_a_verbatim_one_is_normalized(base: Seq<char>, component: Seq<char>)
    ensures
        forall|i: int|
            0 <= i < names_below(base, component).len() ==> is_plain(
                #[trigger] names_below(base, component)[i],
            ),
{
    let start = prefix_len(Platform::Windows, base);
    if start < base.len() {
        lemma_resolved_plain(Seq::empty(), pieces(false, base.skip(start + 1)));
    }
    let own = if has_root(Platform::Windows, component) {
        Seq::empty()
    } else {
        verbatim_names(base)
    };
    lemma_resolved_plain(own, pieces(true, component));
}

/// How many names deeper one is behind the names of `list`, if that never leads above where
/// one began.
pub open spec fn descent(list: Seq<Seq<char>>) -> int
    decreases list.len(),
{
    if list.len() == 0 {
        0
    } else if is_plain(list.last()) {
        descent(list.drop_last()) + 1
    } else if is_parent(list.last()) {
        descent(list.drop_last()) - 1
    } else {
        descent(list.drop_last())
    }
}

/// Whether going along `list` never leads above where one began.
pub open spec fn stays_below(list: Seq<Seq<char>>) -> bool {
    forall|n: int| 0 <= n <= list.len() ==> descent(#[trigger] list.take(n)) >= 0
}

proof fn lemma_resolved_below(names: Seq<Seq<char>>, list: Seq<Seq<char>>)
    requires
        stays_below(list),
    ensures
        names.is_prefix_of(resolved(names, list)),
        resolved(names, list).len() == names.len() + descent(list),
    decreases list.len(),
{
    if list.len() == 0 {
        assert(names.take(names.len() as int) =~= names);
    } else {
        let init = list.drop_last();
        assert forall|n: int| 0 <= n <= init.len() implies descent(#[trigger] init.take(n)) >= 0 by {
            assert(init.take(n) =~= list.take(n));
        }
        lemma_resolved_below(names, init);
        assert(list.take(list.len() as int) =~= list);
        let before = resolved(names, init);
        let now = resolved(names, list);
        assert(names =~= before.take(names.len() as int));
        assert(names =~= now.take(names.len() as int));
    }
}

proof fn lemma_written_grows(names: Seq<Seq<char>>, more: Seq<Seq<char>>)
    requires
        names.is_prefix_of(more),
    ensures
        written(names).is_prefix_of(written(more)),
    decreases more.len(),
{
    if names.len() == more.len() {
        assert(names =~= more);
        assert(written(more).take(written(more).len() as int) =~= written(more));
    } else {
        let init = more.drop_last();
        assert(names =~= init.take(names.len() as int));
        lemma_written_grows(names, init);
        let text = written(names);
        assert(text =~= written(init).take(text.len() as int));
        assert(text =~= written(more).take(text.len() as int));
    }
}

/// What is joined to a base that is not verbatim stands at the end of the path, and a relative
/// path is joined below the base: the base stands at the beginning.
pub proof fn a_relative_path_lies_below_the_base(
    platform: Platform,
    base: Seq<char>,
    component: Seq<char>,
)
    requires
        !is_verbatim(platform, base),
    ensures
        component.is_suffix_of(joined_path(platform, base, component)),
        is_relative(platform, component) ==> base.is_prefix_of(
            joined_path(platform, base, component),
        ),
{
    lemma_prefix_len(platform, base);
    let path = joined_path(platform, base, component);
    assert(path.skip(path.len() - component.len()) =~= component);
}

/// A relative path that does not lead above where it begins is joined below a verbatim base:
/// the prefix and the names of the base stand at the beginning.
pub proof fn a_relative_path_lies_below_a_verbatim_base(base: Seq<char>, component: Seq<char>)
    requires
        is_verbatim(Platform::Windows, base),
        component.len() > 0,
        is_relative(Platform::Windows, component),
        stays_below(pieces(true, component)),
    ensures
        (base.take(prefix_len(Platform::Windows, base)) + written(
            verbatim_names(base),
        )).is_prefix_of(joined_path(Platform::Windows, base, component)),
{
    lemma_prefix_len(Platform::Windows, base);
    let start = base.take(prefix_len(Platform::Windows, base));
    let own = verbatim_names(base);
    let all = names_below(base, component);
    lemma_resolved_below(own, pieces(true, component));
    lemma_written_grows(own, all);
    let path = joined_path(Platform::Windows, base, component);
    let below = start + written(own);
    if all.len() == 0 {
        assert(own =~= Seq::<Seq<char>>::empty());
        assert(written(own) =~= Seq::<char>::empty());
        assert(below =~= path.take(below.len() as int));
    } else {
        assert(written(own) =~= written(all).take(written(own).len() as int));
        assert(below =~= path.take(below.len() as int));
    }
}

/// What is joined to a verbatim base begins with the base's prefix, unless it has one itself.
pub proof fn a_verbatim_prefix_stays(base: Seq<char>, component: Seq<char>)
    requires
        is_verbatim(Platform::Windows, base),
        prefix_len(Platform::Windows, component) == 0,
    ensures
        base.take(prefix_len(Platform::Windows, base)).is_prefix_of(
            joined_path(Platform::Windows, base, component),
        ),
        4 <= prefix_len(Platform::Windows, base) <= base.len(),
{
    lemma_prefix_len(Platform::Windows, base);
    let prefix = base.take(prefix_len(Platform::Windows, base));
    let path = joined_path(Platform::Windows, base, component);
    assert(prefix =~= path.take(prefix.len() as int));
}

/// A name goes on up to the next cut, or up to the end of the path.
pub proof fn a_name_ends_at_the_next_cut(slash: bool, path: Seq<char>, from: int)
    requires
        0 <= from <= path.len(),
    ensures
        ({
            let end = name_end(slash, path, from);
            &&& from <= end <= path.len()
            &&& forall|i: int| from <= i < end ==> !cuts(slash, #[trigger] path[i])
            &&& end < path.len() ==> cuts(slash, path[end])
        }),
    decreases path.len() - from,
{
    if from < path.len() && !cuts(slash, path[from]) {
        a_name_ends_at_the_next_cut(slash, path, from + 1);
    }
}

proof fn lemma_name_ends(slash: bool, path: Seq<char>, from: int, end: int)
    requires
        0 <= from <= end <= path.len(),
        forall|i: int| from <= i < end ==> !cuts(slash, #[trigger] path[i]),
        end == path.len() || cuts(slash, path[end]),
    ensures
        name_end(slash, path, from) == end,
    decreases end - from,
{
    if from < end {
        lemma_name_ends(slash, path, from + 1, end);
    }
}

/// On Unix a path that begins with `/` stands for itself, and any other is put behind the base
/// with one `/` between them, unless the base is empty or ends with `/`.
pub proof fn a_slash_joins_on_unix(base: Seq<char>, component: Seq<char>)
    ensures
        ({
            let path = joined_path(Platform::Unix, base, component);
            &&& component.len() > 0 && component[0] == '/' ==> path == component
            &&& !(component.len() > 0 && component[0] == '/') ==> {
                &&& base.len() == 0 ==> path == component
                &&& base.len() > 0 && base.last() == '/' ==> path == base + component
                &&& base.len() > 0 && base.last() != '/' ==> path == base + seq!['/'] + component
            }
        }),
{
    let path = joined_path(Platform::Unix, base, component);
    assert(base.take(0) + component =~= component);
    assert(base.push('/') + component =~= base + seq!['/'] + component);
    if base.len() == 0 {
        assert(base + component =~= component);
    }
}

/// Whether `c` is one of the two separators of Windows.
pub open spec fn is_slash(c: char) -> bool {
    c == '/' || c == '\\'
}

/// Whether a text begins with a letter and a colon.
pub open spec fn begins_with_drive(path: Seq<char>) -> bool {
    &&& path.len() >= 2
    &&& ('a' <= path[0] <= 'z' || 'A' <= path[0] <= 'Z')
    &&& path[1] == ':'
}

/// On Windows a path is relative exactly if it begins neither with a separator nor with a
/// drive; on Unix, if it does not begin with `/`.
pub proof fn a_path_is_relative_by_how_it_begins(path: Seq<char>)
    ensures
        is_relative(Platform::Unix, path) <==> !(path.len() > 0 && path[0] == '/'),
        is_relative(Platform::Windows, path) <==> !(path.len() > 0 && is_slash(path[0]))
            && !begins_with_drive(path),
{
}

/// On Windows a relative path is put behind a base that is not verbatim with one `\` between
/// them, unless the base is empty, ends with a separator or is a mere drive.
pub proof fn a_backslash_joins_on_windows(base: Seq<char>, component: Seq<char>)
    requires
        !is_verbatim(Platform::Windows, base),
        !(component.len() > 0 && is_slash(component[0])),
        !begins_with_drive(component),
    ensures
        joined_path(Platform::Windows, base, component) == if base.len() == 0 || is_slash(
            base.last(),
        ) || (base.len() == 2 && begins_with_drive(base)) {
            base + component
        } else {
            base + seq!['\\'] + component
        },
{
    assert(base.push('\\') + component =~= base + seq!['\\'] + component);
}

/// On Windows a path with a prefix stands for itself, and one with a root but no prefix keeps
/// no more of a base that is not verbatim than its prefix.
pub proof fn a_prefix_stands_for_itself(base: Seq<char>, component: Seq<char>)
    ensures
        prefix_len(Platform::Windows, component) > 0 ==> joined_path(
            Platform::Windows,
            base,
            component,
        ) == component,
        prefix_len(Platform::Windows, component) == 0 && component.len() > 0 && is_slash(
            component[0],
        ) && !is_verbatim(Platform::Windows, base) ==> joined_path(
            Platform::Windows,
            base,
            component,
        ) == base.take(prefix_len(Platform::Windows, base)) + component,
{
}

/// A drive is a prefix, whatever follows it.
pub proof fn a_drive_is_a_prefix(path: Seq<char>)
    requires
        begins_with_drive(path),
    ensures
        prefix_len(Platform::Windows, path) == 2,
{
}

/// Whether neither separator is in `name`.
pub open spec fn has_no_slash(name: Seq<char>) -> bool {
    forall|i: int| 0 <= i < name.len() ==> !is_slash(#[trigger] name[i])
}

/// Whether no `\` is in `name`.
pub open spec fn has_no_backslash(name: Seq<char>) -> bool {
    forall|i: int| 0 <= i < name.len() ==> #[trigger] name[i] != '\\'
}

/// Two separators, a server, a separator and a share are a prefix, whatever follows behind a
/// separator. So are a device in place of the share and `.` in place of the server.
pub proof fn a_share_is_a_prefix(
    slashes: (char, char, char),
    server: Seq<char>,
    share: Seq<char>,
    rest: Seq<char>,
)
    requires
        is_slash(slashes.0) && is_slash(slashes.1) && is_slash(slashes.2),
        server.len() > 0 && has_no_slash(server),
        share.len() > 0 && has_no_slash(share),
        server != seq!['?'],
        rest.len() > 0 ==> is_slash(rest[0]),
    ensures
        ({
            let path = seq![slashes.0, slashes.1] + server + seq![slashes.2] + share + rest;
            prefix_len(Platform::Windows, path) == 3 + server.len() + share.len()
        }),
{
    let path = seq![slashes.0, slashes.1] + server + seq![slashes.2] + share + rest;
    let server_end: int = 2 + server.len() as int;
    let share_end: int = 3 + server.len() + share.len() as int;
    assert forall|i: int| 2 <= i < server_end implies !cuts(true, #[trigger] path[i]) by {
        assert(path[i] == server[i - 2]);
    }
    assert forall|i: int| server_end < i < share_end implies !cuts(true, #[trigger] path[i]) by {
        assert(path[i] == share[i - server_end - 1]);
    }
    assert(path[server_end] == slashes.2);
    if rest.len() > 0 {
        assert(path[share_end] == rest[0]);
    }
    lemma_name_ends(true, path, 2, server_end);
    lemma_name_ends(true, path, server_end + 1, share_end);
    assert(path[0] == slashes.0 && path[1] == slashes.1);
    assert(path[2] == server[0]);
    if is_verbatim(Platform::Windows, path) {
        if server.len() > 1 {
            assert(path[3] == server[1]);
        }
        assert(server =~= seq!['?']);
    }
    if path.len() >= 4 && path[2] == '.' && cuts(true, path[3]) {
        if server.len() > 1 {
            assert(path[3] == server[1]);
        }
        assert(server.len() == 1);
    }
}

/// Two separators and a server without a share are no prefix.
pub proof fn a_server_is_no_prefix(path: Seq<char>, server: Seq<char>)
    requires
        path.len() >= 2 && is_slash(path[0]) && is_slash(path[1]),
        has_no_slash(server),
        server != seq!['?'] && server != seq!['.'],
        path == path.take(2) + server || (path.len() == 3 + server.len() && path == path.take(2)
            + server + seq![path.last()] && is_slash(path.last())),
    ensures
        prefix_len(Platform::Windows, path) == 0,
{
    let end: int = 2 + server.len() as int;
    assert forall|i: int| 2 <= i < end implies !cuts(true, #[trigger] path[i]) by {
        assert(path[i] == server[i - 2]);
    }
    lemma_name_ends(true, path, 2, end);
    if end < path.len() {
        lemma_name_ends(true, path, end + 1, end + 1);
    }
    if path.len() >= 4 && cuts(true, path[3]) {
        if server.len() > 1 {
            assert(path[3] == server[1]);
        }
        if server.len() == 1 {
            assert(path[2] == server[0]);
            assert(server =~= seq![path[2]]);
        }
        assert(server.len() == 0 ==> path.len() <= 3);
    }
}

/// `\\?\` and a drive are a prefix if a separator follows or nothing, and so are `\\?\` and
/// whatever else stands before the next `\`.
pub proof fn a_verbatim_name_is_a_prefix(name: Seq<char>, rest: Seq<char>)
    requires
        has_no_backslash(name),
        begins_with_drive(name) ==> name.len() == 2,
        rest.len() > 0 ==> rest[0] == '\\' || (begins_with_drive(name) && rest[0] == '/'),
        name == seq!['U', 'N', 'C'] ==> rest.len() == 0,
    ensures
        prefix_len(Platform::Windows, seq!['\\', '\\', '?', '\\'] + name + rest) == 4
            + name.len(),
{
    let path = seq!['\\', '\\', '?', '\\'] + name + rest;
    let end: int = 4 + name.len() as int;
    assert forall|i: int| 4 <= i < end implies !cuts(false, #[trigger] path[i]) by {
        assert(path[i] == name[i - 4]);
    }
    if rest.len() > 0 {
        assert(path[end] == rest[0]);
    }
    if is_verbatim_share(path) {
        assert(cuts(false, path[7]));
        if name.len() > 3 {
            assert(path[7] == name[3]);
        }
        if name.len() < 3 {
            assert(path[end] == rest[0]);
        }
        assert(path[4] == name[0] && path[5] == name[1] && path[6] == name[2]);
        assert(name =~= seq!['U', 'N', 'C']);
    }
    if drive_at(path, 4) {
        if name.len() == 0 {
            assert(path[4] == rest[0]);
        } else if name.len() == 1 {
            assert(path[5] == rest[0]);
        } else {
            assert(path[4] == name[0] && path[5] == name[1]);
            assert(begins_with_drive(name));
        }
    } else if begins_with_drive(name) {
        assert(path[4] == name[0] && path[5] == name[1]);
    }
    if !begins_with_drive(name) {
        lemma_name_ends(false, path, 4, end);
    }
}

/// `\\?\UNC\`, a server, `\` and a share are a prefix, whatever follows behind a `\`.
pub proof fn a_verbatim_share_is_a_prefix(server: Seq<char>, share: Seq<char>, rest: Seq<char>)
    requires
        has_no_backslash(server),
        has_no_backslash(share),
        share.len() > 0,
        rest.len() > 0 ==> rest[0] == '\\',
    ensures
        ({
            let start = seq!['\\', '\\', '?', '\\', 'U', 'N', 'C', '\\'];
            let path = start + server + seq!['\\'] + share + rest;
            prefix_len(Platform::Windows, path) == 9 + server.len() + share.len()
        }),
{
    let start = seq!['\\', '\\', '?', '\\', 'U', 'N', 'C', '\\'];
    let path = start + server + seq!['\\'] + share + rest;
    let server_end: int = 8 + server.len() as int;
    let share_end: int = 9 + server.len() + share.len() as int;
    assert forall|i: int| 8 <= i < server_end implies !cuts(false, #[trigger] path[i]) by {
        assert(path[i] == server[i - 8]);
    }
    assert forall|i: int| server_end < i < share_end implies !cuts(false, #[trigger] path[i]) by {
        assert(path[i] == share[i - server_end - 1]);
    }
    assert(path[server_end] == '\\');
    if rest.len() > 0 {
        assert(path[share_end] == rest[0]);
    }
    lemma_name_ends(false, path, 8, server_end);
    lemma_name_ends(false, path, server_end + 1, share_end);
}

/// A text without a cut is one piece, and the pieces of two texts with a cut between them are
/// those of the one, then those of the other.
pub proof fn a_cut_parts_two_texts(slash: bool, first: Seq<char>, cut: char, second: Seq<char>)
    requires
        cuts(slash, cut),
    ensures
        (forall|i: int| 0 <= i < first.len() ==> !cuts(slash, #[trigger] first[i])) ==> pieces(
            slash,
            first,
        ) == seq![first],
        pieces(slash, first.push(cut) + second) == pieces(slash, first) + pieces(slash, second),
    decreases first.len() + second.len(),
{
    lemma_pieces_len(slash, first);
    if first.len() > 0 {
        let init = first.drop_last();
        if forall|i: int| 0 <= i < first.len() ==> !cuts(slash, #[trigger] first[i]) {
            assert forall|i: int| 0 <= i < init.len() implies !cuts(slash, #[trigger] init[i]) by {
                assert(init[i] == first[i]);
            }
            a_cut_parts_two_texts(slash, init, cut, Seq::empty());
            assert(!cuts(slash, first[first.len() - 1]));
            assert(init.push(first.last()) =~= first);
            assert(pieces(slash, first) =~= seq![first]);
        }
    } else {
        assert(first =~= Seq::<char>::empty());
    }
    let both = first.push(cut) + second;
    if second.len() == 0 {
        assert(both =~= first.push(cut));
        assert(both.drop_last() =~= first);
        assert(pieces(slash, both) =~= pieces(slash, first) + pieces(slash, second));
    } else {
        let init = second.drop_last();
        assert(both.drop_last() =~= first.push(cut) + init);
        a_cut_parts_two_texts(slash, first, cut, init);
        lemma_pieces_len(slash, init);
        let before = pieces(slash, init);
        assert((pieces(slash, first) + before).drop_last() =~= pieces(slash, first)
            + before.drop_last());
        assert(pieces(slash, both) =~= pieces(slash, first) + pieces(slash, second));
    }
}

proof fn lemma_pieces_len(slash: bool, path: Seq<char>)
    ensures
        pieces(slash, path).len() > 0,
    decreases path.len(),
{
    if path.len() > 0 {
        lemma_pieces_len(slash, path.drop_last());
    }
}

/// To go along two lists is to go along the one, then along the other.
pub proof fn two_ways_are_gone_one_after_the_other(
    names: Seq<Seq<char>>,
    first: Seq<Seq<char>>,
    second: Seq<Seq<char>>,
)
    ensures
        resolved(names, first + second) == resolved(resolved(names, first), second),
    decreases second.len(),
{
    if second.len() == 0 {
        assert(first + second =~= first);
    } else {
        assert((first + second).drop_last() =~= first + second.drop_last());
        two_ways_are_gone_one_after_the_other(names, first, second.drop_last());
    }
}

/// An empty name and `.` lead nowhere, `..` leads back by one name if there is one, and any
/// other name leads on.
pub proof fn each_name_leads_where_it_should(names: Seq<Seq<char>>, name: Seq<char>)
    ensures
        ({
            let now = resolved(names, seq![name]);
            if name.len() == 0 || name == seq!['.'] {
                now == names
            } else if name == seq!['.', '.'] {
                now == if names.len() == 0 {
                    names
                } else {
                    names.take(names.len() - 1)
                }
            } else {
                now == names.push(name)
            }
        }),
{
    assert(seq![name].drop_last() =~= Seq::<Seq<char>>::empty());
    assert(resolved(names, seq![name].drop_last()) == names);
    if is_current(name) {
        assert(name =~= seq!['.']);
    }
    if is_parent(name) {
        assert(name =~= seq!['.', '.']);
    }
}

/// A name without separators that is joined to a verbatim base is put behind the names of the
/// base and a `\`, but for `.`, which leaves them, and `..`, which takes the last of them off.
/// With a separator before it, it is put behind the prefix of the base.
pub proof fn a_name_is_joined_to_a_verbatim_base(base: Seq<char>, name: Seq<char>)
    requires
        is_verbatim(Platform::Windows, base),
        name.len() > 0,
        has_no_slash(name),
        !begins_with_drive(name),
    ensures
        ({
            let prefix = base.take(prefix_len(Platform::Windows, base));
            let own = verbatim_names(base);
            let path = joined_path(Platform::Windows, base, name);
            let root = if prefix.len() < base.len() {
                seq!['\\']
            } else {
                Seq::empty()
            };
            if name == seq!['.'] {
                path == prefix + if own.len() == 0 {
                    root
                } else {
                    written(own)
                }
            } else if name == seq!['.', '.'] {
                path == prefix + if own.len() <= 1 {
                    root
                } else {
                    written(own.take(own.len() - 1))
                }
            } else {
                path == prefix + written(own) + seq!['\\'] + name
            }
        }),
        is_plain(name) ==> joined_path(Platform::Windows, base, seq!['\\'] + name) == base.take(
            prefix_len(Platform::Windows, base),
        ) + seq!['\\'] + name,
{
    lemma_prefix_len(Platform::Windows, base);
    let start = prefix_len(Platform::Windows, base);
    let prefix = base.take(start);
    let own = verbatim_names(base);
    assert forall|i: int| 0 <= i < name.len() implies !cuts(true, #[trigger] name[i]) by {
        assert(!is_slash(name[i]));
    }
    assert(is_relative(Platform::Windows, name));
    a_cut_parts_two_texts(true, name, '\\', Seq::empty());
    each_name_leads_where_it_should(own, name);
    let all = names_below(base, name);
    assert(all == resolved(own, seq![name]));
    let path = joined_path(Platform::Windows, base, name);
    if start == base.len() {
        assert(own.len() == 0);
    }
    if is_current(name) {
        assert(name =~= seq!['.']);
    } else if is_parent(name) {
        assert(name =~= seq!['.', '.']);
        if own.len() == 0 {
            assert(all == own);
        }
    } else {
        assert(all == own.push(name));
        assert(all.drop_last() =~= own);
        assert(path =~= prefix + written(own) + seq!['\\'] + name);
    }
    if name == seq!['.'] || name == seq!['.', '.'] {
        if all.len() == 0 {
            assert(written(all) =~= Seq::<char>::empty());
        }
    }
    if is_plain(name) {
        let rooted = seq!['\\'] + name;
        let nothing = Seq::<Seq<char>>::empty();
        let blank = Seq::<char>::empty();
        assert(rooted =~= blank.push('\\') + name);
        a_cut_parts_two_texts(true, blank, '\\', name);
        assert(rooted[0] == '\\' && rooted[1] == name[0]);
        assert(!cuts(true, name[0]));
        assert(prefix_len(Platform::Windows, rooted) == 0);
        assert(has_root(Platform::Windows, rooted));
        two_ways_are_gone_one_after_the_other(nothing, seq![blank], seq![name]);
        each_name_leads_where_it_should(nothing, blank);
        each_name_leads_where_it_should(nothing, name);
        let below = names_below(base, rooted);
        assert(below =~= seq![name]);
        assert(below.drop_last() =~= nothing);
        assert(written(nothing) =~= blank);
        assert(joined_path(Platform::Windows, base, rooted) =~= prefix + seq!['\\'] + name);
    }
}

/// To join `first`, a separator and `second` to a verbatim base is to go along the pieces of
/// `first` from the names of the base, and then along those of `second`.
pub proof fn a_longer_path_is_joined_piece_by_piece(
    base: Seq<char>,
    first: Seq<char>,
    cut: char,
    second: Seq<char>,
)
    requires
        is_slash(cut),
        is_relative(Platform::Windows, first),
        is_relative(Platform::Windows, first.push(cut) + second),
        first.len() > 0,
    ensures
        names_below(base, first.push(cut) + second) == resolved(
            names_below(base, first),
            pieces(true, second),
        ),
{
    a_cut_parts_two_texts(true, first, cut, second);
    two_ways_are_gone_one_after_the_other(
        verbatim_names(base),
        pieces(true, first),
        pieces(true, second),
    );
}

/// The names of a verbatim path are those behind its prefix and the `\` that follows it.
pub proof fn the_names_of_a_verbatim_path_follow_its_prefix(base: Seq<char>)
    requires
        is_verbatim(Platform::Windows, base),
    ensures
        ({
            let start = prefix_len(Platform::Windows, base);
            verbatim_names(base) == if start < base.len() {
                resolved(Seq::empty(), pieces(false, base.skip(start + 1)))
            } else {
                Seq::empty()
            }
        }),
        forall|names: Seq<Seq<char>>, name: Seq<char>| #[trigger]
            written(names.push(name)) == written(names) + seq!['\\'] + name,
        written(Seq::empty()) == Seq::<char>::empty(),
{
    assert forall|names: Seq<Seq<char>>, name: Seq<char>| #[trigger]
        written(names.push(name)) == written(names) + seq!['\\'] + name by {
        assert(names.push(name).drop_last() =~= names);
        assert(written(names.push(name)) =~= written(names) + seq!['\\'] + name);
    }
}

/// What is joined to a verbatim base without a prefix of its own is written name by name
/// behind the prefix of the base: from the names of the base on, or from the root on if it has
/// a root. Where no name is left, the root is left if there was one on either side.
pub proof fn a_path_below_a_verbatim_one_is_written_name_by_name(
    base: Seq<char>,
    component: Seq<char>,
)
    requires
        is_verbatim(Platform::Windows, base),
        component.len() > 0,
        prefix_len(Platform::Windows, component) == 0,
    ensures
        ({
            let prefix = base.take(prefix_len(Platform::Windows, base));
            let from_root = is_slash(component[0]);
            let names = resolved(
                if from_root {
                    Seq::empty()
                } else {
                    verbatim_names(base)
                },
                pieces(true, component),
            );
            joined_path(Platform::Windows, base, component) == prefix + if names.len() > 0 {
                written(names)
            } else if from_root || prefix.len() < base.len() {
                seq!['\\']
            } else {
                Seq::empty()
            }
        }),
{
    lemma_prefix_len(Platform::Windows, base);
    assert(written(Seq::empty()) =~= Seq::<char>::empty());
}

/// A path is verbatim exactly if it begins with `\\?\`, and that on Windows only.
pub proof fn a_path_is_verbatim_by_how_it_begins(path: Seq<char>)
    ensures
        is_verbatim(Platform::Windows, path) <==> seq!['\\', '\\', '?', '\\'].is_prefix_of(path),
        !is_verbatim(Platform::Unix, path),
        prefix_len(Platform::Unix, path) == 0,
{
    let start = seq!['\\', '\\', '?', '\\'];
    if is_verbatim(Platform::Windows, path) {
        assert(start =~= path.take(4));
    }
    if start.is_prefix_of(path) {
        assert(path[0] == start[0] && path[1] == start[1] && path[2] == start[2] && path[3]
            == start[3]);
    }
}

/// `\\.\` is a prefix, with the device that follows it, if one does.
pub proof fn a_device_is_a_prefix(
    slashes: (char, char, char),
    device: Seq<char>,
    rest: Seq<char>,
)
    requires
        is_slash(slashes.0) && is_slash(slashes.1) && is_slash(slashes.2),
        has_no_slash(device),
        rest.len() > 0 ==> is_slash(rest[0]),
    ensures
        prefix_len(
            Platform::Windows,
            seq![slashes.0, slashes.1, '.', slashes.2] + device + rest,
        ) == 4 + device.len(),
{
    let path = seq![slashes.0, slashes.1, '.', slashes.2] + device + rest;
    let end: int = 4 + device.len() as int;
    assert forall|i: int| 4 <= i < end implies !cuts(true, #[trigger] path[i]) by {
        assert(path[i] == device[i - 4]);
    }
    if rest.len() > 0 {
        assert(path[end] == rest[0]);
    }
    lemma_name_ends(true, path, 4, end);
}

/// `\\?\UNC\` is a prefix, with the server that follows it, if no share follows that.
pub proof fn a_verbatim_server_is_a_prefix(server: Seq<char>, rest: Seq<char>)
    requires
        has_no_backslash(server),
        rest.len() > 0 ==> rest[0] == '\\',
        rest.len() > 1 ==> rest[1] == '\\',
    ensures
        prefix_len(
            Platform::Windows,
            seq!['\\', '\\', '?', '\\', 'U', 'N', 'C', '\\'] + server + rest,
        ) == 8 + server.len(),
{
    let path = seq!['\\', '\\', '?', '\\', 'U', 'N', 'C', '\\'] + server + rest;
    let end: int = 8 + server.len() as int;
    assert forall|i: int| 8 <= i < end implies !cuts(false, #[trigger] path[i]) by {
        assert(path[i] == server[i - 8]);
    }
    if rest.len() > 0 {
        assert(path[end] == rest[0]);
        if rest.len() > 1 {
            assert(path[end + 1] == rest[1]);
        }
    }
    lemma_name_ends(false, path, 8, end);
    if rest.len() > 0 {
        lemma_name_ends(false, path, end + 1, end + 1);
    }
}

} // verus!
