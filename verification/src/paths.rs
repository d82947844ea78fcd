//! Joining paths as text, by the rules of the system on which they are used.

use crate::text::{chars, code, same_text, views};
use vstd::prelude::*;
use vstd::string::*;

verus! {

/// The rules by which paths are read.
#[derive(Clone, Copy, Debug, PartialEq, Eq, Structural)]
pub enum PathRules {
    Unix,
    /// A backslash separates as well, and a path can start with a drive or a share.
    Windows,
}

/// The character separates the parts of a path.
pub open spec fn separates(c: char, rules: PathRules) -> bool {
    c == '/' || rules is Windows && c == '\\'
}

/// A letter that can name a drive.
pub open spec fn is_letter(c: char) -> bool {
    65 <= c as int <= 90 || 97 <= c as int <= 122
}

/// The path starts with a drive: a letter and a colon.
pub open spec fn on_drive(p: Seq<char>, rules: PathRules) -> bool {
    rules is Windows && p.len() >= 2 && is_letter(p[0]) && p[1] == ':'
}

/// The path starts with two separators, as one on a share or a device does.
pub open spec fn on_net(p: Seq<char>, rules: PathRules) -> bool {
    rules is Windows && p.len() >= 2 && separates(p[0], rules) && separates(p[1], rules)
}

/// The path is verbatim: it starts with `\\?\`, and backslashes alone separate its parts.
pub open spec fn is_verbatim(p: Seq<char>, rules: PathRules) -> bool {
    rules is Windows && p.len() >= 4 && p[0] == '\\' && p[1] == '\\' && p[2] == '?' && p[3] == '\\'
}

/// The character separates the parts of a path; of a verbatim one, if `strict`.
pub open spec fn splits(c: char, rules: PathRules, strict: bool) -> bool {
    if strict {
        c == '\\'
    } else {
        separates(c, rules)
    }
}

/// Where the part that starts at `from` ends.
pub open spec fn part_end(p: Seq<char>, from: int, rules: PathRules, strict: bool) -> int
    decreases p.len() - from,
{
    if from >= p.len() {
        p.len() as int
    } else if splits(p[from], rules, strict) {
        from
    } else {
        part_end(p, from + 1, rules, strict)
    }
}

/// How much of a verbatim path is its prefix: a server and a share after `UNC`, a drive, or
/// whatever its first part is.
pub open spec fn verbatim_len(p: Seq<char>, rules: PathRules) -> int {
    if p.len() >= 8 && p[4] == 'U' && p[5] == 'N' && p[6] == 'C' && separates(p[7], rules) {
        let server = part_end(p, 8, rules, true);
        let share = part_end(p, server + 1, rules, true);
        if share > server + 1 {
            share
        } else {
            server
        }
    } else if p.len() >= 6 && is_letter(p[4]) && p[5] == ':' && (p.len() == 6 || separates(
        p[6],
        rules,
    )) {
        6
    } else {
        part_end(p, 4, rules, true)
    }
}

/// How much of a path that starts with two separators is its prefix: a device, or a server and a
/// share; nothing, where either is missing.
pub open spec fn net_len(p: Seq<char>, rules: PathRules) -> int {
    if p.len() >= 4 && p[2] == '.' && separates(p[3], rules) {
        part_end(p, 4, rules, false)
    } else {
        let server = part_end(p, 2, rules, false);
        let share = part_end(p, server + 1, rules, false);
        if server > 2 && share > server + 1 {
            share
        } else {
            0
        }
    }
}

/// How much of a path is its prefix: what says on which drive, device or share it lies.
pub open spec fn prefix_len(p: Seq<char>, rules: PathRules) -> int {
    if on_drive(p, rules) {
        2
    } else if is_verbatim(p, rules) {
        verbatim_len(p, rules)
    } else if on_net(p, rules) {
        net_len(p, rules)
    } else {
        0
    }
}

/// The parts of a path from `i` on, the first of which starts at `start`. Empty ones do not count.
pub open spec fn pieces_from(
    p: Seq<char>,
    start: int,
    i: int,
    rules: PathRules,
    strict: bool,
) -> Seq<Seq<char>>
    decreases p.len() - i,
{
    if i >= p.len() {
        if start < p.len() {
            seq![p.subrange(start, p.len() as int)]
        } else {
            Seq::empty()
        }
    } else if splits(p[i], rules, strict) {
        let piece = if start < i {
            seq![p.subrange(start, i)]
        } else {
            Seq::empty()
        };
        piece + pieces_from(p, i + 1, i + 1, rules, strict)
    } else {
        pieces_from(p, start, i + 1, rules, strict)
    }
}

/// The parts of a path.
pub open spec fn pieces(p: Seq<char>, rules: PathRules, strict: bool) -> Seq<Seq<char>> {
    pieces_from(p, 0, 0, rules, strict)
}

/// The part names something: it does not stand for the directory that it is in, or the one above.
pub open spec fn is_name(piece: Seq<char>) -> bool {
    piece != "."@ && piece != ".."@
}

/// The parts of a directory after one more part: `.` stays in it, and `..` leaves it for the one
/// above, where the last part names something.
pub open spec fn climbed(names: Seq<Seq<char>>, piece: Seq<char>) -> Seq<Seq<char>> {
    if is_name(piece) {
        names.push(piece)
    } else if piece == ".."@ && names.len() > 0 && is_name(names.last()) {
        names.drop_last()
    } else {
        names
    }
}

/// The parts of a directory after further parts.
pub open spec fn climbed_all(names: Seq<Seq<char>>, steps: Seq<Seq<char>>) -> Seq<Seq<char>>
    decreases steps.len(),
{
    if steps.len() == 0 {
        names
    } else {
        climbed(climbed_all(names, steps.drop_last()), steps.last())
    }
}

/// The parts as text, each after a backslash.
pub open spec fn trail(names: Seq<Seq<char>>) -> Seq<char>
    decreases names.len(),
{
    if names.len() == 0 {
        Seq::empty()
    } else {
        trail(names.drop_last()) + "\\"@ + names.last()
    }
}

/// The parts of a verbatim directory behind its prefix.
pub open spec fn verbatim_names(base: Seq<char>, rules: PathRules) -> Seq<Seq<char>> {
    let rest = base.skip(prefix_len(base, rules));
    if rest.len() == 0 {
        Seq::empty()
    } else {
        pieces(rest.skip(1), rules, true)
    }
}

/// The parts of a path that starts from a verbatim directory, or from its root.
pub open spec fn verbatim_walk(base: Seq<char>, value: Seq<char>, rules: PathRules) -> Seq<
    Seq<char>,
> {
    climbed_all(
        if separates(value[0], rules) {
            Seq::empty()
        } else {
            verbatim_names(base, rules)
        },
        pieces(value, rules, false),
    )
}

/// A path that starts from a verbatim directory: no `.` and no `..` is left of it.
pub open spec fn verbatim_joined(base: Seq<char>, value: Seq<char>, rules: PathRules) -> Seq<char> {
    let n = prefix_len(base, rules);
    let names = verbatim_walk(base, value, rules);
    if names.len() > 0 {
        base.take(n) + trail(names)
    } else if n < base.len() || separates(value[0], rules) {
        base.take(n) + "\\"@
    } else {
        base.take(n)
    }
}

/// A path that starts from a directory. One with a prefix of its own stays as it is; one that
/// starts from the root starts from that of the directory's prefix.
pub open spec fn joined(base: Seq<char>, value: Seq<char>, rules: PathRules) -> Seq<char> {
    if prefix_len(value, rules) > 0 {
        value
    } else if is_verbatim(base, rules) && value.len() > 0 {
        verbatim_joined(base, value, rules)
    } else if value.len() > 0 && separates(value[0], rules) {
        base.take(prefix_len(base, rules)) + value
    } else if base.len() == 0 || separates(base.last(), rules) || on_drive(base, rules) && base.len()
        == 2 {
        base + value
    } else if rules is Windows {
        base + "\\"@ + value
    } else {
        base + "/"@ + value
    }
}

fn is_separator(c: char, rules: PathRules) -> (is: bool)
    ensures
        is == separates(c, rules),
{
    c == '/' || match rules {
        PathRules::Unix => false,
        PathRules::Windows => c == '\\',
    }
}

fn is_split(c: char, rules: PathRules, strict: bool) -> (is: bool)
    ensures
        is == splits(c, rules, strict),
{
    if strict {
        c == '\\'
    } else {
        is_separator(c, rules)
    }
}

fn is_drive_letter(c: char) -> (is: bool)
    ensures
        is == is_letter(c),
{
    let n: u32 = code(c);
    (65 <= n && n <= 90) || (97 <= n && n <= 122)
}

fn has_drive(p: &Vec<char>, rules: PathRules) -> (is: bool)
    ensures
        is == on_drive(p@, rules),
{
    if let PathRules::Windows = rules {
        p.len() >= 2 && is_drive_letter(p[0]) && p[1] == ':'
    } else {
        false
    }
}

fn has_verbatim(p: &Vec<char>, rules: PathRules) -> (is: bool)
    ensures
        is == is_verbatim(p@, rules),
{
    if let PathRules::Windows = rules {
        p.len() >= 4 && p[0] == '\\' && p[1] == '\\' && p[2] == '?' && p[3] == '\\'
    } else {
        false
    }
}

fn has_net(p: &Vec<char>, rules: PathRules) -> (is: bool)
    ensures
        is == on_net(p@, rules),
{
    if let PathRules::Windows = rules {
        p.len() >= 2 && is_separator(p[0], rules) && is_separator(p[1], rules)
    } else {
        false
    }
}

fn end_of_part(p: &Vec<char>, from: usize, rules: PathRules, strict: bool) -> (end: usize)
    requires
        from <= p@.len(),
    ensures
        end == part_end(p@, from as int, rules, strict),
        from <= end <= p@.len(),
{
    let mut i: usize = from;
    while i < p.len()
        invariant
            from <= i <= p@.len(),
            part_end(p@, from as int, rules, strict) == part_end(p@, i as int, rules, strict),
        decreases p@.len() - i,
    {
        if is_split(p[i], rules, strict) {
            return i;
        }
        i += 1;
    }
    p.len()
}

/// Where the part after the one that ends at `end` ends.
fn end_of_next(p: &Vec<char>, end: usize, rules: PathRules, strict: bool) -> (next: usize)
    requires
        end <= p@.len(),
    ensures
        next == part_end(p@, end + 1, rules, strict),
        end <= next <= p@.len(),
{
    if end < p.len() {
        end_of_part(p, end + 1, rules, strict)
    } else {
        p.len()
    }
}

fn len_of_verbatim(p: &Vec<char>, rules: PathRules) -> (n: usize)
    requires
        p@.len() >= 4,
    ensures
        n == verbatim_len(p@, rules),
        4 <= n <= p@.len(),
{
    if p.len() >= 8 && p[4] == 'U' && p[5] == 'N' && p[6] == 'C' && is_separator(p[7], rules) {
        let server: usize = end_of_part(p, 8, rules, true);
        let share: usize = end_of_next(p, server, rules, true);
        if share > server && share - server > 1 {
            share
        } else {
            server
        }
    } else if p.len() >= 6 && is_drive_letter(p[4]) && p[5] == ':' && (p.len() == 6 || is_separator(
        p[6],
        rules,
    )) {
        6
    } else {
        end_of_part(p, 4, rules, true)
    }
}

fn len_of_net(p: &Vec<char>, rules: PathRules) -> (n: usize)
    requires
        p@.len() >= 2,
    ensures
        n == net_len(p@, rules),
        n <= p@.len(),
{
    if p.len() >= 4 && p[2] == '.' && is_separator(p[3], rules) {
        end_of_part(p, 4, rules, false)
    } else {
        let server: usize = end_of_part(p, 2, rules, false);
        let share: usize = end_of_next(p, server, rules, false);
        if server > 2 && share > server && share - server > 1 {
            share
        } else {
            0
        }
    }
}

fn len_of_prefix(p: &Vec<char>, rules: PathRules) -> (n: usize)
    ensures
        n == prefix_len(p@, rules),
        n <= p@.len(),
{
    if has_drive(p, rules) {
        2
    } else if has_verbatim(p, rules) {
        len_of_verbatim(p, rules)
    } else if has_net(p, rules) {
        len_of_net(p, rules)
    } else {
        0
    }
}

/// Splits a path into its parts.
fn split_path<'a>(path: &'a str, rules: PathRules, strict: bool) -> (out: Vec<&'a str>)
    ensures
        views(out@) == pieces(path@, rules, strict),
{
    let text: Vec<char> = chars(path);
    let mut out: Vec<&'a str> = Vec::new();
    let mut start: usize = 0;
    let mut i: usize = 0;
    assert(views(out@) =~= Seq::<Seq<char>>::empty());
    assert(views(out@) + pieces(path@, rules, strict) =~= pieces(path@, rules, strict));
    while i < text.len()
        invariant
            text@ == path@,
            start <= i <= text@.len(),
            views(out@) + pieces_from(path@, start as int, i as int, rules, strict) == pieces(
                path@,
                rules,
                strict,
            ),
        decreases text@.len() - i,
    {
        if is_split(text[i], rules, strict) {
            let ghost rest = pieces_from(path@, i + 1, i + 1, rules, strict);
            let ghost before = views(out@);
            if start < i {
                out.push(path.substring_char(start, i));
                assert(views(out@) =~= before.push(path@.subrange(start as int, i as int)));
                assert(views(out@) + rest =~= before + (seq![path@.subrange(start as int, i as int)]
                    + rest));
            } else {
                assert(Seq::<Seq<char>>::empty() + rest =~= rest);
            }
            start = i + 1;
        }
        i += 1;
    }
    let ghost before = views(out@);
    if start < text.len() {
        out.push(path.substring_char(start, text.len()));
        assert(views(out@) =~= before + seq![path@.subrange(start as int, path@.len() as int)]);
    } else {
        assert(before + Seq::<Seq<char>>::empty() =~= before);
    }
    out
}

fn names_something(piece: &str) -> (is: bool)
    ensures
        is == is_name(piece@),
{
    !same_text(piece, ".") && !same_text(piece, "..")
}

/// Goes from a directory on, part by part.
fn climb<'a>(names: &mut Vec<&'a str>, steps: &Vec<&'a str>)
    ensures
        views(final(names)@) == climbed_all(views(old(names)@), views(steps@)),
{
    let mut i: usize = 0;
    assert(views(steps@).take(0) =~= Seq::<Seq<char>>::empty());
    while i < steps.len()
        invariant
            i <= steps@.len(),
            views(names@) == climbed_all(views(old(names)@), views(steps@).take(i as int)),
        decreases steps@.len() - i,
    {
        let ghost before = names@;
        proof {
            assert(views(steps@).take(i + 1).drop_last() =~= views(steps@).take(i as int));
            assert(views(steps@).take(i + 1).last() == steps@[i as int]@);
        }
        if names_something(steps[i]) {
            names.push(steps[i]);
            assert(views(names@) =~= views(before).push(steps@[i as int]@));
        } else if same_text(steps[i], "..") && names.len() > 0 {
            assert(views(before).last() == before.last()@);
            if names_something(names[names.len() - 1]) {
                let _left = names.pop();
                assert(views(names@) =~= views(before).drop_last());
            }
        }
        i += 1;
    }
    assert(views(steps@).take(i as int) =~= views(steps@));
}

fn push_trail(path: &mut String, names: &Vec<&str>)
    ensures
        final(path)@ == old(path)@ + trail(views(names@)),
{
    let mut i: usize = 0;
    assert(views(names@).take(0) =~= Seq::<Seq<char>>::empty());
    assert(path@ =~= old(path)@ + trail(views(names@).take(0)));
    while i < names.len()
        invariant
            i <= names@.len(),
            path@ == old(path)@ + trail(views(names@).take(i as int)),
        decreases names@.len() - i,
    {
        proof {
            assert(views(names@).take(i + 1).drop_last() =~= views(names@).take(i as int));
            assert(views(names@).take(i + 1).last() == names@[i as int]@);
        }
        path.append("\\");
        path.append(names[i]);
        i += 1;
        assert(path@ =~= old(path)@ + trail(views(names@).take(i as int)));
    }
    assert(views(names@).take(i as int) =~= views(names@));
}

/// Joins a path to a verbatim directory.
fn join_verbatim(base: &str, value: &str, rules: PathRules) -> (path: String)
    requires
        value@.len() > 0,
    ensures
        path@ == verbatim_joined(base@, value@, rules),
{
    let from: Vec<char> = chars(base);
    let given: Vec<char> = chars(value);
    let n: usize = len_of_prefix(&from, rules);
    let rooted = is_separator(given[0], rules);
    let mut names: Vec<&str> = if rooted || n == from.len() {
        let none: Vec<&str> = Vec::new();
        assert(views(none@) =~= Seq::<Seq<char>>::empty());
        none
    } else {
        assert(base@.skip(n as int).skip(1) =~= base@.subrange(n + 1, base@.len() as int));
        split_path(base.substring_char(n + 1, from.len()), rules, true)
    };
    let steps: Vec<&str> = split_path(value, rules, false);
    climb(&mut names, &steps);
    let mut path: String = base.substring_char(0, n).to_owned();
    assert(base@.subrange(0, n as int) =~= base@.take(n as int));
    assert(views(names@).len() == names@.len());
    if names.len() > 0 {
        push_trail(&mut path, &names);
    } else if n < from.len() || rooted {
        path.append("\\");
    }
    path
}

/// Joins a path to the directory that it starts from.
pub fn join(base: &str, value: &str, rules: PathRules) -> (path: String)
    ensures
        path@ == joined(base@, value@, rules),
{
    let from: Vec<char> = chars(base);
    let given: Vec<char> = chars(value);
    if len_of_prefix(&given, rules) > 0 {
        return value.to_owned();
    }
    if has_verbatim(&from, rules) && given.len() > 0 {
        return join_verbatim(base, value, rules);
    }
    if given.len() > 0 && is_separator(given[0], rules) {
        let n: usize = len_of_prefix(&from, rules);
        let mut path: String = base.substring_char(0, n).to_owned();
        path.append(value);
        assert(path@ =~= joined(base@, value@, rules));
        return path;
    }
    let mut path: String = base.to_owned();
    if from.len() > 0 && !is_separator(from[from.len() - 1], rules) && !(has_drive(&from, rules)
        && from.len() == 2) {
        match rules {
            PathRules::Unix => {
                path.append("/");
            },
            PathRules::Windows => {
                path.append("\\");
            },
        }
    }
    path.append(value);
    path
}

/// On Unix a path that starts with a slash replaces the directory.
pub proof fn law_absolute_paths_stay(base: Seq<char>, value: Seq<char>)
    requires
        value.len() > 0,
        value[0] == '/',
    ensures
        joined(base, value, PathRules::Unix) == value,
{
    assert(base.take(0) + value =~= value);
}

/// On Windows a path on a drive of its own replaces the directory.
pub proof fn law_drives_stay(base: Seq<char>, value: Seq<char>)
    requires
        on_drive(value, PathRules::Windows),
    ensures
        joined(base, value, PathRules::Windows) == value,
{
}

/// Going on from a directory leaves only names and what stood in the directory before: every `.`
/// and `..` of the way is gone.
pub proof fn law_no_dots_are_left(names: Seq<Seq<char>>, steps: Seq<Seq<char>>, i: int)
    requires
        0 <= i < climbed_all(names, steps).len(),
    ensures
        is_name(climbed_all(names, steps)[i]) || names.contains(climbed_all(names, steps)[i]),
    decreases steps.len(),
{
    if steps.len() == 0 {
        assert(names.contains(names[i]));
    } else {
        let before = climbed_all(names, steps.drop_last());
        if i < before.len() {
            law_no_dots_are_left(names, steps.drop_last(), i);
        }
    }
}

/// Joining paths on Unix: a path from the root replaces the directory; any other follows it, with
/// one slash between them where the directory does not end with one.
pub proof fn law_paths_are_joined_by_one_slash(base: &str, value: &str, path: String)
    requires
        call_ensures(join, (base, value, PathRules::Unix), path),
    ensures
        value@.len() > 0 && value@[0] == '/' ==> path@ == value@,
        value@.len() == 0 || value@[0] != '/' ==> {
            &&& base@.len() == 0 || base@.last() == '/' ==> path@ == base@ + value@
            &&& base@.len() > 0 && base@.last() != '/' ==> path@ == base@ + seq!['/'] + value@
        },
{
    reveal_strlit("/");
    assert("/"@ =~= seq!['/']);
    assert(base@.take(0) + value@ =~= value@);
}

/// Joining paths on Windows, where neither is a share or is taken as it stands: a path with a drive
/// replaces the directory; one from the root keeps the drive of the directory alone; any other
/// follows the directory, with a backslash between them unless there is a slash of either kind, or
/// the directory is a drive alone.
pub proof fn law_windows_paths_are_joined_by_a_backslash(base: &str, value: &str, path: String)
    requires
        call_ensures(join, (base, value, PathRules::Windows), path),
        !(base@.len() >= 2 && (base@[0] == '/' || base@[0] == '\\') && (base@[1] == '/' || base@[1]
            == '\\')),
        !(value@.len() >= 2 && (value@[0] == '/' || value@[0] == '\\') && (value@[1] == '/' || value@[1]
            == '\\')),
    ensures
        ({
            let drive = |p: Seq<char>|
                p.len() >= 2 && p[1] == ':' && ('A' <= p[0] <= 'Z' || 'a' <= p[0] <= 'z');
            let rooted = value@.len() > 0 && (value@[0] == '/' || value@[0] == '\\');
            let ended = base@.len() == 0 || base@.last() == '/' || base@.last() == '\\' || (drive(
                base@,
            ) && base@.len() == 2);
            &&& drive(value@) ==> path@ == value@
            &&& !drive(value@) && rooted && drive(base@) ==> path@ == base@.take(2) + value@
            &&& !drive(value@) && rooted && !drive(base@) ==> path@ == value@
            &&& !drive(value@) && !rooted && ended ==> path@ == base@ + value@
            &&& !drive(value@) && !rooted && !ended ==> path@ == base@ + seq!['\\'] + value@
        }),
{
    reveal_strlit("\\");
    assert("\\"@ =~= seq!['\\']);
    assert(base@.take(0) + value@ =~= value@);
}

} // verus!
