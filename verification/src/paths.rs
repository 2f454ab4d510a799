//! File names, their stems and extensions.
use crate::text;
use vstd::prelude::*;
use vstd::string::StrSliceExecFns;

verus! {

/// A path that every system reads alike: it holds neither a backslash nor a colon and begins with
/// no more than one slash.
pub open spec fn is_plain(path: Seq<char>) -> bool {
    &&& !path.contains('\\')
    &&& !path.contains(':')
    &&& !begins_with_two(path)
}

pub open spec fn is_separator(c: char) -> bool {
    c == '/' || c == '\\'
}

/// Whether a path begins as those of a share or a device do.
pub open spec fn begins_with_two(path: Seq<char>) -> bool {
    path.len() >= 2 && is_separator(path[0]) && is_separator(path[1])
}

/// The components of a path that slashes divide; empty ones and dots are passed over.
pub open spec fn components(path: Seq<char>) -> Seq<Seq<char>> {
    text::split_at_char(path, '/').filter(|part: Seq<char>| part.len() > 0 && part != seq!['.'])
}

/// The last component of a path that slashes divide, if it names something: two dots name nothing.
pub open spec fn last_component(path: Seq<char>) -> Option<Seq<char>> {
    let parts = components(path);
    if parts.len() == 0 || parts.last() == seq!['.', '.'] {
        None
    } else {
        Some(parts.last())
    }
}

/// A path with slashes in the place of backslashes.
pub open spec fn slashed(path: Seq<char>) -> Seq<char> {
    path.map_values(
        |c: char|
            if c == '\\' {
                '/'
            } else {
                c
            },
    )
}

pub open spec fn is_letter(c: char) -> bool {
    'a' <= c <= 'z' || 'A' <= c <= 'Z'
}

/// A path without the drive that it begins with.
pub open spec fn without_drive(path: Seq<char>) -> Seq<char> {
    if path.len() >= 2 && is_letter(path[0]) && path[1] == ':' {
        path.skip(2)
    } else {
        path
    }
}

/// Whether `name` may be the file name of a path on Windows, where a backslash divides as a slash
/// does and a drive stands apart. Of a path that begins with two separators, the first two
/// components may be the server and the share, which are no file name. One that goes on with a
/// question mark or a dot is read by rules of its own, of which nothing is said here.
pub open spec fn names_file_on_windows(path: Seq<char>, name: Option<Seq<char>>) -> bool {
    let divided = slashed(without_drive(path));
    if !begins_with_two(path) {
        name == last_component(divided)
    } else if path.len() > 2 && (path[2] == '?' || path[2] == '.') {
        true
    } else {
        name == last_component(divided) || (name is None && components(divided).len() <= 2)
    }
}

/// Whether `name` may be the file name of a path: a part of it, and the last component as Unix
/// divides the path or as Windows does.
pub open spec fn names_file(path: Seq<char>, name: Option<Seq<char>>) -> bool {
    &&& name matches Some(n) ==> n.len() > 0 && text::holds_text(path, n)
    &&& name == last_component(path) || names_file_on_windows(path, name)
}

/// The text of an optional string.
pub open spec fn text_or_none(s: Option<String>) -> Option<Seq<char>> {
    match s {
        Some(s) => Some(s@),
        None => None,
    }
}

/// `std::path::Path::file_name`: the final component of a path, if there is one and it is not `..`.
/// Repeated and trailing separators and the component `.` are passed over. Unix divides a path at
/// slashes alone; Windows divides it at backslashes too and takes a drive (`C:`) or a share
/// (`\\server\share`) in front of it for a prefix. One of the two is claimed, without saying
/// which. Of the paths of Windows that begin with `\\?` or `\\.` it is only said that the name is
/// a part of the path.
#[verifier::external_body]
pub(crate) fn file_name(path: &str) -> (r: Option<String>)
    ensures
        names_file(path@, text_or_none(r)),
{
    std::path::Path::new(path).file_name().map(|name| name.to_string_lossy().into_owned())
}

/// Where a character occurs last, or -1.
pub open spec fn last_index(s: Seq<char>, c: char) -> int
    decreases s.len(),
{
    if s.len() == 0 {
        -1
    } else if s.last() == c {
        s.len() - 1
    } else {
        last_index(s.drop_last(), c)
    }
}

/// A file name up to its last dot; the whole name where there is none behind its first character.
pub open spec fn stem(name: Seq<char>) -> Seq<char> {
    let dot = last_index(name, '.');
    if dot > 0 {
        name.take(dot)
    } else {
        name
    }
}

/// What stands behind the last dot of a file name.
pub open spec fn extension(name: Seq<char>) -> Option<Seq<char>> {
    let dot = last_index(name, '.');
    if dot > 0 {
        Some(name.skip(dot + 1))
    } else {
        None
    }
}

fn last_dot(name: &[char]) -> (r: Option<usize>)
    ensures
        r matches Some(i) ==> 0 < i < name@.len() && i == last_index(name@, '.'),
        r is None ==> last_index(name@, '.') <= 0,
{
    let mut i: usize = name.len();
    assert(name@.take(i as int) =~= name@);
    while i > 0
        invariant
            i <= name@.len(),
            last_index(name@, '.') == last_index(name@.take(i as int), '.'),
        decreases i,
    {
        assert(name@.take(i as int).drop_last() =~= name@.take(i - 1));
        assert(name@.take(i as int).last() == name@[i - 1]);
        i -= 1;
        if name[i] == '.' {
            if i == 0 {
                return None;
            }
            return Some(i);
        }
    }
    None
}

pub(crate) fn file_stem(name: &str) -> (r: String)
    ensures
        r@ == stem(name@),
{
    let chars = text::characters(name);
    match last_dot(chars.as_slice()) {
        Some(dot) => {
            assert(name@.subrange(0, dot as int) =~= name@.take(dot as int));
            text::owned(name.substring_char(0, dot))
        },
        None => text::owned(name),
    }
}

/// Whether a text is `pdf`, in small or capital letters.
pub open spec fn reads_pdf(s: Seq<char>) -> bool {
    &&& s.len() == 3
    &&& s[0] == 'p' || s[0] == 'P'
    &&& s[1] == 'd' || s[1] == 'D'
    &&& s[2] == 'f' || s[2] == 'F'
}

/// Whether a file name ends in `.pdf`, in small or capital letters.
pub open spec fn has_pdf_extension(name: Option<Seq<char>>) -> bool {
    match name {
        Some(n) => match extension(n) {
            Some(ext) => reads_pdf(ext),
            None => false,
        },
        None => false,
    }
}

/// Whether a file of this name is a PDF.
pub fn is_pdf_name(name: &str) -> (r: bool)
    ensures
        r == has_pdf_extension(Some(name@)),
{
    let chars = text::characters(name);
    match last_dot(chars.as_slice()) {
        Some(dot) => {
            let n = chars.len();
            assert(name@.skip(dot + 1).len() == n - dot - 1);
            n - dot == 4 && (chars[dot + 1] == 'p' || chars[dot + 1] == 'P') && (chars[dot + 2]
                == 'd' || chars[dot + 2] == 'D') && (chars[dot + 3] == 'f' || chars[dot + 3]
                == 'F')
        },
        None => false,
    }
}

/// A stem is never empty, and stem and extension, with the dot between them, make up the name.
pub proof fn stem_and_extension_make_the_name(name: Seq<char>)
    requires
        name.len() > 0,
    ensures
        stem(name).len() > 0,
        match extension(name) {
            Some(ext) => name == stem(name).push('.') + ext,
            None => name == stem(name),
        },
{
    lemma_last_index(name, '.');
    let dot = last_index(name, '.');
    if dot > 0 {
        assert(name =~= name.take(dot).push('.') + name.skip(dot + 1));
    }
}

proof fn lemma_last_index(s: Seq<char>, c: char)
    ensures
        -1 <= last_index(s, c) < s.len(),
        last_index(s, c) >= 0 ==> s[last_index(s, c)] == c,
    decreases s.len(),
{
    if s.len() > 0 {
        lemma_last_index(s.drop_last(), c);
    }
}

/// A plain path has the same file name on every system.
pub proof fn plain_paths_have_one_name(path: Seq<char>, name: Option<Seq<char>>)
    requires
        is_plain(path),
        names_file(path, name),
    ensures
        name == last_component(path),
{
    assert forall|i: int| 0 <= i < path.len() implies path[i] != '\\' && path[i] != ':' by {
        assert(path.contains(path[i]));
    }
    assert(without_drive(path) == path);
    assert(slashed(path) =~= path);
}

proof fn lemma_last_kept(parts: Seq<Seq<char>>, p: spec_fn(Seq<char>) -> bool)
    requires
        parts.len() > 0,
        p(parts.last()),
    ensures
        parts.filter(p).len() > 0,
        parts.filter(p).last() == parts.last(),
{
    reveal(Seq::filter);
}

proof fn lemma_last_index_behind(a: Seq<char>, b: Seq<char>, c: char)
    requires
        last_index(b, c) >= 0,
    ensures
        last_index(a + b, c) == a.len() + last_index(b, c),
    decreases b.len(),
{
    assert((a + b).last() == b.last());
    if b.last() != c {
        assert((a + b).drop_last() =~= a + b.drop_last());
        lemma_last_index_behind(a, b.drop_last(), c);
    }
}

proof fn lemma_pdf_behind(a: Seq<char>, n: Seq<char>)
    requires
        has_pdf_extension(Some(n)),
    ensures
        has_pdf_extension(Some(a + n)),
{
    lemma_last_index(n, '.');
    lemma_last_index_behind(a, n, '.');
    let dot = last_index(n, '.');
    assert((a + n).skip(a.len() + dot + 1) =~= n.skip(dot + 1));
}

proof fn lemma_last_component_ends(a: Seq<char>, n: Seq<char>)
    requires
        !n.contains('/'),
        has_pdf_extension(Some(n)),
    ensures
        has_pdf_extension(last_component(a + n)),
{
    text::lemma_split_nonempty(a, '/');
    text::lemma_split_extended(a, n, '/');
    let parts = text::split_at_char(a + n, '/');
    let before = text::split_at_char(a, '/').last();
    let p = |part: Seq<char>| part.len() > 0 && part != seq!['.'];
    lemma_last_index(n, '.');
    assert(n.len() >= 4);
    assert(parts.last() == before + n);
    assert(p(parts.last()));
    lemma_last_kept(parts, p);
    lemma_pdf_behind(before, n);
}

/// A path that ends in the name of a PDF file has it for a PDF on every system, whichever way its
/// folders are divided. The paths that begin with two separators are left out.
pub proof fn pdf_files_are_known_everywhere(
    folder: Seq<char>,
    separator: char,
    n: Seq<char>,
    name: Option<Seq<char>>,
)
    requires
        is_separator(separator),
        forall|i: int|
            0 <= i < n.len() ==> !is_separator(#[trigger] n[i]) && n[i] != ':',
        has_pdf_extension(Some(n)),
        !begins_with_two(folder.push(separator) + n),
        names_file(folder.push(separator) + n, name),
    ensures
        has_pdf_extension(name),
{
    let path = folder.push(separator) + n;
    lemma_last_component_ends(folder.push(separator), n);
    let rest = if without_drive(path) == path {
        folder.push(separator)
    } else {
        folder.push(separator).skip(2)
    };
    assert(without_drive(path) =~= rest + n);
    assert(slashed(rest + n) =~= slashed(rest) + n);
    lemma_last_component_ends(slashed(rest), n);
}

proof fn lemma_last_dot_found(front: Seq<char>, ext: Seq<char>, c: char)
    requires
        !ext.contains(c),
    ensures
        last_index(front.push(c) + ext, c) == front.len(),
        last_index(ext, c) == -1,
    decreases ext.len(),
{
    let name = front.push(c) + ext;
    if ext.len() == 0 {
        assert(name =~= front.push(c));
    } else {
        assert(ext.contains(ext[ext.len() - 1]));
        assert forall|x: char| ext.drop_last().contains(x) implies ext.contains(x) by {
            let i = choose|i: int| 0 <= i < ext.drop_last().len() && ext.drop_last()[i] == x;
            assert(ext[i] == x);
        }
        lemma_last_dot_found(front, ext.drop_last(), c);
        assert(name.drop_last() =~= front.push(c) + ext.drop_last());
        assert(name.last() == ext.last());
    }
}

/// A file name is cut at its last dot. One without a dot is all stem, and so is one whose only dot
/// comes first.
pub proof fn names_are_cut_at_the_last_dot(front: Seq<char>, ext: Seq<char>)
    requires
        !ext.contains('.'),
    ensures
        front.len() > 0 ==> stem(front.push('.') + ext) == front && extension(front.push('.') + ext)
            == Some(ext),
        stem(ext) == ext && extension(ext) is None,
        stem(seq!['.'] + ext) == seq!['.'] + ext && extension(seq!['.'] + ext) is None,
{
    lemma_last_dot_found(front, ext, '.');
    lemma_last_dot_found(Seq::empty(), ext, '.');
    let name = front.push('.') + ext;
    assert(name.take(front.len() as int) =~= front);
    assert(name.skip(front.len() as int + 1) =~= ext);
    assert(Seq::<char>::empty().push('.') =~= seq!['.']);
}

/// A file is a PDF where its name ends in `.pdf`, in small or capital letters, with something before
/// it.
pub proof fn pdf_files_end_in_pdf(name: Seq<char>)
    ensures
        has_pdf_extension(Some(name)) <==> {
            let n = name.len() as int;
            &&& n > 4
            &&& name[n - 4] == '.'
            &&& name[n - 3] == 'p' || name[n - 3] == 'P'
            &&& name[n - 2] == 'd' || name[n - 2] == 'D'
            &&& name[n - 1] == 'f' || name[n - 1] == 'F'
        },
        !has_pdf_extension(None),
{
    let n = name.len() as int;
    if has_pdf_extension(Some(name)) {
        let dot = last_index(name, '.');
        lemma_last_index(name, '.');
        let ext = name.skip(dot + 1);
        assert(ext[0] == name[dot + 1] && ext[1] == name[dot + 2] && ext[2] == name[dot + 3]);
    }
    if n > 4 && name[n - 4] == '.' && (name[n - 3] == 'p' || name[n - 3] == 'P') && (name[n - 2]
        == 'd' || name[n - 2] == 'D') && (name[n - 1] == 'f' || name[n - 1] == 'F') {
        let front = name.take(n - 4);
        let ext = name.skip(n - 3);
        assert(ext[0] == name[n - 3] && ext[1] == name[n - 2] && ext[2] == name[n - 1]);
        assert(!ext.contains('.'));
        assert(name =~= front.push('.') + ext);
        names_are_cut_at_the_last_dot(front, ext);
    }
}

} // verus!
