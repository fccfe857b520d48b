//! Path text: how paths are shown, and what counts as a file's extension.
//!
//! Paths reach the library as their text (the lossy UTF-8 rendering of the
//! operating system path), and are split on `/` the way Unix paths are.

use vstd::prelude::*;
use crate::text::{ascii_lower, ascii_lower_seq, ascii_upper, chars_of, lower_char, push_char};

verus! {

/// Index of the last occurrence of `c` in `s`, or `-1` when there is none.
pub open spec fn last_index(s: Seq<char>, c: char) -> int
    decreases s.len(),
{
    if s.len() == 0 {
        -1
    } else if s.last() == c {
        s.len() - 1
    } else {
        last_index(s.drop_last(), c)
    }
}

/// `last_index` finds the last occurrence of `c`, or `-1` when there is none.
pub proof fn lemma_last_index(s: Seq<char>, c: char)
    ensures
        -1 <= last_index(s, c) < s.len(),
        last_index(s, c) >= 0 ==> s[last_index(s, c)] == c,
        forall|j: int| last_index(s, c) < j < s.len() ==> s[j] != c,
    decreases s.len(),
{
    if s.len() > 0 && s.last() != c {
        lemma_last_index(s.drop_last(), c);
        assert forall|j: int| last_index(s, c) < j < s.len() implies s[j] != c by {
            if j < s.len() - 1 {
                assert(s.drop_last()[j] == s[j]);
            }
        }
    }
}

/// Index of the last `c` among the first `end` characters.
pub(crate) fn find_last(s: &Vec<char>, c: char, end: usize) -> (res: Option<usize>)
    requires
        end <= s@.len(),
    ensures
        match res {
            Some(i) => i as int == last_index(s@.take(end as int), c) && i < end,
            None => last_index(s@.take(end as int), c) == -1,
        },
{
    let ghost t = s@.take(end as int);
    let mut i = end;
    assert(t.take(end as int) =~= t);
    while i > 0
        invariant
            i <= end <= s@.len(),
            t == s@.take(end as int),
            last_index(t, c) == last_index(t.take(i as int), c),
        decreases i,
    {
        assert(t.take(i as int).drop_last() =~= t.take(i - 1));
        if s[i - 1] == c {
            return Some(i - 1);
        }
        i = i - 1;
    }
    assert(last_index(t.take(0), c) == -1);
    None
}

/// Backslashes turned into forward slashes.
pub open spec fn forward_slashes(s: Seq<char>) -> Seq<char> {
    s.map_values(|c: char| if c == '\\' { '/' } else { c })
}

/// How a path is shown: forward slashes everywhere, and one leading `./` removed.
pub open spec fn display_path_spec(s: Seq<char>) -> Seq<char> {
    let t = forward_slashes(s);
    if seq!['.', '/'].is_prefix_of(t) {
        t.skip(2)
    } else {
        t
    }
}

/// A shown path has no backslash; a path with no backslash that does not
/// start with `./` is shown as it is; and `./` followed by such a path is
/// shown without that one `./` (only one is removed).
pub proof fn lemma_display_path_shape(s: Seq<char>, rest: Seq<char>)
    requires
        forall|i: int| 0 <= i < rest.len() ==> rest[i] != '\\',
    ensures
        forall|i: int| 0 <= i < display_path_spec(s).len() ==> #[trigger] display_path_spec(s)[i] != '\\',
        !(rest.len() >= 2 && rest[0] == '.' && rest[1] == '/') ==> display_path_spec(rest) == rest,
        display_path_spec(seq!['.', '/'] + rest) == rest,
{
    let t = forward_slashes(s);
    if seq!['.', '/'].is_prefix_of(t) {
        assert forall|i: int| 0 <= i < t.skip(2).len() implies #[trigger] t.skip(2)[i] != '\\' by {
            assert(t.skip(2)[i] == t[i + 2]);
        }
    }
    assert(forward_slashes(rest) =~= rest);
    if !(rest.len() >= 2 && rest[0] == '.' && rest[1] == '/') {
        if seq!['.', '/'].is_prefix_of(rest) {
            assert(rest[0] == seq!['.', '/'][0] && rest[1] == seq!['.', '/'][1]);
        }
    }
    let d = seq!['.', '/'] + rest;
    assert(forward_slashes(d) =~= d);
    assert(seq!['.', '/'].is_prefix_of(d)) by {
        assert(d.subrange(0, 2) =~= seq!['.', '/']);
    }
    assert(d.skip(2) =~= rest);
}

/// Render a path for output: forward slashes everywhere, and strip the `./` noise
/// that the directory walker adds when walking the current directory.
pub fn display_path(path: &str) -> (res: String)
    ensures
        res@ == display_path_spec(path@),
{
    let cs = chars_of(path);
    let mut t: Vec<char> = Vec::new();
    let mut i: usize = 0;
    while i < cs.len()
        invariant
            i <= cs@.len(),
            cs@ == path@,
            t@ == forward_slashes(cs@.take(i as int)),
        decreases cs@.len() - i,
    {
        assert(forward_slashes(cs@.take(i + 1)) =~= forward_slashes(cs@.take(i as int)).push(
            if cs@[i as int] == '\\' {
                '/'
            } else {
                cs@[i as int]
            },
        ));
        if cs[i] == '\\' {
            t.push('/');
        } else {
            t.push(cs[i]);
        }
        i = i + 1;
    }
    assert(cs@.take(cs@.len() as int) =~= cs@);
    let start: usize = if t.len() >= 2 && t[0] == '.' && t[1] == '/' {
        2
    } else {
        0
    };
    let mut out = String::new();
    let mut j = start;
    while j < t.len()
        invariant
            start <= j <= t@.len(),
            out@ == t@.subrange(start as int, j as int),
        decreases t@.len() - j,
    {
        assert(t@.subrange(start as int, j + 1) =~= t@.subrange(start as int, j as int).push(
            t@[j as int],
        ));
        push_char(&mut out, t[j]);
        j = j + 1;
    }
    assert(seq!['.', '/'].is_prefix_of(t@) <==> (t@.len() >= 2 && t@[0] == '.' && t@[1] == '/'));
    assert(out@ =~= display_path_spec(path@));
    out
}

/// The leading dots removed (std `trim_start_matches('.')`).
pub open spec fn trim_leading_dots(s: Seq<char>) -> Seq<char>
    decreases s.len(),
{
    if s.len() > 0 && s[0] == '.' {
        trim_leading_dots(s.drop_first())
    } else {
        s
    }
}

/// Extension filter normal form: leading dots removed, ASCII lower case.
pub open spec fn normalise_ext_spec(s: Seq<char>) -> Seq<char> {
    ascii_lower_seq(trim_leading_dots(s))
}

/// Accept `--ext rs`, `--ext .rs` and `--ext RS` alike.
pub fn normalise_ext(ext: &str) -> (res: String)
    ensures
        res@ == normalise_ext_spec(ext@),
{
    let cs = chars_of(ext);
    let mut i: usize = 0;
    assert(cs@.skip(0) =~= cs@);
    while i < cs.len() && cs[i] == '.'
        invariant
            i <= cs@.len(),
            trim_leading_dots(cs@) == trim_leading_dots(cs@.skip(i as int)),
        decreases cs@.len() - i,
    {
        assert(cs@.skip(i as int).drop_first() =~= cs@.skip(i + 1));
        i = i + 1;
    }
    let mut out = String::new();
    let mut j = i;
    while j < cs.len()
        invariant
            i <= j <= cs@.len(),
            out@ == ascii_lower_seq(cs@.subrange(i as int, j as int)),
        decreases cs@.len() - j,
    {
        assert(ascii_lower_seq(cs@.subrange(i as int, j + 1)) =~= ascii_lower_seq(
            cs@.subrange(i as int, j as int),
        ).push(ascii_lower(cs@[j as int])));
        push_char(&mut out, lower_char(cs[j]));
        j = j + 1;
    }
    assert(cs@.subrange(i as int, cs@.len() as int) =~= cs@.skip(i as int));
    assert(cs@.skip(i as int) =~= trim_leading_dots(cs@.skip(i as int)));
    out
}

/// A leading dot in front of an extension does not change its normal form.
pub proof fn lemma_normalise_ext_ignores_leading_dot(s: Seq<char>)
    ensures
        normalise_ext_spec(seq!['.'] + s) == normalise_ext_spec(s),
{
    assert((seq!['.'] + s).drop_first() =~= s);
}

/// Upper and lower case spellings of an extension have the same normal form.
pub proof fn lemma_normalise_ext_ignores_case(s: Seq<char>)
    ensures
        normalise_ext_spec(s.map_values(|c: char| ascii_upper(c))) == normalise_ext_spec(s),
    decreases s.len(),
{
    let up = s.map_values(|c: char| ascii_upper(c));
    if s.len() > 0 {
        assert(up.drop_first() =~= s.drop_first().map_values(|c: char| ascii_upper(c)));
        if s[0] == '.' {
            lemma_normalise_ext_ignores_case(s.drop_first());
        } else {
            assert(up[0] != '.');
            assert forall|i: int| 0 <= i < s.len() implies #[trigger] ascii_lower(up[i])
                == ascii_lower(s[i]) by {
                let c = s[i];
                if 'a' <= c && c <= 'z' {
                    assert(((c as u32 - 32) as char) as u32 == c as u32 - 32);
                }
            }
            assert(ascii_lower_seq(up) =~= ascii_lower_seq(s));
        }
    } else {
        assert(up =~= s);
    }
}

/// The text after the last `/` (the whole text when there is none).
pub open spec fn after_last_slash(s: Seq<char>) -> Seq<char> {
    s.skip(last_index(s, '/') + 1)
}

/// The text before the last `/` (empty when there is none).
pub open spec fn before_last_slash(s: Seq<char>) -> Seq<char> {
    if last_index(s, '/') < 0 {
        Seq::empty()
    } else {
        s.take(last_index(s, '/'))
    }
}

/// The final component of a path, as std's `Path::file_name` finds it on Unix:
/// empty and `.` components are skipped, and a final `..` has no name.
pub open spec fn file_name(s: Seq<char>) -> Option<Seq<char>>
    decreases s.len(),
{
    let c = after_last_slash(s);
    if last_index(s, '/') < 0 {
        if c.len() == 0 || c == seq!['.'] || c == seq!['.', '.'] {
            None
        } else {
            Some(c)
        }
    } else if c.len() == 0 || c == seq!['.'] {
        proof {
            lemma_last_index(s, '/');
        }
        file_name(before_last_slash(s))
    } else if c == seq!['.', '.'] {
        None
    } else {
        Some(c)
    }
}

/// The extension of a file name, as std's `Path::extension` finds it: the text
/// after the last `.`, unless that dot is the first character.
pub open spec fn name_extension(name: Seq<char>) -> Option<Seq<char>> {
    let i = last_index(name, '.');
    if i <= 0 {
        None
    } else {
        Some(name.skip(i + 1))
    }
}

pub open spec fn path_extension(path: Seq<char>) -> Option<Seq<char>> {
    match file_name(path) {
        Some(name) => name_extension(name),
        None => None,
    }
}

/// Whether a path's extension, lower-cased, is one of `exts`.
pub open spec fn has_ext_spec(path: Seq<char>, exts: Seq<Seq<char>>) -> bool {
    match path_extension(path) {
        Some(e) => exts.contains(ascii_lower_seq(e)),
        None => false,
    }
}

fn is_dot(cs: &Vec<char>, from: usize, to: usize) -> (res: bool)
    requires
        from <= to <= cs@.len(),
    ensures
        res == (cs@.subrange(from as int, to as int) == seq!['.']),
{
    let ghost part = cs@.subrange(from as int, to as int);
    if to - from != 1 {
        assert(part.len() != seq!['.'].len());
        return false;
    }
    let r = cs[from] == '.';
    proof {
        assert(part[0] == cs@[from as int]);
        if r {
            assert(part =~= seq!['.']);
        } else {
            assert(part != seq!['.']) by {
                assert(seq!['.'][0] == '.');
            }
        }
    }
    r
}

fn is_dot_dot(cs: &Vec<char>, from: usize, to: usize) -> (res: bool)
    requires
        from <= to <= cs@.len(),
    ensures
        res == (cs@.subrange(from as int, to as int) == seq!['.', '.']),
{
    let ghost part = cs@.subrange(from as int, to as int);
    if to - from != 2 {
        assert(part.len() != seq!['.', '.'].len());
        return false;
    }
    let r = cs[from] == '.' && cs[from + 1] == '.';
    proof {
        assert(part[0] == cs@[from as int]);
        assert(part[1] == cs@[from + 1]);
        if r {
            assert(part =~= seq!['.', '.']);
        } else {
            assert(part != seq!['.', '.']) by {
                assert(seq!['.', '.'][0] == '.');
                assert(seq!['.', '.'][1] == '.');
            }
        }
    }
    r
}

/// Finds the file name of the path text `cs`: the range it occupies.
fn file_name_range(cs: &Vec<char>) -> (res: Option<(usize, usize)>)
    ensures
        match res {
            Some((a, b)) => a <= b <= cs@.len() && file_name(cs@) == Some(
                cs@.subrange(a as int, b as int),
            ),
            None => file_name(cs@) is None,
        },
{
    let mut end = cs.len();
    assert(cs@.take(end as int) =~= cs@);
    loop
        invariant
            end <= cs@.len(),
            file_name(cs@) == file_name(cs@.take(end as int)),
        decreases end,
    {
        let ghost s = cs@.take(end as int);
        proof {
            lemma_last_index(s, '/');
        }
        match find_last(cs, '/', end) {
            None => {
                assert(s.skip(0) =~= cs@.subrange(0, end as int));
                if end == 0 || is_dot(cs, 0, end) || is_dot_dot(cs, 0, end) {
                    return None;
                }
                return Some((0, end));
            },
            Some(k) => {
                assert(after_last_slash(s) =~= cs@.subrange(k + 1, end as int));
                if k + 1 == end || is_dot(cs, k + 1, end) {
                    assert(before_last_slash(s) =~= cs@.take(k as int));
                    end = k;
                } else if is_dot_dot(cs, k + 1, end) {
                    return None;
                } else {
                    return Some((k + 1, end));
                }
            },
        }
    }
}

/// The extension of a path text, when it has one.
pub fn path_extension_of(path: &str) -> (res: Option<String>)
    ensures
        match res {
            Some(e) => path_extension(path@) == Some(e@),
            None => path_extension(path@) is None,
        },
{
    let cs = chars_of(path);
    match file_name_range(&cs) {
        None => None,
        Some((a, b)) => {
            let mut name: Vec<char> = Vec::new();
            let mut j = a;
            while j < b
                invariant
                    a <= j <= b <= cs@.len(),
                    name@ == cs@.subrange(a as int, j as int),
                decreases b - j,
            {
                assert(cs@.subrange(a as int, j + 1) =~= cs@.subrange(a as int, j as int).push(
                    cs@[j as int],
                ));
                name.push(cs[j]);
                j = j + 1;
            }
            assert(name@.take(name@.len() as int) =~= name@);
            match find_last(&name, '.', name.len()) {
                None => None,
                Some(i) => {
                    if i == 0 {
                        return None;
                    }
                    let mut out = String::new();
                    let mut k = i + 1;
                    while k < name.len()
                        invariant
                            i + 1 <= k <= name@.len(),
                            out@ == name@.subrange(i + 1, k as int),
                        decreases name@.len() - k,
                    {
                        assert(name@.subrange(i + 1, k + 1) =~= name@.subrange(
                            i + 1,
                            k as int,
                        ).push(name@[k as int]));
                        push_char(&mut out, name[k]);
                        k = k + 1;
                    }
                    assert(name@.skip(i + 1) =~= name@.subrange(i + 1, name@.len() as int));
                    Some(out)
                },
            }
        },
    }
}

/// Whether `value` is one of the strings in `list`.
pub(crate) fn contains_string(list: &[String], value: &String) -> (res: bool)
    ensures
        res == list@.map_values(|s: String| s@).contains(value@),
{
    let ghost views = list@.map_values(|s: String| s@);
    let mut i: usize = 0;
    while i < list.len()
        invariant
            i <= list@.len(),
            views == list@.map_values(|s: String| s@),
            forall|j: int| 0 <= j < i ==> list@[j]@ != value@,
        decreases list@.len() - i,
    {
        if list[i] == *value {
            assert(views[i as int] == value@);
            return true;
        }
        i = i + 1;
    }
    proof {
        if views.contains(value@) {
            let k = choose|k: int| 0 <= k < views.len() && views[k] == value@;
            assert(list@[k]@ == value@);
        }
    }
    false
}

/// Whether the path's extension, lower-cased, is one of `exts` (which are
/// expected in the form `normalise_ext` gives).
pub fn has_ext(path: &str, exts: &[String]) -> (res: bool)
    ensures
        res == has_ext_spec(path@, exts@.map_values(|s: String| s@)),
{
    match path_extension_of(path) {
        None => false,
        Some(e) => {
            let lowered = crate::text::lower_string(e.as_str());
            contains_string(exts, &lowered)
        },
    }
}

} // verus!
