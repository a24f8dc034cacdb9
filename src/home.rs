//! The home pages: a template with a navigation bar and one content slot.
use vstd::prelude::*;
use crate::error::BlogError;
use crate::render::content_marker;
use crate::text::{
    chars_of, ends_with, has_suffix, indent_lines, indent_of, leading_spaces, lines_of, push_all,
    push_spaces, split_lines, sub_text, texts,
};

verus! {

/// The marker of a navigation link that may be the active one.
pub open spec fn nav_marker() -> Seq<char> {
    "<!--<A>-->"@
}

/// The first index `k >= i` at which `pat` occurs in `s`, else `-1`.
pub open spec fn find_text(s: Seq<char>, pat: Seq<char>, i: int) -> int
    decreases s.len() - i,
{
    if i < 0 || i >= s.len() || i + pat.len() > s.len() {
        -1
    } else if s.subrange(i, i + pat.len()) == pat {
        i
    } else {
        find_text(s, pat, i + 1)
    }
}

/// The last index below `end` at which `c` occurs in `s`, else `-1`.
pub open spec fn rfind_char(s: Seq<char>, c: char, end: int) -> int
    decreases end,
{
    if end <= 0 {
        -1
    } else if s[end - 1] == c {
        end - 1
    } else {
        rfind_char(s, c, end - 1)
    }
}

/// The output of one template line before the content slot, on page `page`. A line with a
/// navigation marker (which follows `...'/<section>'>`) loses the marker, and its tag gets
/// ` id='active'` where `<section>` is `page`. `None` where the marker is not preceded by
/// a `/`-delimited section name.
pub open spec fn nav_line(line: Seq<char>, page: Seq<char>) -> Option<Seq<char>> {
    let idx = find_text(line, nav_marker(), 0);
    if idx < 0 {
        Some(line.push('\n'))
    } else if idx < 2 {
        None
    } else {
        let slash = rfind_char(line, '/', idx - 1);
        if slash < 0 || slash + 1 > idx - 2 {
            None
        } else {
            let active: Seq<char> = if line.subrange(slash + 1, idx - 2) == page {
                " id='active'"@
            } else {
                Seq::empty()
            };
            Some(line.take(idx - 1) + active + seq!['>'] + line.skip(idx + 10).push('\n'))
        }
    }
}

/// The template lines `t`, each output as `nav_line` says; `None` where one of them fails.
pub open spec fn nav_lines(t: Seq<Seq<char>>, page: Seq<char>) -> Option<Seq<char>>
    decreases t.len(),
{
    if t.len() == 0 {
        Some(Seq::empty())
    } else {
        match nav_line(t[0], page) {
            None => None,
            Some(l) => match nav_lines(t.drop_first(), page) {
                None => None,
                Some(rest) => Some(l + rest),
            },
        }
    }
}

/// A home page from the template lines `t` on: navigation lines up to the content slot,
/// then the source lines at the slot's indent, then the rest of the template as navigation
/// lines again. Without a slot the source follows the template unindented.
pub open spec fn home_from(t: Seq<Seq<char>>, page: Seq<char>, src: Seq<Seq<char>>) -> Option<
    Seq<char>,
>
    decreases t.len(),
{
    if t.len() == 0 {
        Some(indent_lines(src, 0))
    } else if ends_with(t[0], content_marker()) {
        match nav_lines(t.drop_first(), page) {
            None => None,
            Some(rest) => Some(indent_lines(src, indent_of(t[0])) + rest),
        }
    } else {
        match nav_line(t[0], page) {
            None => None,
            Some(l) => match home_from(t.drop_first(), page, src) {
                None => None,
                Some(rest) => Some(l + rest),
            },
        }
    }
}

/// The index of the first occurrence of `pat` in `s`, if any.
fn find_in(s: &[char], pat: &[char]) -> (r: Option<usize>)
    ensures
        r is None <==> find_text(s@, pat@, 0) < 0,
        r matches Some(k) ==> k == find_text(s@, pat@, 0) && k + pat@.len() <= s@.len(),
{
    let mut i: usize = 0;
    while i < s.len() && pat.len() <= s.len() - i
        invariant
            i <= s.len(),
            find_text(s@, pat@, 0) == find_text(s@, pat@, i as int),
        decreases s.len() - i,
    {
        let mut j: usize = 0;
        while j < pat.len() && s[i + j] == pat[j]
            invariant
                j <= pat.len(),
                i + pat.len() <= s.len(),
                forall|q: int| 0 <= q < j ==> s@[i + q] == pat@[q],
            decreases pat.len() - j,
        {
            j = j + 1;
        }
        if j == pat.len() {
            assert(s@.subrange(i as int, i + pat@.len()) =~= pat@);
            return Some(i);
        }
        assert(s@.subrange(i as int, i + pat@.len())[j as int] != pat@[j as int]);
        i = i + 1;
    }
    None
}

/// The index of the last `c` in `s[..end]`, if any.
fn rfind_in(s: &[char], c: char, end: usize) -> (r: Option<usize>)
    requires
        end <= s@.len(),
    ensures
        r is None <==> rfind_char(s@, c, end as int) < 0,
        r matches Some(k) ==> k == rfind_char(s@, c, end as int) && k < end,
{
    let mut e = end;
    while e > 0 && s[e - 1] != c
        invariant
            e <= end,
            end <= s@.len(),
            rfind_char(s@, c, end as int) == rfind_char(s@, c, e as int),
        decreases e,
    {
        e = e - 1;
    }
    if e == 0 {
        None
    } else {
        Some(e - 1)
    }
}

/// One template line before the content slot, as `nav_line` says.
fn nav_output(line: &[char], page: &[char]) -> (r: Option<Vec<char>>)
    ensures
        r matches Some(o) ==> nav_line(line@, page@) == Some(o@),
        r is None ==> nav_line(line@, page@) is None,
{
    let marker = chars_of("<!--<A>-->");
    proof {
        reveal_strlit("<!--<A>-->");
        assert(marker@.len() == 10);
    }
    match find_in(line, &marker) {
        None => {
            let mut o = sub_text(line, 0, line.len());
            o.push('\n');
            assert(o@ =~= line@.push('\n'));
            Some(o)
        },
        Some(idx) => {
            if idx < 2 {
                return None;
            }
            match rfind_in(line, '/', idx - 1) {
                None => None,
                Some(slash) => {
                    if slash + 1 > idx - 2 {
                        return None;
                    }
                    let target = sub_text(line, slash + 1, idx - 2);
                    let mut o = sub_text(line, 0, idx - 1);
                    if crate::metadata::same_text(&target, page) {
                        crate::text::push_str(&mut o, " id='active'");
                    }
                    o.push('>');
                    let len = line.len();
                    assert(idx + marker@.len() <= len);
                    let rest = sub_text(line, idx + marker.len(), len);
                    push_all(&mut o, &rest);
                    o.push('\n');
                    let ghost active: Seq<char> = if target@ == page@ {
                        " id='active'"@
                    } else {
                        Seq::empty()
                    };
                    assert(o@ =~= line@.take(idx - 1) + active + seq!['>'] + line@.skip(
                        idx + 10,
                    ).push('\n'));
                    Some(o)
                },
            }
        },
    }
}

/// Appends `lines`, each indented by `n` spaces and followed by a newline.
fn push_lines(out: &mut Vec<char>, lines: &Vec<Vec<char>>, from: usize, n: usize)
    requires
        from <= lines@.len(),
    ensures
        final(out)@ == old(out)@ + indent_lines(texts(lines@).skip(from as int), n as nat),
{
    let ghost start = out@;
    let ghost ls = texts(lines@).skip(from as int);
    for i in from..lines.len()
        invariant
            from <= lines@.len(),
            ls == texts(lines@).skip(from as int),
            out@ == start + indent_lines(ls.take(i - from), n as nat),
    {
        push_spaces(out, n);
        push_all(out, &lines[i]);
        out.push('\n');
        proof {
            assert(ls.take(i + 1 - from).drop_last() =~= ls.take(i - from));
            assert(ls[i - from] == lines@[i as int]@);
            assert(out@ =~= start + indent_lines(ls.take(i + 1 - from), n as nat));
        }
    }
    assert(ls.take(lines@.len() - from) =~= ls);
}

/// The template lines from index `from` on, each output as `nav_line` says.
fn nav_all(lines: &Vec<Vec<char>>, from: usize, page: &[char]) -> (r: Option<Vec<char>>)
    requires
        from <= lines@.len(),
    ensures
        r matches Some(o) ==> nav_lines(texts(lines@).skip(from as int), page@) == Some(o@),
        r is None ==> nav_lines(texts(lines@).skip(from as int), page@) is None,
{
    let ghost tv = texts(lines@);
    let mut out: Vec<char> = Vec::new();
    assert(out@ + Seq::<char>::empty() =~= out@);
    for i in from..lines.len()
        invariant
            from <= lines@.len(),
            tv == texts(lines@),
            nav_lines(tv.skip(from as int), page@) == match nav_lines(tv.skip(i as int), page@) {
                None => None,
                Some(rest) => Some(out@ + rest),
            },
    {
        proof {
            assert(tv.skip(i as int)[0] == lines@[i as int]@);
            assert(tv.skip(i as int).drop_first() =~= tv.skip(i + 1));
        }
        match nav_output(&lines[i], page) {
            None => {
                return None;
            },
            Some(o) => {
                let ghost before = out@;
                push_all(&mut out, &o);
                proof {
                    match nav_lines(tv.skip(i + 1), page@) {
                        None => {},
                        Some(rest) => {
                            assert(before + (o@ + rest) =~= out@ + rest);
                        },
                    }
                }
            },
        }
    }
    proof {
        assert(tv.skip(lines@.len() as int) =~= Seq::<Seq<char>>::empty());
        assert(out@ + Seq::<char>::empty() =~= out@);
    }
    Some(out)
}

/// The home page named `page` (its file name without `.html`): `template` with the
/// navigation marked and `source` in the content slot.
pub fn home_page(template: &[char], page: &[char], source: &[char]) -> (r: Result<
    Vec<char>,
    BlogError,
>)
    ensures
        r matches Ok(o) ==> home_from(lines_of(template@), page@, lines_of(source@)) == Some(o@),
        r is Err ==> home_from(lines_of(template@), page@, lines_of(source@)) is None,
        r matches Err(e) ==> e == BlogError::BadTemplate,
{
    let t = split_lines(template);
    let src = split_lines(source);
    let ghost tv = lines_of(template@);
    let ghost sv = lines_of(source@);
    let marker = chars_of("<!--<>-->");
    let mut out: Vec<char> = Vec::new();
    assert(tv.skip(0) =~= tv);
    for i in 0..t.len()
        invariant
            tv == texts(t@),
            sv == texts(src@),
            tv == lines_of(template@),
            sv == lines_of(source@),
            marker@ == content_marker(),
            home_from(tv, page@, sv) == match home_from(tv.skip(i as int), page@, sv) {
                None => None,
                Some(rest) => Some(out@ + rest),
            },
    {
        let line = &t[i];
        proof {
            assert(tv.skip(i as int)[0] == line@);
            assert(tv.skip(i as int).drop_first() =~= tv.skip(i + 1));
        }
        if has_suffix(line, &marker) {
            let ghost before = out@;
            let n = leading_spaces(line);
            push_lines(&mut out, &src, 0, n);
            proof {
                assert(sv.skip(0) =~= sv);
            }
            match nav_all(&t, i + 1, page) {
                None => {
                    return Err(BlogError::BadTemplate);
                },
                Some(rest) => {
                    push_all(&mut out, &rest);
                    assert(out@ =~= before + (indent_lines(sv, n as nat) + rest@));
                    return Ok(out);
                },
            }
        }
        match nav_output(line, page) {
            None => {
                assert(home_from(tv.skip(i as int), page@, sv) is None);
                return Err(BlogError::BadTemplate);
            },
            Some(o) => {
                let ghost before = out@;
                push_all(&mut out, &o);
                proof {
                    match home_from(tv.skip(i + 1), page@, sv) {
                        None => {},
                        Some(rest) => {
                            assert(before + (o@ + rest) =~= out@ + rest);
                        },
                    }
                }
            },
        }
    }
    push_lines(&mut out, &src, 0, 0);
    proof {
        assert(sv.skip(0) =~= sv);
        assert(tv.skip(t@.len() as int) =~= Seq::<Seq<char>>::empty());
    }
    Ok(out)
}

} // verus!

verus! {

/// The name of a home page: its file name without the `.html` extension.
pub open spec fn page_name_spec(file_name: Seq<char>) -> Seq<char> {
    if ends_with(file_name, ".html"@) {
        file_name.take(file_name.len() - 5)
    } else {
        file_name
    }
}

/// Where a home page is written: `index.html` for the file `index.html`, else
/// `<name>/index.html`.
pub open spec fn destination_spec(file_name: Seq<char>) -> Seq<char> {
    if file_name == "index.html"@ {
        "index.html"@
    } else {
        page_name_spec(file_name) + "/index.html"@
    }
}

/// The name of the home page in file `file_name`.
pub fn page_name(file_name: &[char]) -> (r: Vec<char>)
    ensures
        r@ == page_name_spec(file_name@),
{
    let ext = chars_of(".html");
    if has_suffix(file_name, &ext) {
        proof {
            reveal_strlit(".html");
        }
        sub_text(file_name, 0, file_name.len() - 5)
    } else {
        sub_text(file_name, 0, file_name.len())
    }
}

/// Where the home page in file `file_name` is written, relative to the site root.
pub fn destination(file_name: &[char]) -> (r: Vec<char>)
    ensures
        r@ == destination_spec(file_name@),
{
    let index = chars_of("index.html");
    if crate::metadata::same_text(file_name, &index) {
        index
    } else {
        let mut r = page_name(file_name);
        crate::text::push_str(&mut r, "/index.html");
        r
    }
}

} // verus!
