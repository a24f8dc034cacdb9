//! The metadata block at the top of a post.
use vstd::prelude::*;
use crate::error::BlogError;
use crate::text::{chars_of, lines_of, split_lines, sub_text};

verus! {

/// The line that opens the metadata block.
pub open spec fn open_marker() -> Seq<char> {
    "<!--METADATA"@
}

/// The line that closes the metadata block.
pub open spec fn close_marker() -> Seq<char> {
    "-->"@
}

/// The first index `k >= i` of `lines` that holds `target`, else `lines.len()`.
pub open spec fn find_line(lines: Seq<Seq<char>>, target: Seq<char>, i: int) -> int
    decreases lines.len() - i,
{
    if i < 0 || i >= lines.len() {
        lines.len() as int
    } else if lines[i] == target {
        i
    } else {
        find_line(lines, target, i + 1)
    }
}

/// The first index `k >= i` at which `l` holds `": "`, else `-1`.
pub open spec fn find_sep(l: Seq<char>, i: int) -> int
    decreases l.len() - i,
{
    if i < 0 || i + 1 >= l.len() {
        -1
    } else if l[i] == ':' && l[i + 1] == ' ' {
        i
    } else {
        find_sep(l, i + 1)
    }
}

/// The key of a `KEY: VALUE` line.
pub open spec fn key_of(l: Seq<char>) -> Seq<char> {
    l.take(find_sep(l, 0))
}

/// The value of a `KEY: VALUE` line.
pub open spec fn value_of(l: Seq<char>) -> Seq<char> {
    l.skip(find_sep(l, 0) + 2)
}

/// The value of the last line of `keys` with key `k`.
pub open spec fn lookup(keys: Seq<Seq<char>>, k: Seq<char>) -> Option<Seq<char>>
    decreases keys.len(),
{
    if keys.len() == 0 {
        None
    } else if key_of(keys.last()) == k {
        Some(value_of(keys.last()))
    } else {
        lookup(keys.drop_last(), k)
    }
}

/// The lines after the opening marker.
pub open spec fn block_of(lines: Seq<Seq<char>>) -> Seq<Seq<char>> {
    lines.skip(find_line(lines, open_marker(), 0) + 1)
}

/// The `KEY: VALUE` lines of the block: those before the closing marker.
pub open spec fn key_lines_of(lines: Seq<Seq<char>>) -> Seq<Seq<char>> {
    let block = block_of(lines);
    block.take(find_line(block, close_marker(), 0))
}

/// The summary: the line after the closing marker, else the last `summary` key.
pub open spec fn summary_of(lines: Seq<Seq<char>>) -> Option<Seq<char>> {
    let block = block_of(lines);
    let end = find_line(block, close_marker(), 0);
    if end + 1 < block.len() {
        Some(block[end + 1])
    } else {
        lookup(key_lines_of(lines), "summary"@)
    }
}

/// The metadata that a post's lines hold: title, date, optional tags, summary.
pub open spec fn metadata_spec(lines: Seq<Seq<char>>) -> Result<
    (Seq<char>, Seq<char>, Option<Seq<char>>, Seq<char>),
    BlogError,
> {
    let keys = key_lines_of(lines);
    if find_line(lines, open_marker(), 0) == lines.len() {
        Err(BlogError::MalformedPost)
    } else if exists|k: int| 0 <= k < keys.len() && find_sep(#[trigger] keys[k], 0) < 0 {
        Err(BlogError::MalformedMetadataLine)
    } else if lookup(keys, "title"@) is None || lookup(keys, "date"@) is None || summary_of(
        lines,
    ) is None {
        Err(BlogError::MalformedPost)
    } else {
        Ok(
            (
                lookup(keys, "title"@)->0,
                lookup(keys, "date"@)->0,
                lookup(keys, "tags"@),
                summary_of(lines)->0,
            ),
        )
    }
}

/// The metadata block of a post.
pub struct Metadata {
    pub title: Vec<char>,
    pub date: Vec<char>,
    pub tags: Option<Vec<char>>,
    pub summary: Vec<char>,
}

impl Metadata {
    pub open spec fn model(&self) -> (Seq<char>, Seq<char>, Option<Seq<char>>, Seq<char>) {
        (
            self.title@,
            self.date@,
            match self.tags {
                Some(t) => Some(t@),
                None => None,
            },
            self.summary@,
        )
    }
}

/// Whether two texts are equal.
pub fn same_text(a: &[char], b: &[char]) -> (r: bool)
    ensures
        r == (a@ == b@),
{
    if a.len() != b.len() {
        return false;
    }
    for i in 0..a.len()
        invariant
            a.len() == b.len(),
            forall|k: int| 0 <= k < i ==> a@[k] == b@[k],
    {
        if a[i] != b[i] {
            return false;
        }
    }
    assert(a@ =~= b@);
    true
}

/// The index of the first `": "` in `l`, if any.
fn separator(l: &[char]) -> (r: Option<usize>)
    ensures
        r is None <==> find_sep(l@, 0) < 0,
        r matches Some(k) ==> k == find_sep(l@, 0) && k + 1 < l@.len(),
{
    if l.len() < 2 {
        return None;
    }
    let mut i: usize = 0;
    while i < l.len() - 1
        invariant
            l.len() >= 2,
            i <= l.len(),
            find_sep(l@, 0) == find_sep(l@, i as int),
        decreases l.len() - i,
    {
        if l[i] == ':' && l[i + 1] == ' ' {
            return Some(i);
        }
        i = i + 1;
    }
    None
}

/// The index of the first line at or after `from` equal to `target`, else `lines.len()`.
fn line_index(lines: &Vec<Vec<char>>, target: &[char], from: usize) -> (r: usize)
    requires
        from <= lines@.len(),
    ensures
        r == find_line(lines@.map_values(|l: Vec<char>| l@), target@, from as int),
        from <= r <= lines@.len(),
{
    let ghost ls = lines@.map_values(|l: Vec<char>| l@);
    let mut i = from;
    while i < lines.len()
        invariant
            from <= i <= lines@.len(),
            ls == lines@.map_values(|l: Vec<char>| l@),
            find_line(ls, target@, from as int) == find_line(ls, target@, i as int),
        decreases lines.len() - i,
    {
        assert(ls[i as int] == lines@[i as int]@);
        if same_text(&lines[i], target) {
            return i;
        }
        i = i + 1;
    }
    i
}

proof fn lemma_lookup_step(keys: Seq<Seq<char>>, i: int, k: Seq<char>)
    requires
        0 <= i < keys.len(),
    ensures
        lookup(keys.take(i + 1), k) == (if key_of(keys[i]) == k {
            Some(value_of(keys[i]))
        } else {
            lookup(keys.take(i), k)
        }),
{
    assert(keys.take(i + 1).drop_last() =~= keys.take(i));
}

/// Parses the metadata block of a post's text.
pub fn extract_metadata(text: &[char]) -> (r: Result<Metadata, BlogError>)
    ensures
        r matches Ok(m) ==> metadata_spec(lines_of(text@)) == Ok::<_, BlogError>(m.model()),
        r matches Err(e) ==> metadata_spec(lines_of(text@)) == Err::<
            (Seq<char>, Seq<char>, Option<Seq<char>>, Seq<char>),
            _,
        >(e),
{
    let lines = split_lines(text);
    let ghost ls = lines_of(text@);
    let open = chars_of("<!--METADATA");
    let close = chars_of("-->");
    let m = line_index(&lines, &open, 0);
    if m == lines.len() {
        return Err(BlogError::MalformedPost);
    }
    let end = line_index(&lines, &close, m + 1);
    let ghost block = ls.skip(m + 1);
    proof {
        assert forall|j: int| m + 1 <= j <= ls.len() implies find_line(block, close@, j - m - 1)
            == find_line(ls, close@, j) - m - 1 by {
            lemma_find_line_shift(ls, close@, m + 1, j);
        }
    }
    let ghost keys = block.take(end - m - 1);
    proof {
        assert(find_line(block, close@, 0) == end - m - 1);
        assert(keys == key_lines_of(ls));
        reveal_strlit("title");
        reveal_strlit("date");
        reveal_strlit("tags");
        reveal_strlit("summary");
    }
    let t_title = chars_of("title");
    let t_date = chars_of("date");
    let t_tags = chars_of("tags");
    let t_summary = chars_of("summary");
    let mut title: Option<Vec<char>> = None;
    let mut date: Option<Vec<char>> = None;
    let mut tags: Option<Vec<char>> = None;
    let mut summary: Option<Vec<char>> = None;
    let mut i = m + 1;
    while i < end
        invariant
            m + 1 <= i <= end <= lines@.len(),
            ls == lines@.map_values(|l: Vec<char>| l@),
            block == ls.skip(m + 1),
            keys == block.take(end - m - 1),
            keys.len() == end - m - 1,
            keys == key_lines_of(ls),
            ls == lines_of(text@),
            find_line(ls, open_marker(), 0) == m,
            m < ls.len(),
            find_line(block, close_marker(), 0) == end - m - 1,
            t_title@ == "title"@,
            t_date@ == "date"@,
            t_tags@ == "tags"@,
            t_summary@ == "summary"@,
            forall|k: int| 0 <= k < i - m - 1 ==> find_sep(#[trigger] keys[k], 0) >= 0,
            title matches Some(v) ==> lookup(keys.take(i - m - 1), "title"@) == Some(v@),
            title is None ==> lookup(keys.take(i - m - 1), "title"@) is None,
            date matches Some(v) ==> lookup(keys.take(i - m - 1), "date"@) == Some(v@),
            date is None ==> lookup(keys.take(i - m - 1), "date"@) is None,
            tags matches Some(v) ==> lookup(keys.take(i - m - 1), "tags"@) == Some(v@),
            tags is None ==> lookup(keys.take(i - m - 1), "tags"@) is None,
            summary matches Some(v) ==> lookup(keys.take(i - m - 1), "summary"@) == Some(v@),
            summary is None ==> lookup(keys.take(i - m - 1), "summary"@) is None,
        decreases end - i,
    {
        let line = &lines[i];
        let ghost k = (i - m - 1) as int;
        assert(keys[k] == line@);
        proof {
            reveal_strlit("title");
            reveal_strlit("date");
            reveal_strlit("tags");
            reveal_strlit("summary");
            assert("title"@.len() == 5 && "date"@.len() == 4 && "tags"@.len() == 4);
            assert("summary"@.len() == 7 && "date"@[0] != "tags"@[0]);
            lemma_lookup_step(keys, k, "title"@);
            lemma_lookup_step(keys, k, "date"@);
            lemma_lookup_step(keys, k, "tags"@);
            lemma_lookup_step(keys, k, "summary"@);
        }
        match separator(line) {
            None => {
                assert(find_sep(keys[k], 0) < 0);
                assert(0 <= k < keys.len());
                assert(exists|j: int| 0 <= j < keys.len() && find_sep(#[trigger] keys[j], 0) < 0);
                assert(key_lines_of(lines_of(text@)) == keys);
                assert(find_line(lines_of(text@), open_marker(), 0) < lines_of(text@).len());
                return Err(BlogError::MalformedMetadataLine);
            },
            Some(s) => {
                let key = sub_text(line, 0, s);
                let value = sub_text(line, s + 2, line.len());
                assert(key@ == key_of(line@));
                assert(value@ == value_of(line@));
                if same_text(&key, &t_title) {
                    title = Some(value);
                } else if same_text(&key, &t_date) {
                    date = Some(value);
                } else if same_text(&key, &t_tags) {
                    tags = Some(value);
                } else if same_text(&key, &t_summary) {
                    summary = Some(value);
                }
            },
        }
        i = i + 1;
    }
    assert(keys.take(keys.len() as int) =~= keys);
    if end < lines.len() - 1 {
        summary = Some(lines[end + 1].clone());
        assert(block[end - m] == ls[end + 1]);
    }
    match (title, date, summary) {
        (Some(t), Some(d), Some(s)) => Ok(Metadata { title: t, date: d, tags, summary: s }),
        _ => Err(BlogError::MalformedPost),
    }
}

proof fn lemma_find_line_shift(ls: Seq<Seq<char>>, target: Seq<char>, off: int, j: int)
    requires
        0 <= off <= j <= ls.len(),
    ensures
        find_line(ls.skip(off), target, j - off) == find_line(ls, target, j) - off,
    decreases ls.len() - j,
{
    if j < ls.len() {
        lemma_find_line_shift(ls, target, off, j + 1);
    }
}

} // verus!
