//! Character-level helpers. Text is held as `Vec<char>` and specified as `Seq<char>`.
use vstd::prelude::*;

verus! {

/// `n` space characters.
pub open spec fn spaces(n: nat) -> Seq<char> {
    Seq::new(n, |i: int| ' ')
}

/// Whether `s` ends with `suffix`.
pub open spec fn ends_with(s: Seq<char>, suffix: Seq<char>) -> bool {
    suffix.len() <= s.len() && s.subrange(s.len() - suffix.len(), s.len() as int) == suffix
}

/// The number of space characters that `s` starts with.
pub open spec fn indent_of(s: Seq<char>) -> nat
    decreases s.len(),
{
    if s.len() > 0 && s[0] == ' ' {
        1 + indent_of(s.drop_first())
    } else {
        0
    }
}

/// The pieces of `s` between occurrences of `sep`; an empty `s` gives one empty piece.
pub open spec fn split_on(s: Seq<char>, sep: char) -> Seq<Seq<char>>
    decreases s.len(),
{
    if s.len() == 0 {
        seq![Seq::empty()]
    } else {
        let pre = split_on(s.drop_last(), sep);
        if s.last() == sep {
            pre.push(Seq::empty())
        } else {
            pre.update(pre.len() - 1, pre.last().push(s.last()))
        }
    }
}

/// `s` without one trailing carriage return.
pub open spec fn strip_cr(s: Seq<char>) -> Seq<char> {
    if s.len() > 0 && s.last() == '\r' {
        s.drop_last()
    } else {
        s
    }
}

/// The lines of `s`: split at `\n` (a `\r` before it belongs to the line ending), with no
/// empty line after a final `\n`.
pub open spec fn lines_of(s: Seq<char>) -> Seq<Seq<char>> {
    let p = split_on(s, '\n');
    let ended = p.drop_last().map_values(|l: Seq<char>| strip_cr(l));
    if p.last().len() == 0 {
        ended
    } else {
        ended.push(p.last())
    }
}

/// Each line preceded by `n` spaces and followed by a newline.
pub open spec fn indent_lines(lines: Seq<Seq<char>>, n: nat) -> Seq<char>
    decreases lines.len(),
{
    if lines.len() == 0 {
        Seq::empty()
    } else {
        indent_lines(lines.drop_last(), n) + spaces(n) + lines.last() + seq!['\n']
    }
}

pub(crate) proof fn lemma_split_on_nonempty(s: Seq<char>, sep: char)
    ensures
        split_on(s, sep).len() >= 1,
    decreases s.len(),
{
    if s.len() > 0 {
        lemma_split_on_nonempty(s.drop_last(), sep);
    }
}

/// The characters of `s`, in order.
pub fn chars_of(s: &str) -> (r: Vec<char>)
    ensures
        r@ == s@,
{
    broadcast use vstd::string::axiom_spec_iter;

    let mut r: Vec<char> = Vec::new();
    for c in it: s.chars()
        invariant
            r@ == it.seq().take(it.index() as int),
    {
        r.push(c);
    }
    assert(r@ =~= s@);
    r
}

/// Appends `src` to `dst`.
pub fn push_all(dst: &mut Vec<char>, src: &[char])
    ensures
        final(dst)@ == old(dst)@ + src@,
{
    let ghost start = dst@;
    for i in 0..src.len()
        invariant
            dst@ == start + src@.take(i as int),
    {
        dst.push(src[i]);
        assert(src@.take(i + 1) =~= src@.take(i as int).push(src@[i as int]));
    }
    assert(src@.take(src@.len() as int) =~= src@);
}

/// Appends `n` spaces to `dst`.
pub fn push_spaces(dst: &mut Vec<char>, n: usize)
    ensures
        final(dst)@ == old(dst)@ + spaces(n as nat),
{
    let ghost start = dst@;
    for i in 0..n
        invariant
            dst@ == start + spaces(i as nat),
    {
        dst.push(' ');
        assert(spaces((i + 1) as nat) =~= spaces(i as nat).push(' '));
    }
}

/// Whether `s` ends with `suffix`.
pub fn has_suffix(s: &[char], suffix: &[char]) -> (r: bool)
    ensures
        r == ends_with(s@, suffix@),
{
    if suffix.len() > s.len() {
        return false;
    }
    let off = s.len() - suffix.len();
    for i in 0..suffix.len()
        invariant
            off == s.len() - suffix.len(),
            forall|k: int| 0 <= k < i ==> s@[off + k] == suffix@[k],
    {
        if s[off + i] != suffix[i] {
            assert(s@.subrange(off as int, s@.len() as int)[i as int] != suffix@[i as int]);
            return false;
        }
    }
    assert(s@.subrange(off as int, s@.len() as int) =~= suffix@);
    true
}

/// The number of leading spaces of `s`.
pub fn leading_spaces(s: &[char]) -> (r: usize)
    ensures
        r == indent_of(s@),
        r <= s@.len(),
{
    let mut i: usize = 0;
    while i < s.len() && s[i] == ' '
        invariant
            i <= s.len(),
            forall|k: int| 0 <= k < i ==> s@[k] == ' ',
        decreases s.len() - i,
    {
        i = i + 1;
    }
    proof {
        lemma_indent_prefix(s@, i as int);
    }
    i
}

proof fn lemma_indent_prefix(s: Seq<char>, i: int)
    requires
        0 <= i <= s.len(),
        forall|k: int| 0 <= k < i ==> s[k] == ' ',
        i == s.len() || s[i] != ' ',
    ensures
        indent_of(s) == i,
    decreases i,
{
    if i > 0 {
        lemma_indent_prefix(s.drop_first(), i - 1);
    }
}

/// Splits `s` at every occurrence of `sep`.
pub fn split_at_char(s: &[char], sep: char) -> (r: Vec<Vec<char>>)
    ensures
        r@.map_values(|p: Vec<char>| p@) == split_on(s@, sep),
{
    let mut done: Vec<Vec<char>> = Vec::new();
    let mut cur: Vec<char> = Vec::new();
    for i in 0..s.len()
        invariant
            done@.map_values(|p: Vec<char>| p@).push(cur@) == split_on(s@.take(i as int), sep),
    {
        let c = s[i];
        proof {
            let t = s@.take(i + 1);
            assert(t.drop_last() =~= s@.take(i as int));
            lemma_split_on_nonempty(s@.take(i as int), sep);
        }
        if c == sep {
            let piece = cur;
            done.push(piece);
            cur = Vec::new();
            proof {
                assert(done@.map_values(|p: Vec<char>| p@).push(cur@) =~= split_on(
                    s@.take(i + 1),
                    sep,
                ));
            }
        } else {
            cur.push(c);
            proof {
                assert(done@.map_values(|p: Vec<char>| p@).push(cur@) =~= split_on(
                    s@.take(i + 1),
                    sep,
                ));
            }
        }
    }
    assert(s@.take(s@.len() as int) =~= s@);
    done.push(cur);
    assert(done@.map_values(|p: Vec<char>| p@) =~= split_on(s@, sep));
    done
}

/// The lines of `s`.
pub fn split_lines(s: &[char]) -> (r: Vec<Vec<char>>)
    ensures
        r@.map_values(|p: Vec<char>| p@) == lines_of(s@),
{
    let mut pieces = split_at_char(s, '\n');
    proof {
        lemma_split_on_nonempty(s@, '\n');
    }
    let last = pieces.pop().unwrap();
    let ghost p = split_on(s@, '\n');
    assert(pieces@.map_values(|q: Vec<char>| q@) =~= p.drop_last());
    let mut r: Vec<Vec<char>> = Vec::new();
    for i in 0..pieces.len()
        invariant
            p.len() >= 1,
            pieces@.map_values(|q: Vec<char>| q@) == p.drop_last(),
            r@.map_values(|q: Vec<char>| q@) == p.drop_last().map_values(|l: Seq<char>| strip_cr(l)).take(i as int),
    {
        let mut line = pieces[i].clone();
        proof {
            assert(pieces@.map_values(|q: Vec<char>| q@)[i as int] == pieces@[i as int]@);
        }
        if line.len() > 0 && line[line.len() - 1] == '\r' {
            line.pop();
        }
        assert(line@ == strip_cr(p.drop_last()[i as int]));
        let ghost before = r@.map_values(|q: Vec<char>| q@);
        r.push(line);
        proof {
            assert(r@.map_values(|q: Vec<char>| q@) =~= before.push(line@));
            assert(r@.map_values(|q: Vec<char>| q@) =~= p.drop_last().map_values(|l: Seq<char>| strip_cr(l)).take(i + 1));
        }
    }
    assert(p.drop_last().map_values(|l: Seq<char>| strip_cr(l)).take(pieces@.len() as int) =~= p.drop_last().map_values(|l: Seq<char>| strip_cr(l)));
    if last.len() > 0 {
        r.push(last);
        assert(r@.map_values(|q: Vec<char>| q@) =~= lines_of(s@));
    }
    r
}

} // verus!

verus! {

/// A copy of `s[from..to]`.
pub fn sub_text(s: &[char], from: usize, to: usize) -> (r: Vec<char>)
    requires
        from <= to <= s@.len(),
    ensures
        r@ == s@.subrange(from as int, to as int),
{
    let mut r: Vec<char> = Vec::new();
    for i in from..to
        invariant
            from <= i <= to <= s@.len(),
            r@ == s@.subrange(from as int, i as int),
    {
        r.push(s[i]);
        assert(r@ =~= s@.subrange(from as int, i + 1));
    }
    r
}

} // verus!

verus! {

/// Appends the characters of `s` to `dst`.
pub fn push_str(dst: &mut Vec<char>, s: &str)
    ensures
        final(dst)@ == old(dst)@ + s@,
{
    let c = chars_of(s);
    push_all(dst, &c);
}

} // verus!

verus! {

/// The texts held by a sequence of character vectors.
pub open spec fn texts(v: Seq<Vec<char>>) -> Seq<Seq<char>> {
    v.map_values(|t: Vec<char>| t@)
}

} // verus!
