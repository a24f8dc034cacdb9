//! The RSS feed of the blog.
use vstd::prelude::*;
use crate::date::{format_rss_date, rss_date_of};
use crate::post::Post;
use crate::text::{push_all, push_str};

verus! {

/// Unicode `White_Space` characters, as `char::is_whitespace` counts them.
pub open spec fn is_space(c: char) -> bool {
    ('\u{9}' <= c <= '\u{d}') || c == ' ' || c == '\u{85}' || c == '\u{a0}' || c == '\u{1680}'
        || ('\u{2000}' <= c <= '\u{200a}') || c == '\u{2028}' || c == '\u{2029}' || c
        == '\u{202f}' || c == '\u{205f}' || c == '\u{3000}'
}

/// `s` without its trailing white space.
pub open spec fn trim_end(s: Seq<char>) -> Seq<char>
    decreases s.len(),
{
    if s.len() > 0 && is_space(s.last()) {
        trim_end(s.drop_last())
    } else {
        s
    }
}

/// Whether a `>` stands after index `i` of `s`.
pub open spec fn close_after(s: Seq<char>, i: int) -> bool {
    exists|k: int| i < k < s.len() && s[k] == '>'
}

/// `s` from index `i` on with every `<...>` (up to the next `>`) removed; `in_tag` says that
/// such a tag is open at `i`. A `<` that no `>` follows is kept.
pub open spec fn strip_tags_from(s: Seq<char>, i: int, in_tag: bool) -> Seq<char>
    decreases s.len() - i,
{
    if i < 0 || i >= s.len() {
        Seq::empty()
    } else if in_tag {
        strip_tags_from(s, i + 1, s[i] != '>')
    } else if s[i] == '<' && close_after(s, i) {
        strip_tags_from(s, i + 1, true)
    } else {
        seq![s[i]] + strip_tags_from(s, i + 1, false)
    }
}

/// `s` with its tags removed and its trailing white space trimmed.
pub open spec fn unhtml_spec(s: Seq<char>) -> Seq<char> {
    trim_end(strip_tags_from(s, 0, false))
}

/// Whether `c` is white space.
fn space_char(c: char) -> (r: bool)
    ensures
        r == is_space(c),
{
    ('\u{9}' <= c && c <= '\u{d}') || c == ' ' || c == '\u{85}' || c == '\u{a0}' || c == '\u{1680}'
        || ('\u{2000}' <= c && c <= '\u{200a}') || c == '\u{2028}' || c == '\u{2029}' || c
        == '\u{202f}' || c == '\u{205f}' || c == '\u{3000}'
}

/// Strips every `<...>` from `s` and trims its trailing white space.
pub fn unhtml(s: &[char]) -> (r: Vec<char>)
    ensures
        r@ == unhtml_spec(s@),
{
    // the last `>` of `s`, if any
    let mut last: usize = s.len();
    let mut j: usize = s.len();
    while j > 0
        invariant
            j <= s.len(),
            last <= s.len(),
            last == s.len() ==> forall|k: int| j <= k < s.len() ==> s@[k] != '>',
            last < s.len() ==> s@[last as int] == '>' && forall|k: int| last < k < s.len() ==> s@[k] != '>',
        decreases j,
    {
        j = j - 1;
        if last == s.len() && s[j] == '>' {
            last = j;
        }
    }
    let mut out: Vec<char> = Vec::new();
    let mut in_tag = false;
    for i in 0..s.len()
        invariant
            last <= s.len(),
            last == s.len() ==> forall|k: int| 0 <= k < s.len() ==> s@[k] != '>',
            last < s.len() ==> s@[last as int] == '>' && forall|k: int| last < k < s.len() ==> s@[k] != '>',
            out@ + strip_tags_from(s@, i as int, in_tag) == strip_tags_from(s@, 0, false),
    {
        let c = s[i];
        if in_tag {
            in_tag = c != '>';
        } else if c == '<' && last < s.len() && i < last {
            assert(close_after(s@, i as int));
            in_tag = true;
        } else {
            assert(!(c == '<' && close_after(s@, i as int))) by {
                if c == '<' && close_after(s@, i as int) {
                    let k = choose|k: int| i < k < s@.len() && s@[k] == '>';
                    assert(k <= last);
                }
            }
            let ghost before = out@;
            let ghost rest = strip_tags_from(s@, i + 1, false);
            assert(strip_tags_from(s@, i as int, false) == seq![c] + rest);
            out.push(c);
            assert(out@ + rest =~= before + (seq![c] + rest));
        }
    }
    let mut n = out.len();
    assert(out@.take(out@.len() as int) =~= out@);
    while n > 0 && space_char(out[n - 1])
        invariant
            n <= out@.len(),
            trim_end(out@.take(n as int)) == trim_end(out@),
        decreases n,
    {
        assert(out@.take(n as int).drop_last() =~= out@.take(n - 1));
        n = n - 1;
    }
    let r = crate::text::sub_text(&out, 0, n);
    assert(r@ =~= out@.take(n as int));
    r
}

} // verus!

verus! {

/// The address of a post.
pub open spec fn post_url(slug: Seq<char>) -> Seq<char> {
    "http://keyboardfire.com/blog/"@ + slug
}

/// The link element of a post's item.
pub open spec fn link_line(slug: Seq<char>) -> Seq<char> {
    "<link>"@ + post_url(slug) + "</link>"@
}

/// The guid element of a post's item.
pub open spec fn guid_line(slug: Seq<char>) -> Seq<char> {
    "<guid>"@ + post_url(slug) + "</guid>"@
}

/// The feed item of a post (no final newline).
pub open spec fn item(p: Post) -> Seq<char> {
    "    <item>\n"@ + "      <title>"@ + p.title@ + "</title>\n"@ + "      "@ + link_line(p.slug@)
        + "\n"@ + "      <description>"@ + unhtml_spec(p.summary@) + "</description>\n"@
        + "      <pubDate>"@ + rss_date_of(p.date.year as int, p.date.month as int, p.date.day as int)
        + "</pubDate>\n"@ + "      "@ + guid_line(p.slug@) + "\n"@ + "    </item>"@
}

/// The channel preamble of the feed.
pub open spec fn feed_head() -> Seq<char> {
    "<?xml version='1.0' encoding='utf-8'?>\n<rss version='2.0'>\n  <channel>\n    <title>KeyboardFire—blog</title>\n    <link>http://keyboardfire.com/blog/</link>\n    <description>ramblings on various topics</description>\n    <language>en</language>\n"@
}

/// The close of the feed.
pub open spec fn feed_tail() -> Seq<char> {
    "  </channel>\n</rss>\n"@
}

/// The items of `posts`, each followed by a newline.
pub open spec fn items(posts: Seq<Post>) -> Seq<char>
    decreases posts.len(),
{
    if posts.len() == 0 {
        Seq::empty()
    } else {
        items(posts.drop_last()) + item(posts.last()) + "\n"@
    }
}

/// The whole feed over `posts`, in their order.
pub open spec fn feed(posts: Seq<Post>) -> Seq<char> {
    feed_head() + items(posts) + feed_tail()
}

/// The feed item of `post`.
pub fn post_rss(post: &Post) -> (r: Vec<char>)
    requires
        post.wf(),
    ensures
        r@ == item(*post),
{
    let description = unhtml(&post.summary);
    let date = format_rss_date(post.date);
    let mut r: Vec<char> = Vec::new();
    push_str(&mut r, "    <item>\n");
    push_str(&mut r, "      <title>");
    push_all(&mut r, &post.title);
    push_str(&mut r, "</title>\n");
    push_str(&mut r, "      ");
    push_str(&mut r, "<link>");
    push_str(&mut r, "http://keyboardfire.com/blog/");
    push_all(&mut r, &post.slug);
    push_str(&mut r, "</link>");
    push_str(&mut r, "\n");
    push_str(&mut r, "      <description>");
    push_all(&mut r, &description);
    push_str(&mut r, "</description>\n");
    push_str(&mut r, "      <pubDate>");
    push_all(&mut r, &date);
    push_str(&mut r, "</pubDate>\n");
    push_str(&mut r, "      ");
    push_str(&mut r, "<guid>");
    push_str(&mut r, "http://keyboardfire.com/blog/");
    push_all(&mut r, &post.slug);
    push_str(&mut r, "</guid>");
    push_str(&mut r, "\n");
    push_str(&mut r, "    </item>");
    assert(r@ =~= item(*post));
    r
}

/// The feed over `posts`, in their order.
pub fn rss_feed(posts: &Vec<Post>) -> (r: Vec<char>)
    requires
        forall|i: int| 0 <= i < posts@.len() ==> #[trigger] posts@[i].wf(),
    ensures
        r@ == feed(posts@),
{
    let mut r: Vec<char> = Vec::new();
    push_str(&mut r, "<?xml version='1.0' encoding='utf-8'?>\n<rss version='2.0'>\n  <channel>\n    <title>KeyboardFire—blog</title>\n    <link>http://keyboardfire.com/blog/</link>\n    <description>ramblings on various topics</description>\n    <language>en</language>\n");
    for i in 0..posts.len()
        invariant
            forall|k: int| 0 <= k < posts@.len() ==> #[trigger] posts@[k].wf(),
            r@ == feed_head() + items(posts@.take(i as int)),
    {
        let it = post_rss(&posts[i]);
        push_all(&mut r, &it);
        push_str(&mut r, "\n");
        proof {
            assert(posts@.take(i + 1).drop_last() =~= posts@.take(i as int));
            assert(r@ =~= feed_head() + items(posts@.take(i + 1)));
        }
    }
    assert(posts@.take(posts@.len() as int) =~= posts@);
    push_str(&mut r, "  </channel>\n</rss>\n");
    assert(r@ =~= feed(posts@));
    r
}

} // verus!

verus! {

proof fn lemma_items_concat(a: Seq<Post>, b: Seq<Post>)
    ensures
        items(a + b) == items(a) + items(b),
    decreases b.len(),
{
    if b.len() == 0 {
        assert(a + b =~= a);
        assert(items(a) + items(b) =~= items(a));
    } else {
        assert((a + b).drop_last() =~= a + b.drop_last());
        lemma_items_concat(a, b.drop_last());
        assert(items(a + b) =~= items(a) + items(b));
    }
}

/// The feed holds, between its preamble and its close, one item for each post in order: the
/// items before the post's, the post's item, then those after.
pub proof fn lemma_feed_item_per_post(posts: Seq<Post>, i: int)
    requires
        0 <= i < posts.len(),
    ensures
        feed(posts) == feed_head() + items(posts.take(i)) + item(posts[i]) + "\n"@ + items(
            posts.skip(i + 1),
        ) + feed_tail(),
{
    let p = posts[i];
    assert(posts =~= posts.take(i) + seq![p] + posts.skip(i + 1));
    lemma_items_concat(posts.take(i) + seq![p], posts.skip(i + 1));
    lemma_items_concat(posts.take(i), seq![p]);
    assert(seq![p].drop_last() =~= Seq::<Post>::empty());
    assert(seq![p].last() == p);
    assert(items(Seq::<Post>::empty()) == Seq::<char>::empty());
    assert(items(seq![p]) =~= item(p) + "\n"@);
    assert(feed(posts) =~= feed_head() + items(posts.take(i)) + item(p) + "\n"@ + items(
        posts.skip(i + 1),
    ) + feed_tail());
}

/// A post's item links to the post's address, and its guid is that same address.
pub proof fn lemma_item_addresses(p: Post)
    ensures
        crate::render::has_part(item(p), "<link>"@ + post_url(p.slug@) + "</link>"@),
        crate::render::has_part(item(p), "<guid>"@ + post_url(p.slug@) + "</guid>"@),
{
    let d = rss_date_of(p.date.year as int, p.date.month as int, p.date.day as int);
    let pre1 = "    <item>\n"@ + "      <title>"@ + p.title@ + "</title>\n"@ + "      "@;
    let post1 = "\n"@ + "      <description>"@ + unhtml_spec(p.summary@) + "</description>\n"@
        + "      <pubDate>"@ + d + "</pubDate>\n"@ + "      "@ + guid_line(p.slug@) + "\n"@
        + "    </item>"@;
    assert(item(p) =~= pre1 + link_line(p.slug@) + post1);
    crate::render::lemma_has_part(pre1, link_line(p.slug@), post1);
    let pre2 = pre1 + link_line(p.slug@) + "\n"@ + "      <description>"@ + unhtml_spec(p.summary@)
        + "</description>\n"@ + "      <pubDate>"@ + d + "</pubDate>\n"@ + "      "@;
    let post2 = "\n"@ + "    </item>"@;
    assert(item(p) =~= pre2 + guid_line(p.slug@) + post2);
    crate::render::lemma_has_part(pre2, guid_line(p.slug@), post2);
}

} // verus!

verus! {

/// No `<` of `r` has a `>` after it: nothing in `r` matches `<[^>]*>`.
pub open spec fn no_tag(r: Seq<char>) -> bool {
    forall|a: int, b: int| 0 <= a < b < r.len() && r[a] == '<' ==> r[b] != '>'
}

proof fn lemma_strip_close_from(s: Seq<char>, i: int, in_tag: bool, j: int)
    requires
        0 <= i,
        0 <= j < strip_tags_from(s, i, in_tag).len(),
        strip_tags_from(s, i, in_tag)[j] == '>',
    ensures
        exists|k: int| i <= k < s.len() && s[k] == '>',
    decreases s.len() - i,
{
    if i < s.len() {
        if in_tag {
            lemma_strip_close_from(s, i + 1, s[i] != '>', j);
        } else if s[i] == '<' && close_after(s, i) {
            lemma_strip_close_from(s, i + 1, true, j);
        } else if j > 0 {
            lemma_strip_close_from(s, i + 1, false, j - 1);
        } else {
            assert(s[i] == '>');
        }
    }
}

proof fn lemma_strip_no_tag(s: Seq<char>, i: int, in_tag: bool)
    requires
        0 <= i,
    ensures
        no_tag(strip_tags_from(s, i, in_tag)),
    decreases s.len() - i,
{
    if i < s.len() {
        if in_tag {
            lemma_strip_no_tag(s, i + 1, s[i] != '>');
        } else if s[i] == '<' && close_after(s, i) {
            lemma_strip_no_tag(s, i + 1, true);
        } else {
            lemma_strip_no_tag(s, i + 1, false);
            let rest = strip_tags_from(s, i + 1, false);
            let r = strip_tags_from(s, i, false);
            assert(r == seq![s[i]] + rest);
            assert forall|a: int, b: int| 0 <= a < b < r.len() && r[a] == '<' implies r[b] != '>' by {
                if a == 0 {
                    if r[b] == '>' {
                        assert(rest[b - 1] == '>');
                        lemma_strip_close_from(s, i + 1, false, b - 1);
                        let k = choose|k: int| i + 1 <= k < s.len() && s[k] == '>';
                        assert(close_after(s, i));
                    }
                } else {
                    assert(r[a] == rest[a - 1] && r[b] == rest[b - 1]);
                }
            }
        }
    }
}

proof fn lemma_trim_end_prefix(x: Seq<char>)
    ensures
        trim_end(x).len() <= x.len(),
        trim_end(x) == x.take(trim_end(x).len() as int),
        trim_end(x).len() > 0 ==> !is_space(trim_end(x).last()),
    decreases x.len(),
{
    if x.len() > 0 && is_space(x.last()) {
        lemma_trim_end_prefix(x.drop_last());
        assert(x.drop_last().take(trim_end(x).len() as int) =~= x.take(trim_end(x).len() as int));
    } else {
        assert(x.take(x.len() as int) =~= x);
    }
}

/// What `unhtml` gives holds nothing that matches `<[^>]*>` and ends in no white space.
pub proof fn lemma_unhtml_clean(s: Seq<char>)
    ensures
        no_tag(unhtml_spec(s)),
        unhtml_spec(s).len() > 0 ==> !is_space(unhtml_spec(s).last()),
{
    let x = strip_tags_from(s, 0, false);
    lemma_strip_no_tag(s, 0, false);
    lemma_trim_end_prefix(x);
    let r = trim_end(x);
    assert forall|a: int, b: int| 0 <= a < b < r.len() && r[a] == '<' implies r[b] != '>' by {
        assert(r[a] == x[a] && r[b] == x[b]);
    }
}

} // verus!

verus! {

proof fn lemma_strip_keeps_clean(r: Seq<char>, i: int)
    requires
        no_tag(r),
        0 <= i <= r.len(),
    ensures
        strip_tags_from(r, i, false) == r.skip(i),
    decreases r.len() - i,
{
    if i < r.len() {
        lemma_strip_keeps_clean(r, i + 1);
        if r[i] == '<' && close_after(r, i) {
            let k = choose|k: int| i < k < r.len() && r[k] == '>';
            assert(r[k] != '>');
        }
        assert(r.skip(i) =~= seq![r[i]] + r.skip(i + 1));
    } else {
        assert(r.skip(i) =~= Seq::<char>::empty());
    }
}

/// `unhtml` applied to its own result gives that result again.
pub proof fn lemma_unhtml_idempotent(s: Seq<char>)
    ensures
        unhtml_spec(unhtml_spec(s)) == unhtml_spec(s),
{
    let r = unhtml_spec(s);
    lemma_unhtml_clean(s);
    lemma_strip_keeps_clean(r, 0);
    assert(r.skip(0) =~= r);
}

} // verus!
