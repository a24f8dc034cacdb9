//! HTML fragments and pages of the blog.
use vstd::prelude::*;
use crate::date::{iso_date, iso_text};
use crate::post::Post;
use crate::text::{
    ends_with, indent_lines, indent_of, leading_spaces, lines_of, push_all, push_spaces, push_str,
    spaces, split_lines, has_suffix, chars_of, texts,
};

verus! {

/// The marker of the content slot of a template.
pub open spec fn content_marker() -> Seq<char> {
    "<!--<>-->"@
}

/// The marker of the tags-and-posts slot of the blog landing page.
pub open spec fn catalog_marker() -> Seq<char> {
    "<!--<C>-->"@
}

/// One tag as a bracketed link.
pub open spec fn tag_link(t: Seq<char>) -> Seq<char> {
    "[<a href='/blog/"@ + t + "'>"@ + t + "</a>]"@
}

/// The tags as bracketed links, separated by single spaces.
pub open spec fn tags_html_spec(tags: Seq<Seq<char>>) -> Seq<char>
    decreases tags.len(),
{
    if tags.len() == 0 {
        Seq::empty()
    } else if tags.len() == 1 {
        tag_link(tags[0])
    } else {
        tags_html_spec(tags.drop_last()) + " "@ + tag_link(tags.last())
    }
}

/// The post card of `p`, every line indented by `n` spaces (no final newline).
pub open spec fn card(p: Post, n: nat) -> Seq<char> {
    let i = spaces(n);
    i + "<section class='post'>\n"@ + i + "   <h3>\n"@ + i + "       <a href='/blog/"@ + p.slug@
        + "'>"@ + p.title@ + "</a>\n"@ + i + "       "@ + tags_html_spec(p.tag_seq()) + "\n"@ + i
        + "       <div class='subheader'>"@ + iso_text(p.date) + "</div>\n"@ + i + "   </h3>\n"@
        + i + "   "@ + p.summary@ + "\n"@ + i + "</section>"@
}

/// The cards of `posts`, each followed by a newline.
pub open spec fn cards(posts: Seq<Post>, n: nat) -> Seq<char>
    decreases posts.len(),
{
    if posts.len() == 0 {
        Seq::empty()
    } else {
        cards(posts.drop_last(), n) + card(posts.last(), n) + "\n"@
    }
}

/// The cards of those of `posts` that carry tag `t`, each followed by a newline.
pub open spec fn tagged_cards(posts: Seq<Post>, t: Seq<char>, n: nat) -> Seq<char>
    decreases posts.len(),
{
    if posts.len() == 0 {
        Seq::empty()
    } else if posts.last().has_tag(t) {
        tagged_cards(posts.drop_last(), t, n) + card(posts.last(), n) + "\n"@
    } else {
        tagged_cards(posts.drop_last(), t, n)
    }
}

/// The heading line of a post's own page, without indent or newline.
pub open spec fn post_heading(p: Post) -> Seq<char> {
    "<h2>"@ + p.title@ + "<div class='subheader'>posted on "@ + iso_text(p.date)
        + " with tags "@ + tags_html_spec(p.tag_seq()) + "</div></h2>"@
}

/// What fills the content slot, at indent `n`, of a page of one of three kinds.
pub enum Slot<'a> {
    /// A post's own page, with its rendered body.
    Article { post: &'a Post, body: &'a Vec<char> },
    /// The page of one tag, over the posts in their order.
    Tagged { tag: &'a Vec<char>, posts: &'a Vec<Post> },
    /// The landing page: all tags, then all posts.
    Catalog { tags: &'a Vec<Vec<char>>, posts: &'a Vec<Post> },
}

/// The lines of the tag list of the landing page.
pub open spec fn tag_lines(tags: Seq<Seq<char>>, n: nat) -> Seq<char>
    decreases tags.len(),
{
    if tags.len() == 0 {
        Seq::empty()
    } else {
        tag_lines(tags.drop_last(), n) + spaces(n) + "    "@ + tag_link(tags.last()) + "\n"@
    }
}

impl<'a> Slot<'a> {
    pub open spec fn marker(self) -> Seq<char> {
        match self {
            Slot::Catalog { .. } => catalog_marker(),
            _ => content_marker(),
        }
    }

    pub open spec fn content(self, n: nat) -> Seq<char> {
        match self {
            Slot::Article { post, body } => spaces(n) + post_heading(*post) + "\n"@ + indent_lines(
                lines_of(body@),
                n,
            ),
            Slot::Tagged { tag, posts } => spaces(n) + "<h2>Posts tagged ["@ + tag@ + "]</h2>\n"@
                + tagged_cards(posts@, tag@, n),
            Slot::Catalog { tags, posts } => spaces(n) + "<p>Tags:\n"@ + tag_lines(
                tags@.map_values(|t: Vec<char>| t@),
                n,
            ) + spaces(n) + "</p>\n"@ + cards(posts@, n),
        }
    }

    pub open spec fn wf(self) -> bool {
        match self {
            Slot::Article { post, .. } => post.wf(),
            Slot::Tagged { posts, .. } => forall|i: int| 0 <= i < posts@.len() ==> #[trigger] posts@[i].wf(),
            Slot::Catalog { posts, .. } => forall|i: int| 0 <= i < posts@.len() ==> #[trigger] posts@[i].wf(),
        }
    }
}

/// A template with every line that ends with `slot`'s marker replaced by the slot's content
/// at that line's indent; every other line is kept and followed by a newline.
pub open spec fn fill<'a>(template: Seq<Seq<char>>, slot: Slot<'a>) -> Seq<char>
    decreases template.len(),
{
    if template.len() == 0 {
        Seq::empty()
    } else {
        let line = template.last();
        fill(template.drop_last(), slot) + if ends_with(line, slot.marker()) {
            slot.content(indent_of(line))
        } else {
            line + "\n"@
        }
    }
}

/// The tags as bracketed links separated by spaces.
pub fn tags_html(tags: &Vec<Vec<char>>) -> (r: Vec<char>)
    ensures
        r@ == tags_html_spec(tags@.map_values(|t: Vec<char>| t@)),
{
    let ghost ts = tags@.map_values(|t: Vec<char>| t@);
    let mut r: Vec<char> = Vec::new();
    for i in 0..tags.len()
        invariant
            ts == tags@.map_values(|t: Vec<char>| t@),
            r@ == tags_html_spec(ts.take(i as int)),
    {
        let ghost before = r@;
        if i > 0 {
            push_str(&mut r, " ");
        }
        push_str(&mut r, "[<a href='/blog/");
        push_all(&mut r, &tags[i]);
        push_str(&mut r, "'>");
        push_all(&mut r, &tags[i]);
        push_str(&mut r, "</a>]");
        proof {
            let t = ts.take(i + 1);
            assert(t.drop_last() =~= ts.take(i as int));
            assert(ts[i as int] == tags@[i as int]@);
            assert(r@ =~= tags_html_spec(t));
        }
    }
    assert(ts.take(tags@.len() as int) =~= ts);
    r
}

/// The post card of `post` at indent `n`.
pub fn post_html(post: &Post, n: usize) -> (r: Vec<char>)
    requires
        post.wf(),
    ensures
        r@ == card(*post, n as nat),
{
    let tags = tags_html(&post.tags);
    let date = iso_date(post.date);
    let mut r: Vec<char> = Vec::new();
    push_spaces(&mut r, n);
    push_str(&mut r, "<section class='post'>\n");
    push_spaces(&mut r, n);
    push_str(&mut r, "   <h3>\n");
    push_spaces(&mut r, n);
    push_str(&mut r, "       <a href='/blog/");
    push_all(&mut r, &post.slug);
    push_str(&mut r, "'>");
    push_all(&mut r, &post.title);
    push_str(&mut r, "</a>\n");
    push_spaces(&mut r, n);
    push_str(&mut r, "       ");
    push_all(&mut r, &tags);
    push_str(&mut r, "\n");
    push_spaces(&mut r, n);
    push_str(&mut r, "       <div class='subheader'>");
    push_all(&mut r, &date);
    push_str(&mut r, "</div>\n");
    push_spaces(&mut r, n);
    push_str(&mut r, "   </h3>\n");
    push_spaces(&mut r, n);
    push_str(&mut r, "   ");
    push_all(&mut r, &post.summary);
    push_str(&mut r, "\n");
    push_spaces(&mut r, n);
    push_str(&mut r, "</section>");
    assert(r@ =~= card(*post, n as nat));
    r
}

} // verus!

verus! {

/// Whether `post` carries tag `t`.
pub fn carries_tag(post: &Post, t: &[char]) -> (r: bool)
    ensures
        r == post.has_tag(t@),
{
    let ghost ts = post.tag_seq();
    for i in 0..post.tags.len()
        invariant
            ts == post.tag_seq(),
            forall|k: int| 0 <= k < i ==> ts[k] != t@,
    {
        assert(ts[i as int] == post.tags@[i as int]@);
        if crate::metadata::same_text(&post.tags[i], t) {
            assert(ts[i as int] == t@);
            return true;
        }
    }
    false
}

/// Appends `lines`, each indented by `n` spaces and followed by a newline.
fn push_indented(out: &mut Vec<char>, lines: &Vec<Vec<char>>, n: usize)
    ensures
        final(out)@ == old(out)@ + indent_lines(lines@.map_values(|l: Vec<char>| l@), n as nat),
{
    let ghost start = out@;
    let ghost ls = lines@.map_values(|l: Vec<char>| l@);
    for i in 0..lines.len()
        invariant
            ls == lines@.map_values(|l: Vec<char>| l@),
            out@ == start + indent_lines(ls.take(i as int), n as nat),
    {
        push_spaces(out, n);
        push_all(out, &lines[i]);
        out.push('\n');
        proof {
            assert(ls.take(i + 1).drop_last() =~= ls.take(i as int));
            assert(ls[i as int] == lines@[i as int]@);
            assert(out@ =~= start + indent_lines(ls.take(i + 1), n as nat));
        }
    }
    assert(ls.take(lines@.len() as int) =~= ls);
}

/// What fills the content slot of a page at indent `n`.
pub fn slot_content<'a>(slot: &Slot<'a>, n: usize) -> (r: Vec<char>)
    requires
        slot.wf(),
    ensures
        r@ == slot.content(n as nat),
{
    let mut r: Vec<char> = Vec::new();
    push_spaces(&mut r, n);
    match slot {
        Slot::Article { post, body } => {
            push_str(&mut r, "<h2>");
            push_all(&mut r, &post.title);
            push_str(&mut r, "<div class='subheader'>posted on ");
            let date = iso_date(post.date);
            push_all(&mut r, &date);
            push_str(&mut r, " with tags ");
            let tags = tags_html(&post.tags);
            push_all(&mut r, &tags);
            push_str(&mut r, "</div></h2>");
            push_str(&mut r, "\n");
            let lines = split_lines(body);
            push_indented(&mut r, &lines, n);
            assert(r@ =~= slot.content(n as nat));
        },
        Slot::Tagged { tag, posts } => {
            push_str(&mut r, "<h2>Posts tagged [");
            push_all(&mut r, tag);
            push_str(&mut r, "]</h2>\n");
            let ghost head = r@;
            for i in 0..posts.len()
                invariant
                    forall|k: int| 0 <= k < posts@.len() ==> #[trigger] posts@[k].wf(),
                    r@ == head + tagged_cards(posts@.take(i as int), tag@, n as nat),
            {
                proof {
                    assert(posts@.take(i + 1).drop_last() =~= posts@.take(i as int));
                }
                if carries_tag(&posts[i], tag) {
                    let c = post_html(&posts[i], n);
                    push_all(&mut r, &c);
                    push_str(&mut r, "\n");
                }
                assert(r@ =~= head + tagged_cards(posts@.take(i + 1), tag@, n as nat));
            }
            assert(posts@.take(posts@.len() as int) =~= posts@);
            assert(r@ =~= slot.content(n as nat));
        },
        Slot::Catalog { tags, posts } => {
            push_str(&mut r, "<p>Tags:\n");
            let ghost ts = tags@.map_values(|t: Vec<char>| t@);
            let ghost head = r@;
            for i in 0..tags.len()
                invariant
                    ts == tags@.map_values(|t: Vec<char>| t@),
                    r@ == head + tag_lines(ts.take(i as int), n as nat),
            {
                push_spaces(&mut r, n);
                push_str(&mut r, "    ");
                push_str(&mut r, "[<a href='/blog/");
                push_all(&mut r, &tags[i]);
                push_str(&mut r, "'>");
                push_all(&mut r, &tags[i]);
                push_str(&mut r, "</a>]");
                push_str(&mut r, "\n");
                proof {
                    assert(ts.take(i + 1).drop_last() =~= ts.take(i as int));
                    assert(ts[i as int] == tags@[i as int]@);
                    assert(r@ =~= head + tag_lines(ts.take(i + 1), n as nat));
                }
            }
            assert(ts.take(tags@.len() as int) =~= ts);
            push_spaces(&mut r, n);
            push_str(&mut r, "</p>\n");
            let ghost mid = r@;
            for i in 0..posts.len()
                invariant
                    forall|k: int| 0 <= k < posts@.len() ==> #[trigger] posts@[k].wf(),
                    r@ == mid + cards(posts@.take(i as int), n as nat),
            {
                let c = post_html(&posts[i], n);
                push_all(&mut r, &c);
                push_str(&mut r, "\n");
                proof {
                    assert(posts@.take(i + 1).drop_last() =~= posts@.take(i as int));
                    assert(r@ =~= mid + cards(posts@.take(i + 1), n as nat));
                }
            }
            assert(posts@.take(posts@.len() as int) =~= posts@);
            assert(r@ =~= slot.content(n as nat));
        },
    }
    r
}

/// The marker text of a slot.
fn slot_marker<'a>(slot: &Slot<'a>) -> (r: Vec<char>)
    ensures
        r@ == slot.marker(),
{
    match slot {
        Slot::Catalog { .. } => chars_of("<!--<C>-->"),
        _ => chars_of("<!--<>-->"),
    }
}

/// The page that `template` gives with `slot` filled in.
pub fn render_page<'a>(template: &[char], slot: &Slot<'a>) -> (r: Vec<char>)
    requires
        slot.wf(),
    ensures
        r@ == fill(lines_of(template@), *slot),
{
    let lines = split_lines(template);
    let ghost ls = lines_of(template@);
    let marker = slot_marker(slot);
    let mut r: Vec<char> = Vec::new();
    for i in 0..lines.len()
        invariant
            ls == lines@.map_values(|l: Vec<char>| l@),
            marker@ == slot.marker(),
            slot.wf(),
            r@ == fill(ls.take(i as int), *slot),
    {
        let line = &lines[i];
        proof {
            assert(ls.take(i + 1).drop_last() =~= ls.take(i as int));
            assert(ls[i as int] == line@);
        }
        if has_suffix(line, &marker) {
            let n = leading_spaces(line);
            let c = slot_content(slot, n);
            push_all(&mut r, &c);
        } else {
            push_all(&mut r, line);
            push_str(&mut r, "\n");
        }
        assert(r@ =~= fill(ls.take(i + 1), *slot));
    }
    assert(ls.take(lines@.len() as int) =~= ls);
    r
}

} // verus!

verus! {

/// Some line of `lines` ends with `marker`.
pub open spec fn has_marker_line(lines: Seq<Seq<char>>, marker: Seq<char>) -> bool {
    exists|i: int| 0 <= i < lines.len() && ends_with(#[trigger] lines[i], marker)
}

/// The page of one post: the blog template with the post's heading and body in its slot.
pub fn post_page(template: &[char], post: &Post, body: &Vec<char>) -> (r: Vec<char>)
    requires
        post.wf(),
    ensures
        r@ == fill(lines_of(template@), (Slot::Article { post, body })),
{
    render_page(template, &Slot::Article { post, body })
}

/// The page of tag `tag`: the blog template with a heading and the cards of the posts
/// that carry the tag, in the order of `posts`.
pub fn tag_page(template: &[char], tag: &Vec<char>, posts: &Vec<Post>) -> (r: Vec<char>)
    requires
        forall|i: int| 0 <= i < posts@.len() ==> #[trigger] posts@[i].wf(),
    ensures
        r@ == fill(lines_of(template@), (Slot::Tagged { tag, posts })),
{
    render_page(template, &Slot::Tagged { tag, posts })
}

/// The landing page `page` with the tag list and every post's card at each `<!--<C>-->`
/// line. A page without that line (one already patched, say) keeps its lines as they are.
pub fn patch_index(page: &[char], tags: &Vec<Vec<char>>, posts: &Vec<Post>) -> (r: Vec<char>)
    requires
        forall|i: int| 0 <= i < posts@.len() ==> #[trigger] posts@[i].wf(),
    ensures
        r@ == fill(lines_of(page@), (Slot::Catalog { tags, posts })),
{
    render_page(page, &Slot::Catalog { tags, posts })
}

/// A template with no line ending in a slot's marker is filled by keeping each line and
/// ending it with a newline.
pub proof fn lemma_fill_without_marker<'a>(t: Seq<Seq<char>>, slot: Slot<'a>)
    requires
        !has_marker_line(t, slot.marker()),
    ensures
        fill(t, slot) == indent_lines(t, 0),
    decreases t.len(),
{
    if t.len() > 0 {
        let q = t.drop_last();
        assert forall|i: int| 0 <= i < q.len() implies !ends_with(#[trigger] q[i], slot.marker()) by {
            assert(q[i] == t[i]);
        }
        lemma_fill_without_marker(q, slot);
        assert(!ends_with(t[t.len() - 1], slot.marker()));
        reveal_strlit("\n");
        assert(spaces(0) =~= Seq::<char>::empty());
        assert(fill(t, slot) =~= indent_lines(t, 0));
    }
}

} // verus!

verus! {

/// `part` stands somewhere in `s`.
pub open spec fn has_part(s: Seq<char>, part: Seq<char>) -> bool {
    exists|a: Seq<char>, b: Seq<char>| s == a + part + b
}

/// A text shows each of its pieces.
pub proof fn lemma_has_part(a: Seq<char>, part: Seq<char>, b: Seq<char>)
    ensures
        has_part(a + part + b, part),
{
    assert((a + part + b) == a + part + b);
}

proof fn lemma_has_part_trans(s: Seq<char>, p: Seq<char>, q: Seq<char>)
    requires
        has_part(s, p),
        has_part(p, q),
    ensures
        has_part(s, q),
{
    let (a, b) = choose|a: Seq<char>, b: Seq<char>| s == a + p + b;
    let (c, d) = choose|c: Seq<char>, d: Seq<char>| p == c + q + d;
    assert(s =~= (a + c) + q + (d + b));
}

/// Filling the concatenation of two templates is filling each.
pub proof fn lemma_fill_concat<'a>(t1: Seq<Seq<char>>, t2: Seq<Seq<char>>, slot: Slot<'a>)
    ensures
        fill(t1 + t2, slot) == fill(t1, slot) + fill(t2, slot),
    decreases t2.len(),
{
    if t2.len() == 0 {
        assert(t1 + t2 =~= t1);
        assert(fill(t1, slot) + fill(t2, slot) =~= fill(t1, slot));
    } else {
        assert((t1 + t2).drop_last() =~= t1 + t2.drop_last());
        lemma_fill_concat(t1, t2.drop_last(), slot);
        assert(fill(t1 + t2, slot) =~= fill(t1, slot) + fill(t2, slot));
    }
}

/// The content of a slot stands in a page filled from a template with a marker line.
pub proof fn lemma_fill_shows_content<'a>(t: Seq<Seq<char>>, slot: Slot<'a>, i: int)
    requires
        0 <= i < t.len(),
        ends_with(t[i], slot.marker()),
    ensures
        has_part(fill(t, slot), slot.content(indent_of(t[i]))),
{
    let pre = t.take(i);
    let rest = t.skip(i + 1);
    assert(t =~= pre.push(t[i]) + rest);
    lemma_fill_concat(pre.push(t[i]), rest, slot);
    assert(pre.push(t[i]).drop_last() =~= pre);
    lemma_has_part(fill(pre, slot), slot.content(indent_of(t[i])), fill(rest, slot));
}

proof fn lemma_tags_html_shows(tags: Seq<Seq<char>>, k: int)
    requires
        0 <= k < tags.len(),
    ensures
        has_part(tags_html_spec(tags), tag_link(tags[k])),
    decreases tags.len(),
{
    if tags.len() == 1 {
        lemma_has_part(Seq::empty(), tag_link(tags[0]), Seq::empty());
        assert(Seq::<char>::empty() + tag_link(tags[0]) + Seq::<char>::empty() =~= tag_link(tags[0]));
    } else if k == tags.len() - 1 {
        lemma_has_part(tags_html_spec(tags.drop_last()) + " "@, tag_link(tags[k]), Seq::empty());
        assert(tags_html_spec(tags.drop_last()) + " "@ + tag_link(tags[k]) + Seq::<char>::empty()
            =~= tags_html_spec(tags));
    } else {
        lemma_tags_html_shows(tags.drop_last(), k);
        lemma_has_part(Seq::empty(), tags_html_spec(tags.drop_last()), " "@ + tag_link(tags.last()));
        assert(Seq::<char>::empty() + tags_html_spec(tags.drop_last()) + (" "@ + tag_link(
            tags.last(),
        )) =~= tags_html_spec(tags));
        lemma_has_part_trans(tags_html_spec(tags), tags_html_spec(tags.drop_last()), tag_link(tags[k]));
    }
}

/// The page of a post, from a template with a content marker line, shows the post's
/// title, its date, and each of its tags as a bracketed link.
pub proof fn lemma_post_page_shows_post(template: Seq<Seq<char>>, post: &Post, body: &Vec<char>, i: int)
    requires
        0 <= i < template.len(),
        ends_with(template[i], content_marker()),
    ensures
        has_part(fill(template, (Slot::Article { post, body })), post.title@),
        has_part(fill(template, (Slot::Article { post, body })), iso_text(post.date)),
        forall|k: int|
            0 <= k < post.tag_seq().len() ==> has_part(
                fill(template, (Slot::Article { post, body })),
                #[trigger] tag_link(post.tag_seq()[k]),
            ),
{
    let slot = Slot::Article { post, body };
    let page = fill(template, slot);
    let n = indent_of(template[i]);
    lemma_fill_shows_content(template, slot, i);
    let c = slot.content(n);
    let h = post_heading(*post);
    let tail = "\n"@ + indent_lines(lines_of(body@), n);
    assert(c =~= spaces(n) + h + tail);
    lemma_has_part(spaces(n), h, tail);
    lemma_has_part_trans(page, c, h);
    let th = tags_html_spec(post.tag_seq());
    assert(h =~= ("<h2>"@) + post.title@ + ("<div class='subheader'>posted on "@ + iso_text(post.date)
        + " with tags "@ + th + "</div></h2>"@));
    lemma_has_part("<h2>"@, post.title@, "<div class='subheader'>posted on "@ + iso_text(post.date)
        + " with tags "@ + th + "</div></h2>"@);
    lemma_has_part_trans(page, h, post.title@);
    assert(h =~= ("<h2>"@ + post.title@ + "<div class='subheader'>posted on "@) + iso_text(post.date)
        + (" with tags "@ + th + "</div></h2>"@));
    lemma_has_part("<h2>"@ + post.title@ + "<div class='subheader'>posted on "@, iso_text(post.date),
        " with tags "@ + th + "</div></h2>"@);
    lemma_has_part_trans(page, h, iso_text(post.date));
    assert(h =~= ("<h2>"@ + post.title@ + "<div class='subheader'>posted on "@ + iso_text(post.date)
        + " with tags "@) + th + "</div></h2>"@);
    lemma_has_part("<h2>"@ + post.title@ + "<div class='subheader'>posted on "@ + iso_text(post.date)
        + " with tags "@, th, "</div></h2>"@);
    lemma_has_part_trans(page, h, th);
    assert forall|k: int| 0 <= k < post.tag_seq().len() implies has_part(
        page,
        #[trigger] tag_link(post.tag_seq()[k]),
    ) by {
        lemma_tags_html_shows(post.tag_seq(), k);
        lemma_has_part_trans(page, th, tag_link(post.tag_seq()[k]));
    }
}

} // verus!

verus! {

/// The posts of `ps` that carry tag `t`, in their order.
pub open spec fn tagged(ps: Seq<Post>, t: Seq<char>) -> Seq<Post>
    decreases ps.len(),
{
    if ps.len() == 0 {
        Seq::empty()
    } else if ps.last().has_tag(t) {
        tagged(ps.drop_last(), t).push(ps.last())
    } else {
        tagged(ps.drop_last(), t)
    }
}

/// No post of `ps` is dated after one that comes before it.
pub open spec fn dates_descending(ps: Seq<Post>) -> bool {
    forall|i: int, j: int| 0 <= i < j < ps.len() ==> !(#[trigger] ps[j]).date.after((#[trigger] ps[i]).date)
}

proof fn lemma_sorted_dates(ps: Seq<Post>)
    requires
        crate::order::posts_sorted(ps),
    ensures
        dates_descending(ps),
    decreases ps.len(),
{
    if ps.len() > 1 {
        let q = ps.drop_last();
        assert forall|i: int| 0 <= i < q.len() - 1 implies !crate::order::post_before(#[trigger] q[i + 1], q[i]) by {
            assert(q[i + 1] == ps[i + 1]);
        }
        lemma_sorted_dates(q);
        let m = ps.len() - 2;
        assert(!crate::order::post_before(ps[m + 1], ps[m]));
        assert forall|i: int, j: int| 0 <= i < j < ps.len() implies !(#[trigger] ps[j]).date.after(
            (#[trigger] ps[i]).date,
        ) by {
            if j < ps.len() - 1 {
                assert(ps[j] == q[j] && ps[i] == q[i]);
            } else if i < ps.len() - 2 {
                assert(ps[i] == q[i] && ps[ps.len() - 2] == q[ps.len() - 2]);
                assert(!q[ps.len() - 2].date.after(q[i].date));
            }
        }
    }
}

proof fn lemma_tagged_facts(ps: Seq<Post>, t: Seq<char>, n: nat)
    requires
        dates_descending(ps),
    ensures
        tagged_cards(ps, t, n) == cards(tagged(ps, t), n),
        forall|p: Post| tagged(ps, t).contains(p) <==> (ps.contains(p) && p.has_tag(t)),
        dates_descending(tagged(ps, t)),
    decreases ps.len(),
{
    if ps.len() > 0 {
        let q = ps.drop_last();
        let f = tagged(q, t);
        assert forall|i: int, j: int| 0 <= i < j < q.len() implies !(#[trigger] q[j]).date.after(
            (#[trigger] q[i]).date,
        ) by {
            assert(q[j] == ps[j] && q[i] == ps[i]);
        }
        lemma_tagged_facts(q, t, n);
        assert forall|p: Post| ps.contains(p) <==> (q.contains(p) || p == ps.last()) by {
            if ps.contains(p) {
                let k = choose|k: int| 0 <= k < ps.len() && ps[k] == p;
                if k < ps.len() - 1 {
                    assert(q[k] == p);
                }
            }
            if q.contains(p) {
                let k = choose|k: int| 0 <= k < q.len() && q[k] == p;
                assert(ps[k] == p);
            }
        }
        if ps.last().has_tag(t) {
            let g = f.push(ps.last());
            assert(g.drop_last() =~= f);
            assert forall|p: Post| g.contains(p) <==> (f.contains(p) || p == ps.last()) by {
                if g.contains(p) {
                    let k = choose|k: int| 0 <= k < g.len() && g[k] == p;
                    if k < f.len() {
                        assert(f[k] == p);
                    }
                }
                if f.contains(p) {
                    let k = choose|k: int| 0 <= k < f.len() && f[k] == p;
                    assert(g[k] == p);
                }
                if p == ps.last() {
                    assert(g[f.len() as int] == p);
                }
            }
            assert forall|i: int, j: int| 0 <= i < j < g.len() implies !(#[trigger] g[j]).date.after(
                (#[trigger] g[i]).date,
            ) by {
                if j < f.len() {
                    assert(g[j] == f[j] && g[i] == f[i]);
                } else {
                    assert(f.contains(g[i])) by {
                        assert(f[i] == g[i]);
                    }
                    assert(q.contains(g[i]));
                    let k = choose|k: int| 0 <= k < q.len() && q[k] == g[i];
                    assert(ps[k] == q[k]);
                    assert(!ps[ps.len() - 1].date.after(ps[k].date));
                }
            }
        }
    }
}

/// The page of tag `t` over posts sorted for listing lists the posts that carry `t` and no
/// others, each once as in `posts`, and none dated after a post listed before it.
pub proof fn lemma_tag_page_lists_tagged(posts: Seq<Post>, t: Seq<char>, n: nat)
    requires
        crate::order::posts_sorted(posts),
    ensures
        tagged_cards(posts, t, n) == cards(tagged(posts, t), n),
        forall|p: Post| tagged(posts, t).contains(p) <==> (posts.contains(p) && p.has_tag(t)),
        dates_descending(tagged(posts, t)),
{
    lemma_sorted_dates(posts);
    lemma_tagged_facts(posts, t, n);
}

} // verus!
