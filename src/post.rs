//! A blog post: its metadata, parsed and rendered.
use vstd::prelude::*;
use crate::date::{parse_ymd, parsed_date_of, Date};
use crate::error::BlogError;
use crate::markdown::{markdown_html_of, render_markdown};
use crate::metadata::{extract_metadata, metadata_spec};
use crate::text::{chars_of, ends_with, lines_of, split_at_char, split_on, sub_text, has_suffix};

verus! {

/// One blog entry.
pub struct Post {
    pub title: Vec<char>,
    pub date: Date,
    /// The summary line, rendered to HTML.
    pub summary: Vec<char>,
    pub slug: Vec<char>,
    pub tags: Vec<Vec<char>>,
}

/// The tag a post gets when it names none.
pub open spec fn default_tag() -> Seq<char> {
    "untagged"@
}

/// The tags that a `tags` value names: its pieces between single spaces, or the default
/// tag where the value is absent or empty.
pub open spec fn tags_of(value: Option<Seq<char>>) -> Seq<Seq<char>> {
    match value {
        Some(v) => if v.len() == 0 {
            seq![default_tag()]
        } else {
            split_on(v, ' ')
        },
        None => seq![default_tag()],
    }
}

impl Post {
    /// The post's tags as texts.
    pub open spec fn tag_seq(self) -> Seq<Seq<char>> {
        self.tags@.map_values(|t: Vec<char>| t@)
    }

    /// Whether the post carries tag `t`.
    pub open spec fn has_tag(self, t: Seq<char>) -> bool {
        self.tag_seq().contains(t)
    }

    /// The invariant of a post: a valid date and at least one tag.
    pub open spec fn wf(self) -> bool {
        self.date.valid() && self.tags@.len() > 0
    }
}

/// The slug of a post file name: the name without its `.md` extension.
pub open spec fn slug_spec(file_name: Seq<char>) -> Seq<char> {
    if ends_with(file_name, ".md"@) {
        file_name.take(file_name.len() - 3)
    } else {
        file_name
    }
}

/// The slug of a post file name.
pub fn slug_of(file_name: &[char]) -> (r: Vec<char>)
    ensures
        r@ == slug_spec(file_name@),
{
    let ext = chars_of(".md");
    if has_suffix(file_name, &ext) {
        proof {
            reveal_strlit(".md");
        }
        sub_text(file_name, 0, file_name.len() - 3)
    } else {
        sub_text(file_name, 0, file_name.len())
    }
}

/// The tags named by a `tags` value.
pub fn parse_tags(value: &Option<Vec<char>>) -> (r: Vec<Vec<char>>)
    ensures
        r@.map_values(|t: Vec<char>| t@) == tags_of(
            match value {
                Some(v) => Some(v@),
                None => None,
            },
        ),
        r@.len() > 0,
{
    match value {
        Some(v) => {
            if v.len() > 0 {
                let r = split_at_char(v, ' ');
                proof {
                    crate::text::lemma_split_on_nonempty(v@, ' ');
                }
                r
            } else {
                let r = vec![chars_of("untagged")];
                assert(r@.map_values(|t: Vec<char>| t@) =~= seq![default_tag()]);
                r
            }
        },
        None => {
            let r = vec![chars_of("untagged")];
            assert(r@.map_values(|t: Vec<char>| t@) =~= seq![default_tag()]);
            r
        },
    }
}

/// What building a post from its file name and text yields, where it succeeds: the post
/// matches the text's metadata, with the summary rendered as Markdown, and the page body
/// is the whole text rendered as Markdown.
pub open spec fn post_matches(p: Post, body: Seq<char>, file_name: Seq<char>, text: Seq<char>) -> bool {
    match metadata_spec(lines_of(text)) {
        Ok((title, date, tags, summary)) => {
            &&& parsed_date_of(date) == Some(
                (p.date.year as int, p.date.month as int, p.date.day as int),
            )
            &&& p.title@ == title
            &&& markdown_html_of(summary) == Some(p.summary@)
            &&& p.slug@ == slug_spec(file_name)
            &&& p.tag_seq() == tags_of(tags)
            &&& markdown_html_of(text) == Some(body)
        },
        Err(_) => false,
    }
}

/// Builds the post held in `text`, from the file `file_name`, with the HTML of its page body.
pub fn build_post(file_name: &[char], text: &[char]) -> (r: Result<(Post, Vec<char>), BlogError>)
    ensures
        r matches Ok((p, body)) ==> p.wf() && post_matches(p, body@, file_name@, text@),
        r matches Err(e) ==> match metadata_spec(lines_of(text@)) {
            Err(me) => e == me,
            Ok((_, date, _, summary)) => e == BlogError::BadDate && parsed_date_of(date) is None
                || e == BlogError::Io && parsed_date_of(date) is Some && (markdown_html_of(summary) is None
                || markdown_html_of(text@) is None),
        },
        (metadata_spec(lines_of(text@)) matches Ok((_, date, _, summary)) && parsed_date_of(date) is Some
            && markdown_html_of(summary) is Some && markdown_html_of(text@) is Some) ==> r is Ok,
        metadata_spec(lines_of(text@)) is Err ==> r is Err,
        (metadata_spec(lines_of(text@)) matches Ok((_, date, _, _)) && parsed_date_of(date) is None)
            ==> r == Err::<(Post, Vec<char>), _>(BlogError::BadDate),
{
    let meta = match extract_metadata(text) {
        Ok(m) => m,
        Err(e) => return Err(e),
    };
    let date = match parse_ymd(&meta.date) {
        Some(d) => d,
        None => return Err(BlogError::BadDate),
    };
    let summary = match render_markdown(&meta.summary) {
        Some(h) => h,
        None => return Err(BlogError::Io),
    };
    let body = match render_markdown(text) {
        Some(h) => h,
        None => return Err(BlogError::Io),
    };
    let tags = parse_tags(&meta.tags);
    let slug = slug_of(file_name);
    let post = Post { title: meta.title, date, summary, slug, tags };
    Ok((post, body))
}

} // verus!
