use sitegen::date::{iso_date, Date};
use sitegen::error::BlogError;
use sitegen::home::{destination, home_page, page_name};
use sitegen::metadata::extract_metadata;
use sitegen::order::{sort_posts, tag_order};
use sitegen::post::{build_post, parse_tags, slug_of, Post};
use sitegen::render::{patch_index, post_html, post_page, tag_page, tags_html};
use sitegen::rss::{post_rss, rss_feed, unhtml};
use sitegen::text::split_lines;

fn v(s: &str) -> Vec<char> {
    s.chars().collect()
}

fn st(c: &[char]) -> String {
    c.iter().collect()
}

const TEMPLATE: &str = "<html>\n  <body>\n    <!--<>-->\n  </body>\n</html>\n";

fn post_text(title: &str, date: &str, tags: Option<&str>, summary: &str) -> String {
    let mut t = String::from("<!--METADATA\n");
    t.push_str(&format!("title: {}\n", title));
    t.push_str(&format!("date: {}\n", date));
    if let Some(tags) = tags {
        t.push_str(&format!("tags: {}\n", tags));
    }
    t.push_str("-->\n");
    t.push_str(summary);
    t.push_str("\n\nThe body.\n");
    t
}

fn make_post(name: &str, date: &str, tags: Option<&str>) -> Post {
    let text = post_text(name, date, tags, "hi.");
    let (p, _) = build_post(&v(&format!("{}.md", name)), &v(&text)).unwrap();
    p
}

#[test]
fn single_post_single_tag() {
    let text = post_text("Hello", "2020-01-15", Some("greetings"), "hi.");
    let (post, body) = build_post(&v("hello.md"), &v(&text)).unwrap();
    assert_eq!(st(&post.title), "Hello");
    assert_eq!(st(&post.slug), "hello");
    assert_eq!(post.date, Date { year: 2020, month: 1, day: 15 });
    assert_eq!(post.tags, vec![v("greetings")]);
    assert_eq!(st(&post.summary), "<p>hi.</p>\n");
    assert!(st(&body).contains("<p>The body.</p>"));

    let page = st(&post_page(&v(TEMPLATE), &post, &body));
    assert!(page.starts_with("<html>\n  <body>\n    <h2>Hello<div class='subheader'>posted on 2020-01-15 with tags [<a href='/blog/greetings'>greetings</a>]</div></h2>\n"));
    assert!(page.contains("    <p>The body.</p>\n"));
    assert!(page.ends_with("  </body>\n</html>\n"));

    let posts = vec![post];
    let tags = tag_order(&posts);
    assert_eq!(tags, vec![v("greetings")]);
    let tp = st(&tag_page(&v(TEMPLATE), &tags[0], &posts));
    assert!(tp.contains("    <h2>Posts tagged [greetings]</h2>\n"));
    assert!(tp.contains("<a href='/blog/hello'>Hello</a>"));

    let feed = st(&rss_feed(&posts));
    assert_eq!(feed.matches("<item>").count(), 1);
    assert!(feed.contains("<pubDate>Wed, 15 Jan 2020"));
}

#[test]
fn rss_item_exact() {
    let text = post_text("Hello", "2020-01-15", Some("greetings"), "hi.");
    let (post, _) = build_post(&v("hello.md"), &v(&text)).unwrap();
    assert_eq!(
        st(&post_rss(&post)),
        "    <item>\n      <title>Hello</title>\n      <link>http://keyboardfire.com/blog/hello</link>\n      <description>hi.</description>\n      <pubDate>Wed, 15 Jan 2020 17:00:00 GMT</pubDate>\n      <guid>http://keyboardfire.com/blog/hello</guid>\n    </item>"
    );
}

#[test]
fn missing_tags_default() {
    let post = make_post("orphan", "2021-02-03", None);
    assert_eq!(post.tags, vec![v("untagged")]);
    let posts = vec![post];
    assert_eq!(tag_order(&posts), vec![v("untagged")]);
}

#[test]
fn empty_tags_default() {
    assert_eq!(parse_tags(&Some(Vec::new())), vec![v("untagged")]);
    assert_eq!(parse_tags(&Some(v("a  b"))), vec![v("a"), v(""), v("b")]);
}

#[test]
fn posts_ordered_by_date() {
    let posts = vec![
        make_post("first", "2021-03-01", None),
        make_post("second", "2020-12-25", None),
        make_post("third", "2022-06-10", None),
    ];
    let sorted = sort_posts(posts);
    let dates: Vec<String> = sorted.iter().map(|p| st(&iso_date(p.date))).collect();
    assert_eq!(dates, vec!["2022-06-10", "2021-03-01", "2020-12-25"]);
}

#[test]
fn same_day_posts_by_slug() {
    let posts = vec![make_post("b", "2021-03-01", None), make_post("a", "2021-03-01", None)];
    let sorted = sort_posts(posts);
    assert_eq!(st(&sorted[0].slug), "a");
    assert_eq!(st(&sorted[1].slug), "b");
}

#[test]
fn tag_frequency_order() {
    let posts = vec![
        make_post("one", "2021-01-01", Some("b a")),
        make_post("two", "2021-01-02", Some("a")),
        make_post("three", "2021-01-03", Some("c b")),
    ];
    assert_eq!(tag_order(&posts), vec![v("a"), v("b"), v("c")]);
    let posts = vec![
        make_post("one", "2021-01-01", Some("z")),
        make_post("two", "2021-01-02", Some("z y")),
    ];
    assert_eq!(tag_order(&posts), vec![v("z"), v("y")]);
}

#[test]
fn tag_page_lists_only_tagged_posts() {
    let posts = sort_posts(vec![
        make_post("one", "2021-01-01", Some("x")),
        make_post("two", "2021-01-02", Some("y")),
        make_post("three", "2021-01-03", Some("x y")),
    ]);
    let page = st(&tag_page(&v(TEMPLATE), &v("x"), &posts));
    assert!(page.contains("/blog/one'"));
    assert!(page.contains("/blog/three'"));
    assert!(!page.contains("/blog/two'"));
    assert!(page.find("/blog/three'").unwrap() < page.find("/blog/one'").unwrap());
}

#[test]
fn summary_html_stripped_for_rss() {
    assert_eq!(st(&unhtml(&v("<p>hello <em>world</em></p>\n"))), "hello world");
}

#[test]
fn unhtml_edges() {
    assert_eq!(st(&unhtml(&v(""))), "");
    assert_eq!(st(&unhtml(&v("a < b"))), "a < b");
    assert_eq!(st(&unhtml(&v("x > y <i>z</i>  \t\n"))), "x > y z");
    assert_eq!(st(&unhtml(&v("<<a>b>"))), "b>");
}

#[test]
fn malformed_date() {
    let text = post_text("Bad", "2020/01/15", None, "s");
    assert_eq!(build_post(&v("bad.md"), &v(&text)).err(), Some(BlogError::BadDate));
    let text = post_text("Bad", "2021-02-30", None, "s");
    assert_eq!(build_post(&v("bad.md"), &v(&text)).err(), Some(BlogError::BadDate));
}

#[test]
fn malformed_posts() {
    assert_eq!(
        extract_metadata(&v("title: x\ndate: 2020-01-01\n-->\ns\n")).err(),
        Some(BlogError::MalformedPost)
    );
    assert_eq!(
        extract_metadata(&v("<!--METADATA\ndate: 2020-01-01\n-->\ns\n")).err(),
        Some(BlogError::MalformedPost)
    );
    assert_eq!(
        extract_metadata(&v("<!--METADATA\ntitle: x\ndate: 2020-01-01\n-->\n")).err(),
        Some(BlogError::MalformedPost)
    );
    assert_eq!(
        extract_metadata(&v("<!--METADATA\ntitle x\ndate: 2020-01-01\n-->\ns\n")).err(),
        Some(BlogError::MalformedMetadataLine)
    );
}

#[test]
fn metadata_fields() {
    let m = extract_metadata(&v(
        "intro\r\n<!--METADATA\r\ntitle: A: B\r\nextra: 1\r\ndate: 2020-01-01\r\n-->\r\nThe *summary*\r\nrest\r\n",
    ))
    .unwrap();
    assert_eq!(st(&m.title), "A: B");
    assert_eq!(st(&m.date), "2020-01-01");
    assert_eq!(m.tags, None);
    assert_eq!(st(&m.summary), "The *summary*");
}

#[test]
fn lines_split() {
    assert_eq!(split_lines(&v("")), Vec::<Vec<char>>::new());
    assert_eq!(split_lines(&v("a\r\nb\n\nc")), vec![v("a"), v("b"), v(""), v("c")]);
    assert_eq!(split_lines(&v("a\n")), vec![v("a")]);
}

#[test]
fn slugs() {
    assert_eq!(st(&slug_of(&v("hello.md"))), "hello");
    assert_eq!(st(&slug_of(&v("notes"))), "notes");
}

#[test]
fn card_exact() {
    let text = post_text("Hello", "2020-01-15", Some("greetings"), "hi.");
    let (post, _) = build_post(&v("hello.md"), &v(&text)).unwrap();
    assert_eq!(
        st(&post_html(&post, 2)),
        "  <section class='post'>\n     <h3>\n         <a href='/blog/hello'>Hello</a>\n         [<a href='/blog/greetings'>greetings</a>]\n         <div class='subheader'>2020-01-15</div>\n     </h3>\n     <p>hi.</p>\n\n  </section>"
    );
    assert_eq!(
        st(&tags_html(&vec![v("a"), v("b")])),
        "[<a href='/blog/a'>a</a>] [<a href='/blog/b'>b</a>]"
    );
}

#[test]
fn landing_page_patch() {
    let post = make_post("one", "2021-01-01", Some("a"));
    let posts = vec![post];
    let tags = vec![v("a")];
    let out = st(&patch_index(&v("<h1>Blog</h1>\n  <!--<C>-->\n<end>\n"), &tags, &posts));
    let card = st(&post_html(&posts[0], 2));
    assert_eq!(
        out,
        format!(
            "<h1>Blog</h1>\n  <p>Tags:\n      [<a href='/blog/a'>a</a>]\n  </p>\n{}\n<end>\n",
            card
        )
    );
    assert_eq!(st(&patch_index(&v("<h1>Blog</h1>\n"), &tags, &posts)), "<h1>Blog</h1>\n");
    // a second pass over the patched page changes nothing
    assert_eq!(st(&patch_index(&v(&out), &tags, &posts)), out);
}

#[test]
fn empty_feed() {
    assert_eq!(
        st(&rss_feed(&Vec::new())),
        "<?xml version='1.0' encoding='utf-8'?>\n<rss version='2.0'>\n  <channel>\n    <title>KeyboardFire—blog</title>\n    <link>http://keyboardfire.com/blog/</link>\n    <description>ramblings on various topics</description>\n    <language>en</language>\n  </channel>\n</rss>\n"
    );
}

#[test]
fn feed_one_item_per_post() {
    let posts = sort_posts(vec![
        make_post("one", "2021-01-01", None),
        make_post("two", "2021-01-02", None),
    ]);
    let feed = st(&rss_feed(&posts));
    assert_eq!(feed.matches("<item>").count(), 2);
    assert!(feed.find("blog/two</link>").unwrap() < feed.find("blog/one</link>").unwrap());
    assert!(feed.contains("<guid>http://keyboardfire.com/blog/one</guid>"));
}

#[test]
fn repeated_run_is_identical() {
    let build = || {
        let posts = sort_posts(vec![
            make_post("one", "2021-01-01", Some("a b")),
            make_post("two", "2021-01-02", Some("b")),
        ]);
        let tags = tag_order(&posts);
        let mut out = rss_feed(&posts);
        for t in &tags {
            out.extend(tag_page(&v(TEMPLATE), t, &posts));
        }
        out
    };
    assert_eq!(build(), build());
}

#[test]
fn iso_dates() {
    assert_eq!(st(&iso_date(Date { year: 5, month: 3, day: 9 })), "0005-03-09");
    assert_eq!(st(&iso_date(Date { year: 2024, month: 12, day: 31 })), "2024-12-31");
}

#[test]
fn home_navigation() {
    let template = "<nav>\n  <a href='/about'><!--<A>-->About</a>\n  <a href='/blog'><!--<A>-->Blog</a>\n</nav>\n  <!--<>-->\n<footer>\n";
    let out = home_page(&v(template), &v("about"), &v("Hi\nthere\n")).unwrap();
    assert_eq!(
        st(&out),
        "<nav>\n  <a href='/about' id='active'>About</a>\n  <a href='/blog'>Blog</a>\n</nav>\n  Hi\n  there\n<footer>\n"
    );
    let out = home_page(&v("<a href=x><!--<A>-->\n"), &v("x"), &v("")).err();
    assert_eq!(out, Some(BlogError::BadTemplate));
    let out = home_page(&v("<p>\n"), &v("index"), &v("text\n")).unwrap();
    assert_eq!(st(&out), "<p>\ntext\n");
}

#[test]
fn home_destinations() {
    assert_eq!(st(&page_name(&v("about.html"))), "about");
    assert_eq!(st(&destination(&v("about.html"))), "about/index.html");
    assert_eq!(st(&destination(&v("index.html"))), "index.html");
}

#[test]
fn home_navigation_after_slot() {
    let template = "<main>\n  <!--<>-->\n</main>\n<a href='/about'><!--<A>-->About</a>\n";
    let out = home_page(&v(template), &v("about"), &v("Hi\n")).unwrap();
    assert_eq!(st(&out), "<main>\n  Hi\n</main>\n<a href='/about' id='active'>About</a>\n");
    let out = home_page(&v("  <!--<>-->\n<a href=x><!--<A>-->\n"), &v("x"), &v("Hi\n")).err();
    assert_eq!(out, Some(BlogError::BadTemplate));
}

#[test]
fn unhtml_twice() {
    let once = unhtml(&v("<p>a <b>b</b> c</p>\n"));
    assert_eq!(st(&once), "a b c");
    assert_eq!(unhtml(&once), once);
}
