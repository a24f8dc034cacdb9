//! The orders in which posts and tags are listed.
use vstd::prelude::*;
use crate::post::Post;
use crate::text::texts;

verus! {

/// `a` comes before `b` in lexicographic order of characters.
pub open spec fn lex_lt(a: Seq<char>, b: Seq<char>) -> bool
    decreases a.len(),
{
    if a.len() == 0 {
        b.len() > 0
    } else if b.len() == 0 {
        false
    } else if a[0] != b[0] {
        a[0] < b[0]
    } else {
        lex_lt(a.drop_first(), b.drop_first())
    }
}

/// Lexicographic order is asymmetric.
pub proof fn lemma_lex_asymmetric(a: Seq<char>, b: Seq<char>)
    ensures
        !(lex_lt(a, b) && lex_lt(b, a)),
    decreases a.len(),
{
    if a.len() > 0 && b.len() > 0 && a[0] == b[0] {
        lemma_lex_asymmetric(a.drop_first(), b.drop_first());
    }
}

/// Lexicographic order is total on distinct texts.
pub proof fn lemma_lex_total(a: Seq<char>, b: Seq<char>)
    requires
        a != b,
    ensures
        lex_lt(a, b) || lex_lt(b, a),
    decreases a.len(),
{
    if a.len() == 0 && b.len() == 0 {
        assert(a =~= b);
    } else if a.len() > 0 && b.len() > 0 && a[0] == b[0] {
        if a.drop_first() == b.drop_first() {
            assert(a.drop_first().len() == b.drop_first().len());
            assert forall|i: int| 0 <= i < a.len() implies a[i] == b[i] by {
                if i > 0 {
                    assert(a[i] == a.drop_first()[i - 1]);
                    assert(b[i] == b.drop_first()[i - 1]);
                }
            }
            assert(a =~= b);
        } else {
            lemma_lex_total(a.drop_first(), b.drop_first());
        }
    }
}

/// Whether `a` comes before `b` in lexicographic order.
pub fn lex_less(a: &[char], b: &[char]) -> (r: bool)
    ensures
        r == lex_lt(a@, b@),
{
    let mut i: usize = 0;
    assert(a@.skip(0) =~= a@ && b@.skip(0) =~= b@);
    while i < a.len() && i < b.len() && a[i] == b[i]
        invariant
            i <= a.len(),
            i <= b.len(),
            lex_lt(a@, b@) == lex_lt(a@.skip(i as int), b@.skip(i as int)),
        decreases a.len() - i,
    {
        proof {
            assert(a@.skip(i as int).drop_first() =~= a@.skip(i + 1));
            assert(b@.skip(i as int).drop_first() =~= b@.skip(i + 1));
        }
        i = i + 1;
    }
    if i == a.len() {
        i < b.len()
    } else if i == b.len() {
        false
    } else {
        a[i] < b[i]
    }
}

/// `a` is listed before `b`: a later date, or the same date and a smaller slug.
pub open spec fn post_before(a: Post, b: Post) -> bool {
    a.date.after(b.date) || (a.date == b.date && lex_lt(a.slug@, b.slug@))
}

/// No post of `s` should come before its predecessor.
pub open spec fn posts_sorted(s: Seq<Post>) -> bool {
    forall|i: int| 0 <= i < s.len() - 1 ==> !post_before(#[trigger] s[i + 1], s[i])
}

/// Whether `a` is listed before `b`.
fn precedes(a: &Post, b: &Post) -> (r: bool)
    ensures
        r == post_before(*a, *b),
{
    a.date.is_after(&b.date) || (a.date == b.date && lex_less(&a.slug, &b.slug))
}

proof fn lemma_insert_sorted(s: Seq<Post>, k: int, p: Post)
    requires
        posts_sorted(s),
        0 <= k <= s.len(),
        k > 0 ==> !post_before(p, s[k - 1]),
        k < s.len() ==> post_before(p, s[k]),
    ensures
        posts_sorted(s.insert(k, p)),
{
    if k < s.len() {
        lemma_lex_asymmetric(p.slug@, s[k].slug@);
    }
    s.insert_ensures(k, p);
    let r = s.insert(k, p);
    assert forall|i: int| 0 <= i < r.len() - 1 implies !post_before(#[trigger] r[i + 1], r[i]) by {
        if i + 1 < k {
        } else if i + 1 == k {
        } else if i == k {
        } else {
            assert(r[i] == s[i - 1]);
            assert(r[i + 1] == s[i]);
        }
    }
}

proof fn lemma_insert_count(s: Seq<Post>, rest: Seq<Post>, k: int, p: Post)
    requires
        0 <= k <= s.len(),
    ensures
        s.insert(k, p).to_multiset().add(rest.to_multiset()) == s.to_multiset().add(
            rest.push(p).to_multiset(),
        ),
{
    vstd::seq_lib::to_multiset_insert(s, k, p);
    vstd::seq_lib::to_multiset_build(rest, p);
    assert(s.insert(k, p).to_multiset().add(rest.to_multiset()) =~= s.to_multiset().add(
        rest.push(p).to_multiset(),
    ));
}

/// The posts, newest first; posts of one day by slug.
pub fn sort_posts(posts: Vec<Post>) -> (r: Vec<Post>)
    ensures
        posts_sorted(r@),
        r@.to_multiset() == posts@.to_multiset(),
{
    let mut rest = posts;
    let mut r: Vec<Post> = Vec::new();
    assert(r@.to_multiset().add(rest@.to_multiset()) =~= posts@.to_multiset()) by {
        vstd::seq_lib::lemma_multiset_commutative(r@, rest@);
        assert(r@ + rest@ =~= rest@);
    }
    while rest.len() > 0
        invariant
            posts_sorted(r@),
            r@.to_multiset().add(rest@.to_multiset()) == posts@.to_multiset(),
        decreases rest.len(),
    {
        let ghost before_rest = rest@;
        let p = rest.pop().unwrap();
        assert(before_rest =~= rest@.push(p));
        let mut k: usize = 0;
        while k < r.len() && !precedes(&p, &r[k])
            invariant
                k <= r.len(),
                k > 0 ==> !post_before(p, r@[k - 1]),
            decreases r.len() - k,
        {
            k = k + 1;
        }
        let ghost old_r = r@;
        proof {
            lemma_insert_sorted(old_r, k as int, p);
        }
        r.insert(k, p);
        proof {
            lemma_insert_count(old_r, rest@, k as int, p);
        }
    }
    proof {
        vstd::seq_lib::lemma_multiset_commutative(r@, rest@);
        assert(r@ + rest@ =~= r@);
    }
    r
}

} // verus!

verus! {

/// Every tag of every post, in order, repeats included.
pub open spec fn all_tags(ps: Seq<Post>) -> Seq<Seq<char>>
    decreases ps.len(),
{
    if ps.len() == 0 {
        Seq::empty()
    } else {
        all_tags(ps.drop_last()) + ps.last().tag_seq()
    }
}

/// How often `t` occurs in `s`.
pub open spec fn count_of(s: Seq<Seq<char>>, t: Seq<char>) -> nat
    decreases s.len(),
{
    if s.len() == 0 {
        0
    } else {
        count_of(s.drop_last(), t) + if s.last() == t {
            1nat
        } else {
            0nat
        }
    }
}

/// Tag `a` is listed before tag `b`: it is more frequent in `all`, or as frequent and
/// lexicographically smaller.
pub open spec fn tag_before(a: Seq<char>, b: Seq<char>, all: Seq<Seq<char>>) -> bool {
    count_of(all, a) > count_of(all, b) || (count_of(all, a) == count_of(all, b) && lex_lt(a, b))
}

/// `r` lists each tag of `all` once, most frequent first, ties in lexicographic order.
pub open spec fn tags_ordered(r: Seq<Seq<char>>, all: Seq<Seq<char>>) -> bool {
    &&& r.no_duplicates()
    &&& forall|t: Seq<char>| r.contains(t) <==> all.contains(t)
    &&& forall|i: int| 0 <= i < r.len() - 1 ==> tag_before(#[trigger] r[i], r[i + 1], all)
}

proof fn lemma_count_bound(s: Seq<Seq<char>>, t: Seq<char>)
    ensures
        count_of(s, t) <= s.len(),
    decreases s.len(),
{
    if s.len() > 0 {
        lemma_count_bound(s.drop_last(), t);
    }
}

proof fn lemma_insert_keeps(s: Seq<Seq<char>>, k: int, x: Seq<char>)
    requires
        0 <= k <= s.len(),
        s.no_duplicates(),
        !s.contains(x),
    ensures
        s.insert(k, x).no_duplicates(),
        forall|y: Seq<char>| s.insert(k, x).contains(y) <==> (s.contains(y) || y == x),
{
    s.insert_ensures(k, x);
    let r = s.insert(k, x);
    assert forall|y: Seq<char>| r.contains(y) <==> (s.contains(y) || y == x) by {
        if r.contains(y) {
            let i = choose|i: int| 0 <= i < r.len() && r[i] == y;
            if i < k {
                assert(s[i] == y);
            } else if i > k {
                assert(s[i - 1] == y);
            }
        }
        if s.contains(y) {
            let i = choose|i: int| 0 <= i < s.len() && s[i] == y;
            if i < k {
                assert(r[i] == y);
            } else {
                assert(r[i + 1] == y);
            }
        }
        if y == x {
            assert(r[k] == y);
        }
    }
    assert forall|i: int, j: int| 0 <= i < r.len() && 0 <= j < r.len() && i != j implies r[i]
        != r[j] by {
        let si = if i < k { i } else { i - 1 };
        let sj = if j < k { j } else { j - 1 };
        if i != k && j != k {
            assert(r[i] == s[si]);
            assert(r[j] == s[sj]);
        } else if i == k {
            assert(r[j] == s[sj]);
        } else {
            assert(r[i] == s[si]);
        }
    }
}

proof fn lemma_tag_total(a: Seq<char>, b: Seq<char>, all: Seq<Seq<char>>)
    requires
        a != b,
        !tag_before(a, b, all),
    ensures
        tag_before(b, a, all),
{
    lemma_lex_total(a, b);
}

proof fn lemma_insert_tag_sorted(s: Seq<Seq<char>>, k: int, x: Seq<char>, all: Seq<Seq<char>>)
    requires
        forall|i: int| 0 <= i < s.len() - 1 ==> tag_before(#[trigger] s[i], s[i + 1], all),
        0 <= k <= s.len(),
        !s.contains(x),
        k > 0 ==> !tag_before(x, s[k - 1], all),
        k < s.len() ==> tag_before(x, s[k], all),
    ensures
        forall|i: int|
            0 <= i < s.len() ==> tag_before(#[trigger] s.insert(k, x)[i], s.insert(k, x)[i + 1], all),
{
    s.insert_ensures(k, x);
    let r = s.insert(k, x);
    if k > 0 {
        assert(s[k - 1] != x);
        lemma_tag_total(x, s[k - 1], all);
    }
    assert forall|i: int| 0 <= i < s.len() implies tag_before(#[trigger] r[i], r[i + 1], all) by {
        if i + 1 < k {
        } else if i + 1 == k {
        } else if i == k {
        } else {
            assert(r[i] == s[i - 1]);
            assert(r[i + 1] == s[i]);
        }
    }
}

/// Whether a tag of count `c` is listed before one of count `d`.
fn tag_first(t: &[char], c: usize, u: &[char], d: usize) -> (r: bool)
    ensures
        r == (c > d || (c == d && lex_lt(t@, u@))),
{
    c > d || (c == d && lex_less(t, u))
}

/// Every tag of every post, in order.
pub fn collect_tags(posts: &Vec<Post>) -> (r: Vec<Vec<char>>)
    ensures
        texts(r@) == all_tags(posts@),
{
    let mut r: Vec<Vec<char>> = Vec::new();
    for i in 0..posts.len()
        invariant
            texts(r@) == all_tags(posts@.take(i as int)),
    {
        let ghost base = texts(r@);
        let tags = &posts[i].tags;
        for j in 0..tags.len()
            invariant
                tags == &posts@[i as int].tags,
                texts(r@) == base + posts@[i as int].tag_seq().take(j as int),
        {
            let ghost before = texts(r@);
            r.push(tags[j].clone());
            proof {
                assert(texts(r@) =~= before.push(tags@[j as int]@));
                assert(posts@[i as int].tag_seq().take(j + 1) =~= posts@[i as int].tag_seq().take(
                    j as int,
                ).push(tags@[j as int]@));
                assert(texts(r@) =~= base + posts@[i as int].tag_seq().take(j + 1));
            }
        }
        proof {
            assert(posts@[i as int].tag_seq().take(tags@.len() as int) =~= posts@[i as int].tag_seq());
            assert(posts@.take(i + 1).drop_last() =~= posts@.take(i as int));
        }
    }
    assert(posts@.take(posts@.len() as int) =~= posts@);
    r
}

} // verus!

verus! {

/// The distinct tags of `all`, each with how often it occurs there.
fn tally(all: &Vec<Vec<char>>) -> (r: (Vec<Vec<char>>, Vec<usize>))
    ensures
        texts(r.0@).no_duplicates(),
        forall|t: Seq<char>|
            #[trigger] texts(r.0@).contains(t) <==> texts(all@).contains(t),
        r.0@.len() == r.1@.len(),
        forall|k: int|
            0 <= k < r.1@.len() ==> #[trigger] r.1@[k] == count_of(
                texts(all@),
                r.0@[k]@,
            ),
{
    let ghost av = texts(all@);
    let mut uniq: Vec<Vec<char>> = Vec::new();
    let mut counts: Vec<usize> = Vec::new();
    for i in 0..all.len()
        invariant
            av == texts(all@),
            texts(uniq@).no_duplicates(),
            forall|t: Seq<char>|
                #[trigger] texts(uniq@).contains(t) <==> av.take(i as int).contains(t),
            uniq@.len() == counts@.len(),
            forall|k: int|
                0 <= k < counts@.len() ==> #[trigger] counts@[k] == count_of(av.take(i as int), uniq@[k]@),
    {
        let ghost uv = texts(uniq@);
        let ghost pre = av.take(i as int);
        let ghost cur = av.take(i + 1);
        proof {
            assert(cur.drop_last() =~= pre);
            assert(cur.last() == all@[i as int]@);
            assert forall|t: Seq<char>| cur.contains(t) <==> (pre.contains(t) || t == all@[i as int]@) by {
                if cur.contains(t) {
                    let j = choose|j: int| 0 <= j < cur.len() && cur[j] == t;
                    if j < i {
                        assert(pre[j] == t);
                    }
                }
                if pre.contains(t) {
                    let j = choose|j: int| 0 <= j < pre.len() && pre[j] == t;
                    assert(cur[j] == t);
                }
            }
        }
        let t = &all[i];
        let mut k: usize = 0;
        while k < uniq.len() && !crate::metadata::same_text(&uniq[k], t)
            invariant
                k <= uniq@.len(),
                uv == texts(uniq@),
                forall|j: int| 0 <= j < k ==> uv[j] != t@,
            decreases uniq.len() - k,
        {
            assert(uv[k as int] == uniq@[k as int]@);
            k = k + 1;
        }
        if k < uniq.len() {
            proof {
                lemma_count_bound(pre, t@);
                assert(uv[k as int] == t@);
            }
            let c = counts[k] + 1;
            counts.set(k, c);
            proof {
                assert(uv.contains(t@));
                assert forall|x: Seq<char>| #[trigger] texts(uniq@).contains(x) <==> cur.contains(x) by {
                    if x == t@ {
                        assert(uv.contains(x));
                    }
                }
                assert forall|j: int| 0 <= j < counts@.len() implies #[trigger] counts@[j] == count_of(
                    cur,
                    uniq@[j]@,
                ) by {
                    if j != k {
                        assert(uv[j] == uniq@[j]@);
                        assert(uv[j] != uv[k as int]);
                    }
                }
            }
        } else {
            proof {
                assert(!uv.contains(t@));
                lemma_insert_keeps(uv, uv.len() as int, t@);
                assert(uv.insert(uv.len() as int, t@) =~= uv.push(t@));
                lemma_count_not_in(pre, t@);
            }
            uniq.push(t.clone());
            counts.push(1);
            proof {
                assert(texts(uniq@) =~= uv.push(t@));
                assert forall|x: Seq<char>| #[trigger] texts(uniq@).contains(x) <==> cur.contains(x) by {
                    assert(uv.push(t@).contains(x) <==> (uv.contains(x) || x == t@));
                }
                assert forall|j: int| 0 <= j < counts@.len() implies #[trigger] counts@[j] == count_of(
                    cur,
                    uniq@[j]@,
                ) by {
                    if j < uv.len() {
                        assert(uv[j] == uniq@[j]@);
                        assert(uv.contains(uv[j]));
                    }
                }
            }
        }
    }
    assert(av.take(all@.len() as int) =~= av);
    (uniq, counts)
}

proof fn lemma_count_not_in(s: Seq<Seq<char>>, t: Seq<char>)
    requires
        !s.contains(t),
    ensures
        count_of(s, t) == 0,
    decreases s.len(),
{
    if s.len() > 0 {
        assert(s.last() != t);
        assert forall|x: Seq<char>| s.drop_last().contains(x) implies s.contains(x) by {
            let j = choose|j: int| 0 <= j < s.drop_last().len() && s.drop_last()[j] == x;
            assert(s[j] == x);
        }
        lemma_count_not_in(s.drop_last(), t);
    }
}

} // verus!

verus! {

/// The distinct tags of `posts`, most frequent first, ties in lexicographic order.
pub fn tag_order(posts: &Vec<Post>) -> (r: Vec<Vec<char>>)
    ensures
        tags_ordered(texts(r@), all_tags(posts@)),
{
    let all = collect_tags(posts);
    let ghost av = all_tags(posts@);
    let (uniq, counts) = tally(&all);
    let ghost uv = texts(uniq@);
    let mut rt: Vec<Vec<char>> = Vec::new();
    let mut rc: Vec<usize> = Vec::new();
    for j in 0..uniq.len()
        invariant
            av == all_tags(posts@),
            uv == texts(uniq@),
            uv.no_duplicates(),
            forall|t: Seq<char>| #[trigger] uv.contains(t) <==> av.contains(t),
            uniq@.len() == counts@.len(),
            forall|k: int| 0 <= k < counts@.len() ==> #[trigger] counts@[k] == count_of(av, uniq@[k]@),
            texts(rt@).no_duplicates(),
            forall|t: Seq<char>| #[trigger] texts(rt@).contains(t) <==> uv.take(j as int).contains(t),
            rt@.len() == rc@.len(),
            forall|k: int| 0 <= k < rc@.len() ==> #[trigger] rc@[k] == count_of(av, rt@[k]@),
            forall|i: int|
                0 <= i < texts(rt@).len() - 1 ==> tag_before(#[trigger] texts(rt@)[i], texts(rt@)[i + 1], av),
    {
        let t = &uniq[j];
        let c = counts[j];
        let ghost rv = texts(rt@);
        assert(forall|x: Seq<char>| rv.contains(x) <==> uv.take(j as int).contains(x));
        let mut k: usize = 0;
        while k < rt.len() && !tag_first(t, c, &rt[k], rc[k])
            invariant
                k <= rt@.len(),
                rt@.len() == rc@.len(),
                rv == texts(rt@),
                c == count_of(av, t@),
                forall|q: int| 0 <= q < rc@.len() ==> #[trigger] rc@[q] == count_of(av, rt@[q]@),
                k > 0 ==> !tag_before(t@, rv[k - 1], av),
            decreases rt.len() - k,
        {
            assert(rv[k as int] == rt@[k as int]@);
            k = k + 1;
        }
        proof {
            assert(uv[j as int] == t@);
            if k < rt@.len() {
                assert(rv[k as int] == rt@[k as int]@);
            }
            assert(!rv.contains(t@)) by {
                if rv.contains(t@) {
                    assert(uv.take(j as int).contains(t@));
                    let q = choose|q: int| 0 <= q < j && uv.take(j as int)[q] == t@;
                    assert(uv[q] == uv[j as int]);
                }
            }
            lemma_insert_keeps(rv, k as int, t@);
            lemma_insert_tag_sorted(rv, k as int, t@, av);
        }
        let ghost old_rt = rt@;
        let ghost old_rc = rc@;
        rt.insert(k, t.clone());
        rc.insert(k, c);
        proof {
            assert(texts(rt@) =~= rv.insert(k as int, t@));
            old_rt.insert_ensures(k as int, rt@[k as int]);
            old_rc.insert_ensures(k as int, c);
            assert forall|q: int| 0 <= q < rc@.len() implies #[trigger] rc@[q] == count_of(av, rt@[q]@) by {
                if q > k {
                    assert(rc@[q] == old_rc[q - 1]);
                    assert(rt@[q] == old_rt[q - 1]);
                }
            }
            assert forall|x: Seq<char>| #[trigger] texts(rt@).contains(x) <==> uv.take(j + 1).contains(x) by {
                assert(texts(rt@).contains(x) <==> (rv.contains(x) || x == t@));
                assert(rv.contains(x) <==> uv.take(j as int).contains(x));
                assert(uv.take(j + 1) =~= uv.take(j as int).push(t@));
                assert(uv.take(j as int).push(t@).contains(x) <==> (uv.take(j as int).contains(x) || x == t@)) by {
                    if uv.take(j as int).push(t@).contains(x) {
                        let q = choose|q: int| 0 <= q < j + 1 && uv.take(j as int).push(t@)[q] == x;
                        if q < j {
                            assert(uv.take(j as int)[q] == x);
                        }
                    }
                    if uv.take(j as int).contains(x) {
                        let q = choose|q: int| 0 <= q < j && uv.take(j as int)[q] == x;
                        assert(uv.take(j as int).push(t@)[q] == x);
                    }
                    if x == t@ {
                        assert(uv.take(j as int).push(t@)[j as int] == x);
                    }
                }
            }
        }
    }
    proof {
        assert(uv.take(uniq@.len() as int) =~= uv);
        assert forall|x: Seq<char>| #[trigger] texts(rt@).contains(x) <==> av.contains(x) by {
            assert(uv.contains(x) <==> av.contains(x));
        }
    }
    rt
}

} // verus!

verus! {

proof fn lemma_lex_transitive(a: Seq<char>, b: Seq<char>, c: Seq<char>)
    requires
        lex_lt(a, b),
        lex_lt(b, c),
    ensures
        lex_lt(a, c),
    decreases a.len(),
{
    if a.len() > 0 && b.len() > 0 && c.len() > 0 && a[0] == b[0] && b[0] == c[0] {
        lemma_lex_transitive(a.drop_first(), b.drop_first(), c.drop_first());
    }
}

/// Listing order is transitive, and listing-or-equal order too on posts of distinct slugs.
proof fn lemma_before_order(x: Post, y: Post, z: Post)
    ensures
        post_before(x, y) && post_before(y, z) ==> post_before(x, z),
        x.slug@ != y.slug@ ==> post_before(x, y) || post_before(y, x),
        !(post_before(x, y) && post_before(y, x)),
        (!post_before(y, x) && !post_before(z, y) && x.slug@ != y.slug@ && y.slug@ != z.slug@)
            ==> !post_before(z, x),
{
    if post_before(x, y) && post_before(y, z) && x.date == y.date && y.date == z.date {
        lemma_lex_transitive(x.slug@, y.slug@, z.slug@);
    }
    if x.slug@ != y.slug@ {
        lemma_lex_total(x.slug@, y.slug@);
    }
    lemma_lex_asymmetric(x.slug@, y.slug@);
    if x.slug@ != y.slug@ && y.slug@ != z.slug@ {
        lemma_lex_total(x.slug@, y.slug@);
        lemma_lex_total(y.slug@, z.slug@);
        lemma_lex_asymmetric(z.slug@, x.slug@);
        if x.date == y.date && y.date == z.date && lex_lt(x.slug@, y.slug@) && lex_lt(y.slug@, z.slug@) {
            lemma_lex_transitive(x.slug@, y.slug@, z.slug@);
        }
    }
}

/// The posts of `s` have distinct slugs.
pub open spec fn slugs_distinct(s: Seq<Post>) -> bool {
    forall|i: int, j: int| 0 <= i < s.len() && 0 <= j < s.len() && i != j ==> (#[trigger] s[i]).slug@
        != (#[trigger] s[j]).slug@
}

proof fn lemma_sorted_pairwise(s: Seq<Post>)
    requires
        posts_sorted(s),
        slugs_distinct(s),
    ensures
        forall|i: int, j: int| 0 <= i < j < s.len() ==> !post_before(#[trigger] s[j], #[trigger] s[i]),
    decreases s.len(),
{
    if s.len() > 1 {
        let q = s.drop_last();
        assert forall|i: int| 0 <= i < q.len() - 1 implies !post_before(#[trigger] q[i + 1], q[i]) by {
            assert(q[i + 1] == s[i + 1]);
        }
        lemma_sorted_pairwise(q);
        let m = s.len() - 2;
        assert(!post_before(s[m + 1], s[m]));
        assert forall|i: int, j: int| 0 <= i < j < s.len() implies !post_before(#[trigger] s[j], #[trigger] s[i]) by {
            if j < s.len() - 1 {
                assert(s[j] == q[j] && s[i] == q[i]);
            } else if i < m {
                assert(s[i] == q[i] && s[m] == q[m]);
                assert(!post_before(q[m], q[i]));
                lemma_before_order(s[i], s[m], s[m + 1]);
            }
        }
    }
}

proof fn lemma_sorted_unique(a: Seq<Post>, b: Seq<Post>)
    requires
        posts_sorted(a),
        posts_sorted(b),
        slugs_distinct(a),
        a.to_multiset() == b.to_multiset(),
    ensures
        a == b,
    decreases a.len(),
{
    a.to_multiset_ensures();
    b.to_multiset_ensures();
    assert(a.len() == b.len());
    if a.len() > 0 {
        lemma_sorted_pairwise(a);
        assert(a.contains(a[0]));
        lemma_perm_contains(a, b, a[0]);
        assert(b.contains(b[0]));
        lemma_perm_contains(b, a, b[0]);
        let k = choose|k: int| 0 <= k < b.len() && b[k] == a[0];
        let m = choose|m: int| 0 <= m < a.len() && a[m] == b[0];
        if a[0] != b[0] {
            assert(m != 0);
            assert(!post_before(a[m], a[0]));
            assert(a[0].slug@ != a[m].slug@);
            lemma_before_order(a[0], b[0], a[0]);
            assert(post_before(a[0], b[0]));
            // b[0] comes first in b, yet a[0] = b[k] would have to come before it
            assert(k != 0);
            assert(slugs_distinct(b)) by {
                lemma_distinct_perm(a, b);
            }
            lemma_sorted_pairwise(b);
            assert(!post_before(b[k], b[0]));
        }
        let a1 = a.drop_first();
        let b1 = b.drop_first();
        assert(a.remove(0) =~= a1);
        assert(b.remove(0) =~= b1);
        assert(a1.to_multiset() == b1.to_multiset());
        assert forall|i: int| 0 <= i < a1.len() - 1 implies !post_before(#[trigger] a1[i + 1], a1[i]) by {
            assert(a1[i + 1] == a[i + 2]);
            assert(a1[i] == a[i + 1]);
        }
        assert forall|i: int| 0 <= i < b1.len() - 1 implies !post_before(#[trigger] b1[i + 1], b1[i]) by {
            assert(b1[i + 1] == b[i + 2]);
            assert(b1[i] == b[i + 1]);
        }
        assert forall|i: int, j: int| 0 <= i < a1.len() && 0 <= j < a1.len() && i != j implies (
        #[trigger] a1[i]).slug@ != (#[trigger] a1[j]).slug@ by {
            assert(a1[i] == a[i + 1] && a1[j] == a[j + 1]);
        }
        lemma_sorted_unique(a1, b1);
        assert forall|i: int| 0 <= i < a.len() implies a[i] == b[i] by {
            if i > 0 {
                assert(a[i] == a1[i - 1]);
                assert(b[i] == b1[i - 1]);
            }
        }
        assert(a =~= b);
    }
}

proof fn lemma_perm_contains(a: Seq<Post>, b: Seq<Post>, x: Post)
    requires
        a.to_multiset() == b.to_multiset(),
        a.contains(x),
    ensures
        b.contains(x),
        a.len() == b.len(),
{
    a.to_multiset_ensures();
    b.to_multiset_ensures();
    assert(a.to_multiset().count(x) > 0);
}

proof fn lemma_distinct_perm(a: Seq<Post>, b: Seq<Post>)
    requires
        slugs_distinct(a),
        a.to_multiset() == b.to_multiset(),
    ensures
        slugs_distinct(b),
{
    a.to_multiset_ensures();
    b.to_multiset_ensures();
    assert forall|i: int, j: int| 0 <= i < b.len() && 0 <= j < b.len() && i != j implies (
    #[trigger] b[i]).slug@ != (#[trigger] b[j]).slug@ by {
        if b[i].slug@ == b[j].slug@ {
            assert(b.contains(b[i]) && b.contains(b[j]));
            lemma_perm_contains(b, a, b[i]);
            lemma_perm_contains(b, a, b[j]);
            let x = choose|x: int| 0 <= x < a.len() && a[x] == b[i];
            let y = choose|y: int| 0 <= y < a.len() && a[y] == b[j];
            if b[i] == b[j] {
                // the same post twice in b, so twice in a
                let r = b.remove(i);
                r.to_multiset_ensures();
                assert(r.to_multiset() == b.to_multiset().remove(b[i]));
                let jj = if j < i { j } else { j - 1 };
                assert(r[jj] == b[j]);
                assert(r.contains(b[i]));
                assert(r.to_multiset().count(b[i]) > 0);
                assert(b.to_multiset().count(b[i]) >= 2);
                let ra = a.remove(x);
                ra.to_multiset_ensures();
                assert(ra.to_multiset() == a.to_multiset().remove(a[x]));
                assert(ra.to_multiset().count(b[i]) > 0);
                assert(ra.contains(b[i]));
                let z = choose|z: int| 0 <= z < ra.len() && ra[z] == b[i];
                let zz = if z < x { z } else { z + 1 };
                assert(a[zz] == ra[z]);
            }
        }
    }
}

/// Whatever order the same posts come in, they are listed alike: two lists of the same
/// posts (slugs distinct), each sorted as `sort_posts` sorts, are equal.
pub proof fn lemma_listing_ignores_input_order(a: Seq<Post>, b: Seq<Post>)
    requires
        posts_sorted(a),
        posts_sorted(b),
        slugs_distinct(a),
        a.to_multiset() == b.to_multiset(),
    ensures
        a == b,
{
    lemma_sorted_unique(a, b);
}

} // verus!
