//! Image URLs in card text pointed at the preview server's `/media/` route.
use crate::text::{
    append_all, chars_of, find, find_exec, find_from, lemma_find_from, matches_at, push_str,
    slice_of, starts_with, starts_with_exec, string_of,
};
use vstd::prelude::*;

verus! {

/// `Path::join` on Unix: an absolute `p` replaces `base`; otherwise `p` is
/// appended, after a `/` when `base` is not empty and does not end in one.
pub open spec fn unix_join(base: Seq<char>, p: Seq<char>) -> Seq<char> {
    if p.len() > 0 && p[0] == '/' {
        p
    } else if base.len() > 0 && base.last() != '/' {
        base + seq!['/'] + p
    } else {
        base + p
    }
}

/// `base` joined with `p` as `Path::join` joins them on Unix.
pub(crate) fn join_path(base: &str, p: &str) -> (r: String)
    ensures
        r@ == unix_join(base@, p@),
{
    let b = chars_of(base);
    let q = chars_of(p);
    if q.len() > 0 && q[0] == '/' {
        string_of(&q)
    } else if b.len() > 0 && b[b.len() - 1] != '/' {
        let mut v = b;
        v.push('/');
        append_all(&mut v, &q);
        string_of(&v)
    } else {
        let mut v = b;
        append_all(&mut v, &q);
        string_of(&v)
    }
}

/// A URL that the preview leaves alone: remote, absolute or inline data.
pub open spec fn kept_url(url: Seq<char>) -> bool {
    starts_with(url, "http://"@) || starts_with(url, "https://"@) || starts_with(url, "/"@)
        || starts_with(url, "data:"@)
}

/// `s` with each `\` made `/`.
pub open spec fn forward_slashes(s: Seq<char>) -> Seq<char> {
    s.map_values(|c: char| if c == '\\' { '/' } else { c })
}

/// The URL as the page refers to it.
pub open spec fn rewritten_url(url: Seq<char>, dir: Seq<char>) -> Seq<char> {
    if kept_url(url) {
        url
    } else {
        "/media/"@ + forward_slashes(unix_join(dir, url))
    }
}

/// Appends the URL as the page refers to it.
pub fn push_rewritten_url(result: &mut Vec<char>, url: &Vec<char>, source_dir: &str)
    ensures
        final(result)@ == old(result)@ + rewritten_url(url@, source_dir@),
{
    if starts_with_exec(url, &chars_of("http://")) || starts_with_exec(url, &chars_of("https://"))
        || starts_with_exec(url, &chars_of("/")) || starts_with_exec(url, &chars_of("data:")) {
        append_all(result, url);
    } else {
        let u = string_of(url);
        let joined = join_path(source_dir, u.as_str());
        let j = chars_of(joined.as_str());
        push_str(result, "/media/");
        let ghost base = result@;
        let mut i: usize = 0;
        while i < j.len()
            invariant
                0 <= i <= j.len(),
                result@ == base + forward_slashes(j@.take(i as int)),
            decreases j.len() - i,
        {
            if j[i] == '\\' {
                result.push('/');
            } else {
                result.push(j[i]);
            }
            i = i + 1;
            assert(forward_slashes(j@.take(i as int)) =~= forward_slashes(j@.take(i - 1)).push(
                if j@[i - 1] == '\\' { '/' } else { j@[i - 1] },
            ));
        }
        assert(j@.take(j.len() as int) =~= j@);
    }
}

/// `<img src="…">` URLs rewritten, scanning `rest`.
pub open spec fn rewrite_html(rest: Seq<char>, dir: Seq<char>) -> Seq<char>
    decreases rest.len(),
{
    let needle = "<img src=\""@;
    match find(rest, needle) {
        None => rest,
        Some(idx) => {
            let head = rest.subrange(0, idx + needle.len());
            let after = rest.subrange(idx + needle.len(), rest.len() as int);
            proof {
                lemma_find_from(rest, needle, 0);
                lemma_find_from(after, "\""@, 0);
                reveal_strlit("<img src=\"");
            }
            match find(after, "\""@) {
                Some(end) => head + rewritten_url(after.subrange(0, end), dir) + rewrite_html(
                    after.subrange(end, after.len() as int),
                    dir,
                ),
                None => head + rewrite_html(after, dir),
            }
        },
    }
}

/// `![alt](url)` URLs rewritten, scanning `rest`.
pub open spec fn rewrite_markdown(rest: Seq<char>, dir: Seq<char>) -> Seq<char>
    decreases rest.len(),
{
    match find(rest, "!["@) {
        None => rest,
        Some(idx) => {
            let from = rest.subrange(idx, rest.len() as int);
            proof {
                lemma_find_from(rest, "!["@, 0);
                reveal_strlit("![");
                reveal_strlit("](");
            }
            match find(from, "]("@) {
                Some(bp) => {
                    let url_start = bp + 2;
                    proof {
                        lemma_find_from(from, "]("@, 0);
                    }
                    let after = from.subrange(url_start, from.len() as int);
                    proof {
                        lemma_find_from(after, ")"@, 0);
                    }
                    match find(after, ")"@) {
                        Some(close) => rest.subrange(0, idx) + from.subrange(0, url_start)
                            + rewritten_url(after.subrange(0, close), dir) + rewrite_markdown(
                            after.subrange(close, after.len() as int),
                            dir,
                        ),
                        None => rest.subrange(0, idx) + "!["@ + rewrite_markdown(
                            from.subrange(2, from.len() as int),
                            dir,
                        ),
                    }
                },
                None => rest.subrange(0, idx) + "!["@ + rewrite_markdown(
                    from.subrange(2, from.len() as int),
                    dir,
                ),
            }
        },
    }
}

/// `<img src="…">` URLs of a text pointed at `/media/`.
pub fn rewrite_html_image_srcs(text: &Vec<char>, source_dir: &str) -> (r: Vec<char>)
    ensures
        r@ == rewrite_html(text@, source_dir@),
{
    let needle = chars_of("<img src=\"");
    let quote = chars_of("\"");
    proof {
        reveal_strlit("<img src=\"");
        reveal_strlit("\"");
    }
    let mut result: Vec<char> = Vec::new();
    let mut remaining = slice_of(text, 0, text.len());
    assert(remaining@ =~= text@);
    assert(result@ + rewrite_html(remaining@, source_dir@) =~= rewrite_html(text@, source_dir@));
    loop
        invariant
            needle@ == "<img src=\""@,
            quote@ == "\""@,
            needle@.len() == 10,
            quote@.len() == 1,
            result@ + rewrite_html(remaining@, source_dir@) == rewrite_html(text@, source_dir@),
        decreases remaining@.len(),
    {
        let rlen = remaining.len();
        match find_exec(&remaining, &needle) {
            None => {
                append_all(&mut result, &remaining);
                return result;
            },
            Some(idx) => {
                proof {
                    lemma_find_from(remaining@, needle@, 0);
                    assert(find(remaining@, needle@) == Some(idx as int));
                    assert(matches_at(remaining@, needle@, idx as int));
                    assert(idx + 10 <= remaining@.len());
                }
                let head = slice_of(&remaining, 0, idx + 10);
                let after = slice_of(&remaining, idx + 10, remaining.len());
                let ghost r0 = result@;
                append_all(&mut result, &head);
                match find_exec(&after, &quote) {
                    Some(end) => {
                        proof {
                            lemma_find_from(after@, quote@, 0);
                            assert(find(after@, quote@) == Some(end as int));
                            assert(matches_at(after@, quote@, end as int));
                        }
                        let url = slice_of(&after, 0, end);
                        push_rewritten_url(&mut result, &url, source_dir);
                        let next = slice_of(&after, end, after.len());
                        assert(r0 + rewrite_html(remaining@, source_dir@) =~= result@ + rewrite_html(next@, source_dir@));
                        remaining = next;
                    },
                    None => {
                        assert(r0 + rewrite_html(remaining@, source_dir@) =~= result@ + rewrite_html(after@, source_dir@));
                        remaining = after;
                    },
                }
            },
        }
    }
}

/// `![alt](url)` URLs of a text pointed at `/media/`.
pub fn rewrite_markdown_images(text: &Vec<char>, source_dir: &str) -> (r: Vec<char>)
    ensures
        r@ == rewrite_markdown(text@, source_dir@),
{
    let open = chars_of("![");
    let mid = chars_of("](");
    let close_p = chars_of(")");
    proof {
        reveal_strlit("![");
        reveal_strlit("](");
        reveal_strlit(")");
    }
    let mut result: Vec<char> = Vec::new();
    let mut remaining = slice_of(text, 0, text.len());
    assert(remaining@ =~= text@);
    assert(result@ + rewrite_markdown(remaining@, source_dir@) =~= rewrite_markdown(text@, source_dir@));
    loop
        invariant
            open@ == "!["@,
            mid@ == "]("@,
            close_p@ == ")"@,
            open@.len() == 2,
            mid@.len() == 2,
            close_p@.len() == 1,
            result@ + rewrite_markdown(remaining@, source_dir@) == rewrite_markdown(text@, source_dir@),
        decreases remaining@.len(),
    {
        match find_exec(&remaining, &open) {
            None => {
                append_all(&mut result, &remaining);
                return result;
            },
            Some(idx) => {
                proof {
                    lemma_find_from(remaining@, open@, 0);
                    assert(find(remaining@, open@) == Some(idx as int));
                    assert(matches_at(remaining@, open@, idx as int));
                }
                let ghost r0 = result@;
                let before = slice_of(&remaining, 0, idx);
                let from = slice_of(&remaining, idx, remaining.len());
                append_all(&mut result, &before);
                let mut done = false;
                if let Some(bp) = find_exec(&from, &mid) {
                    proof {
                        lemma_find_from(from@, mid@, 0);
                        assert(find(from@, mid@) == Some(bp as int));
                        assert(matches_at(from@, mid@, bp as int));
                    }
                    let url_start = bp + 2;
                    let after = slice_of(&from, url_start, from.len());
                    if let Some(close) = find_exec(&after, &close_p) {
                        proof {
                            lemma_find_from(after@, close_p@, 0);
                            assert(find(after@, close_p@) == Some(close as int));
                            assert(matches_at(after@, close_p@, close as int));
                        }
                        let lead = slice_of(&from, 0, url_start);
                        append_all(&mut result, &lead);
                        let url = slice_of(&after, 0, close);
                        push_rewritten_url(&mut result, &url, source_dir);
                        let next = slice_of(&after, close, after.len());
                        assert(r0 + rewrite_markdown(remaining@, source_dir@) =~= result@ + rewrite_markdown(next@, source_dir@));
                        remaining = next;
                        done = true;
                    }
                }
                if !done {
                    append_all(&mut result, &open);
                    let next = slice_of(&from, 2, from.len());
                    assert(r0 + rewrite_markdown(remaining@, source_dir@) =~= result@ + rewrite_markdown(next@, source_dir@));
                    remaining = next;
                }
            },
        }
    }
}

/// Relative image URLs of card text (HTML `<img>` tags, then Markdown
/// images) pointed at the server's `/media/` route under the source
/// directory; remote, absolute and data URLs are kept.
pub fn rewrite_image_urls(text: &str, source_dir: &str) -> (r: String)
    ensures
        r@ == rewrite_markdown(rewrite_html(text@, source_dir@), source_dir@),
{
    let t = chars_of(text);
    let after_html = rewrite_html_image_srcs(&t, source_dir);
    let out = rewrite_markdown_images(&after_html, source_dir);
    string_of(&out)
}

proof fn lemma_find_absent(s: Seq<char>, p: Seq<char>, i: int)
    requires
        0 <= i,
        forall|j: int| 0 <= j ==> !#[trigger] matches_at(s, p, j),
    ensures
        find_from(s, p, i) is None,
    decreases s.len() + 1 - i,
{
    if i + p.len() <= s.len() {
        assert(!matches_at(s, p, i));
        lemma_find_absent(s, p, i + 1);
    }
}

/// Text with neither an `<img src="` tag nor a `![` image is left as it
/// is.
pub proof fn text_without_images_is_unchanged(text: Seq<char>, dir: Seq<char>)
    requires
        forall|j: int| 0 <= j ==> !#[trigger] matches_at(text, "<img src=\""@, j),
        forall|j: int| 0 <= j ==> !#[trigger] matches_at(text, "!["@, j),
    ensures
        rewrite_markdown(rewrite_html(text, dir), dir) == text,
{
    lemma_find_absent(text, "<img src=\""@, 0);
    lemma_find_absent(text, "!["@, 0);
}

} // verus!
