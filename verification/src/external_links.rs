//! Markdown for external links, with YouTube videos embedded through Hugo's shortcode.

use vstd::prelude::*;
use crate::lexer::{ExternalLink, ExternalLinkV};
use crate::text::{self, push_char};

verus! {

/// The start of a YouTube watch url; the video id follows it.
pub const YOUTUBE_WATCH_URL: &'static str = "https://www.youtube.com/watch?v=";

/// The Hugo shortcode that embeds the video of a YouTube watch url; `None` for any
/// other url.
pub open spec fn youtube_shortcode(url: Seq<char>) -> Option<Seq<char>> {
    let p = YOUTUBE_WATCH_URL@;
    if p.len() <= url.len() && url.take(p.len() as int) == p {
        Some("{{< youtube id=\""@ + url.skip(p.len() as int) + "\" >}}"@)
    } else {
        None
    }
}

fn try_show_youtube(url: &str) -> (r: Option<String>)
    ensures
        match r {
            Some(s) => youtube_shortcode(url@) == Some(s@),
            None => youtube_shortcode(url@) is None,
        },
{
    let u = text::chars_of(url);
    let p = text::chars_of(YOUTUBE_WATCH_URL);
    if u.len() < p.len() {
        return None;
    }
    let mut i: usize = 0;
    while i < p.len()
        invariant
            u@ == url@,
            p@ == YOUTUBE_WATCH_URL@,
            p@.len() <= u@.len(),
            i <= p@.len(),
            u@.take(i as int) == p@.take(i as int),
        decreases p.len() - i,
    {
        if u[i] != p[i] {
            assert(u@.take(p@.len() as int)[i as int] != p@[i as int]);
            return None;
        }
        i = i + 1;
        assert(u@.take(i as int) =~= u@.take(i - 1).push(u@[i - 1]));
        assert(p@.take(i as int) =~= p@.take(i - 1).push(p@[i - 1]));
    }
    assert(p@.take(p@.len() as int) =~= p@);
    let id = text::string_of(&u, p.len(), u.len());
    let mut s = String::from_str("{{< youtube id=\"");
    s.append(id.as_str());
    s.append("\" >}}");
    assert(u@.skip(p@.len() as int) =~= u@.subrange(p@.len() as int, u@.len() as int));
    Some(s)
}

/// The markdown of an external link: `[label](url)`, or, for a rendered link, the
/// video shortcode of a YouTube url or the image `![label](url)`.
pub open spec fn external_link_markdown(l: ExternalLinkV) -> Seq<char> {
    let label = if l.show_how.len() == 0 {
        l.url
    } else {
        l.show_how
    };
    if !l.render {
        seq!['['] + label + seq![']', '('] + l.url + seq![')']
    } else {
        match youtube_shortcode(l.url) {
            Some(s) => s,
            None => seq!['!', '['] + label + seq![']', '('] + l.url + seq![')'],
        }
    }
}

/// The markdown of an external link; see `external_link_markdown`.
pub fn format_external_link(link: &ExternalLink) -> (s: String)
    ensures
        s@ == external_link_markdown(link@),
{
    // Normal links go unchanged
    if !link.render {
        let mut s = String::new();
        push_char(&mut s, '[');
        s.append(link.label());
        push_char(&mut s, ']');
        push_char(&mut s, '(');
        s.append(link.url.as_str());
        push_char(&mut s, ')');
        assert(s@ =~= external_link_markdown(link@));
        return s;
    }
    let url = link.url.as_str();
    match try_show_youtube(url) {
        Some(s) => return s,
        None => {},
    }
    // Assume that the link is an image
    let mut s = String::new();
    push_char(&mut s, '!');
    push_char(&mut s, '[');
    s.append(link.label());
    push_char(&mut s, ']');
    push_char(&mut s, '(');
    s.append(url);
    push_char(&mut s, ')');
    assert(s@ =~= external_link_markdown(link@));
    s
}

} // verus!

verus! {

/// A rendered link to a YouTube video becomes the Hugo shortcode that embeds the video
/// whose id follows the watch url, whatever its label: two such links that differ only
/// in their labels give the same markdown.
pub proof fn lemma_rendered_youtube_is_shortcode(l: ExternalLinkV, l2: ExternalLinkV, id: Seq<char>)
    requires
        l.render,
        l.url == YOUTUBE_WATCH_URL@ + id,
        l2.render,
        l2.url == l.url,
    ensures
        external_link_markdown(l) == "{{< youtube id=\""@ + id + "\" >}}"@,
        external_link_markdown(l2) == external_link_markdown(l),
{
    let p = YOUTUBE_WATCH_URL@;
    assert(l.url.take(p.len() as int) =~= p);
    assert(l.url.skip(p.len() as int) =~= id);
}

/// A plain link is `[label](url)`, its label being the text shown, or the url when no
/// text is given; a rendered link to anything but a YouTube video is the image
/// `![label](url)`.
pub proof fn lemma_plain_and_image_links(l: ExternalLinkV)
    ensures
        ({
            let label = if l.show_how.len() == 0 { l.url } else { l.show_how };
            &&& !l.render ==> external_link_markdown(l) == "["@ + label + "]("@ + l.url + ")"@
            &&& l.render && youtube_shortcode(l.url) is None ==> external_link_markdown(l) == "!["@ + label
                + "]("@ + l.url + ")"@
        }),
{
    reveal_strlit("[");
    reveal_strlit("](");
    reveal_strlit(")");
    reveal_strlit("![");
    let label = if l.show_how.len() == 0 { l.url } else { l.show_how };
    assert(seq!['['] + label + seq![']', '('] + l.url + seq![')'] =~= "["@ + label + "]("@ + l.url + ")"@);
    assert(seq!['!', '['] + label + seq![']', '('] + l.url + seq![')'] =~= "!["@ + label + "]("@ + l.url
        + ")"@);
}

} // verus!
