use obsidian_hugo::external_links::format_external_link;
use obsidian_hugo::lexer::ExternalLink;

fn link(url: &str, show_how: &str, render: bool) -> ExternalLink {
    ExternalLink { url: url.to_string(), show_how: show_how.to_string(), render }
}

#[test]
fn plain_links_keep_their_label() {
    assert_eq!(format_external_link(&link("http://x.y", "site", false)), "[site](http://x.y)");
    assert_eq!(format_external_link(&link("http://x.y", "", false)), "[http://x.y](http://x.y)");
}

#[test]
fn plain_youtube_links_are_not_embedded() {
    let url = "https://www.youtube.com/watch?v=abc";
    assert_eq!(format_external_link(&link(url, "v", false)), format!("[v]({})", url));
}

#[test]
fn rendered_youtube_links_become_shortcodes() {
    let url = "https://www.youtube.com/watch?v=dQw4w9WgXcQ";
    assert_eq!(format_external_link(&link(url, "", true)), "{{< youtube id=\"dQw4w9WgXcQ\" >}}");
}

#[test]
fn rendered_links_become_images() {
    assert_eq!(format_external_link(&link("pic.png", "", true)), "![pic.png](pic.png)");
    assert_eq!(format_external_link(&link("pic.png", "alt", true)), "![alt](pic.png)");
    assert_eq!(
        format_external_link(&link("https://www.youtube.com/watch", "", true)),
        "![https://www.youtube.com/watch](https://www.youtube.com/watch)"
    );
}
