use north_pole::markup::{custom_escape, html_page, safe_page};

#[test]
fn day_14_task1() {
    assert_eq!(
        html_page("<h1>Welcome to the North Pole!</h1>"),
        r"<html>
  <head>
    <title>CCH23 Day 14</title>
  </head>
  <body>
    <h1>Welcome to the North Pole!</h1>
  </body>
</html>"
    );
}

#[test]
fn day_14_task2() {
    assert_eq!(
        safe_page("<script>alert(\"XSS Attack!\")</script>"),
        r"<html>
  <head>
    <title>CCH23 Day 14</title>
  </head>
  <body>
    &lt;script&gt;alert(&quot;XSS Attack!&quot;)&lt;/script&gt;
  </body>
</html>"
    );
}

#[test]
fn escape_replaces_each_of_the_five() {
    assert_eq!(custom_escape("&"), "&amp;");
    assert_eq!(custom_escape("<"), "&lt;");
    assert_eq!(custom_escape(">"), "&gt;");
    assert_eq!(custom_escape("\""), "&quot;");
    assert_eq!(custom_escape("'"), "&#x27;");
    assert_eq!(custom_escape(""), "");
    assert_eq!(custom_escape("plain text, no change"), "plain text, no change");
}

#[test]
fn escape_is_the_five_replacements_in_turn() {
    let inputs = ["a&b<c>d\"e'f", "&amp;", "&&<<>>", "é<ü>🎁&", "'&#x27;'", "x"];
    for input in inputs {
        let direct = input
            .replace("&", "&amp;")
            .replace("<", "&lt;")
            .replace(">", "&gt;")
            .replace("\"", "&quot;")
            .replace("'", "&#x27;");
        assert_eq!(custom_escape(input), direct);
    }
    assert_eq!(custom_escape("&amp;"), "&amp;amp;");
    assert_eq!(custom_escape("é<ü>🎁&"), "é&lt;ü&gt;🎁&amp;");
}

#[test]
fn escaped_text_holds_no_markup() {
    let out = custom_escape("<a href='x' title=\"y\">&</a>");
    assert!(!out.contains('<') && !out.contains('>') && !out.contains('"') && !out.contains('\''));
}
