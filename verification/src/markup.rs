//! Text that is safe to put into a page, and the page around it.

use crate::text::push_char;
use vstd::prelude::*;
use vstd::std_specs::iter::IteratorSpec;
use vstd::string::StringExecFns;

verus! {

/// What stands for one character in escaped text: the entity of `&`, `<`,
/// `>`, `"` and `'`, and the character itself for every other.
pub open spec fn escaped_char(c: char) -> Seq<char> {
    if c == '&' {
        seq!['&', 'a', 'm', 'p', ';']
    } else if c == '<' {
        seq!['&', 'l', 't', ';']
    } else if c == '>' {
        seq!['&', 'g', 't', ';']
    } else if c == '"' {
        seq!['&', 'q', 'u', 'o', 't', ';']
    } else if c == '\'' {
        seq!['&', '#', 'x', '2', '7', ';']
    } else {
        seq![c]
    }
}

/// A text with each of its characters escaped.
pub open spec fn escaped(text: Seq<char>) -> Seq<char>
    decreases text.len(),
{
    if text.len() == 0 {
        Seq::empty()
    } else {
        escaped(text.drop_last()) + escaped_char(text.last())
    }
}

/// Escaped text holds none of the characters that open or close a tag or
/// a quoted value.
pub proof fn lemma_escaped_is_inert(text: Seq<char>)
    ensures
        forall|i: int|
            0 <= i < escaped(text).len() ==> {
                let c = #[trigger] escaped(text)[i];
                c != '<' && c != '>' && c != '"' && c != '\''
            },
    decreases text.len(),
{
    if text.len() > 0 {
        lemma_escaped_is_inert(text.drop_last());
        let front = escaped(text.drop_last());
        let tail = escaped_char(text.last());
        assert forall|i: int| 0 <= i < escaped(text).len() implies {
            let c = #[trigger] escaped(text)[i];
            c != '<' && c != '>' && c != '"' && c != '\''
        } by {
            if i < front.len() {
                assert(escaped(text)[i] == front[i]);
            } else {
                assert(escaped(text)[i] == tail[i - front.len()]);
            }
        }
    }
}

/// Escapes `&`, `<`, `>`, `"` and `'` in `input`.
pub fn custom_escape(input: &str) -> (out: String)
    ensures
        out@ == escaped(input@),
{
    broadcast use vstd::string::group_string_axioms;

    let mut out = String::new();
    let mut rest = input.chars();
    let ghost mut i: int = 0;
    proof {
        reveal_strlit("&amp;");
        reveal_strlit("&lt;");
        reveal_strlit("&gt;");
        reveal_strlit("&quot;");
        reveal_strlit("&#x27;");
        assert(input@.take(0) =~= Seq::empty());
    }
    loop
        invariant
            0 <= i <= input@.len(),
            rest.remaining() == input@.skip(i),
            out@ == escaped(input@.take(i)),
            "&amp;"@ == seq!['&', 'a', 'm', 'p', ';'],
            "&lt;"@ == seq!['&', 'l', 't', ';'],
            "&gt;"@ == seq!['&', 'g', 't', ';'],
            "&quot;"@ == seq!['&', 'q', 'u', 'o', 't', ';'],
            "&#x27;"@ == seq!['&', '#', 'x', '2', '7', ';'],
        decreases input@.len() - i,
    {
        match rest.next() {
            None => {
                proof {
                    assert(input@.take(i) =~= input@);
                }
                return out;
            },
            Some(c) => {
                proof {
                    assert(input@.skip(i).drop_first() == input@.skip(i + 1));
                    assert(input@.take(i + 1).drop_last() =~= input@.take(i));
                    assert(input@.take(i + 1).last() == c);
                }
                if c == '&' {
                    out.append("&amp;");
                } else if c == '<' {
                    out.append("&lt;");
                } else if c == '>' {
                    out.append("&gt;");
                } else if c == '"' {
                    out.append("&quot;");
                } else if c == '\'' {
                    out.append("&#x27;");
                } else {
                    push_char(&mut out, c);
                }
                proof {
                    assert(out@ =~= escaped(input@.take(i)) + escaped_char(c));
                    i = i + 1;
                }
            },
        }
    }
}

/// What stands before the body of a page.
pub const PAGE_HEAD: &'static str =
    "<html>\n  <head>\n    <title>CCH23 Day 14</title>\n  </head>\n  <body>\n    ";

/// What stands behind the body of a page.
pub const PAGE_TAIL: &'static str = "\n  </body>\n</html>";

/// The page with `body` as its body, taken as it is.
pub fn html_page(body: &str) -> (page: String)
    ensures
        page@ == PAGE_HEAD@ + body@ + PAGE_TAIL@,
{
    let mut page = String::new();
    page.append(PAGE_HEAD);
    page.append(body);
    page.append(PAGE_TAIL);
    assert(page@ =~= PAGE_HEAD@ + body@ + PAGE_TAIL@);
    page
}

/// The page with `body` as its body, escaped.
pub fn safe_page(body: &str) -> (page: String)
    ensures
        page@ == PAGE_HEAD@ + escaped(body@) + PAGE_TAIL@,
{
    let inert = custom_escape(body);
    html_page(inert.as_str())
}

} // verus!
