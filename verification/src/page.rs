//! The transcript page: the one server-rendered view, built from the
//! participant count, the response's script nonce, and the transcript.
//! Interpolated text is HTML-escaped, so a chat message can never inject
//! markup.

use vstd::prelude::*;
use crate::decimal::{spec_digits, push_digits};
use crate::text::push_str_chars;

verus! {

/// What the page is rendered from.
pub struct Template {
    pub nbusers: usize,
    pub nonce: Vec<char>,
    pub messages: Vec<Vec<char>>,
}

/// How one character is written inside HTML text or a quoted attribute.
pub open spec fn spec_html_escape_char(c: char) -> Seq<char> {
    if c == '&' {
        seq!['&', 'a', 'm', 'p', ';']
    } else if c == '<' {
        seq!['&', 'l', 't', ';']
    } else if c == '>' {
        seq!['&', 'g', 't', ';']
    } else if c == '"' {
        seq!['&', 'q', 'u', 'o', 't', ';']
    } else if c == '\'' {
        seq!['&', '#', '3', '9', ';']
    } else {
        seq![c]
    }
}

/// How a text is written inside HTML.
pub open spec fn spec_html_escape(s: Seq<char>) -> Seq<char>
    decreases s.len(),
{
    if s.len() == 0 {
        Seq::empty()
    } else {
        spec_html_escape_char(s[0]) + spec_html_escape(s.drop_first())
    }
}

/// HTML escaping distributes over concatenation.
proof fn lemma_html_escape_append(a: Seq<char>, b: Seq<char>)
    ensures
        spec_html_escape(a + b) == spec_html_escape(a) + spec_html_escape(b),
    decreases a.len(),
{
    if a.len() == 0 {
        assert(a + b =~= b);
        assert(spec_html_escape(a) + spec_html_escape(b) =~= spec_html_escape(b));
    } else {
        assert((a + b).drop_first() =~= a.drop_first() + b);
        lemma_html_escape_append(a.drop_first(), b);
        assert(spec_html_escape(a + b) =~= spec_html_escape(a) + spec_html_escape(b));
    }
}

proof fn lemma_html_escape_snoc(t: Seq<char>, c: char)
    ensures
        spec_html_escape(t.push(c)) == spec_html_escape(t) + spec_html_escape_char(c),
{
    lemma_html_escape_append(t, seq![c]);
    assert(t.push(c) =~= t + seq![c]);
    assert(seq![c].drop_first() =~= Seq::<char>::empty());
    assert(spec_html_escape(seq![c]) == spec_html_escape_char(seq![c][0]) + spec_html_escape(
        seq![c].drop_first(),
    ));
    assert(spec_html_escape(seq![c]) =~= spec_html_escape_char(c));
}

/// The list items of the transcript, one per message, escaped.
pub open spec fn spec_items(ms: Seq<Seq<char>>) -> Seq<char>
    decreases ms.len(),
{
    if ms.len() == 0 {
        Seq::empty()
    } else {
        "<li>"@ + spec_html_escape(ms[0]) + "</li>"@ + spec_items(ms.drop_first())
    }
}

/// The whole page for a participant count, a script nonce, and a
/// transcript.
pub open spec fn spec_render(nbusers: int, nonce: Seq<char>, ms: Seq<Seq<char>>) -> Seq<char> {
    "<!DOCTYPE html><html><head><meta charset=\"utf-8\"><title>chat</title></head><body><p>users: "@
        + spec_digits(nbusers) + "</p><ul>"@ + spec_items(ms) + "</ul><script nonce=\""@
        + spec_html_escape(nonce) + "\" src=\"/script.js\"></script></body></html>"@
}

/// Appends the HTML-escaped form of `s` to `out`.
fn push_html_escaped(out: &mut Vec<char>, s: &Vec<char>)
    ensures
        final(out)@ == old(out)@ + spec_html_escape(s@),
{
    let n = s.len();
    let mut i: usize = 0;
    while i < n
        invariant
            i <= n,
            n == s@.len(),
            out@ == old(out)@ + spec_html_escape(s@.take(i as int)),
        decreases n - i,
    {
        let c = s[i];
        if c == '&' {
            push_str_chars(out, "&amp;");
            proof {
                reveal_strlit("&amp;");
            }
        } else if c == '<' {
            push_str_chars(out, "&lt;");
            proof {
                reveal_strlit("&lt;");
            }
        } else if c == '>' {
            push_str_chars(out, "&gt;");
            proof {
                reveal_strlit("&gt;");
            }
        } else if c == '"' {
            push_str_chars(out, "&quot;");
            proof {
                reveal_strlit("&quot;");
            }
        } else if c == '\'' {
            push_str_chars(out, "&#39;");
            proof {
                reveal_strlit("&#39;");
            }
        } else {
            out.push(c);
        }
        proof {
            lemma_html_escape_snoc(s@.take(i as int), s@[i as int]);
            assert(s@.take(i + 1) =~= s@.take(i as int).push(s@[i as int]));
            assert(out@ =~= old(out)@ + spec_html_escape(s@.take(i + 1)));
        }
        i = i + 1;
    }
    proof {
        assert(s@.take(n as int) =~= s@);
    }
}

/// The rendered page.
pub fn render(t: &Template) -> (r: Vec<char>)
    ensures
        r@ == spec_render(t.nbusers as int, t.nonce@, t.messages@.map_values(|v: Vec<char>| v@)),
{
    let mut out: Vec<char> = Vec::new();
    push_str_chars(
        &mut out,
        "<!DOCTYPE html><html><head><meta charset=\"utf-8\"><title>chat</title></head><body><p>users: ",
    );
    push_digits(&mut out, t.nbusers);
    push_str_chars(&mut out, "</p><ul>");
    let ghost ms = t.messages@.map_values(|v: Vec<char>| v@);
    let ghost head = out@;
    let n = t.messages.len();
    let mut i: usize = 0;
    proof {
        assert(ms.skip(0) =~= ms);
    }
    while i < n
        invariant
            i <= n,
            n == t.messages@.len(),
            ms == t.messages@.map_values(|v: Vec<char>| v@),
            out@ + spec_items(ms.skip(i as int)) == head + spec_items(ms),
        decreases n - i,
    {
        let ghost before = out@;
        push_str_chars(&mut out, "<li>");
        push_html_escaped(&mut out, &t.messages[i]);
        push_str_chars(&mut out, "</li>");
        proof {
            let rest = ms.skip(i as int);
            assert(rest[0] == ms[i as int]);
            assert(ms[i as int] == t.messages@[i as int]@);
            assert(rest.drop_first() =~= ms.skip(i + 1));
            assert(out@ =~= before + ("<li>"@ + spec_html_escape(rest[0]) + "</li>"@));
            assert(out@ + spec_items(ms.skip(i + 1)) =~= before + spec_items(rest));
        }
        i = i + 1;
    }
    proof {
        assert(ms.skip(n as int) =~= Seq::<Seq<char>>::empty());
        assert(out@ =~= out@ + spec_items(ms.skip(n as int)));
    }
    push_str_chars(&mut out, "</ul><script nonce=\"");
    push_html_escaped(&mut out, &t.nonce);
    push_str_chars(&mut out, "\" src=\"/script.js\"></script></body></html>");
    proof {
        assert(out@ =~= spec_render(t.nbusers as int, t.nonce@, ms));
    }
    out
}

} // verus!
