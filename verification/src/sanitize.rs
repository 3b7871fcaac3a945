//! Per-segment text sanitization: characters the remote endpoint cannot
//! take are replaced by ASCII-safe equivalents before a request is built.

use vstd::prelude::*;
use vstd::string::StrSliceExecFns;
use vstd::string::StringExecFns;

verus! {

/// The replacement for one character: reserved or multi-byte characters
/// become ASCII-safe text, everything else stays itself.
pub open spec fn expand_char(c: char) -> Seq<char> {
    if c == '+' {
        "plus"@
    } else if c == '&' {
        "and"@
    } else if c == '\u{e4}' {
        "ae"@
    } else if c == '\u{f6}' {
        "oe"@
    } else if c == '\u{fc}' {
        "ue"@
    } else if c == '\u{df}' {
        "ss"@
    } else {
        seq![c]
    }
}

/// The sanitized form of a text: each character replaced by its
/// ASCII-safe expansion, in order.
pub open spec fn sanitize_spec(s: Seq<char>) -> Seq<char>
    decreases s.len(),
{
    if s.len() == 0 {
        seq![]
    } else {
        expand_char(s[0]) + sanitize_spec(s.drop_first())
    }
}

/// Relies on `String::push` from std: appends the given character to the
/// end of the string.
#[verifier::external_body]
fn push_char(s: &mut String, c: char)
    ensures
        final(s)@ == old(s)@.push(c),
{
    s.push(c);
}

/// Replace every reserved or umlaut character of `text` by its
/// ASCII-safe equivalent, leaving all other characters untouched.
pub fn sanitize_text(text: &str) -> (r: String)
    ensures
        r@ == sanitize_spec(text@),
{
    let n = text.unicode_len();
    let mut out = String::new();
    let mut i: usize = 0;
    proof {
        assert(text@.skip(0) =~= text@);
        assert(out@ + sanitize_spec(text@) =~= sanitize_spec(text@));
    }
    while i < n
        invariant
            i <= n,
            n == text@.len(),
            sanitize_spec(text@) == out@ + sanitize_spec(text@.skip(i as int)),
        decreases n - i,
    {
        let c = text.get_char(i);
        let ghost pre = out@;
        if c == '+' {
            out.append("plus");
        } else if c == '&' {
            out.append("and");
        } else if c == '\u{e4}' {
            out.append("ae");
        } else if c == '\u{f6}' {
            out.append("oe");
        } else if c == '\u{fc}' {
            out.append("ue");
        } else if c == '\u{df}' {
            out.append("ss");
        } else {
            push_char(&mut out, c);
            proof {
                assert(out@ =~= pre + seq![c]);
            }
        }
        proof {
            let s = text@.skip(i as int);
            assert(s[0] == text@[i as int]);
            assert(s.drop_first() =~= text@.skip(i as int + 1));
            assert(out@ == pre + expand_char(text@[i as int]));
            assert(pre + expand_char(s[0]) + sanitize_spec(s.drop_first())
                =~= pre + (expand_char(s[0]) + sanitize_spec(s.drop_first())));
        }
        i = i + 1;
    }
    proof {
        assert(text@.skip(n as int) =~= Seq::<char>::empty());
        assert(out@ + sanitize_spec(text@.skip(n as int)) =~= out@);
    }
    out
}

} // verus!
