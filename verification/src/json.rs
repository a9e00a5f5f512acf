//! The one serialization this crate borrows from `serde_json`: a string as a JSON string literal
//! (quotes and escapes), which the reply texts and table rows embed.
use vstd::prelude::*;

use crate::output::rule_prose::template::strs;
use crate::text::push_str;

verus! {

/// A lowercase hexadecimal digit.
pub open spec fn hex_digit(n: int) -> char {
    if n < 10 {
        (48 + n) as char
    } else {
        (87 + n) as char
    }
}

/// How `serde_json` writes one character inside a string literal: `"` and `\` behind a
/// backslash; backspace, form feed, newline, carriage return and tab as `\b`, `\f`, `\n`,
/// `\r`, `\t`; any other character below 0x20 as `\u00` and two lowercase hex digits; every
/// other character as itself.
pub open spec fn json_escape(c: char) -> Seq<char> {
    if c == '"' {
        seq!['\\', '"']
    } else if c == '\\' {
        seq!['\\', '\\']
    } else if c == '\x08' {
        seq!['\\', 'b']
    } else if c == '\x0c' {
        seq!['\\', 'f']
    } else if c == '\n' {
        seq!['\\', 'n']
    } else if c == '\r' {
        seq!['\\', 'r']
    } else if c == '\t' {
        seq!['\\', 't']
    } else if (c as int) < 0x20 {
        seq!['\\', 'u', '0', '0', hex_digit(c as int / 16), hex_digit(c as int % 16)]
    } else {
        seq![c]
    }
}

/// The characters of `s`, each as `serde_json` writes it inside a string literal.
pub open spec fn json_escaped(s: Seq<char>) -> Seq<char>
    decreases s.len(),
{
    if s.len() == 0 {
        Seq::empty()
    } else {
        json_escaped(s.drop_last()) + json_escape(s.last())
    }
}

/// What `serde_json` writes for the string `s`: the JSON string literal, quoted and escaped.
pub open spec fn json_quoted(s: Seq<char>) -> Seq<char> {
    seq!['"'] + json_escaped(s) + seq!['"']
}

/// `serde_json::to_string` on a `&str`: the JSON string literal for `s`, quoted and escaped as
/// [`json_escape`] states (it cannot fail on a `&str`). Like every `String`, the result's byte
/// length fits a `usize`.
#[verifier::external_body]
pub(crate) fn json_string(s: &str) -> (r: String)
    ensures
        r@ == json_quoted(s@),
        crate::text::utf8_len(r@) <= usize::MAX,
{
    serde_json::to_string(s).unwrap_or_default()
}

/// JSON texts separated by commas, as the members of an array or object are written.
pub open spec fn comma_joined(items: Seq<Seq<char>>) -> Seq<char>
    decreases items.len(),
{
    if items.len() == 0 {
        Seq::empty()
    } else if items.len() == 1 {
        items[0]
    } else {
        comma_joined(items.drop_last()) + ","@ + items.last()
    }
}

/// Appends the texts of `items`, separated by commas.
pub fn push_joined(out: &mut String, items: &Vec<String>)
    ensures
        final(out)@ == old(out)@ + comma_joined(strs(items@)),
{
    let ghost start = out@;
    let mut i: usize = 0;
    while i < items.len()
        invariant
            i <= items@.len(),
            out@ == start + comma_joined(strs(items@.take(i as int))),
        decreases items@.len() - i,
    {
        proof {
            assert(strs(items@.take(i + 1)).drop_last() =~= strs(items@.take(i as int)));
            assert(strs(items@.take(i + 1)).last() == items@[i as int]@);
            if i == 0 {
                assert(strs(items@.take(1)) =~= seq![items@[0]@]);
                assert(strs(items@.take(0)) =~= Seq::<Seq<char>>::empty());
            }
        }
        if i > 0 {
            push_str(out, ",");
        }
        push_str(out, items[i].as_str());
        proof {
            if i == 0 {
                assert(out@ =~= start + comma_joined(strs(items@.take(1))));
            } else {
                assert(out@ =~= start + comma_joined(strs(items@.take(i + 1))));
            }
        }
        i = i + 1;
    }
    proof {
        assert(items@.take(items@.len() as int) =~= items@);
    }
}

} // verus!
