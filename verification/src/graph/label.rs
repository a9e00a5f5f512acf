//! Labels shared by the per-domain pictures: a path, qualified by its tree when a run has several,
//! with double quotes turned into single ones so the text cannot end a quoted mermaid label.
use vstd::prelude::*;

use crate::text::{chars_of, owned, push_char, push_str};

verus! {

broadcast use vstd::seq_lib::group_seq_properties;

/// `s` with every double quote turned into a single quote.
pub open spec fn swap_quotes(s: Seq<char>) -> Seq<char> {
    s.map_values(|c: char| if c == '"' { '\'' } else { c })
}

/// `source::rest` when the run has several trees, else `rest`.
pub open spec fn qualified(multi: bool, source: Seq<char>, rest: Seq<char>) -> Seq<char> {
    if multi {
        source + "::"@ + rest
    } else {
        rest
    }
}

/// Appends `s` with its double quotes turned into single quotes.
pub fn push_swapped(out: &mut String, s: &str)
    ensures
        final(out)@ == old(out)@ + swap_quotes(s@),
{
    let cs = chars_of(s);
    let ghost start = out@;
    let mut i: usize = 0;
    while i < cs.len()
        invariant
            i <= cs@.len(),
            cs@ == s@,
            out@ == start + swap_quotes(s@.take(i as int)),
        decreases cs@.len() - i,
    {
        let c = cs[i];
        push_char(out, if c == '"' { '\'' } else { c });
        proof {
            assert(s@.take(i + 1) =~= s@.take(i as int).push(c));
            assert(swap_quotes(s@.take(i + 1)) =~= swap_quotes(s@.take(i as int)).push(if c == '"' { '\'' } else { c }));
        }
        i = i + 1;
    }
    proof {
        assert(s@.take(cs@.len() as int) =~= s@);
    }
}

/// Appends the quote-safe label of `rest` in tree `source`.
pub fn push_label(out: &mut String, multi: bool, source: &str, rest: &str)
    ensures
        final(out)@ == old(out)@ + swap_quotes(qualified(multi, source@, rest@)),
{
    if multi {
        let mut base = owned(source);
        push_str(&mut base, "::");
        push_str(&mut base, rest);
        push_swapped(out, base.as_str());
    } else {
        push_swapped(out, rest);
    }
}

} // verus!
