//! Making arbitrary source text safe inside a mermaid label: whitespace runs collapse to one space
//! (a newline would end the statement) and the label's structural characters become entity codes.
use vstd::prelude::*;

use crate::text::{chars_of, is_whitespace, is_ws, push_char, push_str};

verus! {

broadcast use vstd::seq_lib::group_seq_properties;

/// `s`'s words joined by single spaces, where `started` says a word was already emitted and
/// `pending` that whitespace followed it.
pub open spec fn collapse_from(s: Seq<char>, started: bool, pending: bool) -> Seq<char>
    decreases s.len(),
{
    if s.len() == 0 {
        Seq::empty()
    } else if is_ws(s[0]) {
        collapse_from(s.drop_first(), started, started)
    } else {
        (if pending {
            seq![' ']
        } else {
            Seq::empty()
        }) + seq![s[0]] + collapse_from(s.drop_first(), true, false)
    }
}

/// The whitespace-separated words of `s` joined by single spaces.
pub open spec fn collapse_ws(s: Seq<char>) -> Seq<char> {
    collapse_from(s, false, false)
}

/// One character as a mermaid label carries it.
pub open spec fn esc_char(c: char) -> Seq<char> {
    if c == '#' {
        "#35;"@
    } else if c == '"' {
        "#quot;"@
    } else if c == '<' {
        "#lt;"@
    } else if c == '>' {
        "#gt;"@
    } else {
        seq![c]
    }
}

/// Every character of `s` as a label carries it.
pub open spec fn esc_all(s: Seq<char>) -> Seq<char>
    decreases s.len(),
{
    if s.len() == 0 {
        Seq::empty()
    } else {
        esc_all(s.drop_last()) + esc_char(s.last())
    }
}

/// `s` made safe inside a mermaid label.
pub open spec fn escape_text(s: Seq<char>) -> Seq<char> {
    esc_all(collapse_ws(s))
}

proof fn lemma_collapse_step(s: Seq<char>, i: int, started: bool, pending: bool)
    requires
        0 <= i < s.len(),
    ensures
        collapse_from(s.skip(i), started, pending) == if is_ws(s[i]) {
            collapse_from(s.skip(i + 1), started, started)
        } else {
            (if pending {
                seq![' ']
            } else {
                Seq::empty()
            }) + seq![s[i]] + collapse_from(s.skip(i + 1), true, false)
        },
{
    assert(s.skip(i).drop_first() =~= s.skip(i + 1));
    assert(s.skip(i)[0] == s[i]);
}

/// [`escape_text`].
pub fn escape(s: &str) -> (r: String)
    ensures
        r@ == escape_text(s@),
{
    let cs = chars_of(s);
    let mut col: Vec<char> = Vec::new();
    let mut started = false;
    let mut pending = false;
    let mut i: usize = 0;
    while i < cs.len()
        invariant
            cs@ == s@,
            i <= cs@.len(),
            col@ + collapse_from(cs@.skip(i as int), started, pending) == collapse_ws(cs@),
        decreases cs@.len() - i,
    {
        proof {
            lemma_collapse_step(cs@, i as int, started, pending);
        }
        let c = cs[i];
        let ghost before = col@;
        let ghost was_pending = pending;
        let ghost was_started = started;
        if is_whitespace(c) {
            pending = started;
        } else {
            if pending {
                col.push(' ');
            }
            col.push(c);
            started = true;
            pending = false;
            proof {
                let lead: Seq<char> = if was_pending {
                    seq![' ']
                } else {
                    Seq::empty()
                };
                assert(col@ =~= before + lead + seq![c]);
                assert(before + (lead + seq![c] + collapse_from(cs@.skip(i + 1), true, false)) =~= col@
                    + collapse_from(cs@.skip(i + 1), true, false));
            }
        }
        i = i + 1;
    }
    proof {
        assert(cs@.skip(i as int) =~= Seq::<char>::empty());
        assert(col@ == collapse_ws(s@));
    }
    let mut out = String::new();
    let mut k: usize = 0;
    while k < col.len()
        invariant
            k <= col@.len(),
            out@ == esc_all(col@.take(k as int)),
        decreases col@.len() - k,
    {
        proof {
            assert(col@.take(k + 1).drop_last() =~= col@.take(k as int));
        }
        let c = col[k];
        if c == '#' {
            push_str(&mut out, "#35;");
        } else if c == '"' {
            push_str(&mut out, "#quot;");
        } else if c == '<' {
            push_str(&mut out, "#lt;");
        } else if c == '>' {
            push_str(&mut out, "#gt;");
        } else {
            push_char(&mut out, c);
            proof {
                assert(out@ =~= esc_all(col@.take(k as int)) + seq![c]);
            }
        }
        k = k + 1;
    }
    proof {
        assert(col@.take(k as int) =~= col@);
    }
    out
}

} // verus!
