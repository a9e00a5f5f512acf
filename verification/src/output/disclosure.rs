//! The disclosure fold: the run-global registry of silent-failure classes, byte-identical on every
//! run, folded to its counts and a pointer to the one document that carries its prose. The counts
//! are counted off the registry the reply was handed, so a class added to the registry moves them.
use vstd::prelude::*;

use crate::text::{dec, owned, push_str, push_usize, str_eq};

verus! {

/// Where the full registry text is served to an MCP client.
pub const DISCLOSURE_RESOURCE: &'static str = "zzop://contract/disclosure-classes";

/// The terminal command that prints the full registry text.
pub const DISCLOSURE_COMMAND: &'static str = "zzop contract disclosure-classes";

/// The note's text between the class count and the gap count.
pub const NOTE_MIDDLE: &'static str = " known classes of silent failure in zzop's own output; ";

/// The note's text after the gap count.
pub const NOTE_TAIL: &'static str = " are only partially detected or not detected at all. Identical every run, so the full text ships once, not per call — read it with the command/resource below. Run-VARYING disclosure is already in this reply: `coverage` (incl. `joinContributionZero`) and `warnings`.";

/// How many entries carry the status `tok`.
pub open spec fn count_status(s: Seq<Option<String>>, tok: Seq<char>) -> nat
    decreases s.len(),
{
    if s.len() == 0 {
        0
    } else {
        count_status(s.drop_last(), tok) + match s.last() {
            Some(t) => if t@ == tok {
                1nat
            } else {
                0nat
            },
            None => 0nat,
        }
    }
}

/// The three statuses partition at most the registry: no class is counted twice, so the gap
/// the note states is never more than the classes there are.
pub proof fn law_statuses_partition_the_registry(s: Seq<Option<String>>)
    ensures
        count_status(s, "asserted"@) + count_status(s, "partial"@) + count_status(s, "notYetDetected"@) <= s.len(),
    decreases s.len(),
{
    if s.len() > 0 {
        law_statuses_partition_the_registry(s.drop_last());
        reveal_strlit("asserted");
        reveal_strlit("partial");
        reveal_strlit("notYetDetected");
        assert("asserted"@.len() != "partial"@.len());
        assert("asserted"@.len() != "notYetDetected"@.len());
        assert("partial"@.len() != "notYetDetected"@.len());
    }
}

/// The folded registry.
pub struct DisclosureFold {
    pub classes: usize,
    pub asserted: usize,
    pub partial: usize,
    pub not_yet_detected: usize,
    pub note: String,
    pub resource: String,
    pub command: String,
}

/// The note: how many classes there are, and how many of them are a gap.
pub open spec fn note_text(classes: nat, gaps: nat) -> Seq<char> {
    dec(classes) + NOTE_MIDDLE@ + dec(gaps) + NOTE_TAIL@
}

/// The statuses of the registry's entries, or none when the channel is not a list.
pub open spec fn statuses(registry: Option<&Vec<Option<String>>>) -> Seq<Option<String>> {
    match registry {
        Some(v) => v@,
        None => Seq::empty(),
    }
}

/// Folds the registry: its entries' statuses when the channel is a list (each `None` where an
/// entry carries no status text). A channel that is not a list folds to zero counts with the
/// pointer intact.
pub fn fold(registry: Option<&Vec<Option<String>>>) -> (r: DisclosureFold)
    ensures
        r.classes == statuses(registry).len(),
        r.asserted == count_status(statuses(registry), "asserted"@),
        r.partial == count_status(statuses(registry), "partial"@),
        r.not_yet_detected == count_status(statuses(registry), "notYetDetected"@),
        r.note@ == note_text(r.classes as nat, (r.partial + r.not_yet_detected) as nat),
        r.resource@ == DISCLOSURE_RESOURCE@,
        r.command@ == DISCLOSURE_COMMAND@,
{
    let empty: Vec<Option<String>> = Vec::new();
    let v: &Vec<Option<String>> = match registry {
        Some(v) => v,
        None => &empty,
    };
    let ghost s = statuses(registry);
    proof {
        assert(v@ == s);
    }
    let mut asserted: usize = 0;
    let mut partial: usize = 0;
    let mut not_yet: usize = 0;
    let mut i: usize = 0;
    while i < v.len()
        invariant
            i <= v@.len(),
            v@ == s,
            asserted == count_status(s.subrange(0, i as int), "asserted"@),
            partial == count_status(s.subrange(0, i as int), "partial"@),
            not_yet == count_status(s.subrange(0, i as int), "notYetDetected"@),
            asserted + partial + not_yet <= i,
        decreases v@.len() - i,
    {
        proof {
            assert(s.subrange(0, i + 1).drop_last() =~= s.subrange(0, i as int));
            reveal_strlit("asserted");
            reveal_strlit("partial");
            reveal_strlit("notYetDetected");
            assert("asserted"@.len() != "partial"@.len());
            assert("asserted"@.len() != "notYetDetected"@.len());
            assert("partial"@.len() != "notYetDetected"@.len());
        }
        match &v[i] {
            Some(t) => {
                if str_eq(t.as_str(), "asserted") {
                    asserted = asserted + 1;
                } else if str_eq(t.as_str(), "partial") {
                    partial = partial + 1;
                } else if str_eq(t.as_str(), "notYetDetected") {
                    not_yet = not_yet + 1;
                }
            },
            None => {},
        }
        i = i + 1;
    }
    proof {
        assert(s.subrange(0, v@.len() as int) =~= s);
    }
    let classes = v.len();
    let gaps = partial + not_yet;
    let mut note = String::new();
    push_usize(&mut note, classes);
    push_str(&mut note, NOTE_MIDDLE);
    push_usize(&mut note, gaps);
    push_str(&mut note, NOTE_TAIL);
    proof {
        assert(note@ =~= note_text(classes as nat, gaps as nat));
    }
    DisclosureFold {
        classes,
        asserted,
        partial,
        not_yet_detected: not_yet,
        note,
        resource: owned(DISCLOSURE_RESOURCE),
        command: owned(DISCLOSURE_COMMAND),
    }
}

} // verus!
