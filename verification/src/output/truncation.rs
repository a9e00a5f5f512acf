//! What a cap cut, said out loud: `{shown, totalMatching, hint}` for a fixed-cap list, and on the
//! findings lane also the severity bands the cut removed outright — each with its exact row count,
//! how many distinct rules those rows came from, and its first few rows as anchors.
use vstd::prelude::*;

use super::census::{census, is_census, law_census_is_unique, lemma_census_len_le, lemma_tally_witness, KeyCount};
use super::finding::{opt_chars, sev_text, Finding};
use super::MAX_LIMIT;
use crate::text::{chars_eq, dec, owned, push_str, push_usize, string_of};

verus! {

broadcast use vstd::seq_lib::group_seq_properties;

/// How many rows of a silenced severity ride along as anchors.
pub const FIRST_OMITTED_ANCHORS: usize = 3;

/// `{shown, totalMatching, hint}`.
pub struct PlainTruncation {
    pub shown: usize,
    pub total_matching: usize,
    pub hint: String,
}

/// One severity band the cut removed entirely: its exact row count, the number of distinct rule
/// ids among those rows, and the positions in `findings` of its first rows, in window order.
pub struct SilencedBand {
    pub severity: String,
    pub count: usize,
    pub rule_count: usize,
    pub first_omitted: Vec<usize>,
}

/// The findings lane's disclosure.
pub struct FindingsTruncation {
    pub shown: usize,
    pub total_matching: usize,
    pub hint: String,
    /// In ascending severity-text order.
    pub severities_not_shown: Vec<SilencedBand>,
    pub meaning: String,
}

/// The fixed-cap lane's disclosure, the caller's hint echoed verbatim.
pub fn plain(shown: usize, total_matching: usize, hint: &str) -> (r: PlainTruncation)
    ensures
        r.shown == shown,
        r.total_matching == total_matching,
        r.hint@ == hint@,
{
    PlainTruncation { shown, total_matching, hint: owned(hint) }
}

/// The remedy sentence, true at the limit it is emitted for: at the ceiling, raising the limit is
/// no longer a remedy.
pub open spec fn hint_text(limit: nat) -> Seq<char> {
    if limit >= MAX_LIMIT {
        "narrow by severity or rule — `limit` is already at its maximum of "@ + dec(
            MAX_LIMIT as nat,
        ) + " and a larger value is a usage error, so the cap cannot be moved further"@
    } else {
        "narrow by severity or rule, or raise the limit (`limit` tops out at "@ + dec(
            MAX_LIMIT as nat,
        ) + ")"@
    }
}

/// The findings lane's remedy sentence.
pub fn hint(limit: usize) -> (r: String)
    ensures
        r@ == hint_text(limit as nat),
{
    if limit >= MAX_LIMIT {
        let mut s = owned("narrow by severity or rule — `limit` is already at its maximum of ");
        push_usize(&mut s, MAX_LIMIT);
        push_str(
            &mut s,
            " and a larger value is a usage error, so the cap cannot be moved further",
        );
        s
    } else {
        let mut s = owned("narrow by severity or rule, or raise the limit (`limit` tops out at ");
        push_usize(&mut s, MAX_LIMIT);
        push_str(&mut s, ")");
        s
    }
}

/// The legend of `severitiesNotShown` before the anchor cap it quotes.
pub const NOT_SHOWN_MEANING_HEAD: &'static str = "severities with at least one finding in the set this cap was applied to (after any `severity`/`rule` filter) and zero rows in `shown` — the cut took every one of them, so this list is invisible in `shown` and present in the counts above. Exact over that set. `bySeverity` above is the unfiltered census and never shrinks with a filter, so the two answer different questions. An empty object means the cut silenced no severity entirely; a severity merely thinned by the cut is not listed here. `ruleCounts` gives, for each, how many DISTINCT RULES those rows came from -- exact, and a different fact from the row count beside it: a band of thirty rows drawn from nineteen rules is not a few noisy rules. `firstOmitted` carries, for each of those severities, its first cut rows as `ruleId`/`file`/`line` in the same order `shown` uses — so a run whose exit code turned on a severity nothing in `shown` carries still names sites the reader can open. It is a SAMPLE, at most ";

/// The legend of `severitiesNotShown` after the anchor cap.
pub const NOT_SHOWN_MEANING_TAIL: &'static str = " rows per severity; `counts` is the exact number and narrowing by that severity reaches every one of them.";

/// The legend of `severitiesNotShown`.
pub open spec fn not_shown_meaning_text() -> Seq<char> {
    NOT_SHOWN_MEANING_HEAD@ + dec(FIRST_OMITTED_ANCHORS as nat) + NOT_SHOWN_MEANING_TAIL@
}

/// Some finding of `shown` carries severity `s`.
pub open spec fn shown_has(fs: Seq<Finding>, shown: Seq<usize>, s: Seq<char>) -> bool {
    exists|k: int| 0 <= k < shown.len() && sev_text(fs[(#[trigger] shown[k]) as int]) == s
}

/// The severities of the cut rows whose severity has no row in `shown`, one entry per row.
pub open spec fn silenced(fs: Seq<Finding>, shown: Seq<usize>, tail: Seq<usize>) -> Seq<Seq<char>>
    decreases tail.len(),
{
    if tail.len() == 0 {
        Seq::empty()
    } else {
        let r = silenced(fs, shown, tail.drop_last());
        let s = sev_text(fs[tail.last() as int]);
        if shown_has(fs, shown, s) {
            r
        } else {
            r.push(s)
        }
    }
}

/// The rows of `tail` with severity `s`, in order.
pub open spec fn band_rows(fs: Seq<Finding>, tail: Seq<usize>, s: Seq<char>) -> Seq<usize>
    decreases tail.len(),
{
    if tail.len() == 0 {
        Seq::empty()
    } else {
        let r = band_rows(fs, tail.drop_last(), s);
        if sev_text(fs[tail.last() as int]) == s {
            r.push(tail.last())
        } else {
            r
        }
    }
}

/// The rule ids of `rows` that carry one, in order.
pub open spec fn rule_texts(fs: Seq<Finding>, rows: Seq<usize>) -> Seq<Seq<char>>
    decreases rows.len(),
{
    if rows.len() == 0 {
        Seq::empty()
    } else {
        let r = rule_texts(fs, rows.drop_last());
        match fs[rows.last() as int].rule_id {
            Some(id) => r.push(id@),
            None => r,
        }
    }
}

/// `b` describes severity `s` over the cut rows `tail`.
pub open spec fn band_is(fs: Seq<Finding>, tail: Seq<usize>, s: Seq<char>, b: SilencedBand) -> bool {
    let rows = band_rows(fs, tail, s);
    &&& b.severity@ == s
    &&& b.count == rows.len()
    &&& b.first_omitted@ == rows.take(
        if rows.len() < FIRST_OMITTED_ANCHORS {
            rows.len() as int
        } else {
            FIRST_OMITTED_ANCHORS as int
        },
    )
    &&& exists|rc: Seq<KeyCount>| #[trigger] is_census(rule_texts(fs, rows), rc) && rc.len() == b.rule_count
}

/// Whether some shown row carries severity `s`.
fn shown_carries(fs: &Vec<Finding>, ordered: &Vec<usize>, limit: usize, s: &Vec<char>) -> (r: bool)
    requires
        limit <= ordered@.len(),
        forall|k: int| 0 <= k < ordered@.len() ==> (#[trigger] ordered@[k]) < fs@.len(),
    ensures
        r == shown_has(fs@, ordered@.take(limit as int), s@),
{
    let mut k: usize = 0;
    while k < limit
        invariant
            limit <= ordered@.len(),
            forall|q: int| 0 <= q < ordered@.len() ==> (#[trigger] ordered@[q]) < fs@.len(),
            k <= limit,
            forall|q: int| 0 <= q < k ==> sev_text(fs@[(#[trigger] ordered@[q]) as int]) != s@,
        decreases limit - k,
    {
        let sev = opt_chars(&fs[ordered[k]].severity);
        if chars_eq(&sev, s) {
            proof {
                assert(ordered@.take(limit as int)[k as int] == ordered@[k as int]);
            }
            return true;
        }
        k = k + 1;
    }
    proof {
        if shown_has(fs@, ordered@.take(limit as int), s@) {
            let q = choose|q: int| 0 <= q < limit && sev_text(fs@[(#[trigger] ordered@.take(limit as int)[q]) as int]) == s@;
            assert(ordered@.take(limit as int)[q] == ordered@[q]);
        }
    }
    false
}

/// The rows of the cut tail with severity `s`, and the number of distinct rule ids among them.
fn band_of(fs: &Vec<Finding>, ordered: &Vec<usize>, limit: usize, s: &String) -> (r: SilencedBand)
    requires
        limit <= ordered@.len(),
        forall|k: int| 0 <= k < ordered@.len() ==> (#[trigger] ordered@[k]) < fs@.len(),
    ensures
        band_is(fs@, ordered@.skip(limit as int), s@, r),
{
    let ghost tail = ordered@.skip(limit as int);
    let sc = crate::text::chars_of(s.as_str());
    let mut rows: Vec<usize> = Vec::new();
    let mut j: usize = limit;
    while j < ordered.len()
        invariant
            limit <= j <= ordered@.len(),
            tail == ordered@.skip(limit as int),
            sc@ == s@,
            forall|k: int| 0 <= k < ordered@.len() ==> (#[trigger] ordered@[k]) < fs@.len(),
            rows@ == band_rows(fs@, tail.take(j - limit), s@),
            forall|q: int| 0 <= q < rows@.len() ==> (#[trigger] rows@[q]) < fs@.len(),
        decreases ordered@.len() - j,
    {
        proof {
            assert(tail.take(j - limit + 1).drop_last() =~= tail.take(j - limit));
            assert(tail.take(j - limit + 1).last() == ordered@[j as int]);
        }
        let idx = ordered[j];
        let sev = opt_chars(&fs[idx].severity);
        if chars_eq(&sev, &sc) {
            rows.push(idx);
        }
        j = j + 1;
    }
    proof {
        assert(tail.take(ordered@.len() - limit) =~= tail);
    }
    let mut ids: Vec<String> = Vec::new();
    let mut m: usize = 0;
    while m < rows.len()
        invariant
            m <= rows@.len(),
            forall|q: int| 0 <= q < rows@.len() ==> (#[trigger] rows@[q]) < fs@.len(),
            ids@.map_values(|x: String| x@) == rule_texts(fs@, rows@.take(m as int)),
        decreases rows@.len() - m,
    {
        proof {
            assert(rows@.take(m + 1).drop_last() =~= rows@.take(m as int));
            assert(rows@.take(m + 1).last() == rows@[m as int]);
        }
        let ghost before = ids@;
        match &fs[rows[m]].rule_id {
            Some(id) => {
                ids.push(id.clone());
                proof {
                    assert(ids@.map_values(|x: String| x@) =~= before.map_values(|x: String| x@).push(id@));
                }
            },
            None => {},
        }
        m = m + 1;
    }
    proof {
        assert(rows@.take(rows@.len() as int) =~= rows@);
    }
    let rc = census(&ids);
    let k = if rows.len() < FIRST_OMITTED_ANCHORS {
        rows.len()
    } else {
        FIRST_OMITTED_ANCHORS
    };
    let mut first: Vec<usize> = Vec::new();
    let mut q: usize = 0;
    while q < k
        invariant
            k <= rows@.len(),
            q <= k,
            first@ == rows@.take(q as int),
        decreases k - q,
    {
        first.push(rows[q]);
        q = q + 1;
    }
    let band = SilencedBand {
        severity: s.clone(),
        count: rows.len(),
        rule_count: rc.len(),
        first_omitted: first,
    };
    proof {
        assert(is_census(rule_texts(fs@, rows@), rc@));
    }
    band
}

/// The findings lane's disclosure for window order `ordered` cut at `limit`: the cap, the matching
/// count, the remedy sentence, and one band per severity the cut silenced, in severity-text order.
pub open spec fn truncation_is(fs: Seq<Finding>, ordered: Seq<usize>, limit: usize, r: FindingsTruncation) -> bool {
    &&& r.shown == limit
    &&& r.total_matching == ordered.len()
    &&& r.hint@ == hint_text(limit as nat)
    &&& r.meaning@ == not_shown_meaning_text()
    &&& exists|bands: Seq<KeyCount>|
        #[trigger] is_census(silenced(fs, ordered.take(limit as int), ordered.skip(limit as int)), bands)
            && r.severities_not_shown@.len() == bands.len() && forall|i: int|
            0 <= i < bands.len() ==> band_is(
                fs,
                ordered.skip(limit as int),
                bands[i].key@,
                #[trigger] r.severities_not_shown@[i],
            )
}

/// The findings lane's disclosure. `ordered` is every matching finding's position in final window
/// order, so its first `limit` entries are exactly `shown` and the rest are exactly what the cut
/// took. Called only when the cut bit.
pub fn findings(fs: &Vec<Finding>, ordered: &Vec<usize>, limit: usize) -> (r: FindingsTruncation)
    requires
        limit < ordered@.len(),
        forall|k: int| 0 <= k < ordered@.len() ==> (#[trigger] ordered@[k]) < fs@.len(),
    ensures
        truncation_is(fs@, ordered@, limit, r),
{
    let ghost shown = ordered@.take(limit as int);
    let ghost tail = ordered@.skip(limit as int);
    let mut sil: Vec<String> = Vec::new();
    let mut j: usize = limit;
    while j < ordered.len()
        invariant
            limit <= j <= ordered@.len(),
            shown == ordered@.take(limit as int),
            tail == ordered@.skip(limit as int),
            forall|k: int| 0 <= k < ordered@.len() ==> (#[trigger] ordered@[k]) < fs@.len(),
            sil@.map_values(|x: String| x@) == silenced(fs@, shown, tail.take(j - limit)),
        decreases ordered@.len() - j,
    {
        proof {
            assert(tail.take(j - limit + 1).drop_last() =~= tail.take(j - limit));
            assert(tail.take(j - limit + 1).last() == ordered@[j as int]);
        }
        let sev = opt_chars(&fs[ordered[j]].severity);
        let ghost before = sil@;
        if !shown_carries(fs, ordered, limit, &sev) {
            sil.push(string_of(&sev));
            proof {
                assert(sil@.map_values(|x: String| x@) =~= before.map_values(|x: String| x@).push(sev@));
            }
        }
        j = j + 1;
    }
    proof {
        assert(tail.take(ordered@.len() - limit) =~= tail);
    }
    let keys = census(&sil);
    let mut bands: Vec<SilencedBand> = Vec::new();
    let mut i: usize = 0;
    while i < keys.len()
        invariant
            i <= keys@.len(),
            limit <= ordered@.len(),
            tail == ordered@.skip(limit as int),
            forall|k: int| 0 <= k < ordered@.len() ==> (#[trigger] ordered@[k]) < fs@.len(),
            bands@.len() == i,
            forall|q: int| 0 <= q < i ==> band_is(fs@, tail, keys@[q].key@, #[trigger] bands@[q]),
        decreases keys@.len() - i,
    {
        let b = band_of(fs, ordered, limit, &keys[i].key);
        bands.push(b);
        i = i + 1;
    }
    let mut meaning = owned(NOT_SHOWN_MEANING_HEAD);
    push_usize(&mut meaning, FIRST_OMITTED_ANCHORS);
    push_str(&mut meaning, NOT_SHOWN_MEANING_TAIL);
    FindingsTruncation {
        shown: limit,
        total_matching: ordered.len(),
        hint: hint(limit),
        severities_not_shown: bands,
        meaning,
    }
}

proof fn lemma_rule_texts_len(fs: Seq<Finding>, rows: Seq<usize>)
    ensures
        rule_texts(fs, rows).len() <= rows.len(),
    decreases rows.len(),
{
    if rows.len() > 0 {
        lemma_rule_texts_len(fs, rows.drop_last());
    }
}

proof fn lemma_silenced_unshown(fs: Seq<Finding>, shown: Seq<usize>, tail: Seq<usize>)
    ensures
        forall|k: int| 0 <= k < silenced(fs, shown, tail).len() ==> !shown_has(fs, shown, #[trigger] silenced(fs, shown, tail)[k]),
    decreases tail.len(),
{
    if tail.len() > 0 {
        lemma_silenced_unshown(fs, shown, tail.drop_last());
        let r = silenced(fs, shown, tail.drop_last());
        let s = sev_text(fs[tail.last() as int]);
        assert forall|k: int| 0 <= k < silenced(fs, shown, tail).len() implies !shown_has(fs, shown, #[trigger] silenced(fs, shown, tail)[k]) by {
            if !shown_has(fs, shown, s) && k == r.len() {
                assert(silenced(fs, shown, tail)[k] == s);
            } else {
                assert(silenced(fs, shown, tail)[k] == r[k]);
            }
        }
    }
}

/// Every band the cut silenced names a severity `shown` carries no row of, and counts no more
/// distinct rules than rows (`ruleCounts[s] <= counts[s]`).
pub proof fn law_silenced_bands(fs: Seq<Finding>, ordered: Seq<usize>, limit: usize, r: FindingsTruncation)
    requires
        truncation_is(fs, ordered, limit, r),
    ensures
        forall|i: int|
            0 <= i < r.severities_not_shown@.len() ==> (#[trigger] r.severities_not_shown@[i]).rule_count
                <= r.severities_not_shown@[i].count && !shown_has(
                fs,
                ordered.take(limit as int),
                r.severities_not_shown@[i].severity@,
            ),
{
    let shown = ordered.take(limit as int);
    let tail = ordered.skip(limit as int);
    let ks = silenced(fs, shown, tail);
    let bands = choose|bands: Seq<KeyCount>|
        #[trigger] is_census(ks, bands) && r.severities_not_shown@.len() == bands.len() && forall|i: int|
            0 <= i < bands.len() ==> band_is(fs, tail, bands[i].key@, #[trigger] r.severities_not_shown@[i]);
    lemma_silenced_unshown(fs, shown, tail);
    assert forall|i: int| 0 <= i < r.severities_not_shown@.len() implies (#[trigger] r.severities_not_shown@[i]).rule_count
        <= r.severities_not_shown@[i].count && !shown_has(fs, shown, r.severities_not_shown@[i].severity@) by {
        let b = r.severities_not_shown@[i];
        let rows = band_rows(fs, tail, bands[i].key@);
        assert(band_is(fs, tail, bands[i].key@, b));
        let rc = choose|rc: Seq<KeyCount>| #[trigger] is_census(rule_texts(fs, rows), rc) && rc.len() == b.rule_count;
        lemma_census_len_le(rule_texts(fs, rows), rc);
        lemma_rule_texts_len(fs, rows);
        assert(bands[i].count > 0);
        let m = lemma_tally_witness(ks, bands[i].key@);
        assert(!shown_has(fs, shown, ks[m]));
    }
}


/// What a findings truncation says, by value: shown, total matching, hint, each silenced band's
/// severity, count, rule count and first omitted rows, and the legend.
pub open spec fn truncation_view(t: FindingsTruncation) -> (usize, usize, Seq<char>, Seq<(Seq<char>, usize, usize, Seq<usize>)>, Seq<char>) {
    (
        t.shown,
        t.total_matching,
        t.hint@,
        t.severities_not_shown@.map_values(|b: SilencedBand| (b.severity@, b.count, b.rule_count, b.first_omitted@)),
        t.meaning@,
    )
}

/// The truncation disclosure is determined by the findings, their order and the limit.
pub proof fn law_truncation_is_determined(fs: Seq<Finding>, ordered: Seq<usize>, limit: usize, a: FindingsTruncation, b: FindingsTruncation)
    requires
        truncation_is(fs, ordered, limit, a),
        truncation_is(fs, ordered, limit, b),
    ensures
        truncation_view(a) == truncation_view(b),
{
    let shown = ordered.take(limit as int);
    let tail = ordered.skip(limit as int);
    let ks = silenced(fs, shown, tail);
    let ba = choose|bands: Seq<KeyCount>|
        #[trigger] is_census(ks, bands) && a.severities_not_shown@.len() == bands.len() && forall|i: int|
            0 <= i < bands.len() ==> band_is(fs, tail, bands[i].key@, #[trigger] a.severities_not_shown@[i]);
    let bb = choose|bands: Seq<KeyCount>|
        #[trigger] is_census(ks, bands) && b.severities_not_shown@.len() == bands.len() && forall|i: int|
            0 <= i < bands.len() ==> band_is(fs, tail, bands[i].key@, #[trigger] b.severities_not_shown@[i]);
    law_census_is_unique(ks, ba, bb);
    let va = truncation_view(a).3;
    let vb = truncation_view(b).3;
    assert(va =~= vb) by {
        assert forall|i: int| 0 <= i < va.len() implies va[i] == vb[i] by {
            let x = a.severities_not_shown@[i];
            let y = b.severities_not_shown@[i];
            assert(band_is(fs, tail, ba[i].key@, x));
            assert(band_is(fs, tail, bb[i].key@, y));
            let rows = band_rows(fs, tail, ba[i].key@);
            let rx = choose|rc: Seq<KeyCount>| #[trigger] is_census(rule_texts(fs, rows), rc) && rc.len() == x.rule_count;
            let ry = choose|rc: Seq<KeyCount>| #[trigger] is_census(rule_texts(fs, rows), rc) && rc.len() == y.rule_count;
            law_census_is_unique(rule_texts(fs, rows), rx, ry);
            assert(x.first_omitted@ =~= y.first_omitted@);
        }
    }
}

} // verus!
