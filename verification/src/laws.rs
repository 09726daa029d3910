//! Laws of the dictionary and of the scanning pass, stated over the
//! abstract model that the public contracts use: the word set that is a
//! `Trie`'s view, and the scan model of `filter`.

use vstd::prelude::*;

verus! {

use crate::scan::ScanEvent;
use crate::scan::lemma_render_concat;
use crate::scan::lemma_render_keep_run;
use crate::scan::lemma_render_singleton;
use crate::scan::hits_are_words;
use crate::scan::hits_fire_on_first_word;
use crate::scan::render_events;
use crate::scan::scan_events;
use crate::scan::spans_tile;
use crate::scan::spec_filter;

/// Exactness: a word just added is a member, and adding further words
/// never removes it.
pub proof fn lemma_added_word_is_member(dict: Set<Seq<char>>, w: Seq<char>, x: Seq<char>)
    ensures
        dict.insert(w).contains(w),
        dict.contains(w) ==> dict.insert(x).contains(w),
{
}

/// No false membership: adding `w` makes no other sequence a member — in
/// particular neither an extension of `w` by a nonempty suffix nor a
/// proper prefix of `w` becomes a member.
pub proof fn lemma_add_no_false_members(
    dict: Set<Seq<char>>,
    w: Seq<char>,
    x: Seq<char>,
    p: Seq<char>,
)
    requires
        x.len() > 0,
        p.len() < w.len(),
    ensures
        !dict.contains(w + x) ==> !dict.insert(w).contains(w + x),
        !dict.contains(p) ==> !dict.insert(w).contains(p),
{
    assert((w + x).len() > w.len());
}

/// Idempotence of `add`: adding the same word twice leaves both
/// membership and the result of filtering any text unchanged relative to
/// adding it once.
pub proof fn lemma_add_idempotent(
    dict: Set<Seq<char>>,
    w: Seq<char>,
    q: Seq<char>,
    text: Seq<char>,
    replacement: Seq<char>,
)
    ensures
        dict.insert(w).insert(w).contains(q) == dict.insert(w).contains(q),
        spec_filter(dict.insert(w).insert(w), text, replacement) == spec_filter(
            dict.insert(w),
            text,
            replacement,
        ),
{
    assert(dict.insert(w).insert(w) =~= dict.insert(w));
}

/// On clean text the scan keeps every character from `begin` on.
proof fn lemma_scan_clean(
    dict: Set<Seq<char>>,
    text: Seq<char>,
    begin: int,
    position: int,
    replacement: Seq<char>,
)
    requires
        0 <= begin <= position <= text.len(),
        forall|i: int, j: int|
            begin <= i < j <= text.len() ==> !dict.contains(#[trigger] text.subrange(i, j)),
    ensures
        render_events(scan_events(dict, text, begin, position), text, replacement)
            == text.subrange(begin, text.len() as int),
    decreases text.len() - begin, text.len() - position,
{
    let len = text.len() as int;
    if position >= len {
        lemma_render_keep_run(text, begin, len, replacement);
    } else {
        let probe = text.subrange(begin, position + 1);
        assert(!dict.contains(probe));
        if exists|w: Seq<char>| dict.contains(w) && probe.is_prefix_of(w) {
            lemma_scan_clean(dict, text, begin, position + 1, replacement);
        } else {
            let kept = seq![ScanEvent::Keep { at: begin }];
            let rest = scan_events(dict, text, begin + 1, begin + 1);
            lemma_render_concat(kept, rest, text, replacement);
            lemma_render_singleton(kept[0], text, replacement);
            lemma_scan_clean(dict, text, begin + 1, begin + 1, replacement);
            assert(render_events(kept + rest, text, replacement) =~= text.subrange(begin, len));
        }
    }
}

/// Filter identity on clean text: when no nonempty substring of `text`
/// is a dictionary word, filtering returns the text unchanged, whatever
/// the replacement token is.
pub proof fn lemma_filter_clean_identity(
    dict: Set<Seq<char>>,
    text: Seq<char>,
    replacement: Seq<char>,
)
    requires
        forall|i: int, j: int|
            0 <= i < j <= text.len() ==> !dict.contains(#[trigger] text.subrange(i, j)),
    ensures
        spec_filter(dict, text, replacement) == text,
{
    lemma_scan_clean(dict, text, 0, 0, replacement);
    assert(text.subrange(0, text.len() as int) =~= text);
}

/// A run of kept characters tiles its own index range.
proof fn lemma_keep_run_tiles(begin: int, end: int)
    requires
        begin <= end,
    ensures
        spans_tile(
            Seq::new((end - begin) as nat, |k: int| ScanEvent::Keep { at: begin + k }),
            begin,
            end,
        ),
    decreases end - begin,
{
    let evs = Seq::new((end - begin) as nat, |k: int| ScanEvent::Keep { at: begin + k });
    if begin < end {
        lemma_keep_run_tiles(begin + 1, end);
        assert(evs.drop_first() =~= Seq::new(
            (end - begin - 1) as nat,
            |k: int| ScanEvent::Keep { at: begin + 1 + k },
        ));
    }
}

/// The scan's events tile the text from `begin` to its end, and every
/// replaced span is a dictionary word.
proof fn lemma_scan_tiles(dict: Set<Seq<char>>, text: Seq<char>, begin: int, position: int)
    requires
        0 <= begin <= position <= text.len(),
    ensures
        spans_tile(scan_events(dict, text, begin, position), begin, text.len() as int),
        hits_are_words(scan_events(dict, text, begin, position), dict, text),
    decreases text.len() - begin, text.len() - position,
{
    let len = text.len() as int;
    if position >= len {
        lemma_keep_run_tiles(begin, len);
    } else {
        let probe = text.subrange(begin, position + 1);
        if dict.contains(probe) {
            let hit = seq![ScanEvent::Hit { from: begin, to: position + 1 }];
            let rest = scan_events(dict, text, position + 1, position + 1);
            lemma_scan_tiles(dict, text, position + 1, position + 1);
            assert((hit + rest).drop_first() =~= rest);
            assert forall|k: int| 0 <= k < (hit + rest).len() implies match #[trigger] (hit
                + rest)[k] {
                ScanEvent::Hit { from, to } => dict.contains(text.subrange(from, to)),
                ScanEvent::Keep { .. } => true,
            } by {
                if k > 0 {
                    assert((hit + rest)[k] == rest[k - 1]);
                }
            }
        } else if exists|w: Seq<char>| dict.contains(w) && probe.is_prefix_of(w) {
            lemma_scan_tiles(dict, text, begin, position + 1);
        } else {
            let kept = seq![ScanEvent::Keep { at: begin }];
            let rest = scan_events(dict, text, begin + 1, begin + 1);
            lemma_scan_tiles(dict, text, begin + 1, begin + 1);
            assert((kept + rest).drop_first() =~= rest);
            assert forall|k: int| 0 <= k < (kept + rest).len() implies match #[trigger] (kept
                + rest)[k] {
                ScanEvent::Hit { from, to } => dict.contains(text.subrange(from, to)),
                ScanEvent::Keep { .. } => true,
            } by {
                if k > 0 {
                    assert((kept + rest)[k] == rest[k - 1]);
                }
            }
        }
    }
}

/// While the scan extends a candidate, every probe it passed over was not
/// itself a word; so every hit it ever fires is a first (shortest) match.
proof fn lemma_scan_first_match(dict: Set<Seq<char>>, text: Seq<char>, begin: int, position: int)
    requires
        0 <= begin <= position <= text.len(),
        forall|e: int| begin < e <= position ==> !dict.contains(#[trigger] text.subrange(begin, e)),
    ensures
        hits_fire_on_first_word(scan_events(dict, text, begin, position), dict, text),
    decreases text.len() - begin, text.len() - position,
{
    let len = text.len() as int;
    if position < len {
        let probe = text.subrange(begin, position + 1);
        if dict.contains(probe) {
            let hit = seq![ScanEvent::Hit { from: begin, to: position + 1 }];
            let rest = scan_events(dict, text, position + 1, position + 1);
            lemma_scan_first_match(dict, text, position + 1, position + 1);
            assert forall|k: int| 0 <= k < (hit + rest).len() implies match #[trigger] (hit
                + rest)[k] {
                ScanEvent::Hit { from, to } => forall|e: int|
                    from < e < to ==> !dict.contains(#[trigger] text.subrange(from, e)),
                ScanEvent::Keep { .. } => true,
            } by {
                if k > 0 {
                    assert((hit + rest)[k] == rest[k - 1]);
                }
            }
        } else if exists|w: Seq<char>| dict.contains(w) && probe.is_prefix_of(w) {
            lemma_scan_first_match(dict, text, begin, position + 1);
        } else {
            let kept = seq![ScanEvent::Keep { at: begin }];
            let rest = scan_events(dict, text, begin + 1, begin + 1);
            lemma_scan_first_match(dict, text, begin + 1, begin + 1);
            assert forall|k: int| 0 <= k < (kept + rest).len() implies match #[trigger] (kept
                + rest)[k] {
                ScanEvent::Hit { from, to } => forall|e: int|
                    from < e < to ==> !dict.contains(#[trigger] text.subrange(from, e)),
                ScanEvent::Keep { .. } => true,
            } by {
                if k > 0 {
                    assert((kept + rest)[k] == rest[k - 1]);
                }
            }
        }
    }
}

/// Match precedence: a candidate is extended greedily but replaced at the
/// first word ending reached, never at a longer one — of two dictionary
/// words sharing a starting point, the shorter wins, and the longer one's
/// remaining suffix is scanned afresh.
pub proof fn lemma_filter_first_match_precedence(
    dict: Set<Seq<char>>,
    text: Seq<char>,
    replacement: Seq<char>,
)
    ensures
        spec_filter(dict, text, replacement) == render_events(
            scan_events(dict, text, 0, 0),
            text,
            replacement,
        ),
        hits_fire_on_first_word(scan_events(dict, text, 0, 0), dict, text),
{
    lemma_scan_first_match(dict, text, 0, 0);
}

/// Filter coverage: the output is exactly the rendering, in input order,
/// of the scan's events, whose spans tile the whole text — so each
/// disjoint matched span is a dictionary word and contributes exactly one
/// replacement token, and every unmatched character appears once, in its
/// original relative order.
pub proof fn lemma_filter_coverage(dict: Set<Seq<char>>, text: Seq<char>, replacement: Seq<char>)
    ensures
        spec_filter(dict, text, replacement) == render_events(
            scan_events(dict, text, 0, 0),
            text,
            replacement,
        ),
        spans_tile(scan_events(dict, text, 0, 0), 0, text.len() as int),
        hits_are_words(scan_events(dict, text, 0, 0), dict, text),
{
    lemma_scan_tiles(dict, text, 0, 0);
}

} // verus!
