//! The mathematical model of the scanning pass of `filter`.
//!
//! The scan walks the text left to right with two cursors, `begin` (start
//! of the current candidate match) and `position` (lookahead).  At every
//! step it probes the candidate `text[begin ..= position]` against the
//! dictionary:
//! - the candidate is a dictionary word: the whole span is replaced (a
//!   match fires on the *first* word ending reached, not the longest);
//! - the candidate is a proper prefix of some word: the candidate is
//!   extended by one character;
//! - neither: the character at `begin` is kept verbatim and the scan
//!   restarts one character after `begin`.
//!
//! When the text ends while a candidate is still open, the candidate's
//! characters are kept verbatim.
//!
//! The scan is recorded as a sequence of [`ScanEvent`]s; rendering an
//! event yields either the kept input character or one copy of the
//! replacement token.

use vstd::prelude::*;

verus! {

/// One step of the scan's output: a character of the input kept
/// verbatim, or a whole matched span replaced by the token.
pub enum ScanEvent {
    /// The input character at position `at` is kept.
    Keep { at: int },
    /// The input span `from .. to` matched a dictionary word and is
    /// replaced by one copy of the token.
    Hit { from: int, to: int },
}

/// The events produced by the scan from state `(begin, position)` to the
/// end of the text.
pub open spec fn scan_events(
    dict: Set<Seq<char>>,
    text: Seq<char>,
    begin: int,
    position: int,
) -> Seq<ScanEvent>
    decreases text.len() - begin, text.len() - position,
        when 0 <= begin <= position <= text.len()
{
    if position >= text.len() {
        Seq::new((text.len() - begin) as nat, |k: int| ScanEvent::Keep { at: begin + k })
    } else {
        let probe = text.subrange(begin, position + 1);
        if dict.contains(probe) {
            seq![ScanEvent::Hit { from: begin, to: position + 1 }] + scan_events(
                dict,
                text,
                position + 1,
                position + 1,
            )
        } else if exists|w: Seq<char>| dict.contains(w) && probe.is_prefix_of(w) {
            scan_events(dict, text, begin, position + 1)
        } else {
            seq![ScanEvent::Keep { at: begin }] + scan_events(dict, text, begin + 1, begin + 1)
        }
    }
}

/// What one event contributes to the output.
pub open spec fn render_event(ev: ScanEvent, text: Seq<char>, replacement: Seq<char>) -> Seq<
    char,
> {
    match ev {
        ScanEvent::Keep { at } => seq![text[at]],
        ScanEvent::Hit { .. } => replacement,
    }
}

/// The concatenation of the contributions of all events, in order.
pub open spec fn render_events(
    evs: Seq<ScanEvent>,
    text: Seq<char>,
    replacement: Seq<char>,
) -> Seq<char>
    decreases evs.len(),
{
    if evs.len() == 0 {
        Seq::empty()
    } else {
        render_event(evs[0], text, replacement) + render_events(evs.drop_first(), text, replacement)
    }
}

/// The output of `filter`: the rendering of the whole scan of `text`.
pub open spec fn spec_filter(
    dict: Set<Seq<char>>,
    text: Seq<char>,
    replacement: Seq<char>,
) -> Seq<char> {
    render_events(scan_events(dict, text, 0, 0), text, replacement)
}

/// The half-open index span of the input that one event accounts for.
pub open spec fn event_start(ev: ScanEvent) -> int {
    match ev {
        ScanEvent::Keep { at } => at,
        ScanEvent::Hit { from, .. } => from,
    }
}

/// The end of the span (exclusive).
pub open spec fn event_end(ev: ScanEvent) -> int {
    match ev {
        ScanEvent::Keep { at } => at + 1,
        ScanEvent::Hit { to, .. } => to,
    }
}

/// The events' spans are nonempty, consecutive, and tile the index range
/// `from .. to` exactly: every index in the range lies in the span of
/// exactly one event, and spans appear in input order.
pub open spec fn spans_tile(evs: Seq<ScanEvent>, from: int, to: int) -> bool
    decreases evs.len(),
{
    if evs.len() == 0 {
        from == to
    } else {
        &&& event_start(evs[0]) == from
        &&& event_end(evs[0]) > from
        &&& spans_tile(evs.drop_first(), event_end(evs[0]), to)
    }
}

/// Every replaced span really is a dictionary word.
pub open spec fn hits_are_words(evs: Seq<ScanEvent>, dict: Set<Seq<char>>, text: Seq<char>) -> bool {
    forall|k: int|
        0 <= k < evs.len() ==> match #[trigger] evs[k] {
            ScanEvent::Hit { from, to } => dict.contains(text.subrange(from, to)),
            ScanEvent::Keep { .. } => true,
        }
}

/// Every replaced span fired on the *first* word ending reached: no
/// strictly shorter nonempty prefix of the span, starting at the same
/// point, is itself a dictionary word.
pub open spec fn hits_fire_on_first_word(
    evs: Seq<ScanEvent>,
    dict: Set<Seq<char>>,
    text: Seq<char>,
) -> bool {
    forall|k: int|
        0 <= k < evs.len() ==> match #[trigger] evs[k] {
            ScanEvent::Hit { from, to } => forall|e: int|
                from < e < to ==> !dict.contains(#[trigger] text.subrange(from, e)),
            ScanEvent::Keep { .. } => true,
        }
}

/// A single event renders as its own contribution.
pub proof fn lemma_render_singleton(ev: ScanEvent, text: Seq<char>, replacement: Seq<char>)
    ensures
        render_events(seq![ev], text, replacement) == render_event(ev, text, replacement),
{
    let evs = seq![ev];
    assert(evs.drop_first() =~= Seq::<ScanEvent>::empty());
    assert(render_events(evs.drop_first(), text, replacement) == Seq::<char>::empty());
    assert(render_events(evs, text, replacement) =~= render_event(ev, text, replacement));
}

/// Rendering distributes over concatenation of event sequences.
pub proof fn lemma_render_concat(
    a: Seq<ScanEvent>,
    b: Seq<ScanEvent>,
    text: Seq<char>,
    replacement: Seq<char>,
)
    ensures
        render_events(a + b, text, replacement) == render_events(a, text, replacement)
            + render_events(b, text, replacement),
    decreases a.len(),
{
    if a.len() == 0 {
        assert(a + b =~= b);
        assert(render_events(a, text, replacement) + render_events(b, text, replacement)
            =~= render_events(b, text, replacement));
    } else {
        assert((a + b).drop_first() =~= a.drop_first() + b);
        lemma_render_concat(a.drop_first(), b, text, replacement);
        assert(render_events(a + b, text, replacement) =~= render_events(a, text, replacement)
            + render_events(b, text, replacement));
    }
}

/// A run of kept characters renders as the corresponding slice of the text.
pub proof fn lemma_render_keep_run(text: Seq<char>, begin: int, end: int, replacement: Seq<char>)
    requires
        0 <= begin <= end <= text.len(),
    ensures
        render_events(
            Seq::new((end - begin) as nat, |k: int| ScanEvent::Keep { at: begin + k }),
            text,
            replacement,
        ) == text.subrange(begin, end),
    decreases end - begin,
{
    let evs = Seq::new((end - begin) as nat, |k: int| ScanEvent::Keep { at: begin + k });
    if begin == end {
        assert(render_events(evs, text, replacement) =~= text.subrange(begin, end));
    } else {
        lemma_render_keep_run(text, begin + 1, end, replacement);
        assert(evs.drop_first() =~= Seq::new(
            (end - begin - 1) as nat,
            |k: int| ScanEvent::Keep { at: begin + 1 + k },
        ));
        assert(render_events(evs, text, replacement) =~= text.subrange(begin, end));
    }
}

} // verus!
