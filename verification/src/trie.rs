//! The prefix tree: one vertex per distinct prefix of the dictionary,
//! a termination flag on every vertex at which a word ends.

use vstd::prelude::*;

verus! {

use crate::scan::ScanEvent;
use crate::scan::lemma_render_concat;
use crate::scan::lemma_render_singleton;
use crate::scan::lemma_render_keep_run;
use crate::scan::render_events;
use crate::scan::scan_events;
use crate::scan::spec_filter;

/// One trie vertex: a termination flag and the outgoing edges, one per
/// distinct next character.
pub(crate) struct Node {
    /// True iff some dictionary word ends exactly at this vertex.
    pub(crate) terminal: bool,
    /// The children, keyed by the character on the edge.  Keys are
    /// pairwise distinct in a well-formed tree.
    pub(crate) children: Vec<(char, Node)>,
}

impl Node {
    /// A vertex with the given termination flag and no children yet.
    pub(crate) fn new(terminal: bool) -> (n: Node)
        ensures
            n.terminal == terminal,
            n.children@ == Seq::<(char, Node)>::empty(),
            n.wf(),
            !terminal ==> forall|w: Seq<char>| !n.contains(w),
            terminal ==> forall|w: Seq<char>| n.contains(w) <==> w == Seq::<char>::empty(),
    {
        let n = Node { terminal, children: Vec::new() };
        proof {
            assert forall|w: Seq<char>| w.len() > 0 implies !n.contains(w) by {
                assert(n.children@.len() == 0);
            }
            assert forall|w: Seq<char>| w.len() == 0 implies w == Seq::<char>::empty() by {
                assert(w =~= Seq::<char>::empty());
            }
        }
        n
    }

    /// The word `w` ends at a terminal vertex reached from `self`
    /// by following one child edge per character of `w`.
    pub(crate) open spec fn contains(self, w: Seq<char>) -> bool
        decreases self, w.len(),
    {
        if w.len() == 0 {
            self.terminal
        } else {
            exists|j: int|
                0 <= j < self.children@.len() && self.children@[j].0 == w[0]
                    && self.children@[j].1.contains(w.skip(1))
        }
    }

    /// A vertex is reached from `self` by following one child edge per
    /// character of `p`.
    pub(crate) open spec fn has_path(self, p: Seq<char>) -> bool
        decreases self, p.len(),
    {
        if p.len() == 0 {
            true
        } else {
            exists|j: int|
                0 <= j < self.children@.len() && self.children@[j].0 == p[0]
                    && self.children@[j].1.has_path(p.skip(1))
        }
    }

    /// Some word ends at or below this vertex.
    pub(crate) open spec fn has_terminal(self) -> bool
        decreases self,
    {
        self.terminal || exists|j: int|
            0 <= j < self.children@.len() && self.children@[j].1.has_terminal()
    }

    /// Well-formed: child keys are pairwise distinct, every subtree is
    /// well-formed, and no subtree is dead weight (each child subtree
    /// carries at least one word ending).
    pub(crate) open spec fn wf(self) -> bool
        decreases self,
    {
        &&& (forall|i: int, j: int|
            0 <= i < j < self.children@.len() ==> self.children@[i].0 != self.children@[j].0)
        &&& (forall|j: int|
            0 <= j < self.children@.len() ==> (#[trigger] self.children@[j].1).wf()
                && self.children@[j].1.has_terminal())
    }
}

/// The dictionary: a trie owning its root vertex.  Its abstract view is
/// the set of character sequences that were added as words.
pub struct Trie {
    pub(crate) root: Node,
}

impl View for Trie {
    type V = Set<Seq<char>>;

    /// The set of words currently in the dictionary.
    closed spec fn view(&self) -> Set<Seq<char>> {
        Set::new(|w: Seq<char>| self.root.contains(w))
    }
}

impl Trie {
    /// The structural invariant of the tree: established by `new` and
    /// preserved by `add`.
    pub closed spec fn wf(self) -> bool {
        self.root.wf()
    }

    /// Returns an empty dictionary: no word is a member, not even the
    /// empty word.
    pub fn new() -> (t: Trie)
        ensures
            t.wf(),
            t@ == Set::<Seq<char>>::empty(),
    {
        let t = Trie { root: Node::new(false) };
        proof {
            assert(t@ =~= Set::<Seq<char>>::empty());
        }
        t
    }

    /// Inserts `word` into the dictionary.  The resulting word set is the
    /// old one extended with `word`; in particular, adding a word that is
    /// already present changes nothing.
    pub fn add(&mut self, word: &str)
        requires
            old(self).wf(),
        ensures
            final(self).wf(),
            final(self)@ == old(self)@.insert(word@),
    {
        insert_at(&mut self.root, word, 0);
        proof {
            assert(word@.skip(0) =~= word@);
            assert(final(self)@ =~= old(self)@.insert(word@));
        }
    }

    /// Exact membership: true iff `word` itself was added — a proper
    /// prefix or an extension of an added word is not a member.
    pub fn search(&self, word: &str) -> (found: bool)
        requires
            self.wf(),
        ensures
            found == self@.contains(word@),
    {
        let len = word.unicode_len();
        let mut current: &Node = &self.root;
        let mut i: usize = 0;
        proof {
            assert(word@.skip(0) =~= word@);
        }
        while i < len
            invariant
                i <= len,
                len == word@.len(),
                current.wf(),
                self.root.contains(word@) <==> current.contains(word@.skip(i as int)),
            decreases len - i,
        {
            let c = word.get_char(i);
            match find_child(current, c) {
                None => {
                    proof {
                        assert(word@.skip(i as int)[0] == c);
                        assert(!current.contains(word@.skip(i as int)));
                    }
                    return false;
                },
                Some(j) => {
                    proof {
                        lemma_contains_via_child(*current, word@.skip(i as int), j as int);
                        assert(word@.skip(i as int).skip(1) =~= word@.skip(i + 1));
                    }
                    current = &current.children[j].1;
                    i = i + 1;
                },
            }
        }
        proof {
            assert(word@.skip(len as int) =~= Seq::<char>::empty());
        }
        current.terminal
    }

    /// Scans `text` left to right and replaces every dictionary match
    /// with `replacement`.  A candidate match is extended while it is a
    /// prefix of some word and replaced as soon as it *is* a word (the
    /// first word ending wins, not the longest match); when it can do
    /// neither, its first character is kept and the scan restarts one
    /// character later.  A candidate still open when the text ends is
    /// kept verbatim, so every unmatched character reaches the output.
    pub fn filter(&self, text: &str, replacement: &str) -> (out: String)
        requires
            self.wf(),
        ensures
            out@ == spec_filter(self@, text@, replacement@),
    {
        let ghost dict = self@;
        let len = text.unicode_len();
        let mut out = String::new();
        let mut begin: usize = 0;
        let mut position: usize = 0;
        let mut current: &Node = &self.root;
        proof {
            assert(text@.subrange(0, 0) =~= Seq::<char>::empty());
            assert forall|t: Seq<char>| Seq::<char>::empty() + t =~= t by {}
        }
        while position < len
            invariant
                begin <= position <= len,
                len == text@.len(),
                dict == self@,
                self.root.wf(),
                current.wf(),
                forall|t: Seq<char>| #[trigger]
                    current.contains(t) <==> self.root.contains(
                        text@.subrange(begin as int, position as int) + t,
                    ),
                forall|t: Seq<char>| #[trigger]
                    current.has_path(t) <==> self.root.has_path(
                        text@.subrange(begin as int, position as int) + t,
                    ),
                render_events(scan_events(dict, text@, 0, 0), text@, replacement@) == out@
                    + render_events(
                    scan_events(dict, text@, begin as int, position as int),
                    text@,
                    replacement@,
                ),
            decreases len - begin, len - position,
        {
            let c = text.get_char(position);
            let ghost path = text@.subrange(begin as int, position as int);
            let ghost probe = text@.subrange(begin as int, position as int + 1);
            proof {
                assert(probe =~= path + seq![c]);
                assert(seq![c].skip(1) =~= Seq::<char>::empty());
            }
            match find_child(current, c) {
                None => {
                    proof {
                        assert(!current.has_path(seq![c]));
                        assert(!self.root.has_path(probe));
                        lemma_path_iff_prefix_of_word(self.root, probe);
                        assert(!(exists|w: Seq<char>|
                            dict.contains(w) && probe.is_prefix_of(w))) by {
                            if exists|w: Seq<char>| dict.contains(w) && probe.is_prefix_of(w) {
                                let w = choose|w: Seq<char>|
                                    dict.contains(w) && probe.is_prefix_of(w);
                                assert(self.root.contains(w));
                            }
                        }
                        assert(!dict.contains(probe)) by {
                            if dict.contains(probe) {
                                assert(probe.is_prefix_of(probe));
                            }
                        }
                        let kept = seq![ScanEvent::Keep { at: begin as int }];
                        let rest = scan_events(dict, text@, begin + 1, begin + 1);
                        assert(scan_events(dict, text@, begin as int, position as int) == kept
                            + rest);
                        lemma_render_concat(kept, rest, text@, replacement@);
                        lemma_render_singleton(kept[0], text@, replacement@);
                        assert(render_events(kept, text@, replacement@) =~= seq![
                            text@[begin as int],
                        ]);
                        assert(text@.subrange(begin as int, begin + 1) =~= seq![
                            text@[begin as int],
                        ]);
                    }
                    out.append(text.substring_char(begin, begin + 1));
                    begin = begin + 1;
                    position = begin;
                    current = &self.root;
                    proof {
                        assert(text@.subrange(begin as int, begin as int) =~= Seq::<
                            char,
                        >::empty());
                        assert forall|t: Seq<char>| Seq::<char>::empty() + t =~= t by {}
                    }
                },
                Some(j) => {
                    let child = &current.children[j].1;
                    proof {
                        lemma_contains_via_child(*current, seq![c], j as int);
                        assert(current.contains(seq![c]) == child.terminal);
                        assert(self.root.contains(probe) == child.terminal);
                    }
                    if child.terminal {
                        proof {
                            assert(dict.contains(probe));
                            let hit = seq![
                                ScanEvent::Hit { from: begin as int, to: position + 1 },
                            ];
                            let rest = scan_events(dict, text@, position + 1, position + 1);
                            assert(scan_events(dict, text@, begin as int, position as int) == hit
                                + rest);
                            lemma_render_concat(hit, rest, text@, replacement@);
                            lemma_render_singleton(hit[0], text@, replacement@);
                            assert(render_events(hit, text@, replacement@) =~= replacement@);
                        }
                        out.append(replacement);
                        position = position + 1;
                        begin = position;
                        current = &self.root;
                        proof {
                            assert(text@.subrange(begin as int, begin as int) =~= Seq::<
                                char,
                            >::empty());
                            assert forall|t: Seq<char>| Seq::<char>::empty() + t =~= t by {}
                        }
                    } else {
                        proof {
                            assert(!dict.contains(probe));
                            assert(current.has_path(seq![c]));
                            assert(self.root.has_path(probe));
                            lemma_path_iff_prefix_of_word(self.root, probe);
                            let w = choose|w: Seq<char>|
                                self.root.contains(w) && probe.is_prefix_of(w);
                            assert(dict.contains(w) && probe.is_prefix_of(w));
                            assert(scan_events(dict, text@, begin as int, position as int)
                                == scan_events(dict, text@, begin as int, position + 1));
                            // the candidate grows by one character: re-root the
                            // path correspondence at the child
                            assert forall|t: Seq<char>| #[trigger]
                                child.contains(t) <==> self.root.contains(probe + t) by {
                                lemma_contains_via_child(*current, seq![c] + t, j as int);
                                assert((seq![c] + t)[0] == c);
                                assert((seq![c] + t).skip(1) =~= t);
                                assert(path + (seq![c] + t) =~= probe + t);
                            }
                            assert forall|t: Seq<char>| #[trigger]
                                child.has_path(t) <==> self.root.has_path(probe + t) by {
                                lemma_contains_via_child(*current, seq![c] + t, j as int);
                                assert((seq![c] + t)[0] == c);
                                assert((seq![c] + t).skip(1) =~= t);
                                assert(path + (seq![c] + t) =~= probe + t);
                            }
                        }
                        current = child;
                        position = position + 1;
                    }
                },
            }
        }
        proof {
            let tail = scan_events(dict, text@, begin as int, len as int);
            assert(tail == Seq::new(
                (len - begin) as nat,
                |k: int| ScanEvent::Keep { at: begin + k },
            ));
            lemma_render_keep_run(text@, begin as int, len as int, replacement@);
        }
        out.append(text.substring_char(begin, len));
        out
    }
}

/// Finds the position of the child of `n` keyed by `c`, if any.
fn find_child(n: &Node, c: char) -> (r: Option<usize>)
    ensures
        match r {
            Some(j) => j < n.children@.len() && n.children@[j as int].0 == c,
            None => forall|i: int| 0 <= i < n.children@.len() ==> n.children@[i].0 != c,
        },
{
    let mut j: usize = 0;
    while j < n.children.len()
        invariant
            j <= n.children@.len(),
            forall|i: int| 0 <= i < j ==> n.children@[i].0 != c,
        decreases n.children@.len() - j,
    {
        if n.children[j].0 == c {
            return Some(j);
        }
        j = j + 1;
    }
    None
}

/// Two vertices with the same children agree on membership of every
/// nonempty word.
proof fn lemma_contains_same_children(a: Node, b: Node, w: Seq<char>)
    requires
        a.children@ == b.children@,
        w.len() > 0,
    ensures
        a.contains(w) == b.contains(w),
{
}

/// Walks the suffix `s[i..]` down from `node`, creating missing vertices,
/// and marks the landing vertex terminal: afterwards the subtree holds
/// exactly its old words plus that suffix.
fn insert_at(node: &mut Node, s: &str, i: usize)
    requires
        old(node).wf(),
        i <= s@.len(),
    ensures
        final(node).wf(),
        final(node).has_terminal(),
        forall|w: Seq<char>|
            final(node).contains(w) <==> old(node).contains(w) || w == s@.skip(i as int),
    decreases s@.len() - i,
{
    let ghost suffix = s@.skip(i as int);
    if i == s.unicode_len() {
        node.terminal = true;
        proof {
            assert(suffix =~= Seq::<char>::empty());
            assert(final(node).contains(suffix));
            assert forall|w: Seq<char>|
                final(node).contains(w) <==> old(node).contains(w) || w == suffix by {
                if w.len() > 0 {
                    lemma_contains_same_children(*old(node), *node, w);
                } else {
                    assert(w =~= suffix);
                }
            }
        }
    } else {
        let c = s.get_char(i);
        proof {
            assert(suffix.len() > 0);
            assert(suffix[0] == c);
            assert(suffix.skip(1) =~= s@.skip(i + 1));
        }
        match find_child(node, c) {
            Some(j) => {
                let (key, mut child) = node.children.remove(j);
                insert_at(&mut child, s, i + 1);
                node.children.insert(j, (key, child));
                proof {
                    let oldc = old(node).children@;
                    let newc = node.children@;
                    assert(newc =~= oldc.update(j as int, (c, child)));
                    // well-formedness: keys are unchanged, subtrees keep theirs
                    assert forall|k: int| 0 <= k < newc.len() implies newc[k].0 == oldc[k].0 by {}
                    assert(final(node).wf());
                    assert(newc[j as int].1.has_terminal());
                    assert(final(node).has_terminal());
                    // membership
                    assert forall|w: Seq<char>|
                        final(node).contains(w) <==> old(node).contains(w) || w == suffix by {
                        if w.len() == 0 {
                            assert(w != suffix);
                        } else if w[0] == c {
                            lemma_contains_via_child(*old(node), w, j as int);
                            lemma_contains_via_child(*node, w, j as int);
                            assert(w == suffix <==> w[0] == suffix[0] && w.skip(1) == suffix.skip(
                                1,
                            )) by {
                                if w[0] == suffix[0] && w.skip(1) == suffix.skip(1) {
                                    assert forall|k: int| 0 <= k < w.len() implies w[k]
                                        == suffix[k] by {
                                        if k >= 1 {
                                            assert(w.skip(1)[k - 1] == suffix.skip(1)[k - 1]);
                                        }
                                    }
                                    assert(w =~= suffix);
                                }
                            }
                        } else {
                            assert(w != suffix);
                            if old(node).contains(w) {
                                let k = choose|k: int|
                                    0 <= k < oldc.len() && oldc[k].0 == w[0]
                                        && oldc[k].1.contains(w.skip(1));
                                assert(k != j);
                                assert(newc[k] == oldc[k]);
                                assert(final(node).contains(w));
                            }
                            if node.contains(w) {
                                let k = choose|k: int|
                                    0 <= k < newc.len() && newc[k].0 == w[0]
                                        && newc[k].1.contains(w.skip(1));
                                assert(k != j);
                                assert(newc[k] == oldc[k]);
                                assert(old(node).contains(w));
                            }
                        }
                    }
                }
            },
            None => {
                let mut fresh = Node::new(false);
                let ghost blank = fresh;
                insert_at(&mut fresh, s, i + 1);
                node.children.push((c, fresh));
                proof {
                    let oldc = old(node).children@;
                    let newc = node.children@;
                    assert(newc =~= oldc.push((c, fresh)));
                    // the freshly created vertex held no word at all
                    assert forall|w: Seq<char>| !blank.contains(w) by {
                        if w.len() > 0 {
                            assert(blank.children@.len() == 0);
                        }
                    }
                    assert(blank.wf());
                    assert(final(node).wf());
                    assert(newc[newc.len() - 1].1.has_terminal());
                    assert(final(node).has_terminal());
                    assert forall|w: Seq<char>|
                        final(node).contains(w) <==> old(node).contains(w) || w == suffix by {
                        if w.len() == 0 {
                            assert(w != suffix);
                        } else if w[0] == c {
                            lemma_contains_via_child(*node, w, newc.len() - 1);
                            assert(!old(node).contains(w));
                            assert(w == suffix <==> w.skip(1) == suffix.skip(1)) by {
                                if w.skip(1) == suffix.skip(1) {
                                    assert forall|k: int| 0 <= k < w.len() implies w[k]
                                        == suffix[k] by {
                                        if k >= 1 {
                                            assert(w.skip(1)[k - 1] == suffix.skip(1)[k - 1]);
                                        }
                                    }
                                    assert(w =~= suffix);
                                }
                            }
                        } else {
                            assert(w != suffix);
                            if old(node).contains(w) {
                                let k = choose|k: int|
                                    0 <= k < oldc.len() && oldc[k].0 == w[0]
                                        && oldc[k].1.contains(w.skip(1));
                                assert(newc[k] == oldc[k]);
                                assert(final(node).contains(w));
                            }
                            if node.contains(w) {
                                let k = choose|k: int|
                                    0 <= k < newc.len() && newc[k].0 == w[0]
                                        && newc[k].1.contains(w.skip(1));
                                assert(k != newc.len() - 1);
                                assert(newc[k] == oldc[k]);
                                assert(old(node).contains(w));
                            }
                        }
                    }
                }
            },
        }
    }
}

/// In a tree with distinct child keys, membership of a nonempty word
/// goes through the unique child keyed by its first character.
proof fn lemma_contains_via_child(n: Node, w: Seq<char>, j: int)
    requires
        forall|a: int, b: int|
            0 <= a < b < n.children@.len() ==> n.children@[a].0 != n.children@[b].0,
        w.len() > 0,
        0 <= j < n.children@.len(),
        n.children@[j].0 == w[0],
    ensures
        n.contains(w) <==> n.children@[j].1.contains(w.skip(1)),
        n.has_path(w) <==> n.children@[j].1.has_path(w.skip(1)),
{
    if n.contains(w) {
        let k = choose|k: int|
            0 <= k < n.children@.len() && n.children@[k].0 == w[0]
                && n.children@[k].1.contains(w.skip(1));
        assert(k == j);
    }
    if n.has_path(w) {
        let k = choose|k: int|
            0 <= k < n.children@.len() && n.children@[k].0 == w[0]
                && n.children@[k].1.has_path(w.skip(1));
        assert(k == j);
    }
}

/// A word that is a member marks out a path; so does every prefix of it.
proof fn lemma_contains_gives_path(n: Node, p: Seq<char>, w: Seq<char>)
    requires
        n.contains(w),
        p.is_prefix_of(w),
    ensures
        n.has_path(p),
    decreases p.len(),
{
    if p.len() > 0 {
        let j = choose|j: int|
            0 <= j < n.children@.len() && n.children@[j].0 == w[0]
                && n.children@[j].1.contains(w.skip(1));
        assert(p[0] == w[0]);
        assert(p.skip(1).is_prefix_of(w.skip(1)));
        lemma_contains_gives_path(n.children@[j].1, p.skip(1), w.skip(1));
    }
}

/// A vertex below which some word ends yields a member word.
proof fn lemma_has_terminal_gives_word(n: Node)
    requires
        n.has_terminal(),
    ensures
        exists|w: Seq<char>| n.contains(w),
    decreases n,
{
    if n.terminal {
        assert(n.contains(Seq::<char>::empty()));
    } else {
        let j = choose|j: int|
            0 <= j < n.children@.len() && n.children@[j].1.has_terminal();
        lemma_has_terminal_gives_word(n.children@[j].1);
        let w = choose|w: Seq<char>| n.children@[j].1.contains(w);
        let full = seq![n.children@[j].0] + w;
        assert(full.skip(1) =~= w);
        assert(n.contains(full));
    }
}

/// In a well-formed tree, a nonempty path exists exactly when it is a
/// prefix of some member word.
proof fn lemma_path_iff_prefix_of_word(n: Node, p: Seq<char>)
    requires
        n.wf(),
        p.len() > 0,
    ensures
        n.has_path(p) <==> exists|w: Seq<char>| n.contains(w) && p.is_prefix_of(w),
    decreases p.len(),
{
    if n.has_path(p) {
        let j = choose|j: int|
            0 <= j < n.children@.len() && n.children@[j].0 == p[0]
                && n.children@[j].1.has_path(p.skip(1));
        let child = n.children@[j].1;
        if p.len() == 1 {
            lemma_has_terminal_gives_word(child);
            let w = choose|w: Seq<char>| child.contains(w);
            let full = seq![p[0]] + w;
            assert(full.skip(1) =~= w);
            assert(n.contains(full));
            assert(p.is_prefix_of(full)) by {
                assert(full.subrange(0, 1) =~= p);
            }
        } else {
            lemma_path_iff_prefix_of_word(child, p.skip(1));
            let w = choose|w: Seq<char>| child.contains(w) && p.skip(1).is_prefix_of(w);
            let full = seq![p[0]] + w;
            assert(full.skip(1) =~= w);
            assert(n.contains(full));
            assert(p.is_prefix_of(full)) by {
                assert(p.skip(1) =~= w.subrange(0, p.len() - 1));
                assert forall|i: int| 0 <= i < p.len() implies full[i] == p[i] by {
                    if i >= 1 {
                        assert(p.skip(1)[i - 1] == w[i - 1]);
                    }
                }
                assert(full.subrange(0, p.len() as int) =~= p);
            }
        }
    }
    if exists|w: Seq<char>| n.contains(w) && p.is_prefix_of(w) {
        let w = choose|w: Seq<char>| n.contains(w) && p.is_prefix_of(w);
        lemma_contains_gives_path(n, p, w);
    }
}

} // verus!
