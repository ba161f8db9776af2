//! Decoder for the CSpell textual trie formats (the `TrieXv3` / `TrieXv4`
//! streams).  The decoder is a character-level state machine over a builder
//! arena; absolute references alias earlier subtrees, so the arena is a
//! graph and the word enumeration runs with a depth cap.
//!
//! The whole machine is mirrored by spec functions (`spec_step`, `spec_run`,
//! `spec_decode`), so the decoded word set is pinned as a function of the
//! input stream alone.
use vstd::prelude::*;

use crate::text::{
    chars_of, is_digit_c, parse_radix, parse_radix_spec, string_from_chars, chars_have_prefix,
    has_prefix, chars_have_suffix, has_suffix,
};
use crate::trie::{Trie, TrieOptions, STATUS_ALLOW, default_options, pairs_map};

verus! {

/// Depth cap for the word enumeration; a deeper or cyclic trie is rejected.
pub const MAX_WORD_DEPTH: u64 = 1024;

/// Why decoding failed.
#[derive(Clone, Copy, Debug, PartialEq, Eq, Structural)]
pub enum DecodeError {
    /// No line ending in the data sentinel.
    MissingData,
    /// No version line before the data sentinel.
    MissingVersion,
    /// No base line before the data sentinel, or its number is unusable.
    BadBase,
    /// A reference token did not parse or points outside the arena.
    BadReference,
    /// A pop walked off the top of the position stack.
    PopEmpty,
    /// The digit 1 appeared as a pop count.
    BadPopCount,
    /// The decoded trie is deeper than the depth cap (or cyclic).
    TooDeep,
    /// A compressed file did not inflate.
    BadGzip,
    /// The file is not text.
    NotText,
}

// ---------------------------------------------------------------------------
// Spec model of the builder
// ---------------------------------------------------------------------------

#[verifier::ext_equal]
pub struct SpecNode {
    pub eow: bool,
    pub children: Seq<(char, int)>,
}

#[verifier::ext_equal]
pub enum SpecMode {
    InWord,
    Escape,
    Remove,
    AbsRef(Seq<char>),
}

#[verifier::ext_equal]
pub struct DecSt {
    pub nodes: Seq<SpecNode>,
    pub pos: Seq<(int, char)>,
    pub numbered: Seq<int>,
    pub mode: SpecMode,
}

pub open spec fn init_state() -> DecSt {
    DecSt {
        nodes: seq![SpecNode { eow: false, children: Seq::empty() }],
        pos: seq![(0int, '\u{0}')],
        numbered: seq![0int],
        mode: SpecMode::InWord,
    }
}

/// Index of the first child edge labeled `c`, or -1.
pub open spec fn find_child(ch: Seq<(char, int)>, c: char) -> int
    decreases ch.len(),
{
    if ch.len() == 0 {
        -1
    } else if ch[0].0 == c {
        0
    } else {
        let r = find_child(ch.drop_first(), c);
        if r < 0 {
            -1
        } else {
            r + 1
        }
    }
}

pub proof fn lemma_find_child(ch: Seq<(char, int)>, c: char)
    ensures
        find_child(ch, c) == -1 ==> forall|k: int| 0 <= k < ch.len() ==> (#[trigger] ch[k]).0 != c,
        find_child(ch, c) >= 0 ==> {
            let r = find_child(ch, c);
            &&& 0 <= r < ch.len()
            &&& ch[r].0 == c
            &&& forall|k: int| 0 <= k < r ==> (#[trigger] ch[k]).0 != c
        },
    decreases ch.len(),
{
    if ch.len() > 0 && ch[0].0 != c {
        lemma_find_child(ch.drop_first(), c);
        let t = ch.drop_first();
        assert forall|k: int| 1 <= k < ch.len() implies #[trigger] ch[k] == t[k - 1] by {}
    }
}

/// Point the edge labeled `c` at `t`, appending the edge if it is missing.
pub open spec fn set_child(ch: Seq<(char, int)>, c: char, t: int) -> Seq<(char, int)> {
    let k = find_child(ch, c);
    if k < 0 {
        ch.push((c, t))
    } else {
        ch.update(k, (c, t))
    }
}

/// Every entry of `set_child(ch, c, t)` is either `(c, t)` or an entry of
/// `ch` at the same index, and at most one entry is added.
pub proof fn lemma_set_child_entries(ch: Seq<(char, int)>, c: char, t: int)
    ensures
        ch.len() <= set_child(ch, c, t).len() <= ch.len() + 1,
        forall|kk: int|
            0 <= kk < set_child(ch, c, t).len() ==> (#[trigger] set_child(ch, c, t)[kk] == (c, t)
                || (0 <= kk < ch.len() && set_child(ch, c, t)[kk] == ch[kk])),
{
    lemma_find_child(ch, c);
}

/// Structural bounds: every stack entry, number and child edge points into
/// the arena, and the stack is never empty.
pub open spec fn st_wf(s: DecSt) -> bool {
    &&& s.nodes.len() >= 1
    &&& s.pos.len() >= 1
    &&& forall|i: int| 0 <= i < s.pos.len() ==> 0 <= (#[trigger] s.pos[i]).0 < s.nodes.len()
    &&& forall|i: int| 0 <= i < s.numbered.len() ==> 0 <= #[trigger] s.numbered[i] < s.nodes.len()
    &&& forall|i: int, k: int|
        0 <= i < s.nodes.len() && 0 <= k < s.nodes[i].children.len() ==> 0 <= (
        #[trigger] s.nodes[i].children[k]).1 < s.nodes.len()
}

/// Child-descent: follow an existing edge, or allocate a fresh node.
pub open spec fn spec_descend(s: DecSt, c: char) -> DecSt {
    let top = s.pos.last();
    let node = s.nodes[top.0];
    let k = find_child(node.children, c);
    if k >= 0 {
        DecSt {
            nodes: s.nodes,
            pos: s.pos.push((node.children[k].1, c)),
            numbered: s.numbered,
            mode: SpecMode::InWord,
        }
    } else {
        let fresh = s.nodes.len() as int;
        let upd = SpecNode { eow: node.eow, children: node.children.push((c, fresh)) };
        DecSt {
            nodes: s.nodes.update(top.0, upd).push(
                SpecNode { eow: false, children: Seq::empty() },
            ),
            pos: s.pos.push((fresh, c)),
            numbered: s.numbered.push(fresh),
            mode: SpecMode::InWord,
        }
    }
}

/// End-of-word: mark the current node; a childless current node is re-linked
/// under its parent (undoing a reference that re-pointed the edge) and gives
/// its number back.
pub open spec fn spec_mark_eow(s: DecSt) -> DecSt {
    let top = s.pos.last();
    let node = s.nodes[top.0];
    let nodes1 = s.nodes.update(top.0, SpecNode { eow: true, children: node.children });
    let childless = node.children.len() == 0;
    let nodes2 = if childless && s.pos.len() >= 2 {
        let parent = s.pos[s.pos.len() - 2].0;
        nodes1.update(
            parent,
            SpecNode {
                eow: nodes1[parent].eow,
                children: set_child(nodes1[parent].children, top.1, top.0),
            },
        )
    } else {
        nodes1
    };
    let numbered2 = if childless && s.numbered.len() > 0 && s.numbered.last() == top.0 {
        s.numbered.drop_last()
    } else {
        s.numbered
    };
    DecSt { nodes: nodes2, pos: s.pos, numbered: numbered2, mode: SpecMode::Remove }
}

/// Dispatch of one character in the in-word mode.
pub open spec fn spec_inword(s: DecSt, c: char) -> DecSt {
    if c == '\\' {
        DecSt { nodes: s.nodes, pos: s.pos, numbered: s.numbered, mode: SpecMode::Escape }
    } else if c == '$' {
        spec_mark_eow(s)
    } else if c == '<' {
        DecSt { nodes: s.nodes, pos: s.pos, numbered: s.numbered, mode: SpecMode::Remove }
    } else if c == '#' {
        DecSt {
            nodes: s.nodes,
            pos: s.pos,
            numbered: s.numbered,
            mode: SpecMode::AbsRef(Seq::empty()),
        }
    } else {
        spec_descend(s, c)
    }
}

/// Resolve an absolute reference: re-point the edge to the current node at
/// the numbered target; the fresh node gives its number back first.
pub open spec fn spec_resolve(s: DecSt, digits: Seq<char>, base: u32) -> Option<DecSt> {
    match parse_radix_spec(digits, base) {
        None => None,
        Some(v) => if v > u32::MAX {
            None
        } else if s.pos.len() < 2 {
            None
        } else {
            let top = s.pos.last();
            let numbered2 = if s.numbered.len() > 0 && s.numbered.last() == top.0 {
                s.numbered.drop_last()
            } else {
                s.numbered
            };
            if v >= numbered2.len() {
                None
            } else {
                let target = numbered2[v as int];
                let parent = s.pos[s.pos.len() - 2].0;
                let node = s.nodes[parent];
                let nodes2 = s.nodes.update(
                    parent,
                    SpecNode { eow: node.eow, children: set_child(node.children, top.1, target) },
                );
                Some(
                    DecSt { nodes: nodes2, pos: s.pos, numbered: numbered2, mode: SpecMode::InWord },
                )
            }
        },
    }
}

/// One step of the decoder on one body character.
pub open spec fn spec_step(s: DecSt, c: char, base: u32) -> Option<DecSt> {
    match s.mode {
        SpecMode::InWord => Some(spec_inword(s, c)),
        SpecMode::Escape => Some(spec_descend(s, c)),
        SpecMode::AbsRef(ds) => if c == ';' {
            spec_resolve(s, ds, base)
        } else {
            Some(
                DecSt {
                    nodes: s.nodes,
                    pos: s.pos,
                    numbered: s.numbered,
                    mode: SpecMode::AbsRef(ds.push(c)),
                },
            )
        },
        SpecMode::Remove => {
            if is_digit_c(c) && c as int >= 50 {
                let n = c as int - 49;  // pop d - 1 entries
                if s.pos.len() > n {
                    Some(
                        DecSt {
                            nodes: s.nodes,
                            pos: s.pos.take(s.pos.len() - n),
                            numbered: s.numbered,
                            mode: SpecMode::Remove,
                        },
                    )
                } else {
                    None
                }
            } else if c == '1' {
                None
            } else {
                if s.pos.len() > 1 {
                    let s2 = DecSt {
                        nodes: s.nodes,
                        pos: s.pos.drop_last(),
                        numbered: s.numbered,
                        mode: SpecMode::InWord,
                    };
                    Some(spec_inword(s2, c))
                } else {
                    None
                }
            }
        },
    }
}

/// Run the decoder over a body stream; line ends are skipped.
pub open spec fn spec_run(s: DecSt, body: Seq<char>, base: u32) -> Option<DecSt>
    decreases body.len(),
{
    if body.len() == 0 {
        Some(s)
    } else {
        match spec_run(s, body.drop_last(), base) {
            None => None,
            Some(s1) => {
                let c = body.last();
                if c == '\n' || c == '\r' {
                    Some(s1)
                } else {
                    spec_step(s1, c, base)
                }
            },
        }
    }
}

/// Whether the word `w` is spelled by a path from node `id` ending at an
/// end-of-word mark.
pub open spec fn word_in(nodes: Seq<SpecNode>, id: int, w: Seq<char>) -> bool
    decreases w.len(),
{
    if !(0 <= id < nodes.len()) {
        false
    } else if w.len() == 0 {
        nodes[id].eow
    } else {
        exists|k: int|
            0 <= k < nodes[id].children.len() && (#[trigger] nodes[id].children[k]).0 == w[0]
                && word_in(nodes, nodes[id].children[k].1, w.drop_first())
    }
}

/// Whether every path from `id` ends within the given depth.
pub open spec fn depth_ok(nodes: Seq<SpecNode>, id: int, fuel: nat) -> bool
    decreases fuel,
{
    if fuel == 0 {
        false
    } else if !(0 <= id < nodes.len()) {
        false
    } else {
        forall|k: int|
            0 <= k < nodes[id].children.len() ==> depth_ok(
                nodes,
                (#[trigger] nodes[id].children[k]).1,
                (fuel - 1) as nat,
            )
    }
}

/// The flattened body: all lines joined, in order.
pub open spec fn lines_body(ls: Seq<Seq<char>>) -> Seq<char>
    decreases ls.len(),
{
    if ls.len() == 0 {
        Seq::empty()
    } else {
        lines_body(ls.drop_last()) + ls.last()
    }
}

/// The word set a body stream decodes to, if decoding succeeds.
pub open spec fn spec_decode(body: Seq<char>, base: u32) -> Option<Set<Seq<char>>> {
    match spec_run(init_state(), body, base) {
        None => None,
        Some(s) => if depth_ok(s.nodes, 0, MAX_WORD_DEPTH as nat) {
            Some(Set::new(|w: Seq<char>| word_in(s.nodes, 0, w)))
        } else {
            None
        },
    }
}

/// Law: the decoder's output is a function of the input stream alone; two
/// word-indexes decoded from the same body hold the same words.
pub proof fn lemma_decode_deterministic(t1: &Trie, t2: &Trie, body: Seq<char>, base: u32, cs: bool)
    requires
        spec_decode(body, base) is Some,
        t1.words() == decoded_word_map(spec_decode(body, base)->Some_0, cs),
        t2.words() == decoded_word_map(spec_decode(body, base)->Some_0, cs),
    ensures
        t1.words() == t2.words(),
{
}

/// The word map a decoded word set compiles to: every decoded word, folded
/// per the index's case sensitivity, allowed.
pub open spec fn decoded_word_map(ws: Set<Seq<char>>, cs: bool) -> Map<Seq<char>, u64> {
    Map::new(
        |w: Seq<char>|
            exists|v: Seq<char>| #[trigger] ws.contains(v) && crate::trie::folded(v, cs) == w,
        |w: Seq<char>| STATUS_ALLOW,
    )
}

/// Law: a decoded index reaches every decoded word: the lookup folds the
/// query exactly as the build folded the stored words.
pub proof fn lemma_decoded_contains(t: &Trie, ws: Set<Seq<char>>, cs: bool, w: Seq<char>)
    requires
        t.words() == decoded_word_map(ws, cs),
        t.opts().case_sensitive == cs,
        ws.contains(w),
    ensures
        t.spec_contains(w),
{
    if cs {
        assert(ws.contains(w) && crate::trie::folded(w, cs) == crate::trie::folded(w, cs));
    } else {
        assert(ws.contains(w) && crate::trie::folded(w, cs) == crate::trie::folded(w, cs));
    }
    assert(t.words().dom().contains(crate::trie::folded(w, cs)));
}

/// Law: every word a decoded index enumerates is also contained: stored
/// words are fixed points of the folding the lookup applies.
pub proof fn lemma_decoded_enumeration_members(t: &Trie, ws: Set<Seq<char>>, cs: bool, k: Seq<char>)
    requires
        t.words() == decoded_word_map(ws, cs),
        t.opts().case_sensitive == cs,
        t.words().dom().contains(k),
    ensures
        t.spec_contains(k),
{
    let v = choose|v: Seq<char>| #[trigger] ws.contains(v) && crate::trie::folded(v, cs) == k;
    if !cs {
        crate::text::lemma_lower_idempotent(v);
    }
    assert(crate::trie::folded(k, cs) == k);
    assert(ws.contains(v) && crate::trie::folded(v, cs) == crate::trie::folded(k, cs));
    assert(t.words().dom().contains(crate::trie::folded(k, cs)));
}

// ---------------------------------------------------------------------------
// The executable builder
// ---------------------------------------------------------------------------

struct TrieNodeData {
    eow: bool,
    children: Vec<(char, usize)>,
}

enum ParseState {
    InWord,
    Escape,
    Remove,
    AbsRef(Vec<char>),
}

struct TrieBuilder {
    nodes: Vec<TrieNodeData>,
    pos: Vec<(usize, char)>,
    numbered: Vec<usize>,
    mode: ParseState,
}

spec fn node_view(n: TrieNodeData) -> SpecNode {
    SpecNode {
        eow: n.eow,
        children: n.children@.map_values(|p: (char, usize)| (p.0, p.1 as int)),
    }
}

spec fn nodes_view(ns: Seq<TrieNodeData>) -> Seq<SpecNode> {
    ns.map_values(|n: TrieNodeData| node_view(n))
}

spec fn pos_view(ps: Seq<(usize, char)>) -> Seq<(int, char)> {
    ps.map_values(|p: (usize, char)| (p.0 as int, p.1))
}

spec fn num_view(xs: Seq<usize>) -> Seq<int> {
    xs.map_values(|x: usize| x as int)
}

spec fn mode_view(m: ParseState) -> SpecMode {
    match m {
        ParseState::InWord => SpecMode::InWord,
        ParseState::Escape => SpecMode::Escape,
        ParseState::Remove => SpecMode::Remove,
        ParseState::AbsRef(ds) => SpecMode::AbsRef(ds@),
    }
}

spec fn dec_view(b: TrieBuilder) -> DecSt {
    DecSt {
        nodes: nodes_view(b.nodes@),
        pos: pos_view(b.pos@),
        numbered: num_view(b.numbered@),
        mode: mode_view(b.mode),
    }
}

fn find_child_exec(ch: &Vec<(char, usize)>, c: char) -> (r: Option<usize>)
    ensures
        ({
            let k = find_child(ch@.map_values(|p: (char, usize)| (p.0, p.1 as int)), c);
            match r {
                Option::None => k == -1,
                Option::Some(i) => k == i as int,
            }
        }),
{
    let ghost cv = ch@.map_values(|p: (char, usize)| (p.0, p.1 as int));
    proof {
        lemma_find_child(cv, c);
    }
    let mut i: usize = 0;
    while i < ch.len()
        invariant
            i <= ch.len(),
            cv == ch@.map_values(|p: (char, usize)| (p.0, p.1 as int)),
            forall|j: int| 0 <= j < i ==> (#[trigger] cv[j]).0 != c,
            find_child(cv, c) == -1 ==> forall|k: int|
                0 <= k < cv.len() ==> (#[trigger] cv[k]).0 != c,
            find_child(cv, c) >= 0 ==> {
                let rr = find_child(cv, c);
                &&& 0 <= rr < cv.len()
                &&& cv[rr].0 == c
                &&& forall|k: int| 0 <= k < rr ==> (#[trigger] cv[k]).0 != c
            },
        decreases ch.len() - i,
    {
        if ch[i].0 == c {
            proof {
                assert(cv[i as int].0 == c);
                assert(find_child(cv, c) >= 0);
                let rr = find_child(cv, c);
                if rr < i {
                    assert(cv[rr].0 != c);
                }
                if rr > i {
                    assert(cv[i as int].0 != c);
                }
            }
            return Some(i);
        }
        proof {
            assert(cv[i as int].0 != c);
        }
        i = i + 1;
    }
    proof {
        if find_child(cv, c) >= 0 {
            let rr = find_child(cv, c);
            assert(cv[rr].0 != c);
        }
    }
    None
}

fn set_child_exec(ch: &mut Vec<(char, usize)>, c: char, t: usize)
    ensures
        final(ch)@.map_values(|p: (char, usize)| (p.0, p.1 as int)) == set_child(
            old(ch)@.map_values(|p: (char, usize)| (p.0, p.1 as int)),
            c,
            t as int,
        ),
{
    let ghost cv = ch@.map_values(|p: (char, usize)| (p.0, p.1 as int));
    proof {
        lemma_find_child(cv, c);
    }
    match find_child_exec(ch, c) {
        Some(k) => {
            ch[k] = (c, t);
            proof {
                let cv2 = ch@.map_values(|p: (char, usize)| (p.0, p.1 as int));
                assert(cv2 =~= cv.update(find_child(cv, c), (c, t as int)));
            }
        },
        None => {
            ch.push((c, t));
            proof {
                let cv2 = ch@.map_values(|p: (char, usize)| (p.0, p.1 as int));
                assert(cv2 =~= cv.push((c, t as int)));
            }
        },
    }
}

impl TrieBuilder {
    fn new() -> (r: Self)
        ensures
            dec_view(r) == init_state(),
            st_wf(dec_view(r)),
    {
        let mut nodes: Vec<TrieNodeData> = Vec::new();
        nodes.push(TrieNodeData { eow: false, children: Vec::new() });
        let mut pos: Vec<(usize, char)> = Vec::new();
        pos.push((0, '\u{0}'));
        let mut numbered: Vec<usize> = Vec::new();
        numbered.push(0);
        let r = TrieBuilder { nodes, pos, numbered, mode: ParseState::InWord };
        proof {
            assert(dec_view(r).nodes =~~= init_state().nodes);
            assert(dec_view(r).pos =~= init_state().pos);
            assert(dec_view(r).numbered =~= init_state().numbered);
            assert(dec_view(r) =~~= init_state());
        }
        r
    }

    /// Child-descent on one character.
    fn descend(&mut self, c: char)
        requires
            st_wf(dec_view(*old(self))),
        ensures
            dec_view(*final(self)) == spec_descend(dec_view(*old(self)), c),
            st_wf(dec_view(*final(self))),
    {
        let ghost s0 = dec_view(*old(self));
        let top = self.pos[self.pos.len() - 1].0;
        proof {
            assert(s0.pos.last() == (top as int, old(self).pos@.last().1));
            assert(s0.nodes[top as int] == node_view(old(self).nodes@[top as int]));
            lemma_find_child(s0.nodes[top as int].children, c);
        }
        let k = find_child_exec(&self.nodes[top].children, c);
        match k {
            Some(kk) => {
                proof {
                    assert(s0.nodes[top as int].children[kk as int] == (
                    old(self).nodes@[top as int].children@[kk as int].0,
                    old(self).nodes@[top as int].children@[kk as int].1 as int,
                    ));
                }
                let j = self.nodes[top].children[kk].1;
                self.pos.push((j, c));
                self.mode = ParseState::InWord;
                proof {
                    let s1 = spec_descend(s0, c);
                    assert(dec_view(*self).pos =~= s1.pos);
                    assert(dec_view(*self) =~~= s1);
                }
            },
            None => {
                let fresh = self.nodes.len();
                self.nodes[top].children.push((c, fresh));
                self.nodes.push(TrieNodeData { eow: false, children: Vec::new() });
                self.numbered.push(fresh);
                self.pos.push((fresh, c));
                self.mode = ParseState::InWord;
                proof {
                    let s1 = spec_descend(s0, c);
                    let upd = SpecNode {
                        eow: s0.nodes[top as int].eow,
                        children: s0.nodes[top as int].children.push((c, fresh as int)),
                    };
                    assert(node_view(self.nodes@[top as int]).children =~= upd.children);
                    assert(node_view(self.nodes@[top as int]) =~~= upd);
                    assert(dec_view(*self).nodes =~~= s1.nodes);
                    assert(dec_view(*self).pos =~= s1.pos);
                    assert(dec_view(*self).numbered =~= s1.numbered);
                    assert(dec_view(*self) =~~= s1);
                }
            },
        }
    }

    /// Mark the current node as ending a word.
    fn mark_eow(&mut self)
        requires
            st_wf(dec_view(*old(self))),
        ensures
            dec_view(*final(self)) == spec_mark_eow(dec_view(*old(self))),
            st_wf(dec_view(*final(self))),
    {
        let ghost s0 = dec_view(*old(self));
        let top = self.pos[self.pos.len() - 1];
        proof {
            assert(s0.pos.last() == (top.0 as int, top.1));
        }
        self.nodes[top.0].eow = true;
        let ghost nodes1 = dec_view(*self).nodes;
        proof {
            assert(node_view(self.nodes@[top.0 as int]).children =~= s0.nodes[top.0 as int].children);
            assert(nodes1 =~~= s0.nodes.update(
                top.0 as int,
                SpecNode { eow: true, children: s0.nodes[top.0 as int].children },
            ));
        }
        let childless = self.nodes[top.0].children.len() == 0;
        proof {
            assert(childless == (s0.nodes[top.0 as int].children.len() == 0));
        }
        if childless && self.pos.len() >= 2 {
            let parent = self.pos[self.pos.len() - 2].0;
            proof {
                assert(s0.pos[s0.pos.len() - 2].0 == parent as int);
            }
            set_child_exec(&mut self.nodes[parent].children, top.1, top.0);
            proof {
                let pn = SpecNode {
                    eow: nodes1[parent as int].eow,
                    children: set_child(nodes1[parent as int].children, top.1, top.0 as int),
                };
                assert(node_view(self.nodes@[parent as int]).eow == pn.eow);
                assert(node_view(self.nodes@[parent as int]) =~~= pn);
                assert(dec_view(*self).nodes =~~= nodes1.update(parent as int, pn));
            }
        }
        if childless && self.numbered.len() > 0 && self.numbered[self.numbered.len() - 1]
            == top.0 {
            proof {
                assert(s0.numbered.last() == self.numbered@.last() as int);
            }
            self.numbered.pop();
            proof {
                assert(dec_view(*self).numbered =~= s0.numbered.drop_last());
            }
        } else {
            proof {
                if s0.numbered.len() > 0 && s0.numbered.last() == top.0 as int {
                    assert(self.numbered@.last() as int == s0.numbered.last());
                }
            }
        }
        self.mode = ParseState::Remove;
        proof {
            let s1 = spec_mark_eow(s0);
            assert(dec_view(*self).nodes =~~= s1.nodes);
            assert(dec_view(*self).pos =~= s1.pos);
            assert(dec_view(*self).numbered =~= s1.numbered);
            assert(dec_view(*self) =~~= s1);
            assert(st_wf(s1)) by {
                if s0.nodes[top.0 as int].children.len() == 0 && s0.pos.len() >= 2 {
                    let parent = s0.pos[s0.pos.len() - 2].0;
                    let base_children = s0.nodes[parent].children;
                    lemma_set_child_entries(base_children, top.1, top.0 as int);
                }
                assert forall|i: int, kk: int|
                    0 <= i < s1.nodes.len() && 0 <= kk < s1.nodes[i].children.len() implies 0 <= (
                #[trigger] s1.nodes[i].children[kk]).1 < s1.nodes.len() by {
                    if s0.nodes[top.0 as int].children.len() == 0 && s0.pos.len() >= 2 && i
                        == s0.pos[s0.pos.len() - 2].0 {
                        lemma_set_child_entries(
                            s0.nodes[i].children,
                            top.1,
                            top.0 as int,
                        );
                    } else {
                        assert(s1.nodes[i].children == s0.nodes[i].children);
                    }
                }
            }
        }
    }

    /// Dispatch one character in the in-word mode.
    fn inword(&mut self, c: char)
        requires
            st_wf(dec_view(*old(self))),
        ensures
            dec_view(*final(self)) == spec_inword(dec_view(*old(self)), c),
            st_wf(dec_view(*final(self))),
    {
        if c == '\\' {
            self.mode = ParseState::Escape;
        } else if c == '$' {
            self.mark_eow();
        } else if c == '<' {
            self.mode = ParseState::Remove;
        } else if c == '#' {
            let ds: Vec<char> = Vec::new();
            self.mode = ParseState::AbsRef(ds);
            proof {
                assert(dec_view(*self).mode == SpecMode::AbsRef(Seq::<char>::empty())) by {
                    assert(Seq::<char>::empty() =~= dec_view(*self).mode->AbsRef_0);
                }
            }
        } else {
            self.descend(c);
        }
    }

    /// Resolve an absolute reference from accumulated digits.
    fn resolve(&mut self, digits: &Vec<char>, base: u32) -> (r: Result<(), DecodeError>)
        requires
            2 <= base <= 36,
            st_wf(dec_view(*old(self))),
        ensures
            match spec_resolve(dec_view(*old(self)), digits@, base) {
                Option::Some(s2) => r is Ok && dec_view(*final(self)) == s2 && st_wf(s2),
                Option::None => r is Err,
            },
    {
        let ghost s0 = dec_view(*old(self));
        let v = match parse_radix(digits, base) {
            Some(v) => v,
            None => {
                return Err(DecodeError::BadReference);
            },
        };
        if self.pos.len() < 2 {
            return Err(DecodeError::PopEmpty);
        }
        let top = self.pos[self.pos.len() - 1];
        proof {
            assert(s0.pos.last() == (top.0 as int, top.1));
        }
        if self.numbered.len() > 0 && self.numbered[self.numbered.len() - 1] == top.0 {
            proof {
                assert(s0.numbered.last() == self.numbered@.last() as int);
            }
            self.numbered.pop();
            proof {
                assert(dec_view(*self).numbered =~= s0.numbered.drop_last());
            }
        } else {
            proof {
                if s0.numbered.len() > 0 && s0.numbered.last() == top.0 as int {
                    assert(self.numbered@.last() as int == s0.numbered.last());
                }
            }
        }
        if v as usize >= self.numbered.len() {
            return Err(DecodeError::BadReference);
        }
        let target = self.numbered[v as usize];
        let parent = self.pos[self.pos.len() - 2].0;
        proof {
            assert(s0.pos[s0.pos.len() - 2].0 == parent as int);
        }
        let ghost nodes0 = dec_view(*self).nodes;
        proof {
            assert(nodes0 == s0.nodes);
        }
        set_child_exec(&mut self.nodes[parent].children, top.1, target);
        self.mode = ParseState::InWord;
        proof {
            let s2 = spec_resolve(s0, digits@, base)->Some_0;
            let node = s0.nodes[parent as int];
            let pn = SpecNode {
                eow: node.eow,
                children: set_child(node.children, top.1, target as int),
            };
            assert(node_view(self.nodes@[parent as int]).eow == pn.eow);
            assert(node_view(self.nodes@[parent as int]) =~~= pn);
            assert(dec_view(*self).nodes =~~= s2.nodes);
            assert(dec_view(*self).pos =~= s2.pos);
            assert(dec_view(*self) =~~= s2);
            assert(st_wf(s2)) by {
                assert forall|i: int, kk: int|
                    0 <= i < s2.nodes.len() && 0 <= kk < s2.nodes[i].children.len() implies 0 <= (
                #[trigger] s2.nodes[i].children[kk]).1 < s2.nodes.len() by {
                    if i == parent as int {
                        lemma_set_child_entries(
                            s0.nodes[i].children,
                            top.1,
                            target as int,
                        );
                    } else {
                        assert(s2.nodes[i].children == s0.nodes[i].children);
                    }
                }
            }
        }
        Ok(())
    }

    /// One step of the machine on one body character.
    fn process_char(&mut self, c: char, base: u32) -> (r: Result<(), DecodeError>)
        requires
            2 <= base <= 36,
            st_wf(dec_view(*old(self))),
        ensures
            match spec_step(dec_view(*old(self)), c, base) {
                Option::Some(s2) => r is Ok && dec_view(*final(self)) == s2 && st_wf(s2),
                Option::None => r is Err,
            },
    {
        let ghost s0 = dec_view(*old(self));
        let mut mode = ParseState::InWord;
        core::mem::swap(&mut mode, &mut self.mode);
        match mode {
            ParseState::InWord => {
                self.inword(c);
                Ok(())
            },
            ParseState::Escape => {
                self.descend(c);
                Ok(())
            },
            ParseState::AbsRef(mut ds) => {
                if c == ';' {
                    proof {
                        assert(dec_view(*self).nodes == s0.nodes);
                        assert(dec_view(*self).pos == s0.pos);
                        assert(dec_view(*self).numbered == s0.numbered);
                    }
                    let r = self.resolve(&ds, base);
                    proof {
                        let sx = DecSt {
                            nodes: s0.nodes,
                            pos: s0.pos,
                            numbered: s0.numbered,
                            mode: SpecMode::InWord,
                        };
                        assert(spec_resolve(sx, ds@, base) == spec_resolve(s0, ds@, base));
                    }
                    r
                } else {
                    ds.push(c);
                    self.mode = ParseState::AbsRef(ds);
                    Ok(())
                }
            },
            ParseState::Remove => {
                let u = c as u32;
                if 50 <= u && u <= 57 {
                    let n = (u - 49) as usize;
                    if self.pos.len() > n {
                        let newlen = self.pos.len() - n;
                        self.pos.truncate(newlen);
                        self.mode = ParseState::Remove;
                        proof {
                            let s2 = spec_step(s0, c, base)->Some_0;
                            assert(dec_view(*self).pos =~= s2.pos);
                            assert(dec_view(*self) =~~= s2);
                        }
                        Ok(())
                    } else {
                        Err(DecodeError::PopEmpty)
                    }
                } else if c == '1' {
                    Err(DecodeError::BadPopCount)
                } else {
                    if self.pos.len() > 1 {
                        self.pos.pop();
                        proof {
                            assert(dec_view(*self).pos =~= s0.pos.drop_last());
                        }
                        self.inword(c);
                        Ok(())
                    } else {
                        Err(DecodeError::PopEmpty)
                    }
                }
            },
        }
    }
}

// ---------------------------------------------------------------------------
// Word enumeration
// ---------------------------------------------------------------------------

/// Every child edge of every node points into the arena.
pub open spec fn arena_wf(nodes: Seq<SpecNode>) -> bool {
    forall|i: int, k: int|
        0 <= i < nodes.len() && 0 <= k < nodes[i].children.len() ==> 0 <= (
        #[trigger] nodes[i].children[k]).1 < nodes.len()
}

/// Whether the collected output holds the word.
pub open spec fn has_w(o: Seq<Vec<char>>, w: Seq<char>) -> bool {
    exists|j: int| 0 <= j < o.len() && (#[trigger] o[j])@ == w
}

/// Depth-first enumeration of the words below `id`, prefixed; fails when a
/// path is longer than the fuel (in particular on an aliasing cycle).
fn collect_words(
    nodes: &Vec<TrieNodeData>,
    id: usize,
    prefix: &mut Vec<char>,
    fuel: u64,
    out: &mut Vec<Vec<char>>,
) -> (r: bool)
    requires
        arena_wf(nodes_view(nodes@)),
        (id as int) < nodes@.len(),
    ensures
        r == depth_ok(nodes_view(nodes@), id as int, fuel as nat),
        final(prefix)@ == old(prefix)@,
        r ==> forall|w: Seq<char>|
            has_w(final(out)@, w) <==> (has_w(old(out)@, w) || (exists|sfx: Seq<char>|
                #[trigger] word_in(nodes_view(nodes@), id as int, sfx) && w == old(prefix)@
                    + sfx)),
    decreases fuel,
{
    let ghost nv = nodes_view(nodes@);
    let ghost p0 = prefix@;
    let ghost out0 = out@;
    if fuel == 0 {
        return false;
    }
    if nodes[id].eow {
        let w = crate::text::clone_chars(prefix);
        out.push(w);
    }
    let ghost out1 = out@;
    proof {
        assert(nv[id as int].eow == nodes@[id as int].eow);
        assert forall|w: Seq<char>| #[trigger] has_w(out1, w) implies (has_w(out0, w) || (
        nv[id as int].eow && w == p0)) by {
            let j = choose|j: int| 0 <= j < out1.len() && (#[trigger] out1[j])@ == w;
            if j < out0.len() {
                assert(out1[j] == out0[j]);
            }
        }
        assert forall|w: Seq<char>| (has_w(out0, w) || (nv[id as int].eow && w
            == p0)) implies #[trigger] has_w(out1, w) by {
            if has_w(out0, w) {
                let j = choose|j: int| 0 <= j < out0.len() && (#[trigger] out0[j])@ == w;
                assert(out1[j] == out0[j]);
            } else {
                assert((out1[out0.len() as int])@ == p0);
            }
        }
    }
    let n = nodes[id].children.len();
    let mut k: usize = 0;
    while k < n
        invariant
            k <= n,
            n == nv[id as int].children.len(),
            nv == nodes_view(nodes@),
            arena_wf(nv),
            (id as int) < nv.len(),
            fuel >= 1,
            prefix@ == p0,
            p0 == old(prefix)@,
            out0 == old(out)@,
            forall|w: Seq<char>|
                #[trigger] has_w(out1, w) <==> (has_w(out0, w) || (nv[id as int].eow && w == p0)),
            forall|kk: int|
                0 <= kk < k ==> depth_ok(
                    nv,
                    (#[trigger] nv[id as int].children[kk]).1,
                    (fuel - 1) as nat,
                ),
            forall|w: Seq<char>|
                #[trigger] has_w(out@, w) <==> (has_w(out1, w) || (exists|kk: int, sfx: Seq<char>|
                    0 <= kk < k && #[trigger] word_in(
                        nv,
                        nv[id as int].children[kk].1,
                        sfx,
                    ) && w == p0 + seq![nv[id as int].children[kk].0] + sfx)),
        decreases n - k,
    {
        let edge = nodes[id].children[k];
        proof {
            assert(nv[id as int].children[k as int] == (edge.0, edge.1 as int));
        }
        let ghost out_pre = out@;
        prefix.push(edge.0);
        let ok = collect_words(nodes, edge.1, prefix, fuel - 1, out);
        prefix.pop();
        proof {
            assert(prefix@ =~= p0);
        }
        if !ok {
            proof {
                assert(!depth_ok(nv, (edge.1) as int, (fuel - 1) as nat));
                assert(!depth_ok(nv, id as int, fuel as nat));
            }
            return false;
        }
        proof {
            let c = edge.0;
            assert(p0.push(c) =~= p0 + seq![c]);
            assert forall|w: Seq<char>| #[trigger] has_w(out@, w) implies (has_w(out1, w) || (
            exists|kk: int, sfx: Seq<char>|
                0 <= kk < k + 1 && #[trigger] word_in(nv, nv[id as int].children[kk].1, sfx)
                    && w == p0 + seq![nv[id as int].children[kk].0] + sfx)) by {
                if !has_w(out_pre, w) {
                    let sfx = choose|sfx: Seq<char>|
                        #[trigger] word_in(nv, edge.1 as int, sfx) && w == p0.push(c) + sfx;
                    assert(w == p0 + seq![c] + sfx);
                    assert(0 <= k < k + 1 && word_in(nv, nv[id as int].children[k as int].1, sfx)
                        && w == p0 + seq![nv[id as int].children[k as int].0] + sfx);
                }
            }
            assert forall|w: Seq<char>|
                (has_w(out1, w) || (exists|kk: int, sfx: Seq<char>|
                    0 <= kk < k + 1 && #[trigger] word_in(nv, nv[id as int].children[kk].1, sfx)
                        && w == p0 + seq![nv[id as int].children[kk].0]
                        + sfx)) implies #[trigger] has_w(out@, w) by {
                if has_w(out1, w) {
                    assert(has_w(out_pre, w));
                } else {
                    let (kk, sfx) = choose|kk: int, sfx: Seq<char>|
                        0 <= kk < k + 1 && #[trigger] word_in(nv, nv[id as int].children[kk].1, sfx)
                            && w == p0 + seq![nv[id as int].children[kk].0] + sfx;
                    if kk < k {
                        assert(has_w(out_pre, w));
                    } else {
                        assert(w == p0.push(c) + sfx);
                    }
                }
            }
        }
        k = k + 1;
    }
    proof {
        assert(depth_ok(nv, id as int, fuel as nat));
        assert forall|w: Seq<char>| #[trigger] has_w(out@, w) implies (has_w(out0, w) || (exists|
            sfx: Seq<char>,
        |
            #[trigger] word_in(nv, id as int, sfx) && w == p0 + sfx)) by {
            if !has_w(out1, w) {
                let (kk, sfx) = choose|kk: int, sfx: Seq<char>|
                    0 <= kk < n && #[trigger] word_in(nv, nv[id as int].children[kk].1, sfx) && w
                        == p0 + seq![nv[id as int].children[kk].0] + sfx;
                let full = seq![nv[id as int].children[kk].0] + sfx;
                assert(full[0] == nv[id as int].children[kk].0);
                assert(full.drop_first() =~= sfx);
                assert(word_in(nv, id as int, full));
                assert(w == p0 + seq![nv[id as int].children[kk].0] + sfx);
                assert(p0 + seq![nv[id as int].children[kk].0] + sfx =~= p0 + full);
            } else {
                if !has_w(out0, w) {
                    assert(nv[id as int].eow && w == p0);
                    assert(word_in(nv, id as int, Seq::<char>::empty()));
                    assert(p0 + Seq::<char>::empty() =~= p0);
                }
            }
        }
        assert forall|w: Seq<char>|
            (has_w(out0, w) || (exists|sfx: Seq<char>|
                #[trigger] word_in(nv, id as int, sfx) && w == p0 + sfx)) implies #[trigger] has_w(
            out@,
            w,
        ) by {
            if has_w(out0, w) {
                assert(has_w(out1, w));
            } else {
                let sfx = choose|sfx: Seq<char>|
                    #[trigger] word_in(nv, id as int, sfx) && w == p0 + sfx;
                if sfx.len() == 0 {
                    assert(nv[id as int].eow);
                    assert(w =~= p0);
                    assert(has_w(out1, w));
                } else {
                    let kk = choose|kk: int|
                        0 <= kk < nv[id as int].children.len() && (
                        #[trigger] nv[id as int].children[kk]).0 == sfx[0] && word_in(
                            nv,
                            nv[id as int].children[kk].1,
                            sfx.drop_first(),
                        );
                    assert(w == p0 + seq![nv[id as int].children[kk].0] + sfx.drop_first()) by {
                        assert(seq![sfx[0]] + sfx.drop_first() =~= sfx);
                        assert(p0 + seq![sfx[0]] + sfx.drop_first() =~= p0 + sfx);
                    }
                }
            }
        }
    }
    true
}

// ---------------------------------------------------------------------------
// Running the machine over a whole stream
// ---------------------------------------------------------------------------

/// A failed run stays failed when the stream is extended.
proof fn lemma_run_none_prefix(s0: DecSt, b: Seq<char>, n: int, base: u32)
    requires
        0 <= n <= b.len(),
        spec_run(s0, b.take(n), base) is None,
    ensures
        spec_run(s0, b, base) is None,
    decreases b.len() - n,
{
    if n == b.len() {
        assert(b.take(n) =~= b);
    } else {
        assert(b.drop_last().take(n) =~= b.take(n));
        lemma_run_none_prefix(s0, b.drop_last(), n, base);
    }
}

/// The flattened prefix of a line list is a prefix of the flattened whole.
proof fn lemma_lines_body_take(lv: Seq<Seq<char>>, n: int)
    requires
        0 <= n <= lv.len(),
    ensures
        lines_body(lv).len() >= lines_body(lv.take(n)).len(),
        lines_body(lv).take(lines_body(lv.take(n)).len() as int) == lines_body(lv.take(n)),
    decreases lv.len() - n,
{
    if n == lv.len() {
        assert(lv.take(n) =~= lv);
        assert(lines_body(lv).take(lines_body(lv).len() as int) =~= lines_body(lv));
    } else {
        lemma_lines_body_take(lv, n + 1);
        assert(lv.take(n + 1).drop_last() =~= lv.take(n));
        assert(lv.take(n + 1).last() == lv[n]);
        assert(lines_body(lv.take(n + 1)) == lines_body(lv.take(n)) + lv[n]);
        let a = lines_body(lv.take(n));
        let ab = lines_body(lv.take(n + 1));
        assert(ab.take(a.len() as int) =~= a);
        assert(lines_body(lv).take(a.len() as int) =~= lines_body(lv).take(
            ab.len() as int,
        ).take(a.len() as int));
    }
}

/// Decode a body stream with the given radix into a word-index, folding
/// the decoded words when the index is to be case-insensitive.
pub fn decode_stream(base: u32, lines: &Vec<String>, case_sensitive: bool) -> (r: Result<
    Trie,
    DecodeError,
>)
    requires
        2 <= base <= 36,
    ensures
        ({
            let body = lines_body(lines@.map_values(|l: String| l@));
            match r {
                Result::Ok(t) => spec_decode(body, base) is Some && t.words() == decoded_word_map(
                    spec_decode(body, base)->Some_0,
                    case_sensitive,
                ) && t.opts() == TrieOptions { cache: true, case_sensitive },
                Result::Err(_) => spec_decode(body, base) is None,
            }
        }),
{
    let ghost lv = lines@.map_values(|l: String| l@);
    let ghost body = lines_body(lv);
    let mut b = TrieBuilder::new();
    let mut li: usize = 0;
    proof {
        assert(lines_body(lv.take(0)) =~= Seq::<char>::empty());
        assert(spec_run(init_state(), lines_body(lv.take(0)), base) == Some(dec_view(b)));
    }
    while li < lines.len()
        invariant
            li <= lines.len(),
            lv == lines@.map_values(|l: String| l@),
            body == lines_body(lv),
            2 <= base <= 36,
            st_wf(dec_view(b)),
            spec_run(init_state(), lines_body(lv.take(li as int)), base) == Some(dec_view(b)),
        decreases lines.len() - li,
    {
        let cs = chars_of(lines[li].as_str());
        let ghost line = cs@;
        proof {
            assert(line == lv[li as int]);
            assert(line.take(0) =~= Seq::<char>::empty());
            assert(lines_body(lv.take(li as int)) + line.take(0) =~= lines_body(
                lv.take(li as int),
            ));
        }
        let mut ci: usize = 0;
        while ci < cs.len()
            invariant
                ci <= cs.len(),
                line == cs@,
                lv == lines@.map_values(|l: String| l@),
                body == lines_body(lv),
                li < lv.len(),
                line == lv[li as int],
                2 <= base <= 36,
                st_wf(dec_view(b)),
                spec_run(
                    init_state(),
                    lines_body(lv.take(li as int)) + line.take(ci as int),
                    base,
                ) == Some(dec_view(b)),
            decreases cs.len() - ci,
        {
            let c = cs[ci];
            let ghost pre = lines_body(lv.take(li as int)) + line.take(ci as int);
            let ghost post = lines_body(lv.take(li as int)) + line.take(ci + 1);
            proof {
                assert(line.take(ci + 1).drop_last() =~= line.take(ci as int));
                assert(post.drop_last() =~= pre);
                assert(post.last() == line[ci as int]);
            }
            if c == '\n' || c == '\r' {
                proof {
                    assert(spec_run(init_state(), post, base) == Some(dec_view(b)));
                }
            } else {
                match b.process_char(c, base) {
                    Ok(_) => {
                        proof {
                            assert(spec_run(init_state(), post, base) == Some(dec_view(b)));
                        }
                    },
                    Err(e) => {
                        proof {
                            assert(spec_run(init_state(), post, base) is None);
                            let upto = lines_body(lv.take(li + 1));
                            assert(lv.take(li + 1).drop_last() =~= lv.take(li as int));
                            assert(lv.take(li + 1).last() == line);
                            assert(upto == lines_body(lv.take(li as int)) + line);
                            assert(post =~= upto.take(post.len() as int)) by {
                                assert(line.take(ci + 1) =~= line.take(ci + 1));
                                assert forall|x: int| 0 <= x < post.len() implies post[x] == upto[x]
                                    by {}
                            }
                            lemma_run_none_prefix(init_state(), upto, post.len() as int, base);
                            lemma_lines_body_take(lv, li + 1);
                            assert(upto =~= body.take(upto.len() as int));
                            lemma_run_none_prefix(init_state(), body, upto.len() as int, base);
                        }
                        return Err(e);
                    },
                }
            }
            ci = ci + 1;
        }
        proof {
            assert(line.take(line.len() as int) =~= line);
            assert(lv.take(li + 1).drop_last() =~= lv.take(li as int));
            assert(lv.take(li + 1).last() == line);
            assert(lines_body(lv.take(li + 1)) == lines_body(lv.take(li as int)) + line);
        }
        li = li + 1;
    }
    proof {
        assert(lv.take(lv.len() as int) =~= lv);
    }
    let ghost fin = dec_view(b);
    let mut prefix: Vec<char> = Vec::new();
    let mut words: Vec<Vec<char>> = Vec::new();
    proof {
        assert(arena_wf(fin.nodes));
        assert(fin.nodes.len() >= 1);
    }
    let ok = collect_words(&b.nodes, 0, &mut prefix, MAX_WORD_DEPTH, &mut words);
    if !ok {
        return Err(DecodeError::TooDeep);
    }
    proof {
        assert forall|w: Seq<char>| has_w(words@, w) <==> word_in(fin.nodes, 0, w) by {
            if has_w(words@, w) {
                let sfx = choose|sfx: Seq<char>|
                    #[trigger] word_in(fin.nodes, 0, sfx) && w == Seq::<char>::empty() + sfx;
                assert(Seq::<char>::empty() + sfx =~= sfx);
            }
            if word_in(fin.nodes, 0, w) {
                assert(Seq::<char>::empty() + w =~= w);
                assert(word_in(fin.nodes, 0, w) && w == Seq::<char>::empty() + w);
            }
        }
    }
    let mut lst: Vec<(Vec<char>, u64)> = Vec::new();
    let mut j: usize = 0;
    proof {
        assert(lst@.map_values(|p: (Vec<char>, u64)| (p.0@, p.1)) =~= Seq::<(
            Seq<char>,
            u64,
        )>::empty());
        assert(pairs_map(lst@.map_values(|p: (Vec<char>, u64)| (p.0@, p.1))) =~= Map::new(
            |w: Seq<char>|
                exists|jj: int|
                    0 <= jj < 0 && crate::trie::folded((#[trigger] words@[jj])@, case_sensitive)
                        == w,
            |w: Seq<char>| STATUS_ALLOW,
        ));
    }
    while j < words.len()
        invariant
            j <= words.len(),
            crate::trie::keys_sorted(lst@.map_values(|p: (Vec<char>, u64)| (p.0@, p.1))),
            pairs_map(lst@.map_values(|p: (Vec<char>, u64)| (p.0@, p.1))) == Map::new(
                |w: Seq<char>|
                    exists|jj: int|
                        0 <= jj < j && crate::trie::folded(
                            (#[trigger] words@[jj])@,
                            case_sensitive,
                        ) == w,
                |w: Seq<char>| STATUS_ALLOW,
            ),
        decreases words.len() - j,
    {
        let ghost m0 = pairs_map(lst@.map_values(|p: (Vec<char>, u64)| (p.0@, p.1)));
        let key = if case_sensitive {
            crate::text::clone_chars(&words[j])
        } else {
            crate::text::lower_chars(&words[j])
        };
        let ghost kw = key@;
        proof {
            assert(kw == crate::trie::folded(words@[j as int]@, case_sensitive));
        }
        crate::trie::insert_word(&mut lst, key, STATUS_ALLOW);
        j = j + 1;
        proof {
            let m1 = pairs_map(lst@.map_values(|p: (Vec<char>, u64)| (p.0@, p.1)));
            let tgt = Map::new(
                |w: Seq<char>|
                    exists|jj: int|
                        0 <= jj < j && crate::trie::folded(
                            (#[trigger] words@[jj])@,
                            case_sensitive,
                        ) == w,
                |w: Seq<char>| STATUS_ALLOW,
            );
            assert(m1 == m0.insert(kw, STATUS_ALLOW));
            assert forall|w: Seq<char>| m1.dom().contains(w) implies tgt.dom().contains(w) by {
                if w == kw {
                    assert(crate::trie::folded((words@[j - 1])@, case_sensitive) == w);
                } else {
                    let jj = choose|jj: int|
                        0 <= jj < j - 1 && crate::trie::folded(
                            (#[trigger] words@[jj])@,
                            case_sensitive,
                        ) == w;
                    assert(crate::trie::folded((words@[jj])@, case_sensitive) == w);
                }
            }
            assert forall|w: Seq<char>| tgt.dom().contains(w) implies m1.dom().contains(w) by {
                let jj = choose|jj: int|
                    0 <= jj < j && crate::trie::folded(
                        (#[trigger] words@[jj])@,
                        case_sensitive,
                    ) == w;
                if jj < j - 1 {
                    assert(m0.dom().contains(w));
                } else {
                    assert(w == kw);
                }
            }
            assert forall|w: Seq<char>| m1.dom().contains(w) implies m1[w] == STATUS_ALLOW by {
                if w != kw {
                    assert(m0.dom().contains(w));
                }
            }
            assert(m1 =~= tgt);
        }
    }
    proof {
        let m = pairs_map(lst@.map_values(|p: (Vec<char>, u64)| (p.0@, p.1)));
        let ws = spec_decode(body, base)->Some_0;
        assert(m =~= decoded_word_map(ws, case_sensitive)) by {
            assert forall|w: Seq<char>| m.dom().contains(w) implies decoded_word_map(
                ws,
                case_sensitive,
            ).dom().contains(w) by {
                let jj = choose|jj: int|
                    0 <= jj < words@.len() && crate::trie::folded(
                        (#[trigger] words@[jj])@,
                        case_sensitive,
                    ) == w;
                assert(has_w(words@, words@[jj]@));
                assert(ws.contains(words@[jj]@) && crate::trie::folded(
                    words@[jj]@,
                    case_sensitive,
                ) == w);
            }
            assert forall|w: Seq<char>| decoded_word_map(ws, case_sensitive).dom().contains(
                w,
            ) implies m.dom().contains(w) by {
                let v = choose|v: Seq<char>|
                    #[trigger] ws.contains(v) && crate::trie::folded(v, case_sensitive) == w;
                assert(has_w(words@, v));
                let jj = choose|jj: int| 0 <= jj < words@.len() && (#[trigger] words@[jj])@ == v;
                assert(crate::trie::folded((words@[jj])@, case_sensitive) == w);
            }
        }
    }
    let t = crate::trie::trie_from_pairs(&lst, TrieOptions { cache: true, case_sensitive });
    Ok(t)
}

/// Decode a body stream into the default, case-insensitive word-index.
pub fn parse_stream(base: u32, lines: &Vec<String>) -> (r: Result<Trie, DecodeError>)
    requires
        2 <= base <= 36,
    ensures
        ({
            let body = lines_body(lines@.map_values(|l: String| l@));
            match r {
                Result::Ok(t) => spec_decode(body, base) is Some && t.words() == decoded_word_map(
                    spec_decode(body, base)->Some_0,
                    false,
                ) && t.opts() == default_options(),
                Result::Err(_) => spec_decode(body, base) is None,
            }
        }),
{
    let r = decode_stream(base, lines, false);
    proof {
        assert(TrieOptions { cache: true, case_sensitive: false } == default_options());
    }
    r
}

// ---------------------------------------------------------------------------
// Header
// ---------------------------------------------------------------------------

/// The version tag of a trie header, e.g. the string after `TrieXv`.
pub struct Version(pub String);

/// The text after the last `v`, or the whole string when there is none.
pub open spec fn version_tail(s: Seq<char>) -> Seq<char>
    decreases s.len(),
{
    if s.len() == 0 {
        s
    } else if s.last() == 'v' {
        Seq::empty()
    } else {
        version_tail(s.drop_last()).push(s.last())
    }
}

impl Version {
    /// The numeric version, read from the digits after the last `v`.
    pub fn to_u8(&self) -> (r: u8)
        requires
            parse_radix_spec(version_tail(self.0@), 10) is Some,
            parse_radix_spec(version_tail(self.0@), 10)->Some_0 <= 255,
        ensures
            r as nat == parse_radix_spec(version_tail(self.0@), 10)->Some_0,
    {
        let cs = chars_of(self.0.as_str());
        let mut start: usize = 0;
        let mut i: usize = 0;
        proof {
            assert(cs@.take(0) =~= Seq::<char>::empty());
            assert(cs@.take(0).skip(0) =~= version_tail(cs@.take(0)));
        }
        while i < cs.len()
            invariant
                start <= i <= cs.len(),
                cs@ == self.0@,
                version_tail(cs@.take(i as int)) == cs@.take(i as int).skip(start as int),
            decreases cs.len() - i,
        {
            let c = cs[i];
            proof {
                assert(cs@.take(i + 1).drop_last() =~= cs@.take(i as int));
                assert(cs@.take(i + 1).last() == cs@[i as int]);
            }
            if c == 'v' {
                start = i + 1;
                proof {
                    assert(version_tail(cs@.take(i + 1)) =~= cs@.take(i + 1).skip(start as int));
                }
            } else {
                proof {
                    assert(version_tail(cs@.take(i + 1)) =~= cs@.take(i + 1).skip(start as int));
                }
            }
            i = i + 1;
        }
        proof {
            assert(cs@.take(cs@.len() as int) =~= cs@);
        }
        let tail = crate::text::chars_slice(&cs, start);
        match parse_radix(&tail, 10) {
            Some(v) => v as u8,
            None => {
                proof {
                    assert(false);
                }
                vstd::pervasive::unreached()
            },
        }
    }
}

/// A parsed trie header: the version tag and the reference radix.
pub struct Header {
    pub version: Version,
    pub base: u8,
}

pub open spec fn is_data_line(l: Seq<char>) -> bool {
    has_suffix(l, "__DATA__"@)
}

/// Index of the first data sentinel line, or -1.
pub open spec fn data_pos(ls: Seq<Seq<char>>) -> int
    decreases ls.len(),
{
    if ls.len() == 0 {
        -1
    } else if is_data_line(ls[0]) {
        0
    } else {
        let r = data_pos(ls.drop_first());
        if r < 0 {
            -1
        } else {
            r + 1
        }
    }
}

pub proof fn lemma_data_pos(ls: Seq<Seq<char>>)
    ensures
        data_pos(ls) == -1 ==> forall|k: int| 0 <= k < ls.len() ==> !is_data_line(#[trigger] ls[k]),
        data_pos(ls) >= 0 ==> {
            let r = data_pos(ls);
            &&& 0 <= r < ls.len()
            &&& is_data_line(ls[r])
            &&& forall|k: int| 0 <= k < r ==> !is_data_line(#[trigger] ls[k])
        },
    decreases ls.len(),
{
    if ls.len() > 0 && !is_data_line(ls[0]) {
        lemma_data_pos(ls.drop_first());
        let t = ls.drop_first();
        assert forall|k: int| 1 <= k < ls.len() implies ls[k] == t[k - 1] by {}
    }
}

/// The text after the tag on the last line that starts with the tag.
pub open spec fn last_tagged(ls: Seq<Seq<char>>, tag: Seq<char>) -> Option<Seq<char>>
    decreases ls.len(),
{
    if ls.len() == 0 {
        None
    } else if has_prefix(ls.last(), tag) {
        Some(ls.last().skip(tag.len() as int))
    } else {
        last_tagged(ls.drop_last(), tag)
    }
}

pub open spec fn header_version(ls: Seq<Seq<char>>) -> Option<Seq<char>> {
    last_tagged(ls, "TrieXv"@)
}

pub open spec fn header_base(ls: Seq<Seq<char>>) -> Option<Seq<char>> {
    last_tagged(ls, "base="@)
}

/// Whether the lines up to the data sentinel form a usable header.
pub open spec fn header_ok(lv: Seq<Seq<char>>) -> bool {
    let dp = data_pos(lv);
    &&& dp >= 0
    &&& match header_version(lv.take(dp)) {
        Some(vs) => parse_radix_spec(vs, 10) is Some && parse_radix_spec(vs, 10)->Some_0 <= 255,
        None => false,
    }
    &&& match header_base(lv.take(dp)) {
        Some(bs) => parse_radix_spec(bs, 10) is Some && parse_radix_spec(bs, 10)->Some_0 <= 255,
        None => false,
    }
}

pub open spec fn header_base_val(lv: Seq<Seq<char>>) -> nat {
    parse_radix_spec(header_base(lv.take(data_pos(lv)))->Some_0, 10)->Some_0
}

/// Scan the header lines up to the data sentinel; the last version line and
/// the last base line win.
pub fn parse_header(input: &Vec<String>) -> (r: Result<(usize, Header), DecodeError>)
    ensures
        ({
            let lv = input@.map_values(|l: String| l@);
            match r {
                Result::Ok(p) => {
                    &&& header_ok(lv)
                    &&& p.0 as int == data_pos(lv) + 1
                    &&& p.1.version.0@ == header_version(lv.take(data_pos(lv)))->Some_0
                    &&& p.1.base as nat == header_base_val(lv)
                },
                Result::Err(e) => {
                    &&& !header_ok(lv)
                    &&& (e == DecodeError::MissingData <==> data_pos(lv) < 0)
                },
            }
        }),
{
    let ghost lv = input@.map_values(|l: String| l@);
    proof {
        lemma_data_pos(lv);
    }
    let data_tag = chars_of("__DATA__");
    let version_tag = chars_of("TrieXv");
    let base_tag = chars_of("base=");
    let mut version: Option<Vec<char>> = None;
    let mut base_s: Option<Vec<char>> = None;
    let mut i: usize = 0;
    proof {
        assert(lv.take(0) =~= Seq::<Seq<char>>::empty());
    }
    while i < input.len()
        invariant
            i <= input.len(),
            lv == input@.map_values(|l: String| l@),
            data_tag@ == "__DATA__"@,
            version_tag@ == "TrieXv"@,
            base_tag@ == "base="@,
            forall|k: int| 0 <= k < i ==> !is_data_line(#[trigger] lv[k]),
            match version {
                Some(v) => header_version(lv.take(i as int)) == Some(v@),
                None => header_version(lv.take(i as int)) is None,
            },
            match base_s {
                Some(v) => header_base(lv.take(i as int)) == Some(v@),
                None => header_base(lv.take(i as int)) is None,
            },
        decreases input.len() - i,
    {
        let cs = chars_of(input[i].as_str());
        proof {
            assert(cs@ == lv[i as int]);
            assert(lv.take(i + 1).drop_last() =~= lv.take(i as int));
            assert(lv.take(i + 1).last() == lv[i as int]);
        }
        if chars_have_suffix(&cs, &data_tag) {
            // the sentinel: the header ends here
            proof {
                lemma_data_pos(lv);
                assert(is_data_line(lv[i as int]));
                assert(data_pos(lv) == i) by {
                    if data_pos(lv) == -1 {
                        assert(!is_data_line(lv[i as int]));
                    } else if data_pos(lv) < i {
                        assert(!is_data_line(lv[data_pos(lv)]));
                    } else if data_pos(lv) > i {
                        assert(!is_data_line(lv[i as int]));
                    }
                }
            }
            let v = match version {
                Some(v) => v,
                None => {
                    return Err(DecodeError::MissingVersion);
                },
            };
            // the version after the tag must be decimal
            match parse_radix(&v, 10) {
                Some(n) => {
                    if n > 255 {
                        return Err(DecodeError::MissingVersion);
                    }
                },
                None => {
                    return Err(DecodeError::MissingVersion);
                },
            }
            let bs = match base_s {
                Some(bs) => bs,
                None => {
                    return Err(DecodeError::BadBase);
                },
            };
            let bval = match parse_radix(&bs, 10) {
                Some(bv) => bv,
                None => {
                    return Err(DecodeError::BadBase);
                },
            };
            if bval > 255 {
                return Err(DecodeError::BadBase);
            }
            let header = Header { version: Version(string_from_chars(&v)), base: bval as u8 };
            return Ok((i + 1, header));
        }
        if chars_have_prefix(&cs, &version_tag) {
            proof {
                reveal_strlit("TrieXv");
                assert(version_tag@.len() == 6);
            }
            let tail = crate::text::chars_slice(&cs, 6);
            proof {
                assert(tail@ == lv[i as int].skip(6));
            }
            version = Some(tail);
        }
        if chars_have_prefix(&cs, &base_tag) {
            proof {
                reveal_strlit("base=");
                assert(base_tag@.len() == 5);
            }
            let tail = crate::text::chars_slice(&cs, 5);
            proof {
                assert(tail@ == lv[i as int].skip(5));
            }
            base_s = Some(tail);
        }
        i = i + 1;
    }
    proof {
        assert(data_pos(lv) < 0) by {
            if data_pos(lv) >= 0 {
                assert(!is_data_line(lv[data_pos(lv)]));
            }
        }
    }
    Err(DecodeError::MissingData)
}

/// Decode the body lines under a parsed header.
pub fn parse_body(input: &Vec<String>, header: &Header) -> (r: Result<Trie, DecodeError>)
    ensures
        ({
            let body = lines_body(input@.map_values(|l: String| l@));
            let base = header.base as u32;
            if 2 <= header.base && header.base <= 36 {
                match r {
                    Result::Ok(t) => spec_decode(body, base) is Some && t.words()
                        == decoded_word_map(spec_decode(body, base)->Some_0, false) && t.opts()
                        == default_options(),
                    Result::Err(_) => spec_decode(body, base) is None,
                }
            } else {
                r is Err
            }
        }),
{
    if header.base < 2 || header.base > 36 {
        return Err(DecodeError::BadBase);
    }
    parse_stream(header.base as u32, input)
}

/// Parse a whole trie stream with the given case sensitivity: header, then
/// body.
pub fn parse_trie_with(input: &Vec<String>, case_sensitive: bool) -> (r: Result<
    (Header, Trie),
    DecodeError,
>)
    ensures
        ({
            let lv = input@.map_values(|l: String| l@);
            match r {
                Result::Ok(p) => {
                    let body = lines_body(lv.skip(data_pos(lv) + 1));
                    &&& header_ok(lv)
                    &&& p.0.base as nat == header_base_val(lv)
                    &&& 2 <= p.0.base <= 36
                    &&& spec_decode(body, p.0.base as u32) is Some
                    &&& p.1.words() == decoded_word_map(
                        spec_decode(body, p.0.base as u32)->Some_0,
                        case_sensitive,
                    )
                    &&& p.1.opts() == TrieOptions { cache: true, case_sensitive }
                },
                Result::Err(_) => !(header_ok(lv) && 2 <= header_base_val(lv) <= 36
                    && spec_decode(
                    lines_body(lv.skip(data_pos(lv) + 1)),
                    header_base_val(lv) as u32,
                ) is Some),
            }
        }),
{
    let ghost lv = input@.map_values(|l: String| l@);
    let (counter, header) = match parse_header(input) {
        Ok(p) => p,
        Err(e) => {
            return Err(e);
        },
    };
    let mut body_lines: Vec<String> = Vec::new();
    let mut i: usize = counter;
    proof {
        lemma_data_pos(lv);
        assert(counter <= input@.len());
    }
    while i < input.len()
        invariant
            counter <= i <= input.len(),
            lv == input@.map_values(|l: String| l@),
            body_lines@.map_values(|l: String| l@) == lv.subrange(counter as int, i as int),
        decreases input.len() - i,
    {
        let line = input[i].clone();
        proof {
            assert(line@ == lv[i as int]);
        }
        body_lines.push(line);
        i = i + 1;
        proof {
            assert(lv.subrange(counter as int, i as int) =~= lv.subrange(
                counter as int,
                i - 1,
            ).push(lv[i - 1]));
            assert(body_lines@.map_values(|l: String| l@) =~= lv.subrange(
                counter as int,
                i as int,
            ));
        }
    }
    proof {
        assert(body_lines@.map_values(|l: String| l@) =~= lv.skip(counter as int));
    }
    if header.base < 2 || header.base > 36 {
        return Err(DecodeError::BadBase);
    }
    let t = match decode_stream(header.base as u32, &body_lines, case_sensitive) {
        Ok(t) => t,
        Err(e) => {
            return Err(e);
        },
    };
    Ok((header, t))
}

/// Parse a whole trie stream into the default, case-insensitive index.
pub fn parse_trie(input: &Vec<String>) -> (r: Result<(Header, Trie), DecodeError>)
    ensures
        ({
            let lv = input@.map_values(|l: String| l@);
            match r {
                Result::Ok(p) => {
                    let body = lines_body(lv.skip(data_pos(lv) + 1));
                    &&& header_ok(lv)
                    &&& p.0.base as nat == header_base_val(lv)
                    &&& 2 <= p.0.base <= 36
                    &&& spec_decode(body, p.0.base as u32) is Some
                    &&& p.1.words() == decoded_word_map(
                        spec_decode(body, p.0.base as u32)->Some_0,
                        false,
                    )
                    &&& p.1.opts() == default_options()
                },
                Result::Err(_) => !(header_ok(lv) && 2 <= header_base_val(lv) <= 36
                    && spec_decode(
                    lines_body(lv.skip(data_pos(lv) + 1)),
                    header_base_val(lv) as u32,
                ) is Some),
            }
        }),
{
    let r = parse_trie_with(input, false);
    proof {
        assert(TrieOptions { cache: true, case_sensitive: false } == default_options());
    }
    r
}

pub uninterp spec fn gunzip_of(b: Seq<u8>) -> Option<Seq<u8>>;

/// Relies on flate2's bufread::GzDecoder (through read_to_end): inflating a
/// gzip stream is a function of the bytes alone, failing on a malformed
/// stream.
#[verifier::external_body]
fn gunzip(data: &Vec<u8>) -> (r: Result<Vec<u8>, DecodeError>)
    ensures
        r is Ok <==> gunzip_of(data@) is Some,
        r is Ok ==> r->Ok_0@ == gunzip_of(data@)->Some_0,
{
    let mut decoder = flate2::bufread::GzDecoder::new(data.as_slice());
    let mut out = Vec::new();
    match std::io::Read::read_to_end(&mut decoder, &mut out) {
        Ok(_) => Ok(out),
        Err(_) => Err(DecodeError::BadGzip),
    }
}

/// Relies on String::from_utf8: it accepts exactly valid UTF-8 and decodes
/// it to the characters the bytes encode.
#[verifier::external_body]
fn bytes_to_string(data: Vec<u8>) -> (r: Result<String, DecodeError>)
    ensures
        r is Ok <==> vstd::utf8::valid_utf8(data@),
        r is Ok ==> r->Ok_0@ == vstd::utf8::decode_utf8(data@),
{
    match String::from_utf8(data) {
        Ok(s) => Ok(s),
        Err(_) => Err(DecodeError::NotText),
    }
}

/// The lines a trie file's bytes hold, after optional gzip inflation and
/// UTF-8 decoding.
pub open spec fn spec_file_lines(b: Seq<u8>, gz: bool) -> Option<Seq<Seq<char>>> {
    let raw = if gz {
        gunzip_of(b)
    } else {
        Some(b)
    };
    match raw {
        None => None,
        Some(rb) => if vstd::utf8::valid_utf8(rb) {
            Some(crate::text::split_nl(vstd::utf8::decode_utf8(rb)))
        } else {
            None
        },
    }
}

/// Split file bytes into lines, inflating first when the file was
/// gzip-compressed.
pub fn bytes_to_lines(data: Vec<u8>, gzipped: bool) -> (r: Result<Vec<String>, DecodeError>)
    ensures
        r is Ok <==> spec_file_lines(data@, gzipped) is Some,
        r is Ok ==> r->Ok_0@.map_values(|l: String| l@) == spec_file_lines(
            data@,
            gzipped,
        )->Some_0,
{
    let raw = if gzipped {
        match gunzip(&data) {
            Ok(v) => v,
            Err(e) => {
                return Err(e);
            },
        }
    } else {
        data
    };
    let s = match bytes_to_string(raw) {
        Ok(s) => s,
        Err(e) => {
            return Err(e);
        },
    };
    let cs = chars_of(s.as_str());
    let lines = crate::text::split_lines(&cs);
    let mut out: Vec<String> = Vec::new();
    let mut i: usize = 0;
    while i < lines.len()
        invariant
            i <= lines@.len(),
            out@.len() == i,
            forall|j: int| 0 <= j < i ==> (#[trigger] out@[j])@ == lines@[j]@,
        decreases lines@.len() - i,
    {
        out.push(string_from_chars(&lines[i]));
        i = i + 1;
    }
    proof {
        assert(out@.map_values(|l: String| l@) =~= lines@.map_values(|l: Vec<char>| l@));
    }
    Ok(out)
}

/// Marker for the CSpell trie dictionary source.
#[derive(Clone, Copy, Debug, PartialEq, Eq, Structural)]
pub struct CspellTrie;

impl CspellTrie {
    /// Decode a whole trie stream already split into lines.
    pub fn parse_trie(input: &Vec<String>) -> (r: Result<Trie, DecodeError>)
        ensures
            ({
                let lv = input@.map_values(|l: String| l@);
                match r {
                    Result::Ok(t) => {
                        let body = lines_body(lv.skip(data_pos(lv) + 1));
                        &&& header_ok(lv)
                        &&& spec_decode(body, header_base_val(lv) as u32) is Some
                        &&& t.words() == decoded_word_map(
                            spec_decode(body, header_base_val(lv) as u32)->Some_0,
                            false,
                        )
                    },
                    Result::Err(_) => !(header_ok(lv) && 2 <= header_base_val(lv) <= 36
                        && spec_decode(
                        lines_body(lv.skip(data_pos(lv) + 1)),
                        header_base_val(lv) as u32,
                    ) is Some),
                }
            }),
    {
        match parse_trie(input) {
            Ok(p) => Ok(p.1),
            Err(e) => Err(e),
        }
    }
}

} // verus!
