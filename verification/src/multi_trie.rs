//! The ordered union of word-indexes, with the identifier splitter and the
//! suggestion logic.
use vstd::prelude::*;

use std::sync::Arc;

use crate::text::{
    chars_of, chars_slice, chars_take, is_digit_c, is_digit_char, is_upper_c, is_upper_char,
    lower_chars, lower_seq, seq_char_le, seq_char_lt, string_from_chars,
    lemma_seq_char_le_total, lemma_seq_char_le_trans,
};
use crate::trie::{
    Trie, FuzzyError, EDIT_BUDGET, cand_set, sim_ge, sim_over_threshold, sim_pair, sim_parts,
    lemma_sim_ge_trans, lemma_sim_gt_ge_trans,
};

verus! {

/// The splitter class of the identifier analyzer: punctuation and digits.
pub open spec fn is_splitter_c(c: char) -> bool {
    ||| is_digit_c(c)
    ||| c == ' '
    ||| c == '_'
    ||| c == '-'
    ||| c == '('
    ||| c == ')'
    ||| c == '{'
    ||| c == '}'
    ||| c == '['
    ||| c == ']'
    ||| c == ','
    ||| c == '.'
    ||| c == ';'
    ||| c == ':'
    ||| c == '?'
    ||| c == '!'
    ||| c == '"'
    ||| c == '\''
    ||| c == '&'
    ||| c == '/'
    ||| c == '|'
    ||| c == '<'
    ||| c == '>'
    ||| c == '='
    ||| c == '+'
    ||| c == '*'
    ||| c == '%'
    ||| c == '^'
    ||| c == '~'
    ||| c == '`'
    ||| c == '@'
    ||| c == '#'
    ||| c == '$'
    ||| c == '\\'
}

pub fn is_splitter_char(c: char) -> (r: bool)
    ensures
        r == is_splitter_c(c),
{
    is_digit_char(c) || c == ' ' || c == '_' || c == '-' || c == '(' || c == ')' || c == '{'
        || c == '}' || c == '[' || c == ']' || c == ',' || c == '.' || c == ';' || c == ':'
        || c == '?' || c == '!' || c == '"' || c == '\'' || c == '&' || c == '/' || c == '|'
        || c == '<' || c == '>' || c == '=' || c == '+' || c == '*' || c == '%' || c == '^'
        || c == '~' || c == '`' || c == '@' || c == '#' || c == '$' || c == '\\'
}

/// Index of the first splitter character, or -1.
pub open spec fn find_split(t: Seq<char>) -> int
    decreases t.len(),
{
    if t.len() == 0 {
        -1
    } else if is_splitter_c(t[0]) {
        0
    } else {
        let r = find_split(t.drop_first());
        if r < 0 {
            -1
        } else {
            r + 1
        }
    }
}

pub proof fn lemma_find_split(t: Seq<char>)
    ensures
        find_split(t) == -1 ==> forall|k: int| 0 <= k < t.len() ==> !is_splitter_c(t[k]),
        find_split(t) >= 0 ==> {
            let r = find_split(t);
            &&& 0 <= r < t.len()
            &&& is_splitter_c(t[r])
            &&& forall|k: int| 0 <= k < r ==> !is_splitter_c(t[k])
        },
    decreases t.len(),
{
    if t.len() > 0 && !is_splitter_c(t[0]) {
        lemma_find_split(t.drop_first());
        let d = t.drop_first();
        assert forall|k: int| 1 <= k < t.len() implies t[k] == d[k - 1] by {}
    }
}

fn find_split_exec(t: &Vec<char>) -> (r: Option<usize>)
    ensures
        match r {
            Some(i) => i < t@.len() && find_split(t@) == i as int,
            None => find_split(t@) == -1,
        },
{
    proof {
        lemma_find_split(t@);
    }
    let mut i: usize = 0;
    while i < t.len()
        invariant
            i <= t.len(),
            forall|j: int| 0 <= j < i ==> !is_splitter_c(t@[j]),
            find_split(t@) == -1 ==> forall|k: int| 0 <= k < t@.len() ==> !is_splitter_c(t@[k]),
            find_split(t@) >= 0 ==> {
                let rr = find_split(t@);
                &&& 0 <= rr < t@.len()
                &&& is_splitter_c(t@[rr])
                &&& forall|k: int| 0 <= k < rr ==> !is_splitter_c(t@[k])
            },
        decreases t.len() - i,
    {
        if is_splitter_char(t[i]) {
            proof {
                let rr = find_split(t@);
                if rr < i {
                    assert(!is_splitter_c(t@[rr]));
                }
                if rr > i || rr == -1 {
                    assert(!is_splitter_c(t@[i as int]));
                }
            }
            return Some(i);
        }
        i = i + 1;
    }
    proof {
        if find_split(t@) >= 0 {
            assert(!is_splitter_c(t@[find_split(t@)]));
        }
    }
    None
}

/// The segments of an identifier: split on the splitter class, keeping only
/// segments longer than three characters.
pub open spec fn segments(t: Seq<char>) -> Seq<Seq<char>>
    decreases t.len(),
{
    let k = find_split(t);
    if 0 <= k < t.len() {
        let head = t.take(k);
        let rest = segments(t.skip(k + 1));
        if head.len() > 3 {
            seq![head] + rest
        } else {
            rest
        }
    } else {
        if t.len() > 3 {
            seq![t]
        } else {
            Seq::empty()
        }
    }
}

/// Index of the first uppercase character, or -1.
pub open spec fn find_upper(t: Seq<char>) -> int
    decreases t.len(),
{
    if t.len() == 0 {
        -1
    } else if is_upper_c(t[0]) {
        0
    } else {
        let r = find_upper(t.drop_first());
        if r < 0 {
            -1
        } else {
            r + 1
        }
    }
}

pub proof fn lemma_find_upper(t: Seq<char>)
    ensures
        find_upper(t) == -1 ==> forall|k: int| 0 <= k < t.len() ==> !is_upper_c(t[k]),
        find_upper(t) >= 0 ==> {
            let r = find_upper(t);
            &&& 0 <= r < t.len()
            &&& is_upper_c(t[r])
            &&& forall|k: int| 0 <= k < r ==> !is_upper_c(t[k])
        },
    decreases t.len(),
{
    if t.len() > 0 && !is_upper_c(t[0]) {
        lemma_find_upper(t.drop_first());
        let d = t.drop_first();
        assert forall|k: int| 1 <= k < t.len() implies t[k] == d[k - 1] by {}
    }
}

fn find_upper_from(t: &Vec<char>, from: usize) -> (r: Option<usize>)
    requires
        from <= t@.len(),
    ensures
        match r {
            Some(i) => from <= i < t@.len() && find_upper(t@.skip(from as int)) == i - from,
            None => find_upper(t@.skip(from as int)) == -1,
        },
{
    proof {
        lemma_find_upper(t@.skip(from as int));
    }
    let ghost sub = t@.skip(from as int);
    let mut i: usize = from;
    while i < t.len()
        invariant
            from <= i <= t.len(),
            sub == t@.skip(from as int),
            forall|j: int| 0 <= j < i - from ==> !is_upper_c(sub[j]),
            find_upper(sub) == -1 ==> forall|k: int| 0 <= k < sub.len() ==> !is_upper_c(sub[k]),
            find_upper(sub) >= 0 ==> {
                let rr = find_upper(sub);
                &&& 0 <= rr < sub.len()
                &&& is_upper_c(sub[rr])
                &&& forall|k: int| 0 <= k < rr ==> !is_upper_c(sub[k])
            },
        decreases t.len() - i,
    {
        proof {
            assert(sub[i - from] == t@[i as int]);
        }
        if is_upper_char(t[i]) {
            proof {
                let rr = find_upper(sub);
                if rr < i - from {
                    assert(!is_upper_c(sub[rr]));
                }
                if rr > i - from || rr == -1 {
                    assert(!is_upper_c(sub[i - from]));
                }
            }
            return Some(i);
        }
        i = i + 1;
    }
    proof {
        if find_upper(sub) >= 0 {
            assert(!is_upper_c(sub[find_upper(sub)]));
        }
    }
    None
}

/// Split a segment before each uppercase letter after the first position.
pub open spec fn camel_split(w: Seq<char>) -> Seq<Seq<char>>
    decreases w.len(),
{
    if w.len() == 0 {
        Seq::empty()
    } else {
        let r = find_upper(w.drop_first());
        if r >= 0 && r + 1 < w.len() {
            seq![w.take(r + 1)] + camel_split(w.skip(r + 1))
        } else {
            seq![w]
        }
    }
}

/// Whether every character is a decimal digit.
pub open spec fn all_digits(w: Seq<char>) -> bool {
    forall|i: int| 0 <= i < w.len() ==> is_digit_c(w[i])
}

pub struct MultiTrie {
    pub inner: Vec<Arc<Trie>>,
}

impl MultiTrie {
    /// A word is contained when some member allows it.
    pub open spec fn spec_contains(&self, w: Seq<char>) -> bool {
        exists|i: int| 0 <= i < self.inner@.len() && (#[trigger] self.inner@[i]).spec_contains(w)
    }

    /// A segment passes when its lowercase form is contained, or it is all
    /// digits, or every lowercase camel-case part of it is contained.
    pub open spec fn seg_ok(&self, seg: Seq<char>) -> bool {
        ||| self.spec_contains(lower_seq(seg))
        ||| all_digits(seg)
        ||| forall|i: int|
            0 <= i < camel_split(seg).len() ==> self.spec_contains(
                lower_seq(#[trigger] camel_split(seg)[i]),
            )
    }

    pub fn new() -> (r: Self)
        ensures
            r.inner@.len() == 0,
    {
        MultiTrie { inner: Vec::new() }
    }

    pub fn push(&mut self, t: Arc<Trie>)
        ensures
            final(self).inner@ == old(self).inner@.push(t),
    {
        self.inner.push(t);
    }

    pub fn contains(&self, word: &str) -> (r: bool)
        ensures
            r == self.spec_contains(word@),
    {
        let mut i: usize = 0;
        while i < self.inner.len()
            invariant
                i <= self.inner@.len(),
                forall|j: int| 0 <= j < i ==> !(#[trigger] self.inner@[j]).spec_contains(word@),
            decreases self.inner@.len() - i,
    {
            if self.inner[i].contains(word) {
                return true;
            }
            i = i + 1;
        }
        false
    }

    /// Whether one segment passes the checks of §identifier analysis.
    fn seg_ok_exec(&self, seg: &Vec<char>) -> (r: bool)
        ensures
            r == self.seg_ok(seg@),
    {
        let low = lower_chars(seg);
        let ls = string_from_chars(&low);
        if self.contains(ls.as_str()) {
            return true;
        }
        let mut digits = true;
        let mut i: usize = 0;
        while i < seg.len()
            invariant
                i <= seg@.len(),
                digits == forall|j: int| 0 <= j < i ==> is_digit_c(seg@[j]),
            decreases seg.len() - i,
        {
            if !is_digit_char(seg[i]) {
                digits = false;
            }
            i = i + 1;
        }
        if digits {
            return true;
        }
        proof {
            assert(!all_digits(seg@)) by {
                let j = choose|j: int| 0 <= j < seg@.len() && !is_digit_c(seg@[j]);
            }
        }
        // camel-case subparts: every lowered part must be contained
        let mut pos: usize = 0;
        let ghost w0 = seg@;
        let ghost mut done: Seq<Seq<char>> = Seq::empty();
        proof {
            if w0.len() > 0 {
                assert(w0.skip(0) =~= w0);
                assert(camel_split(w0) =~= done + camel_split(w0.skip(0)));
            }
        }
        while pos < seg.len()
            invariant
                pos <= seg@.len(),
                pos == 0 || pos < seg@.len(),
                w0 == seg@,
                !self.spec_contains(lower_seq(w0)),
                !all_digits(w0),
                pos < seg@.len() ==> camel_split(w0) == done + camel_split(w0.skip(pos as int)),
                forall|i2: int|
                    0 <= i2 < done.len() ==> self.spec_contains(lower_seq(#[trigger] done[i2])),
            decreases seg.len() - pos,
        {
            let part_end = match find_upper_from(seg, pos + 1) {
                Some(k) => k,
                None => seg.len(),
            };
            let ghost rem = w0.skip(pos as int);
            proof {
                assert(rem.len() > 0);
                assert(rem.drop_first() =~= w0.skip(pos + 1));
            }
            let mut part: Vec<char> = Vec::new();
            let mut q: usize = pos;
            while q < part_end
                invariant
                    pos <= q <= part_end <= seg@.len(),
                    w0 == seg@,
                    part@ == w0.subrange(pos as int, q as int),
                decreases part_end - q,
            {
                part.push(seg[q]);
                q = q + 1;
                proof {
                    assert(w0.subrange(pos as int, q as int) =~= w0.subrange(
                        pos as int,
                        q - 1,
                    ).push(w0[q - 1]));
                }
            }
            proof {
                let r = find_upper(rem.drop_first());
                if part_end < seg@.len() {
                    assert(r == part_end - pos - 1);
                    assert(r >= 0 && r + 1 < rem.len());
                    assert(camel_split(rem) == seq![rem.take(r + 1)] + camel_split(
                        rem.skip(r + 1),
                    ));
                    assert(part@ =~= rem.take(r + 1));
                    assert(rem.skip(r + 1) =~= w0.skip(part_end as int));
                } else {
                    assert(part_end == seg@.len());
                    assert(!(r >= 0 && r + 1 < rem.len())) by {
                        if r >= 0 {
                            lemma_find_upper(rem.drop_first());
                        }
                    }
                    assert(camel_split(rem) =~= seq![rem]);
                    assert(part@ =~= rem);
                }
            }
            let lp = lower_chars(&part);
            let lps = string_from_chars(&lp);
            let c_ok = self.contains(lps.as_str());
            if !c_ok {
                proof {
                    assert(camel_split(rem)[0] == part@);
                    assert(camel_split(w0)[done.len() as int] == part@);
                    assert(!self.spec_contains(lower_seq(camel_split(w0)[done.len() as int])));
                }
                return false;
            }
            if part_end >= seg.len() {
                proof {
                    assert(camel_split(rem) =~= seq![part@]);
                    assert(camel_split(w0) =~= done.push(part@));
                    assert forall|i2: int| 0 <= i2 < camel_split(w0).len() implies self.spec_contains(
                        lower_seq(#[trigger] camel_split(w0)[i2]),
                    ) by {
                        if i2 < done.len() {
                            assert(camel_split(w0)[i2] == done[i2]);
                        } else {
                            assert(camel_split(w0)[i2] == part@);
                        }
                    }
                }
                return true;
            }
            proof {
                assert(camel_split(rem) == seq![part@] + camel_split(w0.skip(part_end as int)));
                assert(camel_split(w0) =~= done.push(part@) + camel_split(
                    w0.skip(part_end as int),
                ));
                done = done.push(part@);
            }
            pos = part_end;
        }
        // an empty segment has no camel parts
        proof {
            assert(seg@.len() == 0);
            assert(camel_split(w0).len() == 0);
        }
        true
    }

    /// Split the token and check each segment in order; the first failing
    /// segment is returned as the suspicious word.
    pub fn handle_identifier(&self, word: &str) -> (r: Option<String>)
        ensures
            ({
                let segs = segments(word@);
                match r {
                    Option::None => forall|i: int|
                        0 <= i < segs.len() ==> self.seg_ok(#[trigger] segs[i]),
                    Option::Some(s) => exists|i: int|
                        0 <= i < segs.len() && (#[trigger] segs[i]) == s@ && !self.seg_ok(segs[i])
                            && (forall|j: int| 0 <= j < i ==> self.seg_ok(#[trigger] segs[j])),
                }
            }),
    {
        let cs = chars_of(word);
        let ghost t0 = cs@;
        let mut rest = cs;
        let ghost mut done: Seq<Seq<char>> = Seq::empty();
        proof {
            assert(segments(t0) =~= done + segments(rest@));
        }
        loop
            invariant_except_break
                t0 == word@,
                segments(t0) == done + segments(rest@),
                forall|i: int| 0 <= i < done.len() ==> self.seg_ok(#[trigger] done[i]),
            ensures
                forall|i: int|
                    0 <= i < segments(t0).len() ==> self.seg_ok(#[trigger] segments(t0)[i]),
            decreases rest@.len(),
        {
            match find_split_exec(&rest) {
                Some(k) => {
                    proof {
                        assert(k < rest@.len());
                        assert(rest@.len() <= usize::MAX);
                    }
                    let head = chars_take(&rest, k);
                    let newrest = chars_slice(&rest, k + 1);
                    proof {
                        assert(head@ == rest@.take(k as int));
                        assert(newrest@ == rest@.skip(k + 1));
                        if head@.len() > 3 {
                            assert(segments(rest@) == seq![head@] + segments(newrest@));
                        } else {
                            assert(segments(rest@) == segments(newrest@));
                        }
                    }
                    if head.len() > 3 {
                        if !self.seg_ok_exec(&head) {
                            let out = string_from_chars(&head);
                            proof {
                                let segs = segments(t0);
                                assert(segs[done.len() as int] == head@);
                                assert(!self.seg_ok(segs[done.len() as int]));
                            }
                            return Some(out);
                        }
                        proof {
                            done = done.push(head@);
                            assert(segments(t0) =~= done + segments(newrest@));
                        }
                    }
                    rest = newrest;
                },
                None => {
                    proof {
                        lemma_find_split(rest@);
                    }
                    if rest.len() > 3 {
                        if !self.seg_ok_exec(&rest) {
                            let out = string_from_chars(&rest);
                            proof {
                                let segs = segments(t0);
                                assert(segments(rest@) =~= seq![rest@]);
                                assert(segs[done.len() as int] == rest@);
                            }
                            return Some(out);
                        }
                        proof {
                            done = done.push(rest@);
                            assert(segments(rest@) =~= seq![rest@]);
                            assert(segments(t0) =~= done);
                        }
                    } else {
                        proof {
                            assert(segments(rest@) =~= Seq::<Seq<char>>::empty());
                            assert(segments(t0) =~= done);
                        }
                    }
                    break;
                },
            }
        }
        None
    }

    /// The union of the members' fuzzy candidate sets for the query.
    pub open spec fn spec_cands(&self, q: Seq<char>) -> Set<Seq<char>> {
        Set::new(
            |w: Seq<char>|
                exists|i: int|
                    0 <= i < self.inner@.len() && cand_set(
                        (#[trigger] self.inner@[i]).words(),
                        q,
                        EDIT_BUDGET as nat,
                    ).contains(w),
        )
    }

    /// The best candidate over all members, when it clears the similarity
    /// bar; ties go to the lexicographically first candidate.  Fails exactly
    /// when there are members and the query's automaton outgrows its state
    /// limit.
    pub fn suggestion(&self, word: &str) -> (r: Result<Option<String>, FuzzyError>)
        ensures
            r is Ok <==> (self.inner@.len() == 0 || crate::trie::lev_fits(
                word@,
                EDIT_BUDGET as nat,
            )),
            r is Ok ==> match r->Ok_0 {
                Option::None => forall|w: Seq<char>|
                    self.spec_cands(word@).contains(w) ==> !sim_over_threshold(w, word@),
                Option::Some(s) => {
                    &&& self.spec_cands(word@).contains(s@)
                    &&& sim_over_threshold(s@, word@)
                    &&& forall|w: Seq<char>|
                        self.spec_cands(word@).contains(w) ==> sim_ge(s@, w, word@)
                    &&& forall|w: Seq<char>|
                        self.spec_cands(word@).contains(w) && sim_ge(w, s@, word@)
                            ==> seq_char_le(s@, w)
                },
            },
    {
        let mut best: Option<String> = None;
        let mut bnum: u128 = 0;
        let mut bden: u128 = 1;
        let mut i: usize = 0;
        while i < self.inner.len()
            invariant
                i <= self.inner@.len(),
                i > 0 ==> crate::trie::lev_fits(word@, EDIT_BUDGET as nat),
                match best {
                    Option::None => forall|w: Seq<char>, j: int|
                        0 <= j < i ==> !(#[trigger] cand_set(
                            self.inner@[j].words(),
                            word@,
                            EDIT_BUDGET as nat,
                        ).contains(w)),
                    Option::Some(s) => {
                        &&& exists|j: int|
                            0 <= j < i && #[trigger] cand_set(
                                self.inner@[j].words(),
                                word@,
                                EDIT_BUDGET as nat,
                            ).contains(s@)
                        &&& bnum as int == sim_pair(s@, word@).0
                        &&& bden as int == sim_pair(s@, word@).1
                        &&& bnum <= 0xffff_ffff_ffff_ffffu128
                        &&& 1 <= bden <= 0xffff_ffff_ffff_ffffu128
                        &&& forall|w: Seq<char>, j: int|
                            0 <= j < i && #[trigger] cand_set(
                                self.inner@[j].words(),
                                word@,
                                EDIT_BUDGET as nat,
                            ).contains(w) ==> sim_ge(s@, w, word@)
                        &&& forall|w: Seq<char>, j: int|
                            0 <= j < i && #[trigger] cand_set(
                                self.inner@[j].words(),
                                word@,
                                EDIT_BUDGET as nat,
                            ).contains(w) && sim_ge(w, s@, word@) ==> seq_char_le(s@, w)
                    },
                },
            decreases self.inner@.len() - i,
        {
            let member_best = match self.inner[i].check(word) {
                Ok(mb) => mb,
                Err(e) => {
                    return Err(e);
                },
            };
            match member_best {
                None => {},
                Some(b) => {
                    let (num, den) = sim_parts(b.as_str(), word);
                    let adopt = match &best {
                        None => true,
                        Some(s) => {
                            proof {
                                assert(num * bden <= 0xffff_ffff_ffff_ffffu128
                                    * 0xffff_ffff_ffff_ffffu128) by (nonlinear_arith)
                                    requires
                                        num <= 0xffff_ffff_ffff_ffffu128,
                                        bden <= 0xffff_ffff_ffff_ffffu128,
                                ;
                                assert(bnum * den <= 0xffff_ffff_ffff_ffffu128
                                    * 0xffff_ffff_ffff_ffffu128) by (nonlinear_arith)
                                    requires
                                        bnum <= 0xffff_ffff_ffff_ffffu128,
                                        den <= 0xffff_ffff_ffff_ffffu128,
                                ;
                            }
                            let lhs = num * bden;
                            let rhs = bnum * den;
                            if lhs > rhs {
                                true
                            } else if lhs == rhs {
                                let bc = chars_of(b.as_str());
                                let sc = chars_of(s.as_str());
                                crate::text::chars_lt(&bc, &sc)
                            } else {
                                false
                            }
                        },
                    };
                    proof {
                        let c_i = cand_set(self.inner@[i as int].words(), word@, EDIT_BUDGET as nat);
                        assert(c_i.contains(b@));
                    }
                    if adopt {
                        proof {
                            if best is Some {
                                let s = best->Some_0;
                                let q = word@;
                                assert forall|w: Seq<char>, j: int|
                                    0 <= j < i + 1 && #[trigger] cand_set(
                                        self.inner@[j].words(),
                                        q,
                                        EDIT_BUDGET as nat,
                                    ).contains(w) implies sim_ge(b@, w, q) by {
                                    if j < i {
                                        assert(sim_ge(s@, w, q));
                                        assert(sim_ge(b@, s@, q));
                                        lemma_sim_ge_trans(
                                            sim_pair(b@, q).0,
                                            sim_pair(b@, q).1,
                                            sim_pair(s@, q).0,
                                            sim_pair(s@, q).1,
                                            sim_pair(w, q).0,
                                            sim_pair(w, q).1,
                                        );
                                    } else {
                                        assert(sim_ge(b@, w, q));
                                    }
                                }
                                assert forall|w: Seq<char>, j: int|
                                    0 <= j < i + 1 && #[trigger] cand_set(
                                        self.inner@[j].words(),
                                        q,
                                        EDIT_BUDGET as nat,
                                    ).contains(w) && sim_ge(w, b@, q) implies seq_char_le(
                                    b@,
                                    w,
                                ) by {
                                    if j < i {
                                        // the old best ties with b here: b was adopted on a
                                        // strict win or a lexicographic win among equals
                                        assert(sim_ge(s@, w, q));
                                        if num * bden > bnum * den {
                                            lemma_sim_gt_ge_trans(
                                                sim_pair(b@, q).0,
                                                sim_pair(b@, q).1,
                                                sim_pair(s@, q).0,
                                                sim_pair(s@, q).1,
                                                sim_pair(w, q).0,
                                                sim_pair(w, q).1,
                                            );
                                            assert(false);
                                        } else {
                                            assert(seq_char_lt(b@, s@));
                                            assert(sim_ge(w, s@, q)) by {
                                                lemma_sim_ge_trans(
                                                    sim_pair(w, q).0,
                                                    sim_pair(w, q).1,
                                                    sim_pair(b@, q).0,
                                                    sim_pair(b@, q).1,
                                                    sim_pair(s@, q).0,
                                                    sim_pair(s@, q).1,
                                                );
                                            }
                                            assert(seq_char_le(s@, w));
                                            lemma_seq_char_le_trans(b@, s@, w);
                                        }
                                    } else {
                                        assert(seq_char_le(b@, w));
                                    }
                                }
                            }
                        }
                        best = Some(b);
                        bnum = num;
                        bden = den;
                    } else {
                        proof {
                            let s = best->Some_0;
                            let q = word@;
                            // not adopted: the old best is at least as similar, and on a
                            // tie it is lexicographically no later
                            assert(bnum * den >= num * bden);
                            assert forall|w: Seq<char>, j: int|
                                0 <= j < i + 1 && #[trigger] cand_set(
                                    self.inner@[j].words(),
                                    q,
                                    EDIT_BUDGET as nat,
                                ).contains(w) implies sim_ge(s@, w, q) by {
                                if j < i {
                                } else {
                                    assert(sim_ge(b@, w, q));
                                    lemma_sim_ge_trans(
                                        sim_pair(s@, q).0,
                                        sim_pair(s@, q).1,
                                        sim_pair(b@, q).0,
                                        sim_pair(b@, q).1,
                                        sim_pair(w, q).0,
                                        sim_pair(w, q).1,
                                    );
                                }
                            }
                            assert forall|w: Seq<char>, j: int|
                                0 <= j < i + 1 && #[trigger] cand_set(
                                    self.inner@[j].words(),
                                    q,
                                    EDIT_BUDGET as nat,
                                ).contains(w) && sim_ge(w, s@, q) implies seq_char_le(s@, w) by {
                                if j < i {
                                } else {
                                    assert(sim_ge(b@, w, q));
                                    assert(sim_ge(w, s@, q));
                                    assert(sim_ge(s@, b@, q));
                                    assert(sim_ge(w, b@, q)) by {
                                        lemma_sim_ge_trans(
                                            sim_pair(w, q).0,
                                            sim_pair(w, q).1,
                                            sim_pair(s@, q).0,
                                            sim_pair(s@, q).1,
                                            sim_pair(b@, q).0,
                                            sim_pair(b@, q).1,
                                        );
                                    }
                                    assert(seq_char_le(b@, w));
                                    assert(seq_char_le(s@, b@)) by {
                                        if num * bden == bnum * den {
                                            // lexicographic comparison chose the old best
                                            assert(!seq_char_lt(b@, s@));
                                            if !seq_char_le(s@, b@) {
                                                lemma_seq_char_le_total(s@, b@);
                                                assert(seq_char_le(b@, s@));
                                                assert(b@ != s@);
                                            }
                                        } else {
                                            // the old best is strictly more similar, yet w
                                            // ties the old best and b outranks w: contradiction
                                            assert(bnum * den > num * bden);
                                            lemma_sim_gt_ge_trans(
                                                sim_pair(s@, q).0,
                                                sim_pair(s@, q).1,
                                                sim_pair(b@, q).0,
                                                sim_pair(b@, q).1,
                                                sim_pair(w, q).0,
                                                sim_pair(w, q).1,
                                            );
                                            assert(false);
                                        }
                                    }
                                    lemma_seq_char_le_trans(s@, b@, w);
                                }
                            }
                        }
                    }
                },
            }
            i = i + 1;
        }
        match best {
            None => {
                proof {
                    assert forall|w: Seq<char>|
                        self.spec_cands(word@).contains(w) implies !sim_over_threshold(
                        w,
                        word@,
                    ) by {
                        let j = choose|j: int|
                            0 <= j < self.inner@.len() && #[trigger] cand_set(
                                self.inner@[j].words(),
                                word@,
                                EDIT_BUDGET as nat,
                            ).contains(w);
                    }
                }
                Ok(None)
            },
            Some(s) => {
                proof {
                    assert(10 * bnum <= 10 * (0xffff_ffff_ffff_ffffu128)) by (nonlinear_arith)
                        requires
                            bnum <= 0xffff_ffff_ffff_ffffu128,
                    ;
                    assert(7 * bden <= 7 * (0xffff_ffff_ffff_ffffu128)) by (nonlinear_arith)
                        requires
                            bden <= 0xffff_ffff_ffff_ffffu128,
                    ;
                }
                if 10 * bnum > 7 * bden {
                    proof {
                        assert(sim_over_threshold(s@, word@));
                        assert forall|w: Seq<char>|
                            self.spec_cands(word@).contains(w) implies sim_ge(s@, w, word@) by {
                            let j = choose|j: int|
                                0 <= j < self.inner@.len() && #[trigger] cand_set(
                                    self.inner@[j].words(),
                                    word@,
                                    EDIT_BUDGET as nat,
                                ).contains(w);
                        }
                        assert forall|w: Seq<char>|
                            self.spec_cands(word@).contains(w) && sim_ge(
                                w,
                                s@,
                                word@,
                            ) implies seq_char_le(s@, w) by {
                            let j = choose|j: int|
                                0 <= j < self.inner@.len() && #[trigger] cand_set(
                                    self.inner@[j].words(),
                                    word@,
                                    EDIT_BUDGET as nat,
                                ).contains(w);
                        }
                        let j0 = choose|j: int|
                            0 <= j < self.inner@.len() && #[trigger] cand_set(
                                self.inner@[j].words(),
                                word@,
                                EDIT_BUDGET as nat,
                            ).contains(s@);
                    }
                    Ok(Some(s))
                } else {
                    proof {
                        let q = word@;
                        assert forall|w: Seq<char>|
                            self.spec_cands(q).contains(w) implies !sim_over_threshold(w, q) by {
                            let j = choose|j: int|
                                0 <= j < self.inner@.len() && #[trigger] cand_set(
                                    self.inner@[j].words(),
                                    q,
                                    EDIT_BUDGET as nat,
                                ).contains(w);
                            assert(sim_ge(s@, w, q));
                            if sim_over_threshold(w, q) {
                                lemma_sim_ge_gt_trans(
                                    sim_pair(s@, q).0,
                                    sim_pair(s@, q).1,
                                    sim_pair(w, q).0,
                                    sim_pair(w, q).1,
                                    7,
                                    10,
                                );
                                assert(false);
                            }
                        }
                    }
                    Ok(None)
                }
            },
        }
    }
}

/// At-least-as-good composed with strictly-over stays strictly over.
pub proof fn lemma_sim_ge_gt_trans(na: int, da: int, nb: int, db: int, nc: int, dc: int)
    requires
        da > 0,
        db > 0,
        dc > 0,
        na * db >= nb * da,
        nb * dc > nc * db,
    ensures
        na * dc > nc * da,
{
    assert(na * dc > nc * da) by (nonlinear_arith)
        requires
            da > 0,
            db > 0,
            dc > 0,
            na * db >= nb * da,
            nb * dc > nc * db,
    ;
}

} // verus!
