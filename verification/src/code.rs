//! The identifier analyzer: walking parsed source trees and plain text,
//! feeding tokens to the identifier splitter and collecting typo records.
use vstd::prelude::*;

use vstd::string::StringExecFns;

use crate::multi_trie::{MultiTrie, segments};
use crate::text::{
    chars_of, chars_slice, chars_take, clone_chars, find_sub, find_sub_exec, find_ws,
    find_ws_exec, split_lines, split_nl, string_from_chars, str_eq_str, ws_tokens,
};

verus! {

/// A reported unknown word with its source position.
#[derive(Clone, Debug)]
pub struct Typo {
    pub line: usize,
    pub column: usize,
    pub length: usize,
    pub word: String,
    pub suggestion: Option<String>,
    pub source: String,
}

/// The splitter fails on the token with exactly this suspicious word.
pub open spec fn token_flags(mt: &MultiTrie, tok: Seq<char>, word: Seq<char>) -> bool {
    exists|i: int|
        0 <= i < segments(tok).len() && (#[trigger] segments(tok)[i]) == word && !mt.seg_ok(
            segments(tok)[i],
        ) && (forall|j: int| 0 <= j < i ==> mt.seg_ok(#[trigger] segments(tok)[j]))
}

/// The record reports the line's j-th long-enough token, at its first
/// occurrence in the line.
pub open spec fn token_hit(mt: &MultiTrie, line: Seq<char>, j: int, t: Typo) -> bool {
    &&& 0 <= j < ws_tokens(line).len()
    &&& token_flags(mt, ws_tokens(line)[j], t.word@)
    &&& t.length == ws_tokens(line)[j].len()
    &&& t.column as int == (if find_sub(line, ws_tokens(line)[j]) >= 0 {
        find_sub(line, ws_tokens(line)[j]) + 1
    } else {
        1
    })
}

/// What every record reported from plain text satisfies: it comes from a
/// long-enough whitespace token of the line it names, at that token's first
/// occurrence in the line.
pub open spec fn text_typo_ok(mt: &MultiTrie, src: Seq<char>, t: Typo) -> bool {
    &&& t.suggestion is None
    &&& t.source@ == src
    &&& 1 <= t.line
    &&& t.line - 1 < split_nl(src).len()
    &&& exists|j: int| #[trigger] token_hit(mt, split_nl(src)[t.line - 1], j, t)
}

/// The splitter fails somewhere in the token.
pub open spec fn token_fails(mt: &MultiTrie, tok: Seq<char>) -> bool {
    !(forall|i: int| 0 <= i < segments(tok).len() ==> mt.seg_ok(#[trigger] segments(tok)[i]))
}

/// The column a token is reported at: its first occurrence in the line.
pub open spec fn tok_col(line: Seq<char>, tok: Seq<char>) -> int {
    if find_sub(line, tok) >= 0 {
        find_sub(line, tok) + 1
    } else {
        1
    }
}

/// Some record reports this word at this place.
pub open spec fn reported_at(rs: Seq<Typo>, line: int, column: int, word: Seq<char>) -> bool {
    exists|k: int|
        0 <= k < rs.len() && (#[trigger] rs[k]).line == line && rs[k].column as int == column
            && rs[k].word@ == word
}

/// Every failing token of every line is reported: at its line, at its first
/// occurrence column, with its first failing segment as the word.
pub open spec fn text_reports_complete(mt: &MultiTrie, src: Seq<char>, rs: Seq<Typo>) -> bool {
    forall|li: int, j: int|
        0 <= li < split_nl(src).len() && 0 <= j < ws_tokens(split_nl(src)[li]).len()
            && token_fails(mt, #[trigger] ws_tokens(split_nl(src)[li])[j]) ==> exists|w: Seq<char>|
            #[trigger] token_flags(mt, ws_tokens(split_nl(src)[li])[j], w) && reported_at(
                rs,
                li + 1,
                tok_col(split_nl(src)[li], ws_tokens(split_nl(src)[li])[j]),
                w,
            )
}

/// `picks` lists, in strictly increasing order, the input positions the
/// output keeps: the output is that subsequence of the input.
pub open spec fn picks_embed(picks: Seq<int>, v: Seq<Typo>, r: Seq<Typo>) -> bool {
    &&& picks.len() == r.len()
    &&& (forall|k: int| 0 <= k < picks.len() ==> 0 <= #[trigger] picks[k] < v.len())
    &&& (forall|k: int| 0 < k < picks.len() ==> picks[k - 1] < #[trigger] picks[k])
    &&& (forall|k: int| 0 <= k < picks.len() ==> r[k] == v[#[trigger] picks[k]])
}

/// Adjacent nondecreasing lines are nondecreasing across any gap.
proof fn lemma_line_monotone(v: Seq<Typo>, a: int, b: int)
    requires
        forall|k: int| #![trigger v[k]] 0 < k < v.len() ==> v[k - 1].line <= v[k].line,
        0 <= a <= b < v.len(),
    ensures
        v[a].line <= v[b].line,
    decreases b - a,
{
    if a < b {
        lemma_line_monotone(v, a, b - 1);
    }
}

/// Drop a report that repeats the word and place of the one before it.
/// The survivors are a subsequence of the input, so any order the input had
/// is kept; in particular nondecreasing lines stay nondecreasing.
fn dedup_typos(v: Vec<Typo>) -> (r: Vec<Typo>)
    ensures
        forall|k: int| 0 <= k < r@.len() ==> v@.contains(#[trigger] r@[k]),
        forall|k: int|
            0 < k < r@.len() ==> !((#[trigger] r@[k]).word@ == r@[k - 1].word@ && r@[k].line
                == r@[k - 1].line && r@[k].column == r@[k - 1].column),
        forall|j: int|
            #![trigger v@[j]]
            0 <= j < v@.len() ==> reported_at(r@, v@[j].line as int, v@[j].column as int, v@[j].word@),
        exists|picks: Seq<int>| #[trigger] picks_embed(picks, v@, r@),
        (forall|k: int| #![trigger v@[k]] 0 < k < v@.len() ==> v@[k - 1].line <= v@[k].line)
            ==> (forall|k: int|
            #![trigger r@[k]]
            0 < k < r@.len() ==> r@[k - 1].line <= r@[k].line),
{
    let ghost v0 = v@;
    let mut rest = v;
    let mut out: Vec<Typo> = Vec::new();
    let ghost mut idxs: Seq<int> = Seq::empty();
    while rest.len() > 0
        invariant
            rest@.len() <= v0.len(),
            rest@ == v0.skip(v0.len() - rest@.len()),
            idxs.len() == out@.len(),
            forall|q: int|
                0 <= q < out@.len() ==> 0 <= #[trigger] idxs[q] < v0.len() && out@[q]
                    == v0[idxs[q]],
            forall|q: int| 0 <= q < idxs.len() ==> #[trigger] idxs[q] < v0.len() - rest@.len(),
            forall|q: int| 0 < q < idxs.len() ==> idxs[q - 1] < #[trigger] idxs[q],
            forall|q: int|
                0 < q < out@.len() ==> !((#[trigger] out@[q]).word@ == out@[q - 1].word@
                    && out@[q].line == out@[q - 1].line && out@[q].column == out@[q - 1].column),
            forall|j: int|
                #![trigger v0[j]]
                0 <= j < v0.len() - rest@.len() ==> reported_at(
                    out@,
                    v0[j].line as int,
                    v0[j].column as int,
                    v0[j].word@,
                ),
        decreases rest@.len(),
    {
        let ghost n = v0.len() - rest@.len();
        let ghost out_pre = out@;
        let t = rest.remove(0);
        proof {
            assert(t == v0.skip(n)[0]);
            assert(t == v0[n]);
            assert(rest@ =~= v0.skip(n + 1));
        }
        let repeat = if out.len() == 0 {
            false
        } else {
            let last = out.len() - 1;
            str_eq_str(out[last].word.as_str(), t.word.as_str()) && out[last].line == t.line
                && out[last].column == t.column
        };
        let ghost tv = t;
        if !repeat {
            out.push(t);
            proof {
                idxs = idxs.push(n);
            }
        }
        proof {
            assert forall|j: int|
                #![trigger v0[j]]
                0 <= j < n + 1 implies reported_at(
                out@,
                v0[j].line as int,
                v0[j].column as int,
                v0[j].word@,
            ) by {
                if j < n {
                    let k = choose|k: int|
                        0 <= k < out_pre.len() && (#[trigger] out_pre[k]).line
                            == v0[j].line as int && out_pre[k].column as int
                            == v0[j].column as int && out_pre[k].word@ == v0[j].word@;
                    assert(out@[k] == out_pre[k]);
                } else {
                    if repeat {
                        let last = out_pre.len() - 1;
                        assert((out@[last]).line == tv.line);
                        assert(out@[last].column == tv.column);
                        assert(out@[last].word@ == tv.word@);
                    } else {
                        assert(out@[out@.len() - 1] == tv);
                    }
                }
            }
        }
    }
    proof {
        assert forall|k: int| 0 <= k < out@.len() implies v@.contains(#[trigger] out@[k]) by {
            assert(v0 == v@);
            assert(0 <= idxs[k] < v@.len() && out@[k] == v@[idxs[k]]);
        }
        assert forall|j: int|
            #![trigger v@[j]]
            0 <= j < v@.len() implies reported_at(
            out@,
            v@[j].line as int,
            v@[j].column as int,
            v@[j].word@,
        ) by {
            assert(v0[j] == v@[j]);
        }
        assert(picks_embed(idxs, v@, out@));
        if forall|k: int| #![trigger v0[k]] 0 < k < v0.len() ==> v0[k - 1].line <= v0[k].line {
            assert forall|k: int|
                #![trigger out@[k]]
                0 < k < out@.len() implies out@[k - 1].line <= out@[k].line by {
                lemma_line_monotone(v0, idxs[k - 1], idxs[k]);
            }
        }
    }
    out
}

/// Feed the whitespace tokens of one line to the splitter, reporting each
/// failing token at the line and token position.
fn handle_line(
    words: &MultiTrie,
    line: &Vec<char>,
    line_no: usize,
    source: &str,
    out: &mut Vec<Typo>,
)
    requires
        line_no < usize::MAX,
    ensures
        final(out)@.len() >= old(out)@.len(),
        forall|k: int|
            0 <= k < final(out)@.len() ==> if k < old(out)@.len() {
                final(out)@[k] == old(out)@[k]
            } else {
                let t = #[trigger] final(out)@[k];
                &&& t.suggestion is None
                &&& t.source@ == source@
                &&& t.line == line_no + 1
                &&& exists|j: int| #[trigger] token_hit(words, line@, j, t)
            },
        forall|j: int|
            0 <= j < ws_tokens(line@).len() && token_fails(words, #[trigger] ws_tokens(line@)[j])
                ==> exists|w: Seq<char>|
                #[trigger] token_flags(words, ws_tokens(line@)[j], w) && reported_at(
                    final(out)@,
                    line_no + 1,
                    tok_col(line@, ws_tokens(line@)[j]),
                    w,
                ),
{
    let ghost out0 = out@;
    let mut rest = clone_chars(line);
    let ghost mut done: Seq<Seq<char>> = Seq::empty();
    proof {
        assert(ws_tokens(line@) =~= done + ws_tokens(rest@));
    }
    loop
        invariant_except_break
            line_no < usize::MAX,
            ws_tokens(line@) == done + ws_tokens(rest@),
            out@.len() >= out0.len(),
            forall|k: int|
                0 <= k < out@.len() ==> if k < out0.len() {
                    out@[k] == out0[k]
                } else {
                    let t = #[trigger] out@[k];
                    &&& t.suggestion is None
                    &&& t.source@ == source@
                    &&& t.line == line_no + 1
                    &&& exists|j: int| #[trigger] token_hit(words, line@, j, t)
                },
            forall|jj: int|
                #![trigger done[jj]]
                0 <= jj < done.len() && token_fails(words, done[jj]) ==> exists|w: Seq<char>|
                    #[trigger] token_flags(words, done[jj], w) && reported_at(
                        out@,
                        line_no + 1,
                        tok_col(line@, done[jj]),
                        w,
                    ),
        ensures
            out@.len() >= out0.len(),
            forall|k: int|
                0 <= k < out@.len() ==> if k < out0.len() {
                    out@[k] == out0[k]
                } else {
                    let t = #[trigger] out@[k];
                    &&& t.suggestion is None
                    &&& t.source@ == source@
                    &&& t.line == line_no + 1
                    &&& exists|j: int| #[trigger] token_hit(words, line@, j, t)
                },
            forall|j: int|
                0 <= j < ws_tokens(line@).len() && token_fails(
                    words,
                    #[trigger] ws_tokens(line@)[j],
                ) ==> exists|w: Seq<char>|
                    #[trigger] token_flags(words, ws_tokens(line@)[j], w) && reported_at(
                        out@,
                        line_no + 1,
                        tok_col(line@, ws_tokens(line@)[j]),
                        w,
                    ),
        decreases rest@.len(),
    {
        let step = find_ws_exec(&rest);
        let (tok, more) = match step {
            Some(kk) => {
                proof {
                    assert(kk < rest@.len());
                }
                (chars_take(&rest, kk), true)
            },
            None => (clone_chars(&rest), false),
        };
        proof {
            let k = find_ws(rest@);
            if step is Some {
                assert(tok@ == rest@.take(k));
                if tok@.len() > 1 {
                    assert(ws_tokens(rest@) == seq![tok@] + ws_tokens(rest@.skip(k + 1)));
                } else {
                    assert(ws_tokens(rest@) == ws_tokens(rest@.skip(k + 1)));
                }
            } else {
                assert(tok@ == rest@);
                if tok@.len() > 1 {
                    assert(ws_tokens(rest@) =~= seq![tok@]);
                } else {
                    assert(ws_tokens(rest@) =~= Seq::<Seq<char>>::empty());
                }
            }
        }
        if tok.len() > 1 {
            proof {
                assert(ws_tokens(line@)[done.len() as int] == tok@);
            }
            let ghost out_it = out@;
            let tok_s = string_from_chars(&tok);
            match words.handle_identifier(tok_s.as_str()) {
                Some(w) => {
                    let ln = line.len();
                    let col: usize = match find_sub_exec(line, &tok) {
                        Some(p) => {
                            proof {
                                assert(tok@.len() >= 2);
                                assert(p + tok@.len() <= line@.len());
                                assert(p < ln);
                            }
                            p + 1
                        },
                        None => 1,
                    };
                    let entry = Typo {
                        line: line_no + 1,
                        column: col,
                        length: tok.len(),
                        word: w,
                        suggestion: None,
                        source: String::from_str(source),
                    };
                    let ghost ent = entry;
                    out.push(entry);
                    proof {
                        assert(token_hit(words, line@, done.len() as int, ent));
                        assert(out@[out@.len() - 1] == ent);
                        assert(token_flags(words, tok@, ent.word@));
                        assert(ent.column as int == tok_col(line@, tok@));
                        assert(reported_at(out@, line_no + 1, tok_col(line@, tok@), ent.word@));
                    }
                },
                None => {
                    proof {
                        assert(!token_fails(words, tok@));
                    }
                },
            }
            proof {
                let done_old = done;
                done = done.push(tok@);
                assert forall|jj: int|
                    #![trigger done[jj]]
                    0 <= jj < done.len() && token_fails(words, done[jj]) implies exists|w: Seq<char>|
                    #[trigger] token_flags(words, done[jj], w) && reported_at(
                        out@,
                        line_no + 1,
                        tok_col(line@, done[jj]),
                        w,
                    ) by {
                    if jj < done.len() - 1 {
                        assert(done[jj] == done_old[jj]);
                        let w = choose|w: Seq<char>|
                            #[trigger] token_flags(words, done_old[jj], w) && reported_at(
                                out_it,
                                line_no + 1,
                                tok_col(line@, done_old[jj]),
                                w,
                            );
                        let k = choose|k: int|
                            0 <= k < out_it.len() && (#[trigger] out_it[k]).line == line_no + 1
                                && out_it[k].column as int == tok_col(line@, done_old[jj])
                                && out_it[k].word@ == w;
                        assert(out@[k] == out_it[k]);
                    } else {
                        assert(done[jj] == tok@);
                    }
                }
            }
        }
        if more {
            let kk = match step {
                Some(kk) => kk,
                None => 0,
            };
            let rl = rest.len();
            proof {
                assert(kk < rl);
            }
            let newrest = chars_slice(&rest, kk + 1);
            proof {
                assert(ws_tokens(line@) =~= done + ws_tokens(newrest@));
            }
            rest = newrest;
        } else {
            proof {
                assert(ws_tokens(line@) =~= done);
                assert forall|j: int|
                    0 <= j < ws_tokens(line@).len() && token_fails(
                        words,
                        #[trigger] ws_tokens(line@)[j],
                    ) implies exists|w: Seq<char>|
                    #[trigger] token_flags(words, ws_tokens(line@)[j], w) && reported_at(
                        out@,
                        line_no + 1,
                        tok_col(line@, ws_tokens(line@)[j]),
                        w,
                    ) by {
                    assert(ws_tokens(line@)[j] == done[j]);
                }
            }
            break ;
        }
    }
}

/// Walk plain text line by line, reporting each failing whitespace token;
/// records appear in nondecreasing line order, and a report repeating the
/// word and place of the one before it is dropped.
#[verifier::rlimit(50)]
pub fn handle_text(words: &MultiTrie, source: &str) -> (r: Vec<Typo>)
    ensures
        forall|k: int| 0 <= k < r@.len() ==> text_typo_ok(words, source@, #[trigger] r@[k]),
        forall|k: int|
            0 < k < r@.len() ==> !((#[trigger] r@[k]).word@ == r@[k - 1].word@ && r@[k].line
                == r@[k - 1].line && r@[k].column == r@[k - 1].column),
        text_reports_complete(words, source@, r@),
        forall|k: int| #![trigger r@[k]] 0 < k < r@.len() ==> r@[k - 1].line <= r@[k].line,
{
    let cs = chars_of(source);
    let lines = split_lines(&cs);
    let mut out: Vec<Typo> = Vec::new();
    let mut li: usize = 0;
    while li < lines.len()
        invariant
            li <= lines@.len(),
            lines@.map_values(|l: Vec<char>| l@) == split_nl(source@),
            forall|k: int| 0 <= k < out@.len() ==> text_typo_ok(words, source@, #[trigger] out@[k]),
            forall|k: int| 0 <= k < out@.len() ==> (#[trigger] out@[k]).line <= li,
            forall|k: int| #![trigger out@[k]] 0 < k < out@.len() ==> out@[k - 1].line <= out@[k].line,
            forall|l2: int, j: int|
                0 <= l2 < li && 0 <= j < ws_tokens(split_nl(source@)[l2]).len() && token_fails(
                    words,
                    #[trigger] ws_tokens(split_nl(source@)[l2])[j],
                ) ==> exists|w: Seq<char>|
                    #[trigger] token_flags(words, ws_tokens(split_nl(source@)[l2])[j], w)
                        && reported_at(
                        out@,
                        l2 + 1,
                        tok_col(split_nl(source@)[l2], ws_tokens(split_nl(source@)[l2])[j]),
                        w,
                    ),
        decreases lines@.len() - li,
    {
        proof {
            assert(lines@[li as int]@ == split_nl(source@)[li as int]);
            assert(lines@.len() < usize::MAX || lines@.len() <= usize::MAX);
        }
        let ghost outb = out@;
        handle_line(words, &lines[li], li, source, &mut out);
        proof {
            assert forall|k: int| 0 <= k < out@.len() implies text_typo_ok(
                words,
                source@,
                #[trigger] out@[k],
            ) by {
                if k >= outb.len() {
                    let t = out@[k];
                    assert(t.line == li + 1);
                    assert(t.line - 1 == li);
                }
            }
            assert forall|k: int| 0 <= k < out@.len() implies (#[trigger] out@[k]).line <= li
                + 1 by {
                if k < outb.len() {
                    assert(out@[k] == outb[k]);
                }
            }
            assert forall|k: int|
                #![trigger out@[k]]
                0 < k < out@.len() implies out@[k - 1].line <= out@[k].line by {
                if k < outb.len() {
                    assert(out@[k] == outb[k]);
                    assert(out@[k - 1] == outb[k - 1]);
                } else if k - 1 < outb.len() {
                    assert(out@[k - 1] == outb[k - 1]);
                    assert(out@[k - 1].line <= li);
                    assert(out@[k].line == li + 1);
                } else {
                    assert(out@[k - 1].line == li + 1);
                    assert(out@[k].line == li + 1);
                }
            }
            let ghost lv = lines@[li as int]@;
            assert forall|l2: int, j: int|
                0 <= l2 < li + 1 && 0 <= j < ws_tokens(split_nl(source@)[l2]).len() && token_fails(
                    words,
                    #[trigger] ws_tokens(split_nl(source@)[l2])[j],
                ) implies exists|w: Seq<char>|
                #[trigger] token_flags(words, ws_tokens(split_nl(source@)[l2])[j], w)
                    && reported_at(
                    out@,
                    l2 + 1,
                    tok_col(split_nl(source@)[l2], ws_tokens(split_nl(source@)[l2])[j]),
                    w,
                ) by {
                if l2 < li {
                    let w = choose|w: Seq<char>|
                        #[trigger] token_flags(words, ws_tokens(split_nl(source@)[l2])[j], w)
                            && reported_at(
                            outb,
                            l2 + 1,
                            tok_col(split_nl(source@)[l2], ws_tokens(split_nl(source@)[l2])[j]),
                            w,
                        );
                    let k = choose|k: int|
                        0 <= k < outb.len() && (#[trigger] outb[k]).line == l2 + 1
                            && outb[k].column as int == tok_col(
                            split_nl(source@)[l2],
                            ws_tokens(split_nl(source@)[l2])[j],
                        ) && outb[k].word@ == w;
                    assert(out@[k] == outb[k]);
                } else {
                    assert(split_nl(source@)[l2] == lv);
                    assert(token_fails(words, ws_tokens(lv)[j]));
                }
            }
        }
        li = li + 1;
    }
    let r = dedup_typos(out);
    proof {
        assert forall|k: int| 0 <= k < r@.len() implies text_typo_ok(
            words,
            source@,
            #[trigger] r@[k],
        ) by {
            assert(out@.contains(r@[k]));
            let j = choose|j: int| 0 <= j < out@.len() && out@[j] == r@[k];
            assert(text_typo_ok(words, source@, out@[j]));
        }
        assert forall|li: int, j: int|
            0 <= li < split_nl(source@).len() && 0 <= j < ws_tokens(split_nl(source@)[li]).len()
                && token_fails(words, #[trigger] ws_tokens(split_nl(source@)[li])[j]) implies exists|
            w: Seq<char>,
        |
            #[trigger] token_flags(words, ws_tokens(split_nl(source@)[li])[j], w) && reported_at(
                r@,
                li + 1,
                tok_col(split_nl(source@)[li], ws_tokens(split_nl(source@)[li])[j]),
                w,
            ) by {
            let w = choose|w: Seq<char>|
                #[trigger] token_flags(words, ws_tokens(split_nl(source@)[li])[j], w)
                    && reported_at(
                    out@,
                    li + 1,
                    tok_col(split_nl(source@)[li], ws_tokens(split_nl(source@)[li])[j]),
                    w,
                );
            let k = choose|k: int|
                0 <= k < out@.len() && (#[trigger] out@[k]).line == li + 1 && out@[k].column as int
                    == tok_col(split_nl(source@)[li], ws_tokens(split_nl(source@)[li])[j])
                    && out@[k].word@ == w;
            assert(reported_at(r@, out@[k].line as int, out@[k].column as int, out@[k].word@));
        }
    }
    r
}

// ---------------------------------------------------------------------------
// Parsed source trees
// ---------------------------------------------------------------------------

/// A node of a parsed source tree, as the grammar oracle reports it: its
/// named flag, start position, byte range, text and children.
pub struct SyntaxNode {
    pub named: bool,
    pub row: usize,
    pub column: usize,
    pub start_byte: usize,
    pub end_byte: usize,
    pub text: String,
    pub children: Vec<SyntaxNode>,
}

/// Positions and ranges that fit the machine integers, over the whole tree.
pub open spec fn tree_ok(n: SyntaxNode) -> bool
    decreases n,
{
    &&& n.row < usize::MAX
    &&& n.column < usize::MAX
    &&& n.start_byte <= n.end_byte
    &&& forall|i: int| 0 <= i < n.children@.len() ==> tree_ok(#[trigger] n.children@[i])
}

/// Whether `m` is a node of the tree under `root`.
pub open spec fn in_tree(root: SyntaxNode, m: SyntaxNode) -> bool
    decreases root,
{
    root == m || exists|i: int|
        0 <= i < root.children@.len() && in_tree(#[trigger] root.children@[i], m)
}

/// What every record reported from a parsed tree satisfies: it comes from a
/// long-enough whitespace token of a named leaf, at the leaf's position,
/// spanning the leaf's byte range.
pub open spec fn node_typo_ok(mt: &MultiTrie, root: SyntaxNode, src: Seq<char>, t: Typo) -> bool {
    &&& t.suggestion is None
    &&& t.source@ == src
    &&& exists|m: SyntaxNode|
        {
            &&& #[trigger] in_tree(root, m)
            &&& m.named
            &&& m.children@.len() == 0
            &&& t.line == m.row + 1
            &&& t.column == m.column + 1
            &&& m.end_byte >= m.start_byte
            &&& t.length == m.end_byte - m.start_byte
            &&& exists|j: int|
                0 <= j < ws_tokens(m.text@).len() && token_flags(
                    mt,
                    #[trigger] ws_tokens(m.text@)[j],
                    t.word@,
                )
        }
}

/// The named leaves under a node, in depth-first order.
pub open spec fn dfs_leaves(n: SyntaxNode) -> Seq<SyntaxNode>
    decreases n, n.children@.len() + 1int,
{
    if n.children@.len() == 0 {
        if n.named {
            seq![n]
        } else {
            Seq::empty()
        }
    } else {
        dfs_leaves_from(n, 0)
    }
}

/// The leaves of the children from index `i` on, in order.
pub open spec fn dfs_leaves_from(n: SyntaxNode, i: int) -> Seq<SyntaxNode>
    decreases n, n.children@.len() - i,
{
    if i < 0 || i >= n.children@.len() {
        Seq::empty()
    } else {
        dfs_leaves(n.children@[i]) + dfs_leaves_from(n, i + 1)
    }
}

/// The record reports a failing token of this leaf, at the leaf's position
/// and spanning its byte range.
pub open spec fn record_of_leaf(mt: &MultiTrie, m: SyntaxNode, t: Typo) -> bool {
    &&& t.line == m.row + 1
    &&& t.column == m.column + 1
    &&& m.end_byte >= m.start_byte
    &&& t.length == m.end_byte - m.start_byte
    &&& exists|j: int|
        0 <= j < ws_tokens(m.text@).len() && token_flags(
            mt,
            #[trigger] ws_tokens(m.text@)[j],
            t.word@,
        )
}

/// `ranks` ties each record to a leaf, and the leaves come in depth-first
/// order: the records follow the traversal.
pub open spec fn dfs_ordered(
    mt: &MultiTrie,
    root: SyntaxNode,
    rs: Seq<Typo>,
    ranks: Seq<int>,
) -> bool {
    &&& ranks.len() == rs.len()
    &&& (forall|k: int| 0 < k < ranks.len() ==> ranks[k - 1] <= #[trigger] ranks[k])
    &&& (forall|k: int|
        0 <= k < ranks.len() ==> 0 <= #[trigger] ranks[k] < dfs_leaves(root).len()
            && record_of_leaf(mt, dfs_leaves(root)[ranks[k]], rs[k]))
}

/// Nondecreasing ranks are nondecreasing across any gap.
proof fn lemma_rank_monotone(ranks: Seq<int>, a: int, b: int)
    requires
        forall|k: int| 0 < k < ranks.len() ==> ranks[k - 1] <= #[trigger] ranks[k],
        0 <= a <= b < ranks.len(),
    ensures
        ranks[a] <= ranks[b],
    decreases b - a,
{
    if a < b {
        lemma_rank_monotone(ranks, a, b - 1);
    }
}

/// Appending one child's records extends a depth-first rank witness: the
/// child's ranks shift past the leaves already walked.
proof fn lemma_extend_ranks(
    mt: &MultiTrie,
    node: SyntaxNode,
    i: int,
    offset: int,
    outb: Seq<Typo>,
    subv: Seq<Typo>,
    all: Seq<Typo>,
    ranks: Seq<int>,
    cranks: Seq<int>,
)
    requires
        0 <= i < node.children@.len(),
        dfs_ordered(mt, node, outb, ranks),
        dfs_ordered(mt, node.children@[i], subv, cranks),
        all == outb + subv,
        0 <= offset <= dfs_leaves(node).len(),
        dfs_leaves(node).skip(offset) == dfs_leaves_from(node, i),
        forall|k: int| 0 <= k < ranks.len() ==> #[trigger] ranks[k] < offset,
    ensures
        ({
            let clen = dfs_leaves(node.children@[i]).len() as int;
            let newranks = ranks + Seq::new(cranks.len(), |q: int| offset + cranks[q]);
            &&& dfs_ordered(mt, node, all, newranks)
            &&& offset + clen <= dfs_leaves(node).len()
            &&& dfs_leaves(node).skip(offset + clen) == dfs_leaves_from(node, i + 1)
            &&& forall|k: int| 0 <= k < newranks.len() ==> #[trigger] newranks[k] < offset + clen
        }),
{
    let child = node.children@[i];
    let clen = dfs_leaves(child).len() as int;
    let newranks = ranks + Seq::new(cranks.len(), |q: int| offset + cranks[q]);
    assert(dfs_leaves_from(node, i) == dfs_leaves(child) + dfs_leaves_from(node, i + 1));
    assert(dfs_leaves(node).skip(offset).len() == dfs_leaves(node).len() - offset);
    assert forall|q: int| 0 <= q < clen implies dfs_leaves(node)[offset + q] == dfs_leaves(
        child,
    )[q] by {
        assert(dfs_leaves(node).skip(offset)[q] == dfs_leaves(node)[offset + q]);
        assert((dfs_leaves(child) + dfs_leaves_from(node, i + 1))[q] == dfs_leaves(child)[q]);
    }
    assert(newranks.len() == all.len());
    assert forall|k: int| 0 < k < newranks.len() implies newranks[k - 1]
        <= #[trigger] newranks[k] by {
        if k < ranks.len() {
            assert(newranks[k] == ranks[k]);
            assert(newranks[k - 1] == ranks[k - 1]);
        } else if k == ranks.len() {
            assert(newranks[k - 1] == ranks[k - 1]);
            assert(newranks[k] == offset + cranks[0]);
            assert(0 <= cranks[0]);
        } else {
            assert(newranks[k] == offset + cranks[k - ranks.len()]);
            assert(newranks[k - 1] == offset + cranks[k - 1 - ranks.len()]);
        }
    }
    assert forall|k: int| 0 <= k < newranks.len() implies 0 <= #[trigger] newranks[k]
        < dfs_leaves(node).len() && record_of_leaf(mt, dfs_leaves(node)[newranks[k]], all[k]) by {
        if k < ranks.len() {
            assert(newranks[k] == ranks[k]);
            assert(all[k] == outb[k]);
        } else {
            let q = k - ranks.len();
            assert(newranks[k] == offset + cranks[q]);
            assert(0 <= cranks[q] < clen);
            assert(cranks[q] < dfs_leaves(node).len() - offset);
            assert(dfs_leaves(node)[offset + cranks[q]] == dfs_leaves(child)[cranks[q]]);
            assert(all[k] == subv[q]);
            assert(record_of_leaf(mt, dfs_leaves(child)[cranks[q]], subv[q]));
        }
    }
    assert(dfs_leaves(node).skip(offset + clen) == dfs_leaves_from(node, i + 1)) by {
        assert(dfs_leaves(node).skip(offset + clen) =~= dfs_leaves(node).skip(offset).skip(
            clen,
        ));
        assert((dfs_leaves(child) + dfs_leaves_from(node, i + 1)).skip(clen)
            =~= dfs_leaves_from(node, i + 1));
    }
    assert forall|k: int| 0 <= k < newranks.len() implies #[trigger] newranks[k] < offset
        + clen by {
        if k < ranks.len() {
        } else {
            assert(newranks[k] == offset + cranks[k - ranks.len()]);
        }
    }
}

/// Every failing token of this leaf is reported at the leaf's position.
pub open spec fn leaf_reported(mt: &MultiTrie, m: SyntaxNode, rs: Seq<Typo>) -> bool {
    forall|j: int|
        0 <= j < ws_tokens(m.text@).len() && token_fails(mt, #[trigger] ws_tokens(m.text@)[j])
            ==> exists|w: Seq<char>|
            #[trigger] token_flags(mt, ws_tokens(m.text@)[j], w) && reported_at(
                rs,
                m.row + 1,
                m.column + 1,
                w,
            )
}

/// Every failing token of every named leaf under the root is reported.
pub open spec fn node_reports_complete(mt: &MultiTrie, root: SyntaxNode, rs: Seq<Typo>) -> bool {
    forall|m: SyntaxNode|
        #![trigger in_tree(root, m)]
        in_tree(root, m) && m.named && m.children@.len() == 0 ==> leaf_reported(mt, m, rs)
}

/// A leaf's reports survive extending the record list at its end.
proof fn lemma_leaf_reported_grow(mt: &MultiTrie, m: SyntaxNode, rs1: Seq<Typo>, rs2: Seq<Typo>)
    requires
        leaf_reported(mt, m, rs1),
        rs1.len() <= rs2.len(),
        forall|k: int| 0 <= k < rs1.len() ==> rs2[k] == rs1[k],
    ensures
        leaf_reported(mt, m, rs2),
{
    assert forall|j: int|
        0 <= j < ws_tokens(m.text@).len() && token_fails(
            mt,
            #[trigger] ws_tokens(m.text@)[j],
        ) implies exists|w: Seq<char>|
        #[trigger] token_flags(mt, ws_tokens(m.text@)[j], w) && reported_at(
            rs2,
            m.row + 1,
            m.column + 1,
            w,
        ) by {
        let w = choose|w: Seq<char>|
            #[trigger] token_flags(mt, ws_tokens(m.text@)[j], w) && reported_at(
                rs1,
                m.row + 1,
                m.column + 1,
                w,
            );
        let k = choose|k: int|
            0 <= k < rs1.len() && (#[trigger] rs1[k]).line == m.row + 1 && rs1[k].column as int
                == m.column + 1 && rs1[k].word@ == w;
        assert(rs2[k] == rs1[k]);
    }
}

/// A leaf's reports in an appended block are reports of the whole list.
proof fn lemma_leaf_reported_shift(
    mt: &MultiTrie,
    m: SyntaxNode,
    pre: Seq<Typo>,
    sub: Seq<Typo>,
    all: Seq<Typo>,
)
    requires
        leaf_reported(mt, m, sub),
        all == pre + sub,
    ensures
        leaf_reported(mt, m, all),
{
    assert forall|j: int|
        0 <= j < ws_tokens(m.text@).len() && token_fails(
            mt,
            #[trigger] ws_tokens(m.text@)[j],
        ) implies exists|w: Seq<char>|
        #[trigger] token_flags(mt, ws_tokens(m.text@)[j], w) && reported_at(
            all,
            m.row + 1,
            m.column + 1,
            w,
        ) by {
        let w = choose|w: Seq<char>|
            #[trigger] token_flags(mt, ws_tokens(m.text@)[j], w) && reported_at(
                sub,
                m.row + 1,
                m.column + 1,
                w,
            );
        let k = choose|k: int|
            0 <= k < sub.len() && (#[trigger] sub[k]).line == m.row + 1 && sub[k].column as int
                == m.column + 1 && sub[k].word@ == w;
        assert(all[pre.len() + k] == sub[k]);
    }
}

/// Walk a parsed tree depth-first, feeding the whitespace tokens of each
/// named leaf to the splitter; a report repeating the word and place of the
/// one before it is dropped.
#[verifier::rlimit(100)]
pub fn handle_node(words: &MultiTrie, node: &SyntaxNode, source: &str) -> (r: Vec<Typo>)
    requires
        tree_ok(*node),
    ensures
        forall|k: int| 0 <= k < r@.len() ==> node_typo_ok(words, *node, source@, #[trigger] r@[k]),
        forall|k: int|
            0 < k < r@.len() ==> !((#[trigger] r@[k]).word@ == r@[k - 1].word@ && r@[k].line
                == r@[k - 1].line && r@[k].column == r@[k - 1].column),
        node_reports_complete(words, *node, r@),
        exists|ranks: Seq<int>| #[trigger] dfs_ordered(words, *node, r@, ranks),
    decreases *node,
{
    let mut out: Vec<Typo> = Vec::new();
    if node.named && node.children.len() == 0 {
        let text_chars = chars_of(node.text.as_str());
        let mut rest = text_chars;
        let ghost mut done: Seq<Seq<char>> = Seq::empty();
        proof {
            assert(ws_tokens(node.text@) =~= done + ws_tokens(rest@));
        }
        loop
            invariant_except_break
                tree_ok(*node),
                node.children@.len() == 0,
                node.named,
                ws_tokens(node.text@) == done + ws_tokens(rest@),
                forall|k: int|
                    0 <= k < out@.len() ==> node_typo_ok(words, *node, source@, #[trigger] out@[k]),
                forall|jj: int|
                    #![trigger done[jj]]
                    0 <= jj < done.len() && token_fails(words, done[jj]) ==> exists|w: Seq<char>|
                        #[trigger] token_flags(words, done[jj], w) && reported_at(
                            out@,
                            node.row + 1,
                            node.column + 1,
                            w,
                        ),
                forall|k: int|
                    0 <= k < out@.len() ==> record_of_leaf(words, *node, #[trigger] out@[k]),
            ensures
                forall|k: int|
                    0 <= k < out@.len() ==> node_typo_ok(words, *node, source@, #[trigger] out@[k]),
                leaf_reported(words, *node, out@),
                forall|k: int|
                    0 <= k < out@.len() ==> record_of_leaf(words, *node, #[trigger] out@[k]),
            decreases rest@.len(),
        {
            let step = find_ws_exec(&rest);
            let (tok, more) = match step {
                Some(kk) => (chars_take(&rest, kk), true),
                None => (clone_chars(&rest), false),
            };
            proof {
                let k = find_ws(rest@);
                if step is Some {
                    assert(tok@ == rest@.take(k));
                    if tok@.len() > 1 {
                        assert(ws_tokens(rest@) == seq![tok@] + ws_tokens(rest@.skip(k + 1)));
                    } else {
                        assert(ws_tokens(rest@) == ws_tokens(rest@.skip(k + 1)));
                    }
                } else {
                    assert(tok@ == rest@);
                    if tok@.len() > 1 {
                        assert(ws_tokens(rest@) =~= seq![tok@]);
                    } else {
                        assert(ws_tokens(rest@) =~= Seq::<Seq<char>>::empty());
                    }
                }
            }
            if tok.len() > 1 {
                proof {
                    assert(ws_tokens(node.text@)[done.len() as int] == tok@);
                }
                let ghost out_it = out@;
                let tok_s = string_from_chars(&tok);
                match words.handle_identifier(tok_s.as_str()) {
                    Some(w) => {
                        let entry = Typo {
                            line: node.row + 1,
                            column: node.column + 1,
                            length: node.end_byte - node.start_byte,
                            word: w,
                            suggestion: None,
                            source: String::from_str(source),
                        };
                        proof {
                            assert(in_tree(*node, *node));
                            assert(node_typo_ok(words, *node, source@, entry));
                        }
                        let ghost ent = entry;
                        out.push(entry);
                        proof {
                            assert(out@[out@.len() - 1] == ent);
                            assert(token_flags(words, tok@, ent.word@));
                            assert(reported_at(out@, node.row + 1, node.column + 1, ent.word@));
                            assert(record_of_leaf(words, *node, ent));
                        }
                    },
                    None => {
                        proof {
                            assert(!token_fails(words, tok@));
                        }
                    },
                }
                proof {
                    let done_old = done;
                    done = done.push(tok@);
                    assert forall|jj: int|
                        #![trigger done[jj]]
                        0 <= jj < done.len() && token_fails(words, done[jj]) implies exists|
                        w: Seq<char>,
                    |
                        #[trigger] token_flags(words, done[jj], w) && reported_at(
                            out@,
                            node.row + 1,
                            node.column + 1,
                            w,
                        ) by {
                        if jj < done.len() - 1 {
                            assert(done[jj] == done_old[jj]);
                            let w = choose|w: Seq<char>|
                                #[trigger] token_flags(words, done_old[jj], w) && reported_at(
                                    out_it,
                                    node.row + 1,
                                    node.column + 1,
                                    w,
                                );
                            let k = choose|k: int|
                                0 <= k < out_it.len() && (#[trigger] out_it[k]).line == node.row
                                    + 1 && out_it[k].column as int == node.column + 1
                                    && out_it[k].word@ == w;
                            assert(out@[k] == out_it[k]);
                        } else {
                            assert(done[jj] == tok@);
                        }
                    }
                }
            }
            if more {
                let kk = match step {
                    Some(kk) => kk,
                    None => 0,
                };
                let rl = rest.len();
                proof {
                    assert(kk < rl);
                }
                let newrest = chars_slice(&rest, kk + 1);
                proof {
                    assert(ws_tokens(node.text@) =~= done + ws_tokens(newrest@));
                }
                rest = newrest;
            } else {
                proof {
                    assert(ws_tokens(node.text@) =~= done);
                    assert forall|j: int|
                        0 <= j < ws_tokens(node.text@).len() && token_fails(
                            words,
                            #[trigger] ws_tokens(node.text@)[j],
                        ) implies exists|w: Seq<char>|
                        #[trigger] token_flags(words, ws_tokens(node.text@)[j], w) && reported_at(
                            out@,
                            node.row + 1,
                            node.column + 1,
                            w,
                        ) by {
                        assert(ws_tokens(node.text@)[j] == done[j]);
                    }
                }
                break ;
            }
        }
    }
    let ghost mut ranks: Seq<int> = Seq::new(out@.len(), |k: int| 0int);
    let ghost mut offset: int = 0;
    proof {
        if node.named && node.children@.len() == 0 {
            assert(dfs_leaves(*node) =~= seq![*node]);
            assert(dfs_ordered(words, *node, out@, ranks)) by {
                assert forall|k: int| 0 <= k < ranks.len() implies 0 <= #[trigger] ranks[k]
                    < dfs_leaves(*node).len() && record_of_leaf(
                    words,
                    dfs_leaves(*node)[ranks[k]],
                    out@[k],
                ) by {
                    assert(ranks[k] == 0);
                    assert(dfs_leaves(*node)[0] == *node);
                }
            }
        } else {
            assert(out@.len() == 0);
            assert(dfs_ordered(words, *node, out@, ranks));
        }
    }
    let mut i: usize = 0;
    while i < node.children.len()
        invariant
            i <= node.children@.len(),
            tree_ok(*node),
            forall|k: int|
                0 <= k < out@.len() ==> node_typo_ok(words, *node, source@, #[trigger] out@[k]),
            node.named && node.children@.len() == 0 ==> leaf_reported(words, *node, out@),
            forall|ci: int|
                0 <= ci < i ==> node_reports_complete(words, #[trigger] node.children@[ci], out@),
            dfs_ordered(words, *node, out@, ranks),
            node.children@.len() > 0 ==> {
                &&& 0 <= offset <= dfs_leaves(*node).len()
                &&& dfs_leaves(*node).skip(offset) == dfs_leaves_from(*node, i as int)
                &&& forall|k: int| 0 <= k < ranks.len() ==> #[trigger] ranks[k] < offset
            },
        decreases node.children@.len() - i,
    {
        let mut sub = handle_node(words, &node.children[i], source);
        let ghost subv = sub@;
        let ghost outb = out@;
        out.append(&mut sub);
        proof {
            assert forall|k: int| 0 <= k < out@.len() implies node_typo_ok(
                words,
                *node,
                source@,
                #[trigger] out@[k],
            ) by {
                if k >= outb.len() {
                    let t = out@[k];
                    assert(t == subv[k - outb.len()]);
                    assert(node_typo_ok(words, node.children@[i as int], source@, t));
                    let m = choose|m: SyntaxNode|
                        {
                            &&& #[trigger] in_tree(node.children@[i as int], m)
                            &&& m.named
                            &&& m.children@.len() == 0
                            &&& t.line == m.row + 1
                            &&& t.column == m.column + 1
                            &&& m.end_byte >= m.start_byte
                            &&& t.length == m.end_byte - m.start_byte
                            &&& exists|j: int|
                                0 <= j < ws_tokens(m.text@).len() && token_flags(
                                    words,
                                    #[trigger] ws_tokens(m.text@)[j],
                                    t.word@,
                                )
                        };
                    assert(in_tree(*node, m));
                }
            }
            assert forall|ci: int|
                0 <= ci < i + 1 implies node_reports_complete(
                words,
                #[trigger] node.children@[ci],
                out@,
            ) by {
                if ci < i {
                    assert forall|m: SyntaxNode|
                        #![trigger in_tree(node.children@[ci], m)]
                        in_tree(node.children@[ci], m) && m.named && m.children@.len()
                            == 0 implies leaf_reported(words, m, out@) by {
                        assert(leaf_reported(words, m, outb));
                        lemma_leaf_reported_grow(words, m, outb, out@);
                    }
                } else {
                    assert(node_reports_complete(words, node.children@[ci], subv));
                    assert forall|m: SyntaxNode|
                        #![trigger in_tree(node.children@[ci], m)]
                        in_tree(node.children@[ci], m) && m.named && m.children@.len()
                            == 0 implies leaf_reported(words, m, out@) by {
                        assert(leaf_reported(words, m, subv));
                        lemma_leaf_reported_shift(words, m, outb, subv, out@);
                    }
                }
            }
            // thread the depth-first ranks through this child's block
            let cranks = choose|cr: Seq<int>|
                #[trigger] dfs_ordered(words, node.children@[i as int], subv, cr);
            let clen = dfs_leaves(node.children@[i as int]).len() as int;
            lemma_extend_ranks(
                words,
                *node,
                i as int,
                offset,
                outb,
                subv,
                out@,
                ranks,
                cranks,
            );
            ranks = ranks + Seq::new(cranks.len(), |q: int| offset + cranks[q]);
            offset = offset + clen;
        }
        i = i + 1;
    }
    proof {
        assert forall|m: SyntaxNode|
            #![trigger in_tree(*node, m)]
            in_tree(*node, m) && m.named && m.children@.len() == 0 implies leaf_reported(
            words,
            m,
            out@,
        ) by {
            if m == *node {
                assert(node.children@.len() == 0);
                assert(leaf_reported(words, *node, out@));
            } else {
                let ci = choose|ci: int|
                    0 <= ci < node.children@.len() && in_tree(#[trigger] node.children@[ci], m);
                assert(node_reports_complete(words, node.children@[ci], out@));
            }
        }
    }
    let r = dedup_typos(out);
    proof {
        assert forall|k: int| 0 <= k < r@.len() implies node_typo_ok(
            words,
            *node,
            source@,
            #[trigger] r@[k],
        ) by {
            assert(out@.contains(r@[k]));
            let j = choose|j: int| 0 <= j < out@.len() && out@[j] == r@[k];
            assert(node_typo_ok(words, *node, source@, out@[j]));
        }
        assert forall|m: SyntaxNode|
            #![trigger in_tree(*node, m)]
            in_tree(*node, m) && m.named && m.children@.len() == 0 implies leaf_reported(
            words,
            m,
            r@,
        ) by {
            assert(leaf_reported(words, m, out@));
            assert forall|j2: int|
                0 <= j2 < ws_tokens(m.text@).len() && token_fails(
                    words,
                    #[trigger] ws_tokens(m.text@)[j2],
                ) implies exists|w: Seq<char>|
                #[trigger] token_flags(words, ws_tokens(m.text@)[j2], w) && reported_at(
                    r@,
                    m.row + 1,
                    m.column + 1,
                    w,
                ) by {
                let w = choose|w: Seq<char>|
                    #[trigger] token_flags(words, ws_tokens(m.text@)[j2], w) && reported_at(
                        out@,
                        m.row + 1,
                        m.column + 1,
                        w,
                    );
                let k2 = choose|k2: int|
                    0 <= k2 < out@.len() && (#[trigger] out@[k2]).line == m.row + 1
                        && out@[k2].column as int == m.column + 1 && out@[k2].word@ == w;
                assert(reported_at(
                    r@,
                    out@[k2].line as int,
                    out@[k2].column as int,
                    out@[k2].word@,
                ));
            }
        }
        let picks = choose|p: Seq<int>| #[trigger] picks_embed(p, out@, r@);
        let franks = Seq::new(r@.len(), |k: int| ranks[picks[k]]);
        assert(dfs_ordered(words, *node, r@, franks)) by {
            assert forall|k: int| 0 < k < franks.len() implies franks[k - 1]
                <= #[trigger] franks[k] by {
                assert(picks[k - 1] < picks[k]);
                lemma_rank_monotone(ranks, picks[k - 1], picks[k]);
            }
            assert forall|k: int| 0 <= k < franks.len() implies 0 <= #[trigger] franks[k]
                < dfs_leaves(*node).len() && record_of_leaf(
                words,
                dfs_leaves(*node)[franks[k]],
                r@[k],
            ) by {
                assert(r@[k] == out@[picks[k]]);
                assert(franks[k] == ranks[picks[k]]);
            }
        }
    }
    r
}

impl Typo {
    /// A record at a node's position, spanning its byte range, with a
    /// suggested replacement.
    pub fn new_with_suggestion(
        word: String,
        node: &SyntaxNode,
        source: String,
        suggestion: String,
    ) -> (r: Typo)
        requires
            node.row < usize::MAX,
            node.column < usize::MAX,
            node.start_byte <= node.end_byte,
        ensures
            r.line == node.row + 1,
            r.column == node.column + 1,
            r.length == node.end_byte - node.start_byte,
            r.word@ == word@,
            r.suggestion matches Some(s) && s@ == suggestion@,
            r.source@ == source@,
    {
        Typo {
            line: node.row + 1,
            column: node.column + 1,
            length: node.end_byte - node.start_byte,
            word,
            suggestion: Some(suggestion),
            source,
        }
    }

    /// A record at a node's position, spanning its byte range.
    pub fn new_without_suggestion(word: String, node: &SyntaxNode, source: String) -> (r: Typo)
        requires
            node.row < usize::MAX,
            node.column < usize::MAX,
            node.start_byte <= node.end_byte,
        ensures
            r.line == node.row + 1,
            r.column == node.column + 1,
            r.length == node.end_byte - node.start_byte,
            r.word@ == word@,
            r.suggestion is None,
            r.source@ == source@,
    {
        Typo {
            line: node.row + 1,
            column: node.column + 1,
            length: node.end_byte - node.start_byte,
            word,
            suggestion: None,
            source,
        }
    }
}

} // verus!
