//! Greedy word wrap of a command line to a column budget, measured in
//! displayed (terminal) columns rather than bytes or characters.

use vstd::prelude::*;

use crate::text::is_space;
use crate::text::char_is_space;

verus! {

/// The displayed column count of a character sequence, as the
/// `unicode-width` crate assigns it. It depends on the characters alone.
pub uninterp spec fn display_width_of(s: Seq<char>) -> nat;

/// Relies on `unicode_width::UnicodeWidthStr::width`: the displayed width
/// of a string in terminal columns, a pure table lookup over its
/// characters.
#[verifier::external_body]
fn str_display_width(s: &str) -> (r: usize)
    ensures
        r as nat == display_width_of(s@),
{
    unicode_width::UnicodeWidthStr::width(s)
}

/// The whitespace-delimited tokens of `s` from position `i` on.
/// A character is consumed one at a time: a leading space is skipped, and
/// a leading token character either starts a new first token or extends
/// the token that begins at the next position.
pub open spec fn tokens_from(s: Seq<char>, i: int) -> Seq<Seq<char>>
    decreases s.len() - i,
{
    if i < 0 || i >= s.len() {
        Seq::empty()
    } else if is_space(s[i]) {
        tokens_from(s, i + 1)
    } else {
        let rest = tokens_from(s, i + 1);
        if i + 1 < s.len() && !is_space(s[i + 1]) {
            seq![seq![s[i]] + rest[0]].add(rest.drop_first())
        } else {
            seq![seq![s[i]]].add(rest)
        }
    }
}

/// The tokens of a whole character sequence.
pub open spec fn tokens_of(s: Seq<char>) -> Seq<Seq<char>> {
    tokens_from(s, 0)
}

/// Every token is nonempty, free of whitespace characters, and the first
/// token of a run starts with the run's first character.
pub proof fn lemma_tokens_from_wf(s: Seq<char>, i: int)
    requires
        0 <= i <= s.len(),
    ensures
        forall|k: int|
            0 <= k < tokens_from(s, i).len() ==> (#[trigger] tokens_from(s, i)[k]).len() >= 1,
        forall|k: int, c: int|
            0 <= k < tokens_from(s, i).len() && 0 <= c < tokens_from(s, i)[k].len() ==> !is_space(
                #[trigger] tokens_from(s, i)[k][c],
            ),
        i < s.len() && !is_space(s[i]) ==> tokens_from(s, i).len() >= 1 && tokens_from(
            s,
            i,
        )[0][0] == s[i],
    decreases s.len() - i,
{
    if i < s.len() {
        lemma_tokens_from_wf(s, i + 1);
        if !is_space(s[i]) {
            let rest = tokens_from(s, i + 1);
            if i + 1 < s.len() && !is_space(s[i + 1]) {
                let first = seq![s[i]] + rest[0];
                let whole = seq![first].add(rest.drop_first());
                assert(tokens_from(s, i) == whole);
                assert forall|k: int| 0 <= k < whole.len() implies (#[trigger] whole[k]).len()
                    >= 1 by {
                    if k > 0 {
                        assert(whole[k] == rest[k]);
                    }
                }
                assert forall|k: int, c: int|
                    0 <= k < whole.len() && 0 <= c < whole[k].len() implies !is_space(
                    #[trigger] whole[k][c],
                ) by {
                    if k == 0 {
                        if c > 0 {
                            assert(whole[0][c] == rest[0][c - 1]);
                        }
                    } else {
                        assert(whole[k] == rest[k]);
                    }
                }
            } else {
                let whole = seq![seq![s[i]]].add(rest);
                assert(tokens_from(s, i) == whole);
                assert forall|k: int, c: int|
                    0 <= k < whole.len() && 0 <= c < whole[k].len() implies !is_space(
                    #[trigger] whole[k][c],
                ) by {
                    if k > 0 {
                        assert(whole[k] == rest[k - 1]);
                    }
                }
            }
        }
    }
}

/// If the characters of `[i, j)` are all non-space and `j` sits at a space
/// or at the end, then `[i, j)` is exactly the first token at `i`.
pub proof fn lemma_token_run(s: Seq<char>, i: int, j: int)
    requires
        0 <= i < j <= s.len(),
        forall|k: int| i <= k < j ==> !is_space(#[trigger] s[k]),
        j == s.len() || is_space(s[j]),
    ensures
        tokens_from(s, i) == seq![s.subrange(i, j)].add(tokens_from(s, j)),
    decreases j - i,
{
    if i + 1 == j {
        assert(s.subrange(i, j) =~= seq![s[i]]);
        if j < s.len() {
            assert(tokens_from(s, i) =~= seq![seq![s[i]]].add(tokens_from(s, j)));
        } else {
            assert(tokens_from(s, i) =~= seq![seq![s[i]]].add(tokens_from(s, j)));
        }
    } else {
        lemma_token_run(s, i + 1, j);
        let rest = tokens_from(s, i + 1);
        assert(rest[0] == s.subrange(i + 1, j));
        assert(rest.drop_first() =~= tokens_from(s, j));
        assert(seq![s[i]] + s.subrange(i + 1, j) =~= s.subrange(i, j));
        assert(tokens_from(s, i) =~= seq![s.subrange(i, j)].add(tokens_from(s, j)));
    }
}

/// Splits a string into its whitespace-delimited tokens.
pub fn tokenize(s: &str) -> (r: Vec<String>)
    ensures
        r.deep_view() == tokens_of(s@),
{
    let n = s.unicode_len();
    let mut r: Vec<String> = Vec::new();
    let mut i: usize = 0;
    while i < n
        invariant
            i <= n,
            n == s@.len(),
            tokens_of(s@) == r.deep_view().add(tokens_from(s@, i as int)),
        decreases n - i,
    {
        if char_is_space(s.get_char(i)) {
            i = i + 1;
        } else {
            let start = i;
            let mut j = i + 1;
            while j < n && !char_is_space(s.get_char(j))
                invariant
                    start < j <= n,
                    n == s@.len(),
                    forall|k: int| start <= k < j ==> !is_space(#[trigger] s@[k]),
                decreases n - j,
            {
                j = j + 1;
            }
            proof {
                lemma_token_run(s@, start as int, j as int);
            }
            let tok = s.substring_char(start, j).to_owned();
            let ghost old_r = r.deep_view();
            r.push(tok);
            proof {
                assert(r.deep_view() =~= old_r.push(tok@));
                assert(old_r.push(tok@).add(tokens_from(s@, j as int)) =~= old_r.add(
                    tokens_from(s@, start as int),
                ));
            }
            i = j;
        }
    }
    proof {
        assert(r.deep_view().add(tokens_from(s@, i as int)) =~= r.deep_view());
    }
    r
}

/// A display line made of the given tokens: each token followed by a
/// single space, the last one included.
pub open spec fn line_join(line: Seq<Seq<char>>) -> Seq<char>
    decreases line.len(),
{
    if line.len() == 0 {
        Seq::empty()
    } else {
        line[0] + seq![' '] + line_join(line.drop_first())
    }
}

/// The summed display widths of a line's tokens (separators not counted).
pub open spec fn line_width_sum(line: Seq<Seq<char>>) -> int
    decreases line.len(),
{
    if line.len() == 0 {
        0
    } else {
        display_width_of(line[0]) + line_width_sum(line.drop_first())
    }
}

/// One greedy packing step per leading token. `cur` is the open line's
/// trimmed displayed width: its tokens' widths plus one column for the
/// separator between each adjacent pair. A token is appended when the
/// line would stay strictly under the budget with the token and its
/// separator counted; otherwise it opens a new line, whatever its width
/// (the first token of a line is never split or dropped).
pub open spec fn wrap_go(
    ts: Seq<Seq<char>>,
    width: int,
    acc: Seq<Seq<Seq<char>>>,
    cur: int,
) -> Seq<Seq<Seq<char>>>
    decreases ts.len(),
{
    if ts.len() == 0 {
        acc
    } else {
        let w = display_width_of(ts[0]) as int;
        if acc.len() > 0 && cur + 1 + w < width {
            wrap_go(
                ts.drop_first(),
                width,
                acc.update(acc.len() - 1, acc.last().push(ts[0])),
                cur + 1 + w,
            )
        } else {
            wrap_go(ts.drop_first(), width, acc.push(seq![ts[0]]), w)
        }
    }
}

/// The wrapped lines of `s` at budget `width`, each line as its token
/// sequence.
pub open spec fn wrap_token_lines(s: Seq<char>, width: int) -> Seq<Seq<Seq<char>>> {
    wrap_go(tokens_of(s), width, Seq::empty(), 0)
}

/// The wrapped lines of `s` at budget `width`, each line as the displayed
/// character sequence.
pub open spec fn wrap_spec(s: Seq<char>, width: int) -> Seq<Seq<char>> {
    wrap_token_lines(s, width).map_values(|line: Seq<Seq<char>>| line_join(line))
}

proof fn lemma_line_join_push(line: Seq<Seq<char>>, t: Seq<char>)
    ensures
        line_join(line.push(t)) == line_join(line) + t + seq![' '],
    decreases line.len(),
{
    let p = line.push(t);
    assert(p.len() == line.len() + 1);
    if line.len() == 0 {
        assert(p[0] == t);
        assert(p.drop_first() =~= Seq::<Seq<char>>::empty());
        assert(line_join(p) == p[0] + seq![' '] + line_join(p.drop_first()));
        assert(line_join(p) =~= line_join(line) + t + seq![' ']);
    } else {
        assert(p[0] == line[0]);
        assert(p.drop_first() =~= line.drop_first().push(t));
        lemma_line_join_push(line.drop_first(), t);
        assert(line_join(p) == p[0] + seq![' '] + line_join(p.drop_first()));
        assert(line_join(p) =~= line_join(line) + t + seq![' ']);
    }
}

/// Wraps a command line greedily to a column budget, measuring tokens by
/// displayed width. The first token of a line is never split or dropped,
/// so a token wider than the budget stands on a line of its own.
pub fn wrap_cmdline(line: &str, width: usize) -> (r: Vec<String>)
    ensures
        r.deep_view() == wrap_spec(line@, width as int),
{
    let toks = tokenize(line);
    let ghost all = tokens_of(line@);
    let mut result: Vec<String> = Vec::new();
    let ghost mut acc: Seq<Seq<Seq<char>>> = Seq::empty();
    let ghost mut gcur: int = 0;
    let mut cur: usize = 0;
    let mut k: usize = 0;
    proof {
        assert(toks.deep_view().skip(0) =~= all);
    }
    while k < toks.len()
        invariant
            k <= toks.len(),
            toks.deep_view() == all,
            toks.deep_view().len() == toks@.len(),
            wrap_go(all, width as int, Seq::empty(), 0) == wrap_go(
                all.skip(k as int),
                width as int,
                acc,
                gcur,
            ),
            result.deep_view() == acc.map_values(|l: Seq<Seq<char>>| line_join(l)),
            result@.len() == acc.len(),
            gcur >= 0,
            cur as int == gcur,
        decreases toks.len() - k,
    {
        let w = str_display_width(&toks[k]);
        let ghost t = all[k as int];
        proof {
            assert(toks@[k as int].deep_view() == toks.deep_view()[k as int]);
            assert(t == toks@[k as int]@);
            assert(all.skip(k as int)[0] == t);
            assert(all.skip(k as int).drop_first() =~= all.skip(k as int + 1));
        }
        let fits = if result.len() > 0 {
            match cur.checked_add(1) {
                Some(sum) => match sum.checked_add(w) {
                    Some(total) => total < width,
                    None => false,
                },
                None => false,
            }
        } else {
            false
        };
        proof {
            assert(fits == (acc.len() > 0 && gcur + 1 + (display_width_of(t) as int)
                < width as int));
        }
        if fits {
            let ghost pre = result.deep_view();
            let ghost old_last = acc.last();
            proof {
                assert(pre[acc.len() - 1] == line_join(old_last));
            }
            let mut last = result.pop().unwrap();
            proof {
                assert(last@ == pre[acc.len() - 1]);
            }
            last.append(toks[k].as_str());
            last.append(" ");
            proof {
                reveal_strlit(" ");
                assert(" "@ =~= seq![' ']);
                lemma_line_join_push(old_last, t);
                assert(last@ =~= line_join(old_last.push(t)));
            }
            let ghost acc0 = acc;
            let ghost v0 = result@;
            result.push(last);
            proof {
                acc = acc0.update(acc0.len() - 1, old_last.push(t));
                gcur = gcur + 1 + display_width_of(t) as int;
                assert forall|m: int| 0 <= m < acc.len() implies result.deep_view()[m]
                    == line_join(acc[m]) by {
                    assert(result.deep_view()[m] == result@[m]@);
                    if m < acc.len() - 1 {
                        assert(result@[m] == v0[m]);
                        assert(pre[m] == acc0.map_values(|l: Seq<Seq<char>>| line_join(l))[m]);
                        assert(pre[m] == v0[m]@);
                    } else {
                        assert(result@[m] == last);
                    }
                }
                assert(result.deep_view() =~= acc.map_values(
                    |l: Seq<Seq<char>>| line_join(l),
                ));
            }
            cur = cur + 1 + w;
        } else {
            let mut fresh = String::new();
            fresh.append(toks[k].as_str());
            fresh.append(" ");
            proof {
                reveal_strlit(" ");
                assert(" "@ =~= seq![' ']);
                assert(seq![t].drop_first() =~= Seq::<Seq<char>>::empty());
                assert(seq![t].len() == 1 && seq![t][0] == t);
                assert(line_join(seq![t]) == t + seq![' '] + line_join(seq![t].drop_first()));
                assert(line_join(Seq::<Seq<char>>::empty()) == Seq::<char>::empty());
                assert(fresh@ =~= line_join(seq![t]));
            }
            let ghost acc0 = acc;
            let ghost pre = result.deep_view();
            let ghost v0 = result@;
            result.push(fresh);
            proof {
                acc = acc0.push(seq![t]);
                gcur = display_width_of(t) as int;
                assert forall|m: int| 0 <= m < acc.len() implies result.deep_view()[m]
                    == line_join(acc[m]) by {
                    assert(result.deep_view()[m] == result@[m]@);
                    if m < acc.len() - 1 {
                        assert(result@[m] == v0[m]);
                        assert(pre[m] == acc0.map_values(|l: Seq<Seq<char>>| line_join(l))[m]);
                        assert(pre[m] == v0[m]@);
                    } else {
                        assert(result@[m] == fresh);
                    }
                }
                assert(result.deep_view() =~= acc.map_values(
                    |l: Seq<Seq<char>>| line_join(l),
                ));
            }
            cur = w;
        }
        k = k + 1;
    }
    proof {
        assert(all.skip(k as int) =~= Seq::<Seq<char>>::empty());
        assert(result.deep_view() =~= wrap_spec(line@, width as int));
    }
    result
}

/// Every token of every line is nonempty and free of whitespace.
pub open spec fn toks_wf(ts: Seq<Seq<char>>) -> bool {
    &&& forall|k: int| 0 <= k < ts.len() ==> (#[trigger] ts[k]).len() >= 1
    &&& forall|k: int, c: int|
        0 <= k < ts.len() && 0 <= c < ts[k].len() ==> !is_space(#[trigger] ts[k][c])
}

/// All tokens on all lines are well formed.
pub open spec fn lines_wf(lines: Seq<Seq<Seq<char>>>) -> bool {
    forall|i: int| 0 <= i < lines.len() ==> toks_wf(#[trigger] lines[i])
}

/// A line as the wrapper leaves it: nonempty, and when it holds more than
/// one token, its trimmed displayed width — the tokens' summed display
/// widths plus one separator column between each adjacent pair — stays
/// strictly under the budget.
pub open spec fn line_fits(line: Seq<Seq<char>>, width: int) -> bool {
    line.len() >= 1 && (line.len() == 1 || line_width_sum(line) + line.len() - 1 < width)
}

proof fn lemma_line_width_sum_nonneg(line: Seq<Seq<char>>)
    ensures
        line_width_sum(line) >= 0,
    decreases line.len(),
{
    if line.len() > 0 {
        lemma_line_width_sum_nonneg(line.drop_first());
    }
}

proof fn lemma_line_width_sum_push(line: Seq<Seq<char>>, t: Seq<char>)
    ensures
        line_width_sum(line.push(t)) == line_width_sum(line) + display_width_of(t),
    decreases line.len(),
{
    let p = line.push(t);
    assert(p[0] == if line.len() == 0 { t } else { line[0] });
    assert(line_width_sum(p) == display_width_of(p[0]) + line_width_sum(p.drop_first()));
    if line.len() == 0 {
        assert(p.drop_first() =~= Seq::<Seq<char>>::empty());
    } else {
        assert(p[0] == line[0]);
        assert(p.drop_first() =~= line.drop_first().push(t));
        lemma_line_width_sum_push(line.drop_first(), t);
    }
}

proof fn lemma_line_width_sum_singleton(t: Seq<char>)
    ensures
        line_width_sum(seq![t]) == display_width_of(t),
{
    lemma_line_width_sum_push(Seq::empty(), t);
    assert(Seq::<Seq<char>>::empty().push(t) =~= seq![t]);
}

proof fn lemma_wrap_go_fits(ts: Seq<Seq<char>>, width: int, acc: Seq<Seq<Seq<char>>>, cur: int)
    requires
        forall|i: int| 0 <= i < acc.len() ==> line_fits(#[trigger] acc[i], width),
        acc.len() > 0 ==> cur == line_width_sum(acc.last()) + acc.last().len() - 1,
    ensures
        forall|i: int|
            0 <= i < wrap_go(ts, width, acc, cur).len() ==> line_fits(
                #[trigger] wrap_go(ts, width, acc, cur)[i],
                width,
            ),
    decreases ts.len(),
{
    if ts.len() > 0 {
        let t = ts[0];
        let w = display_width_of(t) as int;
        if acc.len() > 0 && cur + 1 + w < width {
            let new_last = acc.last().push(t);
            lemma_line_width_sum_push(acc.last(), t);
            assert(line_width_sum(new_last) + new_last.len() - 1 == cur + 1 + w);
            assert(line_fits(new_last, width));
            let acc2 = acc.update(acc.len() - 1, new_last);
            assert forall|i: int| 0 <= i < acc2.len() implies line_fits(
                #[trigger] acc2[i],
                width,
            ) by {
                if i < acc2.len() - 1 {
                    assert(acc2[i] == acc[i]);
                } else {
                    assert(acc2[i] == new_last);
                }
            }
            assert(acc2.last() == new_last);
            lemma_wrap_go_fits(ts.drop_first(), width, acc2, cur + 1 + w);
            assert(wrap_go(ts, width, acc, cur) == wrap_go(
                ts.drop_first(),
                width,
                acc2,
                cur + 1 + w,
            ));
        } else {
            let acc2 = acc.push(seq![t]);
            assert(seq![t].len() == 1 && seq![t][0] == t);
            lemma_line_width_sum_singleton(t);
            assert(line_width_sum(seq![t]) == w);
            assert(line_fits(seq![t], width));
            assert forall|i: int| 0 <= i < acc2.len() implies line_fits(
                #[trigger] acc2[i],
                width,
            ) by {
                if i < acc2.len() - 1 {
                    assert(acc2[i] == acc[i]);
                } else {
                    assert(acc2[i] == seq![t]);
                }
            }
            assert(acc2.last() == seq![t]);
            lemma_wrap_go_fits(ts.drop_first(), width, acc2, w);
            assert(wrap_go(ts, width, acc, cur) == wrap_go(ts.drop_first(), width, acc2, w));
        }
    }
}

/// Width bound of the wrapper's output. Every line holds at least one
/// token. A line of two or more tokens keeps its trimmed displayed width
/// — its tokens' summed display widths plus the one-column separator
/// between each adjacent pair, the trailing separator not counted —
/// strictly under the budget. A single-token line is exempt: the first
/// token of a line is placed whatever its width, so an over-wide token
/// stands alone verbatim.
pub proof fn lemma_wrap_width_bound(s: Seq<char>, width: int)
    ensures
        forall|i: int|
            0 <= i < wrap_token_lines(s, width).len() ==> (#[trigger] wrap_token_lines(
                s,
                width,
            )[i]).len() >= 1,
        forall|i: int|
            0 <= i < wrap_token_lines(s, width).len() && (#[trigger] wrap_token_lines(
                s,
                width,
            )[i]).len() >= 2 ==> line_width_sum(wrap_token_lines(s, width)[i])
                + wrap_token_lines(s, width)[i].len() - 1 < width,
{
    lemma_wrap_go_fits(tokens_of(s), width, Seq::empty(), 0);
}

proof fn lemma_wrap_go_wf(ts: Seq<Seq<char>>, width: int, acc: Seq<Seq<Seq<char>>>, cur: int)
    requires
        toks_wf(ts),
        lines_wf(acc),
    ensures
        lines_wf(wrap_go(ts, width, acc, cur)),
    decreases ts.len(),
{
    if ts.len() > 0 {
        let t = ts[0];
        let w = display_width_of(t) as int;
        assert(toks_wf(ts.drop_first())) by {
            assert(forall|k: int, c: int|
                0 <= k < ts.drop_first().len() && 0 <= c < ts.drop_first()[k].len()
                    ==> #[trigger] ts.drop_first()[k][c] == ts[k + 1][c]);
        }
        if acc.len() > 0 && cur + 1 + w < width {
            let old_last = acc.last();
            assert(toks_wf(old_last));
            let new_last = old_last.push(t);
            let acc2 = acc.update(acc.len() - 1, new_last);
            assert(toks_wf(new_last)) by {
                assert forall|k: int| 0 <= k < new_last.len() implies (#[trigger] new_last[k]).len()
                    >= 1 by {
                    if k < old_last.len() {
                        assert(new_last[k] == old_last[k]);
                    } else {
                        assert(new_last[k] == t);
                    }
                }
                assert forall|k: int, c: int|
                    0 <= k < new_last.len() && 0 <= c < new_last[k].len() implies !is_space(
                    #[trigger] new_last[k][c],
                ) by {
                    if k < old_last.len() {
                        assert(new_last[k] == old_last[k]);
                    } else {
                        assert(new_last[k] == t);
                    }
                }
            }
            assert(lines_wf(acc2)) by {
                assert forall|i: int| 0 <= i < acc2.len() implies toks_wf(#[trigger] acc2[i]) by {
                    if i < acc2.len() - 1 {
                        assert(acc2[i] == acc[i]);
                    } else {
                        assert(acc2[i] == new_last);
                    }
                }
            }
            lemma_wrap_go_wf(ts.drop_first(), width, acc2, cur + 1 + w);
        } else {
            let acc2 = acc.push(seq![t]);
            assert(toks_wf(seq![t])) by {
                assert(seq![t].len() == 1 && seq![t][0] == t);
            }
            assert(lines_wf(acc2)) by {
                assert forall|i: int| 0 <= i < acc2.len() implies toks_wf(#[trigger] acc2[i]) by {
                    if i < acc2.len() - 1 {
                        assert(acc2[i] == acc[i]);
                    } else {
                        assert(acc2[i] == seq![t]);
                    }
                }
            }
            lemma_wrap_go_wf(ts.drop_first(), width, acc2, w);
        }
    }
}

proof fn lemma_tokens_from_offset(prefix: Seq<char>, rest: Seq<char>, i: int)
    requires
        0 <= i,
    ensures
        tokens_from(prefix + rest, prefix.len() + i) == tokens_from(rest, i),
    decreases rest.len() - i,
{
    let s = prefix + rest;
    if i >= rest.len() {
        assert(tokens_from(s, prefix.len() + i) =~= tokens_from(rest, i));
    } else {
        assert(s[prefix.len() + i] == rest[i]);
        lemma_tokens_from_offset(prefix, rest, i + 1);
        if !is_space(rest[i]) {
            if i + 1 < rest.len() {
                assert(s[prefix.len() + i + 1] == rest[i + 1]);
            }
            assert(tokens_from(s, prefix.len() + i) =~= tokens_from(rest, i));
        }
    }
}

/// Tokenizing a line the wrapper produced gives back exactly the tokens
/// it was joined from.
proof fn lemma_tokens_of_join(line: Seq<Seq<char>>)
    requires
        toks_wf(line),
    ensures
        tokens_of(line_join(line)) == line,
    decreases line.len(),
{
    if line.len() == 0 {
        assert(tokens_of(line_join(line)) =~= line);
    } else {
        let t0 = line[0];
        let tail = line.drop_first();
        let suffix = line_join(tail);
        let s = line_join(line);
        assert(s == t0 + seq![' '] + suffix);
        let prefix = t0 + seq![' '];
        assert(s =~= prefix + suffix);
        assert(t0.len() >= 1);
        assert(forall|k: int| 0 <= k < t0.len() ==> s[k] == t0[k]);
        assert(forall|k: int| 0 <= k < t0.len() ==> !is_space(#[trigger] s[k]));
        assert(s[t0.len() as int] == ' ');
        lemma_token_run(s, 0, t0.len() as int);
        assert(s.subrange(0, t0.len() as int) =~= t0);
        assert(tokens_from(s, t0.len() as int) == tokens_from(s, t0.len() + 1int));
        lemma_tokens_from_offset(prefix, suffix, 0);
        assert(tokens_from(s, prefix.len() + 0int) == tokens_from(suffix, 0));
        assert(toks_wf(tail)) by {
            assert(forall|k: int, c: int|
                0 <= k < tail.len() && 0 <= c < tail[k].len() ==> #[trigger] tail[k][c] == line[k
                    + 1][c]);
        }
        lemma_tokens_of_join(tail);
        assert(tokens_of(s) =~= seq![t0].add(tail));
        assert(seq![t0].add(tail) =~= line);
    }
}

proof fn lemma_wrap_go_extend(
    rem: Seq<Seq<char>>,
    width: int,
    accp: Seq<Seq<Seq<char>>>,
    l1: Seq<Seq<char>>,
)
    requires
        l1.len() >= 1,
        rem.len() == 0 || line_width_sum(l1) + line_width_sum(rem) + l1.len() + rem.len() - 1
            < width,
    ensures
        wrap_go(rem, width, accp.push(l1), line_width_sum(l1) + l1.len() - 1) == accp.push(
            l1 + rem,
        ),
    decreases rem.len(),
{
    lemma_line_width_sum_nonneg(l1);
    if rem.len() == 0 {
        assert(l1 + rem =~= l1);
    } else {
        let t = rem[0];
        let w = display_width_of(t) as int;
        let cur = line_width_sum(l1) + l1.len() - 1;
        lemma_line_width_sum_nonneg(rem.drop_first());
        assert(line_width_sum(rem) == w + line_width_sum(rem.drop_first()));
        assert(cur + 1 + w < width);
        let acc1 = accp.push(l1);
        assert(acc1.len() > 0 && acc1.last() == l1);
        let l2 = l1.push(t);
        assert(acc1.update(acc1.len() - 1, l2) =~= accp.push(l2));
        lemma_line_width_sum_push(l1, t);
        lemma_wrap_go_extend(rem.drop_first(), width, accp, l2);
        assert(l2 + rem.drop_first() =~= l1 + rem);
    }
}

/// Re-wrapping any single line the wrapper produced, at the same budget,
/// returns that line unchanged: wrapping is idempotent line by line, so in
/// particular the longest wrapped line never splits further.
pub proof fn lemma_wrap_idempotent(s: Seq<char>, width: int, i: int)
    requires
        0 <= i < wrap_spec(s, width).len(),
    ensures
        wrap_spec(wrap_spec(s, width)[i], width) == seq![wrap_spec(s, width)[i]],
{
    let lines = wrap_token_lines(s, width);
    let line = lines[i];
    let lstr = wrap_spec(s, width)[i];
    assert(lstr == line_join(line));
    lemma_tokens_from_wf(s, 0);
    assert(toks_wf(tokens_of(s)));
    lemma_wrap_go_wf(tokens_of(s), width, Seq::empty(), 0);
    assert(toks_wf(line));
    lemma_tokens_of_join(line);
    lemma_wrap_go_fits(tokens_of(s), width, Seq::empty(), 0);
    assert(line_fits(line, width));
    assert(line.len() >= 1);
    let t0 = line[0];
    let w0 = display_width_of(t0) as int;
    assert(wrap_go(line, width, Seq::empty(), 0) == wrap_go(
        line.drop_first(),
        width,
        Seq::empty().push(seq![t0]),
        w0,
    ));
    assert(seq![t0].len() == 1 && seq![t0][0] == t0);
    assert(seq![t0].drop_first() =~= Seq::<Seq<char>>::empty());
    lemma_line_width_sum_singleton(t0);
    assert(line_width_sum(seq![t0]) == w0);
    if line.len() == 1 {
        lemma_wrap_go_extend(line.drop_first(), width, Seq::empty(), seq![t0]);
    } else {
        assert(line_width_sum(line) + line.len() - 1 < width);
        assert(line_width_sum(line) == w0 + line_width_sum(line.drop_first()));
        lemma_wrap_go_extend(line.drop_first(), width, Seq::empty(), seq![t0]);
    }
    assert(seq![t0] + line.drop_first() =~= line);
    assert(wrap_token_lines(lstr, width) == Seq::<Seq<Seq<char>>>::empty().push(line));
    assert(wrap_spec(lstr, width) =~= seq![lstr]);
}

} // verus!

