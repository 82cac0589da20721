//! General properties of the formatting model, proved once and for all
//! inputs: token preservation, the absence of edge whitespace, the
//! depth/indentation correspondence, and parenthesis suppression.

use vstd::prelude::*;

use crate::model::after_space_removal;
use crate::model::all_white;
use crate::model::break_before_decls;
use crate::model::cut_line;
use crate::model::decl_kw;
use crate::model::expand_tabs;
use crate::model::formatted;
use crate::model::indent_chars;
use crate::model::is_white;
use crate::model::lemma_take_succ;
use crate::model::line_break;
use crate::model::pass_run;
use crate::model::pass_step;
use crate::model::starts_with_decl;
use crate::model::tokens_of;
use crate::model::trim_back;
use crate::model::trim_front;
use crate::model::unit_spaces;
use crate::model::Pass;

verus! {

// ---------------------------------------------------------------------------
// Facts about `tokens_of`, the non-whitespace subsequence.
// ---------------------------------------------------------------------------
proof fn lemma_tokens_add(a: Seq<char>, b: Seq<char>)
    ensures
        tokens_of(a + b) == tokens_of(a) + tokens_of(b),
    decreases b.len(),
{
    if b.len() == 0 {
        assert(a + b =~= a);
        assert(tokens_of(a) + tokens_of(b) =~= tokens_of(a));
    } else {
        lemma_tokens_add(a, b.drop_last());
        assert((a + b).drop_last() =~= a + b.drop_last());
        assert((a + b).last() == b.last());
        if !is_white(b.last()) {
            assert(tokens_of(a) + tokens_of(b.drop_last()).push(b.last()) =~= (tokens_of(a)
                + tokens_of(b.drop_last())).push(b.last()));
        }
    }
}

proof fn lemma_tokens_all_white(s: Seq<char>)
    requires
        all_white(s),
    ensures
        tokens_of(s) == Seq::<char>::empty(),
    decreases s.len(),
{
    if s.len() == 0 {
        assert(tokens_of(s) =~= Seq::<char>::empty());
    } else {
        assert(is_white(s.last()));
        lemma_tokens_all_white(s.drop_last());
    }
}

proof fn lemma_tokens_id(s: Seq<char>)
    requires
        forall|i: int| 0 <= i < s.len() ==> !is_white(#[trigger] s[i]),
    ensures
        tokens_of(s) == s,
    decreases s.len(),
{
    if s.len() > 0 {
        assert(!is_white(s.last()));
        lemma_tokens_id(s.drop_last());
        assert(s.drop_last().push(s.last()) =~= s);
    }
}

proof fn lemma_tokens_single(c: char)
    ensures
        tokens_of(seq![c]) == if is_white(c) {
            Seq::<char>::empty()
        } else {
            seq![c]
        },
{
    assert(seq![c].drop_last() =~= Seq::<char>::empty());
    assert(seq![c].last() == c);
    assert(tokens_of(Seq::<char>::empty()) == Seq::<char>::empty());
    if !is_white(c) {
        assert(Seq::<char>::empty().push(c) =~= seq![c]);
    }
}

proof fn lemma_indent_white(n: nat)
    ensures
        all_white(indent_chars(n)),
    decreases n,
{
    if n > 0 {
        lemma_indent_white((n - 1) as nat);
    }
}

proof fn lemma_line_break_white(n: nat)
    ensures
        all_white(line_break(n)),
{
    lemma_indent_white(n);
}

proof fn lemma_tokens_line_break(n: nat)
    ensures
        tokens_of(line_break(n)) == Seq::<char>::empty(),
{
    lemma_line_break_white(n);
    lemma_tokens_all_white(line_break(n));
}

// ---------------------------------------------------------------------------
// The tail of the output buffer behind its most recent line break.
// ---------------------------------------------------------------------------
/// The suffix of `s` that follows its last `'\n'`; the whole of `s` when no
/// `'\n'` occurs. It is exactly what the dedent rewrite of a `}` erases.
pub open spec fn line_tail(s: Seq<char>) -> Seq<char>
    decreases s.len(),
{
    if s.len() == 0 {
        s
    } else if s.last() == '\n' {
        Seq::empty()
    } else {
        line_tail(s.drop_last()).push(s.last())
    }
}

proof fn lemma_cut_tail_tokens(s: Seq<char>)
    ensures
        tokens_of(s) == tokens_of(cut_line(s)) + tokens_of(line_tail(s)),
    decreases s.len(),
{
    if s.len() == 0 {
        assert(tokens_of(cut_line(s)) + tokens_of(line_tail(s)) =~= tokens_of(s));
    } else if s.last() == '\n' {
        assert(is_white('\n'));
        assert(tokens_of(line_tail(s)) =~= Seq::<char>::empty());
        assert(tokens_of(cut_line(s)) + tokens_of(line_tail(s)) =~= tokens_of(s.drop_last()));
    } else {
        lemma_cut_tail_tokens(s.drop_last());
        let tail_prev = line_tail(s.drop_last());
        assert(tail_prev.push(s.last()).drop_last() =~= tail_prev);
        assert(tail_prev.push(s.last()).last() == s.last());
        if is_white(s.last()) {
            assert(tokens_of(line_tail(s)) == tokens_of(tail_prev));
        } else {
            assert(tokens_of(line_tail(s)) == tokens_of(tail_prev).push(s.last()));
            assert(tokens_of(cut_line(s)) + tokens_of(tail_prev).push(s.last()) =~= (tokens_of(
                cut_line(s),
            ) + tokens_of(tail_prev)).push(s.last()));
        }
    }
}

// ---------------------------------------------------------------------------
// Invariants of the pass.
// ---------------------------------------------------------------------------
/// When the recorded last character is whitespace, it is still the final
/// character of the output: nothing has been appended after it. This is
/// what makes the retroactive deletion rule remove only whitespace.
spec fn last_white_inv(st: Pass) -> bool {
    is_white(st.last) && st.out.len() > 0 ==> st.out.last() == st.last
}

proof fn lemma_pass_last_inv(input: Seq<char>)
    ensures
        last_white_inv(pass_run(input)),
    decreases input.len(),
{
    if input.len() > 0 {
        lemma_pass_last_inv(input.drop_last());
        let st = pass_run(input.drop_last());
        let c = input.last();
        let stepped = pass_step(st, c);
        if !(st.skip_space && is_white(c) && st.last != '>') {
            if !(c == '}' || c == '{' || c == ',' || c == '(' || c == ')' || c == ':' || c
                == '<') {
                assert(stepped.out == after_space_removal(st, c) + seq![c]);
                assert(stepped.out.last() == c);
            }
        }
    }
}

proof fn lemma_tokens_after_removal(st: Pass, c: char)
    requires
        last_white_inv(st),
    ensures
        tokens_of(after_space_removal(st, c)) == tokens_of(st.out),
{
    let out1 = after_space_removal(st, c);
    if out1 != st.out {
        // A character was deleted; the rule fires only behind whitespace,
        // and by the invariant that whitespace is still the final output
        // character, so only it is removed.
        assert(is_white(st.last));
        assert(st.out.len() > 0);
        assert(out1 == st.out.drop_last());
        assert(is_white(st.out.last()));
    }
}

// ---------------------------------------------------------------------------
// Token preservation, step by step.
// ---------------------------------------------------------------------------
proof fn lemma_step_tokens(st: Pass, c: char)
    requires
        last_white_inv(st),
        c == '}' ==> all_white(line_tail(st.out)),
    ensures
        tokens_of(pass_step(st, c).out) == tokens_of(st.out) + tokens_of(seq![c]),
{
    let out1 = after_space_removal(st, c);
    lemma_tokens_after_removal(st, c);
    lemma_tokens_single(c);
    let stepped = pass_step(st, c);
    if st.skip_space && is_white(c) && st.last != '>' {
        assert(stepped.out == out1);
        assert(tokens_of(st.out) + tokens_of(seq![c]) =~= tokens_of(st.out));
    } else if c == '}' {
        let ind = stepped.indent;
        assert(out1 == st.out);
        lemma_cut_tail_tokens(st.out);
        lemma_tokens_all_white(line_tail(st.out));
        assert(tokens_of(cut_line(st.out)) + tokens_of(line_tail(st.out)) =~= tokens_of(
            cut_line(st.out),
        ));
        lemma_tokens_line_break(ind);
        lemma_tokens_add(cut_line(out1), line_break(ind));
        lemma_tokens_add(cut_line(out1) + line_break(ind), seq!['}']);
        lemma_tokens_add(cut_line(out1) + line_break(ind) + seq!['}'], line_break(ind));
        assert(tokens_of(stepped.out) =~= tokens_of(st.out) + tokens_of(seq![c]));
    } else if c == '{' {
        lemma_tokens_line_break(st.indent + 1);
        lemma_tokens_add(out1, seq!['{']);
        lemma_tokens_add(out1 + seq!['{'], line_break(st.indent + 1));
        assert(tokens_of(stepped.out) =~= tokens_of(st.out) + tokens_of(seq![c]));
    } else if c == ',' && !st.in_paren {
        lemma_tokens_line_break(st.indent);
        lemma_tokens_add(out1, seq![',']);
        lemma_tokens_add(out1 + seq![','], line_break(st.indent));
        assert(tokens_of(stepped.out) =~= tokens_of(st.out) + tokens_of(seq![c]));
    } else {
        // Every remaining case appends exactly the character itself.
        assert(stepped.out == out1 + seq![c]);
        lemma_tokens_add(out1, seq![c]);
    }
}

/// Whether the pass drops no token of `input`: at each `}`, the line that
/// its dedent rewrite erases holds nothing but whitespace. This is exactly
/// the set of inputs on which the rewrite cannot swallow a token;
/// [`lemma_breaks_keep_tokens`] shows that every input in the generator's
/// shape — each `}` preceded, whitespace aside, by a line-breaking
/// delimiter or by nothing but whitespace — satisfies it.
pub open spec fn keeps_tokens(input: Seq<char>) -> bool
    decreases input.len(),
{
    if input.len() == 0 {
        true
    } else {
        keeps_tokens(input.drop_last()) && (input.last() == '}' ==> all_white(
            line_tail(pass_run(input.drop_last()).out),
        ))
    }
}

proof fn lemma_pass_tokens(input: Seq<char>)
    requires
        keeps_tokens(input),
    ensures
        tokens_of(pass_run(input).out) == tokens_of(input),
    decreases input.len(),
{
    if input.len() == 0 {
        assert(tokens_of(pass_run(input).out) =~= tokens_of(input));
    } else {
        let prev = input.drop_last();
        let c = input.last();
        lemma_pass_tokens(prev);
        lemma_pass_last_inv(prev);
        lemma_step_tokens(pass_run(prev), c);
        lemma_tokens_single(c);
        if is_white(c) {
            assert(tokens_of(prev) + tokens_of(seq![c]) =~= tokens_of(prev));
        } else {
            assert(tokens_of(prev) + tokens_of(seq![c]) =~= tokens_of(prev).push(c));
        }
    }
}

// ---------------------------------------------------------------------------
// The cleanup steps preserve the tokens.
// ---------------------------------------------------------------------------
proof fn lemma_expand_tokens(s: Seq<char>)
    ensures
        tokens_of(expand_tabs(s)) == tokens_of(s),
    decreases s.len(),
{
    if s.len() > 0 {
        lemma_expand_tokens(s.drop_last());
        if s.last() == '\t' {
            assert(all_white(unit_spaces()));
            lemma_tokens_all_white(unit_spaces());
            lemma_tokens_add(expand_tabs(s.drop_last()), unit_spaces());
            assert(tokens_of(expand_tabs(s.drop_last())) + Seq::<char>::empty() =~= tokens_of(
                expand_tabs(s.drop_last()),
            ));
            assert(is_white('\t'));
        } else {
            lemma_tokens_single(s.last());
            lemma_tokens_add(expand_tabs(s.drop_last()), seq![s.last()]);
            assert(expand_tabs(s.drop_last()).push(s.last()) =~= expand_tabs(s.drop_last())
                + seq![s.last()]);
            if is_white(s.last()) {
                assert(tokens_of(expand_tabs(s)) =~= tokens_of(s));
            } else {
                assert(tokens_of(expand_tabs(s)) =~= tokens_of(s.drop_last()).push(s.last()));
            }
        }
    }
}

proof fn lemma_decl_kw_tokens()
    ensures
        tokens_of(decl_kw()) == decl_kw(),
{
    assert forall|i: int| 0 <= i < decl_kw().len() implies !is_white(#[trigger] decl_kw()[i]) by {
        assert(decl_kw()[0] == 't');
        assert(decl_kw()[1] == 'a');
        assert(decl_kw()[2] == 'b');
        assert(decl_kw()[3] == 'l');
        assert(decl_kw()[4] == 'e');
        assert(decl_kw()[5] == '!');
    }
    lemma_tokens_id(decl_kw());
}

proof fn lemma_break_tokens(s: Seq<char>)
    ensures
        tokens_of(break_before_decls(s)) == tokens_of(s),
    decreases s.len(),
{
    if s.len() == 0 {
    } else if starts_with_decl(s) {
        lemma_break_tokens(s.skip(6));
        assert(s =~= s.subrange(0, 6) + s.skip(6));
        lemma_tokens_add(decl_kw(), s.skip(6));
        lemma_decl_kw_tokens();
        lemma_tokens_single('\n');
        assert(is_white('\n'));
        lemma_tokens_add(seq!['\n'], decl_kw() + break_before_decls(s.skip(6)));
        lemma_tokens_add(decl_kw(), break_before_decls(s.skip(6)));
        assert(seq!['\n'] + decl_kw() + break_before_decls(s.skip(6)) =~= seq!['\n'] + (decl_kw()
            + break_before_decls(s.skip(6))));
        assert(tokens_of(break_before_decls(s)) =~= tokens_of(s));
    } else {
        lemma_break_tokens(s.skip(1));
        assert(s =~= seq![s[0]] + s.skip(1));
        lemma_tokens_add(seq![s[0]], s.skip(1));
        lemma_tokens_add(seq![s[0]], break_before_decls(s.skip(1)));
    }
}

proof fn lemma_trim_front_tokens(s: Seq<char>)
    ensures
        tokens_of(trim_front(s)) == tokens_of(s),
    decreases s.len(),
{
    if s.len() > 0 && is_white(s[0]) {
        lemma_trim_front_tokens(s.skip(1));
        assert(s =~= seq![s[0]] + s.skip(1));
        lemma_tokens_add(seq![s[0]], s.skip(1));
        lemma_tokens_single(s[0]);
        assert(Seq::<char>::empty() + tokens_of(s.skip(1)) =~= tokens_of(s.skip(1)));
    }
}

proof fn lemma_trim_back_tokens(s: Seq<char>)
    ensures
        tokens_of(trim_back(s)) == tokens_of(s),
    decreases s.len(),
{
    if s.len() > 0 && is_white(s.last()) {
        lemma_trim_back_tokens(s.drop_last());
    }
}

// ---------------------------------------------------------------------------
// Structure of the trimming step.
// ---------------------------------------------------------------------------
proof fn lemma_trim_front_first(s: Seq<char>)
    ensures
        trim_front(s).len() > 0 ==> !is_white(trim_front(s)[0]),
    decreases s.len(),
{
    if s.len() > 0 && is_white(s[0]) {
        lemma_trim_front_first(s.skip(1));
    }
}

proof fn lemma_trim_back_prefix(s: Seq<char>)
    ensures
        trim_back(s).len() <= s.len(),
        forall|i: int| 0 <= i < trim_back(s).len() ==> trim_back(s)[i] == s[i],
        trim_back(s).len() > 0 ==> !is_white(trim_back(s).last()),
    decreases s.len(),
{
    if s.len() > 0 && is_white(s.last()) {
        lemma_trim_back_prefix(s.drop_last());
        assert forall|i: int| 0 <= i < trim_back(s).len() implies trim_back(s)[i] == s[i] by {
            assert(trim_back(s)[i] == trim_back(s.drop_last())[i]);
            assert(s.drop_last()[i] == s[i]);
        }
    }
}

// ---------------------------------------------------------------------------
// The public laws.
// ---------------------------------------------------------------------------
/// Token preservation: for every input on which the dedent rewrite of `}`
/// erases only whitespace (`keeps_tokens`), the output carries exactly the
/// input's non-whitespace characters, in order — so in particular the two
/// multisets of non-whitespace characters coincide. Whitespace is the only
/// thing the formatter inserts or removes.
pub proof fn lemma_token_preservation(input: Seq<char>)
    requires
        keeps_tokens(input),
    ensures
        tokens_of(formatted(input)) == tokens_of(input),
        tokens_of(formatted(input)).to_multiset() == tokens_of(input).to_multiset(),
{
    lemma_pass_tokens(input);
    lemma_expand_tokens(pass_run(input).out);
    lemma_break_tokens(expand_tabs(pass_run(input).out));
    lemma_trim_front_tokens(break_before_decls(expand_tabs(pass_run(input).out)));
    lemma_trim_back_tokens(trim_front(break_before_decls(expand_tabs(pass_run(input).out))));
}

/// No edge whitespace: whatever the input, a non-empty formatted result
/// neither starts nor ends with a whitespace character.
pub proof fn lemma_no_edge_whitespace(input: Seq<char>)
    ensures
        formatted(input).len() > 0 ==> !is_white(formatted(input)[0]),
        formatted(input).len() > 0 ==> !is_white(formatted(input).last()),
{
    let cleaned = break_before_decls(expand_tabs(pass_run(input).out));
    lemma_trim_front_first(cleaned);
    lemma_trim_back_prefix(trim_front(cleaned));
}

// ---------------------------------------------------------------------------
// Inputs in the generator's shape keep their tokens.
// ---------------------------------------------------------------------------
/// Every character of `s` at a position in `[lo, hi)` is whitespace.
pub open spec fn white_range(s: Seq<char>, lo: int, hi: int) -> bool {
    forall|i: int| lo <= i < hi ==> is_white(#[trigger] s[i])
}

/// The character at position `j` makes the pass end its line: an open or
/// close brace, or a comma outside any parenthesized group.
pub open spec fn line_breaker_at(input: Seq<char>, j: int) -> bool
    recommends
        0 <= j < input.len(),
{
    input[j] == '{' || input[j] == '}' || (input[j] == ',' && !pass_run(input.take(j)).in_paren)
}

/// The generator's shape: each `}` is preceded, whitespace aside, by a
/// line-breaking delimiter, or by nothing but whitespace since the start.
pub open spec fn closes_follow_breaks(input: Seq<char>) -> bool {
    forall|k: int|
        0 <= k < input.len() && #[trigger] input[k] == '}' ==> (white_range(input, 0, k) || exists|
            j: int,
        |
            0 <= j < k && #[trigger] line_breaker_at(input, j) && white_range(input, j + 1, k))
}

proof fn lemma_line_tail_of_white(s: Seq<char>)
    requires
        all_white(s),
    ensures
        all_white(line_tail(s)),
    decreases s.len(),
{
    if s.len() > 0 && s.last() != '\n' {
        lemma_line_tail_of_white(s.drop_last());
        let prev = line_tail(s.drop_last());
        assert forall|i: int| 0 <= i < line_tail(s).len() implies is_white(
            #[trigger] line_tail(s)[i],
        ) by {
            if i < prev.len() {
                assert(line_tail(s)[i] == prev[i]);
            } else {
                assert(line_tail(s)[i] == s.last());
            }
        }
    }
}

proof fn lemma_white_input_white_out(input: Seq<char>)
    requires
        all_white(input),
    ensures
        all_white(pass_run(input).out),
    decreases input.len(),
{
    if input.len() > 0 {
        lemma_white_input_white_out(input.drop_last());
        let st = pass_run(input.drop_last());
        let c = input.last();
        assert(is_white(c));
        let out1 = after_space_removal(st, c);
        assert forall|i: int| 0 <= i < out1.len() implies is_white(#[trigger] out1[i]) by {
            assert(out1[i] == st.out[i]);
        }
        if !(st.skip_space && is_white(c) && st.last != '>') {
            assert(pass_run(input).out == out1 + seq![c]);
            assert forall|i: int| 0 <= i < pass_run(input).out.len() implies is_white(
                #[trigger] pass_run(input).out[i],
            ) by {
                if i < out1.len() {
                    assert(pass_run(input).out[i] == out1[i]);
                } else {
                    assert(pass_run(input).out[i] == c);
                }
            }
        }
    }
}

proof fn lemma_line_tail_append_break(a: Seq<char>, n: nat)
    ensures
        line_tail(a + line_break(n)) == indent_chars(n),
    decreases n,
{
    if n == 0 {
        assert(a + line_break(0) =~= a.push('\n'));
        assert((a + line_break(0)).last() == '\n');
        assert(line_tail(a + line_break(0)) =~= indent_chars(0));
    } else {
        lemma_line_tail_append_break(a, (n - 1) as nat);
        let x = a + line_break(n);
        assert(x.last() == '\t');
        assert(x.drop_last() =~= a + line_break((n - 1) as nat));
        assert(line_tail(x) == line_tail(x.drop_last()).push('\t'));
    }
}

proof fn lemma_after_line_breaker(input: Seq<char>, j: int)
    requires
        0 <= j < input.len(),
        line_breaker_at(input, j),
    ensures
        line_tail(pass_run(input.take(j + 1)).out) == indent_chars(
            pass_run(input.take(j + 1)).indent,
        ),
        pass_run(input.take(j + 1)).skip_space,
        pass_run(input.take(j + 1)).last == input[j],
{
    lemma_take_succ(input, j);
    let st = pass_run(input.take(j));
    let c = input[j];
    let out1 = after_space_removal(st, c);
    let stepped = pass_step(st, c);
    if c == '{' {
        lemma_line_tail_append_break(out1 + seq!['{'], st.indent + 1);
    } else if c == '}' {
        lemma_line_tail_append_break(cut_line(out1) + line_break(stepped.indent) + seq!['}'],
            stepped.indent);
    } else {
        lemma_line_tail_append_break(out1 + seq![','], st.indent);
    }
}

proof fn lemma_whitespace_gap(input: Seq<char>, j: int, k: int)
    requires
        0 <= j < k <= input.len(),
        line_breaker_at(input, j),
        white_range(input, j + 1, k),
    ensures
        pass_run(input.take(k)) == pass_run(input.take(j + 1)),
    decreases k,
{
    if k == j + 1 {
    } else {
        lemma_whitespace_gap(input, j, k - 1);
        lemma_after_line_breaker(input, j);
        lemma_take_succ(input, k - 1);
        let st = pass_run(input.take(k - 1));
        let c = input[k - 1];
        assert(is_white(c));
        assert(st.last == input[j]);
        assert(st.last != '>');
        assert(after_space_removal(st, c) == st.out);
        assert(pass_run(input.take(k)) == st);
    }
}

/// Every input in the generator's shape keeps its tokens: when each `}`
/// follows a line-breaking delimiter up to whitespace (or only whitespace
/// since the start of the input), the dedent rewrite only ever erases
/// whitespace, so `lemma_token_preservation` applies.
pub proof fn lemma_breaks_keep_tokens(input: Seq<char>)
    requires
        closes_follow_breaks(input),
    ensures
        keeps_tokens(input),
    decreases input.len(),
{
    if input.len() > 0 {
        let prev = input.drop_last();
        let k = input.len() - 1;
        assert forall|k2: int| 0 <= k2 < prev.len() && #[trigger] prev[k2] == '}' implies (
        white_range(prev, 0, k2) || exists|j: int|
            0 <= j < k2 && #[trigger] line_breaker_at(prev, j) && white_range(
                prev,
                j + 1,
                k2,
            )) by {
            assert(input[k2] == '}');
            if !white_range(input, 0, k2) {
                let j = choose|j: int|
                    0 <= j < k2 && #[trigger] line_breaker_at(input, j) && white_range(
                        input,
                        j + 1,
                        k2,
                    );
                assert(prev.take(j) =~= input.take(j));
                assert(line_breaker_at(prev, j));
                assert(white_range(prev, j + 1, k2));
            } else {
                assert(white_range(prev, 0, k2));
            }
        }
        lemma_breaks_keep_tokens(prev);
        if input.last() == '}' {
            assert(input[k] == '}');
            assert(input.take(k) =~= prev);
            if white_range(input, 0, k) {
                assert forall|i: int| 0 <= i < prev.len() implies is_white(#[trigger] prev[i]) by {
                    assert(input[i] == prev[i]);
                }
                lemma_white_input_white_out(prev);
                lemma_line_tail_of_white(pass_run(prev).out);
            } else {
                let j = choose|j: int|
                    0 <= j < k && #[trigger] line_breaker_at(input, j) && white_range(
                        input,
                        j + 1,
                        k,
                    );
                lemma_whitespace_gap(input, j, k);
                lemma_after_line_breaker(input, j);
                lemma_indent_white(pass_run(input.take(j + 1)).indent);
            }
        }
    }
}

// ---------------------------------------------------------------------------
// Depth and indentation.
// ---------------------------------------------------------------------------
/// The number of `{` in `s`.
pub open spec fn brace_opens(s: Seq<char>) -> nat
    decreases s.len(),
{
    if s.len() == 0 {
        0
    } else {
        brace_opens(s.drop_last()) + if s.last() == '{' {
            1nat
        } else {
            0nat
        }
    }
}

/// The number of `}` in `s`.
pub open spec fn brace_closes(s: Seq<char>) -> nat
    decreases s.len(),
{
    if s.len() == 0 {
        0
    } else {
        brace_closes(s.drop_last()) + if s.last() == '}' {
            1nat
        } else {
            0nat
        }
    }
}

/// Well-balanced so far: no prefix of `s` closes more groups than it opens.
pub open spec fn prefix_balanced(s: Seq<char>) -> bool {
    forall|i: int| 0 <= i <= s.len() ==> brace_closes(#[trigger] s.take(i)) <= brace_opens(s.take(i))
}

/// Depth/indent correspondence: on well-balanced input the indentation
/// prefix, as the pass is about to consume the character at position `k`,
/// is exactly as many units deep as the net count of unmatched `{` minus
/// `}` strictly before that position — so every token is laid out at the
/// depth of the group that contains it.
pub proof fn lemma_depth_matches_indent(input: Seq<char>, k: int)
    requires
        prefix_balanced(input),
        0 <= k <= input.len(),
    ensures
        pass_run(input.take(k)).indent + brace_closes(input.take(k)) == brace_opens(input.take(k)),
    decreases k,
{
    if k == 0 {
        assert(input.take(0) =~= Seq::<char>::empty());
    } else {
        lemma_depth_matches_indent(input, k - 1);
        lemma_take_succ(input, k - 1);
        let st = pass_run(input.take(k - 1));
        let c = input[k - 1];
        assert(brace_closes(input.take(k)) <= brace_opens(input.take(k)));
        if c == '}' {
            assert(brace_closes(input.take(k)) == brace_closes(input.take(k - 1)) + 1);
            assert(brace_opens(input.take(k)) == brace_opens(input.take(k - 1)));
            assert(st.indent > 0);
        }
    }
}

// ---------------------------------------------------------------------------
// Parenthesis suppression.
// ---------------------------------------------------------------------------
/// Parenthesis suppression: a comma consumed while the parenthesis flag is
/// set never triggers a line break. The only change it makes to the output
/// is the comma itself (after the usual retroactive whitespace deletion),
/// it leaves the depth alone, and it arms no whitespace suppression.
pub proof fn lemma_paren_comma_no_break(st: Pass, c: char)
    requires
        st.in_paren,
        c == ',',
    ensures
        pass_step(st, c).out == after_space_removal(st, c) + seq![','],
        pass_step(st, c).indent == st.indent,
        !pass_step(st, c).skip_space,
        pass_step(st, c).in_paren,
{
}

} // verus!

