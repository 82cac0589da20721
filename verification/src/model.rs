//! Mathematical model of the formatter.
//!
//! `pass_run` folds `pass_step` over the input characters and yields the
//! final pass state; `formatted` applies the three whole-string cleanup
//! steps (tab expansion, a line break before each declaration keyword, and
//! trimming) to the pass output. Every contract of the executable code is
//! stated in terms of these functions.

use vstd::prelude::*;

verus! {

/// Unicode white space, as the `White_Space` character property defines it:
/// the characters the pass treats as removable spacing.
pub open spec fn is_white(c: char) -> bool {
    let u = c as u32;
    u == 0x20 || (0x09 <= u && u <= 0x0D) || u == 0x85 || u == 0xA0 || u == 0x1680 || (0x2000 <= u
        && u <= 0x200A) || u == 0x2028 || u == 0x2029 || u == 0x202F || u == 0x205F || u == 0x3000
}

/// The subsequence of non-whitespace characters of `s`, in order.
pub open spec fn tokens_of(s: Seq<char>) -> Seq<char>
    decreases s.len(),
{
    if s.len() == 0 {
        s
    } else if is_white(s.last()) {
        tokens_of(s.drop_last())
    } else {
        tokens_of(s.drop_last()).push(s.last())
    }
}

/// Every character of `s` is whitespace.
pub open spec fn all_white(s: Seq<char>) -> bool {
    forall|i: int| 0 <= i < s.len() ==> is_white(#[trigger] s[i])
}

/// The whole transient state of one formatting pass.
pub ghost struct Pass {
    /// Output accumulated so far.
    pub out: Seq<char>,
    /// Current nesting depth: one indentation unit per `{` group still open.
    pub indent: nat,
    /// When set, the next whitespace character is dropped instead of copied.
    pub skip_space: bool,
    /// The character most recently recorded as processed.
    pub last: char,
    /// Whether the pass is lexically inside a `(...)` group. A single flag,
    /// deliberately not a nesting counter: a second `(` does not deepen it
    /// and any `)` clears it.
    pub in_paren: bool,
}

/// The state at the start of a pass.
pub open spec fn pass_init() -> Pass {
    Pass { out: Seq::empty(), indent: 0, skip_space: false, last: ' ', in_paren: false }
}

/// `s` without its final character; the empty sequence stays empty.
pub open spec fn drop_trailing(s: Seq<char>) -> Seq<char> {
    if s.len() > 0 {
        s.drop_last()
    } else {
        s
    }
}

/// Retroactive whitespace deletion: the output after the incoming character
/// `c` has had its chance to delete a whitespace character just emitted.
/// `! , < ) >` always delete it; `:` keeps it when the character before the
/// deleted one is `>` (the single space of an arrow-to-path transition).
pub open spec fn after_space_removal(st: Pass, c: char) -> Seq<char> {
    if (c == '!' || c == ',' || c == '<' || c == ')' || c == '>') && is_white(st.last) {
        drop_trailing(st.out)
    } else if c == ':' && is_white(st.last) {
        if st.out.len() >= 2 && st.out[st.out.len() - 2] == '>' {
            st.out
        } else {
            drop_trailing(st.out)
        }
    } else {
        st.out
    }
}

/// `s` truncated backward through its last line break: everything from the
/// most recent `'\n'` on (that `'\n'` included) is removed, and a sequence
/// with no `'\n'` becomes empty.
pub open spec fn cut_line(s: Seq<char>) -> Seq<char>
    decreases s.len(),
{
    if s.len() == 0 {
        s
    } else if s.last() == '\n' {
        s.drop_last()
    } else {
        cut_line(s.drop_last())
    }
}

/// `n` indentation units, one tab character per open group.
pub open spec fn indent_chars(n: nat) -> Seq<char>
    decreases n,
{
    if n == 0 {
        Seq::empty()
    } else {
        indent_chars((n - 1) as nat).push('\t')
    }
}

/// A line break followed by the indentation for depth `n`.
pub open spec fn line_break(n: nat) -> Seq<char> {
    seq!['\n'] + indent_chars(n)
}

/// One step of the pass: the state after consuming character `c`.
pub open spec fn pass_step(st: Pass, c: char) -> Pass {
    let out1 = after_space_removal(st, c);
    if st.skip_space && is_white(c) && st.last != '>' {
        // Whitespace collapse: drop `c`, record nothing.
        Pass {
            out: out1,
            indent: st.indent,
            skip_space: st.skip_space,
            last: st.last,
            in_paren: st.in_paren,
        }
    } else if c == '}' {
        // Erase the speculative line emitted after the previous structural
        // character, dedent, and put the close on a fresh shallower line.
        let ind = if st.indent > 0 {
            (st.indent - 1) as nat
        } else {
            0
        };
        Pass {
            out: cut_line(out1) + line_break(ind) + seq!['}'] + line_break(ind),
            indent: ind,
            skip_space: true,
            last: '}',
            in_paren: st.in_paren,
        }
    } else if c == '{' {
        Pass {
            out: out1 + seq!['{'] + line_break(st.indent + 1),
            indent: st.indent + 1,
            skip_space: true,
            last: '{',
            in_paren: st.in_paren,
        }
    } else if c == ',' {
        if st.in_paren {
            Pass {
                out: out1 + seq![','],
                indent: st.indent,
                skip_space: false,
                last: ',',
                in_paren: st.in_paren,
            }
        } else {
            Pass {
                out: out1 + seq![','] + line_break(st.indent),
                indent: st.indent,
                skip_space: true,
                last: ',',
                in_paren: st.in_paren,
            }
        }
    } else if c == '(' {
        Pass {
            out: out1 + seq!['('],
            indent: st.indent,
            skip_space: true,
            last: '(',
            in_paren: true,
        }
    } else if c == ')' {
        Pass {
            out: out1 + seq![')'],
            indent: st.indent,
            skip_space: false,
            last: ')',
            in_paren: false,
        }
    } else if c == ':' || c == '<' {
        Pass {
            out: out1 + seq![c],
            indent: st.indent,
            skip_space: true,
            last: c,
            in_paren: st.in_paren,
        }
    } else {
        Pass {
            out: out1 + seq![c],
            indent: st.indent,
            skip_space: false,
            last: c,
            in_paren: st.in_paren,
        }
    }
}

/// The pass state after consuming the whole of `input`.
pub open spec fn pass_run(input: Seq<char>) -> Pass
    decreases input.len(),
{
    if input.len() == 0 {
        pass_init()
    } else {
        pass_step(pass_run(input.drop_last()), input.last())
    }
}

/// Four literal spaces, the rendering of one indentation unit.
pub open spec fn unit_spaces() -> Seq<char> {
    seq![' ', ' ', ' ', ' ']
}

/// `s` with every tab character replaced by four spaces.
pub open spec fn expand_tabs(s: Seq<char>) -> Seq<char>
    decreases s.len(),
{
    if s.len() == 0 {
        s
    } else if s.last() == '\t' {
        expand_tabs(s.drop_last()) + unit_spaces()
    } else {
        expand_tabs(s.drop_last()).push(s.last())
    }
}

/// The literal keyword that opens each schema declaration block.
pub open spec fn decl_kw() -> Seq<char> {
    seq!['t', 'a', 'b', 'l', 'e', '!']
}

/// `s` begins with the declaration keyword.
pub open spec fn starts_with_decl(s: Seq<char>) -> bool {
    s.len() >= 6 && s.subrange(0, 6) == decl_kw()
}

/// `s` with a line break inserted before every occurrence of the
/// declaration keyword, occurrences taken left to right without overlap.
pub open spec fn break_before_decls(s: Seq<char>) -> Seq<char>
    decreases s.len(),
{
    if s.len() == 0 {
        s
    } else if starts_with_decl(s) {
        seq!['\n'] + decl_kw() + break_before_decls(s.skip(6))
    } else {
        seq![s[0]] + break_before_decls(s.skip(1))
    }
}

/// `s` without its leading whitespace.
pub open spec fn trim_front(s: Seq<char>) -> Seq<char>
    decreases s.len(),
{
    if s.len() > 0 && is_white(s[0]) {
        trim_front(s.skip(1))
    } else {
        s
    }
}

/// `s` without its trailing whitespace.
pub open spec fn trim_back(s: Seq<char>) -> Seq<char>
    decreases s.len(),
{
    if s.len() > 0 && is_white(s.last()) {
        trim_back(s.drop_last())
    } else {
        s
    }
}

/// `s` without leading or trailing whitespace.
pub open spec fn trimmed(s: Seq<char>) -> Seq<char> {
    trim_back(trim_front(s))
}

/// The formatted rendering of `input`: the single pass, then tab
/// expansion, then a line break before each declaration keyword, then the
/// final trim.
pub open spec fn formatted(input: Seq<char>) -> Seq<char> {
    trimmed(break_before_decls(expand_tabs(pass_run(input).out)))
}

/// Taking one more character of a prefix appends exactly that character.
pub proof fn lemma_take_succ(s: Seq<char>, i: int)
    requires
        0 <= i < s.len(),
    ensures
        s.take(i + 1).drop_last() == s.take(i),
        s.take(i + 1).last() == s[i],
{
    assert(s.take(i + 1).drop_last() =~= s.take(i));
}

} // verus!
