//! The executable formatter, proved to produce exactly the output that the
//! model in [`crate::model`] describes.

use vstd::prelude::*;
use vstd::string::StrSliceExecFns;

use crate::model::after_space_removal;
use crate::model::break_before_decls;
use crate::model::cut_line;
use crate::model::decl_kw;
use crate::model::expand_tabs;
use crate::model::formatted;
use crate::model::indent_chars;
use crate::model::is_white;
use crate::model::lemma_take_succ;
use crate::model::line_break;
use crate::model::pass_run;
use crate::model::pass_step;
use crate::model::starts_with_decl;
use crate::model::trim_back;
use crate::model::trim_front;
use crate::model::trimmed;

verus! {

/// `std::fmt::Error` is the error slot of the public result, kept for the
/// callers' sake; a successful call never constructs one, and nothing is
/// assumed about the type itself.
#[verifier::external_type_specification]
#[verifier::external_body]
pub struct ExFmtError(std::fmt::Error);

/// Relies on `String::push`: it appends the given character at the end of
/// the string.
#[verifier::external_body]
fn push_char(s: &mut String, c: char)
    ensures
        final(s)@ == old(s)@.push(c),
{
    s.push(c);
}

/// Whether `c` is whitespace, mirroring the Unicode white-space property.
fn white(c: char) -> (r: bool)
    ensures
        r == is_white(c),
{
    let u = c as u32;
    u == 0x20 || (0x09 <= u && u <= 0x0D) || u == 0x85 || u == 0xA0 || u == 0x1680 || (0x2000 <= u
        && u <= 0x200A) || u == 0x2028 || u == 0x2029 || u == 0x202F || u == 0x205F || u == 0x3000
}

/// Appends a line break and `n` indentation units to `out`.
fn push_line_break(out: &mut Vec<char>, n: usize)
    ensures
        final(out)@ == old(out)@ + line_break(n as nat),
{
    out.push('\n');
    assert(out@ =~= old(out)@ + seq!['\n'] + indent_chars(0));
    let mut j: usize = 0;
    while j < n
        invariant
            j <= n,
            out@ == old(out)@ + seq!['\n'] + indent_chars(j as nat),
        decreases n - j,
    {
        out.push('\t');
        j = j + 1;
        assert(out@ =~= old(out)@ + seq!['\n'] + indent_chars(j as nat));
    }
    assert(out@ =~= old(out)@ + line_break(n as nat));
}

/// Removes everything from the most recent `'\n'` on (that `'\n'`
/// included); with no `'\n'` present, empties the buffer.
fn cut_current_line(out: &mut Vec<char>)
    ensures
        final(out)@ == cut_line(old(out)@),
{
    while out.len() > 0 && out[out.len() - 1] != '\n'
        invariant
            cut_line(out@) == cut_line(old(out)@),
        decreases out@.len(),
    {
        out.pop();
    }
    if out.len() > 0 {
        out.pop();
    }
}

/// The single formatting pass over `input`, yielding the raw (not yet
/// cleaned up) output of the modelled pass.
fn run_pass(input: &Vec<char>) -> (out: Vec<char>)
    ensures
        out@ == pass_run(input@).out,
{
    let mut out: Vec<char> = Vec::new();
    let mut indent: usize = 0;
    let mut skip_space = false;
    let mut last: char = ' ';
    let mut in_paren = false;
    let mut i: usize = 0;
    assert(input@.take(0) =~= Seq::<char>::empty());
    while i < input.len()
        invariant
            i <= input@.len(),
            indent <= i,
            out@ == pass_run(input@.take(i as int)).out,
            indent as nat == pass_run(input@.take(i as int)).indent,
            skip_space == pass_run(input@.take(i as int)).skip_space,
            last == pass_run(input@.take(i as int)).last,
            in_paren == pass_run(input@.take(i as int)).in_paren,
        decreases input@.len() - i,
    {
        let ghost st = pass_run(input@.take(i as int));
        let c = input[i];
        proof {
            lemma_take_succ(input@, i as int);
            assert(pass_run(input@.take(i as int + 1)) == pass_step(st, c));
        }
        let c_white = white(c);
        let last_white = white(last);
        // Retroactive whitespace deletion.
        if (c == '!' || c == ',' || c == '<' || c == ')' || c == '>') && last_white {
            out.pop();
        } else if c == ':' && last_white {
            let keep = out.len() >= 2 && out[out.len() - 2] == '>';
            if !keep {
                out.pop();
            }
        }
        assert(out@ == after_space_removal(st, c));
        // Whitespace collapse.
        if skip_space && c_white && last != '>' {
            // `c` is dropped; nothing is recorded.
        } else {
            last = c;
            skip_space = false;
            if c == '}' {
                cut_current_line(&mut out);
                if indent > 0 {
                    indent = indent - 1;
                } else {
                    indent = 0;
                }
                push_line_break(&mut out, indent);
                out.push('}');
                skip_space = true;
                push_line_break(&mut out, indent);
            } else if c == '{' {
                out.push('{');
                indent = indent + 1;
                skip_space = true;
                push_line_break(&mut out, indent);
            } else if c == ',' {
                out.push(',');
                if !in_paren {
                    skip_space = true;
                    push_line_break(&mut out, indent);
                }
            } else if c == '(' {
                in_paren = true;
                out.push('(');
                skip_space = true;
            } else if c == ')' {
                in_paren = false;
                out.push(')');
            } else if c == ':' || c == '<' {
                out.push(c);
                skip_space = true;
            } else {
                out.push(c);
            }
        }
        i = i + 1;
        assert(out@ =~= pass_run(input@.take(i as int)).out);
    }
    assert(input@.take(i as int) =~= input@);
    out
}

/// `s` with every tab rendered as four spaces.
fn expand_tabs_exec(s: &Vec<char>) -> (r: Vec<char>)
    ensures
        r@ == expand_tabs(s@),
{
    let mut r: Vec<char> = Vec::new();
    let mut i: usize = 0;
    assert(s@.take(0) =~= Seq::<char>::empty());
    while i < s.len()
        invariant
            i <= s@.len(),
            r@ == expand_tabs(s@.take(i as int)),
        decreases s@.len() - i,
    {
        proof {
            lemma_take_succ(s@, i as int);
        }
        let c = s[i];
        if c == '\t' {
            r.push(' ');
            r.push(' ');
            r.push(' ');
            r.push(' ');
        } else {
            r.push(c);
        }
        i = i + 1;
        assert(r@ =~= expand_tabs(s@.take(i as int)));
    }
    assert(s@.take(i as int) =~= s@);
    r
}

/// Whether the declaration keyword occurs in `s` exactly at position `i`.
fn decl_at(s: &Vec<char>, i: usize) -> (r: bool)
    requires
        i <= s@.len(),
    ensures
        r == starts_with_decl(s@.skip(i as int)),
{
    if s.len() - i >= 6 {
        let r = s[i] == 't' && s[i + 1] == 'a' && s[i + 2] == 'b' && s[i + 3] == 'l' && s[i + 4]
            == 'e' && s[i + 5] == '!';
        proof {
            let sk = s@.skip(i as int);
            if r {
                assert(sk.subrange(0, 6) =~= decl_kw());
            }
            if starts_with_decl(sk) {
                assert(sk.subrange(0, 6)[0] == sk[0]);
                assert(sk.subrange(0, 6)[1] == sk[1]);
                assert(sk.subrange(0, 6)[2] == sk[2]);
                assert(sk.subrange(0, 6)[3] == sk[3]);
                assert(sk.subrange(0, 6)[4] == sk[4]);
                assert(sk.subrange(0, 6)[5] == sk[5]);
            }
        }
        r
    } else {
        proof {
            assert(s@.skip(i as int).len() < 6);
        }
        false
    }
}

/// `s` with a line break inserted before every occurrence of the
/// declaration keyword.
fn break_decls_exec(s: &Vec<char>) -> (r: Vec<char>)
    ensures
        r@ == break_before_decls(s@),
{
    let mut r: Vec<char> = Vec::new();
    let mut i: usize = 0;
    proof {
        assert(s@.skip(0) =~= s@);
        assert(r@ + break_before_decls(s@) =~= break_before_decls(s@));
    }
    while i < s.len()
        invariant
            i <= s@.len(),
            break_before_decls(s@) == r@ + break_before_decls(s@.skip(i as int)),
        decreases s@.len() - i,
    {
        let ghost r_old = r@;
        let ghost sk = s@.skip(i as int);
        if decl_at(s, i) {
            r.push('\n');
            r.push('t');
            r.push('a');
            r.push('b');
            r.push('l');
            r.push('e');
            r.push('!');
            proof {
                assert(sk.skip(6) =~= s@.skip(i as int + 6));
                assert(break_before_decls(sk) == seq!['\n'] + decl_kw() + break_before_decls(
                    sk.skip(6),
                ));
                assert(r@ =~= r_old + (seq!['\n'] + decl_kw()));
                assert(r@ + break_before_decls(s@.skip(i as int + 6)) =~= r_old
                    + break_before_decls(sk));
            }
            i = i + 6;
        } else {
            let c = s[i];
            r.push(c);
            proof {
                assert(sk[0] == s@[i as int]);
                assert(sk.skip(1) =~= s@.skip(i as int + 1));
                assert(break_before_decls(sk) == seq![sk[0]] + break_before_decls(sk.skip(1)));
                assert(r@ + break_before_decls(s@.skip(i as int + 1)) =~= r_old
                    + break_before_decls(sk));
            }
            i = i + 1;
        }
    }
    proof {
        assert(s@.skip(i as int) =~= Seq::<char>::empty());
        assert(r@ + break_before_decls(s@.skip(i as int)) =~= r@);
    }
    r
}

/// `s` without leading or trailing whitespace.
fn trim_exec(s: Vec<char>) -> (r: Vec<char>)
    ensures
        r@ == trimmed(s@),
{
    let mut a: usize = 0;
    assert(s@.skip(0) =~= s@);
    while a < s.len() && white(s[a])
        invariant
            a <= s@.len(),
            trim_front(s@) == trim_front(s@.skip(a as int)),
        decreases s@.len() - a,
    {
        proof {
            let sk = s@.skip(a as int);
            assert(sk[0] == s@[a as int]);
            assert(sk.skip(1) =~= s@.skip(a as int + 1));
        }
        a = a + 1;
    }
    proof {
        if a < s@.len() {
            assert(s@.skip(a as int)[0] == s@[a as int]);
        } else {
            assert(s@.skip(a as int) =~= Seq::<char>::empty());
        }
        assert(trim_front(s@) == s@.skip(a as int));
    }
    let mut r: Vec<char> = Vec::new();
    let mut j: usize = a;
    while j < s.len()
        invariant
            a <= j <= s@.len(),
            r@ == s@.subrange(a as int, j as int),
        decreases s@.len() - j,
    {
        r.push(s[j]);
        j = j + 1;
        assert(r@ =~= s@.subrange(a as int, j as int));
    }
    assert(r@ =~= s@.skip(a as int));
    while r.len() > 0 && white(r[r.len() - 1])
        invariant
            trim_back(r@) == trim_back(trim_front(s@)),
        decreases r@.len(),
    {
        r.pop();
    }
    assert(trim_back(r@) == r@);
    r
}

/// Formats one character sequence: the single pass followed by the three
/// cleanup steps.
pub fn format_chars(input: &Vec<char>) -> (out: Vec<char>)
    ensures
        out@ == formatted(input@),
{
    let passed = run_pass(input);
    let expanded = expand_tabs_exec(&passed);
    let broken = break_decls_exec(&expanded);
    trim_exec(broken)
}

/// Reformats the raw schema text that the upstream generator emitted.
///
/// The result is always `Ok`: the growable output buffer that the original
/// interface reserved an error slot for cannot fail a write here.
pub fn format_schema(schema: &str) -> (r: Result<String, std::fmt::Error>)
    ensures
        r is Ok,
        r matches Ok(out) ==> out@ == formatted(schema@),
{
    let n = schema.unicode_len();
    let mut chars: Vec<char> = Vec::new();
    let mut i: usize = 0;
    assert(schema@.take(0) =~= Seq::<char>::empty());
    while i < n
        invariant
            n == schema@.len(),
            i <= n,
            chars@ == schema@.take(i as int),
        decreases n - i,
    {
        let c = schema.get_char(i);
        chars.push(c);
        proof {
            lemma_take_succ(schema@, i as int);
        }
        i = i + 1;
        assert(chars@ =~= schema@.take(i as int));
    }
    assert(chars@ =~= schema@);
    let out_chars = format_chars(&chars);
    let mut out = String::new();
    let mut j: usize = 0;
    assert(out_chars@.take(0) =~= Seq::<char>::empty());
    while j < out_chars.len()
        invariant
            j <= out_chars@.len(),
            out@ == out_chars@.take(j as int),
        decreases out_chars@.len() - j,
    {
        push_char(&mut out, out_chars[j]);
        proof {
            lemma_take_succ(out_chars@, j as int);
        }
        j = j + 1;
        assert(out@ =~= out_chars@.take(j as int));
    }
    assert(out@ =~= out_chars@);
    Ok(out)
}

} // verus!
