//! Showing a command line so that a POSIX shell runs exactly that command: used when
//! `--dry-run` prints what would be run.
use vstd::prelude::*;

use crate::text::{chars_of, extend, extend_str, first_index, is_ascii_alnum, lemma_first_index, lemma_first_index_after, string_of};
use crate::cli::texts;

verus! {

/// Characters that a shell takes literally outside quotes.
pub open spec fn is_plain_char(c: char) -> bool {
    is_ascii_alnum(c) || c == '_' || c == '-' || c == '.' || c == '/' || c == '=' || c == ':'
}

/// Whether every character of `s` is plain.
pub open spec fn is_plain(s: Seq<char>) -> bool {
    forall|i: int| 0 <= i < s.len() ==> is_plain_char(#[trigger] s[i])
}

/// The body of a single-quoted word for `s`: each `'` closes the quotes, adds a
/// double-quoted `'` and opens them again.
pub open spec fn quote_body(s: Seq<char>) -> Seq<char>
    decreases s.len(),
{
    if s.len() == 0 {
        Seq::empty()
    } else {
        quote_body(s.drop_last()) + (if s.last() == '\'' {
            "'\"'\"'"@
        } else {
            seq![s.last()]
        })
    }
}

/// How `s` is shown as one shell word: as it is when every character is plain, else in
/// single quotes.
pub open spec fn quoted(s: Seq<char>) -> Seq<char> {
    if is_plain(s) {
        s
    } else {
        "'"@ + quote_body(s) + "'"@
    }
}

/// A program and its arguments as one shell command line.
pub open spec fn command_line_text(program: Seq<char>, args: Seq<Seq<char>>) -> Seq<char>
    decreases args.len(),
{
    if args.len() == 0 {
        quoted(program)
    } else {
        command_line_text(program, args.drop_last()) + " "@ + quoted(args.last())
    }
}

fn plain_char(c: char) -> (r: bool)
    ensures
        r == is_plain_char(c),
{
    ('a' <= c && c <= 'z') || ('A' <= c && c <= 'Z') || ('0' <= c && c <= '9') || c == '_' || c == '-' || c == '.'
        || c == '/' || c == '=' || c == ':'
}

fn push_quoted(out: &mut Vec<char>, s: &[char])
    ensures
        final(out)@ == old(out)@ + quoted(s@),
{
    let mut plain = true;
    let mut i: usize = 0;
    while i < s.len()
        invariant
            i <= s@.len(),
            plain == (forall|j: int| 0 <= j < i ==> is_plain_char(#[trigger] s@[j])),
        decreases s@.len() - i,
    {
        if !plain_char(s[i]) {
            plain = false;
        }
        i = i + 1;
    }
    if plain {
        extend(out, s);
        return;
    }
    let ghost start = out@;
    proof {
        reveal_strlit("'");
    }
    out.push('\'');
    assert(s@.take(0) == Seq::<char>::empty());
    let mut k: usize = 0;
    while k < s.len()
        invariant
            k <= s@.len(),
            out@ == start + "'"@ + quote_body(s@.take(k as int)),
        decreases s@.len() - k,
    {
        assert(s@.take(k + 1).drop_last() == s@.take(k as int));
        assert(s@.take(k + 1).last() == s@[k as int]);
        if s[k] == '\'' {
            extend_str(out, "'\"'\"'");
        } else {
            out.push(s[k]);
        }
        k = k + 1;
    }
    assert(s@.take(s@.len() as int) == s@);
    out.push('\'');
    assert(out@ == start + quoted(s@));
}

/// `value` as one shell word.
pub fn shell_quote(value: &str) -> (r: String)
    ensures
        r@ == quoted(value@),
{
    let cs = chars_of(value);
    let mut out: Vec<char> = Vec::new();
    push_quoted(&mut out, cs.as_slice());
    string_of(out.as_slice())
}

/// The shell command line that runs `program` with `args`.
pub fn command_line(program: &str, args: &Vec<String>) -> (r: String)
    ensures
        r@ == command_line_text(program@, texts(args@)),
{
    let ghost ts = texts(args@);
    let pc = chars_of(program);
    let mut out: Vec<char> = Vec::new();
    push_quoted(&mut out, pc.as_slice());
    let mut i: usize = 0;
    assert(ts.take(0) == Seq::<Seq<char>>::empty());
    while i < args.len()
        invariant
            ts == texts(args@),
            i <= args@.len(),
            out@ == command_line_text(program@, ts.take(i as int)),
        decreases args@.len() - i,
    {
        assert(ts.take(i + 1).drop_last() == ts.take(i as int));
        assert(ts.take(i + 1).last() == args@[i as int]@);
        extend_str(&mut out, " ");
        let a = chars_of(args[i].as_str());
        push_quoted(&mut out, a.as_slice());
        i = i + 1;
    }
    assert(ts.take(ts.len() as int) == ts);
    string_of(out.as_slice())
}


// ---------------------------------------------------------------------------
// Reading a command line back
// ---------------------------------------------------------------------------

/// The word being read, or the empty word when none is.
pub open spec fn current(cur: Option<Seq<char>>) -> Seq<char> {
    match cur {
        Some(w) => w,
        None => Seq::empty(),
    }
}

/// The finished words, with the word being read when there is one.
pub open spec fn finish(cur: Option<Seq<char>>, words: Seq<Seq<char>>) -> Seq<Seq<char>> {
    match cur {
        Some(w) => words.push(w),
        None => words,
    }
}

/// Characters that a shell treats specially inside double quotes.
pub open spec fn is_double_special(c: char) -> bool {
    c == '\\' || c == '$' || c == '`'
}

/// How a POSIX shell splits `t` into words, for the part of its syntax that the printed
/// command lines use: spaces between words, plain characters, single-quoted text, and
/// double-quoted text free of `\`, `$` and `` ` ``. `cur` is the word being read and `words`
/// those already read; anything else is not read (none).
pub open spec fn scan(t: Seq<char>, cur: Option<Seq<char>>, words: Seq<Seq<char>>) -> Option<Seq<Seq<char>>>
    decreases t.len(),
{
    if t.len() == 0 {
        Some(finish(cur, words))
    } else {
        let c = t[0];
        let r = t.drop_first();
        if c == ' ' {
            scan(r, None, finish(cur, words))
        } else if c == '\'' || c == '"' {
            let k = first_index(r, c);
            if k < 0 {
                None
            } else if c == '"' && exists|i: int| 0 <= i < k && #[trigger] is_double_special(r[i]) {
                None
            } else {
                proof {
                    lemma_first_index(r, c);
                }
                scan(r.skip(k + 1), Some(current(cur) + r.take(k)), words)
            }
        } else if is_plain_char(c) {
            scan(r, Some(current(cur).push(c)), words)
        } else {
            None
        }
    }
}

/// The words of a command line.
pub open spec fn shell_words(t: Seq<char>) -> Option<Seq<Seq<char>>> {
    scan(t, None, Seq::empty())
}

/// `s` in single quotes, each `'` in it written as `'"'"'`.
pub open spec fn single_quoted(s: Seq<char>) -> Seq<char> {
    "'"@ + quote_body(s) + "'"@
}

proof fn lemma_quote_body_concat(a: Seq<char>, b: Seq<char>)
    ensures
        quote_body(a + b) == quote_body(a) + quote_body(b),
    decreases b.len(),
{
    if b.len() > 0 {
        lemma_quote_body_concat(a, b.drop_last());
        assert((a + b).drop_last() == a + b.drop_last());
        assert((a + b).last() == b.last());
    } else {
        assert(a + b == a);
    }
}

proof fn lemma_quote_body_no_quote(a: Seq<char>)
    requires
        forall|i: int| 0 <= i < a.len() ==> a[i] != '\'',
    ensures
        quote_body(a) == a,
    decreases a.len(),
{
    if a.len() > 0 {
        lemma_quote_body_no_quote(a.drop_last());
        assert(a.drop_last().push(a.last()) == a);
    }
}

/// Plain characters extend the word being read.
proof fn lemma_scan_plain(s: Seq<char>, rest: Seq<char>, w: Seq<char>, words: Seq<Seq<char>>)
    requires
        is_plain(s),
    ensures
        scan(s + rest, Some(w), words) == scan(rest, Some(w + s), words),
    decreases s.len(),
{
    if s.len() == 0 {
        assert(s + rest == rest);
        assert(w + s == w);
    } else {
        let t = s + rest;
        assert(t[0] == s[0]);
        assert(t.drop_first() == s.drop_first() + rest);
        assert(is_plain_char(s[0]));
        assert(s[0] != ' ' && s[0] != '\'' && s[0] != '"');
        lemma_scan_plain(s.drop_first(), rest, w.push(s[0]), words);
        assert(w.push(s[0]) + s.drop_first() == w + s);
    }
}

/// A single-quoted section without quotes inside adds its text to the word being read.
proof fn lemma_scan_single_section(x: Seq<char>, after: Seq<char>, cur: Option<Seq<char>>, words: Seq<Seq<char>>)
    requires
        forall|i: int| 0 <= i < x.len() ==> x[i] != '\'',
    ensures
        scan(seq!['\''] + x + seq!['\''] + after, cur, words) == scan(after, Some(current(cur) + x), words),
{
    let q = '\'';
    let t = seq![q] + x + seq![q] + after;
    let r = x + (seq![q] + after);
    assert(t == seq![q] + r);
    assert(t[0] == q);
    assert(t.drop_first() == r);
    lemma_first_index_after(x, seq![q] + after, q);
    assert(r.take(x.len() as int) == x);
    assert(r.skip(x.len() as int + 1) == after);
}

/// A double-quoted `'` adds a `'` to the word being read.
proof fn lemma_scan_double_quoted_quote(after: Seq<char>, cur: Option<Seq<char>>, words: Seq<Seq<char>>)
    ensures
        scan(seq!['"', '\'', '"'] + after, cur, words) == scan(after, Some(current(cur).push('\'')), words),
{
    let q = '\'';
    let dq = '"';
    let t = seq![dq, q, dq] + after;
    let r = seq![q] + (seq![dq] + after);
    assert(t[0] == dq);
    assert(t.drop_first() == r);
    lemma_first_index_after(seq![q], seq![dq] + after, dq);
    assert(r.take(1) == seq![q]);
    assert(r.skip(2) == after);
    assert(!(exists|j: int| 0 <= j < 1 && #[trigger] is_double_special(r[j])));
    assert(current(cur) + seq![q] == current(cur).push(q));
}

proof fn lemma_quote_body_of_quote()
    ensures
        quote_body(seq!['\'']) == seq!['\'', '"', '\'', '"', '\''],
{
    reveal_strlit("'\"'\"'");
    let one = seq!['\''];
    assert(one.drop_last() == Seq::<char>::empty());
    assert(one.last() == '\'');
    assert(quote_body(Seq::<char>::empty()) == Seq::<char>::empty());
    assert(Seq::<char>::empty() + seq!['\'', '"', '\'', '"', '\''] == seq!['\'', '"', '\'', '"', '\'']);
}

/// A single-quoted word adds exactly its value to the word being read.
proof fn lemma_scan_single_quoted(b: Seq<char>, rest: Seq<char>, cur: Option<Seq<char>>, words: Seq<Seq<char>>)
    ensures
        scan(single_quoted(b) + rest, cur, words) == scan(rest, Some(current(cur) + b), words),
    decreases b.len(),
{
    reveal_strlit("'");
    let q = '\'';
    lemma_first_index(b, q);
    let i = first_index(b, q);
    if i < 0 {
        lemma_quote_body_no_quote(b);
        assert(single_quoted(b) + rest == seq![q] + b + seq![q] + rest);
        lemma_scan_single_section(b, rest, cur, words);
    } else {
        let a = b.take(i);
        let c = b.skip(i + 1);
        assert(b == a + seq![q] + c);
        assert forall|j: int| 0 <= j < a.len() implies a[j] != q by {
            assert(a[j] == b[j]);
        }
        lemma_quote_body_concat(a + seq![q], c);
        lemma_quote_body_concat(a, seq![q]);
        lemma_quote_body_no_quote(a);
        lemma_quote_body_of_quote();
        let after = seq!['"', q, '"'] + single_quoted(c) + rest;
        assert(single_quoted(b) + rest == seq![q] + a + seq![q] + after);
        lemma_scan_single_section(a, after, cur, words);
        let w1 = Some(current(cur) + a);
        lemma_scan_double_quoted_quote(single_quoted(c) + rest, w1, words);
        assert(seq!['"', q, '"'] + (single_quoted(c) + rest) == after);
        let w2 = current(cur) + a + seq![q];
        assert(current(w1).push(q) == w2);
        lemma_scan_single_quoted(c, rest, Some(w2), words);
        assert(w2 + c == current(cur) + b);
    }
}

/// A word shown by `quoted` is read back as exactly its value, when it is not empty.
proof fn lemma_scan_quoted(s: Seq<char>, rest: Seq<char>, words: Seq<Seq<char>>)
    requires
        s.len() > 0,
    ensures
        scan(quoted(s) + rest, None, words) == scan(rest, Some(s), words),
{
    if is_plain(s) {
        let t = s + rest;
        assert(t[0] == s[0]);
        assert(is_plain_char(s[0]));
        assert(t.drop_first() == s.drop_first() + rest);
        lemma_scan_plain(s.drop_first(), rest, seq![s[0]], words);
        assert(seq![s[0]] + s.drop_first() == s);
        assert(current(None::<Seq<char>>).push(s[0]) == seq![s[0]]);
    } else {
        lemma_scan_single_quoted(s, rest, None, words);
        assert(Seq::<char>::empty() + s == s);
    }
}

proof fn lemma_scan_command_line(program: Seq<char>, args: Seq<Seq<char>>, rest: Seq<char>, words: Seq<Seq<char>>)
    requires
        program.len() > 0,
        forall|i: int| 0 <= i < args.len() ==> (#[trigger] args[i]).len() > 0,
    ensures
        scan(command_line_text(program, args) + rest, None, words)
            == scan(rest, Some((seq![program] + args).last()), words + (seq![program] + args).drop_last()),
    decreases args.len(),
{
    let all = seq![program] + args;
    if args.len() == 0 {
        lemma_scan_quoted(program, rest, words);
        assert(all == seq![program]);
        assert(all.drop_last() == Seq::<Seq<char>>::empty());
        assert(words + Seq::<Seq<char>>::empty() == words);
    } else {
        let front = args.drop_last();
        let a = args.last();
        reveal_strlit(" ");
        let tail = seq![' '] + quoted(a) + rest;
        assert(command_line_text(program, args) + rest == command_line_text(program, front) + tail);
        lemma_scan_command_line(program, front, tail, words);
        let all0 = seq![program] + front;
        let done = words + all0.drop_last();
        // The space ends the word before it.
        assert(tail[0] == ' ');
        assert(tail.drop_first() == quoted(a) + rest);
        assert(args[args.len() - 1].len() > 0);
        lemma_scan_quoted(a, rest, done.push(all0.last()));
        assert(all.drop_last() == all0);
        assert(all.last() == a);
        assert(all0.drop_last().push(all0.last()) == all0);
        assert(done.push(all0.last()) == words + all.drop_last());
    }
}

/// What `--dry-run` prints reads back, in a POSIX shell, as exactly the program and its
/// arguments, when none of them is empty.
pub proof fn lemma_command_line_reads_back(program: Seq<char>, args: Seq<Seq<char>>)
    requires
        program.len() > 0,
        forall|i: int| 0 <= i < args.len() ==> (#[trigger] args[i]).len() > 0,
    ensures
        shell_words(command_line_text(program, args)) == Some(seq![program] + args),
{
    let line = command_line_text(program, args);
    lemma_scan_command_line(program, args, Seq::empty(), Seq::empty());
    assert(line + Seq::<char>::empty() == line);
    let all = seq![program] + args;
    assert(Seq::<Seq<char>>::empty() + all.drop_last() == all.drop_last());
    assert(all.drop_last().push(all.last()) == all);
}

} // verus!
