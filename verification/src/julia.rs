//! What `jpm` hands to Julia: escaped string literals, package specifications, `Pkg`
//! expressions and command lines, and what it reads back from Julia.
use vstd::prelude::*;

use crate::text::{
    chars_of, contains_run, extend, extend_str, find_first, find_last, first_index, has_prefix, has_run, is_ascii_alnum,
    is_ascii_alpha, is_blank, blank, last_index, lemma_first_index, lemma_last_index, starts_with, string_of, eq_str,
    sub_chars, signed_decimal, decimal, whole_lines, strip_cr, lemma_lines_push, lemma_lines_concat, lemma_decimal_reads_back,
    lemma_decimal_digits, lemma_first_index_after, is_ascii_digit, split_state, is_white_space, signed_decimal_chars, trim, trimmed, lines, lines_of, parse_count, parse_unsigned,
};
use crate::insights::{opt_view, text_result};
use crate::cli::{err_text, opt_text, texts, Command, CommandModel};

verus! {

// ---------------------------------------------------------------------------
// Julia string literals
// ---------------------------------------------------------------------------

/// How one character is written inside a Julia string literal.
pub open spec fn escape_char(c: char) -> Seq<char> {
    if c == '\\' {
        seq!['\\', '\\']
    } else if c == '"' {
        seq!['\\', '"']
    } else if c == '$' {
        seq!['\\', '$']
    } else if c == '\n' {
        seq!['\\', 'n']
    } else if c == '\r' {
        seq!['\\', 'r']
    } else if c == '\t' {
        seq!['\\', 't']
    } else {
        seq![c]
    }
}

/// The body of the literal for `s`: each character escaped.
pub open spec fn escape_body(s: Seq<char>) -> Seq<char>
    decreases s.len(),
{
    if s.len() == 0 {
        Seq::empty()
    } else {
        escape_body(s.drop_last()) + escape_char(s.last())
    }
}

/// The Julia string literal whose value is `s`.
pub open spec fn julia_literal(s: Seq<char>) -> Seq<char> {
    seq!['"'] + escape_body(s) + seq!['"']
}

/// The character that an escape `\c` stands for in a Julia string, for the escapes used here.
pub open spec fn escaped_char(c: char) -> Option<char> {
    if c == 'n' {
        Some('\n')
    } else if c == 'r' {
        Some('\r')
    } else if c == 't' {
        Some('\t')
    } else if c == '\\' || c == '"' || c == '$' {
        Some(c)
    } else {
        None
    }
}

/// Reads the body of a Julia string literal back into its value. There is no value where
/// the body would end the literal early (a bare `"`), start an interpolation (a bare `$`)
/// or hold an escape other than those above.
pub open spec fn unescape(t: Seq<char>) -> Option<Seq<char>>
    decreases t.len(),
{
    if t.len() == 0 {
        Some(Seq::empty())
    } else if t[0] == '\\' {
        if t.len() >= 2 && escaped_char(t[1]) is Some && unescape(t.skip(2)) is Some {
            Some(seq![escaped_char(t[1])->0] + unescape(t.skip(2))->0)
        } else {
            None
        }
    } else if t[0] == '"' || t[0] == '$' {
        None
    } else if unescape(t.skip(1)) is Some {
        Some(seq![t[0]] + unescape(t.skip(1))->0)
    } else {
        None
    }
}

/// Escaping two texts one after the other escapes each in turn.
pub proof fn lemma_escape_body_concat(a: Seq<char>, b: Seq<char>)
    ensures
        escape_body(a + b) == escape_body(a) + escape_body(b),
    decreases b.len(),
{
    if b.len() > 0 {
        lemma_escape_body_concat(a, b.drop_last());
        assert((a + b).drop_last() == a + b.drop_last());
        assert((a + b).last() == b.last());
    } else {
        assert(a + b == a);
    }
}

proof fn lemma_unescape_one(c: char, t: Seq<char>)
    ensures
        unescape(escape_char(c) + t) == (match unescape(t) {
            Some(v) => Some(seq![c] + v),
            None => None::<Seq<char>>,
        }),
{
    let e = escape_char(c);
    if e.len() == 2 {
        assert((e + t)[0] == '\\');
        assert((e + t)[1] == e[1]);
        assert((e + t).skip(2) == t);
    } else {
        assert((e + t)[0] == c);
        assert((e + t).skip(1) == t);
    }
}

/// Julia reads the literal made for `s` back as exactly `s`: the escaping leaves no way
/// for a value to end the literal or to interpolate code.
pub proof fn lemma_julia_literal_reads_back(s: Seq<char>)
    ensures
        unescape(escape_body(s)) == Some(s),
    decreases s.len(),
{
    if s.len() > 0 {
        let rest = s.drop_first();
        lemma_julia_literal_reads_back(rest);
        assert(s == seq![s[0]] + rest);
        lemma_escape_body_concat(seq![s[0]], rest);
        let one = seq![s[0]];
        assert(one.drop_last() == Seq::<char>::empty());
        assert(one.last() == s[0]);
        assert(escape_body(Seq::<char>::empty()) == Seq::<char>::empty());
        assert(escape_body(one) == escape_body(one.drop_last()) + escape_char(one.last()));
        assert(Seq::<char>::empty() + escape_char(s[0]) == escape_char(s[0]));
        assert(escape_body(one) == escape_char(s[0]));
        lemma_unescape_one(s[0], escape_body(rest));
    }
}

fn push_escaped(out: &mut Vec<char>, c: char)
    ensures
        final(out)@ == old(out)@ + escape_char(c),
{
    if c == '\\' {
        out.push('\\');
        out.push('\\');
    } else if c == '"' {
        out.push('\\');
        out.push('"');
    } else if c == '$' {
        out.push('\\');
        out.push('$');
    } else if c == '\n' {
        out.push('\\');
        out.push('n');
    } else if c == '\r' {
        out.push('\\');
        out.push('r');
    } else if c == '\t' {
        out.push('\\');
        out.push('t');
    } else {
        out.push(c);
    }
}

/// Appends the Julia literal for `value` to `out`.
fn push_literal(out: &mut Vec<char>, value: &[char])
    ensures
        final(out)@ == old(out)@ + julia_literal(value@),
{
    let ghost start = out@;
    out.push('"');
    let mut i: usize = 0;
    while i < value.len()
        invariant
            i <= value@.len(),
            out@ == start + seq!['"'] + escape_body(value@.take(i as int)),
        decreases value@.len() - i,
    {
        assert(value@.take(i + 1).drop_last() == value@.take(i as int));
        assert(value@.take(i + 1).last() == value@[i as int]);
        push_escaped(out, value[i]);
        i = i + 1;
    }
    assert(value@.take(value@.len() as int) == value@);
    out.push('"');
}

/// The Julia string literal for `value`, with `\`, `"`, `$`, newline, carriage return and
/// tab escaped.
pub fn julia_string(value: &str) -> (r: String)
    ensures
        r@ == julia_literal(value@),
{
    let cs = chars_of(value);
    let mut out: Vec<char> = Vec::new();
    push_literal(&mut out, cs.as_slice());
    string_of(out.as_slice())
}


// ---------------------------------------------------------------------------
// Lists
// ---------------------------------------------------------------------------

/// The items separated by `sep`.
pub open spec fn joined(items: Seq<Seq<char>>, sep: Seq<char>) -> Seq<char>
    decreases items.len(),
{
    if items.len() == 0 {
        Seq::empty()
    } else if items.len() == 1 {
        items[0]
    } else {
        joined(items.drop_last(), sep) + sep + items.last()
    }
}

/// The Julia literals of the values.
pub open spec fn literals(values: Seq<Seq<char>>) -> Seq<Seq<char>> {
    values.map_values(|v: Seq<char>| julia_literal(v))
}

/// A Julia `Vector{String}` of the values.
pub open spec fn string_vector_text(values: Seq<Seq<char>>) -> Seq<char> {
    "String["@ + joined(literals(values), ", "@) + "]"@
}

/// Appends the Julia literals of `values`, separated by `, `.
fn push_literals(out: &mut Vec<char>, values: &Vec<String>)
    ensures
        final(out)@ == old(out)@ + joined(literals(texts(values@)), ", "@),
{
    let ghost start = out@;
    let ghost lits = literals(texts(values@));
    let mut i: usize = 0;
    while i < values.len()
        invariant
            lits == literals(texts(values@)),
            i <= values@.len(),
            out@ == start + joined(lits.take(i as int), ", "@),
        decreases values@.len() - i,
    {
        proof {
            assert(lits.take(i + 1).drop_last() == lits.take(i as int));
            assert(lits.take(i + 1).last() == lits[i as int]);
            assert(lits[i as int] == julia_literal(values@[i as int]@));
            if i == 0 {
                assert(lits.take(0) == Seq::<Seq<char>>::empty());
                assert(lits.take(1)[0] == lits[0]);
            }
        }
        if i > 0 {
            extend_str(out, ", ");
        }
        let cs = chars_of(values[i].as_str());
        push_literal(out, cs.as_slice());
        i = i + 1;
    }
    assert(lits.take(values@.len() as int) == lits);
}

/// A Julia `String[...]` vector holding the values.
pub fn string_vector(values: &Vec<String>) -> (r: String)
    ensures
        r@ == string_vector_text(texts(values@)),
{
    let mut out = chars_of("String[");
    push_literals(&mut out, values);
    extend_str(&mut out, "]");
    string_of(out.as_slice())
}


// ---------------------------------------------------------------------------
// Package specifications
// ---------------------------------------------------------------------------

/// Whether a package argument names a git repository: it holds `://` or starts with `git@`.
pub open spec fn names_url(v: Seq<char>) -> bool {
    contains_run(v, "://"@) || starts_with(v, "git@"@)
}

/// Whether a package argument names a local path: it is `.` or `..`, starts with `./`,
/// `../`, `/` or `~/`, or names something that exists on disk.
pub open spec fn names_path(v: Seq<char>, on_disk: bool) -> bool {
    ||| v == "."@
    ||| v == ".."@
    ||| starts_with(v, "./"@)
    ||| starts_with(v, "../"@)
    ||| starts_with(v, "/"@)
    ||| starts_with(v, "~/"@)
    ||| on_disk
}

/// `s` split at its first `c`: what comes before it and, when there is one, what follows it.
pub open spec fn split_first(s: Seq<char>, c: char) -> (Seq<char>, Option<Seq<char>>) {
    let i = first_index(s, c);
    if i >= 0 {
        (s.take(i), Some(s.skip(i + 1)))
    } else {
        (s, None)
    }
}

/// `s` split at its last `c`.
pub open spec fn split_last(s: Seq<char>, c: char) -> (Seq<char>, Option<Seq<char>>) {
    let i = last_index(s, c);
    if i >= 0 {
        (s.take(i), Some(s.skip(i + 1)))
    } else {
        (s, None)
    }
}

/// A Julia package name: an ASCII letter or `_`, then ASCII letters, digits and `_`.
pub open spec fn is_package_name(s: Seq<char>) -> bool {
    &&& s.len() > 0
    &&& (is_ascii_alpha(s[0]) || s[0] == '_')
    &&& forall|i: int| 1 <= i < s.len() ==> (is_ascii_alnum(#[trigger] s[i]) || s[i] == '_')
}

/// Where a package argument would be found on disk: whether something of that name exists
/// there, and the argument made absolute (with `~/` expanded), or why it cannot be.
pub struct PackageLocation {
    pub on_disk: bool,
    pub absolute: Result<String, String>,
}

/// The `Pkg.PackageSpec` for a package argument, or why there is none.
pub open spec fn package_spec_text(package: Seq<char>, on_disk: bool, absolute: Result<Seq<char>, Seq<char>>) -> Result<Seq<char>, Seq<char>> {
    if is_blank(package) {
        Err("package specifications cannot be empty"@)
    } else if names_url(package) {
        let parts = split_last(package, '#');
        let rev = match parts.1 {
            Some(r) => ", rev="@ + julia_literal(r),
            None => Seq::empty(),
        };
        Ok("Pkg.PackageSpec(url="@ + julia_literal(parts.0) + rev + ")"@)
    } else if names_path(package, on_disk) {
        match absolute {
            Err(e) => Err(e),
            Ok(a) => Ok("Pkg.PackageSpec(path="@ + julia_literal(a) + ")"@),
        }
    } else {
        let parts = split_first(package, '@');
        let name = parts.0;
        if !is_package_name(name) {
            Err("invalid Julia package name '"@ + name + "'"@)
        } else {
            match parts.1 {
                Some(v) => if v.len() == 0 {
                    Err("missing version after '@' in '"@ + package + "'"@)
                } else {
                    Ok("Pkg.PackageSpec(name="@ + julia_literal(name) + ", version="@ + julia_literal(v) + ")"@)
                },
                None => Ok("Pkg.PackageSpec(name="@ + julia_literal(name) + ")"@),
            }
        }
    }
}

/// A registry name as Julia allows it: an ASCII letter or `_`, then ASCII letters, digits
/// and `_`, and nothing else.
pub open spec fn registry_name_chars(n: Seq<char>) -> bool {
    &&& n.len() > 0
    &&& (('a' <= n[0] <= 'z') || ('A' <= n[0] <= 'Z') || n[0] == '_')
    &&& forall|i: int| 1 <= i < n.len() ==> ('a' <= #[trigger] n[i] <= 'z') || ('A' <= n[i] <= 'Z') || ('0' <= n[i] <= '9') || n[i] == '_'
}

proof fn lemma_registry_name_shape(n: Seq<char>)
    requires
        registry_name_chars(n),
    ensures
        forall|i: int| 0 <= i < n.len() ==> #[trigger] n[i] != '@' && n[i] != ':' && !is_white_space(n[i]),
        n[0] != '.' && n[0] != '/' && n[0] != '~',
        !is_blank(n),
        !names_url(n),
        first_index(n, '@') < 0,
        is_package_name(n),
{
    reveal_strlit("://");
    reveal_strlit("git@");
    lemma_first_index(n, '@');
    assert(!is_white_space(n[0]));
    if contains_run(n, "://"@) {
        let i = choose|i: int| 0 <= i && i + "://"@.len() <= n.len() && #[trigger] n.subrange(i, i + "://"@.len()) == "://"@;
        assert(n.subrange(i, i + 3)[0] == n[i]);
        assert(n[i] == ':');
    }
    if starts_with(n, "git@"@) {
        assert(n.take(4)[3] == n[3]);
        assert(n[3] == '@');
    }
}

/// Every argument that is a registry name, and names nothing on disk, becomes the package
/// specification of that name.
pub proof fn lemma_registry_name_spec(n: Seq<char>, absolute: Result<Seq<char>, Seq<char>>)
    requires
        registry_name_chars(n),
    ensures
        package_spec_text(n, false, absolute) == Ok::<Seq<char>, Seq<char>>("Pkg.PackageSpec(name="@ + julia_literal(n) + ")"@),
{
    lemma_registry_name_shape(n);
    reveal_strlit(".");
    reveal_strlit("..");
    reveal_strlit("./");
    reveal_strlit("../");
    reveal_strlit("/");
    reveal_strlit("~/");
    assert(n != "."@ && n != ".."@) by {
        if n.len() == 1 || n.len() == 2 {
            assert(n[0] != '.');
        }
    }
    assert(!starts_with(n, "./"@) && !starts_with(n, "../"@) && !starts_with(n, "/"@) && !starts_with(n, "~/"@)) by {
        if n.len() >= 1 {
            assert(n.take(1)[0] == n[0]);
        }
        if n.len() >= 2 {
            assert(n.take(2)[0] == n[0]);
        }
        if n.len() >= 3 {
            assert(n.take(3)[0] == n[0]);
        }
    }
}

/// An argument `name@version`, with a registry name and a version, becomes the
/// specification of that name at that version. (`git@...` is the start of a repository
/// address, so the name `git` is left out.)
pub proof fn lemma_registry_version_spec(n: Seq<char>, v: Seq<char>, absolute: Result<Seq<char>, Seq<char>>)
    requires
        registry_name_chars(n),
        n != "git"@,
        v.len() > 0,
        forall|i: int| 0 <= i < v.len() ==> !is_white_space(#[trigger] v[i]) && v[i] != ':' && v[i] != '@',
    ensures
        package_spec_text(n + seq!['@'] + v, false, absolute) == Ok::<Seq<char>, Seq<char>>(
            "Pkg.PackageSpec(name="@ + julia_literal(n) + ", version="@ + julia_literal(v) + ")"@,
        ),
{
    let s = n + seq!['@'] + v;
    lemma_registry_name_shape(n);
    reveal_strlit("://");
    reveal_strlit("git@");
    reveal_strlit(".");
    reveal_strlit("..");
    reveal_strlit("./");
    reveal_strlit("../");
    reveal_strlit("/");
    reveal_strlit("~/");
    assert(s[0] == n[0]);
    assert(!is_white_space(s[0]));
    assert(!is_blank(s));
    if contains_run(s, "://"@) {
        let i = choose|i: int| 0 <= i && i + "://"@.len() <= s.len() && #[trigger] s.subrange(i, i + "://"@.len()) == "://"@;
        assert(s.subrange(i, i + 3)[0] == s[i]);
        if i < n.len() {
            assert(s[i] == n[i]);
        } else if i > n.len() {
            assert(s[i] == v[i - n.len() - 1]);
        }
    }
    if starts_with(s, "git@"@) {
        assert(s.take(4)[0] == s[0]);
        assert(s.take(4)[3] == s[3]);
        if n.len() > 3 {
            assert(s[3] == n[3]);
        } else {
            assert(s[1] == s.take(4)[1]);
            assert(s[2] == s.take(4)[2]);
            if n.len() == 1 {
                assert(s[1] == '@');
            } else if n.len() == 2 {
                assert(s[2] == '@');
            } else {
                reveal_strlit("git");
                assert(n.len() == 3);
                assert(s[1] == n[1] && s[2] == n[2] && s[0] == n[0]);
                assert(s.take(4)[0] == 'g' && s.take(4)[1] == 'i' && s.take(4)[2] == 't');
                assert(n == "git"@);
            }
        }
    }
    assert(s != "."@ && s != ".."@) by {
        if s.len() <= 2 {
            assert(s[0] != '.');
        }
    }
    assert(!starts_with(s, "./"@) && !starts_with(s, "../"@) && !starts_with(s, "/"@) && !starts_with(s, "~/"@)) by {
        assert(s.take(1)[0] == s[0]);
        if s.len() >= 2 {
            assert(s.take(2)[0] == s[0]);
        }
        if s.len() >= 3 {
            assert(s.take(3)[0] == s[0]);
        }
    }
    assert forall|j: int| 0 <= j < n.len() implies s[j] != '@' by {
        assert(s[j] == n[j]);
    }
    lemma_first_index_after(n, seq!['@'] + v, '@');
    assert(s == n + (seq!['@'] + v));
    assert(s.take(n.len() as int) == n);
    assert(s.skip(n.len() as int + 1) == v);
    assert(!names_url(s));
    assert(!names_path(s, false));
    assert(split_first(s, '@') == (n, Some(v)));
}

/// Whether `value` names a git repository.
pub fn is_url(value: &str) -> (r: bool)
    ensures
        r == names_url(value@),
{
    let cs = chars_of(value);
    has_run(cs.as_slice(), "://") || has_prefix(cs.as_slice(), "git@")
}

fn path_like(cs: &[char], on_disk: bool) -> (r: bool)
    ensures
        r == names_path(cs@, on_disk),
{
    eq_str(cs, ".") || eq_str(cs, "..") || has_prefix(cs, "./") || has_prefix(cs, "../") || has_prefix(cs, "/")
        || has_prefix(cs, "~/") || on_disk
}

/// Whether `value` names a local path; `on_disk` tells whether something of that name exists.
pub fn looks_like_path(value: &str, on_disk: bool) -> (r: bool)
    ensures
        r == names_path(value@, on_disk),
{
    let cs = chars_of(value);
    path_like(cs.as_slice(), on_disk)
}

fn split_first_chars(s: &[char], c: char) -> (r: (Vec<char>, Option<Vec<char>>))
    ensures
        r.0@ == split_first(s@, c).0,
        match r.1 {
            Some(v) => split_first(s@, c).1 == Some(v@),
            None => split_first(s@, c).1 is None,
        },
{
    match find_first(s, c) {
        Some(i) => {
            proof {
                lemma_first_index(s@, c);
            }
            let n = s.len();
            assert(i < n);
            (sub_chars(s, 0, i), Some(sub_chars(s, i + 1, n)))
        },
        None => (sub_chars(s, 0, s.len()), None),
    }
}

fn split_last_chars(s: &[char], c: char) -> (r: (Vec<char>, Option<Vec<char>>))
    ensures
        r.0@ == split_last(s@, c).0,
        match r.1 {
            Some(v) => split_last(s@, c).1 == Some(v@),
            None => split_last(s@, c).1 is None,
        },
{
    match find_last(s, c) {
        Some(i) => {
            proof {
                lemma_last_index(s@, c);
            }
            let n = s.len();
            assert(i < n);
            (sub_chars(s, 0, i), Some(sub_chars(s, i + 1, n)))
        },
        None => (sub_chars(s, 0, s.len()), None),
    }
}

/// A package argument split at its first `@` into name and version.
pub fn split_version(package: &str) -> (r: (String, Option<String>))
    ensures
        (r.0@, opt_text(r.1)) == split_first(package@, '@'),
{
    let cs = chars_of(package);
    let (a, b) = split_first_chars(cs.as_slice(), '@');
    let rest = match b {
        Some(v) => Some(string_of(v.as_slice())),
        None => None,
    };
    (string_of(a.as_slice()), rest)
}

/// A repository URL split at its last `#` into URL and revision.
pub fn split_revision(url: &str) -> (r: (String, Option<String>))
    ensures
        (r.0@, opt_text(r.1)) == split_last(url@, '#'),
{
    let cs = chars_of(url);
    let (a, b) = split_last_chars(cs.as_slice(), '#');
    let rest = match b {
        Some(v) => Some(string_of(v.as_slice())),
        None => None,
    };
    (string_of(a.as_slice()), rest)
}

fn name_chars_valid(s: &[char]) -> (r: bool)
    ensures
        r == is_package_name(s@),
{
    if s.len() == 0 {
        return false;
    }
    let first = s[0];
    if !(('a' <= first && first <= 'z') || ('A' <= first && first <= 'Z') || first == '_') {
        return false;
    }
    let mut i: usize = 1;
    while i < s.len()
        invariant
            1 <= i <= s@.len(),
            forall|j: int| 1 <= j < i ==> (is_ascii_alnum(#[trigger] s@[j]) || s@[j] == '_'),
        decreases s@.len() - i,
    {
        let c = s[i];
        if !(('a' <= c && c <= 'z') || ('A' <= c && c <= 'Z') || ('0' <= c && c <= '9') || c == '_') {
            return false;
        }
        i = i + 1;
    }
    true
}

/// Whether `name` is a valid Julia package name.
pub fn valid_package_name(name: &str) -> (r: bool)
    ensures
        r == is_package_name(name@),
{
    let cs = chars_of(name);
    name_chars_valid(cs.as_slice())
}

fn spec_chars(cs: &[char], location: &PackageLocation) -> (r: Result<Vec<char>, String>)
    ensures
        match r {
            Ok(v) => package_spec_text(cs@, location.on_disk, text_result(location.absolute)) == Ok::<Seq<char>, Seq<char>>(v@),
            Err(e) => package_spec_text(cs@, location.on_disk, text_result(location.absolute)) == Err::<Seq<char>, Seq<char>>(e@),
        },
{
    if blank(cs) {
        return Err(String::from_str("package specifications cannot be empty"));
    }
    if has_run(cs, "://") || has_prefix(cs, "git@") {
        let (url, rev) = split_last_chars(cs, '#');
        let mut out = chars_of("Pkg.PackageSpec(url=");
        push_literal(&mut out, url.as_slice());
        let ghost head = out@;
        match rev {
            Some(r) => {
                extend_str(&mut out, ", rev=");
                push_literal(&mut out, r.as_slice());
                assert(out@ == head + (", rev="@ + julia_literal(r@)));
            },
            None => {
                assert(out@ == head + Seq::<char>::empty());
            },
        }
        extend_str(&mut out, ")");
        return Ok(out);
    }
    if path_like(cs, location.on_disk) {
        return match &location.absolute {
            Err(e) => Err(e.clone()),
            Ok(a) => {
                let ac = chars_of(a.as_str());
                let mut out = chars_of("Pkg.PackageSpec(path=");
                push_literal(&mut out, ac.as_slice());
                extend_str(&mut out, ")");
                Ok(out)
            },
        };
    }
    let (name, version) = split_first_chars(cs, '@');
    if !name_chars_valid(name.as_slice()) {
        let mut m = chars_of("invalid Julia package name '");
        extend(&mut m, name.as_slice());
        extend_str(&mut m, "'");
        return Err(string_of(m.as_slice()));
    }
    match version {
        Some(v) => {
            if v.len() == 0 {
                let mut m = chars_of("missing version after '@' in '");
                extend(&mut m, cs);
                extend_str(&mut m, "'");
                Err(string_of(m.as_slice()))
            } else {
                let mut out = chars_of("Pkg.PackageSpec(name=");
                push_literal(&mut out, name.as_slice());
                extend_str(&mut out, ", version=");
                push_literal(&mut out, v.as_slice());
                extend_str(&mut out, ")");
                Ok(out)
            }
        },
        None => {
            let mut out = chars_of("Pkg.PackageSpec(name=");
            push_literal(&mut out, name.as_slice());
            extend_str(&mut out, ")");
            Ok(out)
        },
    }
}

/// The `Pkg.PackageSpec` expression for one package argument: a repository URL (with an
/// optional `#revision`), a local path, or a registry name with an optional `@version`.
/// Every value is written as an escaped Julia string literal.
pub fn package_spec(package: &str, location: &PackageLocation) -> (r: Result<String, String>)
    ensures
        text_result(r) == package_spec_text(package@, location.on_disk, text_result(location.absolute)),
{
    let cs = chars_of(package);
    match spec_chars(cs.as_slice(), location) {
        Ok(v) => Ok(string_of(v.as_slice())),
        Err(e) => Err(e),
    }
}


/// The specifications of the package arguments, in order, or the first argument's error.
pub open spec fn spec_list(ps: Seq<Seq<char>>, locs: Seq<PackageLocation>) -> Result<Seq<Seq<char>>, Seq<char>>
    decreases ps.len(),
{
    if ps.len() == 0 {
        Ok(Seq::empty())
    } else {
        match spec_list(ps.drop_last(), locs) {
            Err(e) => Err(e),
            Ok(done) => {
                let l = locs[ps.len() - 1];
                match package_spec_text(ps.last(), l.on_disk, text_result(l.absolute)) {
                    Err(e) => Err(e),
                    Ok(t) => Ok(done.push(t)),
                }
            },
        }
    }
}

/// A Julia vector of the specifications of the package arguments.
pub open spec fn spec_vector(ps: Seq<Seq<char>>, locs: Seq<PackageLocation>) -> Result<Seq<char>, Seq<char>> {
    match spec_list(ps, locs) {
        Err(e) => Err(e),
        Ok(specs) => Ok("["@ + joined(specs, ", "@) + "]"@),
    }
}

proof fn lemma_spec_list_error(ps: Seq<Seq<char>>, locs: Seq<PackageLocation>, n: int)
    requires
        0 <= n <= ps.len(),
        spec_list(ps.take(n), locs) is Err,
    ensures
        spec_list(ps, locs) == spec_list(ps.take(n), locs),
    decreases ps.len() - n,
{
    if n < ps.len() {
        assert(ps.take(n + 1).drop_last() == ps.take(n));
        lemma_spec_list_error(ps, locs, n + 1);
    } else {
        assert(ps.take(n) == ps);
    }
}

/// Appends the specifications of the packages, in brackets, or gives the first error.
fn push_spec_vector(out: &mut Vec<char>, packages: &Vec<String>, locations: &Vec<PackageLocation>) -> (r: Result<(), String>)
    requires
        locations@.len() == packages@.len(),
    ensures
        match r {
            Ok(_) => spec_vector(texts(packages@), locations@) matches Ok(v) && final(out)@ == old(out)@ + v,
            Err(e) => spec_vector(texts(packages@), locations@) == Err::<Seq<char>, Seq<char>>(e@),
        },
{
    let ghost ps = texts(packages@);
    let ghost start = out@;
    extend_str(out, "[");
    let ghost mut done: Seq<Seq<char>> = Seq::empty();
    let mut i: usize = 0;
    assert(ps.take(0) == Seq::<Seq<char>>::empty());
    while i < packages.len()
        invariant
            ps == texts(packages@),
            locations@.len() == packages@.len(),
            i <= packages@.len(),
            spec_list(ps.take(i as int), locations@) == Ok::<Seq<Seq<char>>, Seq<char>>(done),
            out@ == start + "["@ + joined(done, ", "@),
            done.len() == i,
        decreases packages@.len() - i,
    {
        assert(ps.take(i + 1).drop_last() == ps.take(i as int));
        assert(ps.take(i + 1).last() == packages@[i as int]@);
        let cs = chars_of(packages[i].as_str());
        match spec_chars(cs.as_slice(), &locations[i]) {
            Err(e) => {
                proof {
                    lemma_spec_list_error(ps, locations@, i + 1);
                }
                return Err(e);
            },
            Ok(v) => {
                if i > 0 {
                    extend_str(out, ", ");
                }
                extend(out, v.as_slice());
                proof {
                    let nd = done.push(v@);
                    assert(nd.drop_last() == done);
                    if i == 0 {
                        assert(joined(nd, ", "@) == v@);
                    }
                    done = nd;
                }
            },
        }
        i = i + 1;
    }
    assert(ps.take(ps.len() as int) == ps);
    extend_str(out, "]");
    Ok(())
}

/// The Julia vector of `Pkg.PackageSpec`s for the package arguments; `locations[i]` is
/// where argument `i` would be found on disk.
pub fn package_specs(packages: &Vec<String>, locations: &Vec<PackageLocation>) -> (r: Result<String, String>)
    requires
        locations@.len() == packages@.len(),
    ensures
        text_result(r) == spec_vector(texts(packages@), locations@),
{
    let mut out: Vec<char> = Vec::new();
    match push_spec_vector(&mut out, packages, locations) {
        Ok(_) => {
            assert(out@ == Seq::<char>::empty() + out@);
            Ok(string_of(out.as_slice()))
        },
        Err(e) => Err(e),
    }
}

/// Appends `String[...]` holding the Julia literals of `values`.
fn push_string_vector(out: &mut Vec<char>, values: &Vec<String>)
    ensures
        final(out)@ == old(out)@ + string_vector_text(texts(values@)),
{
    let ghost start = out@;
    extend_str(out, "String[");
    push_literals(out, values);
    extend_str(out, "]");
    assert(out@ == start + string_vector_text(texts(values@)));
}

// ---------------------------------------------------------------------------
// Pkg expressions
// ---------------------------------------------------------------------------

/// How Julia writes a `Bool`.
pub open spec fn bool_text(b: bool) -> Seq<char> {
    if b {
        "true"@
    } else {
        "false"@
    }
}

/// The `Pkg` call that carries out a command, or why the command is not one.
pub open spec fn pkg_expression_text<R>(c: CommandModel<R>, locs: Seq<PackageLocation>) -> Result<Seq<char>, Seq<char>> {
    match c {
        CommandModel::Add { packages, develop } => match spec_vector(packages, locs) {
            Err(e) => Err(e),
            Ok(v) => Ok("import Pkg; Pkg."@ + (if develop { "develop"@ } else { "add"@ }) + "("@ + v + ")"@),
        },
        CommandModel::Remove { packages } => Ok("import Pkg; Pkg.rm("@ + string_vector_text(packages) + ")"@),
        CommandModel::Update { packages } => if packages.len() == 0 {
            Ok("import Pkg; Pkg.update()"@)
        } else {
            Ok("import Pkg; Pkg.update("@ + string_vector_text(packages) + ")"@)
        },
        CommandModel::Instantiate => Ok("import Pkg; Pkg.instantiate()"@),
        CommandModel::Resolve => Ok("import Pkg; Pkg.resolve()"@),
        CommandModel::Precompile => Ok("import Pkg; Pkg.precompile()"@),
        CommandModel::Status => Ok("import Pkg; Pkg.status()"@),
        CommandModel::Gc => Ok("import Pkg; Pkg.gc()"@),
        CommandModel::Outdated => Ok("import Pkg; Pkg.status(; outdated=true)"@),
        CommandModel::Test { coverage, args } => Ok(
            "import Pkg; Pkg.test(; coverage="@ + bool_text(coverage) + ", test_args="@ + string_vector_text(args) + ")"@,
        ),
        _ => Err("this command cannot be executed through Julia Pkg"@),
    }
}

/// What the locations must cover: one for each package argument of an `add`.
pub open spec fn covers<R>(c: CommandModel<R>, locs: Seq<PackageLocation>) -> bool {
    c matches CommandModel::Add { packages, .. } ==> locs.len() == packages.len()
}

fn constant(s: &str) -> (r: Result<String, String>)
    ensures
        r matches Ok(t) && t@ == s@,
{
    Ok(String::from_str(s))
}

/// The `Pkg` expression that carries out `command`; `locations` says where each package
/// argument of an `add` would be found on disk.
pub fn pkg_expression<R>(command: &Command<R>, locations: &Vec<PackageLocation>) -> (r: Result<String, String>)
    requires
        covers(command.model(), locations@),
    ensures
        text_result(r) == pkg_expression_text(command.model(), locations@),
{
    match command {
        Command::Add { packages, develop } => {
            let mut out = chars_of("import Pkg; Pkg.");
            if *develop {
                extend_str(&mut out, "develop");
            } else {
                extend_str(&mut out, "add");
            }
            extend_str(&mut out, "(");
            match push_spec_vector(&mut out, packages, locations) {
                Err(e) => Err(e),
                Ok(_) => {
                    extend_str(&mut out, ")");
                    Ok(string_of(out.as_slice()))
                },
            }
        },
        Command::Remove { packages } => {
            let mut out = chars_of("import Pkg; Pkg.rm(");
            push_string_vector(&mut out, packages);
            extend_str(&mut out, ")");
            Ok(string_of(out.as_slice()))
        },
        Command::Update { packages } => {
            if packages.len() == 0 {
                constant("import Pkg; Pkg.update()")
            } else {
                let mut out = chars_of("import Pkg; Pkg.update(");
                push_string_vector(&mut out, packages);
                extend_str(&mut out, ")");
                Ok(string_of(out.as_slice()))
            }
        },
        Command::Instantiate => constant("import Pkg; Pkg.instantiate()"),
        Command::Resolve => constant("import Pkg; Pkg.resolve()"),
        Command::Precompile => constant("import Pkg; Pkg.precompile()"),
        Command::Status => constant("import Pkg; Pkg.status()"),
        Command::Gc => constant("import Pkg; Pkg.gc()"),
        Command::Outdated => constant("import Pkg; Pkg.status(; outdated=true)"),
        Command::Test { coverage, args } => {
            let mut out = chars_of("import Pkg; Pkg.test(; coverage=");
            if *coverage {
                extend_str(&mut out, "true");
            } else {
                extend_str(&mut out, "false");
            }
            extend_str(&mut out, ", test_args=");
            push_string_vector(&mut out, args);
            extend_str(&mut out, ")");
            Ok(string_of(out.as_slice()))
        },
        _ => Err(String::from_str("this command cannot be executed through Julia Pkg")),
    }
}

/// What Julia is doing while it carries out a command, for messages.
pub open spec fn description_text<R>(c: CommandModel<R>) -> Seq<char> {
    match c {
        CommandModel::Add { develop, .. } => if develop {
            "developing packages"@
        } else {
            "adding packages"@
        },
        CommandModel::Remove { .. } => "removing packages"@,
        CommandModel::Update { .. } => "updating packages"@,
        CommandModel::Instantiate => "instantiating the project"@,
        CommandModel::Resolve => "resolving the project"@,
        CommandModel::Precompile => "precompiling packages"@,
        CommandModel::Status => "reading project status"@,
        CommandModel::Gc => "collecting unused packages"@,
        CommandModel::Outdated => "checking outdated packages"@,
        CommandModel::Test { .. } => "running project tests"@,
        _ => "running the command"@,
    }
}

/// What Julia is doing while it carries out `command`.
pub fn command_description<R>(command: &Command<R>) -> (r: &'static str)
    ensures
        r@ == description_text(command.model()),
{
    match command {
        Command::Add { develop, .. } => if *develop {
            "developing packages"
        } else {
            "adding packages"
        },
        Command::Remove { .. } => "removing packages",
        Command::Update { .. } => "updating packages",
        Command::Instantiate => "instantiating the project",
        Command::Resolve => "resolving the project",
        Command::Precompile => "precompiling packages",
        Command::Status => "reading project status",
        Command::Gc => "collecting unused packages",
        Command::Outdated => "checking outdated packages",
        Command::Test { .. } => "running project tests",
        _ => "running the command",
    }
}


// ---------------------------------------------------------------------------
// Command lines
// ---------------------------------------------------------------------------

/// One argument of a program's command line: text made here, or an argument taken from
/// the user as it was given.
#[derive(Debug, Clone, PartialEq, Eq)]
pub enum ProgramArg<R> {
    Text(String),
    Raw(R),
}

/// A command-line argument, mathematically.
pub enum ArgModel<R> {
    Text(Seq<char>),
    Raw(R),
}

impl<R> ProgramArg<R> {
    /// The argument, mathematically.
    pub open spec fn model(self) -> ArgModel<R> {
        match self {
            ProgramArg::Text(s) => ArgModel::Text(s@),
            ProgramArg::Raw(r) => ArgModel::Raw(r),
        }
    }
}

/// Arguments, mathematically.
pub open spec fn arg_models<R>(v: Seq<ProgramArg<R>>) -> Seq<ArgModel<R>> {
    v.map_values(|a: ProgramArg<R>| a.model())
}

/// Texts as arguments.
pub open spec fn text_args<R>(v: Seq<Seq<char>>) -> Seq<ArgModel<R>> {
    v.map_values(|s: Seq<char>| ArgModel::<R>::Text(s))
}

/// The options that every `jpm` call of Julia passes: the project when there is one, no
/// startup file, no history, no color, and the expression to evaluate.
pub open spec fn base_args_text(project: Option<Seq<char>>, expression: Seq<char>) -> Seq<Seq<char>> {
    let tail = seq!["--startup-file=no"@, "--history-file=no"@, "--color=no"@, "-e"@, expression];
    match project {
        Some(p) => seq!["--project="@ + p] + tail,
        None => tail,
    }
}

fn text_arg(s: &str) -> (r: String)
    ensures
        r@ == s@,
{
    String::from_str(s)
}

/// The arguments for Julia to evaluate `expression`, in `project` when one is given.
pub fn base_args(project: Option<&str>, expression: String) -> (r: Vec<String>)
    ensures
        texts(r@) == base_args_text(
            match project {
                Some(p) => Some(p@),
                None => None,
            },
            expression@,
        ),
{
    let mut args: Vec<String> = Vec::new();
    match project {
        Some(p) => {
            let mut a = chars_of("--project=");
            extend_str(&mut a, p);
            args.push(string_of(a.as_slice()));
        },
        None => {},
    }
    args.push(text_arg("--startup-file=no"));
    args.push(text_arg("--history-file=no"));
    args.push(text_arg("--color=no"));
    args.push(text_arg("-e"));
    args.push(expression);
    assert(texts(args@) == base_args_text(
        match project {
            Some(p) => Some(p@),
            None => None,
        },
        expression@,
    ));
    args
}

fn as_text_args<R>(v: Vec<String>) -> (r: Vec<ProgramArg<R>>)
    ensures
        arg_models(r@) == text_args::<R>(texts(v@)),
{
    let mut out: Vec<ProgramArg<R>> = Vec::new();
    let mut i: usize = 0;
    while i < v.len()
        invariant
            i <= v@.len(),
            out@.len() == i,
            forall|j: int| 0 <= j < i ==> (#[trigger] out@[j]).model() == ArgModel::<R>::Text(v@[j]@),
        decreases v@.len() - i,
    {
        out.push(ProgramArg::Text(v[i].clone()));
        i = i + 1;
    }
    assert(arg_models(out@) == text_args::<R>(texts(v@)));
    out
}

/// How Julia is called for a command in `project`: `run` passes its arguments to Julia
/// untouched; the other commands evaluate their `Pkg` expression.
pub open spec fn invocation_spec<R>(c: CommandModel<R>, project: Seq<char>, locs: Seq<PackageLocation>) -> Result<(Seq<ArgModel<R>>, Seq<char>), Seq<char>> {
    match c {
        CommandModel::Run { args } => Ok((
            seq![ArgModel::<R>::Text("--project="@ + project)] + args.map_values(|a: R| ArgModel::<R>::Raw(a)),
            "running the project"@,
        )),
        _ => match pkg_expression_text(c, locs) {
            Err(e) => Err(e),
            Ok(x) => Ok((text_args::<R>(base_args_text(Some(project), x)), description_text(c))),
        },
    }
}

/// Every `Pkg` command runs Julia in the project, without the user's startup file or
/// history, and hands the expression to `-e` as one argument.
pub proof fn lemma_pkg_invocation_is_repeatable<R>(c: CommandModel<R>, project: Seq<char>, locs: Seq<PackageLocation>)
    requires
        !(c is Run),
        invocation_spec(c, project, locs) is Ok,
    ensures
        ({
            let args = invocation_spec(c, project, locs)->Ok_0.0;
            &&& args.len() == 6
            &&& args[0] == ArgModel::<R>::Text("--project="@ + project)
            &&& args[1] == ArgModel::<R>::Text("--startup-file=no"@)
            &&& args[2] == ArgModel::<R>::Text("--history-file=no"@)
            &&& args[4] == ArgModel::<R>::Text("-e"@)
            &&& args[5] == ArgModel::<R>::Text(pkg_expression_text(c, locs)->Ok_0)
        }),
{
}

/// An invocation or error, mathematically.
pub open spec fn invocation_result<R>(r: Result<(Vec<ProgramArg<R>>, &'static str), String>) -> Result<(Seq<ArgModel<R>>, Seq<char>), Seq<char>> {
    match r {
        Ok((args, d)) => Ok((arg_models(args@), d@)),
        Err(e) => Err(e@),
    }
}

/// The arguments and description for running `command` with Julia in `project` (shown as
/// text); `locations` says where each package argument of an `add` would be found on disk.
pub fn invocation<R>(command: Command<R>, project: &str, locations: &Vec<PackageLocation>) -> (r: Result<(Vec<ProgramArg<R>>, &'static str), String>)
    requires
        covers(command.model(), locations@),
    ensures
        invocation_result(r) == invocation_spec(command.model(), project@, locations@),
{
    let ghost c = command.model();
    match command {
        Command::Run { args } => {
            let mut a = chars_of("--project=");
            extend_str(&mut a, project);
            let mut out: Vec<ProgramArg<R>> = Vec::new();
            out.push(ProgramArg::Text(string_of(a.as_slice())));
            let ghost raw = args@;
            let mut rest = args;
            let mut i: usize = 0;
            let n = rest.len();
            while i < n
                invariant
                    n == raw.len(),
                    i <= n,
                    rest@ == raw.skip(i as int),
                    out@.len() == i + 1,
                    out@[0].model() == ArgModel::<R>::Text("--project="@ + project@),
                    forall|j: int| 1 <= j <= i ==> (#[trigger] out@[j]).model() == ArgModel::<R>::Raw(raw[j - 1]),
                decreases n - i,
            {
                assert(rest@.len() > 0);
                let x = rest.remove(0);
                assert(raw.skip(i + 1) == raw.skip(i as int).drop_first());
                out.push(ProgramArg::Raw(x));
                i = i + 1;
            }
            let ghost expected = seq![ArgModel::<R>::Text("--project="@ + project@)] + raw.map_values(|a: R| ArgModel::<R>::Raw(a));
            assert(arg_models(out@) == expected);
            Ok((out, "running the project"))
        },
        _ => {
            let expression = match pkg_expression(&command, locations) {
                Ok(x) => x,
                Err(e) => {
                    return Err(e);
                },
            };
            let d = command_description(&command);
            let args = base_args(Some(project), expression);
            Ok((as_text_args(args), d))
        },
    }
}


// ---------------------------------------------------------------------------
// Running Julia
// ---------------------------------------------------------------------------

/// How a finished process exited: whether it succeeded, and its exit code when it has one.
pub struct ProcessExit {
    pub success: bool,
    pub code: Option<i32>,
}

/// ` (exit code N)` when the process has an exit code.
pub open spec fn exit_suffix(code: Option<i32>) -> Seq<char> {
    match code {
        Some(c) => " (exit code "@ + signed_decimal(c as int) + ")"@,
        None => Seq::empty(),
    }
}

/// `: <what the process wrote to stderr>` when that is not blank.
pub open spec fn detail_suffix(stderr: Seq<char>) -> Seq<char> {
    if trim(stderr).len() == 0 {
        Seq::empty()
    } else {
        ": "@ + trim(stderr)
    }
}

fn push_exit_suffix(out: &mut Vec<char>, code: Option<i32>)
    ensures
        final(out)@ == old(out)@ + exit_suffix(code),
{
    match code {
        Some(c) => {
            let ghost start = out@;
            extend_str(out, " (exit code ");
            let digits = signed_decimal_chars(c);
            extend(out, digits.as_slice());
            extend_str(out, ")");
            assert(out@ == start + exit_suffix(code));
        },
        None => {
            assert(old(out)@ + Seq::<char>::empty() == old(out)@);
        },
    }
}

fn push_detail_suffix(out: &mut Vec<char>, stderr: &str)
    ensures
        final(out)@ == old(out)@ + detail_suffix(stderr@),
{
    let cs = chars_of(stderr);
    let t = trimmed(cs.as_slice());
    if t.len() == 0 {
        assert(old(out)@ + Seq::<char>::empty() == old(out)@);
    } else {
        let ghost start = out@;
        extend_str(out, ": ");
        extend(out, t.as_slice());
        assert(out@ == start + detail_suffix(stderr@));
    }
}

/// What a finished run of Julia amounts to: nothing when it succeeded, else the failure.
pub open spec fn run_result(description: Seq<char>, exit: ProcessExit) -> Result<(), Seq<char>> {
    if exit.success {
        Ok(())
    } else {
        Err("Julia failed while "@ + description + exit_suffix(exit.code))
    }
}

/// The outcome of a run of Julia that exited as `exit`, while doing `description`.
pub fn run_status(description: &str, exit: &ProcessExit) -> (r: Result<(), String>)
    ensures
        err_text(r) == run_result(description@, *exit),
{
    if exit.success {
        Ok(())
    } else {
        let mut m = chars_of("Julia failed while ");
        extend_str(&mut m, description);
        push_exit_suffix(&mut m, exit.code);
        Err(string_of(m.as_slice()))
    }
}

/// The message when Julia cannot be started: a missing executable gets advice.
pub open spec fn start_error_text(program: Seq<char>, not_found: bool, error: Seq<char>) -> Seq<char> {
    if not_found {
        "Julia executable '"@ + program + "' was not found; install Julia or set JPM_JULIA"@
    } else {
        "could not start Julia: "@ + error
    }
}

/// Why Julia (`program`) could not be started: it was not found, or `error` happened.
pub fn process_start_error(program: &str, not_found: bool, error: &str) -> (r: String)
    ensures
        r@ == start_error_text(program@, not_found, error@),
{
    if not_found {
        let mut m = chars_of("Julia executable '");
        extend_str(&mut m, program);
        extend_str(&mut m, "' was not found; install Julia or set JPM_JULIA");
        string_of(m.as_slice())
    } else {
        let mut m = chars_of("could not start Julia: ");
        extend_str(&mut m, error);
        string_of(m.as_slice())
    }
}

/// The Julia program that reports the environment, one `key<TAB>value` line each.
pub const PROBE_SCRIPT: &'static str = "\
import Pkg
println(\"version\\t\", VERSION)
println(\"project\\t\", something(Base.active_project(), \"none\"))
println(\"depot\\t\", first(DEPOT_PATH))
println(\"registries\\t\", length(Pkg.Registry.reachable_registries()))
";

/// The Julia program that prints the resolved dependency graph as `node` and `edge` lines.
pub const GRAPH_SCRIPT: &'static str = "\
import Pkg
packages = Pkg.dependencies()
for (uuid, info) in sort!(collect(packages); by = pair -> string(pair.first))
    version = something(info.version, \"\")
    println(\"node\\t\", uuid, \"\\t\", info.name, \"\\t\", version, \"\\t\", info.is_direct_dep)
    for dependency in sort!(collect(values(info.dependencies)); by = string)
        haskey(packages, dependency) && println(\"edge\\t\", uuid, \"\\t\", dependency)
    end
end
";

/// The arguments that run the environment probe, in `project` when one is given.
pub fn probe_args(project: Option<&str>) -> (r: Vec<String>)
    ensures
        texts(r@) == base_args_text(
            match project {
                Some(p) => Some(p@),
                None => None,
            },
            PROBE_SCRIPT@,
        ),
{
    base_args(project, String::from_str(PROBE_SCRIPT))
}

/// The arguments that print the dependency graph of `project`.
pub fn graph_args(project: &str) -> (r: Vec<String>)
    ensures
        texts(r@) == base_args_text(Some(project@), GRAPH_SCRIPT@),
{
    base_args(Some(project), String::from_str(GRAPH_SCRIPT))
}

/// What a finished run of the dependency-graph program amounts to: its output, which must
/// be UTF-8 (`stdout` is none when it is not), or the failure.
pub open spec fn graph_output_result(exit: ProcessExit, stderr: Seq<char>, stdout: Option<Seq<char>>) -> Result<Seq<char>, Seq<char>> {
    if !exit.success {
        Err("Julia failed while reading the dependency graph"@ + exit_suffix(exit.code) + detail_suffix(stderr))
    } else {
        match stdout {
            Some(o) => Ok(o),
            None => Err("Julia returned non-UTF-8 dependency data"@),
        }
    }
}

/// The dependency-graph data from a finished run of the program, or the failure.
pub fn capture(exit: &ProcessExit, stderr: &str, stdout: Option<String>) -> (r: Result<String, String>)
    ensures
        text_result(r) == graph_output_result(*exit, stderr@, opt_text(stdout)),
{
    if !exit.success {
        let mut m = chars_of("Julia failed while reading the dependency graph");
        push_exit_suffix(&mut m, exit.code);
        push_detail_suffix(&mut m, stderr);
        return Err(string_of(m.as_slice()));
    }
    match stdout {
        Some(o) => Ok(o),
        None => Err(String::from_str("Julia returned non-UTF-8 dependency data")),
    }
}

// ---------------------------------------------------------------------------
// Formatting sources
// ---------------------------------------------------------------------------

/// The start of the formatting program, up to the list of paths.
pub const FORMAT_HEAD: &'static str = "\
import Pkg
if Base.find_package(\"JuliaFormatter\") === nothing
    println(stderr, \"Installing JuliaFormatter in the shared jpm tools environment...\")
    Pkg.add(\"JuliaFormatter\")
end
using JuliaFormatter
paths = [";

/// The end of the formatting program, after the list of paths.
pub const FORMAT_TAIL: &'static str = "]
JuliaFormatter.format(paths; throw_on_error=true)
";

/// What is formatted: the given paths, or the project when none is given.
pub open spec fn format_targets(project: Seq<char>, paths: Seq<Seq<char>>) -> Seq<Seq<char>> {
    if paths.len() == 0 {
        seq![project]
    } else {
        paths
    }
}

/// The arguments that format `targets` with JuliaFormatter, installed on demand in the
/// shared `@jpm-tools` environment.
pub open spec fn format_args_text(targets: Seq<Seq<char>>) -> Seq<Seq<char>> {
    seq![
        "--project=@jpm-tools"@,
        "--startup-file=no"@,
        "--history-file=no"@,
        "--color=no"@,
        "-e"@,
        FORMAT_HEAD@ + joined(literals(targets), ", "@) + FORMAT_TAIL@,
    ]
}

/// The arguments that format the resolved `paths`, or `project` when there are none.
pub fn format_args(project: &str, paths: &Vec<String>) -> (r: Vec<String>)
    ensures
        texts(r@) == format_args_text(format_targets(project@, texts(paths@))),
{
    let mut expression = chars_of(FORMAT_HEAD);
    if paths.len() == 0 {
        let mut only: Vec<String> = Vec::new();
        only.push(String::from_str(project));
        assert(texts(only@) == seq![project@]);
        push_literals(&mut expression, &only);
    } else {
        push_literals(&mut expression, paths);
    }
    extend_str(&mut expression, FORMAT_TAIL);
    let mut args: Vec<String> = Vec::new();
    args.push(text_arg("--project=@jpm-tools"));
    args.push(text_arg("--startup-file=no"));
    args.push(text_arg("--history-file=no"));
    args.push(text_arg("--color=no"));
    args.push(text_arg("-e"));
    args.push(string_of(expression.as_slice()));
    assert(texts(args@) == format_args_text(format_targets(project@, texts(paths@))));
    args
}

// ---------------------------------------------------------------------------
// New packages
// ---------------------------------------------------------------------------

/// How a new package at the absolute path `path` is generated: the Julia arguments and the
/// package's name, or why it cannot be. `file_name` is the last component of the path, and
/// `exists` whether something is already there.
pub open spec fn generate_text(path: Seq<char>, file_name: Option<Seq<char>>, exists: bool) -> Result<(Seq<Seq<char>>, Seq<char>), Seq<char>> {
    match file_name {
        None => Err("cannot infer a package name from '"@ + path + "'"@),
        Some(name) => if !is_package_name(name) {
            Err("'"@ + name + "' is not a valid Julia package name; use letters, numbers, and underscores"@)
        } else if exists {
            Err("'"@ + path + "' already exists"@)
        } else {
            Ok((base_args_text(None, "import Pkg; Pkg.generate("@ + julia_literal(path) + ")"@), name))
        },
    }
}

/// The Julia arguments that generate a package at the absolute path `path`, and the name
/// of the package.
pub fn generate_invocation(path: &str, file_name: Option<&str>, exists: bool) -> (r: Result<(Vec<String>, String), String>)
    ensures
        match r {
            Ok((args, name)) => generate_text(path@, match file_name { Some(f) => Some(f@), None => None }, exists)
                == Ok::<(Seq<Seq<char>>, Seq<char>), Seq<char>>((texts(args@), name@)),
            Err(e) => generate_text(path@, match file_name { Some(f) => Some(f@), None => None }, exists)
                == Err::<(Seq<Seq<char>>, Seq<char>), Seq<char>>(e@),
        },
{
    let name = match file_name {
        None => {
            let mut m = chars_of("cannot infer a package name from '");
            extend_str(&mut m, path);
            extend_str(&mut m, "'");
            return Err(string_of(m.as_slice()));
        },
        Some(n) => n,
    };
    if !valid_package_name(name) {
        let mut m = chars_of("'");
        extend_str(&mut m, name);
        extend_str(&mut m, "' is not a valid Julia package name; use letters, numbers, and underscores");
        return Err(string_of(m.as_slice()));
    }
    if exists {
        let mut m = chars_of("'");
        extend_str(&mut m, path);
        extend_str(&mut m, "' already exists");
        return Err(string_of(m.as_slice()));
    }
    let mut x = chars_of("import Pkg; Pkg.generate(");
    let pc = chars_of(path);
    push_literal(&mut x, pc.as_slice());
    extend_str(&mut x, ")");
    let args = base_args(None, string_of(x.as_slice()));
    Ok((args, String::from_str(name)))
}

/// The test file of a new package.
pub open spec fn scaffold_text(name: Seq<char>) -> Seq<char> {
    "using Test\nusing "@ + name + "\n\n@testset \""@ + name + ".jl\" begin\n    # Add package tests here.\nend\n"@
}

/// What a new package's `Project.toml` gets appended: the `Test` dependency for tests.
pub const TEST_TARGET: &'static str = "\n[extras]\nTest = \"8dfed614-e22c-5e08-85e1-65c5234f0b40\"\n\n[targets]\ntest = [\"Test\"]\n";

/// The contents of `test/runtests.jl` for a new package called `name`.
pub fn test_scaffold(name: &str) -> (r: String)
    ensures
        r@ == scaffold_text(name@),
{
    let mut out = chars_of("using Test\nusing ");
    extend_str(&mut out, name);
    extend_str(&mut out, "\n\n@testset \"");
    extend_str(&mut out, name);
    extend_str(&mut out, ".jl\" begin\n    # Add package tests here.\nend\n");
    string_of(out.as_slice())
}


// ---------------------------------------------------------------------------
// The environment probe
// ---------------------------------------------------------------------------

/// What Julia reports about its environment.
#[derive(Debug, PartialEq, Eq)]
pub struct Probe {
    pub version: String,
    pub active_project: String,
    pub depot: String,
    pub registries: usize,
}

/// The environment report, mathematically.
pub struct ProbeModel {
    pub version: Seq<char>,
    pub active_project: Seq<char>,
    pub depot: Seq<char>,
    pub registries: nat,
}

impl Probe {
    /// The report, mathematically.
    pub open spec fn model(self) -> ProbeModel {
        ProbeModel {
            version: self.version@,
            active_project: self.active_project@,
            depot: self.depot@,
            registries: self.registries as nat,
        }
    }
}

/// The fields of the report seen so far; a later line for a key replaces an earlier one.
pub struct ProbeFields {
    pub version: Option<Seq<char>>,
    pub active_project: Option<Seq<char>>,
    pub depot: Option<Seq<char>>,
    pub registries: Option<nat>,
}

/// The fields that the report lines give, or the message for the first registry count
/// that is not a number. A line is a key, a tab and a value; other lines and other keys
/// are ignored.
pub open spec fn probe_fields(ls: Seq<Seq<char>>) -> Result<ProbeFields, Seq<char>>
    decreases ls.len(),
{
    if ls.len() == 0 {
        Ok(ProbeFields { version: None, active_project: None, depot: None, registries: None })
    } else {
        match probe_fields(ls.drop_last()) {
            Err(e) => Err(e),
            Ok(f) => {
                let parts = split_first(ls.last(), '\t');
                match parts.1 {
                    None => Ok(f),
                    Some(value) => {
                        let key = parts.0;
                        if key == "version"@ {
                            Ok(ProbeFields { version: Some(value), ..f })
                        } else if key == "project"@ {
                            Ok(ProbeFields { active_project: Some(value), ..f })
                        } else if key == "depot"@ {
                            Ok(ProbeFields { depot: Some(value), ..f })
                        } else if key == "registries"@ {
                            match parse_unsigned(value) {
                                Some(n) => Ok(ProbeFields { registries: Some(n), ..f }),
                                None => Err("Julia returned an invalid registry count: "@ + value),
                            }
                        } else {
                            Ok(f)
                        }
                    },
                }
            },
        }
    }
}

/// The report that the probe's output gives, or what is wrong with it: a bad registry
/// count, or the first of version, active project, depot and registries that is missing.
pub open spec fn probe_result(output: Seq<char>) -> Result<ProbeModel, Seq<char>> {
    match probe_fields(lines_of(output)) {
        Err(e) => Err(e),
        Ok(f) => match (f.version, f.active_project, f.depot, f.registries) {
            (None, _, _, _) => Err("Julia probe did not report its version"@),
            (Some(_), None, _, _) => Err("Julia probe did not report its active project"@),
            (Some(_), Some(_), None, _) => Err("Julia probe did not report its depot"@),
            (Some(_), Some(_), Some(_), None) => Err("Julia probe did not report reachable registries"@),
            (Some(v), Some(p), Some(d), Some(n)) => Ok(ProbeModel { version: v, active_project: p, depot: d, registries: n }),
        },
    }
}

/// A report or error, mathematically.
pub open spec fn probe_view(r: Result<Probe, String>) -> Result<ProbeModel, Seq<char>> {
    match r {
        Ok(p) => Ok(p.model()),
        Err(e) => Err(e@),
    }
}

proof fn lemma_probe_fields_error(ls: Seq<Seq<char>>, n: int)
    requires
        0 <= n <= ls.len(),
        probe_fields(ls.take(n)) is Err,
    ensures
        probe_fields(ls) == probe_fields(ls.take(n)),
    decreases ls.len() - n,
{
    if n < ls.len() {
        assert(ls.take(n + 1).drop_last() == ls.take(n));
        lemma_probe_fields_error(ls, n + 1);
    } else {
        assert(ls.take(n) == ls);
    }
}

fn missing(m: &str) -> (r: Result<Probe, String>)
    ensures
        probe_view(r) == Err::<ProbeModel, Seq<char>>(m@),
{
    Err(String::from_str(m))
}

/// Reads the environment report that the probe prints.
pub fn parse_probe(output: &str) -> (r: Result<Probe, String>)
    ensures
        probe_view(r) == probe_result(output@),
{
    let cs = chars_of(output);
    let ls = lines(cs.as_slice());
    let ghost lsv = lines_of(output@);
    let mut version: Option<Vec<char>> = None;
    let mut active_project: Option<Vec<char>> = None;
    let mut depot: Option<Vec<char>> = None;
    let mut registries: Option<usize> = None;
    let mut i: usize = 0;
    assert(lsv.take(0) == Seq::<Seq<char>>::empty());
    while i < ls.len()
        invariant
            lsv == lines_of(output@),
            ls@.len() == lsv.len(),
            forall|j: int| 0 <= j < ls@.len() ==> #[trigger] ls@[j]@ == lsv[j],
            i <= ls@.len(),
            probe_fields(lsv.take(i as int)) == Ok::<ProbeFields, Seq<char>>(ProbeFields {
                version: opt_view(version),
                active_project: opt_view(active_project),
                depot: opt_view(depot),
                registries: match registries {
                    Some(n) => Some(n as nat),
                    None => None,
                },
            }),
        decreases ls@.len() - i,
    {
        assert(lsv.take(i + 1).drop_last() == lsv.take(i as int));
        assert(lsv.take(i + 1).last() == lsv[i as int]);
        assert(ls@[i as int]@ == lsv[i as int]);
        let (key, value) = split_first_chars(ls[i].as_slice(), '\t');
        match value {
            None => {},
            Some(v) => {
                if eq_str(key.as_slice(), "version") {
                    version = Some(v);
                } else if eq_str(key.as_slice(), "project") {
                    active_project = Some(v);
                } else if eq_str(key.as_slice(), "depot") {
                    depot = Some(v);
                } else if eq_str(key.as_slice(), "registries") {
                    match parse_count(v.as_slice()) {
                        Some(n) => {
                            registries = Some(n);
                        },
                        None => {
                            let mut m = chars_of("Julia returned an invalid registry count: ");
                            extend(&mut m, v.as_slice());
                            proof {
                                lemma_probe_fields_error(lsv, i + 1);
                            }
                            return Err(string_of(m.as_slice()));
                        },
                    }
                }
            },
        }
        i = i + 1;
    }
    assert(lsv.take(lsv.len() as int) == lsv);
    let version = match version {
        Some(v) => string_of(v.as_slice()),
        None => {
            return missing("Julia probe did not report its version");
        },
    };
    let active_project = match active_project {
        Some(v) => string_of(v.as_slice()),
        None => {
            return missing("Julia probe did not report its active project");
        },
    };
    let depot = match depot {
        Some(v) => string_of(v.as_slice()),
        None => {
            return missing("Julia probe did not report its depot");
        },
    };
    let registries = match registries {
        Some(n) => n,
        None => {
            return missing("Julia probe did not report reachable registries");
        },
    };
    Ok(Probe { version, active_project, depot, registries })
}


/// One line of the environment report: a key, a tab, the value and a line break.
pub open spec fn report_entry(key: Seq<char>, value: Seq<char>) -> Seq<char> {
    key + seq!['\t'] + value + seq!['\n']
}

/// The report the probe prints for a version, an active project, a depot and a count of
/// reachable registries.
pub open spec fn report_text(version: Seq<char>, project: Seq<char>, depot: Seq<char>, registries: nat) -> Seq<char> {
    report_entry("version"@, version) + report_entry("project"@, project) + report_entry("depot"@, depot)
        + report_entry("registries"@, decimal(registries))
}

/// A value that stays on one line: it holds no line break and does not end with a
/// carriage return.
pub open spec fn one_line(s: Seq<char>) -> bool {
    &&& forall|i: int| 0 <= i < s.len() ==> s[i] != '\n'
    &&& (s.len() == 0 || s.last() != '\r')
}

/// The keys that the probe report is read for.
pub open spec fn is_report_key(key: Seq<char>) -> bool {
    key == "version"@ || key == "project"@ || key == "depot"@ || key == "registries"@
}

/// A line that is one key without a tab.
spec fn plain_key(key: Seq<char>) -> bool {
    &&& key.len() > 0
    &&& forall|i: int| 0 <= i < key.len() ==> key[i] != '\t' && key[i] != '\n'
}

/// Adding one report entry to whole lines adds one line, which splits back into the key
/// and the value.
proof fn lemma_report_entry(before: Seq<char>, key: Seq<char>, value: Seq<char>)
    requires
        whole_lines(before),
        plain_key(key),
        one_line(value),
    ensures
        lines_of(before + report_entry(key, value)) == lines_of(before).push(key + seq!['\t'] + value),
        whole_lines(before + report_entry(key, value)),
        split_first(key + seq!['\t'] + value, '\t') == (key, Some(value)),
{
    let line = key + seq!['\t'] + value;
    assert forall|i: int| 0 <= i < line.len() implies line[i] != '\n' by {
        if i < key.len() {
            assert(line[i] == key[i]);
        } else if i > key.len() {
            assert(line[i] == value[i - key.len() - 1]);
        }
    }
    if value.len() > 0 {
        assert(line.last() == value.last());
    } else {
        assert(line.last() == '\t');
    }
    assert(strip_cr(line) == line);
    lemma_lines_push(before, line);
    assert(before + report_entry(key, value) == before + line + seq!['\n']);
    lemma_first_index_after(key, seq!['\t'] + value, '\t');
    assert(line == key + (seq!['\t'] + value));
    assert(line.take(key.len() as int) == key);
    assert(line.skip(key.len() as int + 1) == value);
}

proof fn lemma_report_keys()
    ensures
        plain_key("version"@),
        plain_key("project"@),
        plain_key("depot"@),
        plain_key("registries"@),
        "project"@ != "version"@,
        "depot"@ != "version"@,
        "depot"@ != "project"@,
        "registries"@ != "version"@,
        "registries"@ != "project"@,
        "registries"@ != "depot"@,
{
    reveal_strlit("version");
    reveal_strlit("project");
    reveal_strlit("depot");
    reveal_strlit("registries");
    assert("project"@[0] != "version"@[0]);
    assert("depot"@.len() != "version"@.len());
    assert("depot"@.len() != "project"@.len());
    assert("registries"@.len() != "version"@.len());
    assert("registries"@.len() != "project"@.len());
    assert("registries"@.len() != "depot"@.len());
}

/// The report the probe prints reads back as the values it was printed from: a version,
/// an active project and a depot that each stay on one line, and any count of registries.
pub proof fn lemma_probe_report_reads_back(version: Seq<char>, project: Seq<char>, depot: Seq<char>, registries: nat)
    requires
        one_line(version),
        one_line(project),
        one_line(depot),
        registries <= usize::MAX,
    ensures
        probe_result(report_text(version, project, depot, registries)) == Ok::<ProbeModel, Seq<char>>(
            ProbeModel { version, active_project: project, depot, registries },
        ),
{
    lemma_report_keys();
    lemma_decimal_digits(registries);
    lemma_decimal_reads_back(registries);
    let count = decimal(registries);
    assert forall|i: int| 0 <= i < count.len() implies count[i] != '\n' by {
        assert(is_ascii_digit(count[i]));
    }
    assert(is_ascii_digit(count.last()));
    let e = Seq::<char>::empty();
    assert(split_state(e, '\n') == (Seq::<Seq<char>>::empty(), Seq::<char>::empty()));
    assert(lines_of(e) == Seq::<Seq<char>>::empty());
    let t1 = e + report_entry("version"@, version);
    lemma_report_entry(e, "version"@, version);
    let t2 = t1 + report_entry("project"@, project);
    lemma_report_entry(t1, "project"@, project);
    let t3 = t2 + report_entry("depot"@, depot);
    lemma_report_entry(t2, "depot"@, depot);
    let t4 = t3 + report_entry("registries"@, count);
    lemma_report_entry(t3, "registries"@, count);
    assert(t4 == report_text(version, project, depot, registries));
    let l1 = "version"@ + seq!['\t'] + version;
    let l2 = "project"@ + seq!['\t'] + project;
    let l3 = "depot"@ + seq!['\t'] + depot;
    let l4 = "registries"@ + seq!['\t'] + count;
    let s1 = Seq::<Seq<char>>::empty().push(l1);
    let s2 = s1.push(l2);
    let s3 = s2.push(l3);
    let s4 = s3.push(l4);
    assert(lines_of(t4) == s4);
    assert(s1.drop_last() == Seq::<Seq<char>>::empty());
    assert(s2.drop_last() == s1);
    assert(s3.drop_last() == s2);
    assert(s4.drop_last() == s3);
    let none = ProbeFields { version: None, active_project: None, depot: None, registries: None };
    assert(probe_fields(Seq::<Seq<char>>::empty()) == Ok::<ProbeFields, Seq<char>>(none));
    let f1 = ProbeFields { version: Some(version), ..none };
    assert(probe_fields(s1) == Ok::<ProbeFields, Seq<char>>(f1));
    let f2 = ProbeFields { active_project: Some(project), ..f1 };
    assert(probe_fields(s2) == Ok::<ProbeFields, Seq<char>>(f2));
    let f3 = ProbeFields { depot: Some(depot), ..f2 };
    assert(probe_fields(s3) == Ok::<ProbeFields, Seq<char>>(f3));
    let f4 = ProbeFields { registries: Some(registries), ..f3 };
    assert(probe_fields(s4) == Ok::<ProbeFields, Seq<char>>(f4));
}

/// Reading the lines after two beginnings that read alike reads alike.
proof fn lemma_probe_fields_same_start(a: Seq<Seq<char>>, b: Seq<Seq<char>>, rest: Seq<Seq<char>>)
    requires
        probe_fields(a) == probe_fields(b),
    ensures
        probe_fields(a + rest) == probe_fields(b + rest),
    decreases rest.len(),
{
    if rest.len() == 0 {
        assert(a + rest == a);
        assert(b + rest == b);
    } else {
        lemma_probe_fields_same_start(a, b, rest.drop_last());
        assert((a + rest).drop_last() == a + rest.drop_last());
        assert((b + rest).drop_last() == b + rest.drop_last());
        assert((a + rest).last() == rest.last());
        assert((b + rest).last() == rest.last());
    }
}

/// Once reading the report has failed, the lines after do not change the error.
proof fn lemma_probe_fields_error_stays(a: Seq<Seq<char>>, rest: Seq<Seq<char>>)
    requires
        probe_fields(a) is Err,
    ensures
        probe_fields(a + rest) == probe_fields(a),
    decreases rest.len(),
{
    if rest.len() == 0 {
        assert(a + rest == a);
    } else {
        lemma_probe_fields_error_stays(a, rest.drop_last());
        assert((a + rest).drop_last() == a + rest.drop_last());
    }
}

/// A `registries` line whose count is not a number, after whole lines that read well and
/// whatever follows it, makes the report fail with a message that shows the count.
pub proof fn lemma_probe_rejects_bad_count(before: Seq<char>, count: Seq<char>, after: Seq<char>)
    requires
        whole_lines(before),
        probe_fields(lines_of(before)) is Ok,
        one_line(count),
        parse_unsigned(count) is None,
    ensures
        probe_result(before + report_entry("registries"@, count) + after) == Err::<ProbeModel, Seq<char>>(
            "Julia returned an invalid registry count: "@ + count,
        ),
{
    lemma_report_keys();
    lemma_report_entry(before, "registries"@, count);
    let head = before + report_entry("registries"@, count);
    let ls = lines_of(before);
    let l = "registries"@ + seq!['\t'] + count;
    assert(ls.push(l).drop_last() == ls);
    assert(ls.push(l).last() == l);
    lemma_lines_concat(head, after);
    lemma_probe_fields_error_stays(lines_of(head), lines_of(after));
}

/// A line that holds no tab, or whose key is not one the report is read for, is passed
/// over wherever it stands.
pub proof fn lemma_probe_ignores_line(before: Seq<char>, line: Seq<char>, after: Seq<char>)
    requires
        whole_lines(before),
        one_line(line),
        split_first(line, '\t').1 is None || !is_report_key(split_first(line, '\t').0),
    ensures
        probe_result(before + line + seq!['\n'] + after) == probe_result(before + after),
{
    lemma_lines_push(before, line);
    assert(strip_cr(line) == line);
    let ls = lines_of(before);
    assert(ls.push(line).drop_last() == ls);
    assert(ls.push(line).last() == line);
    let head = before + line + seq!['\n'];
    assert(whole_lines(head));
    lemma_lines_concat(head, after);
    lemma_lines_concat(before, after);
    lemma_probe_fields_same_start(ls.push(line), ls, lines_of(after));
}

/// What a finished run of the probe amounts to: the report in its output, or the failure.
pub open spec fn probe_outcome_spec(exit: ProcessExit, stderr: Seq<char>, stdout: Seq<char>) -> Result<ProbeModel, Seq<char>> {
    if !exit.success {
        Err("Julia environment probe failed"@ + exit_suffix(exit.code) + detail_suffix(stderr))
    } else {
        probe_result(stdout)
    }
}

/// The environment report from a finished run of the probe, or the failure.
pub fn probe_outcome(exit: &ProcessExit, stderr: &str, stdout: &str) -> (r: Result<Probe, String>)
    ensures
        probe_view(r) == probe_outcome_spec(*exit, stderr@, stdout@),
{
    if !exit.success {
        let mut m = chars_of("Julia environment probe failed");
        push_exit_suffix(&mut m, exit.code);
        push_detail_suffix(&mut m, stderr);
        return Err(string_of(m.as_slice()));
    }
    parse_probe(stdout)
}

} // verus!
