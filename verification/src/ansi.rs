//! Removal of the terminal colour and style sequences that `wrangler` prints.
use vstd::prelude::*;
use crate::text::{chars_of, string_from, is_digit};

verus! {

/// A parameter character of an escape sequence: a decimal digit or `;`.
pub open spec fn is_param(c: char) -> bool {
    is_digit(c) || c == ';'
}

/// An ASCII letter, the final character of an escape sequence.
pub open spec fn is_ascii_letter(c: char) -> bool {
    let u = c as u32;
    (0x41 <= u <= 0x5A) || (0x61 <= u <= 0x7A)
}

/// The number of parameter characters at the start of `s`.
pub open spec fn param_run(s: Seq<char>) -> nat
    decreases s.len(),
{
    if s.len() > 0 && is_param(s[0]) {
        1 + param_run(s.drop_first())
    } else {
        0
    }
}

/// The length of the escape sequence `ESC [ params letter` (the pattern
/// `\x1b\[[0-9;]*[a-zA-Z]`) at the start of `s`, or 0 when `s` does not start
/// with one.
pub open spec fn escape_len(s: Seq<char>) -> nat {
    if s.len() >= 2 && s[0] == '\x1b' && s[1] == '[' {
        let k = param_run(s.skip(2));
        if 2 + k < s.len() && is_ascii_letter(s[2 + k as int]) {
            3 + k
        } else {
            0
        }
    } else {
        0
    }
}

/// `s` with every escape sequence removed, scanning from left to right: the
/// replacement of all non-overlapping matches of `\x1b\[[0-9;]*[a-zA-Z]` by
/// nothing.
pub open spec fn strip_ansi_text(s: Seq<char>) -> Seq<char>
    decreases s.len(),
{
    if s.len() == 0 {
        s
    } else if escape_len(s) > 0 {
        strip_ansi_text(s.skip(escape_len(s) as int))
    } else {
        seq![s[0]] + strip_ansi_text(s.drop_first())
    }
}

/// The parameter run never reaches past the end of the text.
pub proof fn lemma_param_run_bound(s: Seq<char>)
    ensures
        param_run(s) <= s.len(),
        forall|i: int| 0 <= i < param_run(s) ==> is_param(#[trigger] s[i]),
        param_run(s) < s.len() ==> !is_param(s[param_run(s) as int]),
    decreases s.len(),
{
    if s.len() > 0 && is_param(s[0]) {
        lemma_param_run_bound(s.drop_first());
        assert forall|i: int| 0 <= i < param_run(s) implies is_param(#[trigger] s[i]) by {
            if i > 0 {
                assert(s[i] == s.drop_first()[i - 1]);
            }
        }
    }
}

/// The length of the escape sequence that starts at `v[i]`, or 0.
fn escape_len_at(v: &Vec<char>, i: usize) -> (r: usize)
    requires
        i <= v@.len(),
    ensures
        r == escape_len(v@.skip(i as int)),
{
    let n = v.len();
    if !(n >= 2 && i < n - 1 && v[i] == '\x1b' && v[i + 1] == '[') {
        return 0;
    }
    let ghost params = v@.skip(i + 2);
    let mut j: usize = i + 2;
    assert(v@.skip(i + 2).skip(0) =~= params);
    while j < n && (v[j] == ';' || (0x30 <= (v[j] as u32) && (v[j] as u32) <= 0x39))
        invariant
            i + 2 <= j <= n,
            n == v@.len(),
            params == v@.skip(i + 2),
            param_run(params) == (j - (i + 2)) + param_run(v@.skip(j as int)),
        decreases n - j,
    {
        assert(v@.skip(j as int).drop_first() =~= v@.skip(j + 1));
        j += 1;
    }
    assert(v@.skip(i as int).skip(2) =~= params);
    if j < n && ((0x41 <= (v[j] as u32) && (v[j] as u32) <= 0x5A) || (0x61 <= (v[j] as u32) && (
    v[j] as u32) <= 0x7A)) {
        j + 1 - i
    } else {
        0
    }
}

/// The characters of `v` with every escape sequence removed.
pub fn strip_ansi_chars(v: &Vec<char>) -> (r: Vec<char>)
    ensures
        r@ == strip_ansi_text(v@),
{
    let n = v.len();
    let mut r: Vec<char> = Vec::new();
    let mut i: usize = 0;
    assert(v@.skip(0) =~= v@);
    while i < n
        invariant
            i <= n,
            n == v@.len(),
            r@ + strip_ansi_text(v@.skip(i as int)) == strip_ansi_text(v@),
        decreases n - i,
    {
        let k = escape_len_at(v, i);
        if k > 0 {
            proof {
                lemma_param_run_bound(v@.skip(i as int).skip(2));
            }
            assert(v@.skip(i as int).skip(k as int) =~= v@.skip(i + k));
            i += k;
        } else {
            let ghost before = r@;
            r.push(v[i]);
            assert(v@.skip(i as int).drop_first() =~= v@.skip(i + 1));
            assert(before + (seq![v@[i as int]] + strip_ansi_text(v@.skip(i + 1))) =~= r@
                + strip_ansi_text(v@.skip(i + 1)));
            i += 1;
        }
    }
    assert(v@.skip(n as int) =~= Seq::<char>::empty());
    assert(r@ + Seq::<char>::empty() =~= r@);
    r
}

/// `text` without its terminal escape sequences (`ESC [ params letter`).
pub fn strip_ansi(text: &str) -> (r: String)
    ensures
        r@ == strip_ansi_text(text@),
{
    let v = chars_of(text);
    let s = strip_ansi_chars(&v);
    string_from(&s)
}

/// Text without any escape character is left as it is.
pub proof fn lemma_strip_ansi_plain(s: Seq<char>)
    requires
        !s.contains('\x1b'),
    ensures
        strip_ansi_text(s) == s,
    decreases s.len(),
{
    if s.len() > 0 {
        assert(s[0] != '\x1b');
        assert(!s.drop_first().contains('\x1b')) by {
            if s.drop_first().contains('\x1b') {
                let j = choose|j: int| 0 <= j < s.drop_first().len() && s.drop_first()[j] == '\x1b';
                assert(s[j + 1] == '\x1b');
            }
        }
        lemma_strip_ansi_plain(s.drop_first());
        assert(seq![s[0]] + s.drop_first() =~= s);
    }
}

/// When every escape character of `s` begins a complete escape sequence,
/// no escape character is left once the sequences are removed.
pub proof fn lemma_strip_ansi_removes_escapes(s: Seq<char>)
    requires
        forall|i: int| 0 <= i < s.len() && s[i] == '\x1b' ==> escape_len(#[trigger] s.skip(i)) > 0,
    ensures
        !strip_ansi_text(s).contains('\x1b'),
    decreases s.len(),
{
    if s.len() > 0 {
        let k = escape_len(s);
        if k > 0 {
            lemma_param_run_bound(s.skip(2));
            let t = s.skip(k as int);
            assert forall|i: int| 0 <= i < t.len() && t[i] == '\x1b' implies escape_len(
                #[trigger] t.skip(i),
            ) > 0 by {
                assert(t.skip(i) =~= s.skip(k + i));
                assert(s[k + i] == '\x1b');
            }
            lemma_strip_ansi_removes_escapes(t);
        } else {
            assert(s.skip(0) =~= s);
            assert(s[0] != '\x1b');
            let t = s.drop_first();
            assert forall|i: int| 0 <= i < t.len() && t[i] == '\x1b' implies escape_len(
                #[trigger] t.skip(i),
            ) > 0 by {
                assert(t.skip(i) =~= s.skip(1 + i));
                assert(s[1 + i] == '\x1b');
            }
            lemma_strip_ansi_removes_escapes(t);
            let r = strip_ansi_text(t);
            assert(strip_ansi_text(s) =~= seq![s[0]] + r);
            if (seq![s[0]] + r).contains('\x1b') {
                let j = choose|j: int| 0 <= j < (seq![s[0]] + r).len() && (seq![s[0]] + r)[j] == '\x1b';
                if j > 0 {
                    assert(r[j - 1] == '\x1b');
                }
            }
        }
    }
}


/// A parameter run stops before a character that is no parameter.
proof fn lemma_param_run_concat(u: Seq<char>, y: Seq<char>)
    requires
        y.len() > 0,
        !is_param(y[0]),
    ensures
        param_run(u + y) == param_run(u),
    decreases u.len(),
{
    if u.len() == 0 {
        assert(u + y =~= y);
    } else {
        assert((u + y).drop_first() =~= u.drop_first() + y);
        assert((u + y)[0] == u[0]);
        lemma_param_run_concat(u.drop_first(), y);
    }
}

/// No escape sequence reaches over a line feed.
proof fn lemma_escape_len_line_break(a: Seq<char>, y: Seq<char>)
    requires
        y.len() > 0,
        y[0] == '\n',
    ensures
        escape_len(a + y) == escape_len(a),
        escape_len(a) <= a.len(),
{
    let x = a + y;
    if a.len() >= 2 && a[0] == '\x1b' && a[1] == '[' {
        assert(x[0] == a[0] && x[1] == a[1]);
        assert(x.skip(2) =~= a.skip(2) + y);
        lemma_param_run_concat(a.skip(2), y);
        lemma_param_run_bound(a.skip(2));
        let k = param_run(a.skip(2));
        if 2 + k < a.len() {
            assert(x[2 + k as int] == a[2 + k as int]);
        } else {
            assert(x[2 + k as int] == y[0]);
        }
    } else if a.len() == 1 && a[0] == '\x1b' {
        assert(x[1] == y[0]);
    } else if a.len() == 0 {
        assert(x =~= y);
    } else {
        assert(x[0] == a[0]);
        if a.len() >= 2 {
            assert(x[1] == a[1]);
        }
    }
}

/// Escape sequences are removed on each side of a line feed on its own.
pub proof fn lemma_strip_ansi_line_break(a: Seq<char>, b: Seq<char>)
    ensures
        strip_ansi_text(a + seq!['\n'] + b) == strip_ansi_text(a) + seq!['\n'] + strip_ansi_text(b),
    decreases a.len(),
{
    let x = a + seq!['\n'] + b;
    let y = seq!['\n'] + b;
    assert(x =~= a + y);
    lemma_escape_len_line_break(a, y);
    if a.len() == 0 {
        assert(x =~= y);
        assert(x.drop_first() =~= b);
        assert(strip_ansi_text(a) + seq!['\n'] + strip_ansi_text(b) =~= seq!['\n']
            + strip_ansi_text(b));
    } else {
        let k = escape_len(a);
        if k > 0 {
            assert(x.skip(k as int) =~= a.skip(k as int) + seq!['\n'] + b);
            lemma_strip_ansi_line_break(a.skip(k as int), b);
        } else {
            assert(x.drop_first() =~= a.drop_first() + seq!['\n'] + b);
            assert(x[0] == a[0]);
            lemma_strip_ansi_line_break(a.drop_first(), b);
            assert(seq![a[0]] + (strip_ansi_text(a.drop_first()) + seq!['\n'] + strip_ansi_text(b))
                =~= seq![a[0]] + strip_ansi_text(a.drop_first()) + seq!['\n'] + strip_ansi_text(b));
        }
    }
}

/// Removing escape sequences adds no character that was not there.
pub proof fn lemma_strip_ansi_keeps_absent(s: Seq<char>, c: char)
    requires
        !s.contains(c),
    ensures
        !strip_ansi_text(s).contains(c),
    decreases s.len(),
{
    if s.len() > 0 {
        let k = escape_len(s);
        if k > 0 {
            lemma_param_run_bound(s.skip(2));
            assert(!s.skip(k as int).contains(c)) by {
                if s.skip(k as int).contains(c) {
                    let j = choose|j: int| 0 <= j < s.skip(k as int).len() && s.skip(k as int)[j] == c;
                    assert(s[k + j] == c);
                }
            }
            lemma_strip_ansi_keeps_absent(s.skip(k as int), c);
        } else {
            assert(!s.drop_first().contains(c)) by {
                if s.drop_first().contains(c) {
                    let j = choose|j: int| 0 <= j < s.drop_first().len() && s.drop_first()[j] == c;
                    assert(s[j + 1] == c);
                }
            }
            lemma_strip_ansi_keeps_absent(s.drop_first(), c);
            let r = strip_ansi_text(s.drop_first());
            assert(s[0] != c);
            if (seq![s[0]] + r).contains(c) {
                let j = choose|j: int| 0 <= j < (seq![s[0]] + r).len() && (seq![s[0]] + r)[j] == c;
                if j > 0 {
                    assert(r[j - 1] == c);
                }
            }
        }
    }
}


/// Text without escape characters, in front, is kept as it is.
proof fn lemma_strip_ansi_plain_prefix(a: Seq<char>, r: Seq<char>)
    requires
        !a.contains('\x1b'),
    ensures
        strip_ansi_text(a + r) == a + strip_ansi_text(r),
    decreases a.len(),
{
    if a.len() == 0 {
        assert(a + r =~= r);
        assert(a + strip_ansi_text(r) =~= strip_ansi_text(r));
    } else {
        let x = a + r;
        assert(x[0] == a[0]);
        assert(a[0] != '\x1b');
        assert(x.drop_first() =~= a.drop_first() + r);
        assert(!a.drop_first().contains('\x1b')) by {
            if a.drop_first().contains('\x1b') {
                let j = choose|j: int| 0 <= j < a.drop_first().len() && a.drop_first()[j] == '\x1b';
                assert(a[j + 1] == '\x1b');
            }
        }
        lemma_strip_ansi_plain_prefix(a.drop_first(), r);
        assert(seq![a[0]] + (a.drop_first() + strip_ansi_text(r)) =~= a + strip_ansi_text(r));
    }
}

/// An escape sequence `ESC [ <digits and ;> <letter>` standing between two
/// texts without escape characters is removed, and nothing else is.
pub proof fn lemma_strip_ansi_removes_sequence(a: Seq<char>, p: Seq<char>, l: char, b: Seq<char>)
    requires
        !a.contains('\x1b'),
        !b.contains('\x1b'),
        forall|i: int| 0 <= i < p.len() ==> is_param(#[trigger] p[i]),
        is_ascii_letter(l),
    ensures
        strip_ansi_text(a + (seq!['\x1b', '['] + p + seq![l]) + b) == a + b,
{
    let e = seq!['\x1b', '['] + p + seq![l];
    let r = e + b;
    assert(a + e + b =~= a + r);
    lemma_strip_ansi_plain_prefix(a, r);
    assert(r[0] == '\x1b' && r[1] == '[');
    let tail = p + seq![l] + b;
    assert(r.skip(2) =~= tail);
    assert(!is_param(l));
    lemma_param_run_concat(p, seq![l] + b);
    assert(tail =~= p + (seq![l] + b));
    lemma_param_run_full(p);
    assert(r[2 + p.len() as int] == l);
    assert(escape_len(r) == 3 + p.len());
    assert(r.skip(3 + p.len() as int) =~= b);
    lemma_strip_ansi_plain(b);
}

/// A run made only of parameter characters is one parameter run.
proof fn lemma_param_run_full(p: Seq<char>)
    requires
        forall|i: int| 0 <= i < p.len() ==> is_param(#[trigger] p[i]),
    ensures
        param_run(p) == p.len(),
    decreases p.len(),
{
    if p.len() > 0 {
        assert(is_param(p[0]));
        assert forall|i: int| 0 <= i < p.drop_first().len() implies is_param(
            #[trigger] p.drop_first()[i],
        ) by {
            assert(p.drop_first()[i] == p[i + 1]);
        }
        lemma_param_run_full(p.drop_first());
    }
}

} // verus!
