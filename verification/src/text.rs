//! Characters, lines, words and joins: the text model that the parsers are
//! specified in. A text is a `Seq<char>`; an executable text is a `Vec<char>`.
use vstd::prelude::*;

verus! {

// ───────────────────────────── conversions ─────────────────────────────

/// The characters of `s`, in order.
pub fn chars_of(s: &str) -> (v: Vec<char>)
    ensures
        v@ == s@,
{
    let mut v: Vec<char> = Vec::new();
    for c in it: s.chars()
        invariant
            v@ == it.seq().take(it.index() as int),
    {
        v.push(c);
    }
    v
}

/// Builds a `String` out of characters with `String::from_iter`.
/// Trusted: the string holds exactly the characters of `v`, in order.
#[verifier::external_body]
pub fn string_from(v: &Vec<char>) -> (s: String)
    ensures
        s@ == v@,
{
    String::from_iter(v)
}

/// The contents of a list of character vectors.
pub open spec fn views(ls: Seq<Vec<char>>) -> Seq<Seq<char>> {
    ls.map_values(|l: Vec<char>| l@)
}

/// The contents of a list of strings.
pub open spec fn strings_view(ls: Seq<String>) -> Seq<Seq<char>> {
    ls.map_values(|l: String| l@)
}

/// The contents of an optional string.
pub open spec fn opt_view(o: Option<String>) -> Option<Seq<char>> {
    match o {
        Some(s) => Some(s@),
        None => None,
    }
}

/// Turns each character vector into a `String`.
pub fn to_strings(ls: &Vec<Vec<char>>) -> (r: Vec<String>)
    ensures
        strings_view(r@) == views(ls@),
{
    let mut r: Vec<String> = Vec::new();
    for i in 0..ls.len()
        invariant
            strings_view(r@) == views(ls@.take(i as int)),
    {
        let s = string_from(&ls[i]);
        r.push(s);
        assert(views(ls@.take(i + 1)) =~= views(ls@.take(i as int)).push(ls@[i as int]@));
        assert(strings_view(r@) =~= strings_view(r@.drop_last()).push(s@));
    }
    assert(ls@.take(ls.len() as int) =~= ls@);
    r
}

/// The characters `v[lo..hi]`.
pub fn slice_of(v: &Vec<char>, lo: usize, hi: usize) -> (r: Vec<char>)
    requires
        lo <= hi <= v@.len(),
    ensures
        r@ == v@.subrange(lo as int, hi as int),
{
    let mut r: Vec<char> = Vec::new();
    let mut i = lo;
    while i < hi
        invariant
            lo <= i <= hi <= v@.len(),
            r@ == v@.subrange(lo as int, i as int),
        decreases hi - i,
    {
        r.push(v[i]);
        i += 1;
        assert(r@ =~= v@.subrange(lo as int, i as int));
    }
    r
}

/// The characters of `v` from index `lo` on.
pub fn skip_of(v: &Vec<char>, lo: usize) -> (r: Vec<char>)
    requires
        lo <= v@.len(),
    ensures
        r@ == v@.skip(lo as int),
{
    let r = slice_of(v, lo, v.len());
    assert(r@ =~= v@.skip(lo as int));
    r
}

/// Appends the characters of `s` to `v`.
pub fn push_str(v: &mut Vec<char>, s: &str)
    ensures
        final(v)@ == old(v)@ + s@,
{
    let cs = chars_of(s);
    push_chars(v, &cs);
}

/// Appends the characters of `w` to `v`.
pub fn push_chars(v: &mut Vec<char>, w: &Vec<char>)
    ensures
        final(v)@ == old(v)@ + w@,
{
    let ghost start = v@;
    for i in 0..w.len()
        invariant
            v@ == start + w@.take(i as int),
    {
        v.push(w[i]);
        assert(start + w@.take(i + 1) =~= (start + w@.take(i as int)).push(w@[i as int]));
    }
    assert(w@.take(w.len() as int) =~= w@);
}

/// Whether two character vectors hold the same text.
pub fn same_chars(a: &Vec<char>, b: &Vec<char>) -> (r: bool)
    ensures
        r == (a@ == b@),
{
    if a.len() != b.len() {
        return false;
    }
    for i in 0..a.len()
        invariant
            a@.len() == b@.len(),
            forall|k: int| 0 <= k < i ==> a@[k] == b@[k],
    {
        if a[i] != b[i] {
            return false;
        }
    }
    assert(a@ =~= b@);
    true
}

/// What follows `p` in `v`, when `v` starts with `p`, as `str::strip_prefix` gives it.
pub fn strip_prefix(v: &Vec<char>, p: &str) -> (r: Option<Vec<char>>)
    ensures
        match r {
            Some(rest) => p@.is_prefix_of(v@) && rest@ == v@.skip(p@.len() as int),
            None => !p@.is_prefix_of(v@),
        },
{
    let pv = chars_of(p);
    if matches_at(v, &pv, 0) {
        assert(p@.is_prefix_of(v@));
        Some(skip_of(v, pv.len()))
    } else {
        assert(!p@.is_prefix_of(v@));
        None
    }
}

/// Whether the list `ls` holds the text `t`.
pub fn contains_text(ls: &Vec<Vec<char>>, t: &Vec<char>) -> (b: bool)
    ensures
        b == views(ls@).contains(t@),
{
    for i in 0..ls.len()
        invariant
            forall|j: int| 0 <= j < i ==> views(ls@)[j] != t@,
    {
        if same_chars(&ls[i], t) {
            assert(views(ls@)[i as int] == t@);
            return true;
        }
    }
    assert(!views(ls@).contains(t@));
    false
}

/// Appends the text `t` to a list of strings.
pub fn push_string(ls: &mut Vec<String>, t: &Vec<char>)
    ensures
        strings_view(final(ls)@) == strings_view(old(ls)@).push(t@),
{
    let s = string_from(t);
    ls.push(s);
    assert(strings_view(ls@) =~= strings_view(old(ls)@).push(t@));
}

/// The characters of a string.
pub fn string_chars(s: &String) -> (v: Vec<char>)
    ensures
        v@ == s@,
{
    chars_of(s.as_str())
}

// ───────────────────────────── whitespace and trim ─────────────────────────────

/// Unicode `White_Space`: the characters that `char::is_whitespace` accepts,
/// and that `str::trim` and `str::split_whitespace` treat as blanks.
pub open spec fn ws(c: char) -> bool {
    let u = c as u32;
    ||| u == 0x20
    ||| 0x09 <= u <= 0x0D
    ||| u == 0x85 || u == 0xA0 || u == 0x1680
    ||| 0x2000 <= u <= 0x200A
    ||| u == 0x2028 || u == 0x2029 || u == 0x202F || u == 0x205F || u == 0x3000
}

/// Whether `c` is white space.
pub fn is_whitespace(c: char) -> (b: bool)
    ensures
        b == ws(c),
{
    let u = c as u32;
    u == 0x20 || (0x09 <= u && u <= 0x0D) || u == 0x85 || u == 0xA0 || u == 0x1680 || (0x2000
        <= u && u <= 0x200A) || u == 0x2028 || u == 0x2029 || u == 0x202F || u == 0x205F || u
        == 0x3000
}

/// `s` without its leading white space.
pub open spec fn trim_start(s: Seq<char>) -> Seq<char>
    decreases s.len(),
{
    if s.len() > 0 && ws(s[0]) {
        trim_start(s.drop_first())
    } else {
        s
    }
}

/// `s` without its trailing white space.
pub open spec fn trim_end(s: Seq<char>) -> Seq<char>
    decreases s.len(),
{
    if s.len() > 0 && ws(s.last()) {
        trim_end(s.drop_last())
    } else {
        s
    }
}

/// `s` without leading and trailing white space, as `str::trim` gives it.
pub open spec fn trimmed(s: Seq<char>) -> Seq<char> {
    trim_end(trim_start(s))
}

/// The characters of `v` without leading and trailing white space.
pub fn trim(v: &Vec<char>) -> (r: Vec<char>)
    ensures
        r@ == trimmed(v@),
{
    let n = v.len();
    let mut i: usize = 0;
    assert(v@.skip(0) =~= v@);
    while i < n && is_whitespace(v[i])
        invariant
            0 <= i <= n,
            n == v@.len(),
            trim_start(v@.skip(i as int)) == trim_start(v@),
        decreases n - i,
    {
        assert(v@.skip(i as int).drop_first() =~= v@.skip(i + 1));
        i += 1;
    }
    assert(trim_start(v@.skip(i as int)) == v@.skip(i as int));
    let mut j: usize = n;
    assert(v@.subrange(i as int, n as int) =~= v@.skip(i as int));
    while j > i && is_whitespace(v[j - 1])
        invariant
            i <= j <= n,
            n == v@.len(),
            trim_end(v@.subrange(i as int, j as int)) == trim_end(v@.skip(i as int)),
        decreases j,
    {
        assert(v@.subrange(i as int, j as int).drop_last() =~= v@.subrange(i as int, j - 1));
        j -= 1;
    }
    slice_of(v, i, j)
}

/// Trimming the start drops exactly the leading white space: the result is
/// what follows index `i`, everything before `i` is white space, and the
/// character at `i`, if any, is not.
pub proof fn lemma_trim_start_shape(s: Seq<char>) -> (i: int)
    ensures
        0 <= i <= s.len(),
        trim_start(s) == s.skip(i),
        forall|k: int| 0 <= k < i ==> ws(#[trigger] s[k]),
        i < s.len() ==> !ws(s[i]),
    decreases s.len(),
{
    if s.len() > 0 && ws(s[0]) {
        let j = lemma_trim_start_shape(s.drop_first());
        assert(s.drop_first().skip(j) =~= s.skip(j + 1));
        assert forall|k: int| 0 <= k < j + 1 implies ws(#[trigger] s[k]) by {
            if k > 0 {
                assert(s[k] == s.drop_first()[k - 1]);
            }
        }
        if j + 1 < s.len() {
            assert(s[j + 1] == s.drop_first()[j]);
        }
        j + 1
    } else {
        assert(s.skip(0) =~= s);
        0
    }
}

/// Trimming the end drops exactly the trailing white space: the result is
/// what comes before index `j`, everything from `j` on is white space, and
/// the character before `j`, if any, is not.
pub proof fn lemma_trim_end_shape(s: Seq<char>) -> (j: int)
    ensures
        0 <= j <= s.len(),
        trim_end(s) == s.take(j),
        forall|k: int| j <= k < s.len() ==> ws(#[trigger] s[k]),
        j > 0 ==> !ws(s[j - 1]),
    decreases s.len(),
{
    if s.len() > 0 && ws(s.last()) {
        let j = lemma_trim_end_shape(s.drop_last());
        assert(s.drop_last().take(j) =~= s.take(j));
        assert forall|k: int| j <= k < s.len() implies ws(#[trigger] s[k]) by {
            if k < s.len() - 1 {
                assert(s[k] == s.drop_last()[k]);
            }
        }
        if j > 0 {
            assert(s[j - 1] == s.drop_last()[j - 1]);
        }
        j
    } else {
        assert(s.take(s.len() as int) =~= s);
        s.len() as int
    }
}

/// `trimmed(s)` is the part of `s` between its leading and its trailing
/// white space: `s[i..j]`, with only white space before `i` and from `j`
/// on, and no white space at either end of the part.
pub proof fn lemma_trimmed_shape(s: Seq<char>) -> (r: (int, int))
    ensures
        0 <= r.0 <= r.1 <= s.len(),
        trimmed(s) == s.subrange(r.0, r.1),
        forall|k: int| 0 <= k < r.0 ==> ws(#[trigger] s[k]),
        forall|k: int| r.1 <= k < s.len() ==> ws(#[trigger] s[k]),
        r.0 < r.1 ==> !ws(s[r.0]) && !ws(s[r.1 - 1]),
{
    let i = lemma_trim_start_shape(s);
    let t = s.skip(i);
    let j = lemma_trim_end_shape(t);
    assert(t.take(j) =~= s.subrange(i, i + j));
    assert forall|k: int| i + j <= k < s.len() implies ws(#[trigger] s[k]) by {
        assert(s[k] == t[k - i]);
    }
    if j > 0 {
        assert(s[i + j - 1] == t[j - 1]);
        assert(s[i] == t[0]);
        if i < s.len() {
        }
    }
    (i, i + j)
}

/// A text lacks `c` when both of its parts do.
pub proof fn lemma_concat_lacks(a: Seq<char>, b: Seq<char>, c: char)
    requires
        !a.contains(c),
        !b.contains(c),
    ensures
        !(a + b).contains(c),
{
    if (a + b).contains(c) {
        let j = choose|j: int| 0 <= j < (a + b).len() && (a + b)[j] == c;
        if j < a.len() {
            assert(a[j] == c);
        } else {
            assert(b[j - a.len()] == c);
        }
    }
}

/// A text with no white space at either end is its own trim, also after a
/// leading blank.
pub proof fn lemma_trimmed_plain(x: Seq<char>)
    requires
        x.len() > 0,
        !ws(x[0]),
        !ws(x.last()),
    ensures
        trimmed(x) == x,
        trimmed(seq![' '] + x) == x,
{
    assert(trim_start(x) == x);
    assert(trim_end(x) == x);
    let y = seq![' '] + x;
    assert(y.drop_first() =~= x);
    assert(ws(y[0]));
    assert(trim_start(y) == trim_start(x));
}

// ───────────────────────────── searching ─────────────────────────────

/// The index of the first `c` in `s`, as `str::find` with a character gives
/// it (counted in characters).
pub open spec fn find_char(s: Seq<char>, c: char) -> Option<int>
    decreases s.len(),
{
    if s.len() == 0 {
        None
    } else if s[0] == c {
        Some(0)
    } else {
        match find_char(s.drop_first(), c) {
            Some(i) => Some(i + 1),
            None => None,
        }
    }
}

/// The first `c` in `s` is at `i`.
pub proof fn lemma_find_char_first(s: Seq<char>, c: char, i: int)
    requires
        0 <= i < s.len(),
        s[i] == c,
        forall|j: int| 0 <= j < i ==> s[j] != c,
    ensures
        find_char(s, c) == Some(i),
    decreases i,
{
    if i > 0 {
        lemma_find_char_first(s.drop_first(), c, i - 1);
    }
}

/// `c` does not occur in `s`.
pub proof fn lemma_find_char_none(s: Seq<char>, c: char)
    requires
        forall|j: int| 0 <= j < s.len() ==> s[j] != c,
    ensures
        find_char(s, c) is None,
    decreases s.len(),
{
    if s.len() > 0 {
        lemma_find_char_none(s.drop_first(), c);
    }
}

/// What `find_char` gives back is an index of `c`, and no earlier index holds `c`.
pub proof fn lemma_find_char_sound(s: Seq<char>, c: char)
    ensures
        find_char(s, c) matches Some(i) ==> {
            &&& 0 <= i < s.len()
            &&& s[i] == c
            &&& forall|j: int| 0 <= j < i ==> s[j] != c
        },
        find_char(s, c) is None ==> forall|j: int| 0 <= j < s.len() ==> s[j] != c,
    decreases s.len(),
{
    if s.len() > 0 {
        lemma_find_char_sound(s.drop_first(), c);
        assert forall|j: int| 1 <= j < s.len() implies s[j] == s.drop_first()[j - 1] by {}
    }
}

/// The index of the first `c` in `v`.
pub fn find(v: &Vec<char>, c: char) -> (r: Option<usize>)
    ensures
        match r {
            Some(i) => find_char(v@, c) == Some(i as int),
            None => find_char(v@, c) is None,
        },
{
    for i in 0..v.len()
        invariant
            forall|j: int| 0 <= j < i ==> v@[j] != c,
    {
        if v[i] == c {
            proof {
                lemma_find_char_first(v@, c, i as int);
            }
            return Some(i);
        }
    }
    proof {
        lemma_find_char_none(v@, c);
    }
    None
}

/// `p` occurs in `s` starting at index `i`.
pub open spec fn occurs_at(s: Seq<char>, p: Seq<char>, i: int) -> bool {
    0 <= i && i + p.len() <= s.len() && s.subrange(i, i + p.len()) == p
}

/// `p` occurs somewhere in `s`, as `str::contains` with a string tests it.
pub open spec fn has_infix(s: Seq<char>, p: Seq<char>) -> bool {
    exists|i: int| occurs_at(s, p, i)
}

/// Whether `p` occurs in `v` at index `i`.
fn matches_at(v: &Vec<char>, p: &Vec<char>, i: usize) -> (b: bool)
    ensures
        b == occurs_at(v@, p@, i as int),
{
    let n = v.len();
    if i > n || p.len() > n - i {
        return false;
    }
    for k in 0..p.len()
        invariant
            n == v@.len(),
            i + p@.len() <= n,
            forall|m: int| 0 <= m < k ==> v@[i + m] == p@[m],
    {
        if v[i + k] != p[k] {
            assert(v@.subrange(i as int, i + p@.len())[k as int] != p@[k as int]);
            return false;
        }
    }
    assert(v@.subrange(i as int, i + p@.len()) =~= p@);
    true
}

/// Whether the characters of `p` occur in `v`.
pub fn contains(v: &Vec<char>, p: &str) -> (b: bool)
    ensures
        b == has_infix(v@, p@),
{
    let pv = chars_of(p);
    if pv.len() > v.len() {
        assert forall|i: int| !occurs_at(v@, p@, i) by {}
        return false;
    }
    let last = v.len() - pv.len();
    for i in 0..last
        invariant
            last + pv@.len() == v@.len(),
            pv@ == p@,
            forall|j: int| 0 <= j < i ==> !occurs_at(v@, p@, j),
    {
        if matches_at(v, &pv, i) {
            return true;
        }
    }
    if matches_at(v, &pv, last) {
        return true;
    }
    assert forall|i: int| !occurs_at(v@, p@, i) by {}
    false
}

/// Whether `v` starts with the characters of `p`.
pub fn starts_with(v: &Vec<char>, p: &str) -> (b: bool)
    ensures
        b == p@.is_prefix_of(v@),
{
    let pv = chars_of(p);
    let b = matches_at(v, &pv, 0);
    assert(b == p@.is_prefix_of(v@));
    b
}

// ───────────────────────────── lines and words ─────────────────────────────

/// The pieces of `s` between line feeds, the first of them continuing `cur`.
pub open spec fn lines_from(s: Seq<char>, cur: Seq<char>) -> Seq<Seq<char>>
    decreases s.len(),
{
    if s.len() == 0 {
        seq![cur]
    } else if s[0] == '\n' {
        seq![cur] + lines_from(s.drop_first(), Seq::empty())
    } else {
        lines_from(s.drop_first(), cur.push(s[0]))
    }
}

/// The pieces of `s` between line feeds, in order. Once trimmed, these are
/// the lines that `str::lines` yields, with at most one more piece that
/// trims to nothing: the one after a final line feed, or the empty text's.
pub open spec fn lines_of(s: Seq<char>) -> Seq<Seq<char>> {
    lines_from(s, Seq::empty())
}

/// The pieces between line feeds are never empty as a list.
proof fn lemma_lines_from_nonempty(s: Seq<char>, cur: Seq<char>)
    ensures
        lines_from(s, cur).len() > 0,
    decreases s.len(),
{
    if s.len() > 0 {
        if s[0] == '\n' {
            lemma_lines_from_nonempty(s.drop_first(), Seq::empty());
        } else {
            lemma_lines_from_nonempty(s.drop_first(), cur.push(s[0]));
        }
    }
}

/// Joining a first piece to a non-empty rest.
pub proof fn lemma_join_prepend(x: Seq<char>, ls: Seq<Seq<char>>, sep: Seq<char>)
    requires
        ls.len() > 0,
    ensures
        join(seq![x] + ls, sep) == x + sep + join(ls, sep),
    decreases ls.len(),
{
    let all = seq![x] + ls;
    if ls.len() == 1 {
        assert(all.drop_last() =~= seq![x]);
        assert(all.last() == ls[0]);
        assert(join(seq![x], sep) == x);
        assert(join(all, sep) == join(all.drop_last(), sep) + sep + all.last());
        assert(join(ls, sep) == ls[0]);
    } else {
        lemma_join_prepend(x, ls.drop_last(), sep);
        assert(all.drop_last() =~= seq![x] + ls.drop_last());
        assert(all.last() == ls.last());
        assert(join(all, sep) == join(all.drop_last(), sep) + sep + all.last());
        assert(join(ls, sep) == join(ls.drop_last(), sep) + sep + ls.last());
        assert(x + sep + join(ls.drop_last(), sep) + sep + ls.last() =~= x + sep + (join(
            ls.drop_last(),
            sep,
        ) + sep + ls.last()));
    }
}

/// Splitting at line feeds loses nothing and cuts only there: the pieces,
/// joined again by line feeds, give back the text (after `cur`), and no
/// piece holds a line feed.
pub proof fn lemma_lines_from_shape(s: Seq<char>, cur: Seq<char>)
    requires
        !cur.contains('\n'),
    ensures
        join(lines_from(s, cur), seq!['\n']) == cur + s,
        forall|k: int|
            0 <= k < lines_from(s, cur).len() ==> !(#[trigger] lines_from(s, cur)[k]).contains('\n'),
    decreases s.len(),
{
    if s.len() == 0 {
        assert(cur + s =~= cur);
    } else if s[0] == '\n' {
        let rest = lines_from(s.drop_first(), Seq::empty());
        lemma_lines_from_shape(s.drop_first(), Seq::empty());
        lemma_lines_from_nonempty(s.drop_first(), Seq::empty());
        lemma_join_prepend(cur, rest, seq!['\n']);
        assert(cur + seq!['\n'] + (Seq::<char>::empty() + s.drop_first()) =~= cur + s);
        assert forall|k: int| 0 <= k < (seq![cur] + rest).len() implies !(#[trigger] (seq![cur]
            + rest)[k]).contains('\n') by {
            if k > 0 {
                assert((seq![cur] + rest)[k] == rest[k - 1]);
            }
        }
    } else {
        let c = cur.push(s[0]);
        assert(!c.contains('\n')) by {
            if c.contains('\n') {
                let j = choose|j: int| 0 <= j < c.len() && c[j] == '\n';
                if j < cur.len() {
                    assert(cur[j] == '\n');
                }
            }
        }
        lemma_lines_from_shape(s.drop_first(), c);
        assert(c + s.drop_first() =~= cur + s);
    }
}

/// The lines of a text, joined again by line feeds, give back the text, and
/// no line holds a line feed.
pub proof fn lemma_lines_of_shape(s: Seq<char>)
    ensures
        join(lines_of(s), seq!['\n']) == s,
        forall|k: int| 0 <= k < lines_of(s).len() ==> !(#[trigger] lines_of(s)[k]).contains('\n'),
{
    lemma_lines_from_shape(s, Seq::empty());
    assert(Seq::<char>::empty() + s =~= s);
}

/// Splits `v` at its line feeds.
pub fn split_lines(v: &Vec<char>) -> (ls: Vec<Vec<char>>)
    ensures
        views(ls@) == lines_of(v@),
{
    let mut ls: Vec<Vec<char>> = Vec::new();
    let mut cur: Vec<char> = Vec::new();
    let n = v.len();
    assert(v@.skip(0) =~= v@);
    for i in 0..n
        invariant
            n == v@.len(),
            views(ls@) + lines_from(v@.skip(i as int), cur@) == lines_of(v@),
    {
        assert(v@.skip(i as int).drop_first() =~= v@.skip(i + 1));
        if v[i] == '\n' {
            let ghost before = views(ls@);
            let ghost line = cur@;
            ls.push(cur);
            cur = Vec::new();
            assert(views(ls@) =~= before.push(line));
            assert(before + (seq![line] + lines_from(v@.skip(i + 1), Seq::empty())) =~= before.push(
                line,
            ) + lines_from(v@.skip(i + 1), Seq::empty()));
        } else {
            cur.push(v[i]);
        }
    }
    let ghost before = views(ls@);
    let ghost line = cur@;
    ls.push(cur);
    assert(views(ls@) =~= before.push(line));
    assert(before + seq![line] =~= before.push(line));
    ls
}

/// The maximal runs of non-blank characters of `s`, the first of them
/// continuing `cur`.
pub open spec fn words_from(s: Seq<char>, cur: Seq<char>) -> Seq<Seq<char>>
    decreases s.len(),
{
    if s.len() == 0 {
        if cur.len() > 0 {
            seq![cur]
        } else {
            seq![]
        }
    } else if ws(s[0]) {
        (if cur.len() > 0 {
            seq![cur]
        } else {
            seq![]
        }) + words_from(s.drop_first(), Seq::empty())
    } else {
        words_from(s.drop_first(), cur.push(s[0]))
    }
}

/// The words of `s`, as `str::split_whitespace` yields them.
pub open spec fn words_of(s: Seq<char>) -> Seq<Seq<char>> {
    words_from(s, Seq::empty())
}

/// No character of `w` is white space.
pub open spec fn no_blank(w: Seq<char>) -> bool {
    forall|i: int| 0 <= i < w.len() ==> !ws(#[trigger] w[i])
}

/// A text without white space ends the word that `cur` began.
pub proof fn lemma_words_last(w: Seq<char>, cur: Seq<char>)
    requires
        no_blank(w),
        cur.len() + w.len() > 0,
    ensures
        words_from(w, cur) == seq![cur + w],
    decreases w.len(),
{
    if w.len() == 0 {
        assert(cur + w =~= cur);
    } else {
        assert(!ws(w[0]));
        assert(no_blank(w.drop_first())) by {
            assert forall|i: int| 0 <= i < w.drop_first().len() implies !ws(
                #[trigger] w.drop_first()[i],
            ) by {
                assert(w.drop_first()[i] == w[i + 1]);
            }
        }
        lemma_words_last(w.drop_first(), cur.push(w[0]));
        assert(cur.push(w[0]) + w.drop_first() =~= cur + w);
    }
}

/// A word followed by a blank is one word of the text.
pub proof fn lemma_words_word_then_blank(w: Seq<char>, b: char, rest: Seq<char>, cur: Seq<char>)
    requires
        no_blank(w),
        ws(b),
        cur.len() + w.len() > 0,
    ensures
        words_from(w + seq![b] + rest, cur) == seq![cur + w] + words_from(rest, Seq::empty()),
    decreases w.len(),
{
    let x = w + seq![b] + rest;
    if w.len() == 0 {
        assert(x.drop_first() =~= rest);
        assert(x[0] == b);
        assert(cur + w =~= cur);
    } else {
        assert(x[0] == w[0]);
        assert(!ws(w[0]));
        assert(x.drop_first() =~= w.drop_first() + seq![b] + rest);
        assert(no_blank(w.drop_first())) by {
            assert forall|i: int| 0 <= i < w.drop_first().len() implies !ws(
                #[trigger] w.drop_first()[i],
            ) by {
                assert(w.drop_first()[i] == w[i + 1]);
            }
        }
        lemma_words_word_then_blank(w.drop_first(), b, rest, cur.push(w[0]));
        assert(cur.push(w[0]) + w.drop_first() =~= cur + w);
    }
}

/// Not white space.
pub open spec fn not_blank_pred() -> spec_fn(char) -> bool {
    |c: char| !ws(c)
}

proof fn lemma_filter_single(c: char)
    ensures
        seq![c].filter(not_blank_pred()) == (if ws(c) {
            Seq::<char>::empty()
        } else {
            seq![c]
        }),
{
    reveal_with_fuel(Seq::<_>::filter, 2);
    assert(seq![c].drop_last() =~= Seq::<char>::empty());
}

proof fn lemma_words_from_shape(s: Seq<char>, cur: Seq<char>)
    requires
        no_blank(cur),
    ensures
        words_from(s, cur).flatten() == cur + s.filter(not_blank_pred()),
        forall|k: int|
            0 <= k < words_from(s, cur).len() ==> (#[trigger] words_from(s, cur)[k]).len() > 0
                && no_blank(words_from(s, cur)[k]),
    decreases s.len(),
{
    reveal_with_fuel(Seq::<_>::filter, 1);
    if s.len() == 0 {
        if cur.len() > 0 {
            assert(seq![cur].drop_first() =~= Seq::<Seq<char>>::empty());
            assert(seq![cur].first() == cur);
            assert(Seq::<Seq<char>>::empty().flatten() == Seq::<char>::empty());
            assert(seq![cur].flatten() == cur + seq![cur].drop_first().flatten());
            assert(seq![cur].flatten() =~= cur);
        } else {
            assert(cur =~= Seq::<char>::empty());
        }
        assert(s.filter(not_blank_pred()) =~= Seq::<char>::empty());
        assert(cur + s.filter(not_blank_pred()) =~= cur);
    } else {
        let c = s[0];
        let r = s.drop_first();
        assert(s =~= seq![c] + r);
        Seq::filter_distributes_over_add(seq![c], r, not_blank_pred());
        lemma_filter_single(c);
        if ws(c) {
            lemma_words_from_shape(r, Seq::empty());
            let w2 = words_from(r, Seq::empty());
            if cur.len() > 0 {
                let all = seq![cur] + w2;
                assert(all.first() == cur);
                assert(all.drop_first() =~= w2);
                assert(all.flatten() == cur + w2.flatten());
                assert forall|k: int| 0 <= k < all.len() implies (#[trigger] all[k]).len() > 0
                    && no_blank(all[k]) by {
                    if k > 0 {
                        assert(all[k] == w2[k - 1]);
                    }
                }
            } else {
                assert(Seq::<Seq<char>>::empty() + w2 =~= w2);
                assert(cur =~= Seq::<char>::empty());
            }
            assert(s.filter(not_blank_pred()) == Seq::<char>::empty() + r.filter(not_blank_pred()));
            assert(Seq::<char>::empty() + r.filter(not_blank_pred()) =~= r.filter(not_blank_pred()));
            assert(cur + (Seq::<char>::empty() + r.filter(not_blank_pred())) =~= cur + r.filter(
                not_blank_pred(),
            ));
        } else {
            let c2 = cur.push(c);
            assert(no_blank(c2)) by {
                assert forall|i: int| 0 <= i < c2.len() implies !ws(#[trigger] c2[i]) by {
                    if i < cur.len() {
                        assert(c2[i] == cur[i]);
                    }
                }
            }
            lemma_words_from_shape(r, c2);
            assert(c2 + r.filter(not_blank_pred()) =~= cur + (seq![c] + r.filter(not_blank_pred())));
        }
    }
}

/// Splitting into words keeps every non-blank character, in order, and
/// only those: the words, put together, are the text without its white
/// space; and every word is non-empty and holds no white space.
pub proof fn lemma_words_shape(s: Seq<char>)
    ensures
        words_of(s).flatten() == s.filter(not_blank_pred()),
        forall|k: int|
            0 <= k < words_of(s).len() ==> (#[trigger] words_of(s)[k]).len() > 0 && no_blank(
                words_of(s)[k],
            ),
{
    lemma_words_from_shape(s, Seq::empty());
    assert(Seq::<char>::empty() + s.filter(not_blank_pred()) =~= s.filter(not_blank_pred()));
}

/// Words put together with single spaces split back into the same words.
pub proof fn lemma_words_of_join(ws_: Seq<Seq<char>>)
    requires
        ws_.len() > 0,
        forall|k: int| 0 <= k < ws_.len() ==> (#[trigger] ws_[k]).len() > 0 && no_blank(ws_[k]),
    ensures
        words_of(join(ws_, seq![' '])) == ws_,
    decreases ws_.len(),
{
    let w = ws_[0];
    assert(Seq::<char>::empty() + w =~= w);
    if ws_.len() == 1 {
        lemma_words_last(w, Seq::empty());
        assert(seq![w] =~= ws_);
    } else {
        let rest = ws_.drop_first();
        assert forall|k: int| 0 <= k < rest.len() implies (#[trigger] rest[k]).len() > 0 && no_blank(
            rest[k],
        ) by {
            assert(rest[k] == ws_[k + 1]);
        }
        lemma_words_of_join(rest);
        lemma_join_prepend(w, rest, seq![' ']);
        assert(seq![w] + rest =~= ws_);
        assert(ws(' '));
        lemma_words_word_then_blank(w, ' ', join(rest, seq![' ']), Seq::empty());
    }
}

/// Splits `v` into its words.
pub fn split_words(v: &Vec<char>) -> (ws: Vec<Vec<char>>)
    ensures
        views(ws@) == words_of(v@),
{
    let mut out: Vec<Vec<char>> = Vec::new();
    let mut cur: Vec<char> = Vec::new();
    let n = v.len();
    assert(v@.skip(0) =~= v@);
    for i in 0..n
        invariant
            n == v@.len(),
            views(out@) + words_from(v@.skip(i as int), cur@) == words_of(v@),
    {
        assert(v@.skip(i as int).drop_first() =~= v@.skip(i + 1));
        if is_whitespace(v[i]) {
            if cur.len() > 0 {
                let ghost before = views(out@);
                let ghost word = cur@;
                out.push(cur);
                cur = Vec::new();
                assert(views(out@) =~= before.push(word));
                assert(before + (seq![word] + words_from(v@.skip(i + 1), Seq::empty())) =~= before.push(
                    word,
                ) + words_from(v@.skip(i + 1), Seq::empty()));
            } else {
                assert(seq![] + words_from(v@.skip(i + 1), Seq::empty()) =~= words_from(
                    v@.skip(i + 1),
                    Seq::empty(),
                ));
                cur = Vec::new();
                assert(cur@ =~= Seq::<char>::empty());
            }
        } else {
            cur.push(v[i]);
        }
    }
    if cur.len() > 0 {
        let ghost before = views(out@);
        let ghost word = cur@;
        out.push(cur);
        assert(views(out@) =~= before.push(word));
        assert(before + seq![word] =~= before.push(word));
    } else {
        assert(views(out@) + seq![] =~= views(out@));
    }
    out
}

/// A text without line feeds is one piece, continuing `cur`.
pub proof fn lemma_lines_from_plain(n: Seq<char>, cur: Seq<char>)
    requires
        !n.contains('\n'),
    ensures
        lines_from(n, cur) == seq![cur + n],
    decreases n.len(),
{
    if n.len() == 0 {
        assert(cur + n =~= cur);
    } else {
        assert(n[0] != '\n');
        assert(!n.drop_first().contains('\n')) by {
            if n.drop_first().contains('\n') {
                let j = choose|j: int| 0 <= j < n.drop_first().len() && n.drop_first()[j] == '\n';
                assert(n[j + 1] == '\n');
            }
        }
        lemma_lines_from_plain(n.drop_first(), cur.push(n[0]));
        assert(cur.push(n[0]) + n.drop_first() =~= cur + n);
    }
}

/// A line without line feeds, put after a line feed at the end of a text,
/// adds one line to the text's lines and leaves the others as they were.
pub proof fn lemma_lines_append(a: Seq<char>, n: Seq<char>, cur: Seq<char>)
    requires
        !n.contains('\n'),
    ensures
        lines_from(a + seq!['\n'] + n, cur) == lines_from(a, cur).push(n),
    decreases a.len(),
{
    let x = a + seq!['\n'] + n;
    if a.len() == 0 {
        assert(x.drop_first() =~= n);
        assert(x[0] == '\n');
        lemma_lines_from_plain(n, Seq::empty());
        assert(Seq::<char>::empty() + n =~= n);
        assert(seq![cur] + seq![n] =~= seq![cur].push(n));
    } else {
        assert(x.drop_first() =~= a.drop_first() + seq!['\n'] + n);
        assert(x[0] == a[0]);
        if a[0] == '\n' {
            lemma_lines_append(a.drop_first(), n, Seq::empty());
            assert(seq![cur] + lines_from(a.drop_first(), Seq::empty()).push(n) =~= (seq![cur]
                + lines_from(a.drop_first(), Seq::empty())).push(n));
        } else {
            lemma_lines_append(a.drop_first(), n, cur.push(a[0]));
        }
    }
}

// ───────────────────────────── joining ─────────────────────────────

/// The pieces `ls` with `sep` between each two of them, as `[T]::join` gives it.
pub open spec fn join(ls: Seq<Seq<char>>, sep: Seq<char>) -> Seq<char>
    decreases ls.len(),
{
    if ls.len() == 0 {
        Seq::empty()
    } else if ls.len() == 1 {
        ls[0]
    } else {
        join(ls.drop_last(), sep) + sep + ls.last()
    }
}

/// The pieces `ls` with the characters of `sep` between each two of them.
pub fn join_chars(ls: &Vec<Vec<char>>, sep: &str) -> (r: Vec<char>)
    ensures
        r@ == join(views(ls@), sep@),
{
    let mut r: Vec<char> = Vec::new();
    for i in 0..ls.len()
        invariant
            r@ == join(views(ls@.take(i as int)), sep@),
    {
        let ghost prefix = views(ls@.take(i as int));
        assert(views(ls@.take(i + 1)) =~= prefix.push(ls@[i as int]@));
        assert(views(ls@.take(i + 1)).drop_last() =~= prefix);
        if i > 0 {
            push_str(&mut r, sep);
        }
        push_chars(&mut r, &ls[i]);
        assert(i == 0 ==> r@ =~= ls@[i as int]@);
    }
    assert(ls@.take(ls.len() as int) =~= ls@);
    r
}

/// A joined text starts with its first piece.
pub proof fn lemma_join_first(ls: Seq<Seq<char>>, sep: Seq<char>)
    requires
        ls.len() > 0,
    ensures
        ls[0].is_prefix_of(join(ls, sep)),
    decreases ls.len(),
{
    if ls.len() > 1 {
        lemma_join_first(ls.drop_last(), sep);
        let j = join(ls.drop_last(), sep);
        assert(j.is_prefix_of(join(ls, sep))) by {
            assert(join(ls, sep) =~= j + (sep + ls.last()));
        }
    }
}

/// A joined text ends with its last piece.
pub proof fn lemma_join_last(ls: Seq<Seq<char>>, sep: Seq<char>)
    requires
        ls.len() > 0,
    ensures
        ls.last().is_suffix_of(join(ls, sep)),
{
    if ls.len() == 1 {
        assert(join(ls, sep) =~= ls.last());
    } else {
        let j = join(ls, sep);
        let pre = join(ls.drop_last(), sep) + sep;
        assert(j =~= pre + ls.last());
        assert(j.subrange(j.len() - ls.last().len(), j.len() as int) =~= ls.last());
    }
}

/// `p` occurs in a text that holds `y` somewhere in it, when it occurs in `y`.
pub proof fn lemma_infix_within(x: Seq<char>, y: Seq<char>, z: Seq<char>, p: Seq<char>)
    requires
        has_infix(y, p),
    ensures
        has_infix(x + y + z, p),
{
    let i = choose|i: int| occurs_at(y, p, i);
    let w = x + y + z;
    assert(w.subrange(x.len() + i, x.len() + i + p.len()) =~= y.subrange(i, i + p.len()));
    assert(occurs_at(w, p, x.len() + i));
}

/// A text occurs in itself.
pub proof fn lemma_infix_self(p: Seq<char>)
    ensures
        has_infix(p, p),
{
    assert(p.subrange(0, p.len() as int) =~= p);
    assert(occurs_at(p, p, 0));
}

/// What occurs in a part of a text occurs in the text.
pub proof fn lemma_infix_trans(x: Seq<char>, y: Seq<char>, p: Seq<char>)
    requires
        has_infix(x, y),
        has_infix(y, p),
    ensures
        has_infix(x, p),
{
    let i = choose|i: int| occurs_at(x, y, i);
    let j = choose|j: int| occurs_at(y, p, j);
    assert(x.subrange(i + j, i + j + p.len()) =~= y.subrange(j, j + p.len()));
    assert(occurs_at(x, p, i + j));
}

/// A prefix of a text occurs in it.
pub proof fn lemma_prefix_infix(p: Seq<char>, x: Seq<char>)
    requires
        p.is_prefix_of(x),
    ensures
        has_infix(x, p),
{
    assert(occurs_at(x, p, 0));
}

/// Every piece of a joined text occurs in it.
pub proof fn lemma_join_contains(ls: Seq<Seq<char>>, sep: Seq<char>, i: int)
    requires
        0 <= i < ls.len(),
    ensures
        has_infix(join(ls, sep), ls[i]),
    decreases ls.len(),
{
    lemma_infix_self(ls[i]);
    if ls.len() == 1 {
    } else if i == ls.len() - 1 {
        let pre = join(ls.drop_last(), sep) + sep;
        lemma_infix_within(pre, ls[i], Seq::empty(), ls[i]);
        assert(pre + ls[i] + Seq::<char>::empty() =~= join(ls, sep));
    } else {
        lemma_join_contains(ls.drop_last(), sep, i);
        assert(ls.drop_last()[i] == ls[i]);
        let j = join(ls.drop_last(), sep);
        lemma_infix_within(Seq::empty(), j, sep + ls.last(), ls[i]);
        assert(Seq::<char>::empty() + j + (sep + ls.last()) =~= join(ls, sep));
    }
}

// ───────────────────────────── numbers ─────────────────────────────

/// The decimal digit for `d < 10`.
pub open spec fn digit_char(d: nat) -> char {
    if d == 0 {
        '0'
    } else if d == 1 {
        '1'
    } else if d == 2 {
        '2'
    } else if d == 3 {
        '3'
    } else if d == 4 {
        '4'
    } else if d == 5 {
        '5'
    } else if d == 6 {
        '6'
    } else if d == 7 {
        '7'
    } else if d == 8 {
        '8'
    } else {
        '9'
    }
}

/// `n` written in decimal, as `{}` formats an unsigned integer.
pub open spec fn decimal(n: nat) -> Seq<char>
    decreases n,
{
    if n < 10 {
        seq![digit_char(n)]
    } else {
        decimal(n / 10).push(digit_char(n % 10))
    }
}

fn digit(d: usize) -> (c: char)
    requires
        d < 10,
    ensures
        c == digit_char(d as nat),
{
    match d {
        0 => '0',
        1 => '1',
        2 => '2',
        3 => '3',
        4 => '4',
        5 => '5',
        6 => '6',
        7 => '7',
        8 => '8',
        _ => '9',
    }
}

/// `n` written in decimal.
pub fn decimal_chars(n: usize) -> (v: Vec<char>)
    ensures
        v@ == decimal(n as nat),
    decreases n,
{
    if n < 10 {
        let mut v: Vec<char> = Vec::new();
        v.push(digit(n));
        assert(v@ =~= seq![digit_char(n as nat)]);
        v
    } else {
        let mut v = decimal_chars(n / 10);
        v.push(digit(n % 10));
        v
    }
}

/// An ASCII decimal digit.
pub open spec fn is_digit(c: char) -> bool {
    0x30 <= (c as u32) <= 0x39
}

/// The value of a run of decimal digits.
pub open spec fn digits_value(d: Seq<char>) -> int
    decreases d.len(),
{
    if d.len() == 0 {
        0
    } else {
        digits_value(d.drop_last()) * 10 + ((d.last() as u32) - 0x30)
    }
}

/// All characters of `d` are decimal digits.
pub open spec fn all_digits(d: Seq<char>) -> bool {
    forall|i: int| 0 <= i < d.len() ==> is_digit(#[trigger] d[i])
}

/// What `str::parse::<usize>` gives: an optional `+`, then one or more
/// decimal digits whose value fits in `usize`.
pub open spec fn parse_usize(w: Seq<char>) -> Option<usize> {
    let d = if w.len() > 0 && w[0] == '+' {
        w.drop_first()
    } else {
        w
    };
    if d.len() > 0 && all_digits(d) && digits_value(d) <= usize::MAX {
        Some(digits_value(d) as usize)
    } else {
        None
    }
}

/// The value of a run of digits is at least that of any of its prefixes, and
/// not negative.
pub proof fn lemma_digits_value_grows(d: Seq<char>, k: int)
    requires
        all_digits(d),
        0 <= k <= d.len(),
    ensures
        0 <= digits_value(d.take(k)) <= digits_value(d),
    decreases d.len(),
{
    if k < d.len() {
        let e = d.drop_last();
        assert(all_digits(e)) by {
            assert forall|i: int| 0 <= i < e.len() implies is_digit(#[trigger] e[i]) by {
                assert(e[i] == d[i]);
            }
        }
        lemma_digits_value_grows(e, k);
        assert(e.take(k) =~= d.take(k));
        assert(e.take(e.len() as int) =~= e);
        assert(is_digit(d[d.len() - 1]));
    } else {
        assert(d.take(k) =~= d);
        if d.len() > 0 {
            let e = d.drop_last();
            assert(all_digits(e)) by {
                assert forall|i: int| 0 <= i < e.len() implies is_digit(#[trigger] e[i]) by {
                    assert(e[i] == d[i]);
                }
            }
            lemma_digits_value_grows(e, e.len() as int);
            assert(e.take(e.len() as int) =~= e);
            assert(is_digit(d[d.len() - 1]));
        }
    }
}

/// `decimal(n)` is a run of decimal digits whose value is `n`.
pub proof fn lemma_decimal_digits(n: nat)
    ensures
        decimal(n).len() > 0,
        all_digits(decimal(n)),
        digits_value(decimal(n)) == n,
    decreases n,
{
    let d = decimal(n);
    if n < 10 {
        assert(d.drop_last() =~= Seq::<char>::empty());
        assert((digit_char(n) as u32) == 0x30 + n);
        assert(d.last() == digit_char(n));
        assert(digits_value(d) == digits_value(d.drop_last()) * 10 + ((d.last() as u32) - 0x30));
        assert(digits_value(Seq::<char>::empty()) == 0);
    } else {
        lemma_decimal_digits(n / 10);
        let q = decimal(n / 10);
        assert(d.drop_last() =~= q);
        let c = digit_char(n % 10);
        assert((c as u32) == 0x30 + n % 10);
        assert forall|i: int| 0 <= i < d.len() implies is_digit(#[trigger] d[i]) by {
            if i < q.len() {
                assert(d[i] == q[i]);
            }
        }
        assert((n / 10) * 10 + n % 10 == n);
        assert(d.last() == c);
        assert(digits_value(d) == digits_value(d.drop_last()) * 10 + ((d.last() as u32) - 0x30));
    }
}

/// Numbers read back: what `{}` writes for `n`, `str::parse::<usize>` reads
/// as `n`, with or without a leading `+`.
pub proof fn lemma_decimal_reads_back(n: usize)
    ensures
        parse_usize(decimal(n as nat)) == Some(n),
        parse_usize(seq!['+'] + decimal(n as nat)) == Some(n),
{
    lemma_decimal_digits(n as nat);
    let d = decimal(n as nat);
    assert(is_digit(d[0]));
    assert((seq!['+'] + d).drop_first() =~= d);
}

/// Only digits, after at most one leading `+`, are read as a number.
pub proof fn lemma_parse_usize_sound(w: Seq<char>)
    ensures
        parse_usize(w) is Some ==> w.len() > 0 && (forall|i: int|
            0 <= i < w.len() ==> is_digit(#[trigger] w[i]) || (i == 0 && w[i] == '+')),
        parse_usize(w) is Some && w[0] == '+' ==> w.len() > 1,
{
    if parse_usize(w) is Some {
        if w.len() > 0 && w[0] == '+' {
            let d = w.drop_first();
            assert forall|i: int| 0 <= i < w.len() implies is_digit(#[trigger] w[i]) || (i == 0
                && w[i] == '+') by {
                if i > 0 {
                    assert(w[i] == d[i - 1]);
                    assert(is_digit(d[i - 1]));
                }
            }
        }
    }
}

/// Reads `w` as `str::parse::<usize>` does.
pub fn parse_usize_chars(w: &Vec<char>) -> (r: Option<usize>)
    ensures
        r == parse_usize(w@),
{
    let n = w.len();
    let start: usize = if n > 0 && w[0] == '+' {
        1
    } else {
        0
    };
    let ghost d = if n > 0 && w@[0] == '+' {
        w@.drop_first()
    } else {
        w@
    };
    assert(d =~= w@.skip(start as int));
    if start >= n {
        return None;
    }
    let mut acc: usize = 0;
    let mut i: usize = start;
    while i < n
        invariant
            start <= i <= n,
            n == w@.len(),
            d == w@.skip(start as int),
            d == (if w@.len() > 0 && w@[0] == '+' {
                w@.drop_first()
            } else {
                w@
            }),
            d.len() > 0,
            all_digits(d.take(i - start)),
            acc == digits_value(d.take(i - start)),
        decreases n - i,
    {
        let c = w[i];
        let u = c as u32;
        assert(d[i - start] == c);
        if !(0x30 <= u && u <= 0x39) {
            assert(!is_digit(d[i - start]));
            assert(!all_digits(d));
            return None;
        }
        let next: u128 = (acc as u128) * 10 + ((u - 0x30) as u128);
        assert(d.take(i + 1 - start).drop_last() =~= d.take(i - start));
        assert(all_digits(d.take(i + 1 - start)));
        if next > usize::MAX as u128 {
            proof {
                if all_digits(d) {
                    lemma_digits_value_grows(d, i + 1 - start);
                }
            }
            return None;
        }
        acc = next as usize;
        i += 1;
    }
    assert(d.take(n - start) =~= d);
    Some(acc)
}

} // verus!
