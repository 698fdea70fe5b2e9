//! Pieces shared by the deploy and the pages summaries: which lines report
//! an error, and how a failure is reported.
use vstd::prelude::*;
use crate::ansi::strip_ansi_text;
use crate::text::{
    lines_of, trimmed, chars_of, contains, has_infix, join, join_chars, push_chars, starts_with,
    string_chars, strings_view, views,
};

verus! {

/// A line that reports an error: it holds `[ERROR]`, or starts with `✘` or
/// with `Error:`.
pub open spec fn is_error_line(t: Seq<char>) -> bool {
    has_infix(t, "[ERROR]"@) || "✘"@.is_prefix_of(t) || "Error:"@.is_prefix_of(t)
}

/// Whether the line `t` reports an error.
pub fn error_line(t: &Vec<char>) -> (b: bool)
    ensures
        b == is_error_line(t@),
{
    contains(t, "[ERROR]") || starts_with(t, "✘") || starts_with(t, "Error:")
}

/// `s` indented by two spaces, as `format!("  {}", s)` gives it.
pub open spec fn indent(s: Seq<char>) -> Seq<char> {
    "  "@ + s
}

/// The characters of `s`, indented by two spaces.
pub fn indented(s: &Vec<char>) -> (r: Vec<char>)
    ensures
        r@ == indent(s@),
{
    let mut r = chars_of("  ");
    push_chars(&mut r, s);
    r
}

/// Each line indented by two spaces.
pub open spec fn indent_all(ls: Seq<Seq<char>>) -> Seq<Seq<char>> {
    ls.map_values(|l: Seq<char>| indent(l))
}

/// The report of a failed run: the header, then each error line indented,
/// one per line.
pub open spec fn failure_report(header: Seq<char>, errors: Seq<Seq<char>>) -> Seq<char> {
    join(seq![header] + indent_all(errors), "\n"@)
}

/// Appends each string of `items`, indented, to the lines `out`.
pub fn push_indented(out: &mut Vec<Vec<char>>, items: &Vec<String>)
    ensures
        views(final(out)@) == views(old(out)@) + indent_all(strings_view(items@)),
{
    let ghost start = views(out@);
    for i in 0..items.len()
        invariant
            views(out@) == start + indent_all(strings_view(items@.take(i as int))),
    {
        let ghost before = views(out@);
        let line = indented(&string_chars(&items[i]));
        out.push(line);
        assert(views(out@) =~= before.push(indent(items@[i as int]@)));
        assert(indent_all(strings_view(items@.take(i + 1))) =~= indent_all(
            strings_view(items@.take(i as int)),
        ).push(indent(items@[i as int]@)));
        assert(start + indent_all(strings_view(items@.take(i + 1))) =~= (start + indent_all(
            strings_view(items@.take(i as int)),
        )).push(indent(items@[i as int]@)));
    }
    assert(items@.take(items.len() as int) =~= items@);
}

/// The report of a failed run with the given header and error lines.
pub fn render_failure(header: &str, errors: &Vec<String>) -> (r: Vec<char>)
    ensures
        r@ == failure_report(header@, strings_view(errors@)),
{
    let mut lines: Vec<Vec<char>> = Vec::new();
    lines.push(chars_of(header));
    assert(views(lines@) =~= seq![header@]);
    push_indented(&mut lines, errors);
    join_chars(&lines, "\n")
}


/// Each line trimmed.
pub open spec fn trim_all(ls: Seq<Seq<char>>) -> Seq<Seq<char>> {
    ls.map_values(|l: Seq<char>| trimmed(l))
}

/// The lines of the output `s`, without terminal escape sequences, each
/// trimmed, in order.
pub open spec fn clean_lines(s: Seq<char>) -> Seq<Seq<char>> {
    trim_all(lines_of(strip_ansi_text(s)))
}

/// Starts with `p`.
pub open spec fn starts_with_pred(p: Seq<char>) -> spec_fn(Seq<char>) -> bool {
    |t: Seq<char>| p.is_prefix_of(t)
}

/// Trimming every line, then leaving out the last, is leaving out the last,
/// then trimming.
pub proof fn lemma_trim_all_drop_last(ls: Seq<Seq<char>>)
    requires
        ls.len() > 0,
    ensures
        trim_all(ls).drop_last() == trim_all(ls.drop_last()),
        trim_all(ls).last() == trimmed(ls.last()),
        trim_all(ls).len() == ls.len(),
{
    assert(trim_all(ls).drop_last() =~= trim_all(ls.drop_last()));
}


/// A line without escape characters and with no white space at either end
/// is its own clean line.
pub proof fn lemma_plain_line(l: Seq<char>)
    requires
        l.len() > 0,
        !l.contains('\x1b'),
        !crate::text::ws(l[0]),
        !crate::text::ws(l.last()),
    ensures
        strip_ansi_text(l) == l,
        trimmed(strip_ansi_text(l)) == l,
{
    crate::ansi::lemma_strip_ansi_plain(l);
    crate::text::lemma_trimmed_plain(l);
}

/// Holds `[ERROR]`, or starts with `✘` or `Error:`.
pub open spec fn error_pred() -> spec_fn(Seq<char>) -> bool {
    |t: Seq<char>| has_infix(t, "[ERROR]"@) || "✘"@.is_prefix_of(t) || "Error:"@.is_prefix_of(t)
}

} // verus!
