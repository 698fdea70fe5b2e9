//! `wrangler pages`: the output read into its parts, and the compact summary
//! printed in its place.
use vstd::prelude::*;
use crate::ansi::{strip_ansi_chars, strip_ansi_text};
use crate::report::{clean_lines, error_pred, lemma_trim_all_drop_last, trim_all, error_line, failure_report, indent, is_error_line, render_failure};
use crate::text::{
    is_digit, ws, chars_of, contains, decimal, decimal_chars, find, find_char, has_infix, join, join_chars,
    lemma_find_char_sound, lines_of, opt_view, parse_usize, parse_usize_chars, push_chars,
    push_str, push_string, skip_of, slice_of, split_lines, split_words, starts_with,
    string_chars, string_from, strings_view, trim, trimmed, views, words_of,
};

verus! {

/// The output of `wrangler pages deploy` read into its parts.
#[derive(Debug)]
pub struct PagesDeployResult {
    pub files_uploaded: Option<usize>,
    pub upload_time: Option<String>,
    pub url: Option<String>,
    pub errors: Vec<String>,
}

/// The contents of a [`PagesDeployResult`].
pub struct PagesModel {
    pub files_uploaded: Option<usize>,
    pub upload_time: Option<Seq<char>>,
    pub url: Option<Seq<char>>,
    pub errors: Seq<Seq<char>>,
}

impl View for PagesDeployResult {
    type V = PagesModel;

    open spec fn view(&self) -> PagesModel {
        PagesModel {
            files_uploaded: self.files_uploaded,
            upload_time: opt_view(self.upload_time),
            url: opt_view(self.url),
            errors: strings_view(self.errors@),
        }
    }
}

// ───────────────────────────── reading the output ─────────────────────────────

/// Nothing found yet.
pub open spec fn empty_pages() -> PagesModel {
    PagesModel { files_uploaded: None, upload_time: None, url: None, errors: Seq::empty() }
}

/// The first of the words `ws` that reads as a number, read.
pub open spec fn first_number(ws: Seq<Seq<char>>) -> Option<usize>
    decreases ws.len(),
{
    if ws.len() == 0 {
        None
    } else {
        match parse_usize(ws[0]) {
            Some(n) => Some(n),
            None => first_number(ws.drop_first()),
        }
    }
}

/// The first of the words `ws` that starts with `https://`.
pub open spec fn first_url(ws: Seq<Seq<char>>) -> Option<Seq<char>>
    decreases ws.len(),
{
    if ws.len() == 0 {
        None
    } else if "https://"@.is_prefix_of(ws[0]) {
        Some(ws[0])
    } else {
        first_url(ws.drop_first())
    }
}

/// `Success! Uploaded 24 files (2.34 sec)`: the first number among the words
/// of `t`, and the time between the parentheses. What is not found keeps its
/// earlier value.
pub open spec fn read_upload_line(m: PagesModel, t: Seq<char>) -> PagesModel {
    let files = match first_number(words_of(t)) {
        Some(n) => Some(n),
        None => m.files_uploaded,
    };
    let time = match find_char(t, '(') {
        Some(p) => {
            let time_part = t.skip(p + 1);
            match find_char(time_part, ')') {
                Some(e) => Some(trimmed(time_part.take(e))),
                None => m.upload_time,
            }
        },
        None => m.upload_time,
    };
    PagesModel { files_uploaded: files, upload_time: time, ..m }
}

/// What the trimmed line `t` adds to what was found before it.
pub open spec fn pages_step(m: PagesModel, t: Seq<char>) -> PagesModel {
    let m1 = if has_infix(t, "Uploaded"@) && has_infix(t, "files"@) {
        read_upload_line(m, t)
    } else {
        m
    };
    let m2 = if has_infix(t, "https://"@) {
        match first_url(words_of(t)) {
            Some(u) => PagesModel { url: Some(u), ..m1 },
            None => m1,
        }
    } else {
        m1
    };
    if is_error_line(t) {
        PagesModel { errors: m2.errors.push(t), ..m2 }
    } else {
        m2
    }
}

/// What the lines `ls`, each trimmed, give when read in order.
pub open spec fn pages_fold(ls: Seq<Seq<char>>) -> PagesModel
    decreases ls.len(),
{
    if ls.len() == 0 {
        empty_pages()
    } else {
        pages_step(pages_fold(ls.drop_last()), trimmed(ls.last()))
    }
}

/// What the output `s` of `wrangler pages deploy` gives: its lines, without
/// terminal escape sequences and trimmed, read in order.
pub open spec fn parse_pages(s: Seq<char>) -> PagesModel {
    pages_fold(lines_of(strip_ansi_text(s)))
}

fn first_number_in(ws: &Vec<Vec<char>>) -> (r: Option<usize>)
    ensures
        r == first_number(views(ws@)),
{
    assert(views(ws@).skip(0) =~= views(ws@));
    for i in 0..ws.len()
        invariant
            first_number(views(ws@).skip(i as int)) == first_number(views(ws@)),
    {
        assert(views(ws@).skip(i as int)[0] == ws@[i as int]@);
        assert(views(ws@).skip(i as int).drop_first() =~= views(ws@).skip(i + 1));
        match parse_usize_chars(&ws[i]) {
            Some(n) => {
                return Some(n);
            },
            None => {},
        }
    }
    assert(views(ws@).skip(ws.len() as int) =~= Seq::empty());
    None
}

fn first_url_in(ws: &Vec<Vec<char>>) -> (r: Option<Vec<char>>)
    ensures
        match r {
            Some(u) => first_url(views(ws@)) == Some(u@),
            None => first_url(views(ws@)) is None,
        },
{
    assert(views(ws@).skip(0) =~= views(ws@));
    for i in 0..ws.len()
        invariant
            first_url(views(ws@).skip(i as int)) == first_url(views(ws@)),
    {
        assert(views(ws@).skip(i as int)[0] == ws@[i as int]@);
        assert(views(ws@).skip(i as int).drop_first() =~= views(ws@).skip(i + 1));
        if starts_with(&ws[i], "https://") {
            return Some(slice_of(&ws[i], 0, ws[i].len()));
        }
    }
    assert(views(ws@).skip(ws.len() as int) =~= Seq::empty());
    None
}

fn apply_upload_line(r: PagesDeployResult, t: &Vec<char>) -> (out: PagesDeployResult)
    ensures
        out@ == read_upload_line(r@, t@),
{
    let mut r = r;
    let words = split_words(t);
    match first_number_in(&words) {
        Some(n) => {
            r.files_uploaded = Some(n);
        },
        None => {},
    }
    match find(t, '(') {
        Some(p) => {
            proof {
                lemma_find_char_sound(t@, '(');
            }
            assert(p < t.len());
            let time_part = skip_of(t, p + 1);
            match find(&time_part, ')') {
                Some(e) => {
                    proof {
                        lemma_find_char_sound(time_part@, ')');
                    }
                    let time = trim(&slice_of(&time_part, 0, e));
                    r.upload_time = Some(string_from(&time));
                },
                None => {},
            }
        },
        None => {},
    }
    r
}

fn apply_pages_line(r: PagesDeployResult, t: &Vec<char>) -> (out: PagesDeployResult)
    ensures
        out@ == pages_step(r@, t@),
{
    let mut r = r;
    if contains(t, "Uploaded") && contains(t, "files") {
        r = apply_upload_line(r, t);
    }
    if contains(t, "https://") {
        let words = split_words(t);
        match first_url_in(&words) {
            Some(u) => {
                r.url = Some(string_from(&u));
            },
            None => {},
        }
    }
    if error_line(t) {
        push_string(&mut r.errors, t);
    }
    r
}

/// Reads the output of `wrangler pages deploy`: for each of its lines,
/// without terminal escape sequences and trimmed, in order, the number of
/// files and the upload time (a line holding `Uploaded` and `files`: its
/// first word that reads as a number, and what stands between its
/// parentheses), the URL (the first word starting `https://` of a line that
/// holds one), and the errors. A later line overwrites what an earlier one set.
pub fn parse_pages_output(output: &str) -> (r: PagesDeployResult)
    ensures
        r@ == parse_pages(output@),
{
    let clean = strip_ansi_chars(&chars_of(output));
    let lines = split_lines(&clean);
    let mut r = PagesDeployResult {
        files_uploaded: None,
        upload_time: None,
        url: None,
        errors: Vec::new(),
    };
    assert(r@ =~= empty_pages()) by {
        assert(strings_view(r.errors@) =~= Seq::empty());
    }
    assert(views(lines@).take(0) =~= Seq::empty());
    for i in 0..lines.len()
        invariant
            views(lines@) == lines_of(clean@),
            clean@ == strip_ansi_text(output@),
            r@ == pages_fold(views(lines@).take(i as int)),
    {
        let t = trim(&lines[i]);
        assert(views(lines@).take(i + 1).drop_last() =~= views(lines@).take(i as int));
        assert(views(lines@).take(i + 1).last() == lines@[i as int]@);
        r = apply_pages_line(r, &t);
    }
    assert(views(lines@).take(lines.len() as int) =~= views(lines@));
    r
}

// ───────────────────────────── the summary ─────────────────────────────

/// `✓ n files uploaded (time)`: the number of files when one was found, and
/// the upload time when one was found.
pub open spec fn pages_status_line(m: PagesModel) -> Seq<char> {
    let files = match m.files_uploaded {
        Some(n) => decimal(n as nat) + " files"@,
        None => "files"@,
    };
    let time = match m.upload_time {
        Some(t) => " ("@ + t + ")"@,
        None => Seq::empty(),
    };
    "✓ "@ + files + " uploaded"@ + time
}

/// The summary of what was found: the failure report when there are errors;
/// otherwise the status line, then the URL, indented, when one was found.
pub open spec fn render_pages(m: PagesModel) -> Seq<char> {
    if m.errors.len() > 0 {
        failure_report("✘ wrangler pages deploy failed"@, m.errors)
    } else {
        let url = match m.url {
            Some(u) => seq![indent(u)],
            None => Seq::empty(),
        };
        join(seq![pages_status_line(m)] + url, "\n"@)
    }
}

/// The summary of the output `s` of `wrangler pages deploy`.
pub open spec fn filter_pages(s: Seq<char>) -> Seq<char> {
    render_pages(parse_pages(s))
}

fn pages_status(r: &PagesDeployResult) -> (l: Vec<char>)
    ensures
        l@ == pages_status_line(r@),
{
    let mut l = chars_of("✓ ");
    let ghost head = l@;
    match r.files_uploaded {
        Some(n) => {
            push_chars(&mut l, &decimal_chars(n));
            push_str(&mut l, " files");
            assert(l@ =~= head + (decimal(n as nat) + " files"@));
        },
        None => push_str(&mut l, "files"),
    }
    push_str(&mut l, " uploaded");
    let ghost head2 = l@;
    match &r.upload_time {
        Some(t) => {
            push_str(&mut l, " (");
            push_chars(&mut l, &string_chars(t));
            push_str(&mut l, ")");
            assert(l@ =~= head2 + (" ("@ + t@ + ")"@));
        },
        None => {
            assert(l@ =~= head2 + Seq::empty());
        },
    }
    l
}

/// The summary printed in place of the output of `wrangler pages deploy`.
/// When an error line was found: `✘ wrangler pages deploy failed`, then each
/// error line, indented. Otherwise the status line (`✓ n files uploaded
/// (time)`), then the URL, indented, when one was found.
pub fn filter_pages_output(output: &str) -> (r: String)
    ensures
        r@ == filter_pages(output@),
{
    let result = parse_pages_output(output);
    if result.errors.len() > 0 {
        let report = render_failure("✘ wrangler pages deploy failed", &result.errors);
        return string_from(&report);
    }
    let mut lines: Vec<Vec<char>> = Vec::new();
    lines.push(pages_status(&result));
    let ghost head = views(lines@);
    assert(head =~= seq![pages_status_line(result@)]);
    match &result.url {
        Some(u) => {
            let mut l = chars_of("  ");
            push_chars(&mut l, &string_chars(u));
            lines.push(l);
            assert(views(lines@) =~= head + seq![indent(u@)]);
        },
        None => {
            assert(views(lines@) =~= head + Seq::empty());
        },
    }
    string_from(&join_chars(&lines, "\n"))
}


// ───────────────────────────── laws ─────────────────────────────

proof fn lemma_first_char_of_prefix(p: Seq<char>, x: Seq<char>)
    requires
        p.len() > 0,
        p.is_prefix_of(x),
    ensures
        x.len() > 0,
        x[0] == p[0],
{
    assert(x.subrange(0, p.len() as int)[0] == x[0]);
}

/// The summary of a pages deploy reports a failure exactly when an error
/// line was found; otherwise it starts with the status line `✓ `.
pub proof fn lemma_pages_outcome(s: Seq<char>)
    ensures
        "✘ wrangler pages deploy failed"@.is_prefix_of(filter_pages(s)) <==> parse_pages(
            s,
        ).errors.len() > 0,
        parse_pages(s).errors.len() == 0 ==> pages_status_line(parse_pages(s)).is_prefix_of(
            filter_pages(s),
        ) && "✓ "@.is_prefix_of(filter_pages(s)),
{
    let m = parse_pages(s);
    let out = filter_pages(s);
    let failed = "✘ wrangler pages deploy failed"@;
    reveal_strlit("✘ wrangler pages deploy failed");
    reveal_strlit("✓ ");
    if m.errors.len() > 0 {
        crate::text::lemma_join_first(seq![failed] + crate::report::indent_all(m.errors), "\n"@);
    } else {
        let url = match m.url {
            Some(u) => seq![indent(u)],
            None => Seq::empty(),
        };
        let ls = seq![pages_status_line(m)] + url;
        crate::text::lemma_join_first(ls, "\n"@);
        let status = pages_status_line(m);
        assert(ls[0] == status);
        let files = match m.files_uploaded {
            Some(n) => decimal(n as nat) + " files"@,
            None => "files"@,
        };
        let time = match m.upload_time {
            Some(t) => " ("@ + t + ")"@,
            None => Seq::empty(),
        };
        assert(status =~= "✓ "@ + (files + " uploaded"@ + time));
        assert("✓ "@.is_prefix_of(out)) by {
            assert(out.subrange(0, 2) =~= status.subrange(0, 2));
        }
        lemma_first_char_of_prefix("✓ "@, out);
        if failed.is_prefix_of(out) {
            lemma_first_char_of_prefix(failed, out);
        }
    }
}


/// A trimmed line that no rule of the pages reader matches.
pub open spec fn is_pages_noise(t: Seq<char>) -> bool {
    &&& !(has_infix(t, "Uploaded"@) && has_infix(t, "files"@))
    &&& !has_infix(t, "https://"@)
    &&& !is_error_line(t)
}

/// The output is read line by line: a line put at the end of the output
/// after a line feed changes what is read by what that line, without escape
/// sequences and trimmed, adds on its own.
pub proof fn lemma_pages_reads_line_by_line(a: Seq<char>, n: Seq<char>)
    requires
        !n.contains('\n'),
    ensures
        parse_pages(a + seq!['\n'] + n) == pages_step(parse_pages(a), trimmed(strip_ansi_text(n))),
{
    let sn = strip_ansi_text(n);
    crate::ansi::lemma_strip_ansi_line_break(a, n);
    crate::ansi::lemma_strip_ansi_keeps_absent(n, '\n');
    crate::text::lemma_lines_append(strip_ansi_text(a), sn, Seq::empty());
    let ls = lines_of(strip_ansi_text(a));
    assert(ls.push(sn).drop_last() =~= ls);
    assert(ls.push(sn).last() == sn);
}

/// A line that no rule matches (such as the progress line `Uploading...`),
/// put at the end of the output after a line feed, changes neither what is
/// read from the output nor the summary.
pub proof fn lemma_pages_ignores_noise_line(a: Seq<char>, n: Seq<char>)
    requires
        !n.contains('\n'),
        is_pages_noise(trimmed(strip_ansi_text(n))),
    ensures
        parse_pages(a + seq!['\n'] + n) == parse_pages(a),
        filter_pages(a + seq!['\n'] + n) == filter_pages(a),
{
    lemma_pages_reads_line_by_line(a, n);
    let t = trimmed(strip_ansi_text(n));
    let m = parse_pages(a);
    assert(pages_step(m, t) == m);
}


// ───────────────────────────── laws on what is read and shown ─────────────────────────────

/// With no error found, the summary starts with `✓ `, then the number of
/// files in decimal followed by ` files uploaded` when a number was found
/// (`files uploaded` when none was), then the upload time in parentheses
/// when one was found; and it ends with the URL, indented, when one was found.
pub proof fn lemma_pages_summary_shows_findings(s: Seq<char>)
    requires
        parse_pages(s).errors.len() == 0,
    ensures
        parse_pages(s).files_uploaded matches Some(n) ==> ("✓ "@ + decimal(n as nat)
            + " files uploaded"@).is_prefix_of(filter_pages(s)),
        parse_pages(s).files_uploaded is None ==> "✓ files uploaded"@.is_prefix_of(filter_pages(s)),
        parse_pages(s).upload_time matches Some(t) ==> has_infix(
            filter_pages(s),
            " ("@ + t + ")"@,
        ),
        parse_pages(s).url matches Some(u) ==> ("\n  "@ + u).is_suffix_of(filter_pages(s)),
{
    let m = parse_pages(s);
    let out = filter_pages(s);
    lemma_pages_outcome(s);
    let status = pages_status_line(m);
    let files = match m.files_uploaded {
        Some(n) => decimal(n as nat) + " files"@,
        None => "files"@,
    };
    let time = match m.upload_time {
        Some(t) => " ("@ + t + ")"@,
        None => Seq::empty(),
    };
    let head = "✓ "@ + files + " uploaded"@;
    assert(status =~= head + time);
    assert(head.is_prefix_of(out)) by {
        assert(out.subrange(0, head.len() as int) =~= status.subrange(0, head.len() as int));
    }
    match m.files_uploaded {
        Some(n) => {
            assert(head =~= "✓ "@ + decimal(n as nat) + " files uploaded"@) by {
                reveal_strlit(" files");
                reveal_strlit(" uploaded");
                reveal_strlit(" files uploaded");
            }
        },
        None => {
            assert(head =~= "✓ files uploaded"@) by {
                reveal_strlit("✓ ");
                reveal_strlit("files");
                reveal_strlit(" uploaded");
                reveal_strlit("✓ files uploaded");
            }
        },
    }
    if let Some(t) = m.upload_time {
        crate::text::lemma_infix_self(time);
        crate::text::lemma_infix_within(head, time, out.skip(status.len() as int), time);
        assert(head + time + out.skip(status.len() as int) =~= out) by {
            assert(out.subrange(0, status.len() as int) =~= status);
        }
    }
    if let Some(u) = m.url {
        let ls = seq![status] + seq![indent(u)];
        crate::text::lemma_join_last(ls, "\n"@);
        assert(ls.len() == 2);
        assert(ls.drop_last() =~= seq![status]);
        assert(join(ls.drop_last(), "\n"@) == status);
        assert(out =~= status + "\n"@ + indent(u));
        reveal_strlit("\n  ");
        reveal_strlit("\n");
        reveal_strlit("  ");
        assert("\n"@ + indent(u) =~= "\n  "@ + u);
        assert(out.subrange(out.len() - ("\n  "@ + u).len(), out.len() as int) =~= "\n  "@ + u);
    }
}

/// The number of files on an upload line is read back: after any output,
/// the line `Uploaded <n> files` gives `n` files, for every `usize` `n`.
pub proof fn lemma_pages_upload_count(a: Seq<char>, n: usize)
    ensures
        parse_pages(a + seq!['\n'] + ("Uploaded "@ + decimal(n as nat) + " files"@)).files_uploaded
            == Some(n),
{
    let d = decimal(n as nat);
    let up = "Uploaded"@;
    let fi = "files"@;
    reveal_strlit("Uploaded ");
    reveal_strlit("Uploaded");
    reveal_strlit(" files");
    reveal_strlit("files");
    let line = "Uploaded "@ + d + " files"@;
    crate::text::lemma_decimal_digits(n as nat);
    crate::text::lemma_decimal_reads_back(n);
    assert(line =~= up + seq![' '] + (d + seq![' '] + fi));
    // No escape character and no line feed in the line.
    assert forall|i: int| 0 <= i < line.len() implies line[i] != '\x1b' && line[i] != '\n'
        && (i < 8 || 9 <= i < 9 + d.len() || i > 9 + d.len() ==> !ws(line[i])) by {
        if 9 <= i < 9 + d.len() {
            assert(line[i] == d[i - 9]);
            assert(is_digit(d[i - 9]));
        }
    }
    assert(!line.contains('\x1b'));
    assert(!line.contains('\n'));
    crate::ansi::lemma_strip_ansi_plain(line);
    // The line is its own trim.
    assert(!ws(line[0]));
    assert(crate::text::trim_start(line) == line);
    assert(!ws(line.last()));
    assert(crate::text::trim_end(line) == line);
    assert(trimmed(line) == line);
    // It mentions `Uploaded` and `files`.
    assert(line.subrange(0, 8) =~= up);
    assert(crate::text::occurs_at(line, up, 0));
    assert(line.subrange(line.len() - 5, line.len() as int) =~= fi);
    assert(crate::text::occurs_at(line, fi, line.len() - 5));
    // Its words.
    assert(crate::text::no_blank(up));
    assert(crate::text::no_blank(fi));
    assert(crate::text::no_blank(d)) by {
        assert forall|i: int| 0 <= i < d.len() implies !ws(#[trigger] d[i]) by {
            assert(is_digit(d[i]));
        }
    }
    crate::text::lemma_words_word_then_blank(up, ' ', d + seq![' '] + fi, Seq::empty());
    crate::text::lemma_words_word_then_blank(d, ' ', fi, Seq::empty());
    crate::text::lemma_words_last(fi, Seq::empty());
    assert(Seq::<char>::empty() + up =~= up);
    assert(Seq::<char>::empty() + d =~= d);
    assert(Seq::<char>::empty() + fi =~= fi);
    let ws_ = words_of(line);
    assert(ws_ =~= seq![up] + (seq![d] + seq![fi]));
    assert(parse_usize(up) is None) by {
        assert(up[0] == 'U');
        assert(!is_digit(up[0]));
    }
    assert(ws_.drop_first() =~= seq![d] + seq![fi]);
    assert(ws_[0] == up);
    assert(ws_.drop_first()[0] == d);
    assert(first_number(ws_.drop_first()) == Some(n));
    assert(first_number(ws_) == Some(n));
    lemma_pages_reads_line_by_line(a, line);
}


/// The number read from a line is its first word that reads as a number.
pub proof fn lemma_first_number_is_first_match(ws: Seq<Seq<char>>)
    ensures
        first_number(ws) matches Some(n) ==> exists|k: int|
            0 <= k < ws.len() && parse_usize(#[trigger] ws[k]) == Some(n) && forall|j: int|
                0 <= j < k ==> parse_usize(#[trigger] ws[j]) is None,
        first_number(ws) is None ==> forall|k: int|
            0 <= k < ws.len() ==> parse_usize(#[trigger] ws[k]) is None,
    decreases ws.len(),
{
    if ws.len() > 0 {
        let rest = ws.drop_first();
        lemma_first_number_is_first_match(rest);
        if parse_usize(ws[0]) is None {
            if let Some(n) = first_number(ws) {
                let k = choose|k: int|
                    0 <= k < rest.len() && parse_usize(#[trigger] rest[k]) == Some(n) && forall|j: int|
                        0 <= j < k ==> parse_usize(#[trigger] rest[j]) is None;
                assert(ws[k + 1] == rest[k]);
                assert forall|j: int| 0 <= j < k + 1 implies parse_usize(#[trigger] ws[j]) is None by {
                    if j > 0 {
                        assert(ws[j] == rest[j - 1]);
                    }
                }
            } else {
                assert forall|k: int| 0 <= k < ws.len() implies parse_usize(#[trigger] ws[k]) is None by {
                    if k > 0 {
                        assert(ws[k] == rest[k - 1]);
                    }
                }
            }
        }
    }
}

/// The URL read from a line is its first word that starts with `https://`.
pub proof fn lemma_first_url_is_first_match(ws: Seq<Seq<char>>)
    ensures
        first_url(ws) matches Some(u) ==> exists|k: int|
            0 <= k < ws.len() && #[trigger] ws[k] == u && "https://"@.is_prefix_of(u) && forall|j: int|
                0 <= j < k ==> !"https://"@.is_prefix_of(#[trigger] ws[j]),
        first_url(ws) is None ==> forall|k: int|
            0 <= k < ws.len() ==> !"https://"@.is_prefix_of(#[trigger] ws[k]),
    decreases ws.len(),
{
    if ws.len() > 0 {
        let rest = ws.drop_first();
        lemma_first_url_is_first_match(rest);
        if !"https://"@.is_prefix_of(ws[0]) {
            if let Some(u) = first_url(ws) {
                let k = choose|k: int|
                    0 <= k < rest.len() && #[trigger] rest[k] == u && "https://"@.is_prefix_of(u)
                        && forall|j: int| 0 <= j < k ==> !"https://"@.is_prefix_of(#[trigger] rest[j]);
                assert(ws[k + 1] == rest[k]);
                assert forall|j: int| 0 <= j < k + 1 implies !"https://"@.is_prefix_of(
                    #[trigger] ws[j],
                ) by {
                    if j > 0 {
                        assert(ws[j] == rest[j - 1]);
                    }
                }
            } else {
                assert forall|k: int| 0 <= k < ws.len() implies !"https://"@.is_prefix_of(
                    #[trigger] ws[k],
                ) by {
                    if k > 0 {
                        assert(ws[k] == rest[k - 1]);
                    }
                }
            }
        }
    }
}


proof fn lemma_pages_fold_errors(ls: Seq<Seq<char>>)
    ensures
        pages_fold(ls).errors == trim_all(ls).filter(error_pred()),
    decreases ls.len(),
{
    reveal_with_fuel(Seq::<_>::filter, 1);
    if ls.len() == 0 {
        assert(trim_all(ls) =~= Seq::<Seq<char>>::empty());
    } else {
        lemma_pages_fold_errors(ls.drop_last());
        lemma_trim_all_drop_last(ls);
    }
}

/// The errors read from a pages deploy's output are exactly its lines
/// (without escape sequences, trimmed) that hold `[ERROR]` or start with
/// `✘` or `Error:`, each kept, in order.
pub proof fn lemma_pages_errors(s: Seq<char>)
    ensures
        parse_pages(s).errors == clean_lines(s).filter(error_pred()),
{
    lemma_pages_fold_errors(lines_of(strip_ansi_text(s)));
}

/// A failed pages deploy's summary holds every error line, indented by two
/// spaces.
pub proof fn lemma_pages_failure_lists_errors(s: Seq<char>)
    requires
        parse_pages(s).errors.len() > 0,
    ensures
        forall|k: int|
            0 <= k < parse_pages(s).errors.len() ==> has_infix(
                filter_pages(s),
                "  "@ + #[trigger] parse_pages(s).errors[k],
            ),
{
    let m = parse_pages(s);
    let ls = seq!["✘ wrangler pages deploy failed"@] + crate::report::indent_all(m.errors);
    assert forall|k: int| 0 <= k < m.errors.len() implies has_infix(
        filter_pages(s),
        "  "@ + #[trigger] m.errors[k],
    ) by {
        assert(ls[k + 1] == "  "@ + m.errors[k]);
        crate::text::lemma_join_contains(ls, "\n"@, k + 1);
    }
}

/// A line `<word> <url>` at the end of the output, for a word that does
/// not start with `https://` and a URL that does, neither holding white
/// space, escape characters or line feeds, makes the URL read exactly that
/// URL, whatever came before.
pub proof fn lemma_pages_url_line(a: Seq<char>, w: Seq<char>, u: Seq<char>)
    requires
        w.len() > 0,
        crate::text::no_blank(w),
        crate::text::no_blank(u),
        !"https://"@.is_prefix_of(w),
        "https://"@.is_prefix_of(u),
        !w.contains('\x1b'),
        !w.contains('\n'),
        !u.contains('\x1b'),
        !u.contains('\n'),
    ensures
        parse_pages(a + seq!['\n'] + (w + seq![' '] + u)).url == Some(u),
{
    let h = "https://"@;
    reveal_strlit("https://");
    let line = w + seq![' '] + u;
    assert(u.len() >= 8);
    assert(!seq![' '].contains('\x1b') && !seq![' '].contains('\n'));
    crate::text::lemma_concat_lacks(w, seq![' '], '\x1b');
    crate::text::lemma_concat_lacks(w + seq![' '], u, '\x1b');
    crate::text::lemma_concat_lacks(w, seq![' '], '\n');
    crate::text::lemma_concat_lacks(w + seq![' '], u, '\n');
    assert(line[0] == w[0]);
    assert(!ws(w[0]));
    assert(line.last() == u.last());
    assert(!ws(u[u.len() - 1]));
    crate::report::lemma_plain_line(line);
    lemma_pages_reads_line_by_line(a, line);
    let at = w.len() + 1int;
    assert(line.subrange(at, at + h.len()) =~= u.subrange(0, h.len() as int));
    assert(crate::text::occurs_at(line, h, at));
    assert(has_infix(line, h));
    crate::text::lemma_words_word_then_blank(w, ' ', u, Seq::empty());
    crate::text::lemma_words_last(u, Seq::empty());
    assert(Seq::<char>::empty() + w =~= w);
    assert(Seq::<char>::empty() + u =~= u);
    let wd = words_of(line);
    assert(wd =~= seq![w] + seq![u]);
    assert(wd[0] == w);
    assert(wd.drop_first()[0] == u);
    assert(first_url(wd.drop_first()) == Some(u));
    assert(first_url(wd) == Some(u));
}


/// The upload line `Uploaded <n> files (<time>)` at the end of the output,
/// for every `usize` `n` and a time without `)`, escape characters or line
/// feeds, makes the number of files read exactly `n` and the upload time
/// the time, trimmed, whatever came before.
pub proof fn lemma_pages_upload_line(a: Seq<char>, n: usize, time: Seq<char>)
    requires
        !time.contains(')'),
        !time.contains('\x1b'),
        !time.contains('\n'),
    ensures
        parse_pages(
            a + seq!['\n'] + ("Uploaded "@ + decimal(n as nat) + " files ("@ + time + ")"@),
        ).files_uploaded == Some(n),
        parse_pages(
            a + seq!['\n'] + ("Uploaded "@ + decimal(n as nat) + " files ("@ + time + ")"@),
        ).upload_time == Some(trimmed(time)),
{
    let d = decimal(n as nat);
    let up = "Uploaded"@;
    let up_ = "Uploaded "@;
    let fl = " files ("@;
    let fi = "files"@;
    let cl = ")"@;
    reveal_strlit("Uploaded ");
    reveal_strlit("Uploaded");
    reveal_strlit(" files (");
    reveal_strlit("files");
    reveal_strlit(")");
    let line = up_ + d + fl + time + cl;
    crate::text::lemma_decimal_digits(n as nat);
    crate::text::lemma_decimal_reads_back(n);
    let dl = d.len() as int;
    assert forall|i: int| 0 <= i < dl implies d[i] != '\x1b' && d[i] != '\n' && d[i] != '(' && !ws(
        #[trigger] d[i],
    ) by {
        assert(is_digit(d[i]));
    }
    assert(!d.contains('\x1b') && !d.contains('\n'));
    assert(!up_.contains('\x1b') && !up_.contains('\n')) by {
        assert forall|i: int| 0 <= i < up_.len() implies up_[i] != '\x1b' && up_[i] != '\n' by {}
    }
    assert(!fl.contains('\x1b') && !fl.contains('\n')) by {
        assert forall|i: int| 0 <= i < fl.len() implies fl[i] != '\x1b' && fl[i] != '\n' by {}
    }
    assert(!cl.contains('\x1b') && !cl.contains('\n')) by {
        assert forall|i: int| 0 <= i < cl.len() implies cl[i] != '\x1b' && cl[i] != '\n' by {}
    }
    crate::text::lemma_concat_lacks(up_, d, '\x1b');
    crate::text::lemma_concat_lacks(up_ + d, fl, '\x1b');
    crate::text::lemma_concat_lacks(up_ + d + fl, time, '\x1b');
    crate::text::lemma_concat_lacks(up_ + d + fl + time, cl, '\x1b');
    crate::text::lemma_concat_lacks(up_, d, '\n');
    crate::text::lemma_concat_lacks(up_ + d, fl, '\n');
    crate::text::lemma_concat_lacks(up_ + d + fl, time, '\n');
    crate::text::lemma_concat_lacks(up_ + d + fl + time, cl, '\n');
    assert(line[0] == 'U');
    assert(line.last() == ')');
    crate::report::lemma_plain_line(line);
    lemma_pages_reads_line_by_line(a, line);
    // `Uploaded` and `files` occur in the line.
    assert(line.subrange(0, 8) =~= up);
    assert(crate::text::occurs_at(line, up, 0));
    assert(line.subrange(10 + dl, 15 + dl) =~= fi);
    assert(crate::text::occurs_at(line, fi, 10 + dl));
    // Its first two words are `Uploaded` and the number.
    let rest = fl.skip(1) + time + cl;
    assert(line =~= up + seq![' '] + (d + seq![' '] + rest));
    assert(crate::text::no_blank(up));
    assert(crate::text::no_blank(d));
    crate::text::lemma_words_word_then_blank(up, ' ', d + seq![' '] + rest, Seq::empty());
    crate::text::lemma_words_word_then_blank(d, ' ', rest, Seq::empty());
    assert(Seq::<char>::empty() + up =~= up);
    assert(Seq::<char>::empty() + d =~= d);
    let wd = words_of(line);
    assert(wd =~= seq![up] + (seq![d] + words_of(rest)));
    assert(wd[0] == up);
    assert(parse_usize(up) is None) by {
        assert(up[0] == 'U');
        assert(!is_digit(up[0]));
    }
    assert(wd.drop_first()[0] == d);
    assert(first_number(wd.drop_first()) == Some(n));
    assert(first_number(wd) == Some(n));
    // The time between the parentheses.
    let p = 9 + dl + 7;
    assert(line[p] == '(');
    assert forall|j: int| 0 <= j < p implies line[j] != '(' by {
        if 9 <= j < 9 + dl {
            assert(line[j] == d[j - 9]);
        }
    }
    crate::text::lemma_find_char_first(line, '(', p);
    let tp = line.skip(p + 1);
    assert(tp =~= time + cl);
    assert(tp[time.len() as int] == ')');
    assert forall|j: int| 0 <= j < time.len() implies tp[j] != ')' by {
        assert(tp[j] == time[j]);
    }
    crate::text::lemma_find_char_first(tp, ')', time.len() as int);
    assert(tp.take(time.len() as int) =~= time);
}

} // verus!
