//! `wrangler deploy`: the output read into its parts, the binding types it
//! names, and the compact summary printed in its place.
use vstd::prelude::*;
use crate::ansi::{strip_ansi_chars, strip_ansi_text};
use crate::report::{clean_lines, error_pred, error_line, failure_report, indent_all, starts_with_pred, trim_all, lemma_trim_all_drop_last, is_error_line, push_indented, render_failure};
use crate::text::{
    ws, chars_of, contains, contains_text, decimal, decimal_chars, find, find_char, has_infix, join,
    join_chars, lemma_find_char_sound, lines_of, opt_view, push_chars, push_str, push_string,
    skip_of, slice_of, split_lines, starts_with, string_chars, string_from, strings_view, strip_prefix,
    to_strings, trim, trimmed, views,
};

verus! {

/// The output of `wrangler deploy` read into its parts.
#[derive(Debug)]
pub struct DeployResult {
    pub worker_name: Option<String>,
    pub upload_size: Option<String>,
    pub gzip_size: Option<String>,
    pub deploy_time: Option<String>,
    pub urls: Vec<String>,
    pub version_id: Option<String>,
    pub warnings: Vec<String>,
    pub schedules: Vec<String>,
    pub errors: Vec<String>,
}

/// The contents of a [`DeployResult`].
pub struct DeployModel {
    pub worker_name: Option<Seq<char>>,
    pub upload_size: Option<Seq<char>>,
    pub gzip_size: Option<Seq<char>>,
    pub deploy_time: Option<Seq<char>>,
    pub urls: Seq<Seq<char>>,
    pub version_id: Option<Seq<char>>,
    pub warnings: Seq<Seq<char>>,
    pub schedules: Seq<Seq<char>>,
    pub errors: Seq<Seq<char>>,
}

impl View for DeployResult {
    type V = DeployModel;

    open spec fn view(&self) -> DeployModel {
        DeployModel {
            worker_name: opt_view(self.worker_name),
            upload_size: opt_view(self.upload_size),
            gzip_size: opt_view(self.gzip_size),
            deploy_time: opt_view(self.deploy_time),
            urls: strings_view(self.urls@),
            version_id: opt_view(self.version_id),
            warnings: strings_view(self.warnings@),
            schedules: strings_view(self.schedules@),
            errors: strings_view(self.errors@),
        }
    }
}

// ───────────────────────────── reading the output ─────────────────────────────

/// Nothing found yet.
pub open spec fn empty_deploy() -> DeployModel {
    DeployModel {
        worker_name: None,
        upload_size: None,
        gzip_size: None,
        deploy_time: None,
        urls: Seq::empty(),
        version_id: None,
        warnings: Seq::empty(),
        schedules: Seq::empty(),
        errors: Seq::empty(),
    }
}

/// `Uploaded my-worker (1.23 sec)`, where `rest` is what follows `Uploaded `:
/// the worker's name, and the time between the parentheses.
pub open spec fn read_uploaded(m: DeployModel, rest: Seq<char>) -> DeployModel {
    match find_char(rest, '(') {
        Some(p) => {
            let time_part = rest.skip(p + 1);
            DeployModel {
                worker_name: Some(trimmed(rest.take(p))),
                deploy_time: match find_char(time_part, ')') {
                    Some(e) => Some(trimmed(time_part.take(e))),
                    None => m.deploy_time,
                },
                ..m
            }
        },
        None => DeployModel { worker_name: Some(trimmed(rest)), ..m },
    }
}

/// `Total Upload: 45.67 KiB / gzip: 12.34 KiB`, where `after` is what follows
/// `Total Upload:`: the upload size, and the size after `gzip:`.
pub open spec fn read_total_upload(m: DeployModel, after: Seq<char>) -> DeployModel {
    let rest = trimmed(after);
    match find_char(rest, '/') {
        Some(k) => {
            let gzip_part = trimmed(rest.skip(k + 1));
            DeployModel {
                upload_size: Some(trimmed(rest.take(k))),
                gzip_size: if "gzip:"@.is_prefix_of(gzip_part) {
                    Some(trimmed(gzip_part.skip("gzip:"@.len() as int)))
                } else {
                    m.gzip_size
                },
                ..m
            }
        },
        None => DeployModel { upload_size: Some(rest), ..m },
    }
}

/// A line that warns: it holds `[WARNING]` or `[WARN]`.
pub open spec fn is_warning_line(t: Seq<char>) -> bool {
    has_infix(t, "[WARNING]"@) || has_infix(t, "[WARN]"@)
}

/// What the trimmed line `t` adds to what was found before it.
pub open spec fn deploy_step(m: DeployModel, t: Seq<char>) -> DeployModel {
    let m1 = if "Uploaded "@.is_prefix_of(t) {
        read_uploaded(m, t.skip("Uploaded "@.len() as int))
    } else {
        m
    };
    let m2 = if "Total Upload:"@.is_prefix_of(t) {
        read_total_upload(m1, t.skip("Total Upload:"@.len() as int))
    } else {
        m1
    };
    let m3 = if "https://"@.is_prefix_of(t) {
        DeployModel { urls: m2.urls.push(t), ..m2 }
    } else {
        m2
    };
    let m4 = if "Current Version ID:"@.is_prefix_of(t) {
        DeployModel {
            version_id: Some(trimmed(t.skip("Current Version ID:"@.len() as int))),
            ..m3
        }
    } else {
        m3
    };
    let m5 = if "schedule:"@.is_prefix_of(t) {
        DeployModel { schedules: m4.schedules.push(t), ..m4 }
    } else {
        m4
    };
    let m6 = if is_warning_line(t) {
        DeployModel { warnings: m5.warnings.push(t), ..m5 }
    } else {
        m5
    };
    if is_error_line(t) {
        DeployModel { errors: m6.errors.push(t), ..m6 }
    } else {
        m6
    }
}

/// What the lines `ls`, each trimmed, give when read in order.
pub open spec fn deploy_fold(ls: Seq<Seq<char>>) -> DeployModel
    decreases ls.len(),
{
    if ls.len() == 0 {
        empty_deploy()
    } else {
        deploy_step(deploy_fold(ls.drop_last()), trimmed(ls.last()))
    }
}

/// What the output `s` of `wrangler deploy` gives: its lines, without
/// terminal escape sequences and trimmed, read in order.
pub open spec fn parse_deploy(s: Seq<char>) -> DeployModel {
    deploy_fold(lines_of(strip_ansi_text(s)))
}

fn apply_uploaded(r: DeployResult, rest: &Vec<char>) -> (out: DeployResult)
    ensures
        out@ == read_uploaded(r@, rest@),
{
    let mut r = r;
    match find(rest, '(') {
        Some(p) => {
            proof {
                lemma_find_char_sound(rest@, '(');
            }
            assert(p < rest.len());
            let name = trim(&slice_of(rest, 0, p));
            r.worker_name = Some(string_from(&name));
            let time_part = skip_of(rest, p + 1);
            match find(&time_part, ')') {
                Some(e) => {
                    proof {
                        lemma_find_char_sound(time_part@, ')');
                    }
                    let t = trim(&slice_of(&time_part, 0, e));
                    r.deploy_time = Some(string_from(&t));
                },
                None => {},
            }
            r
        },
        None => {
            let name = trim(rest);
            r.worker_name = Some(string_from(&name));
            r
        },
    }
}

fn apply_total_upload(r: DeployResult, after: &Vec<char>) -> (out: DeployResult)
    ensures
        out@ == read_total_upload(r@, after@),
{
    let mut r = r;
    let rest = trim(after);
    match find(&rest, '/') {
        Some(k) => {
            proof {
                lemma_find_char_sound(rest@, '/');
            }
            assert(k < rest.len());
            let size = trim(&slice_of(&rest, 0, k));
            r.upload_size = Some(string_from(&size));
            let gzip_part = trim(&skip_of(&rest, k + 1));
            match strip_prefix(&gzip_part, "gzip:") {
                Some(g) => {
                    let g = trim(&g);
                    r.gzip_size = Some(string_from(&g));
                },
                None => {},
            }
            r
        },
        None => {
            r.upload_size = Some(string_from(&rest));
            r
        },
    }
}

fn apply_deploy_line(r: DeployResult, t: &Vec<char>) -> (out: DeployResult)
    ensures
        out@ == deploy_step(r@, t@),
{
    let mut r = r;
    match strip_prefix(t, "Uploaded ") {
        Some(rest) => {
            r = apply_uploaded(r, &rest);
        },
        None => {},
    }
    match strip_prefix(t, "Total Upload:") {
        Some(rest) => {
            r = apply_total_upload(r, &rest);
        },
        None => {},
    }
    if starts_with(t, "https://") {
        push_string(&mut r.urls, t);
    }
    match strip_prefix(t, "Current Version ID:") {
        Some(rest) => {
            let v = trim(&rest);
            r.version_id = Some(string_from(&v));
        },
        None => {},
    }
    if starts_with(t, "schedule:") {
        push_string(&mut r.schedules, t);
    }
    if contains(t, "[WARNING]") || contains(t, "[WARN]") {
        push_string(&mut r.warnings, t);
    }
    if error_line(t) {
        push_string(&mut r.errors, t);
    }
    r
}

/// Reads the output of `wrangler deploy`: for each of its lines, without
/// terminal escape sequences and trimmed, in order, the worker's name and
/// deploy time (`Uploaded name (time)`), the upload and gzip sizes
/// (`Total Upload: size / gzip: size`), the URLs (lines starting
/// `https://`), the version (`Current Version ID: id`), the schedules
/// (lines starting `schedule:`), the warnings and the errors. A later line
/// overwrites what an earlier one set.
pub fn parse_deploy_output(output: &str) -> (r: DeployResult)
    ensures
        r@ == parse_deploy(output@),
{
    let clean = strip_ansi_chars(&chars_of(output));
    let lines = split_lines(&clean);
    let mut r = DeployResult {
        worker_name: None,
        upload_size: None,
        gzip_size: None,
        deploy_time: None,
        urls: Vec::new(),
        version_id: None,
        warnings: Vec::new(),
        schedules: Vec::new(),
        errors: Vec::new(),
    };
    assert(r@ =~= empty_deploy()) by {
        assert(strings_view(r.urls@) =~= Seq::empty());
        assert(strings_view(r.warnings@) =~= Seq::empty());
        assert(strings_view(r.schedules@) =~= Seq::empty());
        assert(strings_view(r.errors@) =~= Seq::empty());
    }
    assert(views(lines@).take(0) =~= Seq::empty());
    for i in 0..lines.len()
        invariant
            views(lines@) == lines_of(clean@),
            clean@ == strip_ansi_text(output@),
            r@ == deploy_fold(views(lines@).take(i as int)),
    {
        let t = trim(&lines[i]);
        assert(views(lines@).take(i + 1).drop_last() =~= views(lines@).take(i as int));
        assert(views(lines@).take(i + 1).last() == lines@[i as int]@);
        r = apply_deploy_line(r, &t);
    }
    assert(views(lines@).take(lines.len() as int) =~= views(lines@));
    r
}


// ───────────────────────────── binding types ─────────────────────────────

/// The binding kinds that `wrangler` lists, each with the short name the
/// summary gives it.
pub open spec fn binding_table() -> Seq<(Seq<char>, Seq<char>)> {
    seq![
        ("KV Namespaces"@, "KV"@),
        ("D1 Databases"@, "D1"@),
        ("R2 Buckets"@, "R2"@),
        ("Durable Objects"@, "DO"@),
        ("Service Bindings"@, "Service"@),
        ("Queue Producers"@, "Queue"@),
        ("Queue Consumers"@, "Queue"@),
        ("Analytics Engine"@, "AE"@),
        ("Vectorize Indexes"@, "Vectorize"@),
        ("Hyperdrive Configs"@, "Hyperdrive"@),
        ("AI"@, "AI"@),
        ("Browser"@, "Browser"@),
        ("Vars"@, "Vars"@),
    ]
}

/// The table of binding kinds and short names.
fn binding_names() -> (t: Vec<(&'static str, &'static str)>)
    ensures
        t@.len() == binding_table().len(),
        forall|j: int|
            0 <= j < t@.len() ==> (#[trigger] t@[j].0@, t@[j].1@) == binding_table()[j],
{
    let mut t: Vec<(&'static str, &'static str)> = Vec::new();
    t.push(("KV Namespaces", "KV"));
    t.push(("D1 Databases", "D1"));
    t.push(("R2 Buckets", "R2"));
    t.push(("Durable Objects", "DO"));
    t.push(("Service Bindings", "Service"));
    t.push(("Queue Producers", "Queue"));
    t.push(("Queue Consumers", "Queue"));
    t.push(("Analytics Engine", "AE"));
    t.push(("Vectorize Indexes", "Vectorize"));
    t.push(("Hyperdrive Configs", "Hyperdrive"));
    t.push(("AI", "AI"));
    t.push(("Browser", "Browser"));
    t.push(("Vars", "Vars"));
    t
}

/// The short names found so far, `acc`, after the first `n` kinds of the
/// table have been looked for in the line `t`: each kind that `t` mentions
/// adds its short name, unless that name is already there.
pub open spec fn binding_scan(acc: Seq<Seq<char>>, t: Seq<char>, n: nat) -> Seq<Seq<char>>
    decreases n,
{
    if n == 0 {
        acc
    } else {
        let prev = binding_scan(acc, t, (n - 1) as nat);
        let entry = binding_table()[n - 1];
        if has_infix(t, entry.0) && !prev.contains(entry.1) {
            prev.push(entry.1)
        } else {
            prev
        }
    }
}

/// What the trimmed line `t` adds to the short names found before it: only a
/// list item (a line starting `- `) adds any.
pub open spec fn binding_step(acc: Seq<Seq<char>>, t: Seq<char>) -> Seq<Seq<char>> {
    if "- "@.is_prefix_of(t) {
        binding_scan(acc, t, binding_table().len())
    } else {
        acc
    }
}

/// The short names that the lines `ls`, each trimmed, give when read in order.
pub open spec fn binding_fold(ls: Seq<Seq<char>>) -> Seq<Seq<char>>
    decreases ls.len(),
{
    if ls.len() == 0 {
        Seq::empty()
    } else {
        binding_step(binding_fold(ls.drop_last()), trimmed(ls.last()))
    }
}

/// The short names of the binding kinds that the list items of the output
/// `s` mention, each once, in the order in which they first appear.
pub open spec fn binding_types(s: Seq<char>) -> Seq<Seq<char>> {
    binding_fold(lines_of(strip_ansi_text(s)))
}

/// `x` is the short name of some binding kind.
pub open spec fn is_binding_short_name(x: Seq<char>) -> bool {
    exists|j: int| 0 <= j < binding_table().len() && (#[trigger] binding_table()[j]).1 == x
}

/// Every name in `ls` is a short name, and none occurs twice.
pub open spec fn distinct_short_names(ls: Seq<Seq<char>>) -> bool {
    &&& ls.no_duplicates()
    &&& forall|i: int| 0 <= i < ls.len() ==> is_binding_short_name(#[trigger] ls[i])
}

/// Scanning a line keeps the short names distinct.
proof fn lemma_binding_scan_distinct(acc: Seq<Seq<char>>, t: Seq<char>, n: nat)
    requires
        distinct_short_names(acc),
        n <= binding_table().len(),
    ensures
        distinct_short_names(binding_scan(acc, t, n)),
    decreases n,
{
    if n > 0 {
        lemma_binding_scan_distinct(acc, t, (n - 1) as nat);
        let prev = binding_scan(acc, t, (n - 1) as nat);
        let entry = binding_table()[n - 1];
        if has_infix(t, entry.0) && !prev.contains(entry.1) {
            let next = prev.push(entry.1);
            assert(is_binding_short_name(entry.1)) by {
                assert(binding_table()[n - 1].1 == entry.1);
            }
            assert forall|i: int, j: int|
                0 <= i < next.len() && 0 <= j < next.len() && i != j implies next[i] != next[j] by {
                if i < prev.len() && j < prev.len() {
                } else if i == prev.len() {
                    assert(prev[j] == next[j]);
                } else {
                    assert(prev[i] == next[i]);
                }
            }
            assert forall|i: int| 0 <= i < next.len() implies is_binding_short_name(
                #[trigger] next[i],
            ) by {
                if i < prev.len() {
                    assert(next[i] == prev[i]);
                }
            }
        }
    }
}

/// The short names found in any lines are distinct.
pub proof fn lemma_binding_fold_distinct(ls: Seq<Seq<char>>)
    ensures
        distinct_short_names(binding_fold(ls)),
    decreases ls.len(),
{
    if ls.len() > 0 {
        lemma_binding_fold_distinct(ls.drop_last());
        let acc = binding_fold(ls.drop_last());
        if "- "@.is_prefix_of(trimmed(ls.last())) {
            lemma_binding_scan_distinct(acc, trimmed(ls.last()), binding_table().len());
        }
    }
}

/// The short names of the binding kinds that the list items (lines starting
/// `- `) of `output` mention, without terminal escape sequences: each name
/// once, in the order in which it first appears. No name occurs twice, and
/// each is the short name of a known kind.
pub fn extract_binding_types(output: &str) -> (r: Vec<String>)
    ensures
        strings_view(r@) == binding_types(output@),
        distinct_short_names(strings_view(r@)),
{
    let clean = strip_ansi_chars(&chars_of(output));
    let lines = split_lines(&clean);
    let table = binding_names();
    let mut acc: Vec<Vec<char>> = Vec::new();
    assert(views(acc@) =~= Seq::empty());
    assert(views(lines@).take(0) =~= Seq::empty());
    for i in 0..lines.len()
        invariant
            views(lines@) == lines_of(clean@),
            clean@ == strip_ansi_text(output@),
            table@.len() == binding_table().len(),
            forall|j: int|
                0 <= j < table@.len() ==> (#[trigger] table@[j].0@, table@[j].1@)
                    == binding_table()[j],
            views(acc@) == binding_fold(views(lines@).take(i as int)),
    {
        let t = trim(&lines[i]);
        assert(views(lines@).take(i + 1).drop_last() =~= views(lines@).take(i as int));
        assert(views(lines@).take(i + 1).last() == lines@[i as int]@);
        if starts_with(&t, "- ") {
            let ghost before = views(acc@);
            for j in 0..table.len()
                invariant
                    table@.len() == binding_table().len(),
                    forall|k: int|
                        0 <= k < table@.len() ==> (#[trigger] table@[k].0@, table@[k].1@)
                            == binding_table()[k],
                    views(acc@) == binding_scan(before, t@, j as nat),
            {
                let (full, short) = table[j];
                assert((table@[j as int].0@, table@[j as int].1@) == binding_table()[j as int]);
                if contains(&t, full) {
                    let sv = chars_of(short);
                    if !contains_text(&acc, &sv) {
                        let ghost prev = views(acc@);
                        acc.push(sv);
                        assert(views(acc@) =~= prev.push(sv@));
                    }
                }
            }
        }
    }
    assert(views(lines@).take(lines.len() as int) =~= views(lines@));
    proof {
        lemma_binding_fold_distinct(views(lines@));
    }
    to_strings(&acc)
}


// ───────────────────────────── the summary ─────────────────────────────

/// `✓ name deployed (time) upload/gzip gzip`: the worker's name (`worker`
/// when none was found), then the deploy time and the sizes that were found.
pub open spec fn deploy_status_line(m: DeployModel) -> Seq<char> {
    let name = match m.worker_name {
        Some(n) => n,
        None => "worker"@,
    };
    let time = match m.deploy_time {
        Some(t) => " ("@ + t + ")"@,
        None => Seq::empty(),
    };
    let size = match (m.upload_size, m.gzip_size) {
        (Some(u), Some(g)) => " "@ + u + "/"@ + g + " gzip"@,
        (Some(u), None) => " "@ + u,
        _ => Seq::empty(),
    };
    "✓ "@ + name + " deployed"@ + time + size
}

/// `⚠ n warning(s) (bindings: a, b)`: the number of warning lines, and the
/// binding types when there are any.
pub open spec fn warning_line(count: nat, bindings: Seq<Seq<char>>) -> Seq<char> {
    let plural = if count == 1 {
        Seq::empty()
    } else {
        "s"@
    };
    let listed = if bindings.len() == 0 {
        Seq::empty()
    } else {
        " (bindings: "@ + join(bindings, ", "@) + ")"@
    };
    "  ⚠ "@ + decimal(count) + " warning"@ + plural + listed
}

/// The lines of the summary of a deploy that reported no error: the status
/// line, the URLs, the schedules, the version, and the warning count.
pub open spec fn deploy_report_lines(m: DeployModel, bindings: Seq<Seq<char>>) -> Seq<Seq<char>> {
    let version = match m.version_id {
        Some(v) => seq!["  version: "@ + v],
        None => Seq::empty(),
    };
    let warned = if m.warnings.len() > 0 {
        seq![warning_line(m.warnings.len(), bindings)]
    } else {
        Seq::empty()
    };
    seq![deploy_status_line(m)] + indent_all(m.urls) + indent_all(m.schedules) + version + warned
}

/// The summary of what was found: the failure report when there are
/// errors; `ok ✓` when no worker name, URL or version was found; the report
/// lines otherwise.
pub open spec fn render_deploy(m: DeployModel, bindings: Seq<Seq<char>>) -> Seq<char> {
    if m.errors.len() > 0 {
        failure_report("✘ wrangler deploy failed"@, m.errors)
    } else if m.worker_name is None && m.urls.len() == 0 && m.version_id is None {
        "ok ✓"@
    } else {
        join(deploy_report_lines(m, bindings), "\n"@)
    }
}

/// The summary of the output `s` of `wrangler deploy`.
pub open spec fn filter_deploy(s: Seq<char>) -> Seq<char> {
    render_deploy(parse_deploy(s), binding_types(s))
}

fn push_opt_text(v: &mut Vec<char>, o: &Option<String>)
    ensures
        final(v)@ == old(v)@ + match opt_view(*o) {
            Some(t) => t,
            None => Seq::empty(),
        },
{
    match o {
        Some(t) => push_chars(v, &string_chars(t)),
        None => {
            assert(old(v)@ + Seq::empty() =~= old(v)@);
        },
    }
}

fn status_line(r: &DeployResult) -> (l: Vec<char>)
    ensures
        l@ == deploy_status_line(r@),
{
    let mut l = chars_of("✓ ");
    match &r.worker_name {
        Some(n) => push_chars(&mut l, &string_chars(n)),
        None => push_str(&mut l, "worker"),
    }
    push_str(&mut l, " deployed");
    let ghost head = l@;
    match &r.deploy_time {
        Some(t) => {
            push_str(&mut l, " (");
            push_chars(&mut l, &string_chars(t));
            push_str(&mut l, ")");
            assert(l@ =~= head + (" ("@ + t@ + ")"@));
        },
        None => {
            assert(l@ =~= head + Seq::empty());
        },
    }
    let ghost head2 = l@;
    match (&r.upload_size, &r.gzip_size) {
        (Some(u), Some(g)) => {
            push_str(&mut l, " ");
            push_chars(&mut l, &string_chars(u));
            push_str(&mut l, "/");
            push_chars(&mut l, &string_chars(g));
            push_str(&mut l, " gzip");
            assert(l@ =~= head2 + (" "@ + u@ + "/"@ + g@ + " gzip"@));
        },
        (Some(u), None) => {
            push_str(&mut l, " ");
            push_chars(&mut l, &string_chars(u));
            assert(l@ =~= head2 + (" "@ + u@));
        },
        _ => {
            assert(l@ =~= head2 + Seq::empty());
        },
    }
    l
}

fn warning_summary(count: usize, bindings: &Vec<String>) -> (l: Vec<char>)
    ensures
        l@ == warning_line(count as nat, strings_view(bindings@)),
{
    let mut l = chars_of("  ⚠ ");
    push_chars(&mut l, &decimal_chars(count));
    push_str(&mut l, " warning");
    let ghost head = l@;
    if count == 1 {
        assert(l@ =~= head + Seq::empty());
    } else {
        push_str(&mut l, "s");
    }
    let ghost head2 = l@;
    if bindings.len() == 0 {
        assert(l@ =~= head2 + Seq::empty());
    } else {
        let mut names: Vec<Vec<char>> = Vec::new();
        for i in 0..bindings.len()
            invariant
                views(names@) == strings_view(bindings@.take(i as int)),
        {
            let ghost before = views(names@);
            names.push(string_chars(&bindings[i]));
            assert(views(names@) =~= before.push(bindings@[i as int]@));
            assert(strings_view(bindings@.take(i + 1)) =~= strings_view(bindings@.take(i as int)).push(
                bindings@[i as int]@,
            ));
        }
        assert(bindings@.take(bindings.len() as int) =~= bindings@);
        push_str(&mut l, " (bindings: ");
        push_chars(&mut l, &join_chars(&names, ", "));
        push_str(&mut l, ")");
        assert(l@ =~= head2 + (" (bindings: "@ + join(strings_view(bindings@), ", "@) + ")"@));
    }
    l
}

/// The summary printed in place of the output of `wrangler deploy`. When an
/// error line was found: `✘ wrangler deploy failed`, then each error line,
/// indented. Otherwise, when no worker name, URL or version was found:
/// `ok ✓`. Otherwise the status line (`✓ name deployed (time) size`), then,
/// indented, each URL, each schedule, the version, and the number of
/// warning lines with the binding types that the output names.
pub fn filter_deploy_output(output: &str) -> (r: String)
    ensures
        r@ == filter_deploy(output@),
{
    let result = parse_deploy_output(output);
    if result.errors.len() > 0 {
        let report = render_failure("✘ wrangler deploy failed", &result.errors);
        return string_from(&report);
    }
    let mut lines: Vec<Vec<char>> = Vec::new();
    lines.push(status_line(&result));
    assert(views(lines@) =~= seq![deploy_status_line(result@)]);
    push_indented(&mut lines, &result.urls);
    push_indented(&mut lines, &result.schedules);
    let ghost head = views(lines@);
    match &result.version_id {
        Some(v) => {
            let mut l = chars_of("  version: ");
            push_chars(&mut l, &string_chars(v));
            lines.push(l);
            assert(views(lines@) =~= head + seq!["  version: "@ + v@]);
        },
        None => {
            assert(views(lines@) =~= head + Seq::empty());
        },
    }
    let bindings = extract_binding_types(output);
    let warning_count = result.warnings.len();
    let ghost head2 = views(lines@);
    if warning_count > 0 {
        lines.push(warning_summary(warning_count, &bindings));
        assert(views(lines@) =~= head2 + seq![
            warning_line(result@.warnings.len(), strings_view(bindings@)),
        ]);
    } else {
        assert(views(lines@) =~= head2 + Seq::empty());
    }
    if result.worker_name.is_none() && result.urls.len() == 0 && result.version_id.is_none() {
        return string_from(&chars_of("ok ✓"));
    }
    string_from(&join_chars(&lines, "\n"))
}


// ───────────────────────────── laws ─────────────────────────────

/// The first character of a text that starts with `p`.
proof fn lemma_first_char_of_prefix(p: Seq<char>, x: Seq<char>)
    requires
        p.len() > 0,
        p.is_prefix_of(x),
    ensures
        x.len() > 0,
        x[0] == p[0],
{
    assert(x.subrange(0, p.len() as int)[0] == x[0]);
}

/// The summary of a deploy reports a failure exactly when an error line was
/// found, and is `ok ✓` exactly when no error line, worker name, URL or
/// version was found.
pub proof fn lemma_deploy_outcome(s: Seq<char>)
    ensures
        "✘ wrangler deploy failed"@.is_prefix_of(filter_deploy(s)) <==> parse_deploy(
            s,
        ).errors.len() > 0,
        filter_deploy(s) == "ok ✓"@ <==> {
            let m = parse_deploy(s);
            &&& m.errors.len() == 0
            &&& m.worker_name is None
            &&& m.urls.len() == 0
            &&& m.version_id is None
        },
{
    let m = parse_deploy(s);
    let b = binding_types(s);
    let out = filter_deploy(s);
    let failed = "✘ wrangler deploy failed"@;
    let ok = "ok ✓"@;
    reveal_strlit("✘ wrangler deploy failed");
    reveal_strlit("ok ✓");
    reveal_strlit("✓ ");
    if m.errors.len() > 0 {
        crate::text::lemma_join_first(seq![failed] + indent_all(m.errors), "\n"@);
        lemma_first_char_of_prefix(failed, out);
        assert(out != ok) by {
            if out == ok {
                assert(ok[0] == 'o');
            }
        }
    } else if m.worker_name is None && m.urls.len() == 0 && m.version_id is None {
        assert(out == ok);
        if failed.is_prefix_of(out) {
            lemma_first_char_of_prefix(failed, out);
        }
    } else {
        let ls = deploy_report_lines(m, b);
        crate::text::lemma_join_first(ls, "\n"@);
        let status = deploy_status_line(m);
        assert(ls[0] == status);
        assert("✓ "@.is_prefix_of(status)) by {
            let name = match m.worker_name {
                Some(n) => n,
                None => "worker"@,
            };
            let time = match m.deploy_time {
                Some(t) => " ("@ + t + ")"@,
                None => Seq::empty(),
            };
            let size = match (m.upload_size, m.gzip_size) {
                (Some(u), Some(g)) => " "@ + u + "/"@ + g + " gzip"@,
                (Some(u), None) => " "@ + u,
                _ => Seq::empty(),
            };
            assert(status =~= "✓ "@ + (name + " deployed"@ + time + size));
        }
        lemma_first_char_of_prefix(status, out);
        lemma_first_char_of_prefix("✓ "@, status);
        assert(out[0] == '✓');
        if failed.is_prefix_of(out) {
            lemma_first_char_of_prefix(failed, out);
        }
        assert(out != ok) by {
            if out == ok {
                assert(ok[0] == 'o');
            }
        }
    }
}


/// A trimmed line that no rule of the deploy reader, and no rule of the
/// binding scan, matches.
pub open spec fn is_deploy_noise(t: Seq<char>) -> bool {
    &&& !"Uploaded "@.is_prefix_of(t)
    &&& !"Total Upload:"@.is_prefix_of(t)
    &&& !"https://"@.is_prefix_of(t)
    &&& !"Current Version ID:"@.is_prefix_of(t)
    &&& !"schedule:"@.is_prefix_of(t)
    &&& !is_warning_line(t)
    &&& !is_error_line(t)
    &&& !"- "@.is_prefix_of(t)
}

/// The output is read line by line: a line put at the end of the output
/// after a line feed changes what is read, and the binding types, by what
/// that line, without escape sequences and trimmed, adds on its own.
pub proof fn lemma_deploy_reads_line_by_line(a: Seq<char>, n: Seq<char>)
    requires
        !n.contains('\n'),
    ensures
        parse_deploy(a + seq!['\n'] + n) == deploy_step(
            parse_deploy(a),
            trimmed(strip_ansi_text(n)),
        ),
        binding_types(a + seq!['\n'] + n) == binding_step(
            binding_types(a),
            trimmed(strip_ansi_text(n)),
        ),
{
    let sn = strip_ansi_text(n);
    crate::ansi::lemma_strip_ansi_line_break(a, n);
    crate::ansi::lemma_strip_ansi_keeps_absent(n, '\n');
    crate::text::lemma_lines_append(strip_ansi_text(a), sn, Seq::empty());
    let ls = lines_of(strip_ansi_text(a));
    assert(ls.push(sn).drop_last() =~= ls);
    assert(ls.push(sn).last() == sn);
}

/// A line that no rule matches (such as the banner, or `Worker Startup
/// Time`), put at the end of the output after a line feed, changes neither
/// what is read from the output, nor the binding types, nor the summary.
pub proof fn lemma_deploy_ignores_noise_line(a: Seq<char>, n: Seq<char>)
    requires
        !n.contains('\n'),
        is_deploy_noise(trimmed(strip_ansi_text(n))),
    ensures
        parse_deploy(a + seq!['\n'] + n) == parse_deploy(a),
        binding_types(a + seq!['\n'] + n) == binding_types(a),
        filter_deploy(a + seq!['\n'] + n) == filter_deploy(a),
{
    lemma_deploy_reads_line_by_line(a, n);
    let t = trimmed(strip_ansi_text(n));
    let m = parse_deploy(a);
    assert(deploy_step(m, t) == m);
}


// ───────────────────────────── laws on what is read and shown ─────────────────────────────

/// Holds `[WARNING]` or `[WARN]`.
pub open spec fn warning_pred() -> spec_fn(Seq<char>) -> bool {
    |t: Seq<char>| has_infix(t, "[WARNING]"@) || has_infix(t, "[WARN]"@)
}

proof fn lemma_deploy_fold_lists(ls: Seq<Seq<char>>)
    ensures
        deploy_fold(ls).urls == trim_all(ls).filter(starts_with_pred("https://"@)),
        deploy_fold(ls).schedules == trim_all(ls).filter(starts_with_pred("schedule:"@)),
        deploy_fold(ls).warnings == trim_all(ls).filter(warning_pred()),
        deploy_fold(ls).errors == trim_all(ls).filter(error_pred()),
    decreases ls.len(),
{
    reveal_with_fuel(Seq::<_>::filter, 1);
    if ls.len() == 0 {
        assert(trim_all(ls) =~= Seq::<Seq<char>>::empty());
    } else {
        lemma_deploy_fold_lists(ls.drop_last());
        lemma_trim_all_drop_last(ls);
    }
}

/// The lists read from a deploy's output keep every line they are made of,
/// in the order of the output: the URLs are exactly its lines (without
/// escape sequences, trimmed) that start with `https://`, the schedules
/// exactly those that start with `schedule:`, the warnings exactly those
/// holding `[WARNING]` or `[WARN]`, and the errors exactly those holding
/// `[ERROR]` or starting with `✘` or `Error:`.
pub proof fn lemma_deploy_lists(s: Seq<char>)
    ensures
        parse_deploy(s).urls == clean_lines(s).filter(starts_with_pred("https://"@)),
        parse_deploy(s).schedules == clean_lines(s).filter(starts_with_pred("schedule:"@)),
        parse_deploy(s).warnings == clean_lines(s).filter(warning_pred()),
        parse_deploy(s).errors == clean_lines(s).filter(error_pred()),
{
    lemma_deploy_fold_lists(lines_of(strip_ansi_text(s)));
}

/// A line put at the end of the output after a line feed, which (without
/// escape sequences, trimmed) starts with `schedule:`, adds exactly itself
/// at the end of the schedules and leaves the earlier ones as they were.
pub proof fn lemma_deploy_schedule_appended(a: Seq<char>, n: Seq<char>)
    requires
        !n.contains('\n'),
        "schedule:"@.is_prefix_of(trimmed(strip_ansi_text(n))),
    ensures
        parse_deploy(a + seq!['\n'] + n).schedules == parse_deploy(a).schedules.push(
            trimmed(strip_ansi_text(n)),
        ),
        parse_deploy(a + seq!['\n'] + n).schedules.len() == parse_deploy(a).schedules.len() + 1,
{
    lemma_deploy_reads_line_by_line(a, n);
}

/// A short name is kept, once found, by scanning a line.
proof fn lemma_binding_scan_keeps(acc: Seq<Seq<char>>, t: Seq<char>, n: nat, x: Seq<char>)
    requires
        acc.contains(x),
        n <= binding_table().len(),
    ensures
        binding_scan(acc, t, n).contains(x),
    decreases n,
{
    if n > 0 {
        lemma_binding_scan_keeps(acc, t, (n - 1) as nat, x);
        let prev = binding_scan(acc, t, (n - 1) as nat);
        let k = choose|k: int| 0 <= k < prev.len() && prev[k] == x;
        assert(prev.push(binding_table()[n - 1].1)[k] == x);
    }
}

/// Scanning a line that mentions kind `j` of the table gives its short name.
proof fn lemma_binding_scan_adds(acc: Seq<Seq<char>>, t: Seq<char>, n: nat, j: int)
    requires
        0 <= j < n <= binding_table().len(),
        has_infix(t, binding_table()[j].0),
    ensures
        binding_scan(acc, t, n).contains(binding_table()[j].1),
    decreases n,
{
    let prev = binding_scan(acc, t, (n - 1) as nat);
    let x = binding_table()[j].1;
    if j == n - 1 {
        if !prev.contains(x) {
            assert(prev.push(x)[prev.len() as int] == x);
        }
    } else {
        lemma_binding_scan_adds(acc, t, (n - 1) as nat, j);
        let k = choose|k: int| 0 <= k < prev.len() && prev[k] == x;
        assert(prev.push(binding_table()[n - 1].1)[k] == x);
    }
}

/// A list item among the lines that mentions kind `j` puts its short name in
/// the result.
proof fn lemma_binding_fold_reports(ls: Seq<Seq<char>>, i: int, j: int)
    requires
        0 <= i < ls.len(),
        0 <= j < binding_table().len(),
        "- "@.is_prefix_of(trimmed(ls[i])),
        has_infix(trimmed(ls[i]), binding_table()[j].0),
    ensures
        binding_fold(ls).contains(binding_table()[j].1),
    decreases ls.len(),
{
    let t = trimmed(ls.last());
    if i == ls.len() - 1 {
        lemma_binding_scan_adds(binding_fold(ls.drop_last()), t, binding_table().len(), j);
    } else {
        assert(ls.drop_last()[i] == ls[i]);
        lemma_binding_fold_reports(ls.drop_last(), i, j);
        if "- "@.is_prefix_of(t) {
            lemma_binding_scan_keeps(
                binding_fold(ls.drop_last()),
                t,
                binding_table().len(),
                binding_table()[j].1,
            );
        }
    }
}

/// Every kind of binding that a list item of the output names is reported
/// under its short name: for a line of the output (without escape
/// sequences, trimmed) that starts with `- `, holding `KV Namespaces` puts
/// `KV` among the binding types, and so for each of the thirteen kinds.
pub proof fn lemma_listed_kinds_reported(s: Seq<char>, i: int)
    requires
        0 <= i < clean_lines(s).len(),
        "- "@.is_prefix_of(clean_lines(s)[i]),
    ensures
        has_infix(clean_lines(s)[i], "KV Namespaces"@) ==> binding_types(s).contains("KV"@),
        has_infix(clean_lines(s)[i], "D1 Databases"@) ==> binding_types(s).contains("D1"@),
        has_infix(clean_lines(s)[i], "R2 Buckets"@) ==> binding_types(s).contains("R2"@),
        has_infix(clean_lines(s)[i], "Durable Objects"@) ==> binding_types(s).contains("DO"@),
        has_infix(clean_lines(s)[i], "Service Bindings"@) ==> binding_types(s).contains(
            "Service"@,
        ),
        has_infix(clean_lines(s)[i], "Queue Producers"@) ==> binding_types(s).contains("Queue"@),
        has_infix(clean_lines(s)[i], "Queue Consumers"@) ==> binding_types(s).contains("Queue"@),
        has_infix(clean_lines(s)[i], "Analytics Engine"@) ==> binding_types(s).contains("AE"@),
        has_infix(clean_lines(s)[i], "Vectorize Indexes"@) ==> binding_types(s).contains(
            "Vectorize"@,
        ),
        has_infix(clean_lines(s)[i], "Hyperdrive Configs"@) ==> binding_types(s).contains(
            "Hyperdrive"@,
        ),
        has_infix(clean_lines(s)[i], "AI"@) ==> binding_types(s).contains("AI"@),
        has_infix(clean_lines(s)[i], "Browser"@) ==> binding_types(s).contains("Browser"@),
        has_infix(clean_lines(s)[i], "Vars"@) ==> binding_types(s).contains("Vars"@),
{
    let ls = lines_of(strip_ansi_text(s));
    assert(clean_lines(s)[i] == trimmed(ls[i]));
    let t = clean_lines(s)[i];
    let tb = binding_table();
    assert(tb[0] == ("KV Namespaces"@, "KV"@));
    assert(tb[1] == ("D1 Databases"@, "D1"@));
    assert(tb[2] == ("R2 Buckets"@, "R2"@));
    assert(tb[3] == ("Durable Objects"@, "DO"@));
    assert(tb[4] == ("Service Bindings"@, "Service"@));
    assert(tb[5] == ("Queue Producers"@, "Queue"@));
    assert(tb[6] == ("Queue Consumers"@, "Queue"@));
    assert(tb[7] == ("Analytics Engine"@, "AE"@));
    assert(tb[8] == ("Vectorize Indexes"@, "Vectorize"@));
    assert(tb[9] == ("Hyperdrive Configs"@, "Hyperdrive"@));
    assert(tb[10] == ("AI"@, "AI"@));
    assert(tb[11] == ("Browser"@, "Browser"@));
    assert(tb[12] == ("Vars"@, "Vars"@));
    if has_infix(t, tb[0].0) {
        lemma_binding_fold_reports(ls, i, 0);
    }
    if has_infix(t, tb[1].0) {
        lemma_binding_fold_reports(ls, i, 1);
    }
    if has_infix(t, tb[2].0) {
        lemma_binding_fold_reports(ls, i, 2);
    }
    if has_infix(t, tb[3].0) {
        lemma_binding_fold_reports(ls, i, 3);
    }
    if has_infix(t, tb[4].0) {
        lemma_binding_fold_reports(ls, i, 4);
    }
    if has_infix(t, tb[5].0) {
        lemma_binding_fold_reports(ls, i, 5);
    }
    if has_infix(t, tb[6].0) {
        lemma_binding_fold_reports(ls, i, 6);
    }
    if has_infix(t, tb[7].0) {
        lemma_binding_fold_reports(ls, i, 7);
    }
    if has_infix(t, tb[8].0) {
        lemma_binding_fold_reports(ls, i, 8);
    }
    if has_infix(t, tb[9].0) {
        lemma_binding_fold_reports(ls, i, 9);
    }
    if has_infix(t, tb[10].0) {
        lemma_binding_fold_reports(ls, i, 10);
    }
    if has_infix(t, tb[11].0) {
        lemma_binding_fold_reports(ls, i, 11);
    }
    if has_infix(t, tb[12].0) {
        lemma_binding_fold_reports(ls, i, 12);
    }
}

/// When a warning was found and the summary is not an error report or
/// `ok ✓`, its last line ends with every binding type of the output, in
/// order, joined by `, `: `" (bindings: " + join(binding_types(s), ", ") +
/// ")"`; and each binding type occurs in the summary.
pub proof fn lemma_deploy_summary_lists_bindings(s: Seq<char>)
    requires
        parse_deploy(s).errors.len() == 0,
        parse_deploy(s).warnings.len() > 0,
        !(parse_deploy(s).worker_name is None && parse_deploy(s).urls.len() == 0 && parse_deploy(
            s,
        ).version_id is None),
        binding_types(s).len() > 0,
    ensures
        (" (bindings: "@ + join(binding_types(s), ", "@) + ")"@).is_suffix_of(filter_deploy(s)),
        forall|i: int|
            0 <= i < binding_types(s).len() ==> has_infix(filter_deploy(s), #[trigger] binding_types(s)[i]),
{
    let m = parse_deploy(s);
    let b = binding_types(s);
    let ls = deploy_report_lines(m, b);
    let out = filter_deploy(s);
    let w = warning_line(m.warnings.len(), b);
    let tail = " (bindings: "@ + join(b, ", "@) + ")"@;
    assert(ls.last() == w);
    crate::text::lemma_join_last(ls, "\n"@);
    let pre = "  ⚠ "@ + decimal(m.warnings.len()) + " warning"@ + (if m.warnings.len() == 1 {
        Seq::empty()
    } else {
        "s"@
    });
    assert(w =~= pre + tail);
    assert(tail.is_suffix_of(out)) by {
        assert(out.subrange(out.len() - w.len(), out.len() as int) =~= w);
        assert(out.subrange(out.len() - tail.len(), out.len() as int) =~= w.subrange(
            w.len() - tail.len(),
            w.len() as int,
        ));
        assert(w.subrange(w.len() - tail.len(), w.len() as int) =~= tail);
    }
    assert forall|i: int| 0 <= i < b.len() implies has_infix(out, #[trigger] b[i]) by {
        crate::text::lemma_join_contains(b, ", "@, i);
        crate::text::lemma_infix_within(" (bindings: "@, join(b, ", "@), ")"@, b[i]);
        crate::text::lemma_infix_within(
            out.subrange(0, out.len() - tail.len()),
            tail,
            Seq::empty(),
            b[i],
        );
        assert(out.subrange(0, out.len() - tail.len()) + tail + Seq::<char>::empty() =~= out);
    }
}


/// A failed deploy's summary holds every error line, indented by two spaces.
pub proof fn lemma_deploy_failure_lists_errors(s: Seq<char>)
    requires
        parse_deploy(s).errors.len() > 0,
    ensures
        forall|k: int|
            0 <= k < parse_deploy(s).errors.len() ==> has_infix(
                filter_deploy(s),
                "  "@ + #[trigger] parse_deploy(s).errors[k],
            ),
{
    let m = parse_deploy(s);
    let ls = seq!["✘ wrangler deploy failed"@] + indent_all(m.errors);
    assert forall|k: int| 0 <= k < m.errors.len() implies has_infix(
        filter_deploy(s),
        "  "@ + #[trigger] m.errors[k],
    ) by {
        assert(ls[k + 1] == "  "@ + m.errors[k]);
        crate::text::lemma_join_contains(ls, "\n"@, k + 1);
    }
}

/// What the status line shows, in the summary text `out` that it starts.
proof fn lemma_status_line_parts(m: DeployModel, out: Seq<char>)
    requires
        deploy_status_line(m).is_prefix_of(out),
    ensures
        ("✓ "@ + (match m.worker_name {
            Some(n) => n,
            None => "worker"@,
        }) + " deployed"@).is_prefix_of(out),
        m.deploy_time matches Some(t) ==> has_infix(out, " ("@ + t + ")"@),
        m.upload_size matches Some(u) ==> has_infix(out, " "@ + u),
        (m.upload_size is Some && m.gzip_size is Some) ==> has_infix(
            out,
            " "@ + m.upload_size->0 + "/"@ + m.gzip_size->0 + " gzip"@,
        ),
{
    let status = deploy_status_line(m);
    let name = match m.worker_name {
        Some(n) => n,
        None => "worker"@,
    };
    let time = match m.deploy_time {
        Some(t) => " ("@ + t + ")"@,
        None => Seq::empty(),
    };
    let size = match (m.upload_size, m.gzip_size) {
        (Some(u), Some(g)) => " "@ + u + "/"@ + g + " gzip"@,
        (Some(u), None) => " "@ + u,
        _ => Seq::empty(),
    };
    let head = "✓ "@ + name + " deployed"@;
    assert(status =~= head + time + size);
    assert(head.is_prefix_of(out)) by {
        assert(out.subrange(0, head.len() as int) =~= status.subrange(0, head.len() as int));
    }
    crate::text::lemma_prefix_infix(status, out);
    if m.deploy_time is Some {
        crate::text::lemma_infix_self(time);
        crate::text::lemma_infix_within(head, time, size, time);
        crate::text::lemma_infix_trans(out, status, time);
    }
    if let Some(u) = m.upload_size {
        let su = " "@ + u;
        crate::text::lemma_infix_self(su);
        crate::text::lemma_infix_within(Seq::empty(), su, size.skip(su.len() as int), su);
        assert(Seq::<char>::empty() + su + size.skip(su.len() as int) =~= size);
        crate::text::lemma_infix_within(head + time, size, Seq::empty(), su);
        assert(head + time + size + Seq::<char>::empty() =~= status);
        crate::text::lemma_infix_trans(out, status, su);
        if m.gzip_size is Some {
            crate::text::lemma_infix_self(size);
            crate::text::lemma_infix_within(head + time, size, Seq::empty(), size);
            crate::text::lemma_infix_trans(out, status, size);
        }
    }
}

/// What the other report lines show, in their joined text.
proof fn lemma_report_lines_parts(m: DeployModel, b: Seq<Seq<char>>)
    ensures
        forall|k: int|
            0 <= k < m.urls.len() ==> has_infix(
                join(deploy_report_lines(m, b), "\n"@),
                "  "@ + #[trigger] m.urls[k],
            ),
        forall|k: int|
            0 <= k < m.schedules.len() ==> has_infix(
                join(deploy_report_lines(m, b), "\n"@),
                "  "@ + #[trigger] m.schedules[k],
            ),
        m.version_id matches Some(v) ==> has_infix(
            join(deploy_report_lines(m, b), "\n"@),
            "  version: "@ + v,
        ),
        m.warnings.len() > 0 ==> has_infix(
            join(deploy_report_lines(m, b), "\n"@),
            warning_line(m.warnings.len(), b),
        ),
{
    let ls = deploy_report_lines(m, b);
    let nl = "\n"@;
    let nu = m.urls.len() as int;
    let ns = m.schedules.len() as int;
    let version = match m.version_id {
        Some(v) => seq!["  version: "@ + v],
        None => Seq::empty(),
    };
    assert forall|k: int| 0 <= k < nu implies has_infix(join(ls, nl), "  "@ + #[trigger] m.urls[k]) by {
        assert(ls[1 + k] == "  "@ + m.urls[k]);
        crate::text::lemma_join_contains(ls, nl, 1 + k);
    }
    assert forall|k: int| 0 <= k < ns implies has_infix(
        join(ls, nl),
        "  "@ + #[trigger] m.schedules[k],
    ) by {
        assert(ls[1 + nu + k] == "  "@ + m.schedules[k]);
        crate::text::lemma_join_contains(ls, nl, 1 + nu + k);
    }
    if let Some(v) = m.version_id {
        assert(ls[1 + nu + ns] == "  version: "@ + v);
        crate::text::lemma_join_contains(ls, nl, 1 + nu + ns);
    }
    if m.warnings.len() > 0 {
        let vl = version.len() as int;
        assert(ls[1 + nu + ns + vl] == warning_line(m.warnings.len(), b));
        crate::text::lemma_join_contains(ls, nl, 1 + nu + ns + vl);
    }
}

/// The warning line shows the number of warnings in decimal.
proof fn lemma_warning_line_count(count: nat, b: Seq<Seq<char>>)
    ensures
        has_infix(warning_line(count, b), "⚠ "@ + decimal(count) + " warning"@),
{
    let w = warning_line(count, b);
    let mid = "⚠ "@ + decimal(count) + " warning"@;
    let plural = if count == 1 {
        Seq::empty()
    } else {
        "s"@
    };
    let listed = if b.len() == 0 {
        Seq::empty()
    } else {
        " (bindings: "@ + join(b, ", "@) + ")"@
    };
    reveal_strlit("  ⚠ ");
    reveal_strlit("⚠ ");
    reveal_strlit("  ");
    assert(w =~= "  "@ + mid + (plural + listed));
    crate::text::lemma_infix_self(mid);
    crate::text::lemma_infix_within("  "@, mid, plural + listed, mid);
}

/// A successful deploy's summary shows what was read: it starts with
/// `✓ <name> deployed` (`worker` when no name was read), and holds the
/// deploy time in parentheses, the upload size (with `/<gzip> gzip` when a
/// gzip size was read), every URL and every schedule indented by two
/// spaces, `  version: <id>`, and `⚠ <count> warning` with the number of
/// warning lines in decimal.
pub proof fn lemma_deploy_summary_shows_findings(s: Seq<char>)
    requires
        parse_deploy(s).errors.len() == 0,
        !(parse_deploy(s).worker_name is None && parse_deploy(s).urls.len() == 0 && parse_deploy(
            s,
        ).version_id is None),
    ensures
        ("✓ "@ + (match parse_deploy(s).worker_name {
            Some(n) => n,
            None => "worker"@,
        }) + " deployed"@).is_prefix_of(filter_deploy(s)),
        parse_deploy(s).deploy_time matches Some(t) ==> has_infix(filter_deploy(s), " ("@ + t + ")"@),
        parse_deploy(s).upload_size matches Some(u) ==> has_infix(filter_deploy(s), " "@ + u),
        (parse_deploy(s).upload_size is Some && parse_deploy(s).gzip_size is Some) ==> has_infix(
            filter_deploy(s),
            " "@ + parse_deploy(s).upload_size->0 + "/"@ + parse_deploy(s).gzip_size->0
                + " gzip"@,
        ),
        forall|k: int|
            0 <= k < parse_deploy(s).urls.len() ==> has_infix(
                filter_deploy(s),
                "  "@ + #[trigger] parse_deploy(s).urls[k],
            ),
        forall|k: int|
            0 <= k < parse_deploy(s).schedules.len() ==> has_infix(
                filter_deploy(s),
                "  "@ + #[trigger] parse_deploy(s).schedules[k],
            ),
        parse_deploy(s).version_id matches Some(v) ==> has_infix(filter_deploy(s), "  version: "@ + v),
        parse_deploy(s).warnings.len() > 0 ==> has_infix(
            filter_deploy(s),
            "⚠ "@ + decimal(parse_deploy(s).warnings.len()) + " warning"@,
        ),
{
    let m = parse_deploy(s);
    let b = binding_types(s);
    let ls = deploy_report_lines(m, b);
    assert(filter_deploy(s) == join(ls, "\n"@));
    assert(ls[0] == deploy_status_line(m));
    crate::text::lemma_join_first(ls, "\n"@);
    lemma_status_line_parts(m, filter_deploy(s));
    lemma_report_lines_parts(m, b);
    if m.warnings.len() > 0 {
        lemma_warning_line_count(m.warnings.len(), b);
        crate::text::lemma_infix_trans(
            filter_deploy(s),
            warning_line(m.warnings.len(), b),
            "⚠ "@ + decimal(m.warnings.len()) + " warning"@,
        );
    }
}


/// A line `Current Version ID: <id>` at the end of the output, for an id
/// without white space, escape characters or line feeds, makes the version
/// read exactly that id, whatever came before.
pub proof fn lemma_deploy_version_line(a: Seq<char>, v: Seq<char>)
    requires
        v.len() > 0,
        crate::text::no_blank(v),
        !v.contains('\x1b'),
        !v.contains('\n'),
    ensures
        parse_deploy(a + seq!['\n'] + ("Current Version ID: "@ + v)).version_id == Some(v),
{
    let lit = "Current Version ID: "@;
    let key = "Current Version ID:"@;
    reveal_strlit("Current Version ID: ");
    reveal_strlit("Current Version ID:");
    let line = lit + v;
    assert(!lit.contains('\x1b') && !lit.contains('\n')) by {
        assert forall|i: int| 0 <= i < lit.len() implies lit[i] != '\x1b' && lit[i] != '\n' by {}
    }
    crate::text::lemma_concat_lacks(lit, v, '\x1b');
    crate::text::lemma_concat_lacks(lit, v, '\n');
    assert(line[0] == 'C');
    assert(line.last() == v.last());
    assert(!ws(v[v.len() - 1]));
    crate::report::lemma_plain_line(line);
    lemma_deploy_reads_line_by_line(a, line);
    assert(line.subrange(0, key.len() as int) =~= key);
    assert(key.is_prefix_of(line));
    assert(line.skip(key.len() as int) =~= seq![' '] + v);
    assert(!ws(v[0]));
    crate::text::lemma_trimmed_plain(v);
}


/// A line `Uploaded <name> (<time>)` at the end of the output, for a name
/// without white space or `(` and a time without `)`, neither holding an
/// escape character or a line feed, makes the worker's name read exactly
/// that name and the deploy time the time, trimmed, whatever came before.
pub proof fn lemma_deploy_uploaded_line(a: Seq<char>, name: Seq<char>, time: Seq<char>)
    requires
        name.len() > 0,
        crate::text::no_blank(name),
        !name.contains('('),
        !name.contains('\x1b'),
        !name.contains('\n'),
        !time.contains(')'),
        !time.contains('\x1b'),
        !time.contains('\n'),
    ensures
        parse_deploy(a + seq!['\n'] + ("Uploaded "@ + name + " ("@ + time + ")"@)).worker_name
            == Some(name),
        parse_deploy(a + seq!['\n'] + ("Uploaded "@ + name + " ("@ + time + ")"@)).deploy_time
            == Some(trimmed(time)),
{
    let up = "Uploaded "@;
    let op = " ("@;
    let cl = ")"@;
    reveal_strlit("Uploaded ");
    reveal_strlit(" (");
    reveal_strlit(")");
    let line = up + name + op + time + cl;
    assert(!up.contains('\x1b') && !up.contains('\n')) by {
        assert forall|i: int| 0 <= i < up.len() implies up[i] != '\x1b' && up[i] != '\n' by {}
    }
    assert(!op.contains('\x1b') && !op.contains('\n')) by {
        assert forall|i: int| 0 <= i < op.len() implies op[i] != '\x1b' && op[i] != '\n' by {}
    }
    assert(!cl.contains('\x1b') && !cl.contains('\n')) by {
        assert forall|i: int| 0 <= i < cl.len() implies cl[i] != '\x1b' && cl[i] != '\n' by {}
    }
    crate::text::lemma_concat_lacks(up, name, '\x1b');
    crate::text::lemma_concat_lacks(up + name, op, '\x1b');
    crate::text::lemma_concat_lacks(up + name + op, time, '\x1b');
    crate::text::lemma_concat_lacks(up + name + op + time, cl, '\x1b');
    crate::text::lemma_concat_lacks(up, name, '\n');
    crate::text::lemma_concat_lacks(up + name, op, '\n');
    crate::text::lemma_concat_lacks(up + name + op, time, '\n');
    crate::text::lemma_concat_lacks(up + name + op + time, cl, '\n');
    assert(line[0] == 'U');
    assert(line.last() == ')');
    crate::report::lemma_plain_line(line);
    lemma_deploy_reads_line_by_line(a, line);
    assert(line.subrange(0, up.len() as int) =~= up);
    assert(up.is_prefix_of(line));
    let rest = line.skip(up.len() as int);
    assert(rest =~= name + op + time + cl);
    let p = name.len() + 1int;
    assert(rest[p] == '(');
    assert forall|j: int| 0 <= j < p implies rest[j] != '(' by {
        if j < name.len() {
            assert(rest[j] == name[j]);
        } else {
            assert(rest[j] == ' ');
        }
    }
    crate::text::lemma_find_char_first(rest, '(', p);
    let nm = rest.take(p);
    assert(nm =~= name.push(' '));
    assert(!ws(name[0]));
    assert(!ws(name[name.len() - 1]));
    assert(crate::text::trim_start(nm) == nm);
    assert(nm.drop_last() =~= name);
    assert(crate::text::trim_end(name) == name);
    assert(crate::text::trim_end(nm) == name);
    let tp = rest.skip(p + 1);
    assert(tp =~= time + cl);
    assert(tp[time.len() as int] == ')');
    assert forall|j: int| 0 <= j < time.len() implies tp[j] != ')' by {
        assert(tp[j] == time[j]);
    }
    crate::text::lemma_find_char_first(tp, ')', time.len() as int);
    assert(tp.take(time.len() as int) =~= time);
}


/// A line `Total Upload: <size> / gzip: <gzip>` at the end of the output,
/// for sizes without white space, escape characters or line feeds and a
/// first size without `/`, makes the upload size read exactly the first
/// size and the gzip size exactly the second, whatever came before.
pub proof fn lemma_deploy_total_upload_line(a: Seq<char>, u: Seq<char>, g: Seq<char>)
    requires
        u.len() > 0,
        g.len() > 0,
        crate::text::no_blank(u),
        crate::text::no_blank(g),
        !u.contains('/'),
        !u.contains('\x1b'),
        !u.contains('\n'),
        !g.contains('\x1b'),
        !g.contains('\n'),
    ensures
        parse_deploy(a + seq!['\n'] + ("Total Upload: "@ + u + " / gzip: "@ + g)).upload_size
            == Some(u),
        parse_deploy(a + seq!['\n'] + ("Total Upload: "@ + u + " / gzip: "@ + g)).gzip_size
            == Some(g),
{
    let lit = "Total Upload: "@;
    let mid = " / gzip: "@;
    let key = "Total Upload:"@;
    let gz = "gzip:"@;
    reveal_strlit("Total Upload: ");
    reveal_strlit(" / gzip: ");
    reveal_strlit("Total Upload:");
    reveal_strlit("gzip:");
    let line = lit + u + mid + g;
    assert(!lit.contains('\x1b') && !lit.contains('\n')) by {
        assert forall|i: int| 0 <= i < lit.len() implies lit[i] != '\x1b' && lit[i] != '\n' by {}
    }
    assert(!mid.contains('\x1b') && !mid.contains('\n')) by {
        assert forall|i: int| 0 <= i < mid.len() implies mid[i] != '\x1b' && mid[i] != '\n' by {}
    }
    crate::text::lemma_concat_lacks(lit, u, '\x1b');
    crate::text::lemma_concat_lacks(lit + u, mid, '\x1b');
    crate::text::lemma_concat_lacks(lit + u + mid, g, '\x1b');
    crate::text::lemma_concat_lacks(lit, u, '\n');
    crate::text::lemma_concat_lacks(lit + u, mid, '\n');
    crate::text::lemma_concat_lacks(lit + u + mid, g, '\n');
    assert(line[0] == 'T');
    assert(line.last() == g.last());
    assert(!ws(g[g.len() - 1]));
    assert(!ws(u[0]));
    assert(!ws(u[u.len() - 1]));
    assert(!ws(g[0]));
    crate::report::lemma_plain_line(line);
    lemma_deploy_reads_line_by_line(a, line);
    assert(line.subrange(0, key.len() as int) =~= key);
    assert(key.is_prefix_of(line));
    let x = u + mid + g;
    assert(line.skip(key.len() as int) =~= seq![' '] + x);
    assert(x[0] == u[0]);
    assert(x.last() == g.last());
    crate::text::lemma_trimmed_plain(x);
    let k = u.len() + 1int;
    assert(x[k] == '/');
    assert forall|j: int| 0 <= j < k implies x[j] != '/' by {
        if j < u.len() {
            assert(x[j] == u[j]);
        } else {
            assert(x[j] == ' ');
        }
    }
    crate::text::lemma_find_char_first(x, '/', k);
    let us = x.take(k);
    assert(us =~= u.push(' '));
    assert(crate::text::trim_start(us) == us);
    assert(us.drop_last() =~= u);
    assert(crate::text::trim_end(u) == u);
    assert(crate::text::trim_end(us) == u);
    let gp = gz + seq![' '] + g;
    assert(x.skip(k + 1) =~= seq![' '] + gp);
    assert(gp[0] == 'g');
    assert(gp.last() == g.last());
    crate::text::lemma_trimmed_plain(gp);
    assert(gp.subrange(0, gz.len() as int) =~= gz);
    assert(gz.is_prefix_of(gp));
    assert(gp.skip(gz.len() as int) =~= seq![' '] + g);
    crate::text::lemma_trimmed_plain(g);
}


/// A line `Uploaded <name>` at the end of the output, for a name without
/// white space, `(`, escape characters or line feeds, makes the worker's
/// name read exactly that name and leaves the deploy time as it was.
pub proof fn lemma_deploy_uploaded_name_only(a: Seq<char>, name: Seq<char>)
    requires
        name.len() > 0,
        crate::text::no_blank(name),
        !name.contains('('),
        !name.contains('\x1b'),
        !name.contains('\n'),
    ensures
        parse_deploy(a + seq!['\n'] + ("Uploaded "@ + name)).worker_name == Some(name),
        parse_deploy(a + seq!['\n'] + ("Uploaded "@ + name)).deploy_time == parse_deploy(
            a,
        ).deploy_time,
{
    let up = "Uploaded "@;
    reveal_strlit("Uploaded ");
    let line = up + name;
    assert(!up.contains('\x1b') && !up.contains('\n')) by {
        assert forall|i: int| 0 <= i < up.len() implies up[i] != '\x1b' && up[i] != '\n' by {}
    }
    crate::text::lemma_concat_lacks(up, name, '\x1b');
    crate::text::lemma_concat_lacks(up, name, '\n');
    assert(line[0] == 'U');
    assert(line.last() == name.last());
    assert(!ws(name[name.len() - 1]));
    assert(!ws(name[0]));
    crate::report::lemma_plain_line(line);
    lemma_deploy_reads_line_by_line(a, line);
    assert(line.subrange(0, up.len() as int) =~= up);
    assert(up.is_prefix_of(line));
    assert(line.skip(up.len() as int) =~= name);
    crate::text::lemma_find_char_none(name, '(');
    crate::text::lemma_trimmed_plain(name);
}

/// A line `Total Upload: <size>` at the end of the output, for a size
/// without white space, `/`, escape characters or line feeds, makes the
/// upload size read exactly that size and leaves the gzip size as it was.
pub proof fn lemma_deploy_total_upload_only(a: Seq<char>, u: Seq<char>)
    requires
        u.len() > 0,
        crate::text::no_blank(u),
        !u.contains('/'),
        !u.contains('\x1b'),
        !u.contains('\n'),
    ensures
        parse_deploy(a + seq!['\n'] + ("Total Upload: "@ + u)).upload_size == Some(u),
        parse_deploy(a + seq!['\n'] + ("Total Upload: "@ + u)).gzip_size == parse_deploy(
            a,
        ).gzip_size,
{
    let lit = "Total Upload: "@;
    let key = "Total Upload:"@;
    reveal_strlit("Total Upload: ");
    reveal_strlit("Total Upload:");
    let line = lit + u;
    assert(!lit.contains('\x1b') && !lit.contains('\n')) by {
        assert forall|i: int| 0 <= i < lit.len() implies lit[i] != '\x1b' && lit[i] != '\n' by {}
    }
    crate::text::lemma_concat_lacks(lit, u, '\x1b');
    crate::text::lemma_concat_lacks(lit, u, '\n');
    assert(line[0] == 'T');
    assert(line.last() == u.last());
    assert(!ws(u[u.len() - 1]));
    assert(!ws(u[0]));
    crate::report::lemma_plain_line(line);
    lemma_deploy_reads_line_by_line(a, line);
    assert(line.subrange(0, key.len() as int) =~= key);
    assert(key.is_prefix_of(line));
    assert(line.skip(key.len() as int) =~= seq![' '] + u);
    crate::text::lemma_trimmed_plain(u);
    crate::text::lemma_find_char_none(u, '/');
}

/// Every short name reported comes from a list item of the output (a line,
/// without escape sequences, trimmed, starting with `- `) that holds the
/// full name of its kind.
proof fn lemma_binding_scan_sound(acc: Seq<Seq<char>>, t: Seq<char>, n: nat, x: Seq<char>)
    requires
        n <= binding_table().len(),
        binding_scan(acc, t, n).contains(x),
    ensures
        acc.contains(x) || exists|j: int|
            0 <= j < n && has_infix(t, (#[trigger] binding_table()[j]).0) && binding_table()[j].1
                == x,
    decreases n,
{
    if n > 0 {
        let prev = binding_scan(acc, t, (n - 1) as nat);
        let e = binding_table()[n - 1];
        if has_infix(t, e.0) && !prev.contains(e.1) && x == e.1 {
        } else {
            if has_infix(t, e.0) && !prev.contains(e.1) {
                let k = choose|k: int| 0 <= k < prev.push(e.1).len() && prev.push(e.1)[k] == x;
                assert(k < prev.len());
                assert(prev[k] == x);
            }
            lemma_binding_scan_sound(acc, t, (n - 1) as nat, x);
        }
    }
}

proof fn lemma_binding_fold_sound(ls: Seq<Seq<char>>, x: Seq<char>)
    requires
        binding_fold(ls).contains(x),
    ensures
        exists|i: int, j: int|
            0 <= i < ls.len() && 0 <= j < binding_table().len() && "- "@.is_prefix_of(
                trimmed(#[trigger] ls[i]),
            ) && has_infix(trimmed(ls[i]), (#[trigger] binding_table()[j]).0)
                && binding_table()[j].1 == x,
    decreases ls.len(),
{
    let prev = binding_fold(ls.drop_last());
    let t = trimmed(ls.last());
    if "- "@.is_prefix_of(t) {
        lemma_binding_scan_sound(prev, t, binding_table().len(), x);
    }
    if prev.contains(x) {
        lemma_binding_fold_sound(ls.drop_last(), x);
        let (i, j) = choose|i: int, j: int|
            0 <= i < ls.drop_last().len() && 0 <= j < binding_table().len() && "- "@.is_prefix_of(
                trimmed(#[trigger] ls.drop_last()[i]),
            ) && has_infix(trimmed(ls.drop_last()[i]), (#[trigger] binding_table()[j]).0)
                && binding_table()[j].1 == x;
        assert(ls[i] == ls.drop_last()[i]);
    } else {
        let j = choose|j: int|
            0 <= j < binding_table().len() && has_infix(t, (#[trigger] binding_table()[j]).0)
                && binding_table()[j].1 == x;
        assert(ls[ls.len() - 1] == ls.last());
    }
}

/// Every binding type reported is the short name of a kind whose full name
/// a list item of the output holds.
pub proof fn lemma_reported_kinds_listed(s: Seq<char>, x: Seq<char>)
    requires
        binding_types(s).contains(x),
    ensures
        exists|i: int, j: int|
            0 <= i < clean_lines(s).len() && 0 <= j < binding_table().len() && "- "@.is_prefix_of(
                #[trigger] clean_lines(s)[i],
            ) && has_infix(clean_lines(s)[i], (#[trigger] binding_table()[j]).0)
                && binding_table()[j].1 == x,
{
    let ls = lines_of(strip_ansi_text(s));
    lemma_binding_fold_sound(ls, x);
    let (i, j) = choose|i: int, j: int|
        0 <= i < ls.len() && 0 <= j < binding_table().len() && "- "@.is_prefix_of(
            trimmed(#[trigger] ls[i]),
        ) && has_infix(trimmed(ls[i]), (#[trigger] binding_table()[j]).0)
            && binding_table()[j].1 == x;
    assert(clean_lines(s)[i] == trimmed(ls[i]));
}


/// Some list item of the output (a line, without escape sequences, trimmed,
/// starting with `- `) holds `full`.
pub open spec fn list_item_mentions(s: Seq<char>, full: Seq<char>) -> bool {
    exists|i: int|
        0 <= i < clean_lines(s).len() && "- "@.is_prefix_of(#[trigger] clean_lines(s)[i])
            && has_infix(clean_lines(s)[i], full)
}

/// Only the thirteen kinds are reported, each under its short name, and
/// only when a list item of the output names the kind.
pub proof fn lemma_reported_kinds_known(s: Seq<char>, x: Seq<char>)
    requires
        binding_types(s).contains(x),
    ensures
        (x == "KV"@ && list_item_mentions(s, "KV Namespaces"@)) || (x == "D1"@
            && list_item_mentions(s, "D1 Databases"@)) || (x == "R2"@ && list_item_mentions(
            s,
            "R2 Buckets"@,
        )) || (x == "DO"@ && list_item_mentions(s, "Durable Objects"@)) || (x == "Service"@
            && list_item_mentions(s, "Service Bindings"@)) || (x == "Queue"@ && list_item_mentions(
            s,
            "Queue Producers"@,
        )) || (x == "Queue"@ && list_item_mentions(s, "Queue Consumers"@)) || (x == "AE"@
            && list_item_mentions(s, "Analytics Engine"@)) || (x == "Vectorize"@
            && list_item_mentions(s, "Vectorize Indexes"@)) || (x == "Hyperdrive"@
            && list_item_mentions(s, "Hyperdrive Configs"@)) || (x == "AI"@ && list_item_mentions(
            s,
            "AI"@,
        )) || (x == "Browser"@ && list_item_mentions(s, "Browser"@)) || (x == "Vars"@
            && list_item_mentions(s, "Vars"@)),
{
    lemma_reported_kinds_listed(s, x);
    let tb = binding_table();
    let (i, j) = choose|i: int, j: int|
        0 <= i < clean_lines(s).len() && 0 <= j < tb.len() && "- "@.is_prefix_of(
            #[trigger] clean_lines(s)[i],
        ) && has_infix(clean_lines(s)[i], (#[trigger] tb[j]).0) && tb[j].1 == x;
    assert(list_item_mentions(s, tb[j].0));
    assert(tb[0] == ("KV Namespaces"@, "KV"@));
    assert(tb[1] == ("D1 Databases"@, "D1"@));
    assert(tb[2] == ("R2 Buckets"@, "R2"@));
    assert(tb[3] == ("Durable Objects"@, "DO"@));
    assert(tb[4] == ("Service Bindings"@, "Service"@));
    assert(tb[5] == ("Queue Producers"@, "Queue"@));
    assert(tb[6] == ("Queue Consumers"@, "Queue"@));
    assert(tb[7] == ("Analytics Engine"@, "AE"@));
    assert(tb[8] == ("Vectorize Indexes"@, "Vectorize"@));
    assert(tb[9] == ("Hyperdrive Configs"@, "Hyperdrive"@));
    assert(tb[10] == ("AI"@, "AI"@));
    assert(tb[11] == ("Browser"@, "Browser"@));
    assert(tb[12] == ("Vars"@, "Vars"@));
}


proof fn lemma_binding_scan_extends(acc: Seq<Seq<char>>, t: Seq<char>, n: nat)
    requires
        n <= binding_table().len(),
    ensures
        acc.is_prefix_of(binding_scan(acc, t, n)),
    decreases n,
{
    if n > 0 {
        lemma_binding_scan_extends(acc, t, (n - 1) as nat);
        let prev = binding_scan(acc, t, (n - 1) as nat);
        let x = binding_table()[n - 1].1;
        assert(prev.push(x).subrange(0, acc.len() as int) =~= prev.subrange(0, acc.len() as int));
    }
}

/// Binding types are listed in the order in which the output first names
/// them: a line put at the end of the output after a line feed keeps the
/// binding types found before it, in their order, at the front, and only
/// adds after them.
pub proof fn lemma_bindings_keep_first_order(a: Seq<char>, n: Seq<char>)
    requires
        !n.contains('\n'),
    ensures
        binding_types(a).is_prefix_of(binding_types(a + seq!['\n'] + n)),
{
    lemma_deploy_reads_line_by_line(a, n);
    let t = trimmed(strip_ansi_text(n));
    if "- "@.is_prefix_of(t) {
        lemma_binding_scan_extends(binding_types(a), t, binding_table().len());
    } else {
        assert(binding_types(a).subrange(0, binding_types(a).len() as int) =~= binding_types(a));
    }
}

} // verus!
