use vstd::prelude::*;
use crate::text::{chars_of, string_of, extend, extend_str, eq_str, has_sub, occurs_at};
use crate::jobs::{Job, JobView, JobStatus};

verus! {

broadcast use vstd::string::group_string_axioms;

// ---------------------------------------------------------------------------
// Escaping
// ---------------------------------------------------------------------------

/// What a character becomes in HTML text: `&`, `<`, `>` and `"` become their
/// entities, every other character stays.
pub open spec fn escape_char(c: char) -> Seq<char> {
    if c == '&' {
        "&amp;"@
    } else if c == '<' {
        "&lt;"@
    } else if c == '>' {
        "&gt;"@
    } else if c == '"' {
        "&quot;"@
    } else {
        seq![c]
    }
}

/// A text with every character escaped.
pub open spec fn escaped(s: Seq<char>) -> Seq<char>
    decreases s.len(),
{
    if s.len() == 0 {
        Seq::<char>::empty()
    } else {
        escaped(s.drop_last()) + escape_char(s.last())
    }
}

/// Escapes `&`, `<`, `>` and `"` for use in HTML.
pub fn html_escape(s: &str) -> (r: String)
    ensures
        r@ == escaped(s@),
{
    let v = chars_of(s);
    let mut out: Vec<char> = Vec::new();
    let mut i: usize = 0;
    while i < v.len()
        invariant
            i <= v.len(),
            v@ == s@,
            out@ == escaped(v@.take(i as int)),
        decreases v.len() - i,
    {
        let c = v[i];
        if c == '&' {
            extend_str(&mut out, "&amp;");
        } else if c == '<' {
            extend_str(&mut out, "&lt;");
        } else if c == '>' {
            extend_str(&mut out, "&gt;");
        } else if c == '"' {
            extend_str(&mut out, "&quot;");
        } else {
            out.push(c);
        }
        assert(v@.take(i + 1).drop_last() =~= v@.take(i as int));
        i += 1;
    }
    assert(v@.take(v.len() as int) =~= v@);
    string_of(&out)
}

/// Escaped text holds no `<`, `>` or `"`: it cannot open or close a tag or
/// end an attribute value.
pub proof fn lemma_escaped_is_inert(s: Seq<char>)
    ensures
        forall|i: int|
            0 <= i < escaped(s).len() ==> #[trigger] escaped(s)[i] != '<' && escaped(s)[i] != '>'
                && escaped(s)[i] != '"',
    decreases s.len(),
{
    reveal_strlit("&amp;");
    reveal_strlit("&lt;");
    reveal_strlit("&gt;");
    reveal_strlit("&quot;");
    if s.len() > 0 {
        let init = escaped(s.drop_last());
        let tail = escape_char(s.last());
        lemma_escaped_is_inert(s.drop_last());
        assert forall|i: int| 0 <= i < escaped(s).len() implies #[trigger] escaped(s)[i] != '<'
            && escaped(s)[i] != '>' && escaped(s)[i] != '"' by {
            if i >= init.len() {
                assert(escaped(s)[i] == tail[i - init.len()]);
            } else {
                assert(escaped(s)[i] == init[i]);
            }
        }
    }
}

/// Text without `&`, `<`, `>` and `"` is left as it is.
pub proof fn lemma_escape_plain(s: Seq<char>)
    requires
        forall|i: int|
            0 <= i < s.len() ==> #[trigger] s[i] != '&' && s[i] != '<' && s[i] != '>' && s[i]
                != '"',
    ensures
        escaped(s) == s,
    decreases s.len(),
{
    if s.len() > 0 {
        lemma_escape_plain(s.drop_last());
        assert(s.last() == s[s.len() - 1]);
        assert(s =~= s.drop_last() + seq![s.last()]);
    }
}

// ---------------------------------------------------------------------------
// Job cards
// ---------------------------------------------------------------------------

pub open spec fn status_class(s: JobStatus) -> Seq<char> {
    match s {
        JobStatus::Pending => "bg-gray-100 dark:bg-gray-700 text-gray-800 dark:text-gray-200"@,
        JobStatus::Running => "bg-blue-100 dark:bg-blue-900 text-blue-800 dark:text-blue-200 animate-pulse"@,
        JobStatus::Completed => "bg-green-100 dark:bg-green-900 text-green-800 dark:text-green-200"@,
        JobStatus::Failed => "bg-red-100 dark:bg-red-900 text-red-800 dark:text-red-200"@,
    }
}

pub fn status_class_text(s: JobStatus) -> (r: &'static str)
    ensures
        r@ == status_class(s),
{
    match s {
        JobStatus::Pending => "bg-gray-100 dark:bg-gray-700 text-gray-800 dark:text-gray-200",
        JobStatus::Running => "bg-blue-100 dark:bg-blue-900 text-blue-800 dark:text-blue-200 animate-pulse",
        JobStatus::Completed => "bg-green-100 dark:bg-green-900 text-green-800 dark:text-green-200",
        JobStatus::Failed => "bg-red-100 dark:bg-red-900 text-red-800 dark:text-red-200",
    }
}

pub open spec fn status_text(s: JobStatus) -> Seq<char> {
    match s {
        JobStatus::Pending => "Pending"@,
        JobStatus::Running => "Running"@,
        JobStatus::Completed => "Completed"@,
        JobStatus::Failed => "Failed"@,
    }
}

pub fn status_text_str(s: JobStatus) -> (r: &'static str)
    ensures
        r@ == status_text(s),
{
    match s {
        JobStatus::Pending => "Pending",
        JobStatus::Running => "Running",
        JobStatus::Completed => "Completed",
        JobStatus::Failed => "Failed",
    }
}

pub open spec fn border_color(s: JobStatus) -> Seq<char> {
    match s {
        JobStatus::Pending => "border-gray-300 dark:border-gray-600"@,
        JobStatus::Running => "border-blue-500"@,
        JobStatus::Completed => "border-green-500"@,
        JobStatus::Failed => "border-red-500"@,
    }
}

pub fn border_color_text(s: JobStatus) -> (r: &'static str)
    ensures
        r@ == border_color(s),
{
    match s {
        JobStatus::Pending => "border-gray-300 dark:border-gray-600",
        JobStatus::Running => "border-blue-500",
        JobStatus::Completed => "border-green-500",
        JobStatus::Failed => "border-red-500",
    }
}

/// The output lines, each escaped in a `div` of its own.
pub open spec fn lines_html(lines: Seq<Seq<char>>) -> Seq<char>
    decreases lines.len(),
{
    if lines.len() == 0 {
        Seq::<char>::empty()
    } else {
        lines_html(lines.drop_last()) + "<div class=\"py-0.5\">"@ + escaped(lines.last())
            + "</div>"@
    }
}

/// The output panel, which scrolls itself to its end; nothing for a job
/// without output.
pub open spec fn output_html(j: JobView) -> Seq<char> {
    if j.output.len() > 0 {
        "<div class=\"mt-2 bg-gray-900 text-green-400 p-2 rounded text-xs font-mono max-h-48 overflow-y-auto job-output\" id=\"output-"@ + j.id + "\">"@ + lines_html(j.output) + "</div>\n        <script>document.getElementById('output-"@ + j.id + "').scrollTop = document.getElementById('output-"@ + j.id + "').scrollHeight;</script>"@
    } else {
        Seq::<char>::empty()
    }
}

/// The stop button, shown for a running ping job only.
pub open spec fn stop_button(j: JobView) -> Seq<char> {
    if j.job_type == "tcpping"@ && j.status == JobStatus::Running {
        "<button hx-post=\"/api/tcpping/"@ + j.id + "/stop\" hx-swap=\"none\" class=\"mt-2 text-red-600 dark:text-red-400 hover:text-red-800 dark:hover:text-red-300 text-sm font-medium\">⏹ Stop</button>"@
    } else {
        Seq::<char>::empty()
    }
}

/// The attributes that make the card refresh itself every second while the
/// job is pending or running.
pub open spec fn poll_attr(j: JobView) -> Seq<char> {
    if j.status == JobStatus::Running || j.status == JobStatus::Pending {
        "hx-get=\"/partials/job/"@ + j.id + "\" hx-trigger=\"every 1s\" hx-swap=\"outerHTML settle:0s\""@
    } else {
        Seq::<char>::empty()
    }
}

/// The HTML card of a job.
pub open spec fn card_html(j: JobView) -> Seq<char> {
    "<div class=\"job-card bg-white dark:bg-gray-800 rounded-lg shadow p-4 mb-3 border-l-4 "@ + border_color(j.status) + "\" id=\"job-"@ + j.id + "\" "@ + poll_attr(j) + ">\n            <div class=\"flex flex-col sm:flex-row sm:justify-between sm:items-start gap-1\">\n                <div>\n                    <span class=\"font-semibold capitalize dark:text-white\">"@ + j.job_type + "</span>\n                    <span class=\"ml-2 px-2 py-1 rounded text-xs "@ + status_class(j.status) + "\">"@ + status_text(j.status) + "</span>\n                </div>\n                <div class=\"text-xs text-gray-500 dark:text-gray-400\">"@ + j.created_at + "</div>\n            </div>\n            <p class=\"text-sm text-gray-600 dark:text-gray-300 mt-2\">"@ + escaped(j.message) + "</p>\n            "@ + output_html(j) + "\n            "@ + stop_button(j) + "\n        </div>"@
}

fn lines_markup(output: &Vec<String>) -> (r: Vec<char>)
    ensures
        r@ == lines_html(crate::text::string_views(output@)),
{
    let mut out: Vec<char> = Vec::new();
    let mut i: usize = 0;
    while i < output.len()
        invariant
            i <= output.len(),
            out@ == lines_html(crate::text::string_views(output@).take(i as int)),
        decreases output.len() - i,
    {
        let ghost before = out@;
        extend_str(&mut out, "<div class=\"py-0.5\">");
        let e = html_escape(output[i].as_str());
        extend_str(&mut out, e.as_str());
        extend_str(&mut out, "</div>");
        let ghost lines = crate::text::string_views(output@);
        assert(lines.take(i + 1).drop_last() =~= lines.take(i as int));
        assert(lines.take(i + 1).last() == output@[i as int]@);
        i += 1;
    }
    assert(crate::text::string_views(output@).take(output.len() as int) =~= crate::text::string_views(output@));
    out
}

fn output_markup(job: &Job) -> (r: Vec<char>)
    ensures
        r@ == output_html(job@),
{
    let mut out: Vec<char> = Vec::new();
    if job.output.len() > 0 {
        let lines = lines_markup(&job.output);
        extend_str(&mut out, "<div class=\"mt-2 bg-gray-900 text-green-400 p-2 rounded text-xs font-mono max-h-48 overflow-y-auto job-output\" id=\"output-");
        extend_str(&mut out, job.id.as_str());
        extend_str(&mut out, "\">");
        extend(&mut out, &lines);
        extend_str(&mut out, "</div>\n        <script>document.getElementById('output-");
        extend_str(&mut out, job.id.as_str());
        extend_str(&mut out, "').scrollTop = document.getElementById('output-");
        extend_str(&mut out, job.id.as_str());
        extend_str(&mut out, "').scrollHeight;</script>");
    } else {
        assert(out@ =~= Seq::<char>::empty());
    }
    out
}

fn stop_markup(job: &Job) -> (r: Vec<char>)
    ensures
        r@ == stop_button(job@),
{
    let mut out: Vec<char> = Vec::new();
    let is_ping = eq_str(&chars_of(job.job_type.as_str()), "tcpping");
    if is_ping && job.status == JobStatus::Running {
        extend_str(&mut out, "<button hx-post=\"/api/tcpping/");
        extend_str(&mut out, job.id.as_str());
        extend_str(&mut out, "/stop\" hx-swap=\"none\" class=\"mt-2 text-red-600 dark:text-red-400 hover:text-red-800 dark:hover:text-red-300 text-sm font-medium\">⏹ Stop</button>");
    } else {
        assert(out@ =~= Seq::<char>::empty());
    }
    out
}

fn poll_markup(job: &Job) -> (r: Vec<char>)
    ensures
        r@ == poll_attr(job@),
{
    let mut out: Vec<char> = Vec::new();
    if job.status == JobStatus::Running || job.status == JobStatus::Pending {
        extend_str(&mut out, "hx-get=\"/partials/job/");
        extend_str(&mut out, job.id.as_str());
        extend_str(&mut out, "\" hx-trigger=\"every 1s\" hx-swap=\"outerHTML settle:0s\"");
    } else {
        assert(out@ =~= Seq::<char>::empty());
    }
    out
}

/// The HTML card that shows a job in the job list.
pub fn job_card_html(job: &Job) -> (r: String)
    ensures
        r@ == card_html(job@),
{
    let poll = poll_markup(job);
    let message = chars_of(html_escape(job.message.as_str()).as_str());
    let output = output_markup(job);
    let stop = stop_markup(job);
    let mut out: Vec<char> = Vec::new();
    extend_str(&mut out, "<div class=\"job-card bg-white dark:bg-gray-800 rounded-lg shadow p-4 mb-3 border-l-4 ");
    extend_str(&mut out, border_color_text(job.status));
    extend_str(&mut out, "\" id=\"job-");
    extend_str(&mut out, job.id.as_str());
    extend_str(&mut out, "\" ");
    extend(&mut out, &poll);
    extend_str(&mut out, ">\n            <div class=\"flex flex-col sm:flex-row sm:justify-between sm:items-start gap-1\">\n                <div>\n                    <span class=\"font-semibold capitalize dark:text-white\">");
    extend_str(&mut out, job.job_type.as_str());
    extend_str(&mut out, "</span>\n                    <span class=\"ml-2 px-2 py-1 rounded text-xs ");
    extend_str(&mut out, status_class_text(job.status));
    extend_str(&mut out, "\">");
    extend_str(&mut out, status_text_str(job.status));
    extend_str(&mut out, "</span>\n                </div>\n                <div class=\"text-xs text-gray-500 dark:text-gray-400\">");
    extend_str(&mut out, job.created_at.as_str());
    extend_str(&mut out, "</div>\n            </div>\n            <p class=\"text-sm text-gray-600 dark:text-gray-300 mt-2\">");
    extend(&mut out, &message);
    extend_str(&mut out, "</p>\n            ");
    extend(&mut out, &output);
    extend_str(&mut out, "\n            ");
    extend(&mut out, &stop);
    extend_str(&mut out, "\n        </div>");
    string_of(&out)
}

/// The placeholder shown when there is no job yet.
pub open spec fn no_jobs_html() -> Seq<char> {
    "<p class=\"text-gray-500 dark:text-gray-400 text-center py-4\">No jobs yet. Start a task from the menu above.</p>"@
}

/// The cards of the jobs, newest last in `jobs` and first on the page.
pub open spec fn cards_newest_first(jobs: Seq<JobView>) -> Seq<char>
    decreases jobs.len(),
{
    if jobs.len() == 0 {
        Seq::<char>::empty()
    } else {
        card_html(jobs.last()) + cards_newest_first(jobs.drop_last())
    }
}

pub open spec fn job_views(jobs: Seq<Job>) -> Seq<JobView> {
    jobs.map_values(|j: Job| j@)
}

/// Peeling the oldest job off the front: its card comes last.
proof fn lemma_cards_front(s: Seq<JobView>)
    requires
        s.len() > 0,
    ensures
        cards_newest_first(s) == cards_newest_first(s.drop_first()) + card_html(s[0]),
    decreases s.len(),
{
    if s.len() == 1 {
        assert(s.drop_first() =~= Seq::<JobView>::empty());
        assert(s.drop_last() =~= Seq::<JobView>::empty());
        assert(s.last() == s[0]);
        assert(cards_newest_first(s.drop_last()) =~= Seq::<char>::empty());
        assert(cards_newest_first(s) =~= card_html(s[0]));
    } else {
        lemma_cards_front(s.drop_last());
        assert(s.drop_last().drop_first() =~= s.drop_first().drop_last());
        assert(s.drop_first().last() == s.last());
        assert(s.drop_last()[0] == s[0]);
    }
}

/// The job list: every job's card, last-listed first, or the placeholder
/// when there is none.
pub fn jobs_html(jobs: &Vec<Job>) -> (r: String)
    ensures
        r@ == if jobs.len() == 0 {
            no_jobs_html()
        } else {
            cards_newest_first(job_views(jobs@))
        },
{
    let ghost views = job_views(jobs@);
    let mut out: Vec<char> = Vec::new();
    let mut i: usize = jobs.len();
    assert(views.subrange(i as int, jobs.len() as int) =~= Seq::<JobView>::empty());
    while i > 0
        invariant
            i <= jobs.len(),
            views == job_views(jobs@),
            out@ == cards_newest_first(views.subrange(i as int, jobs.len() as int)),
        decreases i,
    {
        i -= 1;
        let card = job_card_html(&jobs[i]);
        extend_str(&mut out, card.as_str());
        proof {
            let t = views.subrange(i as int, jobs.len() as int);
            lemma_cards_front(t);
            assert(t.drop_first() =~= views.subrange(i + 1, jobs.len() as int));
            assert(t[0] == jobs@[i as int]@);
        }
    }
    if jobs.len() == 0 {
        extend_str(
            &mut out,
            "<p class=\"text-gray-500 dark:text-gray-400 text-center py-4\">No jobs yet. Start a task from the menu above.</p>",
        );
        assert(out@ =~= no_jobs_html());
    } else {
        assert(views.subrange(0, jobs.len() as int) =~= views);
    }
    string_of(&out)
}


// ---------------------------------------------------------------------------
// What a card shows
// ---------------------------------------------------------------------------

/// `a`, `b`, `c` in a row occur nowhere in `s`.
pub open spec fn no_triple(s: Seq<char>, a: char, b: char, c: char) -> bool {
    forall|i: int| 0 <= i < s.len() - 2 ==> !(#[trigger] s[i] == a && s[i + 1] == b && s[i + 2] == c)
}

/// `s` ends neither with `a` nor with `a`, `b`.
pub open spec fn open_end(s: Seq<char>, a: char, b: char) -> bool {
    &&& (s.len() >= 1 ==> s[s.len() - 1] != a)
    &&& (s.len() >= 2 ==> !(s[s.len() - 2] == a && s[s.len() - 1] == b))
}

/// `s` holds no `a b c` and cannot start one with what follows it.
pub open spec fn clean(s: Seq<char>, a: char, b: char, c: char) -> bool {
    no_triple(s, a, b, c) && open_end(s, a, b)
}

proof fn lemma_clean_join(x: Seq<char>, y: Seq<char>, a: char, b: char, c: char)
    requires
        clean(x, a, b, c),
        clean(y, a, b, c),
    ensures
        clean(x + y, a, b, c),
{
    let t = x + y;
    assert forall|i: int| 0 <= i < t.len() - 2 implies !(#[trigger] t[i] == a && t[i + 1] == b && t[i + 2]
        == c) by {
        if i + 2 < x.len() {
            assert(t[i] == x[i] && t[i + 1] == x[i + 1] && t[i + 2] == x[i + 2]);
        } else if i >= x.len() {
            assert(t[i] == y[i - x.len()] && t[i + 1] == y[i + 1 - x.len()] && t[i + 2] == y[i + 2 - x.len()]);
        } else if i == x.len() - 1 {
            assert(t[i] == x[x.len() - 1]);
        } else {
            assert(t[i] == x[x.len() - 2] && t[i + 1] == x[x.len() - 1]);
        }
    }
    if y.len() >= 2 {
        assert(t[t.len() - 1] == y[y.len() - 1] && t[t.len() - 2] == y[y.len() - 2]);
    } else if y.len() == 1 {
        assert(t[t.len() - 1] == y[0]);
        if x.len() >= 1 {
            assert(t[t.len() - 2] == x[x.len() - 1]);
        }
    } else {
        assert(t =~= x);
    }
}

proof fn lemma_clean_free(s: Seq<char>, a: char, b: char, c: char)
    requires
        !s.contains(a),
    ensures
        clean(s, a, b, c),
{
    assert forall|i: int| 0 <= i < s.len() - 2 implies !(#[trigger] s[i] == a && s[i + 1] == b && s[i + 2]
        == c) by {
        assert(s[i] != a);
    }
    if s.len() >= 1 {
        assert(s[s.len() - 1] != a);
    }
    if s.len() >= 2 {
        assert(s[s.len() - 2] != a);
    }
}

proof fn lemma_escaped_free(s: Seq<char>)
    ensures
        !escaped(s).contains('"'),
{
    lemma_escaped_is_inert(s);
    if escaped(s).contains('"') {
        let i = choose|i: int| 0 <= i < escaped(s).len() && escaped(s)[i] == '"';
        assert(escaped(s)[i] != '"');
    }
}

/// A text in which `m` occurs holds every run of three characters of `m`.
proof fn lemma_triple_of_sub(t: Seq<char>, m: Seq<char>, k: int, a: char, b: char, c: char)
    requires
        has_sub(t, m),
        0 <= k,
        k + 2 < m.len(),
        m[k] == a && m[k + 1] == b && m[k + 2] == c,
    ensures
        !no_triple(t, a, b, c),
{
    let i = choose|i: int| occurs_at(t, m, i);
    assert(t.subrange(i, i + m.len()) == m);
    assert(t[i + k] == m[k] && t[i + k + 1] == m[k + 1] && t[i + k + 2] == m[k + 2]);
}

proof fn lemma_lines_clean(ls: Seq<Seq<char>>, a: char, b: char, c: char)
    requires
        a == '"',
        clean("<div class=\"py-0.5\">"@, a, b, c),
        clean("</div>"@, a, b, c),
    ensures
        clean(lines_html(ls), a, b, c),
    decreases ls.len(),
{
    if ls.len() == 0 {
        assert(lines_html(ls) =~= Seq::<char>::empty());
    } else {
        lemma_lines_clean(ls.drop_last(), a, b, c);
        lemma_escaped_free(ls.last());
        lemma_clean_free(escaped(ls.last()), a, b, c);
        let x = lines_html(ls.drop_last());
        lemma_clean_join(x, "<div class=\"py-0.5\">"@, a, b, c);
        lemma_clean_join(x + "<div class=\"py-0.5\">"@, escaped(ls.last()), a, b, c);
        lemma_clean_join(x + "<div class=\"py-0.5\">"@ + escaped(ls.last()), "</div>"@, a, b, c);
    }
}

/// With no `"` in the unescaped fields, a card holds a run `a b c` (which
/// starts with a `"`) only where one of its pieces does.
proof fn lemma_card_clean(j: JobView, a: char, b: char, c: char)
    requires
        a == '"',
        !j.id.contains(a),
        !j.job_type.contains(a),
        !j.created_at.contains(a),
        clean(border_color(j.status), a, b, c),
        clean(status_class(j.status), a, b, c),
        clean(status_text(j.status), a, b, c),
        clean("<div class=\"job-card bg-white dark:bg-gray-800 rounded-lg shadow p-4 mb-3 border-l-4 "@, a, b, c),
        clean("\" id=\"job-"@, a, b, c),
        clean("\" "@, a, b, c),
        clean(">\n            <div class=\"flex flex-col sm:flex-row sm:justify-between sm:items-start gap-1\">\n                <div>\n                    <span class=\"font-semibold capitalize dark:text-white\">"@, a, b, c),
        clean("</span>\n                    <span class=\"ml-2 px-2 py-1 rounded text-xs "@, a, b, c),
        clean("\">"@, a, b, c),
        clean("</span>\n                </div>\n                <div class=\"text-xs text-gray-500 dark:text-gray-400\">"@, a, b, c),
        clean("</div>\n            </div>\n            <p class=\"text-sm text-gray-600 dark:text-gray-300 mt-2\">"@, a, b, c),
        clean("</p>\n            "@, a, b, c),
        clean("\n            "@, a, b, c),
        clean("\n        </div>"@, a, b, c),
        clean("<div class=\"mt-2 bg-gray-900 text-green-400 p-2 rounded text-xs font-mono max-h-48 overflow-y-auto job-output\" id=\"output-"@, a, b, c),
        clean("\">"@, a, b, c),
        clean("</div>\n        <script>document.getElementById('output-"@, a, b, c),
        clean("').scrollTop = document.getElementById('output-"@, a, b, c),
        clean("').scrollHeight;</script>"@, a, b, c),
        clean("<div class=\"py-0.5\">"@, a, b, c),
        clean("</div>"@, a, b, c),
        j.status == JobStatus::Running || j.status == JobStatus::Pending ==> clean("hx-get=\"/partials/job/"@, a, b, c)
            && clean("\" hx-trigger=\"every 1s\" hx-swap=\"outerHTML settle:0s\""@ + ">\n            <div class=\"flex flex-col sm:flex-row sm:justify-between sm:items-start gap-1\">\n                <div>\n                    <span class=\"font-semibold capitalize dark:text-white\">"@, a, b, c),
        j.job_type == "tcpping"@ && j.status == JobStatus::Running ==> clean("<button hx-post=\"/api/tcpping/"@, a, b, c)
            && clean("/stop\" hx-swap=\"none\" class=\"mt-2 text-red-600 dark:text-red-400 hover:text-red-800 dark:hover:text-red-300 text-sm font-medium\">⏹ Stop</button>"@, a, b, c),
    ensures
        clean(card_html(j), a, b, c),
{
    lemma_escaped_free(j.message);
    lemma_clean_free(escaped(j.message), a, b, c);
    lemma_clean_free(j.id, a, b, c);
    lemma_clean_free(j.job_type, a, b, c);
    lemma_clean_free(j.created_at, a, b, c);
    if j.output.len() > 0 {
        lemma_lines_clean(j.output, a, b, c);
        let o1 = "<div class=\"mt-2 bg-gray-900 text-green-400 p-2 rounded text-xs font-mono max-h-48 overflow-y-auto job-output\" id=\"output-"@ + j.id;
        lemma_clean_join("<div class=\"mt-2 bg-gray-900 text-green-400 p-2 rounded text-xs font-mono max-h-48 overflow-y-auto job-output\" id=\"output-"@, j.id, a, b, c);
        lemma_clean_join(o1, "\">"@, a, b, c);
        lemma_clean_join(o1 + "\">"@, lines_html(j.output), a, b, c);
        let o2 = o1 + "\">"@ + lines_html(j.output);
        lemma_clean_join(o2, "</div>\n        <script>document.getElementById('output-"@, a, b, c);
        lemma_clean_join(o2 + "</div>\n        <script>document.getElementById('output-"@, j.id, a, b, c);
        lemma_clean_join(o2 + "</div>\n        <script>document.getElementById('output-"@ + j.id, "').scrollTop = document.getElementById('output-"@, a, b, c);
        lemma_clean_join(o2 + "</div>\n        <script>document.getElementById('output-"@ + j.id + "').scrollTop = document.getElementById('output-"@, j.id, a, b, c);
        lemma_clean_join(o2 + "</div>\n        <script>document.getElementById('output-"@ + j.id + "').scrollTop = document.getElementById('output-"@ + j.id, "').scrollHeight;</script>"@, a, b, c);
    } else {
        assert(output_html(j) =~= Seq::<char>::empty());
        lemma_clean_free(Seq::<char>::empty(), a, b, c);
    }
    if j.job_type == "tcpping"@ && j.status == JobStatus::Running {
        lemma_clean_join("<button hx-post=\"/api/tcpping/"@, j.id, a, b, c);
        lemma_clean_join("<button hx-post=\"/api/tcpping/"@ + j.id, "/stop\" hx-swap=\"none\" class=\"mt-2 text-red-600 dark:text-red-400 hover:text-red-800 dark:hover:text-red-300 text-sm font-medium\">⏹ Stop</button>"@, a, b, c);
    } else {
        assert(stop_button(j) =~= Seq::<char>::empty());
        lemma_clean_free(Seq::<char>::empty(), a, b, c);
    }
    let pa = poll_attr(j) + ">\n            <div class=\"flex flex-col sm:flex-row sm:justify-between sm:items-start gap-1\">\n                <div>\n                    <span class=\"font-semibold capitalize dark:text-white\">"@;
    if j.status == JobStatus::Running || j.status == JobStatus::Pending {
        lemma_clean_join("hx-get=\"/partials/job/"@, j.id, a, b, c);
        lemma_clean_join("hx-get=\"/partials/job/"@ + j.id, "\" hx-trigger=\"every 1s\" hx-swap=\"outerHTML settle:0s\""@ + ">\n            <div class=\"flex flex-col sm:flex-row sm:justify-between sm:items-start gap-1\">\n                <div>\n                    <span class=\"font-semibold capitalize dark:text-white\">"@, a, b, c);
        assert(pa =~= "hx-get=\"/partials/job/"@ + j.id + ("\" hx-trigger=\"every 1s\" hx-swap=\"outerHTML settle:0s\""@ + ">\n            <div class=\"flex flex-col sm:flex-row sm:justify-between sm:items-start gap-1\">\n                <div>\n                    <span class=\"font-semibold capitalize dark:text-white\">"@));
    } else {
        assert(pa =~= ">\n            <div class=\"flex flex-col sm:flex-row sm:justify-between sm:items-start gap-1\">\n                <div>\n                    <span class=\"font-semibold capitalize dark:text-white\">"@);
    }
    let t0 = "<div class=\"job-card bg-white dark:bg-gray-800 rounded-lg shadow p-4 mb-3 border-l-4 "@;
    lemma_clean_join(t0, border_color(j.status), a, b, c);
    let t1 = t0 + border_color(j.status);
    lemma_clean_join(t1, "\" id=\"job-"@, a, b, c);
    let t2 = t1 + "\" id=\"job-"@;
    lemma_clean_join(t2, j.id, a, b, c);
    let t3 = t2 + j.id;
    lemma_clean_join(t3, "\" "@, a, b, c);
    let t4 = t3 + "\" "@;
    lemma_clean_join(t4, pa, a, b, c);
    let t5 = t4 + pa;
    assert(t5 =~= t4 + poll_attr(j) + ">\n            <div class=\"flex flex-col sm:flex-row sm:justify-between sm:items-start gap-1\">\n                <div>\n                    <span class=\"font-semibold capitalize dark:text-white\">"@);
    lemma_clean_join(t5, j.job_type, a, b, c);
    let t6 = t5 + j.job_type;
    lemma_clean_join(t6, "</span>\n                    <span class=\"ml-2 px-2 py-1 rounded text-xs "@, a, b, c);
    let t7 = t6 + "</span>\n                    <span class=\"ml-2 px-2 py-1 rounded text-xs "@;
    lemma_clean_join(t7, status_class(j.status), a, b, c);
    let t8 = t7 + status_class(j.status);
    lemma_clean_join(t8, "\">"@, a, b, c);
    let t9 = t8 + "\">"@;
    lemma_clean_join(t9, status_text(j.status), a, b, c);
    let t10 = t9 + status_text(j.status);
    lemma_clean_join(t10, "</span>\n                </div>\n                <div class=\"text-xs text-gray-500 dark:text-gray-400\">"@, a, b, c);
    let t11 = t10 + "</span>\n                </div>\n                <div class=\"text-xs text-gray-500 dark:text-gray-400\">"@;
    lemma_clean_join(t11, j.created_at, a, b, c);
    let t12 = t11 + j.created_at;
    lemma_clean_join(t12, "</div>\n            </div>\n            <p class=\"text-sm text-gray-600 dark:text-gray-300 mt-2\">"@, a, b, c);
    let t13 = t12 + "</div>\n            </div>\n            <p class=\"text-sm text-gray-600 dark:text-gray-300 mt-2\">"@;
    lemma_clean_join(t13, escaped(j.message), a, b, c);
    let t14 = t13 + escaped(j.message);
    lemma_clean_join(t14, "</p>\n            "@, a, b, c);
    let t15 = t14 + "</p>\n            "@;
    lemma_clean_join(t15, output_html(j), a, b, c);
    let t16 = t15 + output_html(j);
    lemma_clean_join(t16, "\n            "@, a, b, c);
    let t17 = t16 + "\n            "@;
    lemma_clean_join(t17, stop_button(j), a, b, c);
    let t18 = t17 + stop_button(j);
    lemma_clean_join(t18, "\n        </div>"@, a, b, c);
    let t19 = t18 + "\n        </div>"@;
    assert(t19 =~= card_html(j));
}


/// The text that makes a card refresh itself every second.
pub open spec fn poll_marker() -> Seq<char> {
    "hx-trigger=\"every 1s\""@
}

/// The attribute of a job's stop button.
pub open spec fn stop_marker(id: Seq<char>) -> Seq<char> {
    "hx-post=\"/api/tcpping/"@ + id + "/stop\""@
}

proof fn lemma_sub_within(x: Seq<char>, y: Seq<char>, z: Seq<char>, m: Seq<char>)
    requires
        has_sub(y, m),
    ensures
        has_sub(x + y + z, m),
{
    let i = choose|i: int| occurs_at(y, m, i);
    let t = x + y + z;
    assert(t.subrange(x.len() + i, x.len() + i + m.len()) =~= y.subrange(i, i + m.len()));
    assert(occurs_at(t, m, x.len() + i));
}

/// A card shows the job's message, escaped, and its output lines, each
/// escaped in a line of its own and in the order they were logged; it
/// refreshes itself every second while the job is pending or running, and a
/// running ping job's card has a stop button.
pub proof fn lemma_job_card_shows(j: JobView)
    ensures
        has_sub(card_html(j), escaped(j.message)),
        has_sub(card_html(j), lines_html(j.output)),
        j.status == JobStatus::Running || j.status == JobStatus::Pending ==> has_sub(card_html(j), poll_marker()),
        j.job_type == "tcpping"@ && j.status == JobStatus::Running ==> has_sub(card_html(j), stop_marker(j.id)),
{
    reveal_strlit("<div class=\"job-card bg-white dark:bg-gray-800 rounded-lg shadow p-4 mb-3 border-l-4 ");
    reveal_strlit("\" id=\"job-");
    reveal_strlit("\" ");
    reveal_strlit(">\n            <div class=\"flex flex-col sm:flex-row sm:justify-between sm:items-start gap-1\">\n                <div>\n                    <span class=\"font-semibold capitalize dark:text-white\">");
    reveal_strlit("</span>\n                    <span class=\"ml-2 px-2 py-1 rounded text-xs ");
    reveal_strlit("\">");
    reveal_strlit("</span>\n                </div>\n                <div class=\"text-xs text-gray-500 dark:text-gray-400\">");
    reveal_strlit("</div>\n            </div>\n            <p class=\"text-sm text-gray-600 dark:text-gray-300 mt-2\">");
    reveal_strlit("</p>\n            ");
    reveal_strlit("\n            ");
    reveal_strlit("\n        </div>");
    reveal_strlit("<div class=\"mt-2 bg-gray-900 text-green-400 p-2 rounded text-xs font-mono max-h-48 overflow-y-auto job-output\" id=\"output-");
    reveal_strlit("\">");
    reveal_strlit("</div>\n        <script>document.getElementById('output-");
    reveal_strlit("').scrollTop = document.getElementById('output-");
    reveal_strlit("').scrollHeight;</script>");
    reveal_strlit("<div class=\"py-0.5\">");
    reveal_strlit("</div>");
    reveal_strlit("<button hx-post=\"/api/tcpping/");
    reveal_strlit("/stop\" hx-swap=\"none\" class=\"mt-2 text-red-600 dark:text-red-400 hover:text-red-800 dark:hover:text-red-300 text-sm font-medium\">⏹ Stop</button>");
    reveal_strlit("hx-get=\"/partials/job/");
    reveal_strlit("\" hx-trigger=\"every 1s\" hx-swap=\"outerHTML settle:0s\"");
    reveal_strlit("border-gray-300 dark:border-gray-600");
    reveal_strlit("border-blue-500");
    reveal_strlit("border-green-500");
    reveal_strlit("border-red-500");
    reveal_strlit("bg-gray-100 dark:bg-gray-700 text-gray-800 dark:text-gray-200");
    reveal_strlit("bg-blue-100 dark:bg-blue-900 text-blue-800 dark:text-blue-200 animate-pulse");
    reveal_strlit("bg-green-100 dark:bg-green-900 text-green-800 dark:text-green-200");
    reveal_strlit("bg-red-100 dark:bg-red-900 text-red-800 dark:text-red-200");
    reveal_strlit("Pending");
    reveal_strlit("Running");
    reveal_strlit("Completed");
    reveal_strlit("Failed");
    reveal_strlit("hx-trigger=\"every 1s\"");
    reveal_strlit("hx-post=\"/api/tcpping/");
    reveal_strlit("/stop\"");
    reveal_strlit("tcpping");
    let head = "<div class=\"job-card bg-white dark:bg-gray-800 rounded-lg shadow p-4 mb-3 border-l-4 "@ + border_color(j.status) + "\" id=\"job-"@ + j.id + "\" "@ + poll_attr(j) + ">\n            <div class=\"flex flex-col sm:flex-row sm:justify-between sm:items-start gap-1\">\n                <div>\n                    <span class=\"font-semibold capitalize dark:text-white\">"@ + j.job_type + "</span>\n                    <span class=\"ml-2 px-2 py-1 rounded text-xs "@ + status_class(j.status) + "\">"@ + status_text(j.status) + "</span>\n                </div>\n                <div class=\"text-xs text-gray-500 dark:text-gray-400\">"@ + j.created_at + "</div>\n            </div>\n            <p class=\"text-sm text-gray-600 dark:text-gray-300 mt-2\">"@;
    let tail = "</p>\n            "@ + output_html(j) + "\n            "@ + stop_button(j) + "\n        </div>"@;
    assert(card_html(j) =~= head + escaped(j.message) + tail);
    assert(occurs_at(escaped(j.message), escaped(j.message), 0)) by {
        assert(escaped(j.message).subrange(0, escaped(j.message).len() as int) =~= escaped(j.message));
    }
    lemma_sub_within(head, escaped(j.message), tail, escaped(j.message));
    // the output lines
    assert(occurs_at(lines_html(j.output), lines_html(j.output), 0)) by {
        assert(lines_html(j.output).subrange(0, lines_html(j.output).len() as int) =~= lines_html(j.output));
    }
    if j.output.len() > 0 {
        let oh = "<div class=\"mt-2 bg-gray-900 text-green-400 p-2 rounded text-xs font-mono max-h-48 overflow-y-auto job-output\" id=\"output-"@ + j.id + "\">"@;
        let ot = "</div>\n        <script>document.getElementById('output-"@ + j.id + "').scrollTop = document.getElementById('output-"@ + j.id + "').scrollHeight;</script>"@;
        assert(output_html(j) =~= oh + lines_html(j.output) + ot);
        lemma_sub_within(oh, lines_html(j.output), ot, lines_html(j.output));
        let h2 = head + escaped(j.message) + "</p>\n            "@;
        let t2 = "\n            "@ + stop_button(j) + "\n        </div>"@;
        assert(card_html(j) =~= h2 + output_html(j) + t2);
        lemma_sub_within(h2, output_html(j), t2, lines_html(j.output));
    } else {
        assert(lines_html(j.output) =~= Seq::<char>::empty());
        assert(occurs_at(card_html(j), lines_html(j.output), 0)) by {
            assert(card_html(j).subrange(0, 0) =~= Seq::<char>::empty());
        }
    }
    if j.status == JobStatus::Running || j.status == JobStatus::Pending {
        let p1 = "\" hx-trigger=\"every 1s\" hx-swap=\"outerHTML settle:0s\""@;
        assert(p1.subrange(2, 2 + poll_marker().len() as int) =~= poll_marker());
        assert(occurs_at(p1, poll_marker(), 2));
        lemma_sub_within("hx-get=\"/partials/job/"@ + j.id, p1, Seq::<char>::empty(), poll_marker());
        assert(poll_attr(j) =~= "hx-get=\"/partials/job/"@ + j.id + p1 + Seq::<char>::empty());
        let h3 = "<div class=\"job-card bg-white dark:bg-gray-800 rounded-lg shadow p-4 mb-3 border-l-4 "@ + border_color(j.status) + "\" id=\"job-"@ + j.id + "\" "@;
        let t3 = ">\n            <div class=\"flex flex-col sm:flex-row sm:justify-between sm:items-start gap-1\">\n                <div>\n                    <span class=\"font-semibold capitalize dark:text-white\">"@ + j.job_type + "</span>\n                    <span class=\"ml-2 px-2 py-1 rounded text-xs "@ + status_class(j.status) + "\">"@ + status_text(j.status) + "</span>\n                </div>\n                <div class=\"text-xs text-gray-500 dark:text-gray-400\">"@ + j.created_at + "</div>\n            </div>\n            <p class=\"text-sm text-gray-600 dark:text-gray-300 mt-2\">"@ + escaped(j.message) + tail;
        assert(card_html(j) =~= h3 + poll_attr(j) + t3);
        lemma_sub_within(h3, poll_attr(j), t3, poll_marker());
    }
    if j.job_type == "tcpping"@ && j.status == JobStatus::Running {
        let sb = stop_button(j);
        assert(sb.subrange(8, 8 + stop_marker(j.id).len() as int) =~= stop_marker(j.id));
        assert(occurs_at(sb, stop_marker(j.id), 8));
        let h4 = head + escaped(j.message) + "</p>\n            "@ + output_html(j) + "\n            "@;
        assert(card_html(j) =~= h4 + sb + "\n        </div>"@);
        lemma_sub_within(h4, sb, "\n        </div>"@, stop_marker(j.id));
    }
}

/// When the unescaped fields of a job (its id, type and creation time) hold
/// no `"`, its card refreshes itself every second exactly while the job is
/// pending or running, and has a stop button exactly when it is a running
/// ping job.
pub proof fn lemma_job_card_markers(j: JobView)
    requires
        !j.id.contains('"'),
        !j.job_type.contains('"'),
        !j.created_at.contains('"'),
    ensures
        has_sub(card_html(j), poll_marker()) <==> (j.status == JobStatus::Running || j.status == JobStatus::Pending),
        has_sub(card_html(j), stop_marker(j.id)) <==> (j.job_type == "tcpping"@ && j.status == JobStatus::Running),
{
    lemma_job_card_shows(j);
    if !(j.status == JobStatus::Running || j.status == JobStatus::Pending) {
        lemma_card_no_poll(j);
    }
    if !(j.job_type == "tcpping"@ && j.status == JobStatus::Running) {
        lemma_card_no_stop(j);
    }
}

proof fn lemma_card_no_poll(j: JobView)
    requires
        !j.id.contains('"'),
        !j.job_type.contains('"'),
        !j.created_at.contains('"'),
        !(j.status == JobStatus::Running || j.status == JobStatus::Pending),
    ensures
        !has_sub(card_html(j), poll_marker()),
{
    reveal_strlit("<div class=\"job-card bg-white dark:bg-gray-800 rounded-lg shadow p-4 mb-3 border-l-4 ");
    reveal_strlit("\" id=\"job-");
    reveal_strlit("\" ");
    reveal_strlit(">\n            <div class=\"flex flex-col sm:flex-row sm:justify-between sm:items-start gap-1\">\n                <div>\n                    <span class=\"font-semibold capitalize dark:text-white\">");
    reveal_strlit("</span>\n                    <span class=\"ml-2 px-2 py-1 rounded text-xs ");
    reveal_strlit("\">");
    reveal_strlit("</span>\n                </div>\n                <div class=\"text-xs text-gray-500 dark:text-gray-400\">");
    reveal_strlit("</div>\n            </div>\n            <p class=\"text-sm text-gray-600 dark:text-gray-300 mt-2\">");
    reveal_strlit("</p>\n            ");
    reveal_strlit("\n            ");
    reveal_strlit("\n        </div>");
    reveal_strlit("<div class=\"mt-2 bg-gray-900 text-green-400 p-2 rounded text-xs font-mono max-h-48 overflow-y-auto job-output\" id=\"output-");
    reveal_strlit("\">");
    reveal_strlit("</div>\n        <script>document.getElementById('output-");
    reveal_strlit("').scrollTop = document.getElementById('output-");
    reveal_strlit("').scrollHeight;</script>");
    reveal_strlit("<div class=\"py-0.5\">");
    reveal_strlit("</div>");
    reveal_strlit("<button hx-post=\"/api/tcpping/");
    reveal_strlit("/stop\" hx-swap=\"none\" class=\"mt-2 text-red-600 dark:text-red-400 hover:text-red-800 dark:hover:text-red-300 text-sm font-medium\">⏹ Stop</button>");
    reveal_strlit("hx-get=\"/partials/job/");
    reveal_strlit("\" hx-trigger=\"every 1s\" hx-swap=\"outerHTML settle:0s\"");
    reveal_strlit("border-gray-300 dark:border-gray-600");
    reveal_strlit("border-blue-500");
    reveal_strlit("border-green-500");
    reveal_strlit("border-red-500");
    reveal_strlit("bg-gray-100 dark:bg-gray-700 text-gray-800 dark:text-gray-200");
    reveal_strlit("bg-blue-100 dark:bg-blue-900 text-blue-800 dark:text-blue-200 animate-pulse");
    reveal_strlit("bg-green-100 dark:bg-green-900 text-green-800 dark:text-green-200");
    reveal_strlit("bg-red-100 dark:bg-red-900 text-red-800 dark:text-red-200");
    reveal_strlit("Pending");
    reveal_strlit("Running");
    reveal_strlit("Completed");
    reveal_strlit("Failed");
    reveal_strlit("hx-trigger=\"every 1s\"");
    reveal_strlit("hx-post=\"/api/tcpping/");
    reveal_strlit("/stop\"");
    reveal_strlit("tcpping");
    assert(clean("<div class=\"job-card bg-white dark:bg-gray-800 rounded-lg shadow p-4 mb-3 border-l-4 "@, '"', 'e', 'v'));
    assert(clean("\" id=\"job-"@, '"', 'e', 'v'));
    assert(clean("\" "@, '"', 'e', 'v'));
    assert(clean(">\n            <div class=\"flex flex-col sm:flex-row sm:justify-between sm:items-start gap-1\">\n                <div>\n                    <span class=\"font-semibold capitalize dark:text-white\">"@, '"', 'e', 'v'));
    assert(clean("</span>\n                    <span class=\"ml-2 px-2 py-1 rounded text-xs "@, '"', 'e', 'v'));
    assert(clean("\">"@, '"', 'e', 'v'));
    assert(clean("</span>\n                </div>\n                <div class=\"text-xs text-gray-500 dark:text-gray-400\">"@, '"', 'e', 'v'));
    assert(clean("</div>\n            </div>\n            <p class=\"text-sm text-gray-600 dark:text-gray-300 mt-2\">"@, '"', 'e', 'v'));
    assert(clean("</p>\n            "@, '"', 'e', 'v'));
    assert(clean("\n            "@, '"', 'e', 'v'));
    assert(clean("\n        </div>"@, '"', 'e', 'v'));
    assert(clean("<div class=\"mt-2 bg-gray-900 text-green-400 p-2 rounded text-xs font-mono max-h-48 overflow-y-auto job-output\" id=\"output-"@, '"', 'e', 'v'));
    assert(clean("\">"@, '"', 'e', 'v'));
    assert(clean("</div>\n        <script>document.getElementById('output-"@, '"', 'e', 'v'));
    assert(clean("').scrollTop = document.getElementById('output-"@, '"', 'e', 'v'));
    assert(clean("').scrollHeight;</script>"@, '"', 'e', 'v'));
    assert(clean("<div class=\"py-0.5\">"@, '"', 'e', 'v'));
    assert(clean("</div>"@, '"', 'e', 'v'));
    assert(clean("border-gray-300 dark:border-gray-600"@, '"', 'e', 'v'));
    assert(clean("border-blue-500"@, '"', 'e', 'v'));
    assert(clean("border-green-500"@, '"', 'e', 'v'));
    assert(clean("border-red-500"@, '"', 'e', 'v'));
    assert(clean("bg-gray-100 dark:bg-gray-700 text-gray-800 dark:text-gray-200"@, '"', 'e', 'v'));
    assert(clean("bg-blue-100 dark:bg-blue-900 text-blue-800 dark:text-blue-200 animate-pulse"@, '"', 'e', 'v'));
    assert(clean("bg-green-100 dark:bg-green-900 text-green-800 dark:text-green-200"@, '"', 'e', 'v'));
    assert(clean("bg-red-100 dark:bg-red-900 text-red-800 dark:text-red-200"@, '"', 'e', 'v'));
    assert(clean("Pending"@, '"', 'e', 'v'));
    assert(clean("Running"@, '"', 'e', 'v'));
    assert(clean("Completed"@, '"', 'e', 'v'));
    assert(clean("Failed"@, '"', 'e', 'v'));
    lemma_card_clean(j, '"', 'e', 'v');
    if has_sub(card_html(j), poll_marker()) {
        lemma_triple_of_sub(card_html(j), poll_marker(), 11, '"', 'e', 'v');
    }
}

proof fn lemma_card_no_stop(j: JobView)
    requires
        !j.id.contains('"'),
        !j.job_type.contains('"'),
        !j.created_at.contains('"'),
        !(j.job_type == "tcpping"@ && j.status == JobStatus::Running),
    ensures
        !has_sub(card_html(j), stop_marker(j.id)),
{
    reveal_strlit("<div class=\"job-card bg-white dark:bg-gray-800 rounded-lg shadow p-4 mb-3 border-l-4 ");
    reveal_strlit("\" id=\"job-");
    reveal_strlit("\" ");
    reveal_strlit(">\n            <div class=\"flex flex-col sm:flex-row sm:justify-between sm:items-start gap-1\">\n                <div>\n                    <span class=\"font-semibold capitalize dark:text-white\">");
    reveal_strlit("</span>\n                    <span class=\"ml-2 px-2 py-1 rounded text-xs ");
    reveal_strlit("\">");
    reveal_strlit("</span>\n                </div>\n                <div class=\"text-xs text-gray-500 dark:text-gray-400\">");
    reveal_strlit("</div>\n            </div>\n            <p class=\"text-sm text-gray-600 dark:text-gray-300 mt-2\">");
    reveal_strlit("</p>\n            ");
    reveal_strlit("\n            ");
    reveal_strlit("\n        </div>");
    reveal_strlit("<div class=\"mt-2 bg-gray-900 text-green-400 p-2 rounded text-xs font-mono max-h-48 overflow-y-auto job-output\" id=\"output-");
    reveal_strlit("\">");
    reveal_strlit("</div>\n        <script>document.getElementById('output-");
    reveal_strlit("').scrollTop = document.getElementById('output-");
    reveal_strlit("').scrollHeight;</script>");
    reveal_strlit("<div class=\"py-0.5\">");
    reveal_strlit("</div>");
    reveal_strlit("<button hx-post=\"/api/tcpping/");
    reveal_strlit("/stop\" hx-swap=\"none\" class=\"mt-2 text-red-600 dark:text-red-400 hover:text-red-800 dark:hover:text-red-300 text-sm font-medium\">⏹ Stop</button>");
    reveal_strlit("hx-get=\"/partials/job/");
    reveal_strlit("\" hx-trigger=\"every 1s\" hx-swap=\"outerHTML settle:0s\"");
    reveal_strlit("border-gray-300 dark:border-gray-600");
    reveal_strlit("border-blue-500");
    reveal_strlit("border-green-500");
    reveal_strlit("border-red-500");
    reveal_strlit("bg-gray-100 dark:bg-gray-700 text-gray-800 dark:text-gray-200");
    reveal_strlit("bg-blue-100 dark:bg-blue-900 text-blue-800 dark:text-blue-200 animate-pulse");
    reveal_strlit("bg-green-100 dark:bg-green-900 text-green-800 dark:text-green-200");
    reveal_strlit("bg-red-100 dark:bg-red-900 text-red-800 dark:text-red-200");
    reveal_strlit("Pending");
    reveal_strlit("Running");
    reveal_strlit("Completed");
    reveal_strlit("Failed");
    reveal_strlit("hx-trigger=\"every 1s\"");
    reveal_strlit("hx-post=\"/api/tcpping/");
    reveal_strlit("/stop\"");
    reveal_strlit("tcpping");
    assert(clean("<div class=\"job-card bg-white dark:bg-gray-800 rounded-lg shadow p-4 mb-3 border-l-4 "@, '"', '/', 'a'));
    assert(clean("\" id=\"job-"@, '"', '/', 'a'));
    assert(clean("\" "@, '"', '/', 'a'));
    assert(clean(">\n            <div class=\"flex flex-col sm:flex-row sm:justify-between sm:items-start gap-1\">\n                <div>\n                    <span class=\"font-semibold capitalize dark:text-white\">"@, '"', '/', 'a'));
    assert(clean("</span>\n                    <span class=\"ml-2 px-2 py-1 rounded text-xs "@, '"', '/', 'a'));
    assert(clean("\">"@, '"', '/', 'a'));
    assert(clean("</span>\n                </div>\n                <div class=\"text-xs text-gray-500 dark:text-gray-400\">"@, '"', '/', 'a'));
    assert(clean("</div>\n            </div>\n            <p class=\"text-sm text-gray-600 dark:text-gray-300 mt-2\">"@, '"', '/', 'a'));
    assert(clean("</p>\n            "@, '"', '/', 'a'));
    assert(clean("\n            "@, '"', '/', 'a'));
    assert(clean("\n        </div>"@, '"', '/', 'a'));
    assert(clean("<div class=\"mt-2 bg-gray-900 text-green-400 p-2 rounded text-xs font-mono max-h-48 overflow-y-auto job-output\" id=\"output-"@, '"', '/', 'a'));
    assert(clean("\">"@, '"', '/', 'a'));
    assert(clean("</div>\n        <script>document.getElementById('output-"@, '"', '/', 'a'));
    assert(clean("').scrollTop = document.getElementById('output-"@, '"', '/', 'a'));
    assert(clean("').scrollHeight;</script>"@, '"', '/', 'a'));
    assert(clean("<div class=\"py-0.5\">"@, '"', '/', 'a'));
    assert(clean("</div>"@, '"', '/', 'a'));
    assert(clean("border-gray-300 dark:border-gray-600"@, '"', '/', 'a'));
    assert(clean("border-blue-500"@, '"', '/', 'a'));
    assert(clean("border-green-500"@, '"', '/', 'a'));
    assert(clean("border-red-500"@, '"', '/', 'a'));
    assert(clean("bg-gray-100 dark:bg-gray-700 text-gray-800 dark:text-gray-200"@, '"', '/', 'a'));
    assert(clean("bg-blue-100 dark:bg-blue-900 text-blue-800 dark:text-blue-200 animate-pulse"@, '"', '/', 'a'));
    assert(clean("bg-green-100 dark:bg-green-900 text-green-800 dark:text-green-200"@, '"', '/', 'a'));
    assert(clean("bg-red-100 dark:bg-red-900 text-red-800 dark:text-red-200"@, '"', '/', 'a'));
    assert(clean("Pending"@, '"', '/', 'a'));
    assert(clean("Running"@, '"', '/', 'a'));
    assert(clean("Completed"@, '"', '/', 'a'));
    assert(clean("Failed"@, '"', '/', 'a'));
    assert(clean("hx-get=\"/partials/job/"@, '"', '/', 'a'));
    assert(clean("\" hx-trigger=\"every 1s\" hx-swap=\"outerHTML settle:0s\""@ + ">\n            <div class=\"flex flex-col sm:flex-row sm:justify-between sm:items-start gap-1\">\n                <div>\n                    <span class=\"font-semibold capitalize dark:text-white\">"@, '"', '/', 'a'));
    lemma_card_clean(j, '"', '/', 'a');
    if has_sub(card_html(j), stop_marker(j.id)) {
        assert(stop_marker(j.id)[8] == '"' && stop_marker(j.id)[9] == '/' && stop_marker(j.id)[10] == 'a');
        lemma_triple_of_sub(card_html(j), stop_marker(j.id), 8, '"', '/', 'a');
    }
}

} // verus!
