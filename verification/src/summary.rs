use vstd::prelude::*;
use crate::text::{string_views, chars_of, string_of, extend_str, views, has_sub, starts_with, contains_str, starts_with_str, trim, trimmed, split_lines, lines_of, slice_of};

verus! {


/// The trimmed, non-blank lines of capinfos' report.
pub open spec fn info_rows(lines: Seq<Seq<char>>) -> Seq<Seq<char>>
    decreases lines.len(),
{
    if lines.len() == 0 {
        Seq::<Seq<char>>::empty()
    } else {
        let t = trim(lines[0]);
        let rest = info_rows(lines.drop_first());
        if t.len() == 0 {
            rest
        } else {
            seq![t] + rest
        }
    }
}

/// The trimmed rows of the protocol hierarchy table: every line after a title
/// line, but blank and `=` lines; each further title line restarts the table.
pub open spec fn hierarchy_rows(lines: Seq<Seq<char>>, in_table: bool) -> Seq<Seq<char>>
    decreases lines.len(),
{
    if lines.len() == 0 {
        Seq::<Seq<char>>::empty()
    } else {
        let l = lines[0];
        let t = trim(l);
        if has_sub(l, "Protocol Hierarchy Statistics"@) {
            seq![Seq::<char>::empty()] + hierarchy_rows(lines.drop_first(), true)
        } else if in_table && !(t.len() == 0 || starts_with(t, "="@)) {
            seq![t] + hierarchy_rows(lines.drop_first(), in_table)
        } else {
            hierarchy_rows(lines.drop_first(), in_table)
        }
    }
}

/// How a hierarchy row is shown: a title row as the heading, others indented.
pub open spec fn shown_row(t: Seq<char>) -> Seq<char> {
    if t.len() == 0 {
        "  Protocol Hierarchy:"@
    } else {
        "    "@ + t
    }
}

pub open spec fn indented(rows: Seq<Seq<char>>, pad: Seq<char>) -> Seq<Seq<char>> {
    rows.map_values(|t: Seq<char>| pad + t)
}

/// The lines of a capture summary: a title, capinfos' report, a blank line,
/// then the protocol hierarchy.
pub open spec fn summary_spec(filename: Seq<char>, info: Seq<char>, hierarchy: Seq<char>) -> Seq<
    Seq<char>,
> {
    seq!["=== "@ + filename + " ==="@] + indented(info_rows(lines_of(info)), "  "@) + seq![
        Seq::<char>::empty(),
    ] + hierarchy_rows(lines_of(hierarchy), false).map_values(|t: Seq<char>| shown_row(t))
}

/// The trimmed, non-blank lines of a report.
pub fn report_rows(text: &str) -> (r: Vec<String>)
    ensures
        string_views(r@) == info_rows(lines_of(text@)),
{
    let tv = chars_of(text);
    let lines = split_lines(&tv);
    let ghost ls = lines_of(text@);
    let mut out: Vec<String> = Vec::new();
    let mut i: usize = 0;
    assert(ls.skip(0) =~= ls);
    assert(string_views(out@) + info_rows(ls) =~= info_rows(ls));
    while i < lines.len()
        invariant
            i <= lines.len(),
            views(lines@) == ls,
            string_views(out@) + info_rows(ls.skip(i as int)) == info_rows(ls),
        decreases lines.len() - i,
    {
        let ghost rest = ls.skip(i as int);
        assert(rest[0] == lines@[i as int]@);
        assert(rest.drop_first() =~= ls.skip(i + 1));
        let t = trimmed(&lines[i]);
        if t.len() > 0 {
            let ghost before = string_views(out@);
            let s = string_of(&t);
            out.push(s);
            assert(string_views(out@) =~= before.push(t@));
            assert(before.push(t@) + info_rows(ls.skip(i + 1)) =~= before + (seq![t@] + info_rows(
                ls.skip(i + 1),
            )));
        }
        i += 1;
    }
    assert(ls.skip(lines.len() as int) =~= Seq::<Seq<char>>::empty());
    assert(string_views(out@) + Seq::<Seq<char>>::empty() =~= string_views(out@));
    out
}

/// The rows of tshark's protocol hierarchy table (`-z io,phs`); an empty row
/// stands for the table's title.
pub fn protocol_hierarchy_rows(text: &str) -> (r: Vec<String>)
    ensures
        string_views(r@) == hierarchy_rows(lines_of(text@), false),
{
    let tv = chars_of(text);
    let lines = split_lines(&tv);
    let ghost ls = lines_of(text@);
    let mut out: Vec<String> = Vec::new();
    let mut in_table = false;
    let mut i: usize = 0;
    assert(ls.skip(0) =~= ls);
    assert(string_views(out@) + hierarchy_rows(ls, false) =~= hierarchy_rows(ls, false));
    while i < lines.len()
        invariant
            i <= lines.len(),
            views(lines@) == ls,
            string_views(out@) + hierarchy_rows(ls.skip(i as int), in_table) == hierarchy_rows(
                ls,
                false,
            ),
        decreases lines.len() - i,
    {
        let ghost rest = ls.skip(i as int);
        assert(rest[0] == lines@[i as int]@);
        assert(rest.drop_first() =~= ls.skip(i + 1));
        let ghost before = string_views(out@);
        if contains_str(&lines[i], "Protocol Hierarchy Statistics") {
            out.push(String::new());
            in_table = true;
            assert(string_views(out@) =~= before.push(Seq::<char>::empty()));
            assert(before.push(Seq::<char>::empty()) + hierarchy_rows(ls.skip(i + 1), true)
                =~= before + (seq![Seq::<char>::empty()] + hierarchy_rows(ls.skip(i + 1), true)));
        } else if in_table {
            let t = trimmed(&lines[i]);
            if t.len() == 0 || starts_with_str(&t, "=") {
            } else {
                let s = string_of(&t);
                out.push(s);
                assert(string_views(out@) =~= before.push(t@));
                assert(before.push(t@) + hierarchy_rows(ls.skip(i + 1), in_table) =~= before + (
                seq![t@] + hierarchy_rows(ls.skip(i + 1), in_table)));
            }
        }
        i += 1;
    }
    assert(ls.skip(lines.len() as int) =~= Seq::<Seq<char>>::empty());
    assert(string_views(out@) + Seq::<Seq<char>>::empty() =~= string_views(out@));
    out
}

fn prefixed(pad: &str, t: &String) -> (r: String)
    ensures
        r@ == pad@ + t@,
{
    let mut v: Vec<char> = Vec::new();
    extend_str(&mut v, pad);
    extend_str(&mut v, t.as_str());
    string_of(&v)
}

/// The summary of one capture as lines of text: a title with the file name,
/// capinfos' report indented, a blank line, then the protocol hierarchy.
pub fn get_summary_lines(filename: &str, capinfos_output: &str, hierarchy_output: &str) -> (r: Vec<
    String,
>)
    ensures
        string_views(r@) == summary_spec(filename@, capinfos_output@, hierarchy_output@),
{
    let mut out: Vec<String> = Vec::new();
    let mut title: Vec<char> = Vec::new();
    extend_str(&mut title, "=== ");
    extend_str(&mut title, filename);
    extend_str(&mut title, " ===");
    out.push(string_of(&title));
    let info = report_rows(capinfos_output);
    let mut i: usize = 0;
    let ghost ir = info_rows(lines_of(capinfos_output@));
    while i < info.len()
        invariant
            i <= info.len(),
            string_views(info@) == ir,
            string_views(out@) == seq!["=== "@ + filename@ + " ==="@] + indented(
                ir.take(i as int),
                "  "@,
            ),
        decreases info.len() - i,
    {
        let ghost before = string_views(out@);
        assert(ir[i as int] == info@[i as int]@);
        let s = prefixed("  ", &info[i]);
        out.push(s);
        assert(string_views(out@) =~= before.push("  "@ + ir[i as int]));
        assert(indented(ir.take(i + 1), "  "@) =~= indented(ir.take(i as int), "  "@).push(
            "  "@ + ir[i as int],
        ));
        i += 1;
    }
    assert(ir.take(info.len() as int) =~= ir);
    let ghost head = string_views(out@);
    out.push(String::new());
    assert(string_views(out@) =~= head.push(Seq::<char>::empty()));
    let rows = protocol_hierarchy_rows(hierarchy_output);
    let ghost hr = hierarchy_rows(lines_of(hierarchy_output@), false);
    let ghost head2 = string_views(out@);
    let mut k: usize = 0;
    while k < rows.len()
        invariant
            k <= rows.len(),
            string_views(rows@) == hr,
            string_views(out@) == head2 + hr.take(k as int).map_values(
                |t: Seq<char>| shown_row(t),
            ),
        decreases rows.len() - k,
    {
        let ghost before = string_views(out@);
        assert(hr[k as int] == rows@[k as int]@);
        let s = if rows[k].as_str().is_empty() {
            string_of(&chars_of("  Protocol Hierarchy:"))
        } else {
            prefixed("    ", &rows[k])
        };
        out.push(s);
        assert(string_views(out@) =~= before.push(shown_row(hr[k as int])));
        assert(hr.take(k + 1).map_values(|t: Seq<char>| shown_row(t)) =~= hr.take(
            k as int,
        ).map_values(|t: Seq<char>| shown_row(t)).push(shown_row(hr[k as int])));
        k += 1;
    }
    assert(hr.take(rows.len() as int) =~= hr);
    assert(string_views(out@) =~= summary_spec(filename@, capinfos_output@, hierarchy_output@));
    out
}

/// The key and value of a `key: value` line, both trimmed (`split_once(':')`).
pub open spec fn key_value_spec(line: Seq<char>) -> Option<(Seq<char>, Seq<char>)> {
    if line.contains(':') {
        let i = first_index(line, ':');
        Some((trim(line.take(i)), trim(line.skip(i + 1))))
    } else {
        None
    }
}

/// The position of the first occurrence of `c`, if any.
pub open spec fn first_index(s: Seq<char>, c: char) -> int
    decreases s.len(),
{
    if s.len() == 0 {
        -1
    } else if s[0] == c {
        0
    } else {
        let r = first_index(s.drop_first(), c);
        if r < 0 {
            -1
        } else {
            r + 1
        }
    }
}

proof fn lemma_first_index(s: Seq<char>, c: char)
    ensures
        -1 <= first_index(s, c) < s.len(),
        first_index(s, c) >= 0 ==> s[first_index(s, c)] == c,
    decreases s.len(),
{
    if s.len() > 0 {
        lemma_first_index(s.drop_first(), c);
    }
}

/// Splits a `key: value` line at its first colon and trims both parts.
pub fn split_key_value(line: &str) -> (r: Option<(String, String)>)
    ensures
        r matches Some((k, v)) ==> key_value_spec(line@) == Some((k@, v@)),
        r is None ==> key_value_spec(line@) is None,
{
    let lv = chars_of(line);
    let mut i: usize = 0;
    proof {
        lemma_first_index(lv@, ':');
    }
    assert(lv@.skip(0) =~= lv@);
    while i < lv.len() && lv[i] != ':'
        invariant
            i <= lv.len(),
            forall|j: int| 0 <= j < i ==> lv@[j] != ':',
            first_index(lv@, ':') == (if first_index(lv@.skip(i as int), ':') < 0 {
                -1
            } else {
                first_index(lv@.skip(i as int), ':') + i
            }),
        decreases lv.len() - i,
    {
        assert(lv@.skip(i as int).drop_first() =~= lv@.skip(i + 1));
        i += 1;
    }
    if i == lv.len() {
        assert(!lv@.contains(':')) by {
            if lv@.contains(':') {
                let k = choose|k: int| 0 <= k < lv@.len() && lv@[k] == ':';
                assert(lv@[k] != ':');
            }
        }
        return None;
    }
    assert(lv@.skip(i as int)[0] == ':');
    assert(lv@.contains(':'));
    let key = slice_of(&lv, 0, i);
    let value = slice_of(&lv, i + 1, lv.len());
    assert(key@ =~= lv@.take(i as int));
    assert(value@ =~= lv@.skip(i + 1));
    Some((string_of(&trimmed(&key)), string_of(&trimmed(&value))))
}

} // verus!
