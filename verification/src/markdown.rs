//! Markdown sectioning for documentation chunks.

use vstd::prelude::*;
use crate::text::{is_white_space, trim_end_ws, trim_start_ws, chars_of, lines_of, lines_spec, string_from_chars, trim_start_char, trim_start_char_vec, trim_ws, trim_ws_vec};

verus! {

/// A section: heading, text (heading line included, each line followed by a
/// newline), first line, last line (1-based).
pub type SectionView = (Seq<char>, Seq<char>, int, int);

/// Sectioning state: closed sections and the open one (heading, text, first line).
pub ghost struct MdState {
    pub sections: Seq<SectionView>,
    pub current: Option<(Seq<char>, Seq<char>, int)>,
}

/// A line is a heading when it starts with `#`.
pub open spec fn is_heading(line: Seq<char>) -> bool {
    line.len() > 0 && line[0] == '#'
}

/// Process line number `line_no` (1-based): a heading closes the open
/// section at the previous line and opens a new one titled by the line
/// without its leading `#`s and surrounding whitespace; any other line
/// extends the open section, or opens an untitled preamble section.
pub open spec fn md_step(st: MdState, line: Seq<char>, line_no: int) -> MdState {
    if is_heading(line) {
        MdState {
            sections: match st.current {
                Some((h, b, s)) => st.sections.push((h, b, s, line_no - 1)),
                None => st.sections,
            },
            current: Some((trim_ws(trim_start_char(line, '#')), line.push('\n'), line_no)),
        }
    } else {
        match st.current {
            Some((h, b, s)) => MdState { sections: st.sections, current: Some((h, b + line.push('\n'), s)) },
            None => MdState { sections: st.sections, current: Some((Seq::empty(), line.push('\n'), line_no)) },
        }
    }
}

/// State after the given lines.
pub open spec fn md_fold(lines: Seq<Seq<char>>) -> MdState
    decreases lines.len(),
{
    if lines.len() == 0 {
        MdState { sections: Seq::empty(), current: None }
    } else {
        md_step(md_fold(lines.drop_last()), lines.last(), lines.len() as int)
    }
}

/// Heading-bounded sections of a text.
pub open spec fn split_markdown_spec(s: Seq<char>) -> Seq<SectionView> {
    let lines = lines_spec(s);
    let st = md_fold(lines);
    match st.current {
        Some((h, b, start)) => st.sections.push((h, b, start, lines.len() as int)),
        None => st.sections,
    }
}

/// View of the sections returned by [`split_markdown`].
pub open spec fn sections_view(v: Seq<(String, String, usize, usize)>) -> Seq<SectionView> {
    v.map_values(|x: (String, String, usize, usize)| (x.0@, x.1@, x.2 as int, x.3 as int))
}

fn append_line(body: &mut Vec<char>, line: &Vec<char>)
    ensures
        final(body)@ == old(body)@ + line@.push('\n'),
{
    let mut i: usize = 0;
    while i < line.len()
        invariant
            i <= line.len(),
            body@ == old(body)@ + line@.take(i as int),
        decreases line.len() - i,
    {
        body.push(line[i]);
        i = i + 1;
        proof {
            assert(line@.take(i as int) =~= line@.take(i - 1).push(line@[i - 1]));
        }
    }
    body.push('\n');
    proof {
        assert(line@.take(line.len() as int) =~= line@);
    }
}

/// Split a markdown document into heading-bounded sections:
/// (heading, section text incl. heading, first line, last line).
pub fn split_markdown(norm: &str) -> (r: Vec<(String, String, usize, usize)>)
    ensures
        sections_view(r@) == split_markdown_spec(norm@),
{
    let chars = chars_of(norm);
    let lines = lines_of(&chars);
    let ghost ls = lines_spec(norm@);
    let mut sections: Vec<(String, String, usize, usize)> = Vec::new();
    let mut cur_heading: Vec<char> = Vec::new();
    let mut cur_body: Vec<char> = Vec::new();
    let mut cur_start: usize = 0;
    let mut has_current = false;
    let mut i: usize = 0;
    proof {
        assert(ls.take(0) =~= Seq::<Seq<char>>::empty());
        assert(sections_view(sections@) =~= Seq::<SectionView>::empty());
    }
    while i < lines.len()
        invariant
            i <= lines.len(),
            lines@.map_values(|l: Vec<char>| l@) == ls,
            sections_view(sections@) == md_fold(ls.take(i as int)).sections,
            has_current ==> md_fold(ls.take(i as int)).current == Some((cur_heading@, cur_body@, cur_start as int)),
            !has_current ==> md_fold(ls.take(i as int)).current is None,
            cur_start <= i,
        decreases lines.len() - i,
    {
        let line = &lines[i];
        proof {
            assert(ls.take(i + 1).drop_last() =~= ls.take(i as int));
            assert(ls.take(i + 1).last() == line@);
            assert(ls[i as int] == line@);
        }
        let ghost old_sections = sections@;
        if line.len() > 0 && line[0] == '#' {
            if has_current {
                sections.push((string_from_chars(&cur_heading), string_from_chars(&cur_body), cur_start, i));
                proof {
                    assert(sections_view(sections@) =~= sections_view(old_sections).push(
                        (cur_heading@, cur_body@, cur_start as int, (i + 1) - 1),
                    ));
                }
            }
            let stripped = trim_start_char_vec(line, '#');
            cur_heading = trim_ws_vec(&stripped);
            cur_body = Vec::new();
            append_line(&mut cur_body, line);
            proof {
                assert(cur_body@ =~= line@.push('\n'));
            }
            cur_start = i + 1;
            has_current = true;
        } else if has_current {
            append_line(&mut cur_body, line);
        } else {
            cur_heading = Vec::new();
            cur_body = Vec::new();
            append_line(&mut cur_body, line);
            proof {
                assert(cur_body@ =~= line@.push('\n'));
                assert(cur_heading@ =~= Seq::<char>::empty());
            }
            cur_start = i + 1;
            has_current = true;
        }
        i = i + 1;
    }
    proof {
        assert(ls.take(lines.len() as int) =~= ls);
    }
    if has_current {
        let ghost old_sections = sections@;
        sections.push((string_from_chars(&cur_heading), string_from_chars(&cur_body), cur_start, i));
        proof {
            assert(sections_view(sections@) =~= sections_view(old_sections).push(
                (cur_heading@, cur_body@, cur_start as int, ls.len() as int),
            ));
        }
    }
    sections
}

/// `h` is the title of heading line `line`: the line with its whole
/// leading run of `#`s removed, then trimmed; it has no whitespace at
/// either end.
pub open spec fn heading_title(line: Seq<char>, h: Seq<char>) -> bool {
    &&& exists|k: int|
        1 <= k <= line.len() && (forall|j: int| 0 <= j < k ==> #[trigger] line[j] == '#') && (k == line.len()
            || line[k] != '#') && h == #[trigger] trim_ws(line.skip(k))
    &&& h.len() > 0 ==> !is_white_space(h[0]) && !is_white_space(h.last())
}

/// Section `sec` is a well-formed section of the text with lines `lines`:
/// it spans lines `sec.2..=sec.3` (1-based), its text starts with its first
/// line, and its heading is that line's title when the line is a heading,
/// empty otherwise.
pub open spec fn section_of_lines(sec: SectionView, lines: Seq<Seq<char>>) -> bool {
    let line = lines[sec.2 - 1];
    &&& 1 <= sec.2 <= sec.3 <= lines.len()
    &&& sec.1.len() >= line.len() + 1 && sec.1.take(line.len() as int + 1) == line.push('\n')
    &&& line.len() > 0 && line[0] == '#' ==> heading_title(line, sec.0)
    &&& !(line.len() > 0 && line[0] == '#') ==> sec.0.len() == 0
}

proof fn lemma_trim_start_run(s: Seq<char>, c: char) -> (k: int)
    ensures
        0 <= k <= s.len(),
        forall|j: int| 0 <= j < k ==> #[trigger] s[j] == c,
        k == s.len() || s[k] != c,
        trim_start_char(s, c) == s.skip(k),
    decreases s.len(),
{
    if s.len() > 0 && s[0] == c {
        let k1 = lemma_trim_start_run(s.drop_first(), c);
        assert forall|j: int| 0 <= j < k1 + 1 implies #[trigger] s[j] == c by {
            if j > 0 {
                assert(s[j] == s.drop_first()[j - 1]);
            }
        }
        assert(s.drop_first().skip(k1) =~= s.skip(k1 + 1));
        if k1 + 1 < s.len() {
            assert(s[k1 + 1] == s.drop_first()[k1]);
        }
        k1 + 1
    } else {
        assert(s.skip(0) =~= s);
        0
    }
}

proof fn lemma_trim_start_ws_first(s: Seq<char>)
    ensures
        trim_start_ws(s).len() > 0 ==> !is_white_space(trim_start_ws(s)[0]),
    decreases s.len(),
{
    if s.len() > 0 && is_white_space(s[0]) {
        lemma_trim_start_ws_first(s.drop_first());
    }
}

proof fn lemma_trim_end_ws_prefix(s: Seq<char>)
    ensures
        trim_end_ws(s).len() <= s.len(),
        trim_end_ws(s) == s.take(trim_end_ws(s).len() as int),
        trim_end_ws(s).len() > 0 ==> !is_white_space(trim_end_ws(s).last()),
    decreases s.len(),
{
    if s.len() > 0 && is_white_space(s.last()) {
        lemma_trim_end_ws_prefix(s.drop_last());
        let t = trim_end_ws(s.drop_last());
        assert(t =~= s.take(t.len() as int)) by {
            assert forall|i: int| 0 <= i < t.len() implies t[i] == s.take(t.len() as int)[i] by {
                assert(t[i] == s.drop_last().take(t.len() as int)[i]);
            }
        }
    } else {
        assert(s.take(s.len() as int) =~= s);
    }
}

proof fn lemma_trim_ws_ends(t: Seq<char>)
    ensures
        trim_ws(t).len() > 0 ==> !is_white_space(trim_ws(t)[0]) && !is_white_space(trim_ws(t).last()),
{
    let u = trim_start_ws(t);
    lemma_trim_start_ws_first(t);
    lemma_trim_end_ws_prefix(u);
    let h = trim_end_ws(u);
    if h.len() > 0 {
        assert(h[0] == u.take(h.len() as int)[0]);
    }
}

proof fn lemma_heading_title(line: Seq<char>)
    requires
        line.len() > 0 && line[0] == '#',
    ensures
        heading_title(line, trim_ws(trim_start_char(line, '#'))),
{
    let k = lemma_trim_start_run(line, '#');
    assert(k >= 1);
    lemma_trim_ws_ends(line.skip(k));
}

/// The state after reading `lines` is made of well-formed sections, and an
/// open section that is well formed when closed at the last line read.
pub open spec fn md_state_ok(st: MdState, lines: Seq<Seq<char>>) -> bool {
    &&& forall|i: int| 0 <= i < st.sections.len() ==> section_of_lines(#[trigger] st.sections[i], lines)
    &&& st.current matches Some((h, b, s)) ==> section_of_lines((h, b, s, lines.len() as int), lines)
}

proof fn lemma_md_fold_ok(lines: Seq<Seq<char>>)
    ensures
        md_state_ok(md_fold(lines), lines),
    decreases lines.len(),
{
    if lines.len() > 0 {
        let pl = lines.drop_last();
        let n = lines.len() as int;
        lemma_md_fold_ok(pl);
        let st = md_fold(pl);
        let line = lines.last();
        assert(line == lines[n - 1]);
        assert forall|i: int| 0 <= i < st.sections.len() implies section_of_lines(#[trigger] st.sections[i], lines) by {
            let sec = st.sections[i];
            assert(section_of_lines(sec, pl));
            assert(pl[sec.2 - 1] == lines[sec.2 - 1]);
        }
        if let Some((h, b, s0)) = st.current {
            assert(section_of_lines((h, b, s0, pl.len() as int), pl));
            assert(pl[s0 - 1] == lines[s0 - 1]);
            assert(section_of_lines((h, b, s0, n - 1), lines));
            let l0 = lines[s0 - 1];
            assert((b + line.push('\n')).take(l0.len() as int + 1) =~= b.take(l0.len() as int + 1));
        }
        if is_heading(line) {
            lemma_heading_title(line);
            assert(line.push('\n').take(line.len() as int + 1) =~= line.push('\n'));
        } else {
            assert(line.push('\n').take(line.len() as int + 1) =~= line.push('\n'));
        }
        let r = md_fold(lines);
        assert(r == md_step(st, line, n));
        assert forall|i: int| 0 <= i < r.sections.len() implies section_of_lines(#[trigger] r.sections[i], lines) by {
            if i < st.sections.len() {
                assert(r.sections[i] == st.sections[i]);
            }
        }
    }
}

/// Every section of a text spans its own lines, starts with its first line,
/// and is titled by that line's heading: the line without its whole
/// leading run of `#`s, trimmed (so a `## Install` line titles its section
/// `Install`), or untitled when the section does not start at a heading.
pub proof fn lemma_section_headings(s: Seq<char>)
    ensures
        forall|i: int|
            0 <= i < split_markdown_spec(s).len() ==> section_of_lines(
                #[trigger] split_markdown_spec(s)[i],
                lines_spec(s),
            ),
{
    let lines = lines_spec(s);
    lemma_md_fold_ok(lines);
    let st = md_fold(lines);
    let r = split_markdown_spec(s);
    assert forall|i: int| 0 <= i < r.len() implies section_of_lines(#[trigger] r[i], lines) by {
        if i < st.sections.len() {
            assert(r[i] == st.sections[i]);
        }
    }
}

} // verus!
