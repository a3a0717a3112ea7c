//! The section format of an entry: parsing an entry into its sections, and
//! writing a new entry that carries sections over from the previous one.
use vstd::prelude::*;
use crate::config::SectionConfig;
use crate::date::{CalendarDate, long_date, long_text, push_char};

verus! {

/// The lines of `s`, continuing a line that already holds `cur`. Lines end at
/// `'\n'`, which belongs to no line; a final line needs no terminator, and a
/// terminator at the very end starts no further line.
pub open spec fn lines_from(s: Seq<char>, cur: Seq<char>) -> Seq<Seq<char>>
    decreases s.len(),
{
    if s.len() == 0 {
        if cur.len() == 0 {
            seq![]
        } else {
            seq![cur]
        }
    } else if s[0] == '\n' {
        seq![cur] + lines_from(s.drop_first(), seq![])
    } else {
        lines_from(s.drop_first(), cur.push(s[0]))
    }
}

/// The lines of a text.
pub open spec fn lines(s: Seq<char>) -> Seq<Seq<char>> {
    lines_from(s, seq![])
}

/// Lines joined with a single `'\n'` between neighbours.
pub open spec fn join_lines(ls: Seq<Seq<char>>) -> Seq<char>
    decreases ls.len(),
{
    if ls.len() == 0 {
        seq![]
    } else if ls.len() == 1 {
        ls[0]
    } else {
        ls[0] + seq!['\n'] + join_lines(ls.drop_first())
    }
}

/// A heading line starts with `## `.
pub open spec fn is_heading(l: Seq<char>) -> bool {
    l.len() >= 3 && l[0] == '#' && l[1] == '#' && l[2] == ' '
}

/// The title of a heading line: what follows its `## ` marker.
pub open spec fn heading_title(l: Seq<char>) -> Seq<char> {
    l.subrange(3, l.len() as int)
}

/// The section being collected, if any, as a (title, body) pair.
pub open spec fn flush(cur: Option<Seq<char>>, body: Seq<Seq<char>>) -> Seq<(Seq<char>, Seq<char>)> {
    match cur {
        Some(t) => seq![(t, join_lines(body))],
        None => seq![],
    }
}

/// The sections, in order of appearance, of lines `ls` that follow a section
/// `cur` whose body so far is `body`. Lines before the first heading belong
/// to no section.
pub open spec fn scan(ls: Seq<Seq<char>>, cur: Option<Seq<char>>, body: Seq<Seq<char>>) -> Seq<
    (Seq<char>, Seq<char>),
>
    decreases ls.len(),
{
    if ls.len() == 0 {
        flush(cur, body)
    } else if is_heading(ls[0]) {
        flush(cur, body) + scan(ls.drop_first(), Some(heading_title(ls[0])), seq![])
    } else if cur is Some {
        scan(ls.drop_first(), cur, body.push(ls[0]))
    } else {
        scan(ls.drop_first(), None, seq![])
    }
}

/// The (title, body) sections of a text, in order of appearance.
pub open spec fn sections(text: Seq<char>) -> Seq<(Seq<char>, Seq<char>)> {
    scan(lines(text), None, seq![])
}

/// The map from title to body of a sequence of sections; a later section
/// overwrites an earlier one with the same title.
pub open spec fn to_map(secs: Seq<(Seq<char>, Seq<char>)>) -> Map<Seq<char>, Seq<char>>
    decreases secs.len(),
{
    if secs.len() == 0 {
        Map::empty()
    } else {
        to_map(secs.drop_last()).insert(secs.last().0, secs.last().1)
    }
}

/// The section map of an entry's text.
pub open spec fn section_map(text: Seq<char>) -> Map<Seq<char>, Seq<char>> {
    to_map(sections(text))
}

/// The body stored under `title`, or the empty body.
pub open spec fn lookup(m: Map<Seq<char>, Seq<char>>, title: Seq<char>) -> Seq<char> {
    if m.contains_key(title) {
        m[title]
    } else {
        seq![]
    }
}

proof fn lemma_lines_concat(a: Seq<char>, b: Seq<char>, cur: Seq<char>)
    requires
        a.len() > 0,
        a.last() == '\n',
    ensures
        lines_from(a + b, cur) == lines_from(a, cur) + lines(b),
    decreases a.len(),
{
    let ab = a + b;
    assert(ab[0] == a[0]);
    assert(ab.drop_first() =~= a.drop_first() + b);
    if a.len() == 1 {
        assert(a.drop_first() =~= seq![]);
        assert(ab.drop_first() =~= b);
        assert(lines_from(a.drop_first(), seq![]) =~= seq![]);
        assert(lines_from(a, cur) =~= seq![cur]);
    } else if a[0] == '\n' {
        lemma_lines_concat(a.drop_first(), b, seq![]);
        assert(lines_from(ab, cur) =~= lines_from(a, cur) + lines(b));
    } else {
        lemma_lines_concat(a.drop_first(), b, cur.push(a[0]));
    }
}

proof fn lemma_join_push(ls: Seq<Seq<char>>, l: Seq<char>)
    requires
        ls.len() > 0,
    ensures
        join_lines(ls.push(l)) == join_lines(ls) + seq!['\n'] + l,
    decreases ls.len(),
{
    let p = ls.push(l);
    assert(p.drop_first() =~= ls.drop_first().push(l));
    if ls.len() == 1 {
        assert(p.drop_first() =~= seq![l]);
        assert(join_lines(p) =~= join_lines(ls) + seq!['\n'] + l);
    } else {
        lemma_join_push(ls.drop_first(), l);
        assert(p[0] == ls[0]);
        assert(join_lines(p) == p[0] + seq!['\n'] + join_lines(p.drop_first()));
        assert(join_lines(ls) == ls[0] + seq!['\n'] + join_lines(ls.drop_first()));
        assert(join_lines(p) =~= join_lines(ls) + seq!['\n'] + l);
    }
}

/// A body followed by a terminator splits into lines that join back into it.
proof fn lemma_body_lines(b: Seq<char>, cur: Seq<char>)
    ensures
        lines_from(b + seq!['\n'], cur).len() >= 1,
        join_lines(lines_from(b + seq!['\n'], cur)) == cur + b,
    decreases b.len(),
{
    let bt = b + seq!['\n'];
    assert(bt.drop_first() =~= if b.len() == 0 { seq![] } else { b.drop_first() + seq!['\n'] });
    if b.len() == 0 {
        assert(lines_from(bt.drop_first(), seq![]) =~= seq![]);
        assert(lines_from(bt, cur) =~= seq![cur]);
        assert(cur + b =~= cur);
    } else if b[0] == '\n' {
        let rest = lines_from(b.drop_first() + seq!['\n'], seq![]);
        lemma_body_lines(b.drop_first(), seq![]);
        let all = seq![cur] + rest;
        assert(lines_from(bt, cur) == all);
        assert(all.drop_first() =~= rest);
        assert(join_lines(all) == cur + seq!['\n'] + join_lines(rest));
        assert(seq![] + b.drop_first() =~= b.drop_first());
        assert(cur + b =~= cur + seq!['\n'] + b.drop_first());
    } else {
        lemma_body_lines(b.drop_first(), cur.push(b[0]));
        assert(cur + b =~= cur.push(b[0]) + b.drop_first());
    }
}

/// A line without a terminator inside is one line.
proof fn lemma_single_line(l: Seq<char>, cur: Seq<char>)
    requires
        forall|k: int| 0 <= k < l.len() ==> l[k] != '\n',
    ensures
        lines_from(l + seq!['\n'], cur) == seq![cur + l],
    decreases l.len(),
{
    let lt = l + seq!['\n'];
    if l.len() == 0 {
        assert(lt.drop_first() =~= seq![]);
        assert(lines_from(lt.drop_first(), seq![]) =~= seq![]);
        assert(cur + l =~= cur);
        assert(lines_from(lt, cur) =~= seq![cur + l]);
    } else {
        assert(lt.drop_first() =~= l.drop_first() + seq!['\n']);
        assert(lt[0] == l[0]);
        lemma_single_line(l.drop_first(), cur.push(l[0]));
        assert(cur.push(l[0]) + l.drop_first() =~= cur + l);
    }
}

/// The (title, body) pairs of a vector of sections, as views.
pub open spec fn pairs_view(v: Seq<(String, String)>) -> Seq<(Seq<char>, Seq<char>)> {
    v.map_values(|p: (String, String)| (p.0@, p.1@))
}

/// The sections of one entry, in order of appearance. Where a title occurs
/// more than once, the later section shadows the earlier one.
pub struct SectionMap {
    pub sections: Vec<(String, String)>,
}

impl View for SectionMap {
    type V = Map<Seq<char>, Seq<char>>;

    open spec fn view(&self) -> Map<Seq<char>, Seq<char>> {
        to_map(pairs_view(self.sections@))
    }
}

/// The state of a scan over an entry's lines.
struct Scanner {
    done: Vec<(String, String)>,
    cur: Option<String>,
    body: String,
    has_body: bool,
    body_lines: Ghost<Seq<Seq<char>>>,
}

impl Scanner {
    spec fn wf(&self) -> bool {
        &&& self.body@ == join_lines(self.body_lines@)
        &&& self.has_body == (self.body_lines@.len() > 0)
        &&& self.cur is None ==> self.body_lines@.len() == 0
    }

    spec fn cur_view(&self) -> Option<Seq<char>> {
        match self.cur {
            Some(t) => Some(t@),
            None => None,
        }
    }

    /// The sections of the whole text, given the lines that remain.
    spec fn result(&self, rest: Seq<Seq<char>>) -> Seq<(Seq<char>, Seq<char>)> {
        pairs_view(self.done@) + scan(rest, self.cur_view(), self.body_lines@)
    }

    fn feed(self, line: String) -> (r: Scanner)
        requires
            self.wf(),
        ensures
            r.wf(),
            forall|rest: Seq<Seq<char>>| #[trigger] r.result(rest) == self.result(seq![line@] + rest),
    {
        let ghost old_self = self;
        let n = line.unicode_len();
        let Scanner { mut done, cur, mut body, has_body, body_lines } = self;
        if n >= 3 && line.get_char(0) == '#' && line.get_char(1) == '#' && line.get_char(2) == ' ' {
            let title = String::from_str(line.as_str().substring_char(3, n));
            match cur {
                Some(t) => {
                    done.push((t, body));
                },
                None => {},
            }
            let r = Scanner {
                done,
                cur: Some(title),
                body: String::new(),
                has_body: false,
                body_lines: Ghost(Seq::empty()),
            };
            proof {
                assert(r.wf());
                assert(pairs_view(r.done@) =~= pairs_view(old_self.done@) + flush(old_self.cur_view(), old_self.body_lines@));
                assert forall|rest: Seq<Seq<char>>| #[trigger] r.result(rest) == old_self.result(seq![line@] + rest) by {
                    let ls = seq![line@] + rest;
                    assert(ls[0] == line@);
                    assert(ls.drop_first() =~= rest);
                    assert(r.result(rest) =~= old_self.result(ls));
                }
            }
            r
        } else if cur.is_some() {
            if !has_body {
                body = line;
                proof {
                    assert(body_lines@.push(line@) =~= seq![line@]);
                    assert(join_lines(seq![line@]) == line@);
                }
            } else {
                let ghost before = body@;
                push_char(&mut body, '\n');
                body.append(line.as_str());
                proof {
                    lemma_join_push(body_lines@, line@);
                    assert(body@ =~= before + seq!['\n'] + line@);
                }
            }
            let r = Scanner { done, cur, body, has_body: true, body_lines: Ghost(body_lines@.push(line@)) };
            proof {
                assert(r.wf());
                assert forall|rest: Seq<Seq<char>>| #[trigger] r.result(rest) == old_self.result(seq![line@] + rest) by {
                    let ls = seq![line@] + rest;
                    assert(ls[0] == line@);
                    assert(ls.drop_first() =~= rest);
                }
            }
            r
        } else {
            let r = Scanner { done, cur, body, has_body, body_lines };
            proof {
                assert forall|rest: Seq<Seq<char>>| #[trigger] r.result(rest) == old_self.result(seq![line@] + rest) by {
                    let ls = seq![line@] + rest;
                    assert(ls[0] == line@);
                    assert(ls.drop_first() =~= rest);
                    assert(body_lines@ =~= seq![]);
                }
            }
            r
        }
    }
}

/// Splits an entry's text into its sections. A line that starts with `## `
/// opens a section titled by the rest of the line; the lines up to the next
/// such line, joined by `'\n'`, are its body. Text before the first heading
/// belongs to no section.
pub fn parse_template(contents: &str) -> (r: SectionMap)
    ensures
        pairs_view(r.sections@) == sections(contents@),
        r@ == section_map(contents@),
{
    let n = contents.unicode_len();
    let mut st = Scanner { done: Vec::new(), cur: None, body: String::new(), has_body: false, body_lines: Ghost(Seq::empty()) };
    let mut line = String::new();
    let mut pos: usize = 0;
    proof {
        assert(contents@.subrange(0, n as int) =~= contents@);
        assert(pairs_view(st.done@) =~= seq![]);
        assert(st.result(lines(contents@)) =~= sections(contents@));
    }
    while pos < n
        invariant
            n == contents@.len(),
            pos <= n,
            st.wf(),
            sections(contents@) == st.result(lines_from(contents@.subrange(pos as int, n as int), line@)),
        decreases n - pos,
    {
        let c = contents.get_char(pos);
        let ghost rest = contents@.subrange(pos as int, n as int);
        proof {
            assert(rest[0] == c);
            assert(rest.drop_first() =~= contents@.subrange(pos + 1, n as int));
        }
        if c == '\n' {
            st = st.feed(line);
            line = String::new();
        } else {
            push_char(&mut line, c);
        }
        pos = pos + 1;
    }
    proof {
        assert(contents@.subrange(n as int, n as int) =~= seq![]);
    }
    if line.unicode_len() > 0 {
        let ghost l = line@;
        st = st.feed(line);
        proof {
            assert(seq![l] + seq![] =~= seq![l]);
            assert(st.result(seq![]) == sections(contents@));
        }
    } else {
        proof {
            assert(st.result(seq![]) == sections(contents@));
        }
    }
    let Scanner { mut done, cur, body, .. } = st;
    match cur {
        Some(t) => {
            done.push((t, body));
        },
        None => {},
    }
    proof {
        assert(pairs_view(done@) =~= sections(contents@));
    }
    SectionMap { sections: done }
}

proof fn lemma_to_map_last(secs: Seq<(Seq<char>, Seq<char>)>, j: int)
    requires
        0 <= j < secs.len(),
        forall|i: int| j < i < secs.len() ==> (#[trigger] secs[i]).0 != secs[j].0,
    ensures
        to_map(secs).contains_key(secs[j].0),
        to_map(secs)[secs[j].0] == secs[j].1,
    decreases secs.len(),
{
    if j < secs.len() - 1 {
        let d = secs.drop_last();
        assert forall|i: int| j < i < d.len() implies (#[trigger] d[i]).0 != d[j].0 by {
            assert(d[i] == secs[i]);
        }
        lemma_to_map_last(d, j);
        assert(secs.last() == secs[secs.len() - 1]);
    }
}

proof fn lemma_to_map_absent(secs: Seq<(Seq<char>, Seq<char>)>, k: Seq<char>)
    requires
        forall|i: int| 0 <= i < secs.len() ==> (#[trigger] secs[i]).0 != k,
    ensures
        !to_map(secs).contains_key(k),
    decreases secs.len(),
{
    if secs.len() > 0 {
        let d = secs.drop_last();
        assert forall|i: int| 0 <= i < d.len() implies (#[trigger] d[i]).0 != k by {
            assert(d[i] == secs[i]);
        }
        lemma_to_map_absent(d, k);
        assert(secs.last() == secs[secs.len() - 1]);
    }
}

/// The index of the section that `fr` holds under `title`: the last one with
/// that title, whose body is the map's value; `None` where it holds none.
pub(crate) fn find_section(fr: &SectionMap, title: &str) -> (r: Option<usize>)
    ensures
        r is None <==> !fr@.contains_key(title@),
        r matches Some(i) ==> i < fr.sections@.len() && fr.sections@[i as int].0@ == title@
            && fr@[title@] == fr.sections@[i as int].1@,
{
    let ghost secs = pairs_view(fr.sections@);
    let key = String::from_str(title);
    let mut i: usize = fr.sections.len();
    while i > 0
        invariant
            i <= fr.sections@.len(),
            secs == pairs_view(fr.sections@),
            key@ == title@,
            forall|k: int| i <= k < secs.len() ==> (#[trigger] secs[k]).0 != title@,
        decreases i,
    {
        i = i - 1;
        let entry = &fr.sections[i];
        if entry.0 == key {
            proof {
                assert(secs[i as int] == (entry.0@, entry.1@));
                lemma_to_map_last(secs, i as int);
            }
            return Some(i);
        }
        proof {
            assert(secs[i as int].0 == entry.0@);
        }
    }
    proof {
        lemma_to_map_absent(secs, title@);
    }
    None
}

/// The body that `fr` holds under `title`, or a single line break where it
/// holds none.
pub fn retrieve_section<'a, 'b>(fr: &'a SectionMap, title: &'b str) -> (r: &'a str)
    ensures
        r@ == if fr@.contains_key(title@) {
            fr@[title@]
        } else {
            seq!['\n']
        },
{
    match find_section(fr, title) {
        Some(i) => fr.sections[i].1.as_str(),
        None => {
            proof {
                reveal_strlit("\n");
            }
            "\n"
        },
    }
}

proof fn lemma_scan_no_headings(ls: Seq<Seq<char>>)
    requires
        forall|i: int| 0 <= i < ls.len() ==> !is_heading(#[trigger] ls[i]),
    ensures
        scan(ls, None, seq![]) == Seq::<(Seq<char>, Seq<char>)>::empty(),
    decreases ls.len(),
{
    if ls.len() > 0 {
        let d = ls.drop_first();
        assert forall|i: int| 0 <= i < d.len() implies !is_heading(#[trigger] d[i]) by {
            assert(d[i] == ls[i + 1]);
        }
        assert(!is_heading(ls[0]));
        lemma_scan_no_headings(d);
    }
}

/// A text without heading lines has no sections: its section map is empty.
pub proof fn lemma_no_headings_empty(text: Seq<char>)
    requires
        forall|i: int| 0 <= i < lines(text).len() ==> !is_heading(#[trigger] lines(text)[i]),
    ensures
        sections(text) == Seq::<(Seq<char>, Seq<char>)>::empty(),
        section_map(text) == Map::<Seq<char>, Seq<char>>::empty(),
{
    lemma_scan_no_headings(lines(text));
}

/// The previous entry's section map, where there is a previous entry.
pub open spec fn prev_view(p: Option<SectionMap>) -> Option<Map<Seq<char>, Seq<char>>> {
    match p {
        Some(m) => Some(m@),
        None => None,
    }
}

/// The body a new entry gets for section `sc`: the previous entry's body
/// under the same title where the section persists, else an empty body.
pub open spec fn body_for(sc: SectionConfig, prev: Option<Map<Seq<char>, Seq<char>>>) -> Seq<char> {
    if sc.persist && prev is Some {
        lookup(prev->0, sc.title@)
    } else {
        seq![]
    }
}

/// A heading line `## title` and the body on the lines after it.
pub open spec fn section_block(title: Seq<char>, body: Seq<char>) -> Seq<char> {
    seq!['#', '#', ' '] + title + seq!['\n'] + body + seq!['\n']
}

/// The sections of a new entry, in the configured order.
pub open spec fn sections_text(specs: Seq<SectionConfig>, prev: Option<Map<Seq<char>, Seq<char>>>) -> Seq<char>
    decreases specs.len(),
{
    if specs.len() == 0 {
        seq![]
    } else {
        section_block(specs[0].title@, body_for(specs[0], prev)) + sections_text(specs.drop_first(), prev)
    }
}

/// The title line `# Month D, YYYY` of an entry, and a blank line.
pub open spec fn title_block(date: CalendarDate) -> Seq<char> {
    seq!['#', ' '] + long_text(date) + seq!['\n', '\n']
}

/// The full text of a new entry.
pub open spec fn entry_text(
    date: CalendarDate,
    specs: Seq<SectionConfig>,
    prev: Option<Map<Seq<char>, Seq<char>>>,
) -> Seq<char> {
    title_block(date) + sections_text(specs, prev)
}

proof fn lemma_sections_text_push(
    specs: Seq<SectionConfig>,
    sc: SectionConfig,
    prev: Option<Map<Seq<char>, Seq<char>>>,
)
    ensures
        sections_text(specs.push(sc), prev) == sections_text(specs, prev) + section_block(
            sc.title@,
            body_for(sc, prev),
        ),
    decreases specs.len(),
{
    let p = specs.push(sc);
    if specs.len() == 0 {
        assert(p.drop_first() =~= Seq::<SectionConfig>::empty());
        assert(p[0] == sc);
        assert(sections_text(p.drop_first(), prev) =~= seq![]);
        assert(sections_text(p, prev) =~= sections_text(specs, prev) + section_block(sc.title@, body_for(sc, prev)));
    } else {
        assert(p.drop_first() =~= specs.drop_first().push(sc));
        lemma_sections_text_push(specs.drop_first(), sc, prev);
        assert(p[0] == specs[0]);
        assert(sections_text(p, prev) =~= sections_text(specs, prev) + section_block(sc.title@, body_for(sc, prev)));
    }
}

fn push_section(r: &mut String, sc: &SectionConfig, previous: &Option<SectionMap>)
    ensures
        final(r)@ == old(r)@ + section_block(sc.title@, body_for(*sc, prev_view(*previous))),
{
    let ghost before = r@;
    push_char(r, '#');
    push_char(r, '#');
    push_char(r, ' ');
    r.append(sc.title.as_str());
    push_char(r, '\n');
    let ghost mid = r@;
    if sc.persist {
        match previous {
            Some(m) => {
                match find_section(m, sc.title.as_str()) {
                    Some(k) => {
                        r.append(m.sections[k].1.as_str());
                    },
                    None => {},
                }
            },
            None => {},
        }
    }
    proof {
        assert(r@ =~= mid + body_for(*sc, prev_view(*previous)));
    }
    push_char(r, '\n');
    proof {
        assert(r@ =~= before + section_block(sc.title@, body_for(*sc, prev_view(*previous))));
    }
}

/// The text of the new entry for `date`: a title line, a blank line, then for
/// each configured section in order its heading line and its body. A section
/// that persists takes the previous entry's body under its title; every other
/// section gets a blank line.
pub fn entry_contents(date: &CalendarDate, sections: &Vec<SectionConfig>, previous: &Option<SectionMap>) -> (r: String)
    requires
        date.wf(),
    ensures
        r@ == entry_text(*date, sections@, prev_view(*previous)),
{
    let ghost prev = prev_view(*previous);
    let mut r = String::new();
    push_char(&mut r, '#');
    push_char(&mut r, ' ');
    let title = long_date(date);
    r.append(title.as_str());
    push_char(&mut r, '\n');
    push_char(&mut r, '\n');
    proof {
        assert(r@ =~= title_block(*date));
        assert(sections@.take(0) =~= Seq::<SectionConfig>::empty());
        assert(r@ =~= title_block(*date) + sections_text(sections@.take(0), prev));
    }
    let mut i: usize = 0;
    while i < sections.len()
        invariant
            i <= sections@.len(),
            prev == prev_view(*previous),
            r@ == title_block(*date) + sections_text(sections@.take(i as int), prev),
        decreases sections@.len() - i,
    {
        let sc = &sections[i];
        push_section(&mut r, sc, previous);
        proof {
            lemma_sections_text_push(sections@.take(i as int), *sc, prev);
            assert(sections@.take(i + 1) =~= sections@.take(i as int).push(*sc));
            assert(r@ =~= title_block(*date) + sections_text(sections@.take(i + 1), prev));
        }
        i = i + 1;
    }
    proof {
        assert(sections@.take(i as int) =~= sections@);
    }
    r
}

/// No character of `t` ends a line.
pub open spec fn single_line(t: Seq<char>) -> bool {
    forall|k: int| 0 <= k < t.len() ==> t[k] != '\n'
}

/// No line of the body `b` is a heading line.
pub open spec fn no_heading_lines(b: Seq<char>) -> bool {
    forall|i: int|
        0 <= i < lines(b + seq!['\n']).len() ==> !is_heading(#[trigger] lines(b + seq!['\n'])[i])
}

/// The (title, body) sections that a new entry is written with.
pub open spec fn written_sections(
    specs: Seq<SectionConfig>,
    prev: Option<Map<Seq<char>, Seq<char>>>,
) -> Seq<(Seq<char>, Seq<char>)> {
    specs.map_values(|sc: SectionConfig| (sc.title@, body_for(sc, prev)))
}

proof fn lemma_scan_body(bl: Seq<Seq<char>>, rest: Seq<Seq<char>>, t: Seq<char>, body: Seq<Seq<char>>)
    requires
        forall|i: int| 0 <= i < bl.len() ==> !is_heading(#[trigger] bl[i]),
    ensures
        scan(bl + rest, Some(t), body) == scan(rest, Some(t), body + bl),
    decreases bl.len(),
{
    if bl.len() == 0 {
        assert(bl + rest =~= rest);
        assert(body + bl =~= body);
    } else {
        let all = bl + rest;
        assert(all[0] == bl[0]);
        assert(!is_heading(bl[0]));
        assert(all.drop_first() =~= bl.drop_first() + rest);
        let d = bl.drop_first();
        assert forall|i: int| 0 <= i < d.len() implies !is_heading(#[trigger] d[i]) by {
            assert(d[i] == bl[i + 1]);
        }
        lemma_scan_body(d, rest, t, body.push(bl[0]));
        assert(body.push(bl[0]) + d =~= body + bl);
    }
}

proof fn lemma_block_lines(t: Seq<char>, b: Seq<char>, rest: Seq<char>)
    requires
        single_line(t),
    ensures
        lines(section_block(t, b) + rest) == seq![seq!['#', '#', ' '] + t] + lines(b + seq!['\n'])
            + lines(rest),
{
    let h = seq!['#', '#', ' '] + t;
    assert forall|k: int| 0 <= k < h.len() implies h[k] != '\n' by {
        if k >= 3 {
            assert(h[k] == t[k - 3]);
        }
    }
    let hl = h + seq!['\n'];
    let bb = b + seq!['\n'];
    assert(section_block(t, b) =~= hl + bb);
    lemma_lines_concat(hl + bb, rest, seq![]);
    lemma_lines_concat(hl, bb, seq![]);
    lemma_single_line(h, seq![]);
    assert(seq![] + h =~= h);
}

proof fn lemma_scan_sections(
    specs: Seq<SectionConfig>,
    prev: Option<Map<Seq<char>, Seq<char>>>,
    cur: Option<Seq<char>>,
    body: Seq<Seq<char>>,
)
    requires
        forall|i: int| 0 <= i < specs.len() ==> single_line(#[trigger] specs[i].title@),
        forall|i: int| 0 <= i < specs.len() ==> no_heading_lines(body_for(#[trigger] specs[i], prev)),
    ensures
        scan(lines(sections_text(specs, prev)), cur, body) == flush(cur, body) + written_sections(
            specs,
            prev,
        ),
    decreases specs.len(),
{
    if specs.len() == 0 {
        assert(lines(sections_text(specs, prev)) =~= Seq::<Seq<char>>::empty());
        assert(written_sections(specs, prev) =~= seq![]);
        assert(flush(cur, body) + written_sections(specs, prev) =~= flush(cur, body));
    } else {
        let sc = specs[0];
        let t = sc.title@;
        let b = body_for(sc, prev);
        let rest = specs.drop_first();
        assert forall|i: int| 0 <= i < rest.len() implies single_line(#[trigger] rest[i].title@) && no_heading_lines(
            body_for(rest[i], prev),
        ) by {
            assert(rest[i] == specs[i + 1]);
        }
        assert(single_line(specs[0].title@));
        assert(no_heading_lines(body_for(specs[0], prev)));
        lemma_scan_sections(rest, prev, Some(t), lines(b + seq!['\n']));
        let h = seq!['#', '#', ' '] + t;
        let bl = lines(b + seq!['\n']);
        let lr = lines(sections_text(rest, prev));
        lemma_block_lines(t, b, sections_text(rest, prev));
        let all = seq![h] + bl + lr;
        assert(lines(sections_text(specs, prev)) == all);
        assert(all[0] == h);
        assert(is_heading(h));
        assert(heading_title(h) =~= t);
        assert(all.drop_first() =~= bl + lr);
        assert(scan(all, cur, body) == flush(cur, body) + scan(bl + lr, Some(t), seq![]));
        assert forall|i: int| 0 <= i < bl.len() implies !is_heading(#[trigger] bl[i]) by {}
        lemma_scan_body(bl, lr, t, seq![]);
        assert(Seq::<Seq<char>>::empty() + bl =~= bl);
        lemma_body_lines(b, seq![]);
        assert(seq![] + b =~= b);
        assert(flush(Some(t), bl) == seq![(t, b)]);
        assert(written_sections(specs, prev) =~= seq![(t, b)] + written_sections(rest, prev));
        assert(scan(all, cur, body) =~= flush(cur, body) + written_sections(specs, prev));
    }
}

/// Parsing a newly written entry gives back exactly the sections it was
/// written with, in order, each under its title with the body that was
/// written for it; so its section map is that of the written sections.
/// This holds where no title spans lines and no body holds a heading line.
pub proof fn lemma_parse_written_entry(
    date: CalendarDate,
    specs: Seq<SectionConfig>,
    prev: Option<Map<Seq<char>, Seq<char>>>,
)
    requires
        date.wf(),
        forall|i: int| 0 <= i < specs.len() ==> single_line(#[trigger] specs[i].title@),
        forall|i: int| 0 <= i < specs.len() ==> no_heading_lines(body_for(#[trigger] specs[i], prev)),
    ensures
        sections(entry_text(date, specs, prev)) == written_sections(specs, prev),
        section_map(entry_text(date, specs, prev)) == to_map(written_sections(specs, prev)),
{
    let long = long_text(date);
    let tl = seq!['#', ' '] + long;
    crate::date::lemma_long_text_single_line(date);
    assert forall|k: int| 0 <= k < tl.len() implies tl[k] != '\n' by {
        if k >= 2 {
            assert(tl[k] == long[k - 2]);
        }
    }
    let st = sections_text(specs, prev);
    assert(title_block(date) =~= (tl + seq!['\n']) + seq!['\n']);
    lemma_lines_concat(title_block(date), st, seq![]);
    lemma_lines_concat(tl + seq!['\n'], seq!['\n'], seq![]);
    lemma_single_line(tl, seq![]);
    assert(seq![] + tl =~= tl);
    let nl: Seq<char> = seq!['\n'];
    assert(nl.drop_first() =~= Seq::<char>::empty());
    assert(nl[0] == '\n');
    assert(lines_from(nl.drop_first(), seq![]) =~= Seq::<Seq<char>>::empty());
    assert(lines(nl) =~= seq![Seq::<char>::empty()]);
    let ls = lines(st);
    let all = seq![tl, Seq::<char>::empty()] + ls;
    assert(lines(entry_text(date, specs, prev)) =~= all);
    assert(!is_heading(tl));
    assert(all.drop_first() =~= seq![Seq::<char>::empty()] + ls);
    assert((seq![Seq::<char>::empty()] + ls).drop_first() =~= ls);
    let tail = seq![Seq::<char>::empty()] + ls;
    assert(all[0] == tl);
    assert(scan(all, None, seq![]) == scan(tail, None, seq![]));
    assert(tail[0] == Seq::<char>::empty());
    assert(!is_heading(tail[0]));
    assert(scan(tail, None, seq![]) == scan(ls, None, seq![]));
    lemma_scan_sections(specs, prev, None, seq![]);
    assert(flush(None, seq![]) + written_sections(specs, prev) =~= written_sections(specs, prev));
}

/// A section that does not persist is written with an empty body, whatever
/// the previous entry held: parsing the new entry finds it with that body.
pub proof fn lemma_unpersisted_blank(
    date: CalendarDate,
    specs: Seq<SectionConfig>,
    prev: Option<Map<Seq<char>, Seq<char>>>,
    i: int,
)
    requires
        date.wf(),
        0 <= i < specs.len(),
        !specs[i].persist,
        forall|j: int| 0 <= j < specs.len() ==> single_line(#[trigger] specs[j].title@),
        forall|j: int| 0 <= j < specs.len() ==> no_heading_lines(body_for(#[trigger] specs[j], prev)),
    ensures
        body_for(specs[i], prev) == Seq::<char>::empty(),
        sections(entry_text(date, specs, prev))[i] == (specs[i].title@, Seq::<char>::empty()),
{
    lemma_parse_written_entry(date, specs, prev);
}

proof fn lemma_lines_single(s: Seq<char>, cur: Seq<char>)
    requires
        single_line(cur),
    ensures
        forall|i: int| 0 <= i < lines_from(s, cur).len() ==> single_line(#[trigger] lines_from(s, cur)[i]),
    decreases s.len(),
{
    if s.len() == 0 {
        if cur.len() > 0 {
            assert(lines_from(s, cur) =~= seq![cur]);
            assert(lines_from(s, cur)[0] == cur);
        }
    } else {
        if s[0] == '\n' {
            lemma_lines_single(s.drop_first(), seq![]);
            let r = lines_from(s.drop_first(), seq![]);
            assert(lines_from(s, cur) == seq![cur] + r);
            assert forall|i: int| 0 <= i < lines_from(s, cur).len() implies single_line(#[trigger] lines_from(s, cur)[i]) by {
                if i == 0 {
                    assert(lines_from(s, cur)[i] == cur);
                } else {
                    assert(lines_from(s, cur)[i] == r[i - 1]);
                }
            }
        } else {
            let c2 = cur.push(s[0]);
            assert forall|k: int| 0 <= k < c2.len() implies c2[k] != '\n' by {
                if k < cur.len() {
                    assert(c2[k] == cur[k]);
                }
            }
            lemma_lines_single(s.drop_first(), c2);
            assert(lines_from(s, cur) == lines_from(s.drop_first(), c2));
        }
    }
}

proof fn lemma_lines_of_join(ls: Seq<Seq<char>>)
    requires
        ls.len() >= 1,
        forall|i: int| 0 <= i < ls.len() ==> single_line(#[trigger] ls[i]),
    ensures
        lines(join_lines(ls) + seq!['\n']) == ls,
    decreases ls.len(),
{
    assert(single_line(ls[0]));
    lemma_single_line(ls[0], seq![]);
    assert(seq![] + ls[0] =~= ls[0]);
    if ls.len() == 1 {
        assert(seq![ls[0]] =~= ls);
    } else {
        let rest = ls.drop_first();
        assert forall|i: int| 0 <= i < rest.len() implies single_line(#[trigger] rest[i]) by {
            assert(rest[i] == ls[i + 1]);
        }
        lemma_lines_of_join(rest);
        let a = ls[0] + seq!['\n'];
        assert(join_lines(ls) + seq!['\n'] =~= a + (join_lines(rest) + seq!['\n']));
        lemma_lines_concat(a, join_lines(rest) + seq!['\n'], seq![]);
        assert(seq![ls[0]] + rest =~= ls);
    }
}

proof fn lemma_join_no_headings(ls: Seq<Seq<char>>)
    requires
        forall|i: int| 0 <= i < ls.len() ==> single_line(#[trigger] ls[i]),
        forall|i: int| 0 <= i < ls.len() ==> !is_heading(#[trigger] ls[i]),
    ensures
        no_heading_lines(join_lines(ls)),
{
    if ls.len() == 0 {
        lemma_empty_no_headings();
    } else {
        lemma_lines_of_join(ls);
    }
}

proof fn lemma_empty_no_headings()
    ensures
        no_heading_lines(Seq::<char>::empty()),
{
    let nl: Seq<char> = seq!['\n'];
    assert(Seq::<char>::empty() + nl =~= nl);
    assert(nl.drop_first() =~= Seq::<char>::empty());
    assert(lines_from(nl.drop_first(), seq![]) =~= Seq::<Seq<char>>::empty());
    assert(lines(nl) =~= seq![Seq::<char>::empty()]);
}

proof fn lemma_scan_bodies(ls: Seq<Seq<char>>, cur: Option<Seq<char>>, body: Seq<Seq<char>>)
    requires
        forall|i: int| 0 <= i < ls.len() ==> single_line(#[trigger] ls[i]),
        forall|i: int| 0 <= i < body.len() ==> single_line(#[trigger] body[i]),
        forall|i: int| 0 <= i < body.len() ==> !is_heading(#[trigger] body[i]),
    ensures
        forall|i: int| 0 <= i < scan(ls, cur, body).len() ==> no_heading_lines(#[trigger] scan(ls, cur, body)[i].1),
    decreases ls.len(),
{
    lemma_join_no_headings(body);
    if ls.len() == 0 {
        match cur {
            Some(t) => {
                assert(scan(ls, cur, body) == seq![(t, join_lines(body))]);
                assert(scan(ls, cur, body)[0].1 == join_lines(body));
            },
            None => {
                assert(scan(ls, cur, body).len() == 0);
            },
        }
    } else {
        let d = ls.drop_first();
        assert forall|i: int| 0 <= i < d.len() implies single_line(#[trigger] d[i]) by {
            assert(d[i] == ls[i + 1]);
        }
        assert(single_line(ls[0]));
        if is_heading(ls[0]) {
            lemma_scan_bodies(d, Some(heading_title(ls[0])), seq![]);
            let f = flush(cur, body);
            let r = scan(d, Some(heading_title(ls[0])), seq![]);
            assert(scan(ls, cur, body) == f + r);
            assert forall|i: int| 0 <= i < (f + r).len() implies no_heading_lines(#[trigger] (f + r)[i].1) by {
                if i < f.len() {
                    assert((f + r)[i] == f[i]);
                    assert(f[i].1 == join_lines(body));
                } else {
                    assert((f + r)[i] == r[i - f.len()]);
                }
            }
        } else if cur is Some {
            let b2 = body.push(ls[0]);
            assert forall|i: int| 0 <= i < b2.len() implies single_line(#[trigger] b2[i]) && !is_heading(b2[i]) by {
                if i < body.len() {
                    assert(b2[i] == body[i]);
                }
            }
            lemma_scan_bodies(d, cur, b2);
            assert(scan(ls, cur, body) == scan(d, cur, b2));
        } else {
            lemma_scan_bodies(d, None, seq![]);
            assert(scan(ls, cur, body) == scan(d, None, seq![]));
        }
    }
}

proof fn lemma_to_map_value(secs: Seq<(Seq<char>, Seq<char>)>, k: Seq<char>)
    requires
        to_map(secs).contains_key(k),
    ensures
        exists|i: int| 0 <= i < secs.len() && (#[trigger] secs[i]).0 == k && secs[i].1 == to_map(secs)[k],
    decreases secs.len(),
{
    let n = secs.len() - 1;
    if secs[n].0 != k {
        let d = secs.drop_last();
        lemma_to_map_value(d, k);
        let i = choose|i: int| 0 <= i < d.len() && (#[trigger] d[i]).0 == k && d[i].1 == to_map(d)[k];
        assert(secs[i] == d[i]);
    } else {
        assert(secs[n] == secs.last());
    }
}

/// No body of a parsed entry holds a heading line.
pub proof fn lemma_parsed_bodies_have_no_headings(text: Seq<char>)
    ensures
        forall|i: int| 0 <= i < sections(text).len() ==> no_heading_lines(#[trigger] sections(text)[i].1),
        forall|k: Seq<char>| #[trigger] section_map(text).contains_key(k) ==> no_heading_lines(section_map(text)[k]),
{
    lemma_lines_single(text, seq![]);
    lemma_scan_bodies(lines(text), None, seq![]);
    assert forall|k: Seq<char>| #[trigger] section_map(text).contains_key(k) implies no_heading_lines(section_map(text)[k]) by {
        lemma_to_map_value(sections(text), k);
    }
}

/// With distinct titles, the map of the written sections holds exactly the
/// configured titles, each with the body written for it.
proof fn lemma_written_map(specs: Seq<SectionConfig>, prev: Option<Map<Seq<char>, Seq<char>>>)
    requires
        forall|i: int, j: int| 0 <= i < j < specs.len() ==> specs[i].title@ != specs[j].title@,
    ensures
        forall|i: int|
            #![trigger specs[i]]
            0 <= i < specs.len() ==> to_map(written_sections(specs, prev)).contains_key(specs[i].title@)
                && to_map(written_sections(specs, prev))[specs[i].title@] == body_for(specs[i], prev),
        forall|k: Seq<char>| #[trigger] to_map(written_sections(specs, prev)).contains_key(k) ==> exists|i: int|
            0 <= i < specs.len() && specs[i].title@ == k,
{
    let w = written_sections(specs, prev);
    assert forall|i: int| #![trigger specs[i]] 0 <= i < specs.len() implies to_map(w).contains_key(specs[i].title@)
        && to_map(w)[specs[i].title@] == body_for(specs[i], prev) by {
        assert(w.len() == specs.len());
        assert(w[i] == (specs[i].title@, body_for(specs[i], prev)));
        assert forall|j: int| i < j < w.len() implies (#[trigger] w[j]).0 != w[i].0 by {
            assert(w[j] == (specs[j].title@, body_for(specs[j], prev)));
        }
        lemma_to_map_last(w, i);
    }
    assert forall|k: Seq<char>| #[trigger] to_map(w).contains_key(k) implies exists|i: int|
        0 <= i < specs.len() && specs[i].title@ == k by {
        lemma_to_map_value(w, k);
        let i = choose|i: int| 0 <= i < w.len() && (#[trigger] w[i]).0 == k && w[i].1 == to_map(w)[k];
        assert(w[i] == (specs[i].title@, body_for(specs[i], prev)));
        assert(specs[i].title@ == k);
    }
}

/// A new entry written after a parsed previous entry parses back to exactly
/// the sections it was written with. With distinct titles its section map
/// holds exactly the configured titles; a persisted title present in the
/// previous entry keeps that entry's body, every other title has an empty body.
pub proof fn lemma_parse_entry_after_parsed(date: CalendarDate, specs: Seq<SectionConfig>, previous: Seq<char>)
    requires
        date.wf(),
        forall|i: int| 0 <= i < specs.len() ==> single_line(#[trigger] specs[i].title@),
    ensures
        sections(entry_text(date, specs, Some(section_map(previous))))
            == written_sections(specs, Some(section_map(previous))),
        (forall|i: int, j: int| 0 <= i < j < specs.len() ==> specs[i].title@ != specs[j].title@) ==> {
            let m = section_map(entry_text(date, specs, Some(section_map(previous))));
            &&& forall|k: Seq<char>| #[trigger] m.contains_key(k) <==> exists|i: int|
                0 <= i < specs.len() && specs[i].title@ == k
            &&& forall|i: int| 0 <= i < specs.len() ==> #[trigger] m[specs[i].title@] == (if specs[i].persist
                && section_map(previous).contains_key(specs[i].title@) {
                section_map(previous)[specs[i].title@]
            } else {
                Seq::<char>::empty()
            })
        },
{
    let prev = Some(section_map(previous));
    lemma_parsed_bodies_have_no_headings(previous);
    lemma_empty_no_headings();
    assert forall|i: int| 0 <= i < specs.len() implies no_heading_lines(body_for(#[trigger] specs[i], prev)) by {}
    lemma_parse_written_entry(date, specs, prev);
    if forall|i: int, j: int| 0 <= i < j < specs.len() ==> specs[i].title@ != specs[j].title@ {
        lemma_written_map(specs, prev);
        let m = section_map(entry_text(date, specs, prev));
        assert forall|k: Seq<char>| #[trigger] m.contains_key(k) <==> exists|i: int|
            0 <= i < specs.len() && specs[i].title@ == k by {
            if exists|i: int| 0 <= i < specs.len() && specs[i].title@ == k {
                let i = choose|i: int| 0 <= i < specs.len() && specs[i].title@ == k;
                assert(to_map(written_sections(specs, prev)).contains_key(specs[i].title@));
            }
        }
        assert forall|i: int| 0 <= i < specs.len() implies #[trigger] m[specs[i].title@] == (if specs[i].persist
            && section_map(previous).contains_key(specs[i].title@) {
            section_map(previous)[specs[i].title@]
        } else {
            Seq::<char>::empty()
        }) by {
            assert(specs[i] == specs[i]);
            assert(m == to_map(written_sections(specs, prev)));
            assert(m[specs[i].title@] == body_for(specs[i], prev));
        }
    }
}

/// After a parsed previous entry, a section that does not persist is written
/// with an empty body, whatever the previous entry held under its title.
pub proof fn lemma_unpersisted_blank_after_parsed(
    date: CalendarDate,
    specs: Seq<SectionConfig>,
    previous: Seq<char>,
    i: int,
)
    requires
        date.wf(),
        0 <= i < specs.len(),
        !specs[i].persist,
        forall|j: int| 0 <= j < specs.len() ==> single_line(#[trigger] specs[j].title@),
    ensures
        sections(entry_text(date, specs, Some(section_map(previous))))[i] == (specs[i].title@, Seq::<char>::empty()),
{
    lemma_parse_entry_after_parsed(date, specs, previous);
}

} // verus!
