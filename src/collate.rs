//! A report over the entries of several consecutive days.
use vstd::prelude::*;
use crate::config::SectionConfig;
use crate::date::{CalendarDate, long_date, prev_date, push_char};
use crate::template::{SectionMap, find_section, lookup, title_block};

verus! {

/// The date before `r[k]`'s place in a countdown from `today`: `today` for
/// the first, else the date before it in `r`.
pub open spec fn count_from(today: CalendarDate, r: Seq<CalendarDate>, k: int) -> CalendarDate {
    if k == 0 {
        today
    } else {
        r[k - 1]
    }
}

/// `r` lists the days before `today`, most recent first: `n` of them, or
/// fewer where the first day of year 0 is reached.
pub open spec fn is_countdown(today: CalendarDate, n: int, r: Seq<CalendarDate>) -> bool {
    &&& r.len() <= n
    &&& forall|k: int| 0 <= k < r.len() ==> prev_date(count_from(today, r, k)) == Some(#[trigger] r[k])
    &&& r.len() < n ==> prev_date(count_from(today, r, r.len() as int)) is None
}

/// The `n` days before `today`, most recent first.
pub fn days_before(today: &CalendarDate, n: u32) -> (r: Vec<CalendarDate>)
    requires
        today.wf(),
    ensures
        is_countdown(*today, n as int, r@),
        forall|k: int| 0 <= k < r@.len() ==> (#[trigger] r@[k]).wf(),
{
    let mut r: Vec<CalendarDate> = Vec::new();
    let mut cur = *today;
    let mut k: u32 = 0;
    let mut stop = false;
    while k < n && !stop
        invariant
            k <= n,
            r@.len() == k,
            cur.wf(),
            cur == count_from(*today, r@, k as int),
            forall|j: int| 0 <= j < r@.len() ==> prev_date(count_from(*today, r@, j)) == Some(#[trigger] r@[j]),
            forall|j: int| 0 <= j < r@.len() ==> (#[trigger] r@[j]).wf(),
            stop ==> prev_date(cur) is None,
        decreases (n - k) as int + if stop { 0int } else { 1int },
    {
        match cur.previous_day() {
            Some(p) => {
                let ghost old_r = r@;
                r.push(p);
                proof {
                    assert forall|j: int| 0 <= j < r@.len() implies prev_date(count_from(*today, r@, j)) == Some(#[trigger] r@[j]) by {
                        if j < old_r.len() {
                            assert(r@[j] == old_r[j]);
                            if j > 0 {
                                assert(r@[j - 1] == old_r[j - 1]);
                            }
                        }
                    }
                }
                cur = p;
                k = k + 1;
            },
            None => {
                stop = true;
            },
        }
    }
    r
}

/// The report part of one section: where the section is collated, its
/// heading line followed directly by its body (empty where the day has none),
/// with no line break added after the body; nothing otherwise.
pub open spec fn collated_block(sc: SectionConfig, m: Map<Seq<char>, Seq<char>>) -> Seq<char> {
    if sc.collate {
        seq!['#', '#', ' '] + sc.title@ + seq!['\n'] + lookup(m, sc.title@)
    } else {
        seq![]
    }
}

/// The report parts of sections `secs`, in order.
pub open spec fn collated_sections(secs: Seq<SectionConfig>, m: Map<Seq<char>, Seq<char>>) -> Seq<char>
    decreases secs.len(),
{
    if secs.len() == 0 {
        seq![]
    } else {
        collated_block(secs[0], m) + collated_sections(secs.drop_first(), m)
    }
}

/// The report of one day: its title block and its collated sections.
pub open spec fn day_report(date: CalendarDate, secs: Seq<SectionConfig>, m: Map<Seq<char>, Seq<char>>) -> Seq<char> {
    title_block(date) + collated_sections(secs, m)
}

/// The views of the days of a report.
pub open spec fn days_view(e: Seq<(CalendarDate, SectionMap)>) -> Seq<(CalendarDate, Map<Seq<char>, Seq<char>>)> {
    e.map_values(|p: (CalendarDate, SectionMap)| (p.0, p.1@))
}

/// The report over days `e`, given most recent first; the report shows the
/// oldest first.
pub open spec fn report(e: Seq<(CalendarDate, Map<Seq<char>, Seq<char>>)>, secs: Seq<SectionConfig>) -> Seq<char>
    decreases e.len(),
{
    if e.len() == 0 {
        seq![]
    } else {
        report(e.drop_first(), secs) + day_report(e[0].0, secs, e[0].1)
    }
}

proof fn lemma_collated_push(secs: Seq<SectionConfig>, sc: SectionConfig, m: Map<Seq<char>, Seq<char>>)
    ensures
        collated_sections(secs.push(sc), m) == collated_sections(secs, m) + collated_block(sc, m),
    decreases secs.len(),
{
    let p = secs.push(sc);
    if secs.len() == 0 {
        assert(p.drop_first() =~= Seq::<SectionConfig>::empty());
        assert(p[0] == sc);
        assert(collated_sections(p.drop_first(), m) =~= seq![]);
        assert(collated_sections(p, m) =~= collated_sections(secs, m) + collated_block(sc, m));
    } else {
        assert(p.drop_first() =~= secs.drop_first().push(sc));
        lemma_collated_push(secs.drop_first(), sc, m);
        assert(p[0] == secs[0]);
        assert(collated_sections(p, m) =~= collated_sections(secs, m) + collated_block(sc, m));
    }
}

fn push_collated(r: &mut String, sc: &SectionConfig, m: &SectionMap)
    ensures
        final(r)@ == old(r)@ + collated_block(*sc, m@),
{
    let ghost before = r@;
    if sc.collate {
        push_char(r, '#');
        push_char(r, '#');
        push_char(r, ' ');
        r.append(sc.title.as_str());
        push_char(r, '\n');
        match find_section(m, sc.title.as_str()) {
            Some(k) => {
                r.append(m.sections[k].1.as_str());
            },
            None => {},
        }
        proof {
            assert(r@ =~= before + collated_block(*sc, m@));
        }
    } else {
        proof {
            assert(r@ =~= before + collated_block(*sc, m@));
        }
    }
}

fn push_day(r: &mut String, date: &CalendarDate, sections: &Vec<SectionConfig>, m: &SectionMap)
    requires
        date.wf(),
    ensures
        final(r)@ == old(r)@ + day_report(*date, sections@, m@),
{
    let ghost before = r@;
    push_char(r, '#');
    push_char(r, ' ');
    let title = long_date(date);
    r.append(title.as_str());
    push_char(r, '\n');
    push_char(r, '\n');
    proof {
        assert(sections@.take(0) =~= Seq::<SectionConfig>::empty());
        assert(r@ =~= before + title_block(*date) + collated_sections(sections@.take(0), m@));
    }
    let mut i: usize = 0;
    while i < sections.len()
        invariant
            i <= sections@.len(),
            r@ == before + title_block(*date) + collated_sections(sections@.take(i as int), m@),
        decreases sections@.len() - i,
    {
        let sc = &sections[i];
        push_collated(r, sc, m);
        proof {
            lemma_collated_push(sections@.take(i as int), *sc, m@);
            assert(sections@.take(i + 1) =~= sections@.take(i as int).push(*sc));
            assert(r@ =~= before + title_block(*date) + collated_sections(sections@.take(i + 1), m@));
        }
        i = i + 1;
    }
    proof {
        assert(sections@.take(i as int) =~= sections@);
        assert(r@ =~= before + day_report(*date, sections@, m@));
    }
}

/// The report over the entries of several days, given most recent first: for
/// each day, oldest first, its title line and the collated sections with
/// their bodies.
pub fn collate_text(entries: &Vec<(CalendarDate, SectionMap)>, sections: &Vec<SectionConfig>) -> (r: String)
    requires
        forall|k: int| 0 <= k < entries@.len() ==> (#[trigger] entries@[k]).0.wf(),
    ensures
        r@ == report(days_view(entries@), sections@),
{
    let ghost e = days_view(entries@);
    let mut r = String::new();
    let mut i: usize = entries.len();
    proof {
        assert(e.subrange(i as int, e.len() as int) =~= Seq::<(CalendarDate, Map<Seq<char>, Seq<char>>)>::empty());
    }
    while i > 0
        invariant
            i <= entries@.len(),
            e == days_view(entries@),
            forall|k: int| 0 <= k < entries@.len() ==> (#[trigger] entries@[k]).0.wf(),
            r@ == report(e.subrange(i as int, e.len() as int), sections@),
        decreases i,
    {
        i = i - 1;
        let entry = &entries[i];
        push_day(&mut r, &entry.0, sections, &entry.1);
        proof {
            let s = e.subrange(i as int, e.len() as int);
            assert(s.drop_first() =~= e.subrange(i + 1, e.len() as int));
            assert(s[0] == (entry.0, entry.1@));
        }
    }
    proof {
        assert(e.subrange(0, e.len() as int) =~= e);
    }
    r
}

} // verus!
