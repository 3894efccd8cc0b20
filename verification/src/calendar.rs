//! `VEVENT` extraction from a whole document.
use vstd::prelude::*;
use crate::text::{chars_of, chars_eq, views};
use crate::lines::{
    unfold, spec_unfold, join_lines, is_terminator, no_line_break, is_continuation, is_line_break,
    law_split_lines_of_joined, law_unfold_lines_without_continuations, ends_a_line, starts_a_line,
    law_unfold_concat,
};
use crate::property::{
    Property, PropertyView, parse_property, spec_parse_property, written_property, writable_property,
    law_parse_property_reads_written,
};
use crate::escape::{spec_escape, law_escape_writes_no_newline};
use crate::datetime::{DateTimeValue, DateTimeView, parse_date_time, spec_parse_date_time};

verus! {

/// One `VEVENT` block: the properties this library reads from it.
#[derive(Debug, Clone)]
pub struct Event {
    pub uid: Option<String>,
    pub summary: Option<String>,
    pub dtstart: Option<DateTimeValue>,
    pub dtend: Option<DateTimeValue>,
}

/// The events of a document, in the order their blocks end.
#[derive(Debug, Clone)]
pub struct Calendar {
    pub events: Vec<Event>,
}

/// What an `Event` holds, as characters.
pub struct EventView {
    pub uid: Option<Seq<char>>,
    pub summary: Option<Seq<char>>,
    pub dtstart: Option<DateTimeView>,
    pub dtend: Option<DateTimeView>,
}

/// The view of an optional string.
pub open spec fn text_view(s: Option<String>) -> Option<Seq<char>> {
    match s {
        Some(s) => Some(s@),
        None => None,
    }
}

impl View for Event {
    type V = EventView;

    open spec fn view(&self) -> EventView {
        EventView {
            uid: text_view(self.uid),
            summary: text_view(self.summary),
            dtstart: crate::datetime::option_view(self.dtstart),
            dtend: crate::datetime::option_view(self.dtend),
        }
    }
}

/// The views of a sequence of events.
pub open spec fn event_views(events: Seq<Event>) -> Seq<EventView> {
    events.map_values(|e: Event| e@)
}

impl View for Calendar {
    type V = Seq<EventView>;

    open spec fn view(&self) -> Seq<EventView> {
        event_views(self.events@)
    }
}

/// An event with none of its properties seen yet.
pub open spec fn empty_event() -> EventView {
    EventView { uid: None, summary: None, dtstart: None, dtend: None }
}

impl Default for Event {
    fn default() -> (e: Event)
        ensures
            e@ == empty_event(),
    {
        Event { uid: None, summary: None, dtstart: None, dtend: None }
    }
}

impl Default for Calendar {
    fn default() -> (c: Calendar)
        ensures
            c@ == Seq::<EventView>::empty(),
    {
        let c = Calendar { events: Vec::new() };
        assert(c@ =~= Seq::<EventView>::empty());
        c
    }
}

/// Where the reading of a document stands: the events finished so far and
/// the one being read, if a `BEGIN:VEVENT` is open.
pub struct ReadState {
    pub events: Seq<EventView>,
    pub current: Option<EventView>,
}

pub open spec fn kw_begin() -> Seq<char> {
    seq!['B', 'E', 'G', 'I', 'N']
}

pub open spec fn kw_end() -> Seq<char> {
    seq!['E', 'N', 'D']
}

pub open spec fn kw_vevent() -> Seq<char> {
    seq!['V', 'E', 'V', 'E', 'N', 'T']
}

pub open spec fn kw_uid() -> Seq<char> {
    seq!['U', 'I', 'D']
}

pub open spec fn kw_summary() -> Seq<char> {
    seq!['S', 'U', 'M', 'M', 'A', 'R', 'Y']
}

pub open spec fn kw_dtstart() -> Seq<char> {
    seq!['D', 'T', 'S', 'T', 'A', 'R', 'T']
}

pub open spec fn kw_dtend() -> Seq<char> {
    seq!['D', 'T', 'E', 'N', 'D']
}

/// The open event with one property recorded, by the property's name.
pub open spec fn record_property(e: EventView, p: PropertyView) -> EventView {
    if p.name == kw_uid() {
        EventView { uid: Some(p.value), ..e }
    } else if p.name == kw_summary() {
        EventView { summary: Some(p.value), ..e }
    } else if p.name == kw_dtstart() {
        EventView { dtstart: spec_parse_date_time(p), ..e }
    } else if p.name == kw_dtend() {
        EventView { dtend: spec_parse_date_time(p), ..e }
    } else {
        e
    }
}

/// The reading after one more logical line. A line that is no content line
/// changes nothing. `BEGIN:VEVENT` opens a fresh event, dropping any open one;
/// `END:VEVENT` finishes the open event, if any; `UID`, `SUMMARY`, `DTSTART`
/// and `DTEND` are recorded on the open event; anything else is ignored.
pub open spec fn read_line(st: ReadState, line: Seq<char>) -> ReadState {
    match spec_parse_property(line) {
        None => st,
        Some(p) => {
            if p.name == kw_begin() && p.value == kw_vevent() {
                ReadState { events: st.events, current: Some(empty_event()) }
            } else if p.name == kw_end() && p.value == kw_vevent() {
                match st.current {
                    Some(e) => ReadState { events: st.events.push(e), current: None },
                    None => st,
                }
            } else {
                match st.current {
                    Some(e) => ReadState { events: st.events, current: Some(record_property(e, p)) },
                    None => st,
                }
            }
        },
    }
}

/// The reading state before any line.
pub open spec fn start_state() -> ReadState {
    ReadState { events: seq![], current: None }
}

/// The reading state after the logical lines `lines`, in order.
pub open spec fn read_lines(lines: Seq<Seq<char>>) -> ReadState
    decreases lines.len(),
{
    if lines.len() == 0 {
        start_state()
    } else {
        read_line(read_lines(lines.drop_last()), lines.last())
    }
}

/// The events of a whole document.
pub open spec fn spec_parse_calendar(text: Seq<char>) -> Seq<EventView> {
    read_lines(spec_unfold(text)).events
}

/// The view of the open event, if any.
pub open spec fn current_view(e: Option<Event>) -> Option<EventView> {
    match e {
        Some(e) => Some(e@),
        None => None,
    }
}

/// The open event after the property `prop`, which is none of `BEGIN:VEVENT`
/// and `END:VEVENT`.
fn record(e: Event, prop: Property) -> (r: Event)
    ensures
        r@ == record_property(e@, prop@),
{
    let name = chars_of(prop.name.as_str());
    let uid: [char; 3] = ['U', 'I', 'D'];
    let summary: [char; 7] = ['S', 'U', 'M', 'M', 'A', 'R', 'Y'];
    let dtstart: [char; 7] = ['D', 'T', 'S', 'T', 'A', 'R', 'T'];
    let dtend: [char; 5] = ['D', 'T', 'E', 'N', 'D'];
    assert(uid@ == kw_uid() && summary@ == kw_summary() && dtstart@ == kw_dtstart() && dtend@ == kw_dtend());
    if chars_eq(&name, &uid) {
        Event { uid: Some(prop.value), summary: e.summary, dtstart: e.dtstart, dtend: e.dtend }
    } else if chars_eq(&name, &summary) {
        Event { uid: e.uid, summary: Some(prop.value), dtstart: e.dtstart, dtend: e.dtend }
    } else if chars_eq(&name, &dtstart) {
        let d = parse_date_time(&prop);
        Event { uid: e.uid, summary: e.summary, dtstart: d, dtend: e.dtend }
    } else if chars_eq(&name, &dtend) {
        let d = parse_date_time(&prop);
        Event { uid: e.uid, summary: e.summary, dtstart: e.dtstart, dtend: d }
    } else {
        e
    }
}

/// Parses a whole .ics document into a list of VEVENT blocks. Anything
/// outside a BEGIN:VEVENT/END:VEVENT pair (VCALENDAR headers, VTIMEZONE,
/// VALARM, ...) is currently ignored. An event that never sees a matching
/// END:VEVENT is dropped rather than emitted half-built.
pub fn parse_calendar(text: &str) -> (cal: Calendar)
    ensures
        cal@ == spec_parse_calendar(text@),
{
    let lines = unfold(text);
    let ghost logical = views(lines@);
    let begin: [char; 5] = ['B', 'E', 'G', 'I', 'N'];
    let end: [char; 3] = ['E', 'N', 'D'];
    let vevent: [char; 6] = ['V', 'E', 'V', 'E', 'N', 'T'];
    let mut events: Vec<Event> = Vec::new();
    let mut current: Option<Event> = None;
    let mut i: usize = 0;
    while i < lines.len()
        invariant
            i <= lines.len(),
            logical == views(lines@),
            logical == spec_unfold(text@),
            begin@ == kw_begin(),
            end@ == kw_end(),
            vevent@ == kw_vevent(),
            event_views(events@) == read_lines(logical.take(i as int)).events,
            current_view(current) == read_lines(logical.take(i as int)).current,
        decreases lines.len() - i,
    {
        let ghost before = read_lines(logical.take(i as int));
        proof {
            assert(logical.take(i + 1).drop_last() =~= logical.take(i as int));
            assert(logical.take(i + 1).last() == lines@[i as int]@);
        }
        match parse_property(lines[i].as_str()) {
            None => {},
            Some(prop) => {
                let name = chars_of(prop.name.as_str());
                let value = chars_of(prop.value.as_str());
                if chars_eq(&name, &begin) && chars_eq(&value, &vevent) {
                    current = Some(Event { uid: None, summary: None, dtstart: None, dtend: None });
                } else if chars_eq(&name, &end) && chars_eq(&value, &vevent) {
                    match current {
                        Some(e) => {
                            proof {
                                assert(event_views(events@.push(e)) =~= event_views(events@).push(e@));
                            }
                            events.push(e);
                            current = None;
                        },
                        None => {},
                    }
                } else {
                    current = match current {
                        Some(e) => Some(record(e, prop)),
                        None => None,
                    };
                }
            },
        }
        i += 1;
    }
    proof {
        assert(logical.take(i as int) =~= logical);
    }
    Calendar { events }
}

/// `line` is a `BEGIN:VEVENT` content line.
pub open spec fn is_begin_event(line: Seq<char>) -> bool {
    spec_parse_property(line) matches Some(p) && p.name == kw_begin() && p.value == kw_vevent()
}

/// `line` is an `END:VEVENT` content line.
pub open spec fn is_end_event(line: Seq<char>) -> bool {
    spec_parse_property(line) matches Some(p) && p.name == kw_end() && p.value == kw_vevent()
}

/// Without a `BEGIN:VEVENT` line nothing is open and no event comes out.
pub proof fn law_no_begin_no_events(lines: Seq<Seq<char>>)
    requires
        forall|i: int| 0 <= i < lines.len() ==> !is_begin_event(#[trigger] lines[i]),
    ensures
        read_lines(lines).events.len() == 0,
        read_lines(lines).current is None,
    decreases lines.len(),
{
    if lines.len() > 0 {
        let init = lines.drop_last();
        assert forall|i: int| 0 <= i < init.len() implies !is_begin_event(#[trigger] init[i]) by {
            assert(init[i] == lines[i]);
        }
        law_no_begin_no_events(init);
        assert(!is_begin_event(lines[lines.len() - 1]));
    }
}

/// Lines without an `END:VEVENT` add no event: an event still open at the
/// end of a document is dropped, not emitted half-built.
pub proof fn law_unfinished_event_is_dropped(lines: Seq<Seq<char>>, more: Seq<Seq<char>>)
    requires
        forall|i: int| 0 <= i < more.len() ==> !is_end_event(#[trigger] more[i]),
    ensures
        read_lines(lines + more).events == read_lines(lines).events,
    decreases more.len(),
{
    if more.len() == 0 {
        assert(lines + more =~= lines);
    } else {
        let init = more.drop_last();
        assert forall|i: int| 0 <= i < init.len() implies !is_end_event(#[trigger] init[i]) by {
            assert(init[i] == more[i]);
        }
        law_unfinished_event_is_dropped(lines, init);
        assert((lines + more).drop_last() =~= lines + init);
        assert(!is_end_event(more[more.len() - 1]));
    }
}

/// Reading resumes from scratch after a document part that leaves no event
/// open: the events of the whole are those of the first part followed by
/// those of the second.
pub proof fn law_read_concatenation(first: Seq<Seq<char>>, second: Seq<Seq<char>>)
    requires
        read_lines(first).current is None,
    ensures
        read_lines(first + second).events == read_lines(first).events + read_lines(second).events,
        read_lines(first + second).current == read_lines(second).current,
    decreases second.len(),
{
    if second.len() == 0 {
        assert(first + second =~= first);
        assert(read_lines(first).events + read_lines(second).events =~= read_lines(first).events);
    } else {
        let init = second.drop_last();
        law_read_concatenation(first, init);
        assert((first + second).drop_last() =~= first + init);
        let e1 = read_lines(first).events;
        let e2 = read_lines(init).events;
        match spec_parse_property(second.last()) {
            Some(p) => {
                if !(p.name == kw_begin() && p.value == kw_vevent()) && p.name == kw_end() && p.value == kw_vevent() {
                    if read_lines(init).current is Some {
                        assert(e1 + e2.push(read_lines(init).current->0) =~= (e1 + e2).push(read_lines(init).current->0));
                    }
                }
            },
            None => {},
        }
    }
}

/// A content line without parameters, as it is written.
pub open spec fn simple_line(name: Seq<char>, value: Seq<char>) -> Seq<char> {
    written_property(PropertyView { name, params: seq![], value })
}

/// One event with a `UID` and a `SUMMARY`, as it is written.
pub open spec fn written_event(uid: Seq<char>, summary: Seq<char>) -> Seq<Seq<char>> {
    seq![
        simple_line(kw_begin(), kw_vevent()),
        simple_line(kw_uid(), uid),
        simple_line(kw_summary(), summary),
        simple_line(kw_end(), kw_vevent()),
    ]
}

/// A written content line without parameters holds no line break when its
/// value holds no carriage return, starts with its name and reads back.
proof fn lemma_simple_line(name: Seq<char>, value: Seq<char>)
    requires
        name.len() > 0,
        forall|i: int| 0 <= i < name.len() ==> 'A' <= #[trigger] name[i] <= 'Z',
        !value.contains('\r'),
    ensures
        no_line_break(simple_line(name, value)),
        !is_continuation(simple_line(name, value)),
        spec_parse_property(simple_line(name, value)) == Some(PropertyView { name, params: seq![], value }),
{
    let p = PropertyView { name, params: seq![], value };
    let l = simple_line(name, value);
    assert(crate::property::written_params(seq![]) =~= Seq::<char>::empty());
    assert(l =~= name + seq![':'] + spec_escape(value));
    assert forall|c: char| c == ';' || c == ':' || c == '"' implies !name.contains(c) by {
        if name.contains(c) {
            let i = choose|i: int| 0 <= i < name.len() && name[i] == c;
            assert('A' <= name[i] <= 'Z');
        }
    }
    law_parse_property_reads_written(p);
    law_escape_writes_no_newline(value);
    let e = spec_escape(value);
    assert forall|i: int| 0 <= i < l.len() implies !is_line_break(#[trigger] l[i]) by {
        if i < name.len() {
            assert('A' <= name[i] <= 'Z');
        } else if i > name.len() {
            assert(l[i] == e[i - name.len() - 1]);
            assert(e.contains(e[i - name.len() - 1]));
        }
    }
    assert('A' <= name[0] <= 'Z');
}

/// A document holding one written event, with any accepted line terminator,
/// reads back as that one event, whatever its `UID` and `SUMMARY` hold but a
/// carriage return.
pub proof fn law_parse_calendar_reads_written_event(uid: Seq<char>, summary: Seq<char>, t: Seq<char>)
    requires
        !uid.contains('\r'),
        !summary.contains('\r'),
        is_terminator(t),
    ensures
        spec_parse_calendar(join_lines(written_event(uid, summary), t)) == seq![
            EventView { uid: Some(uid), summary: Some(summary), dtstart: None, dtend: None },
        ],
{
    let lines = written_event(uid, summary);
    assert(!kw_vevent().contains('\r')) by {
        if kw_vevent().contains('\r') {
            let i = choose|i: int| 0 <= i < kw_vevent().len() && kw_vevent()[i] == '\r';
        }
    }
    lemma_simple_line(kw_begin(), kw_vevent());
    lemma_simple_line(kw_uid(), uid);
    lemma_simple_line(kw_summary(), summary);
    lemma_simple_line(kw_end(), kw_vevent());
    assert forall|i: int| 0 <= i < lines.len() implies no_line_break(#[trigger] lines[i]) by {}
    law_split_lines_of_joined(lines, t);
    assert forall|i: int| 0 < i < lines.len() implies !is_continuation(#[trigger] lines[i]) by {}
    law_unfold_lines_without_continuations(lines);
    assert(spec_unfold(join_lines(lines, t)) == lines);
    assert(lines.drop_last().drop_last().drop_last().drop_last() =~= Seq::<Seq<char>>::empty());
    assert(lines.drop_last().drop_last().drop_last() =~= seq![lines[0]]);
    assert(lines.drop_last().drop_last() =~= seq![lines[0], lines[1]]);
    assert(lines.drop_last() =~= seq![lines[0], lines[1], lines[2]]);
    let s1 = read_lines(seq![lines[0]]);
    assert(seq![lines[0]].drop_last() =~= Seq::<Seq<char>>::empty());
    assert(read_lines(Seq::<Seq<char>>::empty()) == start_state());
    assert(seq![lines[0]].last() == lines[0]);
    assert(lines[0] == simple_line(kw_begin(), kw_vevent()));
    assert(is_begin_event(lines[0]));
    assert(s1.current == Some(empty_event()) && s1.events.len() == 0);
    let s2 = read_lines(seq![lines[0], lines[1]]);
    assert(seq![lines[0], lines[1]].drop_last() =~= seq![lines[0]]);
    assert(s2.current == Some(EventView { uid: Some(uid), ..empty_event() }));
    let s3 = read_lines(seq![lines[0], lines[1], lines[2]]);
    assert(seq![lines[0], lines[1], lines[2]].drop_last() =~= seq![lines[0], lines[1]]);
    assert(s3.current == Some(EventView { uid: Some(uid), summary: Some(summary), dtstart: None, dtend: None }));
    assert(read_lines(lines).events =~= seq![
        EventView { uid: Some(uid), summary: Some(summary), dtstart: None, dtend: None },
    ]);
}

/// Two documents joined as text, the first ending a line and leaving no
/// event open and the second starting a line, give the events of the first
/// followed by those of the second.
pub proof fn law_parse_calendar_concat(a: Seq<char>, b: Seq<char>)
    requires
        ends_a_line(a),
        starts_a_line(b),
        read_lines(spec_unfold(a)).current is None,
    ensures
        spec_parse_calendar(a + b) == spec_parse_calendar(a) + spec_parse_calendar(b),
{
    law_unfold_concat(a, b);
    law_read_concatenation(spec_unfold(a), spec_unfold(b));
}

/// `line` is a content line naming the property `key`.
pub open spec fn names_property(line: Seq<char>, key: Seq<char>) -> bool {
    spec_parse_property(line) matches Some(p) && p.name == key
}

/// The last of `lines` that names the property `key`, read as a property.
pub open spec fn last_named(lines: Seq<Seq<char>>, key: Seq<char>) -> Option<PropertyView>
    decreases lines.len(),
{
    if lines.len() == 0 {
        None
    } else if names_property(lines.last(), key) {
        spec_parse_property(lines.last())
    } else {
        last_named(lines.drop_last(), key)
    }
}

/// The value of the last of `lines` naming `key`, or `earlier` when none does.
pub open spec fn latest_value(lines: Seq<Seq<char>>, key: Seq<char>, earlier: Option<Seq<char>>) -> Option<Seq<char>> {
    match last_named(lines, key) {
        Some(p) => Some(p.value),
        None => earlier,
    }
}

/// The date-time read from the last of `lines` naming `key`, or `earlier`
/// when none does.
pub open spec fn latest_date_time(
    lines: Seq<Seq<char>>,
    key: Seq<char>,
    earlier: Option<DateTimeView>,
) -> Option<DateTimeView> {
    match last_named(lines, key) {
        Some(p) => spec_parse_date_time(p),
        None => earlier,
    }
}

/// While an event is open, lines that neither begin nor end a `VEVENT` keep
/// it open and finish no event; each of its four fields then comes from the
/// last line naming that field's property (`UID` and `SUMMARY` give their
/// value, `DTSTART` and `DTEND` the date-time read from the line), and stays
/// as it was when no line names it. Lines naming other properties, and
/// `BEGIN`/`END` lines of other components such as `VALARM`, change nothing.
pub proof fn law_open_event_fields(before: Seq<Seq<char>>, lines: Seq<Seq<char>>)
    requires
        read_lines(before).current is Some,
        forall|i: int| 0 <= i < lines.len() ==> !is_begin_event(#[trigger] lines[i]) && !is_end_event(lines[i]),
    ensures
        read_lines(before + lines).events == read_lines(before).events,
        read_lines(before + lines).current == Some(
            EventView {
                uid: latest_value(lines, kw_uid(), read_lines(before).current->0.uid),
                summary: latest_value(lines, kw_summary(), read_lines(before).current->0.summary),
                dtstart: latest_date_time(lines, kw_dtstart(), read_lines(before).current->0.dtstart),
                dtend: latest_date_time(lines, kw_dtend(), read_lines(before).current->0.dtend),
            },
        ),
    decreases lines.len(),
{
    let e = read_lines(before).current->0;
    if lines.len() == 0 {
        assert(before + lines =~= before);
    } else {
        let init = lines.drop_last();
        let l = lines.last();
        assert forall|i: int| 0 <= i < init.len() implies !is_begin_event(#[trigger] init[i]) && !is_end_event(init[i]) by {
            assert(init[i] == lines[i]);
        }
        law_open_event_fields(before, init);
        assert((before + lines).drop_last() =~= before + init);
        assert((before + lines).last() == l);
        assert(!is_begin_event(lines[lines.len() - 1]) && !is_end_event(lines[lines.len() - 1]));
        assert(kw_uid().len() == 3 && kw_summary().len() == 7 && kw_dtstart().len() == 7 && kw_dtend().len() == 5);
        assert(kw_summary()[0] != kw_dtstart()[0]);
    }
}

} // verus!
