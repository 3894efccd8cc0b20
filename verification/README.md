# ics_glance

Reading iCalendar (`.ics`) text, verified with Verus.

- `src/text.rs`: characters of strings, case-insensitive comparison and
  zero-padded decimal formatting.
- `src/lines.rs`: physical lines (`split_lines`, any of CRLF, LF or CR) and
  unfolding of continuation lines (`unfold`). Laws: joined lines split back;
  a document folded with spaces or tabs unfolds back to its logical lines;
  documents joined as text unfold into the lines of each in turn.
- `src/escape.rs`: `unescape_value`, and the law that it undoes escaping.
- `src/property.rs`: `parse_property` for `NAME;PARAM=VAL:VALUE` lines, where
  colons and semicolons inside quoted parameter values belong to the value,
  and the law that a written line reads back as the property written.
- `src/datetime.rs`: Gregorian `Date`, `Time`, `parse_date_time` and their text
  forms, with the laws that written dates and times read back.
- `src/calendar.rs`: `parse_calendar`, a state machine over logical lines,
  with the laws that a written event reads back and that joined documents give
  the events of each in turn.
- `app/main.rs`: the command line tool that prints each event's start and summary.

Every public function's contract states its result exactly, over a spec
function on character sequences.
