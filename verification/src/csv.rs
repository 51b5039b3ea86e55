//! CSV text for readings and sensors.
//!
//! The dialect is the usual one: records end at a line break, fields are
//! separated by commas, a field holding a comma, quote or line break is
//! written between double quotes with inner quotes doubled, and on
//! reading, unquoted fields are trimmed of surrounding blanks.

use vstd::prelude::*;

use crate::error::AppError;
use crate::reading::{Reading, ReadingResponse, ReadingV};
use crate::sensor::{Sensor, SensorResponse, SensorV};
use crate::text::{
    i64_text_val, int_text_of, int_to_text, milli_text_of, milli_text_val, milli_to_text,
    parse_i64_text, parse_milli_text,
};
use crate::time::{format_timestamp, time_text_of};

verus! {

/// Collect the characters of a text.
pub fn chars_of(s: &str) -> (v: Vec<char>)
    ensures
        v@ == s@,
{
    let mut v: Vec<char> = Vec::new();
    for c in it: s.chars()
        invariant
            it.seq() == s@,
            v@ == it.seq().take(it.index() as int),
    {
        v.push(c);
        proof {
            assert(v@ =~= it.seq().take(it.index() as int + 1));
        }
    }
    proof {
        assert(v@ =~= s@);
    }
    v
}

/// Build a text from characters.
pub fn string_from_chars(v: &Vec<char>) -> (s: String)
    ensures
        s@ == v@,
{
    let n = v.len();
    let mut s = String::new();
    let mut i: usize = 0;
    while i < n
        invariant
            n == v@.len(),
            i <= n,
            s@ == v@.take(i as int),
        decreases n - i,
    {
        s.push(v[i]);
        proof {
            assert(s@ =~= v@.take(i as int + 1));
        }
        i = i + 1;
    }
    proof {
        assert(s@ =~= v@);
    }
    s
}

/// A character that forces a CSV field into quotes.
pub open spec fn is_csv_special(c: char) -> bool {
    c == ',' || c == '"' || c == '\n' || c == '\r'
}

/// Whether a field must be written between quotes.
pub open spec fn needs_quote(f: Seq<char>) -> bool {
    exists|i: int| 0 <= i < f.len() && is_csv_special(#[trigger] f[i])
}

/// The field text with every quote doubled.
pub open spec fn escape_quotes(f: Seq<char>) -> Seq<char>
    decreases f.len(),
{
    if f.len() == 0 {
        Seq::<char>::empty()
    } else if f[0] == '"' {
        seq!['"', '"'] + escape_quotes(f.drop_first())
    } else {
        seq![f[0]] + escape_quotes(f.drop_first())
    }
}

/// How a field is written: as it is, or quoted with inner quotes doubled
/// when it holds a separator, a quote or a line break.
pub open spec fn csv_field_text(f: Seq<char>) -> Seq<char> {
    if needs_quote(f) {
        seq!['"'] + escape_quotes(f) + seq!['"']
    } else {
        f
    }
}

/// Doubling quotes distributes over concatenation.
proof fn lemma_escape_concat(a: Seq<char>, b: Seq<char>)
    ensures
        escape_quotes(a + b) == escape_quotes(a) + escape_quotes(b),
    decreases a.len(),
{
    if a.len() == 0 {
        assert(a + b =~= b);
        assert(escape_quotes(a) + escape_quotes(b) =~= escape_quotes(b));
    } else {
        assert((a + b).drop_first() =~= a.drop_first() + b);
        lemma_escape_concat(a.drop_first(), b);
        if a[0] == '"' {
            assert(seq!['"', '"'] + (escape_quotes(a.drop_first()) + escape_quotes(b)) =~= (
            seq!['"', '"'] + escape_quotes(a.drop_first())) + escape_quotes(b));
        } else {
            assert((a + b)[0] == a[0]);
            assert(seq![a[0]] + (escape_quotes(a.drop_first()) + escape_quotes(b)) =~= (seq![a[0]]
                + escape_quotes(a.drop_first())) + escape_quotes(b));
        }
    }
}

/// Append the characters of a text.
fn push_chars(out: &mut String, cs: &Vec<char>)
    ensures
        final(out)@ == old(out)@ + cs@,
{
    let n = cs.len();
    let mut i: usize = 0;
    while i < n
        invariant
            n == cs@.len(),
            i <= n,
            out@ == old(out)@ + cs@.take(i as int),
        decreases n - i,
    {
        out.push(cs[i]);
        proof {
            assert(old(out)@ + cs@.take(i as int + 1) =~= (old(out)@ + cs@.take(i as int)).push(
                cs@[i as int],
            ));
        }
        i = i + 1;
    }
    proof {
        assert(cs@.take(n as int) =~= cs@);
    }
}

/// Append the field text with every quote doubled.
fn push_escaped(out: &mut String, cs: &Vec<char>)
    ensures
        final(out)@ == old(out)@ + escape_quotes(cs@),
{
    let n = cs.len();
    let mut i: usize = 0;
    while i < n
        invariant
            n == cs@.len(),
            i <= n,
            out@ == old(out)@ + escape_quotes(cs@.take(i as int)),
        decreases n - i,
    {
        proof {
            assert(cs@.take(i as int + 1) =~= cs@.take(i as int) + seq![cs@[i as int]]);
            lemma_escape_concat(cs@.take(i as int), seq![cs@[i as int]]);
            assert(seq![cs@[i as int]].drop_first() =~= Seq::<char>::empty());
        }
        let c = cs[i];
        proof {
            assert(escape_quotes(Seq::<char>::empty()) =~= Seq::<char>::empty());
        }
        if c == '"' {
            out.push('"');
            out.push('"');
            proof {
                assert(escape_quotes(seq![cs@[i as int]]) =~= seq!['"', '"']);
                assert(out@ =~= old(out)@ + escape_quotes(cs@.take(i as int + 1)));
            }
        } else {
            out.push(c);
            proof {
                assert(escape_quotes(seq![cs@[i as int]]) =~= seq![cs@[i as int]]);
                assert(out@ =~= old(out)@ + escape_quotes(cs@.take(i as int + 1)));
            }
        }
        i = i + 1;
    }
    proof {
        assert(cs@.take(n as int) =~= cs@);
    }
}

/// Append one field, quoting it exactly when it needs quotes.
fn push_csv_field(out: &mut String, f: &str)
    ensures
        final(out)@ == old(out)@ + csv_field_text(f@),
{
    let cs = chars_of(f);
    let n = cs.len();
    let mut special = false;
    let mut i: usize = 0;
    while i < n
        invariant
            n == cs@.len(),
            i <= n,
            cs@ == f@,
            special == (exists|j: int| 0 <= j < i && is_csv_special(#[trigger] cs@[j])),
        decreases n - i,
    {
        let c = cs[i];
        if c == ',' || c == '"' || c == '\n' || c == '\r' {
            proof {
                assert(is_csv_special(cs@[i as int]));
            }
            special = true;
        }
        i = i + 1;
    }
    if special {
        out.push('"');
        push_escaped(out, &cs);
        out.push('"');
        proof {
            assert(out@ =~= old(out)@ + csv_field_text(f@));
        }
    } else {
        push_chars(out, &cs);
    }
}


/// Append one separator.
fn push_comma(out: &mut String)
    ensures
        final(out)@ == old(out)@ + seq![','],
{
    out.push(',');
    proof {
        assert(out@ =~= old(out)@ + seq![',']);
    }
}

/// Append one record terminator.
fn push_newline(out: &mut String)
    ensures
        final(out)@ == old(out)@ + seq!['\n'],
{
    out.push('\n');
    proof {
        assert(out@ =~= old(out)@ + seq!['\n']);
    }
}

/// The empty text for an absent value.
pub open spec fn opt_milli_text(v: Option<int>) -> Seq<char> {
    match v {
        Some(x) => milli_text_of(x),
        None => Seq::<char>::empty(),
    }
}

/// The empty text for an absent value.
pub open spec fn opt_int_text(v: Option<int>) -> Seq<char> {
    match v {
        Some(x) => int_text_of(x),
        None => Seq::<char>::empty(),
    }
}

/// The empty text for an absent text.
pub open spec fn opt_text_or_empty(v: Option<Seq<char>>) -> Seq<char> {
    match v {
        Some(x) => x,
        None => Seq::<char>::empty(),
    }
}

/// The header line of a readings export.
pub const READINGS_CSV_HEADER: &'static str =
    "reading_id,timestamp,formatted_time,sensor_id,value,state,change_type\n";

/// The CSV line of one reading: id, raw and rendered timestamp, owning
/// sensor, value, state, change tag.
pub open spec fn reading_csv_line(r: ReadingV) -> Seq<char> {
    csv_field_text(int_text_of(r.id)) + seq![','] + csv_field_text(int_text_of(r.timestamp))
        + seq![','] + csv_field_text(time_text_of(r.timestamp)) + seq![','] + csv_field_text(
        int_text_of(r.sensor_id),
    ) + seq![','] + csv_field_text(opt_milli_text(r.value)) + seq![','] + csv_field_text(
        opt_int_text(r.state),
    ) + seq![','] + csv_field_text(opt_text_or_empty(r.change_type)) + seq!['\n']
}

/// The CSV lines of a run of readings, in order.
pub open spec fn reading_csv_lines(rs: Seq<ReadingV>) -> Seq<char>
    decreases rs.len(),
{
    if rs.len() == 0 {
        Seq::<char>::empty()
    } else {
        reading_csv_line(rs[0]) + reading_csv_lines(rs.drop_first())
    }
}

/// The lines of one more reading extend the lines so far.
proof fn lemma_reading_lines_push(rs: Seq<ReadingV>, x: ReadingV)
    ensures
        reading_csv_lines(rs.push(x)) == reading_csv_lines(rs) + reading_csv_line(x),
    decreases rs.len(),
{
    if rs.len() == 0 {
        assert(rs.push(x).drop_first() =~= Seq::<ReadingV>::empty());
        assert(reading_csv_lines(Seq::<ReadingV>::empty()) =~= Seq::<char>::empty());
        assert(rs.push(x)[0] == x);
        assert(reading_csv_lines(rs.push(x)) =~= reading_csv_line(x));
        assert(reading_csv_lines(rs) + reading_csv_line(x) =~= reading_csv_line(x));
    } else {
        assert(rs.push(x).drop_first() =~= rs.drop_first().push(x));
        lemma_reading_lines_push(rs.drop_first(), x);
        assert(reading_csv_line(rs[0]) + (reading_csv_lines(rs.drop_first()) + reading_csv_line(x))
            =~= (reading_csv_line(rs[0]) + reading_csv_lines(rs.drop_first())) + reading_csv_line(
            x,
        ));
    }
}


/// Append the CSV line of one reading.
#[verifier::rlimit(100)]
fn push_reading_line(out: &mut String, row: &ReadingResponse)
    ensures
        final(out)@ == old(out)@ + reading_csv_line(row@),
{
    let ghost base = old(out)@;
    let ghost f1 = csv_field_text(int_text_of(row@.id));
    let ghost f2 = csv_field_text(int_text_of(row@.timestamp));
    let ghost f3 = csv_field_text(time_text_of(row@.timestamp));
    let ghost f4 = csv_field_text(int_text_of(row@.sensor_id));
    let ghost f5 = csv_field_text(opt_milli_text(row@.value));
    let ghost f6 = csv_field_text(opt_int_text(row@.state));
    let ghost f7 = csv_field_text(opt_text_or_empty(row@.change_type));
    let ghost c = seq![','];
    let id_text = int_to_text(row.reading_id);
    push_csv_field(out, id_text.as_str());
    proof {
        assert(out@ == base + f1);
    }
    push_comma(out);
    proof {
        assert(out@ =~= base + (f1 + c));
    }
    let ts_text = int_to_text(row.timestamp);
    push_csv_field(out, ts_text.as_str());
    proof {
        assert(out@ =~= base + (f1 + c + f2));
    }
    push_comma(out);
    proof {
        assert(out@ =~= base + (f1 + c + f2 + c));
    }
    let time_text = format_timestamp(row.timestamp);
    push_csv_field(out, time_text.as_str());
    proof {
        assert(out@ =~= base + (f1 + c + f2 + c + f3));
    }
    push_comma(out);
    proof {
        assert(out@ =~= base + (f1 + c + f2 + c + f3 + c));
    }
    let sid_text = int_to_text(row.sensor_id);
    push_csv_field(out, sid_text.as_str());
    proof {
        assert(out@ =~= base + (f1 + c + f2 + c + f3 + c + f4));
    }
    push_comma(out);
    proof {
        assert(out@ =~= base + (f1 + c + f2 + c + f3 + c + f4 + c));
    }
    let value_text = match row.value {
        Some(v) => milli_to_text(v),
        None => String::new(),
    };
    push_csv_field(out, value_text.as_str());
    proof {
        assert(value_text@ == opt_milli_text(row@.value));
        assert(out@ =~= base + (f1 + c + f2 + c + f3 + c + f4 + c + f5));
    }
    push_comma(out);
    proof {
        assert(out@ =~= base + (f1 + c + f2 + c + f3 + c + f4 + c + f5 + c));
    }
    let state_text = match row.state {
        Some(v) => int_to_text(v),
        None => String::new(),
    };
    push_csv_field(out, state_text.as_str());
    proof {
        assert(state_text@ == opt_int_text(row@.state));
        assert(out@ =~= base + (f1 + c + f2 + c + f3 + c + f4 + c + f5 + c + f6));
    }
    push_comma(out);
    proof {
        assert(out@ =~= base + (f1 + c + f2 + c + f3 + c + f4 + c + f5 + c + f6 + c));
    }
    match &row.change_type {
        Some(s) => push_csv_field(out, s.as_str()),
        None => {
            proof {
                assert(!needs_quote(Seq::<char>::empty()));
                assert(out@ + csv_field_text(Seq::<char>::empty()) =~= out@);
            }
        },
    }
    proof {
        assert(out@ =~= base + (f1 + c + f2 + c + f3 + c + f4 + c + f5 + c + f6 + c + f7));
    }
    push_newline(out);
    proof {
        assert(out@ =~= base + (f1 + c + f2 + c + f3 + c + f4 + c + f5 + c + f6 + c + f7
            + seq!['\n']));
        assert(reading_csv_line(row@) == f1 + c + f2 + c + f3 + c + f4 + c + f5 + c + f6 + c + f7
            + seq!['\n']);
    }
}

/// Render readings as CSV: the header line when asked for, then one line
/// per reading, in the given order.
#[verifier::rlimit(100)]
pub fn export_readings_to_csv(readings: &Vec<ReadingResponse>, include_headers: bool) -> (r:
    String)
    ensures
        r@ == (if include_headers {
            READINGS_CSV_HEADER@
        } else {
            Seq::<char>::empty()
        }) + reading_csv_lines(readings@.map_values(|x: ReadingResponse| x@)),
{
    let ghost rows = readings@.map_values(|x: ReadingResponse| x@);
    let mut out = String::new();
    if include_headers {
        out.append(READINGS_CSV_HEADER);
    }
    let ghost head = out@;
    let n = readings.len();
    let mut i: usize = 0;
    while i < n
        invariant
            n == readings@.len(),
            i <= n,
            rows == readings@.map_values(|x: ReadingResponse| x@),
            out@ == head + reading_csv_lines(rows.take(i as int)),
        decreases n - i,
    {
        push_reading_line(&mut out, &readings[i]);
        proof {
            assert(rows.take(i as int + 1) =~= rows.take(i as int).push(rows[i as int]));
            lemma_reading_lines_push(rows.take(i as int), rows[i as int]);
            assert(out@ =~= head + reading_csv_lines(rows.take(i as int + 1)));
        }
        i = i + 1;
    }
    proof {
        assert(rows.take(n as int) =~= rows);
    }
    out
}

/// The header line of a sensors export.
pub const SENSORS_CSV_HEADER: &'static str =
    "sensor_id,sensor_name,sensor_type,location,unit,threshold_min,threshold_max,calibration_date,notes,created_at,updated_at\n";

/// The rendered calendar text for an optional timestamp.
pub open spec fn opt_time_text(v: Option<int>) -> Seq<char> {
    match v {
        Some(x) => time_text_of(x),
        None => Seq::<char>::empty(),
    }
}

/// The first half of a sensor's CSV line: id, name, type, location and
/// unit, each followed by a separator.
pub open spec fn sensor_csv_head(s: SensorV) -> Seq<char> {
    csv_field_text(int_text_of(s.id)) + seq![','] + csv_field_text(s.name) + seq![',']
        + csv_field_text(s.ty) + seq![','] + csv_field_text(opt_text_or_empty(s.location))
        + seq![','] + csv_field_text(opt_text_or_empty(s.unit)) + seq![',']
}

/// The CSV line of one sensor record.
pub open spec fn sensor_csv_line(s: SensorV) -> Seq<char> {
    csv_field_text(int_text_of(s.id)) + seq![','] + csv_field_text(s.name) + seq![',']
        + csv_field_text(s.ty) + seq![','] + csv_field_text(opt_text_or_empty(s.location))
        + seq![','] + csv_field_text(opt_text_or_empty(s.unit)) + seq![','] + csv_field_text(
        opt_milli_text(s.threshold_min),
    ) + seq![','] + csv_field_text(opt_milli_text(s.threshold_max)) + seq![','] + csv_field_text(
        opt_time_text(s.calibration_date),
    ) + seq![','] + csv_field_text(opt_text_or_empty(s.notes)) + seq![','] + csv_field_text(
        time_text_of(s.created_at),
    ) + seq![','] + csv_field_text(time_text_of(s.updated_at)) + seq!['\n']
}

/// The CSV lines of a run of sensor records, in order.
pub open spec fn sensor_csv_lines(ss: Seq<SensorV>) -> Seq<char>
    decreases ss.len(),
{
    if ss.len() == 0 {
        Seq::<char>::empty()
    } else {
        sensor_csv_line(ss[0]) + sensor_csv_lines(ss.drop_first())
    }
}

/// The lines of one more sensor extend the lines so far.
proof fn lemma_sensor_lines_push(ss: Seq<SensorV>, x: SensorV)
    ensures
        sensor_csv_lines(ss.push(x)) == sensor_csv_lines(ss) + sensor_csv_line(x),
    decreases ss.len(),
{
    if ss.len() == 0 {
        assert(ss.push(x).drop_first() =~= Seq::<SensorV>::empty());
        assert(sensor_csv_lines(Seq::<SensorV>::empty()) =~= Seq::<char>::empty());
        assert(ss.push(x)[0] == x);
        assert(sensor_csv_lines(ss.push(x)) =~= sensor_csv_line(x));
        assert(sensor_csv_lines(ss) + sensor_csv_line(x) =~= sensor_csv_line(x));
    } else {
        assert(ss.push(x).drop_first() =~= ss.drop_first().push(x));
        lemma_sensor_lines_push(ss.drop_first(), x);
        assert(sensor_csv_line(ss[0]) + (sensor_csv_lines(ss.drop_first()) + sensor_csv_line(x))
            =~= (sensor_csv_line(ss[0]) + sensor_csv_lines(ss.drop_first())) + sensor_csv_line(x));
    }
}


/// Append the first half of a sensor's CSV line.
#[verifier::rlimit(100)]
fn push_sensor_head(out: &mut String, row: &SensorResponse)
    ensures
        final(out)@ == old(out)@ + sensor_csv_head(row@),
{
    let ghost base = old(out)@;
    let ghost f1 = csv_field_text(int_text_of(row@.id));
    let ghost f2 = csv_field_text(row@.name);
    let ghost f3 = csv_field_text(row@.ty);
    let ghost f4 = csv_field_text(opt_text_or_empty(row@.location));
    let ghost f5 = csv_field_text(opt_text_or_empty(row@.unit));
    let ghost c = seq![','];
    let id_text = int_to_text(row.sensor_id);
    push_csv_field(out, id_text.as_str());
    proof {
        assert(out@ == base + f1);
    }
    push_comma(out);
    proof {
        assert(out@ =~= base + (f1 + c));
    }
    push_csv_field(out, row.sensor_name.as_str());
    proof {
        assert(out@ =~= base + (f1 + c + f2));
    }
    push_comma(out);
    proof {
        assert(out@ =~= base + (f1 + c + f2 + c));
    }
    push_csv_field(out, row.sensor_type.as_str());
    proof {
        assert(out@ =~= base + (f1 + c + f2 + c + f3));
    }
    push_comma(out);
    proof {
        assert(out@ =~= base + (f1 + c + f2 + c + f3 + c));
    }
    match &row.location {
        Some(s) => push_csv_field(out, s.as_str()),
        None => {
            proof {
                assert(!needs_quote(Seq::<char>::empty()));
                assert(out@ + csv_field_text(Seq::<char>::empty()) =~= out@);
            }
        },
    }
    proof {
        assert(out@ =~= base + (f1 + c + f2 + c + f3 + c + f4));
    }
    push_comma(out);
    proof {
        assert(out@ =~= base + (f1 + c + f2 + c + f3 + c + f4 + c));
    }
    match &row.unit {
        Some(s) => push_csv_field(out, s.as_str()),
        None => {
            proof {
                assert(!needs_quote(Seq::<char>::empty()));
                assert(out@ + csv_field_text(Seq::<char>::empty()) =~= out@);
            }
        },
    }
    proof {
        assert(out@ =~= base + (f1 + c + f2 + c + f3 + c + f4 + c + f5));
    }
    push_comma(out);
    proof {
        assert(out@ =~= base + (f1 + c + f2 + c + f3 + c + f4 + c + f5 + c));
        assert(sensor_csv_head(row@) == f1 + c + f2 + c + f3 + c + f4 + c + f5 + c);
    }
}

/// Append the CSV line of one sensor record.
#[verifier::rlimit(100)]
fn push_sensor_line(out: &mut String, row: &SensorResponse)
    ensures
        final(out)@ == old(out)@ + sensor_csv_line(row@),
{
    let ghost base = old(out)@;
    let ghost h = sensor_csv_head(row@);
    let ghost f6 = csv_field_text(opt_milli_text(row@.threshold_min));
    let ghost f7 = csv_field_text(opt_milli_text(row@.threshold_max));
    let ghost f8 = csv_field_text(opt_time_text(row@.calibration_date));
    let ghost f9 = csv_field_text(opt_text_or_empty(row@.notes));
    let ghost f10 = csv_field_text(time_text_of(row@.created_at));
    let ghost f11 = csv_field_text(time_text_of(row@.updated_at));
    let ghost c = seq![','];
    push_sensor_head(out, row);
    proof {
        assert(out@ == base + h);
    }
    let tmin_text = match row.threshold_min {
        Some(v) => milli_to_text(v),
        None => String::new(),
    };
    push_csv_field(out, tmin_text.as_str());
    proof {
        assert(tmin_text@ == opt_milli_text(row@.threshold_min));
        assert(out@ =~= base + (h + f6));
    }
    push_comma(out);
    proof {
        assert(out@ =~= base + (h + f6 + c));
    }
    let tmax_text = match row.threshold_max {
        Some(v) => milli_to_text(v),
        None => String::new(),
    };
    push_csv_field(out, tmax_text.as_str());
    proof {
        assert(tmax_text@ == opt_milli_text(row@.threshold_max));
        assert(out@ =~= base + (h + f6 + c + f7));
    }
    push_comma(out);
    proof {
        assert(out@ =~= base + (h + f6 + c + f7 + c));
    }
    let cal_text = match row.calibration_date {
        Some(v) => format_timestamp(v),
        None => String::new(),
    };
    push_csv_field(out, cal_text.as_str());
    proof {
        assert(cal_text@ == opt_time_text(row@.calibration_date));
        assert(out@ =~= base + (h + f6 + c + f7 + c + f8));
    }
    push_comma(out);
    proof {
        assert(out@ =~= base + (h + f6 + c + f7 + c + f8 + c));
    }
    match &row.notes {
        Some(s) => push_csv_field(out, s.as_str()),
        None => {
            proof {
                assert(!needs_quote(Seq::<char>::empty()));
                assert(out@ + csv_field_text(Seq::<char>::empty()) =~= out@);
            }
        },
    }
    proof {
        assert(out@ =~= base + (h + f6 + c + f7 + c + f8 + c + f9));
    }
    push_comma(out);
    proof {
        assert(out@ =~= base + (h + f6 + c + f7 + c + f8 + c + f9 + c));
    }
    let created_text = format_timestamp(row.created_at);
    push_csv_field(out, created_text.as_str());
    proof {
        assert(out@ =~= base + (h + f6 + c + f7 + c + f8 + c + f9 + c + f10));
    }
    push_comma(out);
    proof {
        assert(out@ =~= base + (h + f6 + c + f7 + c + f8 + c + f9 + c + f10 + c));
    }
    let updated_text = format_timestamp(row.updated_at);
    push_csv_field(out, updated_text.as_str());
    proof {
        assert(out@ =~= base + (h + f6 + c + f7 + c + f8 + c + f9 + c + f10 + c + f11));
    }
    push_newline(out);
    proof {
        assert(out@ =~= base + (h + f6 + c + f7 + c + f8 + c + f9 + c + f10 + c + f11
            + seq!['\n']));
        assert(sensor_csv_line(row@) =~= h + f6 + c + f7 + c + f8 + c + f9 + c + f10 + c + f11
            + seq!['\n']);
    }
}

/// Render sensors as CSV: the header line when asked for, then one line
/// per sensor, timestamps in calendar form, in the given order.
#[verifier::rlimit(100)]
pub fn export_sensors_to_csv(sensors: &Vec<SensorResponse>, include_headers: bool) -> (r: String)
    ensures
        r@ == (if include_headers {
            SENSORS_CSV_HEADER@
        } else {
            Seq::<char>::empty()
        }) + sensor_csv_lines(sensors@.map_values(|x: SensorResponse| x@)),
{
    let ghost rows = sensors@.map_values(|x: SensorResponse| x@);
    let mut out = String::new();
    if include_headers {
        out.append(SENSORS_CSV_HEADER);
    }
    let ghost head = out@;
    let n = sensors.len();
    let mut i: usize = 0;
    while i < n
        invariant
            n == sensors@.len(),
            i <= n,
            rows == sensors@.map_values(|x: SensorResponse| x@),
            out@ == head + sensor_csv_lines(rows.take(i as int)),
        decreases n - i,
    {
        push_sensor_line(&mut out, &sensors[i]);
        proof {
            assert(rows.take(i as int + 1) =~= rows.take(i as int).push(rows[i as int]));
            lemma_sensor_lines_push(rows.take(i as int), rows[i as int]);
            assert(out@ =~= head + sensor_csv_lines(rows.take(i as int + 1)));
        }
        i = i + 1;
    }
    proof {
        assert(rows.take(n as int) =~= rows);
    }
    out
}

/// A blank that reading trims from the ends of unquoted fields.
pub open spec fn is_blank_char(c: char) -> bool {
    c == ' ' || c == '\t'
}

/// The field without leading blanks.
pub open spec fn trim_front(f: Seq<char>) -> Seq<char>
    decreases f.len(),
{
    if f.len() > 0 && is_blank_char(f[0]) {
        trim_front(f.drop_first())
    } else {
        f
    }
}

/// The field without trailing blanks.
pub open spec fn trim_back(f: Seq<char>) -> Seq<char>
    decreases f.len(),
{
    if f.len() > 0 && is_blank_char(f.last()) {
        trim_back(f.drop_last())
    } else {
        f
    }
}

/// The field without surrounding blanks.
pub open spec fn trim_text(f: Seq<char>) -> Seq<char> {
    trim_back(trim_front(f))
}

/// `trim_front` drops exactly the leading blanks.
proof fn lemma_trim_front_at(f: Seq<char>, a: int)
    requires
        0 <= a <= f.len(),
        forall|j: int| 0 <= j < a ==> is_blank_char(#[trigger] f[j]),
        a == f.len() || !is_blank_char(f[a]),
    ensures
        trim_front(f) == f.subrange(a, f.len() as int),
    decreases a,
{
    if a == 0 {
        assert(f.subrange(0, f.len() as int) =~= f);
    } else {
        assert(is_blank_char(f[0]));
        lemma_trim_front_at(f.drop_first(), a - 1);
        assert(f.drop_first().subrange(a - 1, f.drop_first().len() as int) =~= f.subrange(
            a,
            f.len() as int,
        ));
    }
}

/// `trim_back` drops exactly the trailing blanks.
proof fn lemma_trim_back_at(f: Seq<char>, b: int)
    requires
        0 <= b <= f.len(),
        forall|j: int| b <= j < f.len() ==> is_blank_char(#[trigger] f[j]),
        b == 0 || !is_blank_char(f[b - 1]),
    ensures
        trim_back(f) == f.subrange(0, b),
    decreases f.len() - b,
{
    if b == f.len() {
        assert(f.subrange(0, b) =~= f);
    } else {
        assert(is_blank_char(f.last()));
        assert(f.drop_last() =~= f.subrange(0, f.len() - 1));
        lemma_trim_back_at(f.drop_last(), b);
        assert(f.drop_last().subrange(0, b) =~= f.subrange(0, b));
    }
}

/// Copy `cs[from..to]` without surrounding blanks.
fn trim_field(cs: &Vec<char>, from: usize, to: usize) -> (r: Vec<char>)
    requires
        from <= to <= cs@.len(),
    ensures
        r@ == trim_text(cs@.subrange(from as int, to as int)),
{
    let ghost f = cs@.subrange(from as int, to as int);
    let mut a = from;
    while a < to && (cs[a] == ' ' || cs[a] == '\t')
        invariant
            from <= a <= to,
            forall|j: int| 0 <= j < a - from ==> is_blank_char(#[trigger] f[j]),
        decreases to - a,
    {
        a = a + 1;
    }
    let mut b = to;
    while b > a && (cs[b - 1] == ' ' || cs[b - 1] == '\t')
        invariant
            a <= b <= to,
            forall|j: int| b - from <= j < f.len() ==> is_blank_char(#[trigger] f[j]),
        decreases b,
    {
        b = b - 1;
    }
    proof {
        lemma_trim_front_at(f, a as int - from as int);
        let g = f.subrange(a as int - from as int, f.len() as int);
        if b == a {
            lemma_trim_back_at(g, 0);
        } else {
            lemma_trim_back_at(g, b as int - a as int);
        }
        assert(trim_text(f) =~= f.subrange(a as int - from as int, b as int - from as int));
        assert(trim_text(f) =~= cs@.subrange(a as int, b as int));
    }
    let mut r: Vec<char> = Vec::new();
    let mut i = a;
    while i < b
        invariant
            a <= i <= b <= cs@.len(),
            r@ == cs@.subrange(a as int, i as int),
        decreases b - i,
    {
        r.push(cs[i]);
        proof {
            assert(r@ =~= cs@.subrange(a as int, i as int + 1));
        }
        i = i + 1;
    }
    proof {
        assert(r@ =~= trim_text(cs@.subrange(from as int, to as int)));
    }
    r
}

/// The end of an unquoted field: the first separator or line break at or
/// after `i`, or the end of the text.
pub open spec fn scan_unquoted(s: Seq<char>, i: int) -> int
    decreases s.len() - i,
{
    if i < 0 || i >= s.len() || s[i] == ',' || s[i] == '\n' || s[i] == '\r' {
        i
    } else {
        scan_unquoted(s, i + 1)
    }
}

/// The unquoted scan stays within the text.
proof fn lemma_scan_unquoted_bounds(s: Seq<char>, i: int)
    requires
        0 <= i <= s.len(),
    ensures
        i <= scan_unquoted(s, i) <= s.len(),
    decreases s.len() - i,
{
    if i < s.len() && s[i] != ',' && s[i] != '\n' && s[i] != '\r' {
        lemma_scan_unquoted_bounds(s, i + 1);
    }
}

/// The content of a quoted field starting at `i` (just after the opening
/// quote), with doubled quotes folded, and the position just after the
/// closing quote. An unterminated field runs to the end of the text.
pub open spec fn scan_quoted(s: Seq<char>, i: int) -> (Seq<char>, int)
    decreases s.len() - i,
{
    if i < 0 || i >= s.len() {
        (Seq::<char>::empty(), if i < 0 {
            0
        } else {
            i
        })
    } else if s[i] == '"' {
        if i + 1 < s.len() && s[i + 1] == '"' {
            let r = scan_quoted(s, i + 2);
            (seq!['"'] + r.0, r.1)
        } else {
            (Seq::<char>::empty(), i + 1)
        }
    } else {
        let r = scan_quoted(s, i + 1);
        (seq![s[i]] + r.0, r.1)
    }
}

/// The quoted scan stays within the text and moves forward.
proof fn lemma_scan_quoted_bounds(s: Seq<char>, i: int)
    requires
        0 <= i <= s.len(),
    ensures
        i <= scan_quoted(s, i).1 <= s.len(),
    decreases s.len() - i,
{
    if i < s.len() {
        if s[i] == '"' {
            if i + 1 < s.len() && s[i + 1] == '"' {
                lemma_scan_quoted_bounds(s, i + 2);
            }
        } else {
            lemma_scan_quoted_bounds(s, i + 1);
        }
    }
}

/// One field starting at `i`: its text and the position of the separator
/// or line break that ends it. A field opening with a quote is read
/// quoted (anything between the closing quote and the next separator is
/// dropped); any other field ends at the next separator or line break
/// and is trimmed of surrounding blanks.
pub open spec fn parse_field(s: Seq<char>, i: int) -> (Seq<char>, int) {
    if 0 <= i < s.len() && s[i] == '"' {
        let r = scan_quoted(s, i + 1);
        (r.0, scan_unquoted(s, r.1))
    } else {
        let e = scan_unquoted(s, i);
        (trim_text(s.subrange(i, e)), e)
    }
}

/// A field never runs past the end of the text.
proof fn lemma_parse_field_bounds(s: Seq<char>, i: int)
    requires
        0 <= i <= s.len(),
    ensures
        i <= parse_field(s, i).1 <= s.len(),
{
    if i < s.len() && s[i] == '"' {
        lemma_scan_quoted_bounds(s, i + 1);
        lemma_scan_unquoted_bounds(s, scan_quoted(s, i + 1).1);
    } else {
        lemma_scan_unquoted_bounds(s, i);
    }
}

/// One record starting at `i`: its fields and the position just after
/// its terminating line break (or the end of the text).
pub open spec fn parse_record(s: Seq<char>, i: int) -> (Seq<Seq<char>>, int)
    decreases s.len() - i,
        when 0 <= i <= s.len()
        via parse_record_dec
{
    let r = parse_field(s, i);
    let j = r.1;
    if j >= s.len() {
        (seq![r.0], s.len() as int)
    } else if s[j] == ',' {
        let rest = parse_record(s, j + 1);
        (seq![r.0] + rest.0, rest.1)
    } else if s[j] == '\r' && j + 1 < s.len() && s[j + 1] == '\n' {
        (seq![r.0], j + 2)
    } else {
        (seq![r.0], j + 1)
    }
}

#[via_fn]
proof fn parse_record_dec(s: Seq<char>, i: int) {
    lemma_parse_field_bounds(s, i);
}

/// A record moves forward and never runs past the end of the text.
proof fn lemma_parse_record_bounds(s: Seq<char>, i: int)
    requires
        0 <= i <= s.len(),
    ensures
        i <= parse_record(s, i).1 <= s.len(),
        i < s.len() ==> i < parse_record(s, i).1,
    decreases s.len() - i,
{
    lemma_parse_field_bounds(s, i);
    let j = parse_field(s, i).1;
    if j < s.len() && s[j] == ',' {
        lemma_parse_record_bounds(s, j + 1);
    }
}

/// All records of the text from `i` on.
pub open spec fn parse_records(s: Seq<char>, i: int) -> Seq<Seq<Seq<char>>>
    decreases s.len() - i,
        when 0 <= i <= s.len()
        via parse_records_dec
{
    if i >= s.len() {
        Seq::<Seq<Seq<char>>>::empty()
    } else {
        let r = parse_record(s, i);
        seq![r.0] + parse_records(s, r.1)
    }
}

#[via_fn]
proof fn parse_records_dec(s: Seq<char>, i: int) {
    if 0 <= i < s.len() {
        lemma_parse_record_bounds(s, i);
    }
}

/// Read one field. Mirrors `parse_field`.
fn parse_field_exec(cs: &Vec<char>, i: usize) -> (r: (Vec<char>, usize))
    requires
        i <= cs@.len(),
    ensures
        r.0@ == parse_field(cs@, i as int).0,
        r.1 as int == parse_field(cs@, i as int).1,
        i <= r.1 <= cs@.len(),
{
    proof {
        lemma_parse_field_bounds(cs@, i as int);
    }
    let n = cs.len();
    if i < n && cs[i] == '"' {
        let (content, j) = scan_quoted_exec(cs, i + 1);
        let e = scan_unquoted_exec(cs, j);
        (content, e)
    } else {
        let e = scan_unquoted_exec(cs, i);
        let field = trim_field(cs, i, e);
        (field, e)
    }
}

/// Fold the body of a quoted field: a doubled quote stands for one
/// quote, a single one closes the field. Mirrors `scan_quoted`.
fn scan_quoted_exec(cs: &Vec<char>, i: usize) -> (r: (Vec<char>, usize))
    requires
        i <= cs@.len(),
    ensures
        r.0@ == scan_quoted(cs@, i as int).0,
        r.1 as int == scan_quoted(cs@, i as int).1,
        i <= r.1 <= cs@.len(),
    decreases cs@.len() - i,
{
    proof {
        lemma_scan_quoted_bounds(cs@, i as int);
    }
    let n = cs.len();
    if i >= n {
        let v: Vec<char> = Vec::new();
        proof {
            assert(v@ =~= scan_quoted(cs@, i as int).0);
        }
        (v, i)
    } else if cs[i] == '"' {
        if i + 1 < n && cs[i + 1] == '"' {
            let (mut rest, e) = scan_quoted_exec(cs, i + 2);
            rest.insert(0, '"');
            proof {
                assert(rest@ =~= scan_quoted(cs@, i as int).0);
            }
            (rest, e)
        } else {
            let v: Vec<char> = Vec::new();
            proof {
                assert(v@ =~= scan_quoted(cs@, i as int).0);
            }
            (v, i + 1)
        }
    } else {
        let c = cs[i];
        let (mut rest, e) = scan_quoted_exec(cs, i + 1);
        rest.insert(0, c);
        proof {
            assert(rest@ =~= scan_quoted(cs@, i as int).0);
        }
        (rest, e)
    }
}

/// Find the end of an unquoted field. Mirrors `scan_unquoted`.
fn scan_unquoted_exec(cs: &Vec<char>, i: usize) -> (e: usize)
    requires
        i <= cs@.len(),
    ensures
        e as int == scan_unquoted(cs@, i as int),
        i <= e <= cs@.len(),
{
    let n = cs.len();
    let mut j = i;
    while j < n && cs[j] != ',' && cs[j] != '\n' && cs[j] != '\r'
        invariant
            i <= j <= n,
            n == cs@.len(),
            scan_unquoted(cs@, i as int) == scan_unquoted(cs@, j as int),
        decreases n - j,
    {
        j = j + 1;
    }
    j
}

/// Read one record. Mirrors `parse_record`.
fn parse_record_exec(cs: &Vec<char>, i: usize) -> (r: (Vec<Vec<char>>, usize))
    requires
        i <= cs@.len(),
    ensures
        r.0@.map_values(|f: Vec<char>| f@) == parse_record(cs@, i as int).0,
        r.1 as int == parse_record(cs@, i as int).1,
        i <= r.1 <= cs@.len(),
        i < cs@.len() ==> i < r.1,
    decreases cs@.len() - i,
{
    proof {
        lemma_parse_record_bounds(cs@, i as int);
    }
    let n = cs.len();
    let (field, j) = parse_field_exec(cs, i);
    if j >= n {
        let mut fields: Vec<Vec<char>> = Vec::new();
        fields.push(field);
        proof {
            assert(fields@.map_values(|f: Vec<char>| f@) =~= parse_record(cs@, i as int).0);
        }
        (fields, n)
    } else if cs[j] == ',' {
        let (mut rest, k) = parse_record_exec(cs, j + 1);
        rest.insert(0, field);
        proof {
            assert(rest@.map_values(|f: Vec<char>| f@) =~= parse_record(cs@, i as int).0);
        }
        (rest, k)
    } else if cs[j] == '\r' && j + 1 < n && cs[j + 1] == '\n' {
        let mut fields: Vec<Vec<char>> = Vec::new();
        fields.push(field);
        proof {
            assert(fields@.map_values(|f: Vec<char>| f@) =~= parse_record(cs@, i as int).0);
        }
        (fields, j + 2)
    } else {
        let mut fields: Vec<Vec<char>> = Vec::new();
        fields.push(field);
        proof {
            assert(fields@.map_values(|f: Vec<char>| f@) =~= parse_record(cs@, i as int).0);
        }
        (fields, j + 1)
    }
}

/// The nested mathematical value of parsed records.
pub open spec fn records_view(v: Seq<Vec<Vec<char>>>) -> Seq<Seq<Seq<char>>> {
    v.map_values(|r: Vec<Vec<char>>| r@.map_values(|f: Vec<char>| f@))
}

/// Read every record of the text. Mirrors `parse_records`.
fn parse_records_exec(cs: &Vec<char>) -> (r: Vec<Vec<Vec<char>>>)
    ensures
        records_view(r@) == parse_records(cs@, 0),
{
    let n = cs.len();
    let mut out: Vec<Vec<Vec<char>>> = Vec::new();
    let mut i: usize = 0;
    while i < n
        invariant
            i <= n,
            n == cs@.len(),
            parse_records(cs@, 0) == records_view(out@) + parse_records(cs@, i as int),
        decreases n - i,
    {
        let (rec, j) = parse_record_exec(cs, i);
        let ghost pre = out@;
        out.push(rec);
        proof {
            assert(records_view(out@) =~= records_view(pre).push(
                rec@.map_values(|f: Vec<char>| f@),
            ));
            assert(records_view(pre) + (seq![rec@.map_values(|f: Vec<char>| f@)]
                + parse_records(cs@, j as int)) =~= records_view(out@) + parse_records(
                cs@,
                j as int,
            ));
        }
        i = j;
    }
    proof {
        assert(parse_records(cs@, n as int) =~= Seq::<Seq<Seq<char>>>::empty());
        assert(records_view(out@) + parse_records(cs@, n as int) =~= records_view(out@));
    }
    out
}

/// The character's code point, upper-case ASCII letters folded to lower
/// case: how header names are compared.
pub open spec fn lower_u(c: char) -> int {
    if 65 <= c as u32 <= 90 {
        c as u32 + 32
    } else {
        c as u32 as int
    }
}

/// Case-insensitive (ASCII) equality of two texts.
pub open spec fn ci_eq(h: Seq<char>, t: Seq<char>) -> bool {
    h.len() == t.len() && forall|i: int| 0 <= i < h.len() ==> lower_u(#[trigger] h[i]) == lower_u(
        t[i],
    )
}

/// Case-insensitive (ASCII) occurrence of `t` in `h` at offset `off`.
pub open spec fn ci_match_at(h: Seq<char>, t: Seq<char>, off: int) -> bool {
    0 <= off && off + t.len() <= h.len() && (forall|i: int|
        0 <= i < t.len() ==> lower_u(#[trigger] h[off + i]) == lower_u(t[i]))
}

/// Case-insensitive (ASCII) containment of `t` in `h`.
pub open spec fn ci_has(h: Seq<char>, t: Seq<char>) -> bool {
    exists|off: int| #[trigger] ci_match_at(h, t, off)
}

/// The first position at or after `k` whose text passes `pred`.
pub open spec fn find_pos(hs: Seq<Seq<char>>, pred: spec_fn(Seq<char>) -> bool, k: int) -> Option<
    int,
>
    decreases hs.len() - k,
{
    if k < 0 || k >= hs.len() {
        None
    } else if pred(hs[k]) {
        Some(k)
    } else {
        find_pos(hs, pred, k + 1)
    }
}

/// When position `i` is the first to pass, `find_pos` names it.
proof fn lemma_find_pos_at(hs: Seq<Seq<char>>, pred: spec_fn(Seq<char>) -> bool, k: int, i: int)
    requires
        0 <= k <= i < hs.len(),
        pred(hs[i]),
        forall|j: int| k <= j < i ==> !pred(#[trigger] hs[j]),
    ensures
        find_pos(hs, pred, k) == Some(i),
    decreases i - k,
{
    if k < i {
        lemma_find_pos_at(hs, pred, k + 1, i);
    }
}

/// When no position passes, `find_pos` finds none.
proof fn lemma_find_pos_none(hs: Seq<Seq<char>>, pred: spec_fn(Seq<char>) -> bool, k: int)
    requires
        0 <= k <= hs.len(),
        forall|j: int| k <= j < hs.len() ==> !pred(#[trigger] hs[j]),
    ensures
        find_pos(hs, pred, k) is None,
    decreases hs.len() - k,
{
    if k < hs.len() {
        lemma_find_pos_none(hs, pred, k + 1);
    }
}

/// The folded code point of a character.
fn lower_char(c: char) -> (r: u32)
    ensures
        r as int == lower_u(c),
{
    let d = c as u32;
    if 65 <= d && d <= 90 {
        d + 32
    } else {
        d
    }
}

/// Case-insensitive equality of two texts.
fn ci_eq_exec(h: &Vec<char>, t: &Vec<char>) -> (b: bool)
    ensures
        b == ci_eq(h@, t@),
{
    let n = h.len();
    if n != t.len() {
        return false;
    }
    let mut i: usize = 0;
    while i < n
        invariant
            i <= n,
            n == h@.len() == t@.len(),
            forall|j: int| 0 <= j < i ==> lower_u(#[trigger] h@[j]) == lower_u(t@[j]),
        decreases n - i,
    {
        if lower_char(h[i]) != lower_char(t[i]) {
            return false;
        }
        i = i + 1;
    }
    true
}

/// Case-insensitive containment of `t` in `h`.
fn ci_has_exec(h: &Vec<char>, t: &Vec<char>) -> (b: bool)
    ensures
        b == ci_has(h@, t@),
{
    let n = h.len();
    let m = t.len();
    if m > n {
        proof {
            assert forall|o: int| !(#[trigger] ci_match_at(h@, t@, o)) by {}
        }
        return false;
    }
    let mut off: usize = 0;
    while off <= n - m
        invariant
            off <= n - m + 1,
            m <= n,
            n == h@.len(),
            m == t@.len(),
            forall|o: int| 0 <= o < off ==> !(#[trigger] ci_match_at(h@, t@, o)),
        decreases n - m + 1 - off,
    {
        let mut i: usize = 0;
        let mut matched = true;
        let mut bad = false;
        while i < m
            invariant
                i <= m,
                m <= n,
                off <= n - m,
                n == h@.len(),
                m == t@.len(),
                !bad ==> matched == (forall|j: int|
                    0 <= j < i ==> lower_u(#[trigger] h@[off + j]) == lower_u(t@[j])),
                bad ==> !matched && !ci_match_at(h@, t@, off as int),
            decreases m - i,
        {
            if lower_char(h[off + i]) != lower_char(t[i]) {
                proof {
                    assert(lower_u(h@[off + i as int]) != lower_u(t@[i as int]));
                    assert(!ci_match_at(h@, t@, off as int));
                }
                matched = false;
                bad = true;
                i = m;
            } else {
                proof {
                    if matched {
                        assert forall|j: int|
                            0 <= j < i + 1 implies lower_u(#[trigger] h@[off + j]) == lower_u(
                            t@[j],
                        ) by {}
                    }
                }
                i = i + 1;
            }
        }
        if matched {
            proof {
                assert(ci_match_at(h@, t@, off as int));
            }
            return true;
        }
        proof {
            assert(!ci_match_at(h@, t@, off as int));
        }
        off = off + 1;
    }
    proof {
        if ci_has(h@, t@) {
            let o = choose|o: int| #[trigger] ci_match_at(h@, t@, o);
            assert(o < off);
            assert(false);
        }
    }
    false
}

/// The header test "named exactly this" (case-insensitively).
pub open spec fn eq_pred(name: Seq<char>) -> spec_fn(Seq<char>) -> bool {
    |h: Seq<char>| ci_eq(h, name)
}

/// The header test "name contains this" (case-insensitively).
pub open spec fn has_pred(name: Seq<char>) -> spec_fn(Seq<char>) -> bool {
    |h: Seq<char>| ci_has(h, name)
}

/// The first header equal (case-insensitively) to the given name.
fn find_header_eq(headers: &Vec<Vec<char>>, name: &Vec<char>) -> (r: Option<usize>)
    ensures
        ({
            let hs = headers@.map_values(|h: Vec<char>| h@);
            match r {
                Some(p) => find_pos(hs, eq_pred(name@), 0) == Some(p as int),
                None => find_pos(hs, eq_pred(name@), 0) is None,
            }
        }),
{
    let ghost hs = headers@.map_values(|h: Vec<char>| h@);
    let ghost pred = eq_pred(name@);
    let n = headers.len();
    let mut i: usize = 0;
    while i < n
        invariant
            i <= n,
            n == headers@.len(),
            hs == headers@.map_values(|h: Vec<char>| h@),
            forall|j: int| 0 <= j < i ==> !pred(#[trigger] hs[j]),
        decreases n - i,
    {
        if ci_eq_exec(&headers[i], name) {
            proof {
                lemma_find_pos_at(hs, pred, 0, i as int);
            }
            return Some(i);
        }
        i = i + 1;
    }
    proof {
        lemma_find_pos_none(hs, pred, 0);
    }
    None
}

/// The first header containing (case-insensitively) the given name.
fn find_header_has(headers: &Vec<Vec<char>>, name: &Vec<char>) -> (r: Option<usize>)
    ensures
        ({
            let hs = headers@.map_values(|h: Vec<char>| h@);
            match r {
                Some(p) => find_pos(hs, has_pred(name@), 0) == Some(p as int),
                None => find_pos(hs, has_pred(name@), 0) is None,
            }
        }),
{
    let ghost hs = headers@.map_values(|h: Vec<char>| h@);
    let ghost pred = has_pred(name@);
    let n = headers.len();
    let mut i: usize = 0;
    while i < n
        invariant
            i <= n,
            n == headers@.len(),
            hs == headers@.map_values(|h: Vec<char>| h@),
            forall|j: int| 0 <= j < i ==> !pred(#[trigger] hs[j]),
        decreases n - i,
    {
        if ci_has_exec(&headers[i], name) {
            proof {
                lemma_find_pos_at(hs, pred, 0, i as int);
            }
            return Some(i);
        }
        i = i + 1;
    }
    proof {
        lemma_find_pos_none(hs, pred, 0);
    }
    None
}

/// The parsed value of an optional integer column of a data record.
pub open spec fn opt_i64_field(
    hs: Seq<Seq<char>>,
    rec: Seq<Seq<char>>,
    pred: spec_fn(Seq<char>) -> bool,
) -> Option<int> {
    match find_pos(hs, pred, 0) {
        Some(q) => if q < rec.len() {
            i64_text_val(rec[q])
        } else {
            None
        },
        None => None,
    }
}

/// The parsed value of an optional fixed-point column of a data record.
pub open spec fn opt_milli_field(
    hs: Seq<Seq<char>>,
    rec: Seq<Seq<char>>,
    pred: spec_fn(Seq<char>) -> bool,
) -> Option<int> {
    match find_pos(hs, pred, 0) {
        Some(q) => if q < rec.len() {
            milli_text_val(rec[q])
        } else {
            None
        },
        None => None,
    }
}

/// The text of an optional column of a data record; empty counts as
/// absent.
pub open spec fn opt_text_field(
    hs: Seq<Seq<char>>,
    rec: Seq<Seq<char>>,
    pred: spec_fn(Seq<char>) -> bool,
) -> Option<Seq<char>> {
    match find_pos(hs, pred, 0) {
        Some(q) => if q < rec.len() && rec[q].len() > 0 {
            Some(rec[q])
        } else {
            None
        },
        None => None,
    }
}

/// The reading one data record denotes, or nothing when the record must
/// abort the import: no sensor-id column, an unreadable sensor id, or
/// neither value nor state. Unreadable optional columns merely stay
/// absent.
pub open spec fn reading_of_record(hs: Seq<Seq<char>>, rec: Seq<Seq<char>>) -> Option<
    crate::reading::ReadingInV,
> {
    match find_pos(hs, eq_pred("sensor_id"@), 0) {
        None => None,
        Some(p) => if p < rec.len() {
            match i64_text_val(rec[p]) {
                None => None,
                Some(sid) => {
                    let value = opt_milli_field(hs, rec, eq_pred("value"@));
                    let state = opt_i64_field(hs, rec, eq_pred("state"@));
                    if value is None && state is None {
                        None
                    } else {
                        Some(
                            crate::reading::ReadingInV {
                                reading_id: None,
                                timestamp: opt_i64_field(hs, rec, eq_pred("timestamp"@)),
                                sensor_id: sid,
                                value,
                                state,
                                change_type: opt_text_field(hs, rec, eq_pred("change_type"@)),
                            },
                        )
                    }
                },
            }
        } else {
            None
        },
    }
}

/// The sensor one data record denotes, or nothing when the record must
/// abort the import: no name or type column, or an empty name or type.
pub open spec fn sensor_of_record(hs: Seq<Seq<char>>, rec: Seq<Seq<char>>) -> Option<
    crate::sensor::SensorInV,
> {
    match find_pos(hs, has_pred("name"@), 0) {
        None => None,
        Some(np) => if np < rec.len() && rec[np].len() > 0 {
            match find_pos(hs, has_pred("type"@), 0) {
                None => None,
                Some(tp) => if tp < rec.len() && rec[tp].len() > 0 {
                    Some(
                        crate::sensor::SensorInV {
                            sensor_id: None,
                            name: rec[np],
                            ty: rec[tp],
                            location: opt_text_field(hs, rec, eq_pred("location"@)),
                            unit: opt_text_field(hs, rec, eq_pred("unit"@)),
                            threshold_min: opt_milli_field(hs, rec, has_pred("min"@)),
                            threshold_max: opt_milli_field(hs, rec, has_pred("max"@)),
                            calibration_date: None,
                            notes: opt_text_field(hs, rec, eq_pred("notes"@)),
                            created_at: None,
                            updated_at: None,
                        },
                    )
                } else {
                    None
                },
            }
        } else {
            None
        },
    }
}

/// A record that stands for a skipped empty line: one empty field.
pub open spec fn is_blank_record(r: Seq<Seq<char>>) -> bool {
    r.len() == 1 && r[0].len() == 0
}

/// The readings denoted by the data records from `i` on, or an error as
/// soon as one record cannot be imported.
pub open spec fn import_readings_rows(
    hs: Seq<Seq<char>>,
    recs: Seq<Seq<Seq<char>>>,
    i: int,
) -> Result<Seq<crate::reading::ReadingInV>, ()>
    decreases recs.len() - i,
{
    if i < 0 || i >= recs.len() {
        Ok(Seq::<crate::reading::ReadingInV>::empty())
    } else if is_blank_record(recs[i]) {
        import_readings_rows(hs, recs, i + 1)
    } else {
        match reading_of_record(hs, recs[i]) {
            None => Err(()),
            Some(v) => match import_readings_rows(hs, recs, i + 1) {
                Err(e) => Err(e),
                Ok(rest) => Ok(seq![v] + rest),
            },
        }
    }
}

/// What a readings CSV denotes: nothing for an empty text, otherwise the
/// readings of the data records under the header record, or an error.
pub open spec fn import_readings_val(s: Seq<char>) -> Result<
    Seq<crate::reading::ReadingInV>,
    (),
> {
    let recs = parse_records(s, 0);
    if recs.len() == 0 {
        Ok(Seq::<crate::reading::ReadingInV>::empty())
    } else {
        import_readings_rows(recs[0], recs, 1)
    }
}

/// The sensors denoted by the data records from `i` on, or an error as
/// soon as one record cannot be imported.
pub open spec fn import_sensors_rows(
    hs: Seq<Seq<char>>,
    recs: Seq<Seq<Seq<char>>>,
    i: int,
) -> Result<Seq<crate::sensor::SensorInV>, ()>
    decreases recs.len() - i,
{
    if i < 0 || i >= recs.len() {
        Ok(Seq::<crate::sensor::SensorInV>::empty())
    } else if is_blank_record(recs[i]) {
        import_sensors_rows(hs, recs, i + 1)
    } else {
        match sensor_of_record(hs, recs[i]) {
            None => Err(()),
            Some(v) => match import_sensors_rows(hs, recs, i + 1) {
                Err(e) => Err(e),
                Ok(rest) => Ok(seq![v] + rest),
            },
        }
    }
}

/// What a sensors CSV denotes.
pub open spec fn import_sensors_val(s: Seq<char>) -> Result<Seq<crate::sensor::SensorInV>, ()> {
    let recs = parse_records(s, 0);
    if recs.len() == 0 {
        Ok(Seq::<crate::sensor::SensorInV>::empty())
    } else {
        import_sensors_rows(recs[0], recs, 1)
    }
}

/// Read an optional integer column. Mirrors `opt_i64_field`.
fn opt_i64_field_exec(headers: &Vec<Vec<char>>, rec: &Vec<Vec<char>>, name: &str) -> (r: Option<
    i64,
>)
    ensures
        ({
            let spec_r = opt_i64_field(
                headers@.map_values(|h: Vec<char>| h@),
                rec@.map_values(|f: Vec<char>| f@),
                eq_pred(name@),
            );
            &&& (r is Some) <==> (spec_r is Some)
            &&& r is Some ==> r->0 as int == spec_r->0
        }),
{
    let nm = chars_of(name);
    match find_header_eq(headers, &nm) {
        Some(q) => {
            if q < rec.len() {
                parse_i64_text(&rec[q])
            } else {
                None
            }
        },
        None => None,
    }
}

/// Read an optional fixed-point column. Mirrors `opt_milli_field`.
fn opt_milli_field_exec(
    headers: &Vec<Vec<char>>,
    rec: &Vec<Vec<char>>,
    name: &str,
    contains: bool,
) -> (r: Option<i64>)
    ensures
        ({
            let spec_r = opt_milli_field(
                headers@.map_values(|h: Vec<char>| h@),
                rec@.map_values(|f: Vec<char>| f@),
                if contains {
                    has_pred(name@)
                } else {
                    eq_pred(name@)
                },
            );
            &&& (r is Some) <==> (spec_r is Some)
            &&& r is Some ==> r->0 as int == spec_r->0
        }),
{
    let nm = chars_of(name);
    let pos = if contains {
        find_header_has(headers, &nm)
    } else {
        find_header_eq(headers, &nm)
    };
    match pos {
        Some(q) => {
            if q < rec.len() {
                parse_milli_text(&rec[q])
            } else {
                None
            }
        },
        None => None,
    }
}

/// Read an optional text column; empty counts as absent. Mirrors
/// `opt_text_field`.
fn opt_text_field_exec(headers: &Vec<Vec<char>>, rec: &Vec<Vec<char>>, name: &str) -> (r: Option<
    String,
>)
    ensures
        ({
            let spec_r = opt_text_field(
                headers@.map_values(|h: Vec<char>| h@),
                rec@.map_values(|f: Vec<char>| f@),
                eq_pred(name@),
            );
            &&& (r is Some) <==> (spec_r is Some)
            &&& r is Some ==> Some(r->0@) == spec_r
        }),
{
    let nm = chars_of(name);
    match find_header_eq(headers, &nm) {
        Some(q) => {
            if q < rec.len() && rec[q].len() > 0 {
                Some(string_from_chars(&rec[q]))
            } else {
                None
            }
        },
        None => None,
    }
}

/// Build the reading a data record denotes. Mirrors `reading_of_record`.
fn reading_from_record(headers: &Vec<Vec<char>>, rec: &Vec<Vec<char>>) -> (r: Option<Reading>)
    ensures
        ({
            let spec_r = reading_of_record(
                headers@.map_values(|h: Vec<char>| h@),
                rec@.map_values(|f: Vec<char>| f@),
            );
            &&& (r is Some) <==> (spec_r is Some)
            &&& r is Some ==> Some(r->0@) == spec_r
        }),
{
    let sid_name = chars_of("sensor_id");
    let sp = match find_header_eq(headers, &sid_name) {
        Some(p) => p,
        None => {
            return None;
        },
    };
    if sp >= rec.len() {
        return None;
    }
    let sid = match parse_i64_text(&rec[sp]) {
        Some(v) => v,
        None => {
            return None;
        },
    };
    let value = opt_milli_field_exec(headers, rec, "value", false);
    let state = opt_i64_field_exec(headers, rec, "state");
    if value.is_none() && state.is_none() {
        return None;
    }
    let timestamp = opt_i64_field_exec(headers, rec, "timestamp");
    let change_type = opt_text_field_exec(headers, rec, "change_type");
    Some(Reading { reading_id: None, timestamp, sensor_id: sid, value, state, change_type })
}

/// Build the sensor a data record denotes. Mirrors `sensor_of_record`.
fn sensor_from_record(headers: &Vec<Vec<char>>, rec: &Vec<Vec<char>>) -> (r: Option<Sensor>)
    ensures
        ({
            let spec_r = sensor_of_record(
                headers@.map_values(|h: Vec<char>| h@),
                rec@.map_values(|f: Vec<char>| f@),
            );
            &&& (r is Some) <==> (spec_r is Some)
            &&& r is Some ==> Some(r->0@) == spec_r
        }),
{
    let name_col = chars_of("name");
    let np = match find_header_has(headers, &name_col) {
        Some(p) => p,
        None => {
            return None;
        },
    };
    if np >= rec.len() {
        return None;
    }
    if rec[np].len() == 0 {
        return None;
    }
    let type_col = chars_of("type");
    let tp = match find_header_has(headers, &type_col) {
        Some(p) => p,
        None => {
            return None;
        },
    };
    if tp >= rec.len() {
        return None;
    }
    if rec[tp].len() == 0 {
        return None;
    }
    let sensor_name = string_from_chars(&rec[np]);
    let sensor_type = string_from_chars(&rec[tp]);
    let location = opt_text_field_exec(headers, rec, "location");
    let unit = opt_text_field_exec(headers, rec, "unit");
    let threshold_min = opt_milli_field_exec(headers, rec, "min", true);
    let threshold_max = opt_milli_field_exec(headers, rec, "max", true);
    let notes = opt_text_field_exec(headers, rec, "notes");
    Some(
        Sensor {
            sensor_id: None,
            sensor_name,
            sensor_type,
            location,
            unit,
            threshold_min,
            threshold_max,
            calibration_date: None,
            notes,
            created_at: None,
            updated_at: None,
        },
    )
}

/// Import the data records from `i` on. Mirrors `import_readings_rows`.
fn import_reading_rows_exec(
    headers: &Vec<Vec<char>>,
    recs: &Vec<Vec<Vec<char>>>,
    i: usize,
) -> (r: Result<Vec<Reading>, AppError>)
    ensures
        ({
            let spec_r = import_readings_rows(
                headers@.map_values(|h: Vec<char>| h@),
                records_view(recs@),
                i as int,
            );
            &&& (r is Ok) <==> (spec_r is Ok)
            &&& r is Ok ==> r->Ok_0@.map_values(|x: Reading| x@) == spec_r->Ok_0
            &&& r is Err ==> r->Err_0 is BadRequest
        }),
    decreases recs@.len() - i,
{
    let ghost hv = headers@.map_values(|h: Vec<char>| h@);
    let ghost rv = records_view(recs@);
    if i >= recs.len() {
        let out: Vec<Reading> = Vec::new();
        proof {
            assert(out@.map_values(|x: Reading| x@) =~= Seq::<crate::reading::ReadingInV>::empty());
        }
        return Ok(out);
    }
    let rec = &recs[i];
    if rec.len() == 1 && rec[0].len() == 0 {
        proof {
            assert(is_blank_record(rv[i as int]));
        }
        return import_reading_rows_exec(headers, recs, i + 1);
    }
    proof {
        assert(!is_blank_record(rv[i as int]));
    }
    match reading_from_record(headers, rec) {
        None => Err(
            AppError::BadRequest(String::from_str("CSV record cannot be imported as a reading")),
        ),
        Some(v) => {
            match import_reading_rows_exec(headers, recs, i + 1) {
                Err(e) => Err(e),
                Ok(mut rest) => {
                    rest.insert(0, v);
                    proof {
                        assert(rest@.map_values(|x: Reading| x@) =~= seq![v@] + rest@.map_values(
                            |x: Reading| x@,
                        ).drop_first());
                    }
                    Ok(rest)
                },
            }
        },
    }
}

/// Import the data records from `i` on. Mirrors `import_sensors_rows`.
fn import_sensor_rows_exec(headers: &Vec<Vec<char>>, recs: &Vec<Vec<Vec<char>>>, i: usize) -> (r:
    Result<Vec<Sensor>, AppError>)
    ensures
        ({
            let spec_r = import_sensors_rows(
                headers@.map_values(|h: Vec<char>| h@),
                records_view(recs@),
                i as int,
            );
            &&& (r is Ok) <==> (spec_r is Ok)
            &&& r is Ok ==> r->Ok_0@.map_values(|x: Sensor| x@) == spec_r->Ok_0
            &&& r is Err ==> r->Err_0 is BadRequest
        }),
    decreases recs@.len() - i,
{
    let ghost hv = headers@.map_values(|h: Vec<char>| h@);
    let ghost rv = records_view(recs@);
    if i >= recs.len() {
        let out: Vec<Sensor> = Vec::new();
        proof {
            assert(out@.map_values(|x: Sensor| x@) =~= Seq::<crate::sensor::SensorInV>::empty());
        }
        return Ok(out);
    }
    let rec = &recs[i];
    if rec.len() == 1 && rec[0].len() == 0 {
        proof {
            assert(is_blank_record(rv[i as int]));
        }
        return import_sensor_rows_exec(headers, recs, i + 1);
    }
    proof {
        assert(!is_blank_record(rv[i as int]));
    }
    match sensor_from_record(headers, rec) {
        None => Err(
            AppError::BadRequest(String::from_str("CSV record cannot be imported as a sensor")),
        ),
        Some(v) => {
            match import_sensor_rows_exec(headers, recs, i + 1) {
                Err(e) => Err(e),
                Ok(mut rest) => {
                    rest.insert(0, v);
                    proof {
                        assert(rest@.map_values(|x: Sensor| x@) =~= seq![v@] + rest@.map_values(
                            |x: Sensor| x@,
                        ).drop_first());
                    }
                    Ok(rest)
                },
            }
        },
    }
}

/// Read readings from CSV text: the first record names the columns, each
/// further record one reading. `BadRequest` as soon as one record cannot
/// be imported; empty lines are skipped.
pub fn import_readings_from_csv(data: &str) -> (r: Result<Vec<Reading>, AppError>)
    ensures
        (r is Ok) <==> (import_readings_val(data@) is Ok),
        r is Ok ==> r->Ok_0@.map_values(|x: Reading| x@) == import_readings_val(data@)->Ok_0,
        r is Err ==> r->Err_0 is BadRequest,
{
    let cs = chars_of(data);
    let recs = parse_records_exec(&cs);
    if recs.len() == 0 {
        let out: Vec<Reading> = Vec::new();
        proof {
            assert(out@.map_values(|x: Reading| x@) =~= Seq::<crate::reading::ReadingInV>::empty());
        }
        return Ok(out);
    }
    let headers = recs[0].clone();
    proof {
        assert(headers@.map_values(|h: Vec<char>| h@) == records_view(recs@)[0]);
    }
    import_reading_rows_exec(&headers, &recs, 1)
}

/// Read sensors from CSV text: the first record names the columns, each
/// further record one sensor. `BadRequest` as soon as one record cannot
/// be imported; empty lines are skipped.
pub fn import_sensors_from_csv(data: &str) -> (r: Result<Vec<Sensor>, AppError>)
    ensures
        (r is Ok) <==> (import_sensors_val(data@) is Ok),
        r is Ok ==> r->Ok_0@.map_values(|x: Sensor| x@) == import_sensors_val(data@)->Ok_0,
        r is Err ==> r->Err_0 is BadRequest,
{
    let cs = chars_of(data);
    let recs = parse_records_exec(&cs);
    if recs.len() == 0 {
        let out: Vec<Sensor> = Vec::new();
        proof {
            assert(out@.map_values(|x: Sensor| x@) =~= Seq::<crate::sensor::SensorInV>::empty());
        }
        return Ok(out);
    }
    let headers = recs[0].clone();
    proof {
        assert(headers@.map_values(|h: Vec<char>| h@) == records_view(recs@)[0]);
    }
    import_sensor_rows_exec(&headers, &recs, 1)
}

} // verus!
