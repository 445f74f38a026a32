//! The structured-text backend: reads the comma-delimited, header-led text
//! encoding of measurement records, skipping malformed rows.

use vstd::prelude::*;
use vstd::string::StringSliceAdditionalSpecFns;

use crate::reader::{
    latest_entry, latest_selection, render_spec, DataReader, DataReturn, MeasurementEntry,
};
use crate::text::{
    bytes_eq, decimal, digits_value, is_digit, is_uint_text, lemma_concat_no_byte,
    lemma_decimal_value, lemma_digits_no_byte, lemma_split_on_absent, lemma_split_on_concat,
    parse_u128, parse_u32, split_bytes, split_on, strip_cr, views_of, CARRIAGE_RETURN, COMMA,
    LINE_FEED,
};

verus! {

/// The mandatory first line of the format, naming the five fields in order.
pub open spec fn header_bytes() -> Seq<u8> {
    "timestamp,light_intensity,acidity,temperature,electrical_conductivity".spec_bytes()
}

/// Whether a line, already freed of a trailing carriage return, is a
/// well-formed row: five comma-separated fields, each the text of an unsigned
/// decimal number, the timestamp within `u128` and each measurement within
/// `u32`.
pub open spec fn wellformed_row(line: Seq<u8>) -> bool {
    let f = split_on(line, COMMA);
    &&& f.len() == 5
    &&& forall|i: int| 0 <= i < 5 ==> is_uint_text(#[trigger] f[i])
    &&& digits_value(f[0]) <= u128::MAX
    &&& forall|i: int| 1 <= i < 5 ==> digits_value(#[trigger] f[i]) <= u32::MAX
}

/// The record a well-formed row denotes.
pub open spec fn row_entry(line: Seq<u8>) -> MeasurementEntry
    recommends
        wellformed_row(line),
{
    let f = split_on(line, COMMA);
    MeasurementEntry {
        timestamp: digits_value(f[0]) as u128,
        light_intensity: digits_value(f[1]) as u32,
        acidity: digits_value(f[2]) as u32,
        temperature: digits_value(f[3]) as u32,
        electrical_conductivity: digits_value(f[4]) as u32,
    }
}

/// What one line yields: its record where, freed of one trailing carriage
/// return, it is a well-formed row, and nothing otherwise.
pub open spec fn line_entry(line: Seq<u8>) -> Option<MeasurementEntry> {
    if wellformed_row(strip_cr(line)) {
        Some(row_entry(strip_cr(line)))
    } else {
        None
    }
}

/// `line_entry` as a function value, shared by every spec that filters lines
/// through it.
pub open spec fn line_entry_fn() -> spec_fn(Seq<u8>) -> Option<MeasurementEntry> {
    |l: Seq<u8>| line_entry(l)
}

/// Every record a source yields: where the first line is the mandatory
/// header, the lines after it, each well-formed one read as its record in
/// file order and each malformed one skipped; where the first line is
/// anything else, no row names the five fields, so nothing is read.
pub open spec fn parse_spec(data: Seq<u8>) -> Seq<MeasurementEntry> {
    let lines = split_on(data, LINE_FEED);
    if strip_cr(lines[0]) == header_bytes() {
        lines.drop_first().filter_map(line_entry_fn())
    } else {
        Seq::<MeasurementEntry>::empty()
    }
}

/// Parses one line into a record, exactly when the line, freed of one
/// trailing carriage return, is a well-formed row.
pub fn parse_row(line: &[u8]) -> (r: Option<MeasurementEntry>)
    ensures
        r == line_entry(line@),
{
    let n: usize = if line.len() > 0 && line[line.len() - 1] == CARRIAGE_RETURN {
        line.len() - 1
    } else {
        line.len()
    };
    let body = vstd::slice::slice_subrange(line, 0, n);
    proof {
        assert(body@ =~= strip_cr(line@));
    }
    let fields = split_bytes(body, COMMA);
    proof {
        assert(views_of(fields@).len() == fields@.len());
    }
    if fields.len() != 5 {
        return None;
    }
    let ghost f = split_on(body@, COMMA);
    proof {
        assert(f[0] == fields@[0]@ && f[1] == fields@[1]@ && f[2] == fields@[2]@ && f[3]
            == fields@[3]@ && f[4] == fields@[4]@);
    }
    let timestamp = match parse_u128(fields[0].as_slice()) {
        Some(v) => v,
        None => {
            return None;
        },
    };
    let light_intensity = match parse_u32(fields[1].as_slice()) {
        Some(v) => v,
        None => {
            return None;
        },
    };
    let acidity = match parse_u32(fields[2].as_slice()) {
        Some(v) => v,
        None => {
            return None;
        },
    };
    let temperature = match parse_u32(fields[3].as_slice()) {
        Some(v) => v,
        None => {
            return None;
        },
    };
    let electrical_conductivity = match parse_u32(fields[4].as_slice()) {
        Some(v) => v,
        None => {
            return None;
        },
    };
    proof {
        assert forall|i: int| 0 <= i < 5 implies is_uint_text(#[trigger] f[i]) by {
            if i == 0 {
            } else if i == 1 {
            } else if i == 2 {
            } else if i == 3 {
            }
        }
        assert forall|i: int| 1 <= i < 5 implies digits_value(#[trigger] f[i]) <= u32::MAX by {
            if i == 1 {
            } else if i == 2 {
            } else if i == 3 {
            }
        }
        assert(wellformed_row(strip_cr(line@)));
    }
    Some(
        MeasurementEntry {
            timestamp,
            light_intensity,
            acidity,
            temperature,
            electrical_conductivity,
        },
    )
}

/// Whether a line, freed of one trailing carriage return, is exactly the
/// mandatory header.
fn is_header_line(line: &[u8]) -> (r: bool)
    ensures
        r == (strip_cr(line@) == header_bytes()),
{
    let n: usize = if line.len() > 0 && line[line.len() - 1] == CARRIAGE_RETURN {
        line.len() - 1
    } else {
        line.len()
    };
    let body = vstd::slice::slice_subrange(line, 0, n);
    proof {
        assert(body@ =~= strip_cr(line@));
    }
    let header: &str = "timestamp,light_intensity,acidity,temperature,electrical_conductivity";
    bytes_eq(body, header.as_bytes())
}

/// Reads every record `data` holds, in file order: the first line must be the
/// mandatory header, each later well-formed row becomes one record, and each
/// malformed row is skipped.
pub fn parse_all_measurements(data: &[u8]) -> (r: Vec<MeasurementEntry>)
    ensures
        r@ == parse_spec(data@),
{
    let lines = split_bytes(data, LINE_FEED);
    proof {
        assert(views_of(lines@)[0] == lines@[0]@);
    }
    if !is_header_line(lines[0].as_slice()) {
        let out: Vec<MeasurementEntry> = Vec::new();
        proof {
            assert(out@ =~= parse_spec(data@));
        }
        return out;
    }
    let ghost rows = views_of(lines@).drop_first();
    let mut out: Vec<MeasurementEntry> = Vec::new();
    let mut i: usize = 1;
    proof {
        assert(rows.take(0) =~= Seq::<Seq<u8>>::empty());
        assert(out@ =~= rows.take(0).filter_map(line_entry_fn()));
    }
    while i < lines.len()
        invariant
            1 <= i <= lines@.len(),
            views_of(lines@) == split_on(data@, LINE_FEED),
            rows == views_of(lines@).drop_first(),
            strip_cr(views_of(lines@)[0]) == header_bytes(),
            out@ == rows.take(i - 1).filter_map(line_entry_fn()),
        decreases lines@.len() - i,
    {
        proof {
            assert(rows[i - 1] == lines@[i as int]@);
            rows.lemma_filter_map_take_succ(line_entry_fn(), i - 1);
        }
        match parse_row(lines[i].as_slice()) {
            Some(e) => out.push(e),
            None => (),
        }
        i = i + 1;
    }
    proof {
        assert(rows.take(i - 1) =~= rows);
        assert(out@ == parse_spec(data@));
    }
    out
}

/// Picks what a read of only the most recent measurement returns: nothing
/// from no records, otherwise exactly the record with the greatest timestamp,
/// the earliest such record on a tie.
pub fn select_latest(entries: &Vec<MeasurementEntry>) -> (r: Vec<MeasurementEntry>)
    ensures
        r@ == latest_selection(entries@),
{
    let mut out: Vec<MeasurementEntry> = Vec::new();
    if entries.len() == 0 {
        proof {
            assert(out@ =~= latest_selection(entries@));
        }
        return out;
    }
    let mut best: MeasurementEntry = entries[0];
    let mut i: usize = 1;
    proof {
        assert(best == latest_entry(entries@.take(1)));
    }
    while i < entries.len()
        invariant
            1 <= i <= entries@.len(),
            best == latest_entry(entries@.take(i as int)),
        decreases entries@.len() - i,
    {
        proof {
            assert(entries@.take(i + 1).drop_last() =~= entries@.take(i as int));
            assert(entries@.take(i + 1).last() == entries@[i as int]);
        }
        if entries[i].timestamp > best.timestamp {
            best = entries[i];
        }
        i = i + 1;
    }
    proof {
        assert(entries@.take(i as int) =~= entries@);
    }
    out.push(best);
    proof {
        assert(out@ =~= latest_selection(entries@));
    }
    out
}

/// A structured-text backend over an in-memory byte buffer holding the whole
/// text, header line first.
pub struct TextReader {
    /// The raw bytes of the backing text.
    pub data: Vec<u8>,
}

impl TextReader {
    /// Binds a reader to the given text. Nothing is parsed yet: the header is
    /// looked at on the first read.
    pub fn from_bytes(data: Vec<u8>) -> (r: TextReader)
        ensures
            r.data == data,
    {
        TextReader { data }
    }
}

impl DataReader for TextReader {
    fn read_all_measurements(&mut self) -> (r: DataReturn)
        ensures
            *final(self) == *old(self),
            r matches Ok(v) && v@ == parse_spec(final(self).data@),
    {
        Ok(parse_all_measurements(self.data.as_slice()))
    }

    fn read_latest(&mut self) -> (r: DataReturn)
        ensures
            *final(self) == *old(self),
            r matches Ok(v) && v@ == latest_selection(parse_spec(final(self).data@)),
    {
        let entries = match self.read_all_measurements() {
            Ok(v) => v,
            Err(e) => {
                return Err(e);
            },
        };
        Ok(select_latest(&entries))
    }
}

/// The facts about the header line that the round trip rests on: it is not
/// empty, holds no line feed, and does not end in a carriage return.
proof fn lemma_header_facts()
    ensures
        header_bytes().len() > 0,
        !header_bytes().contains(LINE_FEED),
        header_bytes().last() != CARRIAGE_RETURN,
{
    let s = "timestamp,light_intensity,acidity,temperature,electrical_conductivity";
    reveal_strlit("timestamp,light_intensity,acidity,temperature,electrical_conductivity");
    assert(s@.len() == 69);
    assert(vstd::string::is_ascii(s));
    vstd::string::is_ascii_spec_bytes(s);
    let bytes = header_bytes();
    assert(bytes =~= Seq::new(s@.len(), |i: int| s@.index(i) as u8));
    assert forall|i: int| 0 <= i < bytes.len() implies bytes[i] != LINE_FEED by {
        assert(s@[i] != '\n');
    }
    if bytes.contains(LINE_FEED) {
        let i = choose|i: int| 0 <= i < bytes.len() && bytes[i] == LINE_FEED;
        assert(bytes[i] != LINE_FEED);
    }
    assert(s@[68] == 'y');
    assert(bytes.last() == 'y' as u8);
}

/// The canonical line of any record is a well-formed row that reads back as
/// that record, fits on one line, and ends in no carriage return.
pub proof fn lemma_render_wellformed(e: MeasurementEntry)
    ensures
        wellformed_row(render_spec(e)),
        row_entry(render_spec(e)) == e,
        !render_spec(e).contains(LINE_FEED),
        strip_cr(render_spec(e)) == render_spec(e),
{
    let d0 = decimal(e.timestamp as nat);
    let d1 = decimal(e.light_intensity as nat);
    let d2 = decimal(e.acidity as nat);
    let d3 = decimal(e.temperature as nat);
    let d4 = decimal(e.electrical_conductivity as nat);
    lemma_decimal_value(e.timestamp as nat);
    lemma_decimal_value(e.light_intensity as nat);
    lemma_decimal_value(e.acidity as nat);
    lemma_decimal_value(e.temperature as nat);
    lemma_decimal_value(e.electrical_conductivity as nat);
    lemma_digits_no_byte(d0, COMMA);
    lemma_digits_no_byte(d1, COMMA);
    lemma_digits_no_byte(d2, COMMA);
    lemma_digits_no_byte(d3, COMMA);
    let r4 = d4;
    let r3 = d3 + seq![COMMA] + r4;
    let r2 = d2 + seq![COMMA] + r3;
    let r1 = d1 + seq![COMMA] + r2;
    let r0 = d0 + seq![COMMA] + r1;
    assert(render_spec(e) == r0);
    lemma_split_on_absent(r4, COMMA);
    lemma_split_on_concat(d3, r4, COMMA);
    lemma_split_on_concat(d2, r3, COMMA);
    lemma_split_on_concat(d1, r2, COMMA);
    lemma_split_on_concat(d0, r1, COMMA);
    let f = split_on(r0, COMMA);
    assert(f =~~= seq![d0, d1, d2, d3, d4]);
    assert forall|i: int| 0 <= i < 5 implies is_uint_text(#[trigger] f[i]) by {
        if i == 0 {
        } else if i == 1 {
        } else if i == 2 {
        } else if i == 3 {
        }
    }
    assert forall|i: int| 1 <= i < 5 implies digits_value(#[trigger] f[i]) <= u32::MAX by {
        if i == 1 {
        } else if i == 2 {
        } else if i == 3 {
        }
    }
    assert(wellformed_row(r0));
    assert(row_entry(r0) == e);
    lemma_digits_no_byte(d0, LINE_FEED);
    lemma_digits_no_byte(d1, LINE_FEED);
    lemma_digits_no_byte(d2, LINE_FEED);
    lemma_digits_no_byte(d3, LINE_FEED);
    lemma_digits_no_byte(d4, LINE_FEED);
    assert(!seq![COMMA].contains(LINE_FEED)) by {
        if seq![COMMA].contains(LINE_FEED) {
            let i = choose|i: int| 0 <= i < 1 && seq![COMMA][i] == LINE_FEED;
            assert(seq![COMMA][i] == COMMA);
        }
    }
    lemma_concat_no_byte(d3 + seq![COMMA], r4, LINE_FEED);
    lemma_concat_no_byte(d3, seq![COMMA], LINE_FEED);
    lemma_concat_no_byte(d2, seq![COMMA], LINE_FEED);
    lemma_concat_no_byte(d2 + seq![COMMA], r3, LINE_FEED);
    lemma_concat_no_byte(d1, seq![COMMA], LINE_FEED);
    lemma_concat_no_byte(d1 + seq![COMMA], r2, LINE_FEED);
    lemma_concat_no_byte(d0, seq![COMMA], LINE_FEED);
    lemma_concat_no_byte(d0 + seq![COMMA], r1, LINE_FEED);
    assert(r0.last() == d4.last());
    assert(is_digit(d4.last()));
}

/// Round trip: rendering any record to its canonical line and reading that
/// line back under the mandatory header yields exactly that record.
pub proof fn lemma_render_round_trip(e: MeasurementEntry)
    ensures
        parse_spec(header_bytes() + seq![LINE_FEED] + render_spec(e)) == seq![e],
{
    let h = header_bytes();
    let row = render_spec(e);
    lemma_render_wellformed(e);
    lemma_header_facts();
    lemma_split_on_concat(h, row, LINE_FEED);
    lemma_split_on_absent(row, LINE_FEED);
    let lines = split_on(h + seq![LINE_FEED] + row, LINE_FEED);
    assert(lines =~~= seq![h, row]);
    assert(strip_cr(lines[0]) == h);
    assert(lines.drop_first() =~~= seq![row]);
    assert(line_entry(row) == Some(e));
    assert(seq![row].filter_map(line_entry_fn()) =~= seq![e]) by {
        assert(seq![row].drop_last() =~= Seq::<Seq<u8>>::empty());
        assert(Seq::<Seq<u8>>::empty().filter_map(line_entry_fn()) =~= Seq::<
            MeasurementEntry,
        >::empty());
    }
    assert(parse_spec(h + seq![LINE_FEED] + row) == seq![e]);
}

/// Tolerance: the records a stretch of lines yields are exactly its
/// well-formed rows, in their relative order, each read as its record.
pub proof fn lemma_row_tolerance(lines: Seq<Seq<u8>>)
    ensures
        lines.filter_map(line_entry_fn()) == lines.filter(
            |l: Seq<u8>| wellformed_row(strip_cr(l)),
        ).map_values(|l: Seq<u8>| row_entry(strip_cr(l))),
    decreases lines.len(),
{
    reveal(Seq::filter);
    let p = |l: Seq<u8>| wellformed_row(strip_cr(l));
    let g = |l: Seq<u8>| row_entry(strip_cr(l));
    if lines.len() == 0 {
        assert(lines.filter_map(line_entry_fn()) =~= lines.filter(p).map_values(g));
    } else {
        lemma_row_tolerance(lines.drop_last());
        let rest = lines.drop_last();
        let l = lines.last();
        if wellformed_row(strip_cr(l)) {
            assert(lines.filter(p) == rest.filter(p).push(l));
            assert(lines.filter(p).map_values(g) =~= rest.filter(p).map_values(g).push(g(l)));
            assert(lines.filter_map(line_entry_fn()) =~= rest.filter_map(line_entry_fn())
                + seq![row_entry(strip_cr(l))]);
        } else {
            assert(lines.filter(p) == rest.filter(p));
        }
        assert(lines.filter_map(line_entry_fn()) =~= lines.filter(p).map_values(g));
    }
}

/// Tolerance at source level: under the mandatory header, the records a
/// source yields are exactly its well-formed rows after the header line, in
/// file order, each read as its record.
pub proof fn lemma_parse_tolerance(data: Seq<u8>)
    requires
        strip_cr(split_on(data, LINE_FEED)[0]) == header_bytes(),
    ensures
        parse_spec(data) == split_on(data, LINE_FEED).drop_first().filter(
            |l: Seq<u8>| wellformed_row(strip_cr(l)),
        ).map_values(|l: Seq<u8>| row_entry(strip_cr(l))),
{
    lemma_row_tolerance(split_on(data, LINE_FEED).drop_first());
}

/// A new, empty source yields no records and no error: reading everything
/// gives the empty sequence, and so does reading only the most recent record.
pub proof fn lemma_empty_source()
    ensures
        parse_spec(Seq::<u8>::empty()) == Seq::<MeasurementEntry>::empty(),
        latest_selection(Seq::<MeasurementEntry>::empty()) == Seq::<MeasurementEntry>::empty(),
{
    lemma_header_facts();
    let lines = split_on(Seq::<u8>::empty(), LINE_FEED);
    assert(lines == seq![Seq::<u8>::empty()]);
    assert(strip_cr(lines[0]) != header_bytes());
}

} // verus!

