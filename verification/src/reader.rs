//! The measurement record model and the reader capability that every storage
//! backend implements.

use vstd::prelude::*;

use crate::text::{decimal, u128_to_decimal, u32_to_decimal, COMMA};

verus! {

/// One timestamped sensor reading. A record is an immutable, freely copyable
/// value; equality is structural.
#[derive(Clone, Copy, Debug, PartialEq, Eq, Structural)]
pub struct MeasurementEntry {
    pub timestamp: u128,
    pub light_intensity: u32,
    pub acidity: u32,
    pub temperature: u32,
    pub electrical_conductivity: u32,
}

/// The canonical comma-joined rendering of an entry, fields in declared order.
pub open spec fn render_spec(e: MeasurementEntry) -> Seq<u8> {
    decimal(e.timestamp as nat) + seq![COMMA] + (decimal(e.light_intensity as nat) + seq![COMMA] + (
    decimal(e.acidity as nat) + seq![COMMA] + (decimal(e.temperature as nat) + seq![COMMA]
        + decimal(e.electrical_conductivity as nat))))
}

impl MeasurementEntry {
    /// The canonical text line of this entry:
    /// `timestamp,light_intensity,acidity,temperature,electrical_conductivity`.
    pub fn render(&self) -> (r: Vec<u8>)
        ensures
            r@ == render_spec(*self),
    {
        let mut out = u128_to_decimal(self.timestamp);
        out.push(COMMA);
        let mut field = u32_to_decimal(self.light_intensity);
        out.append(&mut field);
        out.push(COMMA);
        field = u32_to_decimal(self.acidity);
        out.append(&mut field);
        out.push(COMMA);
        field = u32_to_decimal(self.temperature);
        out.append(&mut field);
        out.push(COMMA);
        field = u32_to_decimal(self.electrical_conductivity);
        out.append(&mut field);
        proof {
            assert(out@ =~= render_spec(*self));
        }
        out
    }
}

/// Carrier for stream-level failures: whatever went wrong underneath, the
/// backend hands it on as one message. Row-level parse failures never become
/// one of these.
#[derive(Clone, Debug, PartialEq, Eq)]
pub struct ReadError {
    pub message: String,
}

impl ReadError {
    /// Wraps a message describing the underlying failure.
    pub fn new(message: String) -> (r: ReadError)
        ensures
            r.message == message,
    {
        ReadError { message }
    }
}

/// The uniform return shape of every read operation: all records read, or a
/// stream-level failure.
pub type DataReturn = Result<Vec<MeasurementEntry>, ReadError>;

/// The entry of `s` with the greatest timestamp; on a tie, the earliest such
/// entry wins.
pub open spec fn latest_entry(s: Seq<MeasurementEntry>) -> MeasurementEntry
    recommends
        s.len() > 0,
    decreases s.len(),
{
    if s.len() <= 1 {
        s[0]
    } else {
        let prev = latest_entry(s.drop_last());
        if s.last().timestamp > prev.timestamp {
            s.last()
        } else {
            prev
        }
    }
}

/// What a read of only the most recent measurement returns, given everything
/// the backend holds: nothing from an empty store, otherwise exactly the entry
/// with the greatest timestamp, the earliest on a tie.
pub open spec fn latest_selection(s: Seq<MeasurementEntry>) -> Seq<MeasurementEntry> {
    if s.len() == 0 {
        Seq::<MeasurementEntry>::empty()
    } else {
        seq![latest_entry(s)]
    }
}

/// The latest entry is one of the entries, and no entry has a greater
/// timestamp.
pub proof fn lemma_latest_entry_is_max(s: Seq<MeasurementEntry>)
    requires
        s.len() > 0,
    ensures
        exists|i: int| 0 <= i < s.len() && s[i] == latest_entry(s),
        forall|i: int| 0 <= i < s.len() ==> (#[trigger] s[i]).timestamp <= latest_entry(s).timestamp,
    decreases s.len(),
{
    if s.len() == 1 {
        assert(s[0] == latest_entry(s));
    } else {
        lemma_latest_entry_is_max(s.drop_last());
        let sub = s.drop_last();
        let prev = latest_entry(sub);
        if s.last().timestamp > prev.timestamp {
            assert(s[s.len() - 1] == latest_entry(s));
        } else {
            let j = choose|j: int| 0 <= j < sub.len() && sub[j] == prev;
            assert(sub[j] == s[j]);
            assert(s[j] == latest_entry(s));
        }
        assert forall|i: int| 0 <= i < s.len() implies (#[trigger] s[i]).timestamp
            <= latest_entry(s).timestamp by {
            if i < s.len() - 1 {
                assert(s.drop_last()[i] == s[i]);
            }
        }
    }
}

/// The capability every storage backend implements: read everything, or read
/// only the most recent record. The operation set is kept narrow so future
/// backends add operations beside these without breaking existing ones; a
/// backend states what its reads return over its own model of the store, as
/// the structured-text one does.
pub trait DataReader {
    /// Reads all stored measurements, in storage order.
    fn read_all_measurements(&mut self) -> DataReturn;

    /// Reads only the most recent measurement: a single record, or none from
    /// an empty store.
    fn read_latest(&mut self) -> (r: DataReturn)
        ensures
            r matches Ok(v) ==> v@.len() <= 1,
    ;
}

} // verus!

