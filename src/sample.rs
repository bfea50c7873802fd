//! One telemetry reading of the charge controller.
use vstd::prelude::*;
use vstd::string::StringSliceAdditionalSpecFns;
use crate::decimal::{lemma_text_ascii, Decimal, NumberScan};
use crate::field::{field_scan_spec, lemma_field_reading_wf, lemma_text_reads_back};
use crate::text::{ascii_chars, ascii_string, is_ascii_bytes};
use crate::wire::{
    decode_fields, field_fits, field_reading, fields_of, line_fields, split_fields, DecodeError,
    FIELD_COUNT,
};

verus! {

/// First second that RFC 2822 can write: 0000-01-01 00:00:00 UTC.
pub const RFC2822_FIRST: i64 = -62_167_219_200;

/// Last second that RFC 2822 can write: 9999-12-31 23:59:59 UTC.
pub const RFC2822_LAST: i64 = 253_402_300_799;

/// The RFC 2822 text of a Unix time in seconds, as chrono writes it in UTC.
pub uninterp spec fn rfc2822_of(secs: int) -> Seq<char>;

/// Relies on chrono's `DateTime::from_timestamp`, which gives `Some` for every
/// second of the years 0 to 9999, and `DateTime::to_rfc2822`, which does not
/// panic on those years: the text depends on `secs` alone.
#[verifier::external_body]
fn format_rfc2822(secs: i64) -> (r: String)
    requires
        RFC2822_FIRST <= secs <= RFC2822_LAST,
    ensures
        r@ == rfc2822_of(secs as int),
{
    match chrono::DateTime::from_timestamp(secs, 0) {
        Some(t) => t.to_rfc2822(),
        None => String::new(),
    }
}

/// Relies on `SystemTime::elapsed` of the Unix epoch: whole seconds since
/// then, or `None` when the clock reads earlier.
#[verifier::external_body]
fn seconds_since_epoch() -> (r: Option<u64>) {
    match std::time::UNIX_EPOCH.elapsed() {
        Ok(d) => Some(d.as_secs()),
        Err(_) => None,
    }
}

/// The timestamp for a clock reading in seconds since the Unix epoch: the
/// reading itself, or 0 when the clock reads before the epoch (`None`) or
/// past what an `i64` holds.
pub fn timestamp_from_clock(secs: Option<u64>) -> (r: i64)
    ensures
        r == (match secs {
            Some(s) => if s <= i64::MAX {
                s as i64
            } else {
                0
            },
            None => 0,
        }),
{
    match secs {
        Some(s) => if s <= i64::MAX as u64 {
            s as i64
        } else {
            0
        },
        None => 0,
    }
}

/// The wall-clock time in seconds since the Unix epoch (see `timestamp_from_clock`).
pub fn current_timestamp() -> (r: i64)
    ensures
        r >= 0,
{
    timestamp_from_clock(seconds_since_epoch())
}

/// A decoded reading, stamped with the time it was received. The ten
/// readings keep the order of the wire line.
#[derive(Clone, Copy, Debug, PartialEq, Eq, Structural)]
pub struct Sample {
    pub timestamp: i64,
    pub battery_voltage: Decimal,
    pub pv_voltage: Decimal,
    pub load_current: Decimal,
    pub over_discharge: Decimal,
    pub battery_max: Decimal,
    pub battery_full: Decimal,
    pub charging: Decimal,
    pub battery_temp: Decimal,
    pub charge_current: Decimal,
    pub load_onoff: Decimal,
}

pub const LEFT_PAREN: u8 = 40;
pub const RIGHT_PAREN: u8 = 41;
pub const COMMA: u8 = 44;
pub const SPACE: u8 = 32;
pub const VOLT: u8 = 118;
pub const AMPERE: u8 = 65;
pub const CELSIUS: u8 = 67;

pub open spec fn unit_bytes(unit: Option<u8>) -> Seq<u8> {
    match unit {
        Some(u) => seq![u],
        None => Seq::<u8>::empty(),
    }
}

/// `", "`, then the reading, then its unit letter if it has one.
pub open spec fn reading_part(d: Decimal, unit: Option<u8>) -> Seq<u8> {
    seq![COMMA, SPACE] + d.text() + unit_bytes(unit)
}

fn push_reading(out: &mut Vec<u8>, d: &Decimal, unit: Option<u8>)
    requires
        d.wf(),
        is_ascii_bytes(old(out)@),
        unit matches Some(u) ==> u < 128,
    ensures
        final(out)@ == old(out)@ + reading_part(*d, unit),
        is_ascii_bytes(final(out)@),
{
    proof {
        lemma_text_ascii(*d);
    }
    out.push(COMMA);
    out.push(SPACE);
    let mut t = d.text_bytes();
    out.append(&mut t);
    if let Some(u) = unit {
        out.push(u);
    }
    assert(final(out)@ =~= old(out)@ + reading_part(*d, unit));
}

/// What decoding `line` at time `timestamp` gives.
pub open spec fn decode_spec(line: Seq<u8>, timestamp: i64) -> Result<Sample, DecodeError> {
    match line_fields(line) {
        Ok(f) => Ok(Sample::from_fields(timestamp, f)),
        Err(e) => Err(e),
    }
}

impl Sample {
    /// The ten readings, in wire order.
    pub open spec fn fields(&self) -> Seq<Decimal> {
        seq![
            self.battery_voltage,
            self.pv_voltage,
            self.load_current,
            self.over_discharge,
            self.battery_max,
            self.battery_full,
            self.charging,
            self.battery_temp,
            self.charge_current,
            self.load_onoff,
        ]
    }

    /// The sample whose readings are the first ten of `f`.
    pub open spec fn from_fields(timestamp: i64, f: Seq<Decimal>) -> Sample {
        Sample {
            timestamp,
            battery_voltage: f[0],
            pv_voltage: f[1],
            load_current: f[2],
            over_discharge: f[3],
            battery_max: f[4],
            battery_full: f[5],
            charging: f[6],
            battery_temp: f[7],
            charge_current: f[8],
            load_onoff: f[9],
        }
    }

    /// Every reading is a well-formed decimal.
    pub open spec fn wf(&self) -> bool {
        forall|i: int| 0 <= i < FIELD_COUNT ==> (#[trigger] self.fields()[i]).wf()
    }

    /// Tests `wf`.
    pub fn is_wf(&self) -> (r: bool)
        ensures
            r == self.wf(),
    {
        let ghost f = self.fields();
        assert(f[0] == self.battery_voltage && f[1] == self.pv_voltage && f[2] == self.load_current);
        assert(f[3] == self.over_discharge && f[4] == self.battery_max && f[5] == self.battery_full);
        assert(f[6] == self.charging && f[7] == self.battery_temp && f[8] == self.charge_current);
        assert(f[9] == self.load_onoff);
        let r = self.battery_voltage.is_wf() && self.pv_voltage.is_wf() && self.load_current.is_wf()
            && self.over_discharge.is_wf() && self.battery_max.is_wf() && self.battery_full.is_wf()
            && self.charging.is_wf() && self.battery_temp.is_wf() && self.charge_current.is_wf()
            && self.load_onoff.is_wf();
        assert(r ==> self.wf());
        assert(!r ==> exists|i: int| 0 <= i < FIELD_COUNT && !(#[trigger] self.fields()[i]).wf());
        r
    }

    /// The sample made of the first ten readings of `data`, stamped `timestamp`.
    pub fn with_timestamp(data: &[Decimal], timestamp: i64) -> (r: Sample)
        requires
            data@.len() >= FIELD_COUNT,
        ensures
            r == Sample::from_fields(timestamp, data@),
    {
        Sample {
            timestamp,
            battery_voltage: data[0],
            pv_voltage: data[1],
            load_current: data[2],
            over_discharge: data[3],
            battery_max: data[4],
            battery_full: data[5],
            charging: data[6],
            battery_temp: data[7],
            charge_current: data[8],
            load_onoff: data[9],
        }
    }

    /// The sample made of the first ten readings of `data`, stamped now.
    pub fn new(data: &[Decimal]) -> (r: Sample)
        requires
            data@.len() >= FIELD_COUNT,
        ensures
            r == Sample::from_fields(r.timestamp, data@),
            r.timestamp >= 0,
    {
        Sample::with_timestamp(data, current_timestamp())
    }

    /// Decodes a wire line received at `timestamp`. Readings are exact
    /// decimals: a line whose first ten fields include one that a `Decimal`
    /// cannot hold (an infinity, a NaN, more than 19 significant digits, or
    /// more than 19 digits after the point) gives `FieldOutOfRange`.
    pub fn decode(line: &[u8], timestamp: i64) -> (r: Result<Sample, DecodeError>)
        ensures
            r == decode_spec(line@, timestamp),
            r matches Ok(s) ==> s.wf(),
    {
        proof {
            if decode_spec(line@, timestamp) is Ok {
                lemma_decode_round_trip(line@, timestamp);
            }
        }
        match decode_fields(line) {
            Ok(v) => Ok(Sample::with_timestamp(v.as_slice(), timestamp)),
            Err(e) => Err(e),
        }
    }

    /// Decodes a wire line received now.
    pub fn from_str(data_str: &str) -> (r: Result<Sample, DecodeError>)
        ensures
            match r {
                Ok(smp) => decode_spec(data_str.spec_bytes(), smp.timestamp) == Ok::<
                    Sample,
                    DecodeError,
                >(smp) && smp.timestamp >= 0,
                Err(e) => line_fields(data_str.spec_bytes()) == Err::<Seq<Decimal>, DecodeError>(
                    e,
                ),
            },
    {
        let now = current_timestamp();
        Sample::decode(data_str.as_bytes(), now)
    }

    /// The zero-valued sample that stands in for a reading that failed.
    pub open spec fn spec_placeholder(timestamp: i64) -> Sample {
        Sample::from_fields(timestamp, Seq::new(FIELD_COUNT as nat, |i: int| Decimal::spec_zero()))
    }

    pub fn placeholder(timestamp: i64) -> (r: Sample)
        ensures
            r == Sample::spec_placeholder(timestamp),
            r.wf(),
    {
        let z = Decimal::zero();
        Sample {
            timestamp,
            battery_voltage: z,
            pv_voltage: z,
            load_current: z,
            over_discharge: z,
            battery_max: z,
            battery_full: z,
            charging: z,
            battery_temp: z,
            charge_current: z,
            load_onoff: z,
        }
    }

    pub fn get_time(&self) -> (r: i64)
        ensures
            r == self.timestamp,
    {
        self.timestamp
    }

    pub fn get_battery_voltage(&self) -> (r: Decimal)
        ensures
            r == self.battery_voltage,
    {
        self.battery_voltage
    }

    pub fn get_pv_voltage(&self) -> (r: Decimal)
        ensures
            r == self.pv_voltage,
    {
        self.pv_voltage
    }

    pub fn get_load_current(&self) -> (r: Decimal)
        ensures
            r == self.load_current,
    {
        self.load_current
    }

    pub fn get_over_discharge(&self) -> (r: Decimal)
        ensures
            r == self.over_discharge,
    {
        self.over_discharge
    }

    pub fn get_battery_max(&self) -> (r: Decimal)
        ensures
            r == self.battery_max,
    {
        self.battery_max
    }

    pub fn get_battery_full(&self) -> (r: Decimal)
        ensures
            r == self.battery_full,
    {
        self.battery_full
    }

    pub fn get_charging(&self) -> (r: Decimal)
        ensures
            r == self.charging,
    {
        self.charging
    }

    pub fn get_battery_temp(&self) -> (r: Decimal)
        ensures
            r == self.battery_temp,
    {
        self.battery_temp
    }

    pub fn get_charge_current(&self) -> (r: Decimal)
        ensures
            r == self.charge_current,
    {
        self.charge_current
    }

    pub fn get_load_onoff(&self) -> (r: Decimal)
        ensures
            r == self.load_onoff,
    {
        self.load_onoff
    }

    /// The battery reports full: the flag reads at least one.
    pub fn is_battery_full(&self) -> (r: bool)
        requires
            self.wf(),
        ensures
            r == self.battery_full.spec_at_least_one(),
    {
        assert(self.fields()[5] == self.battery_full);
        self.battery_full.at_least_one()
    }

    /// The battery is charging: the flag reads at least one.
    pub fn is_charging(&self) -> (r: bool)
        requires
            self.wf(),
        ensures
            r == self.charging.spec_at_least_one(),
    {
        assert(self.fields()[6] == self.charging);
        self.charging.at_least_one()
    }

    /// The load output is on: the flag reads at least one.
    pub fn is_load_on(&self) -> (r: bool)
        requires
            self.wf(),
        ensures
            r == self.load_onoff.spec_at_least_one(),
    {
        assert(self.fields()[9] == self.load_onoff);
        self.load_onoff.at_least_one()
    }

    /// The receipt time as RFC 2822 text in UTC; `None` outside the years 0 to 9999.
    pub fn get_time_formatted(&self) -> (r: Option<String>)
        ensures
            match r {
                Some(t) => RFC2822_FIRST <= self.timestamp <= RFC2822_LAST && t@ == rfc2822_of(
                    self.timestamp as int,
                ),
                None => !(RFC2822_FIRST <= self.timestamp <= RFC2822_LAST),
            },
    {
        if RFC2822_FIRST <= self.timestamp && self.timestamp <= RFC2822_LAST {
            Some(format_rfc2822(self.timestamp))
        } else {
            None
        }
    }
}

impl Sample {
    /// The readable form of a sample: the time, then each reading with its
    /// unit, in wire order, between parentheses.
    pub open spec fn description(&self) -> Seq<u8> {
        seq![LEFT_PAREN] + Decimal::spec_from_int(self.timestamp).text() + reading_part(
            self.battery_voltage,
            Some(VOLT),
        ) + reading_part(self.pv_voltage, Some(VOLT)) + reading_part(
            self.load_current,
            Some(AMPERE),
        ) + reading_part(self.over_discharge, None) + reading_part(self.battery_max, Some(VOLT))
            + reading_part(self.battery_full, None) + reading_part(self.charging, None)
            + reading_part(self.battery_temp, Some(CELSIUS)) + reading_part(
            self.charge_current,
            Some(AMPERE),
        ) + reading_part(self.load_onoff, None) + seq![RIGHT_PAREN]
    }

    pub fn describe(&self) -> (r: String)
        requires
            self.wf(),
        ensures
            r@ == ascii_chars(self.description()),
    {
        let ghost f = self.fields();
        assert(f[0] == self.battery_voltage && f[1] == self.pv_voltage && f[2] == self.load_current);
        assert(f[3] == self.over_discharge && f[4] == self.battery_max && f[5] == self.battery_full);
        assert(f[6] == self.charging && f[7] == self.battery_temp && f[8] == self.charge_current);
        assert(f[9] == self.load_onoff);
        let mut out: Vec<u8> = Vec::new();
        out.push(LEFT_PAREN);
        let ts = Decimal::from_int(self.timestamp);
        proof {
            lemma_text_ascii(ts);
        }
        let mut t = ts.text_bytes();
        out.append(&mut t);
        push_reading(&mut out, &self.battery_voltage, Some(VOLT));
        push_reading(&mut out, &self.pv_voltage, Some(VOLT));
        push_reading(&mut out, &self.load_current, Some(AMPERE));
        push_reading(&mut out, &self.over_discharge, None);
        push_reading(&mut out, &self.battery_max, Some(VOLT));
        push_reading(&mut out, &self.battery_full, None);
        push_reading(&mut out, &self.charging, None);
        push_reading(&mut out, &self.battery_temp, Some(CELSIUS));
        push_reading(&mut out, &self.charge_current, Some(AMPERE));
        push_reading(&mut out, &self.load_onoff, None);
        out.push(RIGHT_PAREN);
        assert(out@ =~= self.description());
        ascii_string(out)
    }
}

/// Decoding then writing back: each reading of a decoded line is the value
/// of the matching field of the line, and its text reads back, as a field,
/// as that same value.
pub proof fn lemma_decode_round_trip(line: Seq<u8>, timestamp: i64)
    requires
        decode_spec(line, timestamp) is Ok,
    ensures
        ({
            let smp = decode_spec(line, timestamp)->Ok_0;
            &&& smp.wf()
            &&& forall|i: int|
                0 <= i < FIELD_COUNT ==> #[trigger] smp.fields()[i] == field_reading(
                    fields_of(split_fields(line))[i],
                ) && field_scan_spec(smp.fields()[i].text()) == NumberScan::Value(
                    smp.fields()[i],
                )
        }),
{
    let smp = decode_spec(line, timestamp)->Ok_0;
    let nums = fields_of(split_fields(line));
    assert forall|i: int| 0 <= i < FIELD_COUNT implies #[trigger] smp.fields()[i] == field_reading(
        nums[i],
    ) && smp.fields()[i].wf() && field_scan_spec(smp.fields()[i].text()) == NumberScan::Value(
        smp.fields()[i],
    ) by {
        assert(field_fits(nums[i]));
        lemma_field_reading_wf(nums[i]);
        lemma_text_reads_back(smp.fields()[i]);
    }
}

impl Default for Sample {
    /// The placeholder sample, stamped now.
    fn default() -> (r: Sample)
        ensures
            r == Sample::spec_placeholder(r.timestamp),
            r.timestamp >= 0,
    {
        Sample::placeholder(current_timestamp())
    }
}

} // verus!
