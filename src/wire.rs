//! The wire-line format: colon-separated decimal numbers.
use vstd::prelude::*;
use crate::decimal::{
    Decimal, NumberScan, is_digit, is_number, scan_number, scan_spec, DIGIT_NINE, DIGIT_ZERO,
};
use crate::field::{field_scan_spec, is_float_token, scan_field};

verus! {

pub const COLON: u8 = 58;

/// Number of numeric fields that a reading carries.
pub const FIELD_COUNT: usize = 10;

/// Why a line does not decode.
#[derive(Clone, Copy, Debug, PartialEq, Eq, Structural)]
pub enum DecodeError {
    /// The line holds no frame of nine numbers and an integer tail.
    Malformed,
    /// The line holds fewer than ten fields that read as numbers.
    MissingFields,
    /// One of the ten fields is a number that a `Decimal` cannot hold
    /// exactly: an infinity, a NaN, more than 19 significant digits, or more
    /// than 19 digits after the point. Readings are never rounded.
    FieldOutOfRange,
}

/// The ':'-separated pieces of `line`, in order (one piece for an empty line).
pub open spec fn split_fields(line: Seq<u8>) -> Seq<Seq<u8>>
    decreases line.len(),
{
    if line.len() == 0 {
        seq![Seq::<u8>::empty()]
    } else {
        let p = split_fields(line.drop_last());
        if line.last() == COLON {
            p.push(Seq::<u8>::empty())
        } else {
            p.update(p.len() - 1, p.last().push(line.last()))
        }
    }
}

pub open spec fn ends_with_digit(t: Seq<u8>) -> bool {
    t.len() > 0 && is_digit(t.last())
}

pub open spec fn starts_with_digit(t: Seq<u8>) -> bool {
    t.len() > 0 && is_digit(t[0])
}

/// A frame starts in piece `k`: a piece ending in a digit, eight whole
/// numbers, then a piece starting with a digit. This is nine numbers, each
/// followed by a colon, then an integer, found anywhere in the line.
pub open spec fn frame_at(f: Seq<Seq<u8>>, k: int) -> bool {
    &&& 0 <= k
    &&& k + 9 < f.len()
    &&& ends_with_digit(f[k])
    &&& forall|j: int| 1 <= j <= 8 ==> is_number(#[trigger] f[k + j])
    &&& starts_with_digit(f[k + 9])
}

pub open spec fn has_wire_shape(line: Seq<u8>) -> bool {
    exists|k: int| frame_at(split_fields(line), k)
}

pub open spec fn field_pred() -> spec_fn(Seq<u8>) -> bool {
    |t: Seq<u8>| is_float_token(t)
}

/// The pieces that read as numbers the way `f64` parsing reads them, in order.
pub open spec fn fields_of(f: Seq<Seq<u8>>) -> Seq<Seq<u8>> {
    f.filter(field_pred())
}

/// A field piece whose value a `Decimal` holds exactly.
pub open spec fn field_fits(t: Seq<u8>) -> bool {
    field_scan_spec(t) is Value
}

/// The value of a field piece that fits.
pub open spec fn field_reading(t: Seq<u8>) -> Decimal {
    field_scan_spec(t)->Value_0
}

/// The ten field values that `line` carries, or why it carries none.
pub open spec fn line_fields(line: Seq<u8>) -> Result<Seq<Decimal>, DecodeError> {
    let nums = fields_of(split_fields(line));
    if !has_wire_shape(line) {
        Err(DecodeError::Malformed)
    } else if nums.len() < FIELD_COUNT {
        Err(DecodeError::MissingFields)
    } else if exists|i: int| 0 <= i < FIELD_COUNT && !field_fits(#[trigger] nums[i]) {
        Err(DecodeError::FieldOutOfRange)
    } else {
        Ok(nums.take(FIELD_COUNT as int).map_values(|t: Seq<u8>| field_reading(t)))
    }
}

proof fn lemma_split_nonempty(line: Seq<u8>)
    ensures
        split_fields(line).len() >= 1,
    decreases line.len(),
{
    if line.len() > 0 {
        lemma_split_nonempty(line.drop_last());
    }
}

/// Start and end of each ':'-separated piece of `line`.
fn field_bounds(line: &[u8]) -> (r: Vec<(usize, usize)>)
    ensures
        r@.len() == split_fields(line@).len(),
        forall|j: int| 0 <= j < r@.len() ==> (#[trigger] r@[j]).0 <= r@[j].1 <= line@.len(),
        forall|j: int|
            0 <= j < r@.len() ==> split_fields(line@)[j] == line@.subrange(
                (#[trigger] r@[j]).0 as int,
                r@[j].1 as int,
            ),
{
    let mut bounds: Vec<(usize, usize)> = Vec::new();
    let mut start: usize = 0;
    let mut i: usize = 0;
    assert(line@.subrange(0, 0) =~= Seq::<u8>::empty());
    while i < line.len()
        invariant
            start <= i <= line@.len(),
            bounds@.len() + 1 == split_fields(line@.subrange(0, i as int)).len(),
            forall|j: int|
                0 <= j < bounds@.len() ==> (#[trigger] bounds@[j]).0 <= bounds@[j].1 <= line@.len()
                    && split_fields(line@.subrange(0, i as int))[j] == line@.subrange(
                    bounds@[j].0 as int,
                    bounds@[j].1 as int,
                ),
            split_fields(line@.subrange(0, i as int)).last() == line@.subrange(
                start as int,
                i as int,
            ),
        decreases line@.len() - i,
    {
        let ghost before = line@.subrange(0, i as int);
        let ghost after = line@.subrange(0, i + 1);
        assert(after.drop_last() =~= before);
        proof {
            lemma_split_nonempty(before);
        }
        if line[i] == COLON {
            bounds.push((start, i));
            start = i + 1;
            assert(line@.subrange(start as int, i + 1) =~= Seq::<u8>::empty());
        } else {
            assert(line@.subrange(start as int, i + 1) =~= line@.subrange(start as int, i as int).push(
                line@[i as int],
            ));
        }
        i = i + 1;
    }
    assert(line@.subrange(0, line@.len() as int) =~= line@);
    proof {
        lemma_split_nonempty(line@);
    }
    let ghost f = split_fields(line@);
    let ghost prev_b = bounds@;
    bounds.push((start, line.len()));
    assert(f[f.len() - 1] == line@.subrange(start as int, line@.len() as int));
    assert forall|j: int| 0 <= j < bounds@.len() implies (#[trigger] bounds@[j]).0 <= bounds@[j].1
        <= line@.len() && f[j] == line@.subrange(bounds@[j].0 as int, bounds@[j].1 as int) by {
        if j < bounds@.len() - 1 {
            assert(bounds@[j] == prev_b[j]);
        }
    }
    assert(bounds@.len() == f.len());
    bounds
}

/// Decodes the ten field values of a wire line.
pub fn decode_fields(line: &[u8]) -> (r: Result<Vec<Decimal>, DecodeError>)
    ensures
        match r {
            Ok(v) => line_fields(line@) == Ok::<Seq<Decimal>, DecodeError>(v@),
            Err(e) => line_fields(line@) == Err::<Seq<Decimal>, DecodeError>(e),
        },
{
    let ghost f = split_fields(line@);
    let bounds = field_bounds(line);
    let n = bounds.len();
    let mut scans: Vec<NumberScan> = Vec::new();
    let mut fields: Vec<NumberScan> = Vec::new();
    let mut j: usize = 0;
    while j < n
        invariant
            n == bounds@.len() == f.len(),
            f == split_fields(line@),
            j <= n,
            scans@.len() == j,
            fields@.len() == j,
            forall|x: int| 0 <= x < n ==> (#[trigger] bounds@[x]).0 <= bounds@[x].1 <= line@.len(),
            forall|x: int|
                0 <= x < n ==> f[x] == line@.subrange(
                    (#[trigger] bounds@[x]).0 as int,
                    bounds@[x].1 as int,
                ),
            forall|x: int| 0 <= x < j ==> #[trigger] scans@[x] == scan_spec(f[x]),
            forall|x: int| 0 <= x < j ==> #[trigger] fields@[x] == field_scan_spec(f[x]),
        decreases n - j,
    {
        let (a, b) = bounds[j];
        let sc = scan_number(line, a, b);
        scans.push(sc);
        fields.push(scan_field(line, a, b));
        j = j + 1;
    }
    // Look for a frame.
    let mut found = false;
    let mut k: usize = 0;
    while k < n && n - k > 9
        invariant
            n == bounds@.len() == f.len() == scans@.len() == fields@.len(),
            forall|x: int| 0 <= x < n ==> #[trigger] fields@[x] == field_scan_spec(f[x]),
            f == split_fields(line@),
            forall|x: int| 0 <= x < n ==> (#[trigger] bounds@[x]).0 <= bounds@[x].1 <= line@.len(),
            forall|x: int|
                0 <= x < n ==> f[x] == line@.subrange(
                    (#[trigger] bounds@[x]).0 as int,
                    bounds@[x].1 as int,
                ),
            forall|x: int| 0 <= x < n ==> #[trigger] scans@[x] == scan_spec(f[x]),
            found ==> has_wire_shape(line@),
            !found ==> forall|x: int| 0 <= x < k ==> !frame_at(f, x),
        decreases n - k,
    {
        let (a0, b0) = bounds[k];
        let (a9, b9) = bounds[k + 9];
        let mut ok = a0 < b0 && DIGIT_ZERO <= line[b0 - 1] && line[b0 - 1] <= DIGIT_NINE && a9 < b9
            && DIGIT_ZERO <= line[a9] && line[a9] <= DIGIT_NINE;
        assert(ok == (ends_with_digit(f[k as int]) && starts_with_digit(f[k + 9])));
        let mut m: usize = 1;
        while m <= 8 && ok
            invariant
                1 <= m <= 9,
                k + 9 < n == scans@.len() == f.len(),
                forall|x: int| 0 <= x < n ==> #[trigger] scans@[x] == scan_spec(f[x]),
                ok ==> forall|x: int| 1 <= x < m ==> is_number(#[trigger] f[k + x]),
                ok ==> ends_with_digit(f[k as int]) && starts_with_digit(f[k + 9]),
                !ok ==> !frame_at(f, k as int),
            decreases 9 - m,
        {
            if let NumberScan::NotNumber = scans[k + m] {
                ok = false;
            }
            m = m + 1;
        }
        if ok {
            assert(frame_at(f, k as int));
            found = true;
        }
        k = k + 1;
    }
    if !found {
        assert(!has_wire_shape(line@));
        return Err(DecodeError::Malformed);
    }
    // Take the first ten fields.
    let mut values: Vec<Decimal> = Vec::new();
    let mut too_large = false;
    let mut j: usize = 0;
    while j < n && values.len() < FIELD_COUNT
        invariant
            n == f.len() == fields@.len(),
            j <= n,
            forall|x: int| 0 <= x < n ==> #[trigger] fields@[x] == field_scan_spec(f[x]),
            values@.len() == fields_of(f.subrange(0, j as int)).len() <= FIELD_COUNT,
            forall|x: int|
                0 <= x < values@.len() && field_fits(fields_of(f.subrange(0, j as int))[x])
                    ==> #[trigger] values@[x] == field_reading(
                    fields_of(f.subrange(0, j as int))[x],
                ),
            too_large == exists|x: int|
                0 <= x < values@.len() && !field_fits(
                    #[trigger] fields_of(f.subrange(0, j as int))[x],
                ),
        decreases n - j,
    {
        let ghost prev = f.subrange(0, j as int);
        assert(f.subrange(0, j + 1) =~= prev.push(f[j as int]));
        proof {
            prev.lemma_filter_push(f[j as int], field_pred());
        }
        let ghost old_values = values@;
        let ghost cur = fields_of(f.subrange(0, j + 1));
        let ghost was = fields_of(prev);
        match fields[j] {
            NumberScan::NotNumber => {
                assert(cur == was);
            },
            NumberScan::TooLarge => {
                too_large = true;
                values.push(Decimal { negative: false, units: 0, scale: 0 });
                assert(cur == was.push(f[j as int]));
                assert(!field_fits(cur[old_values.len() as int]));
            },
            NumberScan::Value(d) => {
                values.push(d);
                assert(cur == was.push(f[j as int]));
                assert forall|x: int|
                    0 <= x < values@.len() && !field_fits(#[trigger] cur[x]) implies 0 <= x
                    < old_values.len() && !field_fits(was[x]) by {
                    if x < old_values.len() {
                        assert(cur[x] == was[x]);
                    }
                }
                assert forall|x: int|
                    0 <= x < old_values.len() && !field_fits(#[trigger] was[x]) implies 0 <= x
                    < values@.len() && !field_fits(cur[x]) by {
                    assert(cur[x] == was[x]);
                }
            },
        }
        j = j + 1;
    }
    let ghost nums = fields_of(f);
    let ghost head = fields_of(f.subrange(0, j as int));
    proof {
        assert(f =~= f.subrange(0, j as int) + f.subrange(j as int, n as int));
        Seq::filter_distributes_over_add(
            f.subrange(0, j as int),
            f.subrange(j as int, n as int),
            field_pred(),
        );
        assert(forall|x: int| 0 <= x < head.len() ==> nums[x] == head[x]);
    }
    if values.len() < FIELD_COUNT {
        assert(j == n);
        assert(f.subrange(0, j as int) =~= f);
        return Err(DecodeError::MissingFields);
    }
    if too_large {
        let ghost x = choose|x: int| 0 <= x < values@.len() && !field_fits(#[trigger] head[x]);
        assert(!field_fits(nums[x]));
        return Err(DecodeError::FieldOutOfRange);
    }
    assert(values@ =~= nums.take(FIELD_COUNT as int).map_values(|t: Seq<u8>| field_reading(t)));
    Ok(values)
}

} // verus!
