use vstd::prelude::*;
use vstd::string::StringSliceAdditionalSpecFns;
use vstd::utf8::*;

use crate::time::Stamp;

verus! {

/// The byte that separates the fields of a record.
pub const COMMA: u8 = 44;

/// What a record line that cannot be read lacks.
#[derive(Debug, Clone, Copy, PartialEq, Eq, Structural)]
pub enum RecordError {
    /// The line has no field separator, so no load field.
    MissingLoad,
    /// The first field is not an RFC 3339 date and time.
    BadDatetime,
}

/// The instant, as whole UTC seconds, and the UTC offset in seconds that an
/// RFC 3339 text denotes; `None` where the text is not one.
pub uninterp spec fn rfc3339_instant(text: Seq<u8>) -> Option<(i64, i32)>;

/// Relies on chrono's `DateTime::parse_from_rfc3339` to read an RFC 3339
/// text, and on its `timestamp` and `FixedOffset::local_minus_utc` for the
/// whole UTC seconds and the offset of what it read.
#[verifier::external_body]
fn parse_rfc3339(text: &str) -> (r: Option<Stamp>)
    ensures
        r is None <==> rfc3339_instant(text.spec_bytes()) is None,
        r matches Some(s) ==> rfc3339_instant(text.spec_bytes()) == Some((s.utc_secs, s.offset_secs)),
{
    match chrono::DateTime::parse_from_rfc3339(text) {
        Ok(d) => Some(Stamp { utc_secs: d.timestamp(), offset_secs: d.offset().local_minus_utc() }),
        Err(_) => None,
    }
}

/// No separator among the bytes `from .. to`.
pub open spec fn comma_free(b: Seq<u8>, from: int, to: int) -> bool {
    forall|i: int| from <= i < to ==> b[i] != COMMA
}

/// The first field of `b` ends at the separator at `p`, and the second runs
/// from just after it to `q`, where the next separator or the end of `b` is.
pub open spec fn fields_at(b: Seq<u8>, p: int, q: int) -> bool {
    &&& 0 <= p < q <= b.len()
    &&& b[p] == COMMA
    &&& comma_free(b, 0, p)
    &&& comma_free(b, p + 1, q)
    &&& (q == b.len() || b[q] == COMMA)
}

/// The first separator at or after `from`, or the length of `b`.
fn find_comma(b: &[u8], from: usize) -> (r: usize)
    requires
        from <= b@.len(),
    ensures
        from <= r <= b@.len(),
        comma_free(b@, from as int, r as int),
        r < b@.len() ==> b@[r as int] == COMMA,
{
    let mut i: usize = from;
    while i < b.len() && b[i] != COMMA
        invariant
            from <= i <= b@.len(),
            comma_free(b@, from as int, i as int),
        decreases b@.len() - i,
    {
        i = i + 1;
    }
    i
}

/// Reads one record line, `datetime,load[,...]`: the stamp of the first
/// field and the text of the second, which ends at the next separator or at
/// the end of the line. Fails with `MissingLoad` when the line has no
/// separator, else with `BadDatetime` when the first field is not an
/// RFC 3339 date and time.
pub fn parse_record<'a>(line: &'a str) -> (r: Result<(Stamp, &'a str), RecordError>)
    ensures
        r == Err::<(Stamp, &'a str), RecordError>(RecordError::MissingLoad) <==> comma_free(
            line.spec_bytes(),
            0,
            line.spec_bytes().len() as int,
        ),
        r == Err::<(Stamp, &'a str), RecordError>(RecordError::BadDatetime) ==> exists|p: int|
            0 <= p < line.spec_bytes().len() && line.spec_bytes()[p] == COMMA && comma_free(
                line.spec_bytes(),
                0,
                p,
            ) && rfc3339_instant(line.spec_bytes().subrange(0, p)) is None,
        r matches Ok((s, load)) ==> exists|p: int, q: int|
            #[trigger] fields_at(line.spec_bytes(), p, q) && rfc3339_instant(
                line.spec_bytes().subrange(0, p),
            ) == Some((s.utc_secs, s.offset_secs)) && load.spec_bytes() == line.spec_bytes().subrange(
                p + 1,
                q,
            ),
{
    let b = line.as_bytes();
    let p = find_comma(b, 0);
    if p == b.len() {
        return Err(RecordError::MissingLoad);
    }
    let ghost lb = line.spec_bytes();
    proof {
        encode_utf8_valid_utf8(line@);
        is_char_boundary_iff_not_is_continuation_byte(lb, p as int);
    }
    let (dt, rest) = line.split_at(p);
    let stamp = match parse_rfc3339(dt) {
        Some(s) => s,
        None => {
            return Err(RecordError::BadDatetime);
        },
    };
    let ghost rb = rest.spec_bytes();
    proof {
        valid_utf8_split(lb, p as int);
        assert(rb =~= lb.subrange(p as int, lb.len() as int));
        assert(rb[0] == COMMA);
        assert(length_of_first_scalar(rb) == 1);
        assert(pop_first_scalar(rb).len() == rb.len() - 1);
        reveal_with_fuel(is_char_boundary, 2);
        assert(is_char_boundary(rb, 1));
    }
    let (_, tail) = rest.split_at(1);
    let tb = tail.as_bytes();
    let q = find_comma(tb, 0);
    proof {
        valid_utf8_split(rb, 1);
        let t = tail.spec_bytes();
        assert(t =~= lb.subrange(p + 1, lb.len() as int));
        if q < t.len() {
            is_char_boundary_iff_not_is_continuation_byte(t, q as int);
        } else {
            is_char_boundary_start_end_of_seq(t);
        }
    }
    let (load, _) = tail.split_at(q);
    proof {
        let t = tail.spec_bytes();
        assert(load.spec_bytes() =~= lb.subrange(p + 1, p + 1 + q));
        assert forall|i: int| p + 1 <= i < p + 1 + q implies lb[i] != COMMA by {
            assert(t[i - p - 1] == lb[i]);
        }
        if q < t.len() {
            assert(t[q as int] == lb[p + 1 + q]);
        }
        assert(dt.spec_bytes() =~= lb.subrange(0, p as int));
        let qq = p + 1 + q;
        assert(b@ == lb);
        assert(comma_free(lb, 0, p as int));
        assert(comma_free(lb, p + 1, qq));
        assert(qq == lb.len() || lb[qq] == COMMA);
        assert(rfc3339_instant(lb.subrange(0, p as int)) == Some((stamp.utc_secs, stamp.offset_secs)));
        assert(load.spec_bytes() == lb.subrange(p + 1, qq));
        assert(fields_at(lb, p as int, qq));
    }
    Ok((stamp, load))
}

/// Reads one RFC 3339 date and time per line. Fails with the position of
/// the first line that is not one.
pub fn parse_bad_datetimes(lines: &[String]) -> (r: Result<Vec<Stamp>, usize>)
    ensures
        r matches Ok(v) ==> v@.len() == lines@.len() && forall|i: int|
            0 <= i < lines@.len() ==> rfc3339_instant(encode_utf8(#[trigger] lines@[i]@)) == Some(
                (v@[i].utc_secs, v@[i].offset_secs),
            ),
        r matches Err(k) ==> k < lines@.len() && rfc3339_instant(encode_utf8(lines@[k as int]@))
            is None && forall|i: int|
            0 <= i < k ==> rfc3339_instant(encode_utf8(#[trigger] lines@[i]@)) is Some,
        r is Ok <==> forall|i: int|
            0 <= i < lines@.len() ==> rfc3339_instant(encode_utf8(#[trigger] lines@[i]@)) is Some,
{
    let mut out: Vec<Stamp> = Vec::with_capacity(lines.len());
    let mut i: usize = 0;
    while i < lines.len()
        invariant
            i <= lines@.len(),
            out@.len() == i,
            forall|j: int|
                0 <= j < i ==> rfc3339_instant(encode_utf8(#[trigger] lines@[j]@)) == Some(
                    (out@[j].utc_secs, out@[j].offset_secs),
                ),
        decreases lines@.len() - i,
    {
        match parse_rfc3339(lines[i].as_str()) {
            Some(s) => out.push(s),
            None => {
                return Err(i);
            },
        }
        i = i + 1;
    }
    Ok(out)
}

} // verus!
