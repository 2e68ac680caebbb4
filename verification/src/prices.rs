//! The price protocol: nine-byte messages that record a price at a time or
//! ask for the mean price over a period.
//!
//! A message is one type byte, `I` or `Q`, and two 32-bit big-endian signed
//! integers.
use crate::cursor::Cursor;
use crate::frame::{
    invalid_format_message, invalid_format_text, invalid_type_message, invalid_type_text, Decoded,
};
use crate::wire::{be32, read_u32};
use vstd::prelude::*;
use vstd::string::StringExecFns;

verus! {

/// The type byte of a message that records a price: `I`.
pub const TAG_INSERT: u8 = 0x49;

/// The type byte of a message that asks for a mean: `Q`.
pub const TAG_QUERY: u8 = 0x51;

/// The number of bytes in a message.
pub const FRAME_SIZE: usize = 9;

/// A message of the price protocol.
#[derive(Clone, Copy, Debug, PartialEq, Eq, Structural)]
pub enum Frame {
    Insert { timestamp: i32, price: i32 },
    Query { mintime: i32, maxtime: i32 },
}

/// Why no message could be read.
#[derive(Debug)]
pub enum Error {
    /// The bytes so far are the start of a message; more are needed.
    Incomplete,
    /// The bytes cannot be a message, whatever follows. The text is a
    /// diagnostic.
    Other(String),
}

impl Error {
    /// What the error says.
    pub open spec fn text(self) -> Seq<char> {
        match self {
            Error::Incomplete => "stream ended early"@,
            Error::Other(text) => text@,
        }
    }

    /// What the error says, for a log or a reader.
    pub fn message(&self) -> (text: String)
        ensures
            text@ == self.text(),
    {
        match self {
            Error::Incomplete => String::from_str("stream ended early"),
            Error::Other(text) => text.clone(),
        }
    }
}

impl From<String> for Error {
    /// An error that says `src`.
    fn from(src: String) -> (e: Error) {
        Error::Other(src)
    }
}

impl vstd::std_specs::convert::FromSpecImpl<String> for Error {
    open spec fn obeys_from_spec() -> bool {
        true
    }

    open spec fn from_spec(src: String) -> Error {
        Error::Other(src)
    }
}

/// The value of four bytes read as a big-endian signed integer in two's
/// complement.
pub open spec fn be_i32(b0: u8, b1: u8, b2: u8, b3: u8) -> int {
    let unsigned = be32(b0, b1, b2, b3);
    if unsigned >= 0x8000_0000 {
        unsigned - 0x1_0000_0000
    } else {
        unsigned
    }
}

/// The 32-bit big-endian signed integer at index `i` of `b`.
pub open spec fn i32_at(b: Seq<u8>, i: int) -> i32 {
    be_i32(b[i], b[i + 1], b[i + 2], b[i + 3]) as i32
}

/// The message at the start of `b`.
pub open spec fn decode_frame(b: Seq<u8>) -> Decoded<Frame> {
    if b.len() < 1 {
        Decoded::Incomplete
    } else if b[0] != TAG_INSERT && b[0] != TAG_QUERY {
        Decoded::Malformed
    } else if b.len() < FRAME_SIZE {
        Decoded::Incomplete
    } else if b[0] == TAG_INSERT {
        Decoded::Frame {
            frame: Frame::Insert { timestamp: i32_at(b, 1), price: i32_at(b, 5) },
            len: FRAME_SIZE as nat,
        }
    } else {
        Decoded::Frame {
            frame: Frame::Query { mintime: i32_at(b, 1), maxtime: i32_at(b, 5) },
            len: FRAME_SIZE as nat,
        }
    }
}

/// Reads four bytes as a big-endian signed integer; anything but four bytes
/// is refused.
fn get_decimal(src: &[u8]) -> (r: Result<i32, Error>)
    ensures
        match r {
            Ok(v) => src@.len() == 4 && v == i32_at(src@, 0),
            Err(e) => src@.len() != 4 && (e matches Error::Other(text) && text@
                == invalid_format_text()),
        },
{
    if src.len() != 4 {
        return Err(Error::Other(invalid_format_message()));
    }
    let unsigned: u32 = read_u32(src);
    if unsigned >= 0x8000_0000 {
        Ok((unsigned - 0x8000_0000) as i32 + i32::MIN)
    } else {
        Ok(unsigned as i32)
    }
}

/// Reads one byte.
fn get_u8(src: &mut Cursor<'_>) -> (r: Result<u8, Error>)
    ensures
        final(src).bytes() == old(src).bytes(),
        match r {
            Ok(v) => old(src).rest().len() >= 1 && v == old(src).rest()[0] && final(src).pos()
                == old(src).pos() + 1,
            Err(e) => old(src).rest().len() < 1 && e is Incomplete && final(src).pos() == old(src).pos(),
        },
{
    if !src.has_remaining() {
        return Err(Error::Incomplete);
    }
    let chunk = src.chunk();
    let v: u8 = chunk[0];
    src.advance(1);
    Ok(v)
}

/// Reads the eight bytes that follow the type byte.
fn get_line<'a>(src: &mut Cursor<'a>) -> (r: Result<&'a [u8], Error>)
    ensures
        final(src).bytes() == old(src).bytes(),
        match r {
            Ok(line) => old(src).rest().len() >= 8 && line@ == old(src).rest().take(8) && final(src).pos() == old(src).pos() + 8,
            Err(e) => old(src).rest().len() < 8 && e is Incomplete && final(src).pos() == old(src).pos(),
        },
{
    if src.remaining() < 8 {
        return Err(Error::Incomplete);
    }
    let chunk = src.chunk();
    let line = &chunk[0..8];
    assert(line@ =~= old(src).rest().take(8));
    src.advance(8);
    Ok(line)
}

/// Walks over one message, without restoring the position where it fails.
fn scan_frame(src: &mut Cursor<'_>) -> (r: Result<(), Error>)
    ensures
        final(src).bytes() == old(src).bytes(),
        match decode_frame(old(src).rest()) {
            Decoded::Frame { len, .. } => r is Ok && final(src).pos() == old(src).pos() + len,
            Decoded::Incomplete => r matches Err(Error::Incomplete),
            Decoded::Malformed => r matches Err(Error::Other(text)) && text@ == invalid_type_text(
                old(src).rest()[0],
            ),
        },
{
    let tag: u8 = get_u8(src)?;
    if tag == TAG_INSERT || tag == TAG_QUERY {
        get_line(src)?;
        Ok(())
    } else {
        Err(Error::Other(invalid_type_message(tag)))
    }
}

/// Reads one message, without restoring the position where it fails.
fn read_message(src: &mut Cursor<'_>) -> (r: Result<Frame, Error>)
    ensures
        final(src).bytes() == old(src).bytes(),
        match decode_frame(old(src).rest()) {
            Decoded::Frame { frame, len } => r == Ok::<Frame, Error>(frame) && final(src).pos()
                == old(src).pos() + len,
            Decoded::Incomplete => r matches Err(Error::Incomplete),
            Decoded::Malformed => r matches Err(Error::Other(text)) && text@ == invalid_type_text(
                old(src).rest()[0],
            ),
        },
{
    let ghost b = src.rest();
    let tag: u8 = get_u8(src)?;
    if tag == TAG_INSERT || tag == TAG_QUERY {
        assert(src.rest() =~= b.skip(1));
        let line = get_line(src)?;
        let head = &line[0..4];
        let tail = &line[4..8];
        assert(head@ =~= b.subrange(1, 5));
        assert(tail@ =~= b.subrange(5, 9));
        let first: i32 = get_decimal(head)?;
        let second: i32 = get_decimal(tail)?;
        if tag == TAG_INSERT {
            Ok(Frame::Insert { timestamp: first, price: second })
        } else {
            Ok(Frame::Query { mintime: first, maxtime: second })
        }
    } else {
        Err(Error::Other(invalid_type_message(tag)))
    }
}

/// The sum of the prices whose time lies in `mintime..=maxtime`.
pub open spec fn sum_in(entries: Seq<(i32, i32)>, mintime: i32, maxtime: i32) -> int
    decreases entries.len(),
{
    if entries.len() == 0 {
        0
    } else {
        let before = sum_in(entries.drop_last(), mintime, maxtime);
        if mintime <= entries.last().0 <= maxtime {
            before + entries.last().1
        } else {
            before
        }
    }
}

/// The number of prices whose time lies in `mintime..=maxtime`.
pub open spec fn count_in(entries: Seq<(i32, i32)>, mintime: i32, maxtime: i32) -> int
    decreases entries.len(),
{
    if entries.len() == 0 {
        0
    } else {
        let before = count_in(entries.drop_last(), mintime, maxtime);
        if mintime <= entries.last().0 <= maxtime {
            before + 1
        } else {
            before
        }
    }
}

/// The quotient rounded towards zero.
pub open spec fn quotient(sum: int, count: int) -> int
    recommends
        count > 0,
{
    if sum >= 0 {
        sum / count
    } else {
        -((-sum) / count)
    }
}

/// The mean of the prices in the period, rounded towards zero; zero where
/// the period holds no price.
pub open spec fn mean_in(entries: Seq<(i32, i32)>, mintime: i32, maxtime: i32) -> int {
    if count_in(entries, mintime, maxtime) == 0 {
        0
    } else {
        quotient(sum_in(entries, mintime, maxtime), count_in(entries, mintime, maxtime))
    }
}

/// The index of the first entry for `timestamp`, or the number of entries
/// where there is none.
pub open spec fn index_of_time(entries: Seq<(i32, i32)>, timestamp: i32) -> int
    decreases entries.len(),
{
    if entries.len() == 0 || entries[0].0 == timestamp {
        0
    } else {
        1 + index_of_time(entries.skip(1), timestamp)
    }
}

/// The prices after `price` is recorded at `timestamp`: in place of the price
/// that the time had, or as a new entry.
pub open spec fn recorded(entries: Seq<(i32, i32)>, timestamp: i32, price: i32) -> Seq<
    (i32, i32),
> {
    let at = index_of_time(entries, timestamp);
    if 0 <= at < entries.len() {
        entries.update(at, (timestamp, price))
    } else {
        entries.push((timestamp, price))
    }
}

/// The first entry for a time stands where none stands before it.
proof fn lemma_index_of_time(entries: Seq<(i32, i32)>, timestamp: i32, n: int)
    requires
        0 <= n <= entries.len(),
        forall|k: int| 0 <= k < n ==> entries[k].0 != timestamp,
        n == entries.len() || entries[n].0 == timestamp,
    ensures
        index_of_time(entries, timestamp) == n,
    decreases n,
{
    if n > 0 {
        let rest = entries.skip(1);
        assert forall|k: int| 0 <= k < n - 1 implies rest[k].0 != timestamp by {
            assert(rest[k] == entries[k + 1]);
        }
        lemma_index_of_time(rest, timestamp, n - 1);
    }
}

/// Recording prices one at a time leaves one price for a time.
pub proof fn lemma_recorded_distinct(entries: Seq<(i32, i32)>, timestamp: i32, price: i32)
    requires
        distinct_times(entries),
    ensures
        distinct_times(recorded(entries, timestamp, price)),
{
    let at = index_of_time(entries, timestamp);
    let after = recorded(entries, timestamp, price);
    lemma_index_of_time_found(entries, timestamp);
    assert forall|i: int, j: int| 0 <= i < j < after.len() implies (#[trigger] after[i]).0 != (
    #[trigger] after[j]).0 by {
        if at < entries.len() {
            assert(after[i].0 == entries[i].0);
            assert(after[j].0 == entries[j].0);
        } else if j < entries.len() {
            assert(after[i] == entries[i]);
            assert(after[j] == entries[j]);
        } else {
            assert(after[i] == entries[i]);
        }
    }
}

/// What the index of the first entry for a time is: within the entries it
/// is the place of an entry for the time, and no entry before it is one; past
/// them, no entry is for the time.
pub proof fn lemma_index_of_time_found(entries: Seq<(i32, i32)>, timestamp: i32)
    ensures
        0 <= index_of_time(entries, timestamp) <= entries.len(),
        index_of_time(entries, timestamp) < entries.len() ==> entries[index_of_time(
            entries,
            timestamp,
        )].0 == timestamp,
        forall|k: int|
            0 <= k < index_of_time(entries, timestamp) ==> (#[trigger] entries[k]).0 != timestamp,
    decreases entries.len(),
{
    if entries.len() > 0 && entries[0].0 != timestamp {
        let rest = entries.skip(1);
        lemma_index_of_time_found(rest, timestamp);
        let at = index_of_time(rest, timestamp);
        assert forall|k: int| 0 <= k < at + 1 implies (#[trigger] entries[k]).0 != timestamp by {
            if k > 0 {
                assert(entries[k] == rest[k - 1]);
            }
        }
        if at < rest.len() {
            assert(rest[at] == entries[at + 1]);
        }
    }
}

/// No two entries are for the same time.
pub open spec fn distinct_times(entries: Seq<(i32, i32)>) -> bool {
    forall|i: int, j: int|
        0 <= i < j < entries.len() ==> (#[trigger] entries[i]).0 != (#[trigger] entries[j]).0
}

/// The sum and the count of a period stay within what the number of entries
/// allows.
proof fn lemma_sum_bounds(entries: Seq<(i32, i32)>, mintime: i32, maxtime: i32)
    ensures
        0 <= count_in(entries, mintime, maxtime) <= entries.len(),
        -0x8000_0000 * count_in(entries, mintime, maxtime) <= sum_in(entries, mintime, maxtime)
            <= 0x7fff_ffff * count_in(entries, mintime, maxtime),
    decreases entries.len(),
{
    if entries.len() > 0 {
        lemma_sum_bounds(entries.drop_last(), mintime, maxtime);
    }
}

/// The prices of one client, each with its time, in the order in which the
/// times were first recorded. A later price for a time takes the place of the
/// earlier one.
pub struct PriceStore {
    entries: Vec<(i32, i32)>,
}

impl View for PriceStore {
    type V = Seq<(i32, i32)>;

    closed spec fn view(&self) -> Seq<(i32, i32)> {
        self.entries@
    }
}

impl PriceStore {
    /// A store without prices.
    pub fn new() -> (store: PriceStore)
        ensures
            store@ == Seq::<(i32, i32)>::empty(),
    {
        PriceStore { entries: Vec::new() }
    }

    /// Records `price` at `timestamp`, in place of the price that the time
    /// had, if it had one.
    pub fn insert(&mut self, timestamp: i32, price: i32)
        ensures
            final(self)@ == recorded(old(self)@, timestamp, price),
    {
        let mut i: usize = 0;
        while i < self.entries.len()
            invariant
                i <= self.entries.len(),
                *self == *old(self),
                forall|j: int| 0 <= j < i ==> self@[j].0 != timestamp,
            decreases self.entries.len() - i,
        {
            if self.entries[i].0 == timestamp {
                proof {
                    lemma_index_of_time(self@, timestamp, i as int);
                }
                self.entries[i] = (timestamp, price);
                return ;
            }
            i = i + 1;
        }
        proof {
            lemma_index_of_time(self@, timestamp, i as int);
        }
        self.entries.push((timestamp, price));
    }

    /// The mean of the prices recorded for the times `mintime..=maxtime`,
    /// rounded towards zero; zero where there is none.
    pub fn mean(&self, mintime: i32, maxtime: i32) -> (mean: i32)
        ensures
            mean == mean_in(self@, mintime, maxtime),
    {
        let ghost all = self@;
        let mut sum: i128 = 0;
        let mut count: u64 = 0;
        let mut i: usize = 0;
        while i < self.entries.len()
            invariant
                i <= self.entries.len(),
                all == self@,
                sum == sum_in(all.take(i as int), mintime, maxtime),
                count == count_in(all.take(i as int), mintime, maxtime),
            decreases self.entries.len() - i,
        {
            proof {
                assert(all.take(i + 1).drop_last() =~= all.take(i as int));
                lemma_sum_bounds(all.take(i as int), mintime, maxtime);
                lemma_sum_bounds(all.take(i + 1), mintime, maxtime);
            }
            let entry = self.entries[i];
            if mintime <= entry.0 && entry.0 <= maxtime {
                sum = sum + entry.1 as i128;
                count = count + 1;
            }
            i = i + 1;
        }
        proof {
            assert(all.take(i as int) =~= all);
            lemma_sum_bounds(all, mintime, maxtime);
        }
        if count == 0 {
            return 0;
        }
        let mean: i128 = if sum >= 0 {
            sum / (count as i128)
        } else {
            -((-sum) / (count as i128))
        };
        proof {
            lemma_quotient_bounds(sum as int, count as int);
        }
        mean as i32
    }
}

/// The mean of numbers that fit in 32 bits fits in 32 bits.
proof fn lemma_quotient_bounds(sum: int, count: int)
    requires
        count > 0,
        -0x8000_0000 * count <= sum <= 0x7fff_ffff * count,
    ensures
        -0x8000_0000 <= quotient(sum, count) <= 0x7fff_ffff,
{
    if sum >= 0 {
        assert(sum / count <= 0x7fff_ffff) by (nonlinear_arith)
            requires
                count > 0,
                0 <= sum <= 0x7fff_ffff * count,
        ;
        assert(sum / count >= 0) by (nonlinear_arith)
            requires
                count > 0,
                0 <= sum,
        ;
    } else {
        assert((-sum) / count <= 0x8000_0000) by (nonlinear_arith)
            requires
                count > 0,
                0 <= -sum <= 0x8000_0000 * count,
        ;
        assert((-sum) / count >= 0) by (nonlinear_arith)
            requires
                count > 0,
                0 <= -sum,
        ;
    }
}

impl Frame {
    /// Tells whether a whole message lies at the read position. If so the
    /// cursor is moved past it; if not the cursor is left where it was, and the
    /// error says whether more bytes may complete the message or the first byte
    /// is no message's type.
    pub fn check(src: &mut Cursor<'_>) -> (r: Result<(), Error>)
        ensures
            final(src).bytes() == old(src).bytes(),
            match decode_frame(old(src).rest()) {
                Decoded::Frame { len, .. } => r is Ok && final(src).pos() == old(src).pos() + len,
                Decoded::Incomplete => r matches Err(Error::Incomplete) && final(src).pos()
                    == old(src).pos(),
                Decoded::Malformed => r matches Err(Error::Other(text)) && text@ == invalid_type_text(
                    old(src).rest()[0],
                ) && final(src).pos() == old(src).pos(),
            },
    {
        let start: usize = src.position();
        let r = scan_frame(src);
        if r.is_err() {
            src.set_position(start);
        }
        r
    }

    /// Reads the message at the read position. On success the cursor is moved
    /// past the message. Otherwise the cursor is left where it was, and the
    /// error says whether more bytes may complete the message or no message
    /// can start with these bytes.
    pub fn parse(src: &mut Cursor<'_>) -> (r: Result<Frame, Error>)
        ensures
            final(src).bytes() == old(src).bytes(),
            match decode_frame(old(src).rest()) {
                Decoded::Frame { frame, len } => r == Ok::<Frame, Error>(frame) && final(src).pos() == old(src).pos() + len,
                Decoded::Incomplete => r matches Err(Error::Incomplete) && final(src).pos()
                    == old(src).pos(),
                Decoded::Malformed => r matches Err(Error::Other(text)) && text@ == invalid_type_text(
                    old(src).rest()[0],
                ) && final(src).pos() == old(src).pos(),
            },
    {
        let start: usize = src.position();
        let r = read_message(src);
        if r.is_err() {
            src.set_position(start);
        }
        r
    }
}

} // verus!
