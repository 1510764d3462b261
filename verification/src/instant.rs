//! Instants of time, and their RFC 3339 text.
//!
//! An instant is kept as the two numbers that order it: the seconds since the
//! Unix epoch and the nanoseconds within that second. Calendar arithmetic and
//! text are left to `chrono`.

use vstd::prelude::*;

verus! {

/// The instants that `chrono` can represent. A nanosecond count of a thousand
/// million or more marks a leap second, which only the last second of a minute
/// can have.
pub open spec fn representable(seconds: int, nanos: int) -> bool {
    &&& -8_334_601_228_800 <= seconds <= 8_210_266_876_799
    &&& 0 <= nanos < 2_000_000_000
    &&& nanos >= 1_000_000_000 ==> seconds % 60 == 59
}

/// The instants from the year 0 to the year 9999, whose RFC 3339 text has a
/// year of four digits.
pub open spec fn four_digit_year(seconds: int) -> bool {
    -62_167_219_200 <= seconds <= 253_402_300_799
}

/// `a` is no later than `b`.
pub open spec fn no_later(a: (int, int), b: (int, int)) -> bool {
    a.0 < b.0 || (a.0 == b.0 && a.1 <= b.1)
}

/// `at` lies in the half-open interval from `from` to `to`.
pub open spec fn within(from: (int, int), to: (int, int), at: (int, int)) -> bool {
    no_later(from, at) && !no_later(to, at)
}

/// No instants are the last: there is one that none of them comes after.
pub proof fn lemma_later_instant(instants: Seq<(int, int)>) -> (t: (int, int))
    ensures
        forall|i: int| 0 <= i < instants.len() ==> no_later(#[trigger] instants[i], t),
    decreases instants.len(),
{
    if instants.len() == 0 {
        (0, 0)
    } else {
        let front = instants.drop_last();
        let last = instants.last();
        let t = lemma_later_instant(front);
        let u = if no_later(t, last) {
            last
        } else {
            t
        };
        assert forall|i: int| 0 <= i < instants.len() implies no_later(
            #[trigger] instants[i],
            u,
        ) by {
            if i < front.len() {
                assert(front[i] == instants[i]);
            }
        }
        u
    }
}

/// An instant of time in UTC.
#[derive(Clone, Copy, Debug, PartialEq, Eq)]
pub struct Timestamp {
    seconds: i64,
    nanos: u32,
}

impl View for Timestamp {
    type V = (int, int);

    closed spec fn view(&self) -> (int, int) {
        (self.seconds as int, self.nanos as int)
    }
}

/// What `chrono` reads in a text: the instant, or the message of its error.
pub uninterp spec fn rfc3339_reading(text: Seq<char>) -> Result<(int, int), Seq<char>>;

/// The RFC 3339 text that `chrono` writes for an instant.
pub uninterp spec fn rfc3339_text(seconds: int, nanos: int) -> Seq<char>;

/// The text that `chrono` shows for an instant.
pub uninterp spec fn shown_text(seconds: int, nanos: int) -> Seq<char>;

/// `chrono::DateTime::parse_from_rfc3339`, taken to UTC. What it makes of a
/// text depends on that text alone: a representable instant, or an error with
/// its message.
#[verifier::external_body]
fn read_rfc3339(text: &str) -> (r: Result<(i64, u32), String>)
    ensures
        match r {
            Ok(p) => {
                &&& rfc3339_reading(text@) is Ok
                &&& rfc3339_reading(text@)->Ok_0 == (p.0 as int, p.1 as int)
                &&& representable(p.0 as int, p.1 as int)
            },
            Err(m) => rfc3339_reading(text@) is Err && rfc3339_reading(text@)->Err_0 == m@,
        },
{
    match chrono::DateTime::parse_from_rfc3339(text) {
        Ok(t) => Ok((t.timestamp(), t.timestamp_subsec_nanos())),
        Err(e) => Err(e.to_string()),
    }
}

/// `chrono::DateTime::to_rfc3339`. The text depends on the instant alone, and
/// `parse_from_rfc3339` reads it back where the year has four digits.
#[verifier::external_body]
fn write_rfc3339(seconds: i64, nanos: u32) -> (r: String)
    requires
        representable(seconds as int, nanos as int),
    ensures
        r@ == rfc3339_text(seconds as int, nanos as int),
        four_digit_year(seconds as int) ==> rfc3339_reading(r@) is Ok && rfc3339_reading(r@)->Ok_0
            == (seconds as int, nanos as int),
{
    chrono::DateTime::from_timestamp(seconds, nanos).unwrap().to_rfc3339()
}

/// The `Display` text of `chrono::DateTime<Utc>`, which depends on the instant
/// alone.
#[verifier::external_body]
fn show(seconds: i64, nanos: u32) -> (r: String)
    requires
        representable(seconds as int, nanos as int),
    ensures
        r@ == shown_text(seconds as int, nanos as int),
{
    chrono::DateTime::from_timestamp(seconds, nanos).unwrap().to_string()
}

/// `chrono::Utc::now`: some representable instant.
#[verifier::external_body]
fn read_clock() -> (r: (i64, u32))
    ensures
        representable(r.0 as int, r.1 as int),
{
    let t = chrono::Utc::now();
    (t.timestamp(), t.timestamp_subsec_nanos())
}

impl Timestamp {
    #[verifier::type_invariant]
    spec fn well_formed(self) -> bool {
        representable(self.seconds as int, self.nanos as int)
    }

    /// The instant `nanos` nanoseconds after `seconds` seconds since the Unix
    /// epoch, if it is representable.
    pub fn new(seconds: i64, nanos: u32) -> (r: Option<Timestamp>)
        ensures
            match r {
                Some(t) => representable(seconds as int, nanos as int) && t@ == (
                    seconds as int,
                    nanos as int,
                ),
                None => !representable(seconds as int, nanos as int),
            },
    {
        if seconds < -8_334_601_228_800 || seconds > 8_210_266_876_799 || nanos >= 2_000_000_000 {
            return None;
        }
        let within_minute: i64 = if seconds >= 0 {
            seconds % 60
        } else {
            59 - (-(seconds + 1)) % 60
        };
        if nanos >= 1_000_000_000 && within_minute != 59 {
            return None;
        }
        Some(Timestamp { seconds, nanos })
    }

    /// The current time.
    pub fn now() -> (r: Timestamp)
        ensures
            representable(r@.0, r@.1),
    {
        let (seconds, nanos) = read_clock();
        Timestamp { seconds, nanos }
    }

    /// Reads an RFC 3339 text; an error comes with its message.
    pub fn from_rfc3339(text: &str) -> (r: Result<Timestamp, String>)
        ensures
            match r {
                Ok(t) => rfc3339_reading(text@) is Ok && rfc3339_reading(text@)->Ok_0 == t@,
                Err(m) => rfc3339_reading(text@) is Err && rfc3339_reading(text@)->Err_0 == m@,
            },
    {
        match read_rfc3339(text) {
            Ok((seconds, nanos)) => Ok(Timestamp { seconds, nanos }),
            Err(message) => Err(message),
        }
    }

    /// The RFC 3339 text of the instant, from which it can be read back where
    /// the year has four digits.
    pub fn to_rfc3339(&self) -> (r: String)
        ensures
            r@ == rfc3339_text(self@.0, self@.1),
            four_digit_year(self@.0) ==> rfc3339_reading(r@) is Ok && rfc3339_reading(r@)->Ok_0
                == self@,
    {
        proof {
            use_type_invariant(self);
        }
        write_rfc3339(self.seconds, self.nanos)
    }

    /// The instant as shown in messages.
    pub fn shown(&self) -> (r: String)
        ensures
            r@ == shown_text(self@.0, self@.1),
    {
        proof {
            use_type_invariant(self);
        }
        show(self.seconds, self.nanos)
    }

    pub fn seconds(&self) -> (r: i64)
        ensures
            r == self@.0,
    {
        self.seconds
    }

    pub fn nanos(&self) -> (r: u32)
        ensures
            r == self@.1,
    {
        self.nanos
    }

    pub fn is_no_later_than(&self, other: &Timestamp) -> (r: bool)
        ensures
            r == no_later(self@, other@),
    {
        self.seconds < other.seconds || (self.seconds == other.seconds && self.nanos
            <= other.nanos)
    }

    /// Whether the instant lies in the half-open interval from `from` to `to`.
    pub fn is_within(&self, from: &Timestamp, to: &Timestamp) -> (r: bool)
        ensures
            r == within(from@, to@, self@),
    {
        from.is_no_later_than(self) && !to.is_no_later_than(self)
    }
}

} // verus!
