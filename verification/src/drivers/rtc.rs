//! CMOS real-time clock.
//!
//! The clock is read register by register through an index port and a data
//! port. Values may be stored as binary numbers or as packed decimal digits, and
//! hours on a 12-hour or a 24-hour dial; status register B says which.
use vstd::prelude::*;

use crate::text::{decimal, law_two_digits, padded, push_decimal, push_padded};

verus! {

pub const REG_SECOND: u8 = 0x00;

pub const REG_MINUTE: u8 = 0x02;

pub const REG_HOUR: u8 = 0x04;

pub const REG_DAY: u8 = 0x07;

pub const REG_MONTH: u8 = 0x08;

pub const REG_YEAR: u8 = 0x09;

pub const REG_CENTURY: u8 = 0x32;

pub const REG_STATUS_A: u8 = 0x0A;

pub const REG_STATUS_B: u8 = 0x0B;

pub const STATUS_A_UPDATE_IN_PROGRESS: u8 = 0x80;

pub const STATUS_B_24H: u8 = 0x02;

pub const STATUS_B_BINARY: u8 = 0x04;

/// A date and a time of day.
#[derive(Debug, Clone, Copy, PartialEq, Eq, Structural)]
pub struct DateTime {
    pub year: u16,
    pub month: u8,
    pub day: u8,
    pub hour: u8,
    pub minute: u8,
    pub second: u8,
}

/// A day of the week.
#[derive(Debug, Clone, Copy, PartialEq, Eq, Structural)]
pub enum Weekday {
    Mon,
    Tue,
    Wed,
    Thu,
    Fri,
    Sat,
    Sun,
}

// ---------- The calendar ----------

/// How many leap days the years 1 to `y` of the Gregorian calendar have.
pub open spec fn leap_days(y: int) -> int {
    if y < 0 {
        0
    } else {
        y / 4 - y / 100 + y / 400
    }
}

/// How far a month shifts the day of the week.
pub open spec fn month_shift(month: int) -> int {
    if month == 1 {
        0
    } else if month == 2 {
        3
    } else if month == 3 {
        2
    } else if month == 4 {
        5
    } else if month == 5 {
        0
    } else if month == 6 {
        3
    } else if month == 7 {
        5
    } else if month == 8 {
        1
    } else if month == 9 {
        4
    } else if month == 10 {
        6
    } else if month == 11 {
        2
    } else {
        4
    }
}

/// The day of the week as a number, 0 for Sunday.
pub open spec fn weekday_number(year: int, month: int, day: int) -> int {
    let y = if month < 3 {
        year - 1
    } else {
        year
    };
    (y + leap_days(y) + month_shift(month) + day) % 7
}

impl Weekday {
    /// The day's number, 0 for Sunday.
    pub open spec fn number(self) -> int {
        match self {
            Weekday::Sun => 0,
            Weekday::Mon => 1,
            Weekday::Tue => 2,
            Weekday::Wed => 3,
            Weekday::Thu => 4,
            Weekday::Fri => 5,
            Weekday::Sat => 6,
        }
    }

    /// The day's name in three letters.
    pub open spec fn name(self) -> Seq<char> {
        match self {
            Weekday::Mon => "Mon"@,
            Weekday::Tue => "Tue"@,
            Weekday::Wed => "Wed"@,
            Weekday::Thu => "Thu"@,
            Weekday::Fri => "Fri"@,
            Weekday::Sat => "Sat"@,
            Weekday::Sun => "Sun"@,
        }
    }

    /// The day's name in three letters.
    pub fn short(self) -> (r: &'static str)
        ensures
            r@ == self.name(),
    {
        match self {
            Weekday::Mon => "Mon",
            Weekday::Tue => "Tue",
            Weekday::Wed => "Wed",
            Weekday::Thu => "Thu",
            Weekday::Fri => "Fri",
            Weekday::Sat => "Sat",
            Weekday::Sun => "Sun",
        }
    }
}

/// The day of the week with that number.
pub open spec fn weekday_of(n: int) -> Weekday {
    if n == 0 {
        Weekday::Sun
    } else if n == 1 {
        Weekday::Mon
    } else if n == 2 {
        Weekday::Tue
    } else if n == 3 {
        Weekday::Wed
    } else if n == 4 {
        Weekday::Thu
    } else if n == 5 {
        Weekday::Fri
    } else {
        Weekday::Sat
    }
}

/// The month's name in three letters.
pub open spec fn month_name(m: int) -> Seq<char> {
    if m == 1 {
        "Jan"@
    } else if m == 2 {
        "Feb"@
    } else if m == 3 {
        "Mar"@
    } else if m == 4 {
        "Apr"@
    } else if m == 5 {
        "May"@
    } else if m == 6 {
        "Jun"@
    } else if m == 7 {
        "Jul"@
    } else if m == 8 {
        "Aug"@
    } else if m == 9 {
        "Sep"@
    } else if m == 10 {
        "Oct"@
    } else if m == 11 {
        "Nov"@
    } else if m == 12 {
        "Dec"@
    } else {
        "???"@
    }
}

/// The month's name in three letters.
pub fn month_short(m: u8) -> (r: &'static str)
    ensures
        r@ == month_name(m as int),
{
    match m {
        1 => "Jan",
        2 => "Feb",
        3 => "Mar",
        4 => "Apr",
        5 => "May",
        6 => "Jun",
        7 => "Jul",
        8 => "Aug",
        9 => "Sep",
        10 => "Oct",
        11 => "Nov",
        12 => "Dec",
        _ => "???",
    }
}

impl DateTime {
    /// The day of the week.
    pub fn weekday(&self) -> (r: Weekday)
        requires
            1 <= self.month <= 12,
        ensures
            r == weekday_of(
                weekday_number(self.year as int, self.month as int, self.day as int),
            ),
            r.number() == weekday_number(self.year as int, self.month as int, self.day as int),
    {
        let shift: u32 = match self.month {
            1 => 0,
            2 => 3,
            3 => 2,
            4 => 5,
            5 => 0,
            6 => 3,
            7 => 5,
            8 => 1,
            9 => 4,
            10 => 6,
            11 => 2,
            _ => 4,
        };
        let d: u32 = self.day as u32;
        let dow: u32 = if self.month < 3 && self.year == 0 {
            (6 + shift + d) % 7
        } else {
            let y: u32 = if self.month < 3 {
                self.year as u32 - 1
            } else {
                self.year as u32
            };
            (y + y / 4 - y / 100 + y / 400 + shift + d) % 7
        };
        match dow {
            0 => Weekday::Sun,
            1 => Weekday::Mon,
            2 => Weekday::Tue,
            3 => Weekday::Wed,
            4 => Weekday::Thu,
            5 => Weekday::Fri,
            _ => Weekday::Sat,
        }
    }

    /// The text of the date, such as `Sun Feb  2 10:00:00 UTC 2020`.
    pub open spec fn text(self) -> Seq<char> {
        let day = weekday_of(weekday_number(self.year as int, self.month as int, self.day as int));
        day.name() + seq![' '] + month_name(self.month as int) + seq![' '] + padded(
            self.day as nat,
            2,
            ' ',
        ) + seq![' '] + clock_text(self) + " UTC "@ + crate::text::decimal(self.year as nat)
    }

    /// The text of the date.
    pub fn to_string(&self) -> (r: String)
        requires
            1 <= self.month <= 12,
        ensures
            r@ == self.text(),
    {
        let mut s = String::new();
        s.append(self.weekday().short());
        s.push(' ');
        s.append(month_short(self.month));
        s.push(' ');
        push_padded(&mut s, self.day as u64, 2, ' ');
        s.push(' ');
        let clock = self.clock();
        s.append(clock.as_str());
        s.append(" UTC ");
        push_decimal(&mut s, self.year as u64);
        assert(s@ =~= self.text());
        s
    }

    /// The time of day, such as `10:00:00`.
    pub fn clock(&self) -> (r: String)
        ensures
            r@ == clock_text(*self),
    {
        let mut s = String::new();
        push_padded(&mut s, self.hour as u64, 2, '0');
        s.push(':');
        push_padded(&mut s, self.minute as u64, 2, '0');
        s.push(':');
        push_padded(&mut s, self.second as u64, 2, '0');
        assert(s@ =~= clock_text(*self));
        s
    }
}

/// The time of day, two digits each for hours, minutes and seconds.
pub open spec fn clock_text(t: DateTime) -> Seq<char> {
    padded(t.hour as nat, 2, '0') + seq![':'] + padded(t.minute as nat, 2, '0') + seq![':'] + padded(
        t.second as nat,
        2,
        '0',
    )
}

/// Whether the year has a leap day.
pub open spec fn is_leap(year: int) -> bool {
    year % 4 == 0 && (year % 100 != 0 || year % 400 == 0)
}

/// How many days the month has.
pub open spec fn days_in(year: int, month: int) -> int {
    if month == 2 {
        if is_leap(year) {
            29
        } else {
            28
        }
    } else if month == 4 || month == 6 || month == 9 || month == 11 {
        30
    } else {
        31
    }
}

/// The date one day later.
pub open spec fn next_day(year: int, month: int, day: int) -> (int, int, int) {
    if day < days_in(year, month) {
        (year, month, day + 1)
    } else if month < 12 {
        (year, month + 1, 1)
    } else {
        (year + 1, 1, 1)
    }
}

/// The day of the week moves on by one from each date of the calendar to the
/// next, from the year 1 on.
pub proof fn law_next_weekday(year: int, month: int, day: int)
    requires
        year >= 1,
        1 <= month <= 12,
        1 <= day <= days_in(year, month),
    ensures
        ({
            let next = next_day(year, month, day);
            weekday_number(next.0, next.1, next.2) == (weekday_number(year, month, day) + 1) % 7
        }),
{
    lemma_leap_step(year);
}

proof fn lemma_leap_step(year: int)
    requires
        year >= 1,
    ensures
        leap_days(year) == leap_days(year - 1) + if is_leap(year) {
            1int
        } else {
            0int
        },
{
    assert(year / 4 == (year - 1) / 4 + if year % 4 == 0 {
        1int
    } else {
        0int
    });
    assert(year / 100 == (year - 1) / 100 + if year % 100 == 0 {
        1int
    } else {
        0int
    });
    assert(year / 400 == (year - 1) / 400 + if year % 400 == 0 {
        1int
    } else {
        0int
    });
}

// ---------- The registers ----------

/// The registers of one pass over the clock.
#[derive(Debug, Clone, Copy, PartialEq, Eq, Structural)]
pub struct RawTime {
    pub second: u8,
    pub minute: u8,
    pub hour: u8,
    pub day: u8,
    pub month: u8,
    pub year: u8,
    pub century: u8,
    pub status_b: u8,
}

/// The value of two packed decimal digits.
pub open spec fn bcd(v: u8) -> int {
    (v / 16) * 10 + v % 16
}

/// The value of two packed decimal digits.
pub fn bcd_to_bin(v: u8) -> (r: u8)
    ensures
        r == bcd(v),
{
    assert(v & 0x0F == v % 16 && (v >> 4) & 0x0F == v / 16) by (bit_vector);
    (v & 0x0F) + ((v >> 4) & 0x0F) * 10
}

impl RawTime {
    /// Values are stored as binary numbers.
    pub open spec fn binary(self) -> bool {
        self.status_b & 0x04 != 0
    }

    /// The value of a register.
    pub open spec fn value(self, v: u8) -> int {
        if self.binary() {
            v as int
        } else {
            bcd(v)
        }
    }

    /// The hour on a 24-hour dial. On a 12-hour dial the top bit means the
    /// afternoon, and 12 in the morning is midnight.
    pub open spec fn hour24(self) -> int {
        let h = self.value((self.hour % 128) as u8);
        if self.status_b & 0x02 != 0 {
            h
        } else if self.hour >= 128 {
            if h < 12 {
                h + 12
            } else {
                h
            }
        } else if h == 12 {
            0
        } else {
            h
        }
    }

    /// The full year. A century that is not 19 to 21 is taken to be 20.
    pub open spec fn full_year(self) -> int {
        let century = self.value(self.century);
        (if 19 <= century <= 21 {
            century
        } else {
            20
        }) * 100 + self.value(self.year)
    }

    /// The date and time that the registers mean.
    pub open spec fn decoded(self) -> DateTime {
        DateTime {
            year: self.full_year() as u16,
            month: self.value(self.month) as u8,
            day: self.value(self.day) as u8,
            hour: self.hour24() as u8,
            minute: self.value(self.minute) as u8,
            second: self.value(self.second) as u8,
        }
    }
}

fn convert(v: u8, binary: bool) -> (r: u8)
    ensures
        r == if binary {
            v as int
        } else {
            bcd(v)
        },
{
    if binary {
        v
    } else {
        bcd_to_bin(v)
    }
}

/// The date and time that the registers mean.
pub fn decode(raw: RawTime) -> (r: DateTime)
    ensures
        r == raw.decoded(),
        r.year == raw.full_year(),
        r.month == raw.value(raw.month),
        r.day == raw.value(raw.day),
        r.hour == raw.hour24(),
        r.minute == raw.value(raw.minute),
        r.second == raw.value(raw.second),
{
    let binary = raw.status_b & STATUS_B_BINARY != 0;
    let h24 = raw.status_b & STATUS_B_24H != 0;
    let h: u8 = raw.hour;
    assert(h & 0x80 != 0 <==> h >= 128) by (bit_vector);
    assert(h & 0x7F == h % 128) by (bit_vector);
    let pm_bit = h & 0x80 != 0;
    let raw_hour: u8 = h & 0x7F;
    let mut hour: u8 = convert(raw_hour, binary);
    if !h24 && pm_bit && hour < 12 {
        hour += 12;
    }
    if !h24 && !pm_bit && hour == 12 {
        hour = 0;
    }
    let year_lo: u16 = convert(raw.year, binary) as u16;
    let century_raw: u8 = convert(raw.century, binary);
    let century: u16 = if 19 <= century_raw && century_raw <= 21 {
        century_raw as u16
    } else {
        20
    };
    DateTime {
        year: century * 100 + year_lo,
        month: convert(raw.month, binary),
        day: convert(raw.day, binary),
        hour,
        minute: convert(raw.minute, binary),
        second: convert(raw.second, binary),
    }
}

// ---------- Reading the clock ----------

/// The registers of a pass, in the order in which they are read.
pub open spec fn register(k: int) -> u8 {
    if k == 0 {
        REG_SECOND
    } else if k == 1 {
        REG_MINUTE
    } else if k == 2 {
        REG_HOUR
    } else if k == 3 {
        REG_DAY
    } else if k == 4 {
        REG_MONTH
    } else if k == 5 {
        REG_YEAR
    } else if k == 6 {
        REG_CENTURY
    } else {
        REG_STATUS_B
    }
}

/// The registers that a pass has read.
pub open spec fn raw_of(got: Seq<u8>) -> RawTime {
    RawTime {
        second: got[0],
        minute: got[1],
        hour: got[2],
        day: got[3],
        month: got[4],
        year: got[5],
        century: got[6],
        status_b: got[7],
    }
}

/// A reading of the clock: it waits until no update is in progress, reads all
/// registers, and accepts them when two passes in a row agree.
pub struct Rtc {
    /// The pass has not begun: status register A is being polled.
    pub polling: bool,
    /// What the pass has read so far.
    pub got: Vec<u8>,
    /// The pass before.
    pub previous: Option<RawTime>,
}

/// What a reading is.
pub struct RtcModel {
    pub polling: bool,
    pub got: Seq<u8>,
    pub previous: Option<RawTime>,
}

impl View for Rtc {
    type V = RtcModel;

    open spec fn view(&self) -> RtcModel {
        RtcModel { polling: self.polling, got: self.got@, previous: self.previous }
    }
}

impl RtcModel {
    /// A reading that has not begun.
    pub open spec fn start() -> RtcModel {
        RtcModel { polling: true, got: Seq::empty(), previous: None }
    }

    /// The pass is not over, and nothing is read while polling.
    pub open spec fn wf(self) -> bool {
        self.got.len() < 8 && (self.polling ==> self.got.len() == 0)
    }

    /// The register that is read next.
    pub open spec fn wanted(self) -> u8 {
        if self.polling {
            REG_STATUS_A
        } else {
            register(self.got.len() as int)
        }
    }

    /// The reading after the wanted register gave `byte`.
    pub open spec fn after(self, byte: u8) -> RtcModel {
        if self.polling {
            RtcModel { polling: byte >= 128, ..self }
        } else if self.got.len() < 7 {
            RtcModel { got: self.got.push(byte), ..self }
        } else {
            let raw = raw_of(self.got.push(byte));
            RtcModel {
                polling: true,
                got: Seq::empty(),
                previous: if self.previous == Some(raw) {
                    None
                } else {
                    Some(raw)
                },
            }
        }
    }

    /// The time, if `byte` completes a pass that agrees with the one before.
    pub open spec fn answer(self, byte: u8) -> Option<DateTime> {
        if !self.polling && self.got.len() == 7 && self.previous == Some(
            raw_of(self.got.push(byte)),
        ) {
            Some(raw_of(self.got.push(byte)).decoded())
        } else {
            None
        }
    }
}

impl Rtc {
    /// A reading that has not begun.
    pub fn new() -> (r: Self)
        ensures
            r@ == RtcModel::start(),
            r@.wf(),
    {
        Rtc { polling: true, got: Vec::new(), previous: None }
    }

    /// What to write to the index port before the next byte is read from the
    /// data port: the register, with the top bit set to hold off interrupts that
    /// cannot be masked.
    pub fn index(&self) -> (r: u8)
        requires
            self@.wf(),
        ensures
            r == self@.wanted() | 0x80,
    {
        let reg: u8 = if self.polling {
            REG_STATUS_A
        } else {
            match self.got.len() {
                0 => REG_SECOND,
                1 => REG_MINUTE,
                2 => REG_HOUR,
                3 => REG_DAY,
                4 => REG_MONTH,
                5 => REG_YEAR,
                6 => REG_CENTURY,
                _ => REG_STATUS_B,
            }
        };
        reg | 0x80
    }

    /// Takes the byte that was read. The time comes out once two passes in a row
    /// agree.
    pub fn now(&mut self, byte: u8) -> (r: Option<DateTime>)
        requires
            old(self)@.wf(),
        ensures
            final(self)@.wf(),
            final(self)@ == old(self)@.after(byte),
            r == old(self)@.answer(byte),
    {
        if self.polling {
            assert(byte & STATUS_A_UPDATE_IN_PROGRESS != 0 <==> byte >= 128) by (bit_vector);
            self.polling = byte & STATUS_A_UPDATE_IN_PROGRESS != 0;
            return None;
        }
        self.got.push(byte);
        if self.got.len() < 8 {
            return None;
        }
        let next = RawTime {
            second: self.got[0],
            minute: self.got[1],
            hour: self.got[2],
            day: self.got[3],
            month: self.got[4],
            year: self.got[5],
            century: self.got[6],
            status_b: self.got[7],
        };
        self.got = Vec::new();
        self.polling = true;
        let agrees = match self.previous {
            Some(prev) => prev == next,
            None => false,
        };
        if agrees {
            self.previous = None;
            Some(decode(next))
        } else {
            self.previous = Some(next);
            None
        }
    }
}

/// Takes the byte that was read, for the given reading.
pub fn now(rtc: &mut Rtc, byte: u8) -> (r: Option<DateTime>)
    requires
        old(rtc)@.wf(),
    ensures
        final(rtc)@.wf(),
        final(rtc)@ == old(rtc)@.after(byte),
        r == old(rtc)@.answer(byte),
{
    rtc.now(byte)
}

/// The reading after `n` reads of registers whose contents are `cmos`.
pub open spec fn reading(cmos: spec_fn(u8) -> u8, n: nat) -> RtcModel
    decreases n,
{
    if n == 0 {
        RtcModel::start()
    } else {
        let before = reading(cmos, (n - 1) as nat);
        before.after(cmos(before.wanted()))
    }
}

/// A clock that stands still and is not being updated gives its time at the
/// eighteenth read, and nothing before.
pub proof fn law_still_clock(cmos: spec_fn(u8) -> u8)
    requires
        cmos(REG_STATUS_A) < 128,
    ensures
        ({
            let last = reading(cmos, 17);
            last.answer(cmos(last.wanted())) == Some(
                raw_of(Seq::new(8, |k: int| cmos(register(k)))).decoded(),
            )
        }),
        forall|n: nat|
            n < 17 ==> (#[trigger] reading(cmos, n)).answer(cmos(reading(cmos, n).wanted())) is None,
{
    reveal_with_fuel(reading, 18);
    let all = Seq::new(8, |k: int| cmos(register(k)));
    assert forall|n: nat| n <= 8 implies #[trigger] reading(cmos, n) == (RtcModel {
        polling: n == 0,
        got: if n == 0 {
            Seq::empty()
        } else {
            all.take(n - 1)
        },
        previous: None,
    }) by {
        lemma_pass(cmos, n);
    }
    let first = reading(cmos, 8);
    assert(first.got.push(cmos(register(7))) =~= all);
    assert(reading(cmos, 9) == first.after(cmos(first.wanted())));
    assert forall|n: nat| 9 <= n <= 17 implies #[trigger] reading(cmos, n) == (RtcModel {
        polling: n == 9,
        got: if n == 9 {
            Seq::empty()
        } else {
            all.take(n - 10)
        },
        previous: Some(raw_of(all)),
    }) by {
        lemma_second_pass(cmos, n);
    }
    let last = reading(cmos, 17);
    assert(last.got.push(cmos(register(7))) =~= all);
}

proof fn lemma_pass(cmos: spec_fn(u8) -> u8, n: nat)
    requires
        cmos(REG_STATUS_A) < 128,
        n <= 8,
    ensures
        ({
            let all = Seq::new(8, |k: int| cmos(register(k)));
            reading(cmos, n) == (RtcModel {
                polling: n == 0,
                got: if n == 0 {
                    Seq::empty()
                } else {
                    all.take(n - 1)
                },
                previous: None,
            })
        }),
    decreases n,
{
    let all = Seq::new(8, |k: int| cmos(register(k)));
    if n == 1 {
        reveal_with_fuel(reading, 2);
        assert(all.take(0) =~= Seq::empty());
    } else if n > 1 {
        lemma_pass(cmos, (n - 1) as nat);
        assert(all.take(n - 2).push(all[n - 2]) =~= all.take(n - 1));
    }
}

proof fn lemma_second_pass(cmos: spec_fn(u8) -> u8, n: nat)
    requires
        cmos(REG_STATUS_A) < 128,
        9 <= n <= 17,
    ensures
        ({
            let all = Seq::new(8, |k: int| cmos(register(k)));
            reading(cmos, n) == (RtcModel {
                polling: n == 9,
                got: if n == 9 {
                    Seq::empty()
                } else {
                    all.take(n - 10)
                },
                previous: Some(raw_of(all)),
            })
        }),
    decreases n,
{
    let all = Seq::new(8, |k: int| cmos(register(k)));
    if n == 9 {
        lemma_pass(cmos, 8);
        assert(all.take(7).push(all[7]) =~= all);
    } else {
        lemma_second_pass(cmos, (n - 1) as nat);
        if n == 10 {
            assert(all.take(0) =~= Seq::empty());
        } else {
            assert(all.take(n - 11).push(all[n - 11]) =~= all.take(n - 10));
        }
    }
}

// ---------- Laws of the texts ----------

/// The time of day can be read back from its text: two digits for the hour on a dial
/// of twenty-four, two for the minute and two for the second, with colons between
/// them.
pub proof fn law_clock_read_back(t: DateTime)
    requires
        t.hour < 24,
        t.minute < 60,
        t.second < 60,
    ensures
        ({
            let s = clock_text(t);
            &&& s.len() == 8
            &&& s[2] == ':' && s[5] == ':'
            &&& 10 * (s[0] as int - 48) + (s[1] as int - 48) == t.hour
            &&& 10 * (s[3] as int - 48) + (s[4] as int - 48) == t.minute
            &&& 10 * (s[6] as int - 48) + (s[7] as int - 48) == t.second
            &&& forall|i: int|
                0 <= i < 8 && i != 2 && i != 5 ==> '0' <= #[trigger] s[i] <= '9'
        }),
{
    law_two_digits(t.hour as nat);
    law_two_digits(t.minute as nat);
    law_two_digits(t.second as nat);
    let s = clock_text(t);
    let (h, m, x) = (
        padded(t.hour as nat, 2, '0'),
        padded(t.minute as nat, 2, '0'),
        padded(t.second as nat, 2, '0'),
    );
    assert(s[0] == h[0] && s[1] == h[1] && s[3] == m[0] && s[4] == m[1] && s[6] == x[0] && s[7]
        == x[1]);
}

/// Two different times of a day never have the same text.
pub proof fn law_clock_unique(t: DateTime, u: DateTime)
    requires
        t.hour < 24 && t.minute < 60 && t.second < 60,
        u.hour < 24 && u.minute < 60 && u.second < 60,
        clock_text(t) == clock_text(u),
    ensures
        t.hour == u.hour,
        t.minute == u.minute,
        t.second == u.second,
{
    law_clock_read_back(t);
    law_clock_read_back(u);
}

/// The text of a date has each part in its place: the day of the week and the month
/// by the first three letters of their names, the day of the month, the time of
/// day, and the year behind the name of the zone.
pub proof fn law_date_text(t: DateTime)
    requires
        1 <= t.month <= 12,
        1 <= t.day <= 31,
        t.hour < 24,
        t.minute < 60,
        t.second < 60,
    ensures
        ({
            let s = t.text();
            let w = 3 * weekday_number(t.year as int, t.month as int, t.day as int);
            let m = 3 * (t.month - 1);
            &&& s.subrange(0, 3) == "SunMonTueWedThuFriSat"@.subrange(w, w + 3)
            &&& s.subrange(4, 7) == "JanFebMarAprMayJunJulAugSepOctNovDec"@.subrange(m, m + 3)
            &&& s[3] == ' ' && s[7] == ' ' && s[10] == ' '
            &&& if t.day < 10 {
                s[8] == ' ' && s[9] as int - 48 == t.day
            } else {
                10 * (s[8] as int - 48) + (s[9] as int - 48) == t.day
            }
            &&& s.subrange(11, 19) == clock_text(t)
            &&& s.subrange(19, 24) == seq![' ', 'U', 'T', 'C', ' ']
            &&& s.skip(24) == decimal(t.year as nat)
        }),
{
    law_clock_read_back(t);
    let s = t.text();
    let n = weekday_number(t.year as int, t.month as int, t.day as int);
    let name = weekday_of(n).name();
    let month = month_name(t.month as int);
    lemma_week_names(n);
    lemma_month_names(t.month as int);
    let day = padded(t.day as nat, 2, ' ');
    reveal_with_fuel(decimal, 3);
    if t.day < 10 {
        assert(day =~= seq![' ', crate::text::digit(t.day as nat)]);
    } else {
        assert(decimal((t.day / 10) as nat) == seq![crate::text::digit((t.day / 10) as nat)]);
        assert(day =~= seq![
            crate::text::digit((t.day / 10) as nat),
            crate::text::digit((t.day % 10) as nat),
        ]);
    }
    reveal_strlit(" UTC ");
    assert(s.subrange(0, 3) =~= name);
    assert(s.subrange(4, 7) =~= month);
    assert(s[8] == day[0] && s[9] == day[1]);
    assert(s.subrange(11, 19) =~= clock_text(t));
    assert(s.subrange(19, 24) =~= seq![' ', 'U', 'T', 'C', ' ']);
    assert(s.skip(24) =~= decimal(t.year as nat));
}

proof fn lemma_week_names(n: int)
    requires
        0 <= n < 7,
    ensures
        weekday_of(n).name() == "SunMonTueWedThuFriSat"@.subrange(3 * n, 3 * n + 3),
        weekday_of(n).name().len() == 3,
{
    reveal_strlit("SunMonTueWedThuFriSat");
    reveal_strlit("Sun");
    reveal_strlit("Mon");
    reveal_strlit("Tue");
    reveal_strlit("Wed");
    reveal_strlit("Thu");
    reveal_strlit("Fri");
    reveal_strlit("Sat");
    assert(weekday_of(n).name() =~= "SunMonTueWedThuFriSat"@.subrange(3 * n, 3 * n + 3));
}

proof fn lemma_month_names(m: int)
    requires
        1 <= m <= 12,
    ensures
        month_name(m) == "JanFebMarAprMayJunJulAugSepOctNovDec"@.subrange(3 * m - 3, 3 * m),
        month_name(m).len() == 3,
{
    reveal_strlit("JanFebMarAprMayJunJulAugSepOctNovDec");
    reveal_strlit("Jan");
    reveal_strlit("Feb");
    reveal_strlit("Mar");
    reveal_strlit("Apr");
    reveal_strlit("May");
    reveal_strlit("Jun");
    reveal_strlit("Jul");
    reveal_strlit("Aug");
    reveal_strlit("Sep");
    reveal_strlit("Oct");
    reveal_strlit("Nov");
    reveal_strlit("Dec");
    assert(month_name(m) =~= "JanFebMarAprMayJunJulAugSepOctNovDec"@.subrange(3 * m - 3, 3 * m));
}

// ---------- Laws of the calendar ----------

proof fn lemma_leap_cycle(y: int)
    requires
        y >= 0,
    ensures
        leap_days(y + 400) == leap_days(y) + 97,
{
    assert((y + 400) / 4 == y / 4 + 100);
    assert((y + 400) / 100 == y / 100 + 4);
    assert((y + 400) / 400 == y / 400 + 1);
}

/// The calendar repeats itself every four hundred years, day of the week and all.
pub proof fn law_weekday_cycle(year: int, month: int, day: int)
    requires
        year >= 1,
        1 <= month <= 12,
    ensures
        weekday_number(year + 400, month, day) == weekday_number(year, month, day),
        0 <= weekday_number(year, month, day) < 7,
{
    let y = if month < 3 {
        year - 1
    } else {
        year
    };
    lemma_leap_cycle(y);
    let n = y + leap_days(y) + month_shift(month) + day;
    assert((n + 497) % 7 == n % 7);
}

/// Each cycle of four hundred years of the calendar begins with a Monday.
pub proof fn law_cycle_begins(k: int)
    requires
        0 <= k,
    ensures
        weekday_of(weekday_number(400 * k + 1, 1, 1)) == Weekday::Mon,
    decreases k,
{
    if k > 0 {
        law_cycle_begins(k - 1);
        law_weekday_cycle(400 * (k - 1) + 1, 1, 1);
        assert(400 * (k - 1) + 1 + 400 == 400 * k + 1);
        let n = weekday_number(400 * (k - 1) + 1, 1, 1);
        assert(weekday_of(n) == Weekday::Mon);
    } else {
        assert(leap_days(0) == 0);
    }
}

/// A day of the week is found again by its number.
pub proof fn law_week(n: int)
    requires
        0 <= n < 7,
    ensures
        weekday_of(n).number() == n,
{
}

/// The months have the days that everybody knows, and a year has one more in every
/// fourth year but the whole centuries that are not divisible by four hundred.
pub proof fn law_year_length(year: int)
    ensures
        days_in(year, 1) + days_in(year, 2) + days_in(year, 3) + days_in(year, 4) + days_in(
            year,
            5,
        ) + days_in(year, 6) + days_in(year, 7) + days_in(year, 8) + days_in(year, 9) + days_in(
            year,
            10,
        ) + days_in(year, 11) + days_in(year, 12) == if year % 400 == 0 || (year % 4 == 0 && year
            % 100 != 0) {
            366int
        } else {
            365int
        },
        forall|m: int| 1 <= m <= 12 && m != 2 ==> 30 <= #[trigger] days_in(year, m) <= 31,
        28 <= days_in(year, 2) <= 29,
{
}

// ---------- Laws of the registers ----------

/// A number below a hundred as a register holds it: two packed digits, or in binary.
#[verifier::opaque]
pub open spec fn stored(n: int, binary: bool) -> u8 {
    if binary {
        n as u8
    } else {
        (n / 10 * 16 + n % 10) as u8
    }
}

/// Every date of the twentieth to the twenty-second century and every time of the
/// day is read as what it is, whether the registers hold packed digits or binary
/// numbers, and whether the hours are counted to twenty-four, or to twelve with the
/// top bit for the afternoon.
pub proof fn law_time_decoded(t: DateTime, status_b: u8)
    requires
        1900 <= t.year < 2200,
        1 <= t.month <= 12,
        1 <= t.day <= 31,
        t.hour < 24,
        t.minute < 60,
        t.second < 60,
    ensures
        ({
            let binary = status_b & 4 != 0;
            let dial = if t.hour % 12 == 0 {
                12
            } else {
                t.hour % 12
            };
            let raw = RawTime {
                second: stored(t.second as int, binary),
                minute: stored(t.minute as int, binary),
                hour: if status_b & 2 != 0 {
                    stored(t.hour as int, binary)
                } else if t.hour >= 12 {
                    (stored(dial as int, binary) + 128) as u8
                } else {
                    stored(dial as int, binary)
                },
                day: stored(t.day as int, binary),
                month: stored(t.month as int, binary),
                year: stored(t.year as int % 100, binary),
                century: stored(t.year as int / 100, binary),
                status_b,
            };
            raw.decoded() == t
        }),
{
    let binary = status_b & 4 != 0;
    let dial = if t.hour % 12 == 0 {
        12
    } else {
        t.hour % 12
    };
    let raw = RawTime {
        second: stored(t.second as int, binary),
        minute: stored(t.minute as int, binary),
        hour: if status_b & 2 != 0 {
            stored(t.hour as int, binary)
        } else if t.hour >= 12 {
            (stored(dial as int, binary) + 128) as u8
        } else {
            stored(dial as int, binary)
        },
        day: stored(t.day as int, binary),
        month: stored(t.month as int, binary),
        year: stored(t.year as int % 100, binary),
        century: stored(t.year as int / 100, binary),
        status_b,
    };
    lemma_stored(raw, t.second as int);
    lemma_stored(raw, t.minute as int);
    lemma_stored(raw, t.day as int);
    lemma_stored(raw, t.month as int);
    lemma_stored(raw, t.year as int % 100);
    lemma_stored(raw, t.year as int / 100);
    lemma_hour_stored(raw, t.hour as int);
    assert(raw.full_year() == t.year);
}

proof fn lemma_stored(raw: RawTime, n: int)
    requires
        0 <= n < 100,
    ensures
        raw.value(stored(n, raw.binary())) == n,
        n < 60 ==> stored(n, raw.binary()) < 128,
{
    reveal(stored);
}

proof fn lemma_hour_stored(raw: RawTime, hour: int)
    requires
        0 <= hour < 24,
        ({
            let dial = if hour % 12 == 0 {
                12
            } else {
                hour % 12
            };
            raw.hour == if raw.status_b & 2 != 0 {
                stored(hour, raw.binary())
            } else if hour >= 12 {
                (stored(dial, raw.binary()) + 128) as u8
            } else {
                stored(dial, raw.binary())
            }
        }),
    ensures
        raw.hour24() == hour,
{
    let dial = if hour % 12 == 0 {
        12
    } else {
        hour % 12
    };
    lemma_stored(raw, hour);
    lemma_stored(raw, dial);
    let v = stored(dial, raw.binary());
    assert(((v + 128) as u8) % 128 == v);
}

/// The registers of the clock are those of the machine: what a still clock gives is
/// the time in the registers 0, 2, 4, 7, 8, 9 and 50 in the format of register 11,
/// read while the top bit of register 10 is off.
pub proof fn law_registers_read(cmos: spec_fn(u8) -> u8)
    requires
        cmos(10) < 128,
    ensures
        ({
            let last = reading(cmos, 17);
            last.answer(cmos(last.wanted())) == Some(
                RawTime {
                    second: cmos(0),
                    minute: cmos(2),
                    hour: cmos(4),
                    day: cmos(7),
                    month: cmos(8),
                    year: cmos(9),
                    century: cmos(50),
                    status_b: cmos(11),
                }.decoded(),
            )
        }),
{
    law_still_clock(cmos);
    let all = Seq::new(8, |k: int| cmos(register(k)));
    assert(all[0] == cmos(0) && all[1] == cmos(2) && all[2] == cmos(4) && all[3] == cmos(7)
        && all[4] == cmos(8) && all[5] == cmos(9) && all[6] == cmos(50) && all[7] == cmos(11));
}

/// While an update is in progress nothing is read, and a pass that differs from the
/// one before is not believed.
pub proof fn law_no_torn_reading(m: RtcModel, byte: u8)
    requires
        m.wf(),
    ensures
        m.polling && byte >= 128 ==> m.after(byte) == m,
        m.polling ==> m.answer(byte) is None,
        m.got.len() < 7 ==> m.answer(byte) is None,
        m.answer(byte) is Some ==> m.previous == Some(raw_of(m.got.push(byte))),
{
}

/// A century that the clock cannot mean is taken to be the present one.
pub proof fn law_century(raw: RawTime)
    ensures
        !(19 <= raw.value(raw.century) <= 21) ==> raw.full_year() == 2000 + raw.value(raw.year),
        19 <= raw.value(raw.century) <= 21 ==> raw.full_year() == 100 * raw.value(raw.century)
            + raw.value(raw.year),
{
}

} // verus!
