use aioc::drivers::rtc::{
    bcd_to_bin, decode, month_short, now, DateTime, RawTime, Rtc, Weekday, REG_STATUS_A,
};

fn date(year: u16, month: u8, day: u8) -> DateTime {
    DateTime { year, month, day, hour: 10, minute: 3, second: 5 }
}

fn chip(r: RawTime, index: u8) -> u8 {
    match index {
        0x80 => r.second,
        0x82 => r.minute,
        0x84 => r.hour,
        0x87 => r.day,
        0x88 => r.month,
        0x89 => r.year,
        0xB2 => r.century,
        0x8A => 0,
        0x8B => r.status_b,
        other => panic!("register {other:x}"),
    }
}

const STILL: RawTime = RawTime {
    second: 0x59,
    minute: 0x30,
    hour: 0x23,
    day: 0x31,
    month: 0x12,
    year: 0x26,
    century: 0x20,
    status_b: 0x02,
};

#[test]
fn weekdays() {
    assert_eq!(date(2024, 2, 29).weekday(), Weekday::Thu);
    assert_eq!(date(2000, 1, 1).weekday(), Weekday::Sat);
    assert_eq!(date(2026, 11, 15).weekday(), Weekday::Sun);
    assert_eq!(date(1970, 1, 1).weekday(), Weekday::Thu);
}

#[test]
fn the_next_day_is_the_next_weekday() {
    let order = [
        Weekday::Mon,
        Weekday::Tue,
        Weekday::Wed,
        Weekday::Thu,
        Weekday::Fri,
        Weekday::Sat,
        Weekday::Sun,
    ];
    let at = |w: Weekday| order.iter().position(|&o| o == w).unwrap();
    for (today, tomorrow) in [
        (date(2023, 12, 31), date(2024, 1, 1)),
        (date(2024, 2, 28), date(2024, 2, 29)),
        (date(2024, 2, 29), date(2024, 3, 1)),
        (date(2100, 2, 28), date(2100, 3, 1)),
        (date(2000, 2, 29), date(2000, 3, 1)),
        (date(2025, 6, 14), date(2025, 6, 15)),
    ] {
        assert_eq!((at(today.weekday()) + 1) % 7, at(tomorrow.weekday()));
    }
}

#[test]
fn names_of_days_and_months() {
    assert_eq!(Weekday::Mon.short(), "Mon");
    assert_eq!(Weekday::Sun.short(), "Sun");
    assert_eq!(month_short(1), "Jan");
    assert_eq!(month_short(12), "Dec");
    assert_eq!(month_short(13), "???");
    assert_eq!(month_short(0), "???");
}

#[test]
fn dates_as_text() {
    assert_eq!(date(2026, 11, 5).to_string(), "Thu Nov  5 10:03:05 UTC 2026");
    assert_eq!(date(2026, 11, 15).to_string(), "Sun Nov 15 10:03:05 UTC 2026");
    assert_eq!(date(2026, 11, 15).clock(), "10:03:05");
}

#[test]
fn binary_coded_decimal() {
    assert_eq!(bcd_to_bin(0x59), 59);
    assert_eq!(bcd_to_bin(0x00), 0);
    assert_eq!(bcd_to_bin(0x0F), 15);
    assert_eq!(bcd_to_bin(0xFF), 165);
}

#[test]
fn registers_become_a_date() {
    let expected =
        DateTime { year: 2026, month: 12, day: 31, hour: 23, minute: 30, second: 59 };
    assert_eq!(decode(STILL), expected);
    let binary = RawTime {
        second: 59,
        minute: 30,
        hour: 23,
        day: 31,
        month: 12,
        year: 26,
        century: 20,
        status_b: 0x06,
    };
    assert_eq!(decode(binary), expected);
}

#[test]
fn twelve_hours() {
    let half = |hour: u8| decode(RawTime { hour, status_b: 0x00, ..STILL }).hour;
    assert_eq!(half(0x12), 0);
    assert_eq!(half(0x01), 1);
    assert_eq!(half(0x92), 12);
    assert_eq!(half(0x81), 13);
    assert_eq!(half(0x91), 23);
}

#[test]
fn a_century_that_makes_no_sense() {
    let year = |century: u8| decode(RawTime { century, ..STILL }).year;
    assert_eq!(year(0x19), 1926);
    assert_eq!(year(0x21), 2126);
    assert_eq!(year(0x00), 2026);
    assert_eq!(year(0xFF), 2026);
    assert_eq!(year(0x22), 2026);
}

#[test]
fn a_clock_that_stands_still_is_read() {
    let mut rtc = Rtc::new();
    let mut reads = 0;
    let got = loop {
        reads += 1;
        let byte = chip(STILL, rtc.index());
        if let Some(time) = now(&mut rtc, byte) {
            break time;
        }
    };
    assert_eq!(got, decode(STILL));
    assert_eq!(reads, 18);
}

#[test]
fn a_clock_that_is_being_set_is_waited_for() {
    let mut rtc = Rtc::new();
    for _ in 0..5 {
        assert_eq!(rtc.index(), REG_STATUS_A | 0x80);
        assert_eq!(rtc.now(0x80), None);
    }
    assert_eq!(rtc.now(0), None);
    assert_eq!(rtc.index(), 0x80);
}

#[test]
fn a_clock_that_ticks_between_two_reads_is_read_again() {
    let later = RawTime { second: 0x00, minute: 0x31, ..STILL };
    let mut rtc = Rtc::new();
    let mut reads = 0;
    let got = loop {
        reads += 1;
        let raw = if reads <= 9 { STILL } else { later };
        let byte = chip(raw, rtc.index());
        if let Some(time) = rtc.now(byte) {
            break time;
        }
    };
    assert_eq!(got, decode(later));
    assert_eq!(reads, 27);
}
