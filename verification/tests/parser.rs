use tix_api::swish::{decode_1252, parse_transactions, read, read_latin1, Amount, ParseError};

use time_tz::PrimitiveDateTimeExt;
/// The instant a naive report date and time denote: the naive value read as
/// UTC, then expressed in the event's timezone, computed here independently
/// through the timezone crates.
fn expected_instant(y: i32, mo: u8, d: u8, h: u8, mi: u8) -> i64 {
    let date = time::Date::from_calendar_date(y, time::Month::try_from(mo).unwrap(), d).unwrap();
    let dt = date.with_hms(h, mi, 0).unwrap();
    dt.assume_timezone_utc(time_tz::timezones::db::europe::STOCKHOLM)
        .unix_timestamp()
}

fn encode_1252(text: &str) -> Vec<u8> {
    let (bytes, _, _) = encoding_rs::WINDOWS_1252.encode(text);
    bytes.into_owned()
}

const HEADER: &str = "Transdag,Mottagarnr,Mottagarnamn,Avsändarnr,Avsändarnamn,Meddelande,Tid,Belopp";

#[test]
fn decoding_agrees_with_the_reference_decoder_on_every_byte() {
    let all: Vec<u8> = (0u16..256).map(|b| b as u8).collect();
    let mine: String = decode_1252(&all).into_iter().collect();
    let (theirs, _, _) = encoding_rs::WINDOWS_1252.decode(&all);
    assert_eq!(mine, theirs);
}

#[test]
fn a_whole_report_parses_to_normalized_records() {
    let text = format!(
        "* Swish-rapport Avser 2024-01-01 - 2024-01-10 Skapad 2024-01-10 12:23 CET\r\n\
         {HEADER}\r\n\
         2024-07-01,123-345 69 51,Förening,0701234567,Kalle Påve,ABCD2345,12:00,115.00\r\n\
         2024-01-01,123-345 69 51,Förening,0707654321,\"Svensson, Åsa\",\"Sagt \"\"hej\"\"\",09:30,-3.50\r\n"
    );
    let bytes = encode_1252(&text);
    let txs = parse_transactions(&bytes).unwrap();
    assert_eq!(txs.len(), 2);

    let first = &txs[0];
    assert_eq!(first.message, "ABCD2345");
    assert_eq!(first.amount, Amount { mantissa: 11500, scale: 2 });
    assert_eq!(first.payor.phone, "0701234567");
    assert_eq!(first.payor.name, "Kalle Påve");
    assert_eq!(first.payee.phone, "123-345 69 51");
    assert_eq!(first.payee.name, "Förening");
    assert_eq!(first.time, expected_instant(2024, 7, 1, 12, 0));

    let second = &txs[1];
    assert_eq!(second.payor.name, "Svensson, Åsa");
    assert_eq!(second.message, "Sagt \"hej\"");
    assert_eq!(second.amount, Amount { mantissa: -350, scale: 2 });
    assert_eq!(second.time, expected_instant(2024, 1, 1, 9, 30));
}

#[test]
fn summer_and_winter_offsets_differ() {
    // If the timezone lookup were ignored, these two instants would be
    // exactly 182 days apart; Stockholm's daylight saving makes the summer
    // instant an hour earlier.
    let summer = expected_instant(2024, 7, 1, 12, 0);
    let winter = expected_instant(2024, 1, 1, 12, 0);
    // Noon naive reads as 10:00 UTC in July (offset +02:00) and as 11:00
    // UTC in January (offset +01:00).
    assert_eq!(summer.rem_euclid(86400), 10 * 3600);
    assert_eq!(winter.rem_euclid(86400), 11 * 3600);
    let text = format!(
        "{HEADER}\n2024-07-01,a,b,c,d,X,12:00,1\n2024-01-01,a,b,c,d,X,12:00,1\n"
    );
    let txs = parse_transactions(&encode_1252(&text)).unwrap();
    assert_eq!(txs[0].time, summer);
    assert_eq!(txs[1].time, winter);
}

#[test]
fn field_splitting_agrees_with_a_reference_reader() {
    let data = "a,b\n1,\"x,\"\"y\"\"\"\n2,plain\n";
    let rows = {
        let mut rdr = csv::Reader::from_reader(data.as_bytes());
        rdr.records()
            .map(|r| {
                let rec = r.unwrap();
                (rec[0].to_string(), rec[1].to_string())
            })
            .collect::<Vec<_>>()
    };
    // The same text fed through the library's splitter, via the message
    // column of a minimal schema.
    let text = format!(
        "Transdag,Mottagarnr,Mottagarnamn,Avsändarnr,Avsändarnamn,Meddelande,Tid,Belopp\n\
         2024-01-01,a,b,c,d,\"x,\"\"y\"\"\",10:00,1\n\
         2024-01-01,a,b,c,d,plain,10:00,2\n"
    );
    let txs = parse_transactions(&encode_1252(&text)).unwrap();
    assert_eq!(txs[0].message, rows[0].1);
    assert_eq!(txs[1].message, rows[1].1);
}

#[test]
fn amounts_agree_with_a_reference_decimal_parser() {
    for s in ["115", "115.00", "-3.50", "0.5", "12345678.9"] {
        let text = format!("{HEADER}\n2024-01-01,a,b,c,d,X,10:00,{s}\n");
        let txs = parse_transactions(&encode_1252(&text)).unwrap();
        let mine = rust_decimal::Decimal::new(txs[0].amount.mantissa, txs[0].amount.scale);
        let theirs: rust_decimal::Decimal = s.parse().unwrap();
        assert_eq!(mine, theirs);
    }
}

#[test]
fn exact_amount_comparison() {
    assert!(Amount { mantissa: 11500, scale: 2 }.equals_i32(115));
    assert!(Amount { mantissa: 115, scale: 0 }.equals_i32(115));
    assert!(!Amount { mantissa: 11550, scale: 2 }.equals_i32(115));
    assert!(!Amount { mantissa: 1150, scale: 0 }.equals_i32(115));
    assert!(!Amount { mantissa: -350, scale: 2 }.equals_i32(-3));
    assert!(Amount { mantissa: -300, scale: 2 }.equals_i32(-3));
    assert!(Amount { mantissa: 0, scale: 29 }.equals_i32(0));
    assert!(!Amount { mantissa: 1, scale: 29 }.equals_i32(1));
}

#[test]
fn empty_and_header_only_reports_are_empty() {
    assert_eq!(parse_transactions(b"").unwrap().len(), 0);
    let header_only = encode_1252(&format!("{HEADER}\n"));
    assert_eq!(parse_transactions(&header_only).unwrap().len(), 0);
    // A note line with no line break stands as the only record: still no rows.
    assert_eq!(parse_transactions(b"* note without newline").unwrap().len(), 0);
}

#[test]
fn malformed_rows_fail_the_whole_report() {
    let bad_date = format!("{HEADER}\n2024-13-01,a,b,c,d,X,10:00,1\n");
    assert_eq!(parse_transactions(&encode_1252(&bad_date)).unwrap_err(), ParseError::BadDate);

    let bad_day = format!("{HEADER}\n2023-02-29,a,b,c,d,X,10:00,1\n");
    assert_eq!(parse_transactions(&encode_1252(&bad_day)).unwrap_err(), ParseError::BadDate);

    let bad_time = format!("{HEADER}\n2024-01-01,a,b,c,d,X,25:00,1\n");
    assert_eq!(parse_transactions(&encode_1252(&bad_time)).unwrap_err(), ParseError::BadTime);

    let bad_number = format!("{HEADER}\n2024-01-01,a,b,c,d,X,10:00,abc\n");
    assert_eq!(parse_transactions(&encode_1252(&bad_number)).unwrap_err(), ParseError::BadNumber);

    let short_row = format!("{HEADER}\n2024-01-01,a,b\n");
    assert_eq!(parse_transactions(&encode_1252(&short_row)).unwrap_err(), ParseError::UnequalRow);

    let missing_column = "Transdag,Mottagarnr,Mottagarnamn,Avsändarnr,Avsändarnamn,Meddelande,Tid\n\
                          2024-01-01,a,b,c,d,X,10:00\n";
    assert_eq!(
        parse_transactions(&encode_1252(missing_column)).unwrap_err(),
        ParseError::MissingColumn
    );
}

#[test]
fn leap_years_are_calendar_correct() {
    let leap = format!("{HEADER}\n2024-02-29,a,b,c,d,X,10:00,1\n");
    assert!(parse_transactions(&encode_1252(&leap)).is_ok());
    let century = format!("{HEADER}\n2000-02-29,a,b,c,d,X,10:00,1\n");
    assert!(parse_transactions(&encode_1252(&century)).is_ok());
    let non_leap_century = format!("{HEADER}\n1900-02-29,a,b,c,d,X,10:00,1\n");
    assert_eq!(
        parse_transactions(&encode_1252(&non_leap_century)).unwrap_err(),
        ParseError::BadDate
    );
}

#[test]
fn read_accepts_decoded_text() {
    let text = format!("{HEADER}\n2024-01-01,nr1,Payee,nr2,Payor,HELLO123,10:00,115\n");
    let rows = read(&text).unwrap();
    assert_eq!(rows.len(), 1);
    assert_eq!(rows[0].meddelande, "HELLO123");
    assert_eq!(rows[0].transdag.year, 2024);
    assert_eq!(rows[0].tid.hour, 10);
    assert_eq!(rows[0].belopp, Amount { mantissa: 115, scale: 0 });

    let rows2 = read_latin1(&encode_1252(&text)).unwrap();
    assert_eq!(rows2.len(), 1);
    assert_eq!(rows2[0].mottagarnamn, "Payee");
}

#[test]
fn column_order_does_not_matter() {
    let text = "Belopp,Tid,Meddelande,Avsändarnamn,Avsändarnr,Mottagarnamn,Mottagarnr,Transdag\n\
                115.00,10:00,CODE1234,Payor,nr2,Payee,nr1,2024-01-01\n";
    let txs = parse_transactions(&encode_1252(text)).unwrap();
    assert_eq!(txs[0].message, "CODE1234");
    assert!(txs[0].amount.equals_i32(115));
}
