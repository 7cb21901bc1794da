use dayone_org::DecodeError;
use dayone_org::dates;
use dayone_org::day_one::{Entry, Journal, Location, Metadata, Music, Photo, Weather, get_moon};
use dayone_org::text::u32_string;
use dayone_org::time_tree::Root;

fn ts(s: &str) -> dates::Timestamp {
    dates::deserialize(s).unwrap()
}

fn bare_entry(date: &str) -> Entry {
    Entry {
        creation_date: ts(date),
        text: None,
        location: None,
        weather: None,
        music: None,
        photos: None,
        converted: None,
    }
}

#[test]
fn timestamp_parses_exact_fields() {
    let t = ts("2021-03-05T10:11:12Z");
    assert_eq!(t.year, 2021);
    assert_eq!(t.month, 3);
    assert_eq!(t.day, 5);
    assert_eq!(t.hour, 10);
    assert_eq!(t.minute, 11);
    assert_eq!(t.second, 12);
    assert!(t.check());
}

#[test]
fn timestamp_rejects_deviations() {
    assert_eq!(dates::deserialize("2021-03-05 10:11:12Z"), Err(DecodeError::Timestamp));
    assert_eq!(dates::deserialize("2021-03-05T10:11:12"), Err(DecodeError::Timestamp));
    assert_eq!(dates::deserialize("2021-3-5T10:11:12Z"), Err(DecodeError::Timestamp));
    assert_eq!(dates::deserialize("2021-03-05T10:11:12.000Z"), Err(DecodeError::Timestamp));
    assert_eq!(dates::deserialize(""), Err(DecodeError::Timestamp));
    assert_eq!(dates::deserialize("2021-13-05T10:11:12Z"), Err(DecodeError::Timestamp));
    assert_eq!(dates::deserialize("2021-00-05T10:11:12Z"), Err(DecodeError::Timestamp));
    assert_eq!(dates::deserialize("2021-03-32T10:11:12Z"), Err(DecodeError::Timestamp));
    assert_eq!(dates::deserialize("2021-03-05T24:11:12Z"), Err(DecodeError::Timestamp));
    assert_eq!(dates::deserialize("2021-03-05T10:60:12Z"), Err(DecodeError::Timestamp));
    assert_eq!(dates::deserialize("2021-03-05T10:11:60Z"), Err(DecodeError::Timestamp));
}

#[test]
fn timestamp_knows_leap_years() {
    assert!(dates::deserialize("2020-02-29T00:00:00Z").is_ok());
    assert_eq!(dates::deserialize("2019-02-29T00:00:00Z"), Err(DecodeError::Timestamp));
    assert_eq!(dates::deserialize("1900-02-29T00:00:00Z"), Err(DecodeError::Timestamp));
    assert!(dates::deserialize("2000-02-29T00:00:00Z").is_ok());
    assert_eq!(dates::deserialize("2021-04-31T00:00:00Z"), Err(DecodeError::Timestamp));
}

#[test]
fn decimal_rendering() {
    assert_eq!(u32_string(0), "0");
    assert_eq!(u32_string(7), "7");
    assert_eq!(u32_string(12), "12");
    assert_eq!(u32_string(2021), "2021");
}

#[test]
fn moon_table_has_eight_glyphs() {
    assert_eq!(get_moon("new").unwrap(), "\u{1F311}");
    assert_eq!(get_moon("waning-crescent").unwrap(), "\u{1F318}");
    assert_eq!(get_moon("last-quarter").unwrap(), "\u{1F317}");
    assert_eq!(get_moon("waning-gibbous").unwrap(), "\u{1F316}");
    assert_eq!(get_moon("full").unwrap(), "\u{1F315}");
    assert_eq!(get_moon("waxing-gibbous").unwrap(), "\u{1F314}");
    assert_eq!(get_moon("first-quarter").unwrap(), "\u{1F313}");
    assert_eq!(get_moon("waxing-crescent").unwrap(), "\u{1F312}");
}

#[test]
fn unknown_moon_phase_is_fatal() {
    assert_eq!(get_moon("eclipse"), Err(DecodeError::MoonPhase));
    let mut e = bare_entry("2021-03-05T10:00:00Z");
    e.weather = Some(Weather {
        conditions_description: None,
        moon_phase_code: Some("eclipse".to_string()),
    });
    assert_eq!(e.properties(), Err(DecodeError::MoonPhase));
    let journal = Journal { metadata: Metadata { version: "1.0".to_string() }, entries: vec![e] };
    let root = Root::from(journal);
    assert_eq!(root.print(), Err(DecodeError::MoonPhase));
}

#[test]
fn property_set_equivalence() {
    let mut e = bare_entry("2021-03-05T10:00:00Z");
    e.weather = Some(Weather {
        conditions_description: Some("Cloudy".to_string()),
        moon_phase_code: Some("full".to_string()),
    });
    e.music = Some(Music {
        artist: "Boards of Canada".to_string(),
        track: "Roygbiv".to_string(),
    });
    e.location = Some(Location {
        longitude: "-0.12".to_string(),
        latitude: "51.5".to_string(),
        place_name: "London".to_string(),
    });
    let props = e.properties().unwrap();
    let expected = [
        ("Moon", "\u{1F315}"),
        ("Weather", "Cloudy"),
        ("Music", "Boards of Canada \u{2014} Roygbiv"),
        ("Latitude", "51.5"),
        ("Longitude", "-0.12"),
        ("Location", "London"),
    ];
    assert_eq!(props.len(), expected.len());
    for (k, v) in expected.iter() {
        assert!(
            props.iter().any(|p| p.0 == *k && p.1 == *v),
            "missing property {}: {}",
            k,
            v
        );
    }
}

#[test]
fn properties_empty_without_subrecords() {
    let e = bare_entry("2021-03-05T10:00:00Z");
    assert_eq!(e.properties().unwrap().len(), 0);
}

#[test]
fn title_strips_heading_marker() {
    let mut e = bare_entry("2021-03-05T10:00:00Z");
    e.text = Some("### Morning walk\nrest of text".to_string());
    assert_eq!(e.title(None), Some("Morning walk".to_string()));
    e.text = Some("plain line".to_string());
    assert_eq!(e.title(None), Some("plain line".to_string()));
}

#[test]
fn title_replaces_photo_placeholder() {
    let mut e = bare_entry("2021-03-05T10:00:00Z");
    e.text = Some("![](dayone-moment://ABC)".to_string());
    let link = Some("[[./images/abc123.jpg]]".to_string());
    assert_eq!(e.title(link), Some("[[./images/abc123.jpg]]".to_string()));
}

#[test]
fn title_none_for_missing_or_empty_text() {
    let mut e = bare_entry("2021-03-05T10:00:00Z");
    assert_eq!(e.title(None), None);
    e.text = Some(String::new());
    assert_eq!(e.title(None), None);
}

#[test]
fn empty_title_renders_as_empty() {
    let e = bare_entry("2021-03-05T10:00:00Z");
    let journal = Journal { metadata: Metadata { version: "1.0".to_string() }, entries: vec![e] };
    let out = Root::from(journal).print().unwrap();
    assert!(out.contains("**** Empty\n"), "output was: {}", out);
}

#[test]
fn photo_link_format() {
    let p = Photo {
        md5: "abc123".to_string(),
        file_extension: "jpg".to_string(),
        order_in_entry: 1,
    };
    assert_eq!(p.link(), "[[./images/abc123.jpg]]");
}

#[test]
fn first_photo_link_uses_order_in_entry() {
    let mut e = bare_entry("2021-03-05T10:00:00Z");
    e.photos = Some(vec![
        Photo { md5: "zzz".to_string(), file_extension: "gif".to_string(), order_in_entry: 5 },
        Photo { md5: "aaa".to_string(), file_extension: "jpg".to_string(), order_in_entry: 1 },
    ]);
    assert_eq!(e.first_photo_link(), Some("[[./images/aaa.jpg]]".to_string()));
    e.photos = Some(vec![]);
    assert_eq!(e.first_photo_link(), None);
    e.photos = None;
    assert_eq!(e.first_photo_link(), None);
}

#[test]
fn body_drops_converter_preamble() {
    let mut e = bare_entry("2021-03-05T10:00:00Z");
    e.text = Some("anything".to_string());
    e.converted = Some("p1\np2\np3\np4\nreal body line\nsecond line".to_string());
    assert_eq!(e.body(&None), Some("real body line\nsecond line".to_string()));
}

#[test]
fn body_empty_when_converter_output_is_short() {
    let mut e = bare_entry("2021-03-05T10:00:00Z");
    e.text = Some("anything".to_string());
    e.converted = Some("p1\np2".to_string());
    assert_eq!(e.body(&None), Some(String::new()));
    e.converted = None;
    assert_eq!(e.body(&None), Some(String::new()));
    e.text = None;
    assert_eq!(e.body(&None), None);
}

#[test]
fn photo_ordering_pairs_placeholders_by_order() {
    let mut e = bare_entry("2021-03-05T10:00:00Z");
    e.text = Some("anything".to_string());
    e.converted = Some(
        "p1\np2\np3\np4\n[[dayone-moment://X]] then [[dayone-moment://Y]]".to_string(),
    );
    // listed out of order: the photo with order_in_entry 1 must land on the
    // left placeholder
    let photos = Some(vec![
        Photo { md5: "bbb".to_string(), file_extension: "png".to_string(), order_in_entry: 2 },
        Photo { md5: "aaa".to_string(), file_extension: "jpg".to_string(), order_in_entry: 1 },
    ]);
    assert_eq!(
        e.body(&photos),
        Some("[[./images/aaa.jpg]] then [[./images/bbb.png]]".to_string())
    );
}

#[test]
fn bucketing_places_entry_once() {
    let e = bare_entry("2021-03-05T10:00:00Z");
    let journal = Journal { metadata: Metadata { version: "1.0".to_string() }, entries: vec![e] };
    let root = Root::from(journal);
    assert_eq!(root.years.len(), 1);
    assert_eq!(root.years[0].0, 2021);
    let year = &root.years[0].1;
    assert_eq!(year.months.len(), 1);
    assert_eq!(year.months[0].0, 3);
    let month = &year.months[0].1;
    assert_eq!(month.days.len(), 1);
    assert_eq!(month.days[0].0, 5);
    assert_eq!(month.days[0].1.entries.len(), 1);
}

#[test]
fn completeness_no_entry_lost_or_duplicated() {
    let entries = vec![
        bare_entry("2021-03-05T10:00:00Z"),
        bare_entry("2021-03-05T11:00:00Z"),
        bare_entry("2021-04-01T00:00:00Z"),
        bare_entry("1999-12-31T23:59:59Z"),
    ];
    let journal = Journal { metadata: Metadata { version: "1.0".to_string() }, entries };
    let root = Root::from(journal);
    let mut walked = 0;
    for (_, year) in root.years.iter() {
        for (_, month) in year.months.iter() {
            for (_, day) in month.days.iter() {
                walked += day.entries.len();
            }
        }
    }
    assert_eq!(walked, 4);
}

#[test]
fn render_sorted_headings_and_names() {
    let entries = vec![
        bare_entry("2021-03-05T10:00:00Z"),
        bare_entry("1999-12-31T23:59:59Z"),
    ];
    let journal = Journal { metadata: Metadata { version: "1.0".to_string() }, entries };
    let out = Root::from(journal).print().unwrap();
    let expected = "* 1999\n** 1999-12 December\n*** 1999-12-31 Friday\n\
                    **** Empty\n:PROPERTIES:\n:END:\n\n\
                    * 2021\n** 2021-3 March\n*** 2021-3-5 Friday\n\
                    **** Empty\n:PROPERTIES:\n:END:\n\n";
    assert_eq!(out, expected);
}

#[test]
fn render_weekday_comes_from_calendar() {
    // 2000-01-01 was a Saturday; a renderer that echoed its input would not
    // produce the weekday name
    let journal = Journal {
        metadata: Metadata { version: "1.0".to_string() },
        entries: vec![bare_entry("2000-01-01T00:00:00Z")],
    };
    let out = Root::from(journal).print().unwrap();
    assert!(out.contains("*** 2000-1-1 Saturday\n"), "output was: {}", out);
}

#[test]
fn round_trip_determinism() {
    let make = || {
        let mut e = bare_entry("2021-03-05T10:00:00Z");
        e.text = Some("## A walk\nbody".to_string());
        e.converted = Some("p1\np2\np3\np4\nconverted body".to_string());
        e.weather = Some(Weather {
            conditions_description: Some("Cloudy".to_string()),
            moon_phase_code: Some("full".to_string()),
        });
        Journal { metadata: Metadata { version: "1.0".to_string() }, entries: vec![e] }
    };
    let out1 = Root::from(make()).print().unwrap();
    let out2 = Root::from(make()).print().unwrap();
    assert_eq!(out1, out2);
}

#[test]
fn full_entry_rendering() {
    let mut e = bare_entry("2021-03-05T10:00:00Z");
    e.text = Some("### Morning walk\nrest".to_string());
    e.converted = Some("p1\np2\np3\np4\nrest of the day".to_string());
    e.music = Some(Music { artist: "A".to_string(), track: "B".to_string() });
    let journal = Journal { metadata: Metadata { version: "1.0".to_string() }, entries: vec![e] };
    let out = Root::from(journal).print().unwrap();
    let expected = "* 2021\n** 2021-3 March\n*** 2021-3-5 Friday\n\
                    **** Morning walk\n:PROPERTIES:\n:Music: A \u{2014} B\n:END:\n\
                    rest of the day\n";
    assert_eq!(out, expected);
}
