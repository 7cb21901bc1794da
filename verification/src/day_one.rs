//! The journal model: one diary entry with its optional sub-records, and the
//! pure functions that derive its display fields.

use vstd::prelude::*;
use crate::DecodeError;
use crate::dates::Timestamp;
use crate::text::{
    md_replace, opt_seq, replace_first_md, spec_first_line, spec_join, spec_lines, strip_heading,
    first_line, strip_heading_line, str_eq, lines_of, join_tail, replace_first_org, org_replace,
    views,
};

verus! {

/// Export-level metadata; captured, not acted upon.
pub struct Metadata {
    pub version: String,
}

pub struct Weather {
    pub conditions_description: Option<String>,
    pub moon_phase_code: Option<String>,
}

pub struct WeatherView {
    pub conditions_description: Option<Seq<char>>,
    pub moon_phase_code: Option<Seq<char>>,
}

impl View for Weather {
    type V = WeatherView;

    open spec fn view(&self) -> WeatherView {
        WeatherView {
            conditions_description: match self.conditions_description {
                Some(s) => Some(s@),
                None => None,
            },
            moon_phase_code: match self.moon_phase_code {
                Some(s) => Some(s@),
                None => None,
            },
        }
    }
}

pub struct Music {
    pub artist: String,
    pub track: String,
}

pub struct MusicView {
    pub artist: Seq<char>,
    pub track: Seq<char>,
}

impl View for Music {
    type V = MusicView;

    open spec fn view(&self) -> MusicView {
        MusicView { artist: self.artist@, track: self.track@ }
    }
}

/// A place, with its coordinates already rendered as the display strings the
/// properties block shows verbatim.
pub struct Location {
    pub longitude: String,
    pub latitude: String,
    pub place_name: String,
}

pub struct LocationView {
    pub longitude: Seq<char>,
    pub latitude: Seq<char>,
    pub place_name: Seq<char>,
}

impl View for Location {
    type V = LocationView;

    open spec fn view(&self) -> LocationView {
        LocationView {
            longitude: self.longitude@,
            latitude: self.latitude@,
            place_name: self.place_name@,
        }
    }
}

/// One image attached to an entry.
pub struct Photo {
    pub md5: String,
    pub file_extension: String,
    pub order_in_entry: u8,
}

pub struct PhotoView {
    pub md5: Seq<char>,
    pub file_extension: Seq<char>,
    pub order_in_entry: u8,
}

impl View for Photo {
    type V = PhotoView;

    open spec fn view(&self) -> PhotoView {
        PhotoView {
            md5: self.md5@,
            file_extension: self.file_extension@,
            order_in_entry: self.order_in_entry,
        }
    }
}

/// The inline link rendered for a photo.
pub open spec fn link_of(p: PhotoView) -> Seq<char> {
    "[[./images/"@ + p.md5 + "."@ + p.file_extension + "]]"@
}

impl Photo {
    pub fn link(&self) -> (r: String)
        ensures
            r@ == link_of(self@),
    {
        let mut out = "[[./images/".to_owned();
        out.append(self.md5.as_str());
        out.append(".");
        out.append(self.file_extension.as_str());
        out.append("]]");
        out
    }
}

fn copy_photo(p: &Photo) -> (r: Photo)
    ensures
        r@ == p@,
{
    Photo {
        md5: p.md5.clone(),
        file_extension: p.file_extension.clone(),
        order_in_entry: p.order_in_entry,
    }
}

/// One diary record.  `converted` carries the external text converter's raw
/// output for `text`, supplied by the caller before rendering; when it is
/// absent the body is rendered from empty converter output.
pub struct Entry {
    pub creation_date: Timestamp,
    pub text: Option<String>,
    pub location: Option<Location>,
    pub weather: Option<Weather>,
    pub music: Option<Music>,
    pub photos: Option<Vec<Photo>>,
    pub converted: Option<String>,
}

pub struct EntryView {
    pub creation_date: Timestamp,
    pub text: Option<Seq<char>>,
    pub location: Option<LocationView>,
    pub weather: Option<WeatherView>,
    pub music: Option<MusicView>,
    pub photos: Option<Seq<PhotoView>>,
    pub converted: Option<Seq<char>>,
}

pub open spec fn photos_view(s: Seq<Photo>) -> Seq<PhotoView> {
    s.map_values(|p: Photo| p@)
}

impl View for Entry {
    type V = EntryView;

    open spec fn view(&self) -> EntryView {
        EntryView {
            creation_date: self.creation_date,
            text: match self.text {
                Some(s) => Some(s@),
                None => None,
            },
            location: match self.location {
                Some(l) => Some(l@),
                None => None,
            },
            weather: match self.weather {
                Some(w) => Some(w@),
                None => None,
            },
            music: match self.music {
                Some(m) => Some(m@),
                None => None,
            },
            photos: match self.photos {
                Some(p) => Some(photos_view(p@)),
                None => None,
            },
            converted: match self.converted {
                Some(c) => Some(c@),
                None => None,
            },
        }
    }
}

impl EntryView {
    /// Every decoded entry carries a well-formed timestamp.
    pub open spec fn wf(&self) -> bool {
        self.creation_date.wf()
    }
}

/// The whole export: metadata and the entries in input order.
pub struct Journal {
    pub metadata: Metadata,
    pub entries: Vec<Entry>,
}

pub open spec fn entry_views(s: Seq<Entry>) -> Seq<EntryView> {
    s.map_values(|e: Entry| e@)
}

// ---------------------------------------------------------------------------
// Lunar phases.
// ---------------------------------------------------------------------------

pub open spec fn is_moon_code(c: Seq<char>) -> bool {
    ||| c == "new"@
    ||| c == "waning-crescent"@
    ||| c == "last-quarter"@
    ||| c == "waning-gibbous"@
    ||| c == "full"@
    ||| c == "waxing-gibbous"@
    ||| c == "first-quarter"@
    ||| c == "waxing-crescent"@
}

/// The display glyph of a recognized lunar-phase code.
pub open spec fn moon_glyph(c: Seq<char>) -> Seq<char> {
    if c == "new"@ {
        "🌑"@
    } else if c == "waning-crescent"@ {
        "🌘"@
    } else if c == "last-quarter"@ {
        "🌗"@
    } else if c == "waning-gibbous"@ {
        "🌖"@
    } else if c == "full"@ {
        "🌕"@
    } else if c == "waxing-gibbous"@ {
        "🌔"@
    } else if c == "first-quarter"@ {
        "🌓"@
    } else if c == "waxing-crescent"@ {
        "🌒"@
    } else {
        Seq::empty()
    }
}

/// Looks a lunar-phase code up in the fixed eight-entry table; a code
/// outside the table is a decode failure, never silently skipped.
pub fn get_moon(moon: &str) -> (r: Result<String, DecodeError>)
    ensures
        match r {
            Ok(g) => is_moon_code(moon@) && g@ == moon_glyph(moon@),
            Err(e) => !is_moon_code(moon@) && e == DecodeError::MoonPhase,
        },
{
    if str_eq(moon, "new") {
        Ok("🌑".to_owned())
    } else if str_eq(moon, "waning-crescent") {
        Ok("🌘".to_owned())
    } else if str_eq(moon, "last-quarter") {
        Ok("🌗".to_owned())
    } else if str_eq(moon, "waning-gibbous") {
        Ok("🌖".to_owned())
    } else if str_eq(moon, "full") {
        Ok("🌕".to_owned())
    } else if str_eq(moon, "waxing-gibbous") {
        Ok("🌔".to_owned())
    } else if str_eq(moon, "first-quarter") {
        Ok("🌓".to_owned())
    } else if str_eq(moon, "waxing-crescent") {
        Ok("🌒".to_owned())
    } else {
        Err(DecodeError::MoonPhase)
    }
}

// ---------------------------------------------------------------------------
// Properties.
// ---------------------------------------------------------------------------

/// The entry's lunar-phase code, if any, is one of the eight known codes.
pub open spec fn moon_ok(e: EntryView) -> bool {
    match e.weather {
        Some(w) => match w.moon_phase_code {
            Some(c) => is_moon_code(c),
            None => true,
        },
        None => true,
    }
}

pub open spec fn pairs(v: Seq<(String, String)>) -> Seq<(Seq<char>, Seq<char>)> {
    v.map_values(|p: (String, String)| (p.0@, p.1@))
}

pub open spec fn moon_part(e: EntryView) -> Seq<(Seq<char>, Seq<char>)> {
    match e.weather {
        Some(w) => match w.moon_phase_code {
            Some(c) => seq![("Moon"@, moon_glyph(c))],
            None => Seq::empty(),
        },
        None => Seq::empty(),
    }
}

pub open spec fn weather_part(e: EntryView) -> Seq<(Seq<char>, Seq<char>)> {
    match e.weather {
        Some(w) => match w.conditions_description {
            Some(c) => seq![("Weather"@, c)],
            None => Seq::empty(),
        },
        None => Seq::empty(),
    }
}

pub open spec fn music_part(e: EntryView) -> Seq<(Seq<char>, Seq<char>)> {
    match e.music {
        Some(m) => seq![("Music"@, m.artist + " — "@ + m.track)],
        None => Seq::empty(),
    }
}

pub open spec fn location_part(e: EntryView) -> Seq<(Seq<char>, Seq<char>)> {
    match e.location {
        Some(l) => seq![
            ("Latitude"@, l.latitude),
            ("Longitude"@, l.longitude),
            ("Location"@, l.place_name),
        ],
        None => Seq::empty(),
    }
}

/// The property pairs of an entry, in the order this renderer emits them.
/// Callers may not rely on any particular order: the meaning is the set of
/// pairs.
pub open spec fn spec_properties(e: EntryView) -> Seq<(Seq<char>, Seq<char>)> {
    moon_part(e) + weather_part(e) + music_part(e) + location_part(e)
}

// ---------------------------------------------------------------------------
// Photo ordering and placeholder substitution.
// ---------------------------------------------------------------------------

/// Inserts `p` behind every photo whose order is not larger, keeping ties in
/// their original relative order.
pub open spec fn sorted_insert(p: PhotoView, s: Seq<PhotoView>) -> Seq<PhotoView>
    decreases s.len(),
{
    if s.len() == 0 {
        seq![p]
    } else if s[0].order_in_entry <= p.order_in_entry {
        seq![s[0]] + sorted_insert(p, s.drop_first())
    } else {
        seq![p] + s
    }
}

/// The photos in ascending `order_in_entry` order (a stable sort).
pub open spec fn spec_sort_photos(s: Seq<PhotoView>) -> Seq<PhotoView>
    decreases s.len(),
{
    if s.len() == 0 {
        Seq::empty()
    } else {
        sorted_insert(s.last(), spec_sort_photos(s.drop_last()))
    }
}

/// Each photo, in the given order, replaces the then-leftmost converted
/// placeholder with its link.
pub open spec fn subst_photos(body: Seq<char>, ps: Seq<PhotoView>) -> Seq<char>
    decreases ps.len(),
{
    if ps.len() == 0 {
        body
    } else {
        org_replace(subst_photos(body, ps.drop_last()), link_of(ps.last()))
    }
}

proof fn lemma_sorted_insert_len(p: PhotoView, s: Seq<PhotoView>)
    ensures
        sorted_insert(p, s).len() == s.len() + 1,
    decreases s.len(),
{
    if s.len() > 0 && s[0].order_in_entry <= p.order_in_entry {
        lemma_sorted_insert_len(p, s.drop_first());
    }
}

pub proof fn lemma_sort_photos_len(s: Seq<PhotoView>)
    ensures
        spec_sort_photos(s).len() == s.len(),
    decreases s.len(),
{
    if s.len() > 0 {
        lemma_sort_photos_len(s.drop_last());
        lemma_sorted_insert_len(s.last(), spec_sort_photos(s.drop_last()));
    }
}

/// Ascending `order_in_entry`.
pub open spec fn photos_sorted(s: Seq<PhotoView>) -> bool {
    forall|x: int, y: int| #![trigger s[x], s[y]]
        0 <= x < y < s.len() ==> s[x].order_in_entry <= s[y].order_in_entry
}

proof fn lemma_sorted_insert_bound(p: PhotoView, s: Seq<PhotoView>, c: u8)
    requires
        c <= p.order_in_entry,
        forall|t: int| #![trigger s[t]] 0 <= t < s.len() ==> c <= s[t].order_in_entry,
    ensures
        forall|t: int| #![trigger sorted_insert(p, s)[t]]
            0 <= t < sorted_insert(p, s).len() ==> c <= sorted_insert(p, s)[t].order_in_entry,
    decreases s.len(),
{
    if s.len() > 0 && s[0].order_in_entry <= p.order_in_entry {
        assert forall|t: int| 0 <= t < s.drop_first().len() implies c <= #[trigger] s.drop_first()[t].order_in_entry by {
            assert(s.drop_first()[t] == s[t + 1]);
        }
        lemma_sorted_insert_bound(p, s.drop_first(), c);
        let r = sorted_insert(p, s);
        assert forall|t: int| 0 <= t < r.len() implies c <= #[trigger] r[t].order_in_entry by {
            if t > 0 {
                assert(r[t] == sorted_insert(p, s.drop_first())[t - 1]);
            }
        }
    }
}

proof fn lemma_sorted_insert_sorted(p: PhotoView, s: Seq<PhotoView>)
    requires
        photos_sorted(s),
    ensures
        photos_sorted(sorted_insert(p, s)),
    decreases s.len(),
{
    let r = sorted_insert(p, s);
    if s.len() == 0 {
        assert(photos_sorted(r));
    } else if s[0].order_in_entry <= p.order_in_entry {
        assert forall|x: int, y: int|
            0 <= x < y < s.drop_first().len() implies #[trigger] s.drop_first()[x].order_in_entry
            <= #[trigger] s.drop_first()[y].order_in_entry by {
            assert(s.drop_first()[x] == s[x + 1]);
            assert(s.drop_first()[y] == s[y + 1]);
        }
        lemma_sorted_insert_sorted(p, s.drop_first());
        assert forall|t: int| 0 <= t < s.drop_first().len() implies s[0].order_in_entry
            <= #[trigger] s.drop_first()[t].order_in_entry by {
            assert(s.drop_first()[t] == s[t + 1]);
        }
        lemma_sorted_insert_bound(p, s.drop_first(), s[0].order_in_entry);
        let ri = sorted_insert(p, s.drop_first());
        assert forall|x: int, y: int| 0 <= x < y < r.len() implies #[trigger] r[x].order_in_entry
            <= #[trigger] r[y].order_in_entry by {
            if x == 0 {
                assert(r[y] == ri[y - 1]);
            } else {
                assert(r[x] == ri[x - 1]);
                assert(r[y] == ri[y - 1]);
            }
        }
    } else {
        assert forall|x: int, y: int| 0 <= x < y < r.len() implies #[trigger] r[x].order_in_entry
            <= #[trigger] r[y].order_in_entry by {
            if x == 0 {
                assert(r[y] == s[y - 1]);
                if y > 1 {
                    assert(s[0].order_in_entry <= s[y - 1].order_in_entry);
                }
            } else {
                assert(r[x] == s[x - 1]);
                assert(r[y] == s[y - 1]);
            }
        }
    }
}

/// Photos are substituted in ascending `order_in_entry`: the first
/// placeholder is paired with the smallest order, whatever the listing order
/// of the input.
pub proof fn lemma_sort_photos_sorted(s: Seq<PhotoView>)
    ensures
        photos_sorted(spec_sort_photos(s)),
    decreases s.len(),
{
    if s.len() > 0 {
        lemma_sort_photos_sorted(s.drop_last());
        lemma_sorted_insert_sorted(s.last(), spec_sort_photos(s.drop_last()));
    }
}

proof fn lemma_sorted_insert_at(p: PhotoView, s: Seq<PhotoView>, k: int)
    requires
        0 <= k <= s.len(),
        forall|t: int| 0 <= t < k ==> s[t].order_in_entry <= p.order_in_entry,
        k == s.len() || s[k].order_in_entry > p.order_in_entry,
    ensures
        sorted_insert(p, s) == s.take(k) + seq![p] + s.skip(k),
    decreases k,
{
    if k == 0 {
        if s.len() == 0 {
            assert(sorted_insert(p, s) =~= s.take(0) + seq![p] + s.skip(0));
        } else {
            assert(s.take(0) =~= Seq::<PhotoView>::empty());
            assert(s.skip(0) =~= s);
            assert(sorted_insert(p, s) =~= s.take(0) + seq![p] + s.skip(0));
        }
    } else {
        assert(s[0].order_in_entry <= p.order_in_entry);
        lemma_sorted_insert_at(p, s.drop_first(), k - 1);
        assert(s.drop_first().take(k - 1) =~= s.take(k).drop_first());
        assert(s.drop_first().skip(k - 1) =~= s.skip(k));
        assert(seq![s[0]] + (s.take(k).drop_first() + seq![p] + s.skip(k)) =~= s.take(k)
            + seq![p] + s.skip(k));
    }
}

/// The photos in ascending `order_in_entry`, ties keeping input order.
pub fn sorted_photos(photos: &Vec<Photo>) -> (r: Vec<Photo>)
    ensures
        photos_view(r@) == spec_sort_photos(photos_view(photos@)),
{
    let mut out: Vec<Photo> = Vec::new();
    let mut i: usize = 0;
    proof {
        assert(photos_view(photos@).take(0) =~= Seq::<PhotoView>::empty());
        assert(photos_view(out@) =~= Seq::<PhotoView>::empty());
    }
    while i < photos.len()
        invariant
            i <= photos@.len(),
            photos_view(out@) == spec_sort_photos(photos_view(photos@).take(i as int)),
        decreases photos@.len() - i,
    {
        let p = copy_photo(&photos[i]);
        let mut k: usize = 0;
        while k < out.len() && out[k].order_in_entry <= p.order_in_entry
            invariant
                k <= out@.len(),
                forall|t: int| 0 <= t < k ==> out@[t]@.order_in_entry <= p@.order_in_entry,
        decreases out@.len() - k,
        {
            k += 1;
        }
        proof {
            lemma_sorted_insert_at(p@, photos_view(out@), k as int);
            assert(photos_view(out@).take(k as int) =~= photos_view(out@.take(k as int)));
        }
        let ghost old_out = out@;
        out.insert(k, p);
        proof {
            assert(photos_view(out@) =~= photos_view(old_out).take(k as int) + seq![p@]
                + photos_view(old_out).skip(k as int));
            let full = photos_view(photos@);
            assert(full.take(i as int + 1).drop_last() =~= full.take(i as int));
            assert(full.take(i as int + 1).last() == photos@[i as int]@);
            assert(photos_view(out@) =~= sorted_insert(p@, photos_view(old_out)));
        }
        i += 1;
    }
    proof {
        assert(photos_view(photos@).take(photos@.len() as int) =~= photos_view(photos@));
    }
    out
}

// ---------------------------------------------------------------------------
// The derivation functions on an entry.
// ---------------------------------------------------------------------------

/// The rendered link of the photo that comes first by `order_in_entry`, when
/// the entry has photos at all.
pub open spec fn spec_first_link(e: EntryView) -> Option<Seq<char>> {
    match e.photos {
        Some(ps) => if ps.len() > 0 {
            Some(link_of(spec_sort_photos(ps)[0]))
        } else {
            None
        },
        None => None,
    }
}

/// The title of an entry: the first line of its text, one heading marker
/// stripped, an inline photo placeholder replaced by the supplied link.
pub open spec fn spec_title(e: EntryView, link: Option<Seq<char>>) -> Option<Seq<char>> {
    match e.text {
        None => None,
        Some(t) => if t.len() == 0 {
            None
        } else {
            let stripped = strip_heading(spec_first_line(t));
            Some(
                match link {
                    Some(l) => md_replace(stripped, l),
                    None => stripped,
                },
            )
        },
    }
}

/// The converted body of an entry: the converter's output with its fixed
/// four-line preamble dropped, then one placeholder substituted per photo in
/// ascending `order_in_entry` order.  When the counts differ, a photo without
/// a remaining placeholder changes nothing, and extra placeholders stay as
/// they are.
pub open spec fn spec_body(e: EntryView, photos: Option<Seq<PhotoView>>) -> Option<Seq<char>> {
    match e.text {
        None => None,
        Some(_) => {
            let raw = match e.converted {
                Some(c) => c,
                None => Seq::empty(),
            };
            let ls = spec_lines(raw);
            let joined = if ls.len() >= 4 {
                spec_join(ls.skip(4))
            } else {
                Seq::empty()
            };
            let ps = match photos {
                Some(p) => p,
                None => Seq::empty(),
            };
            Some(subst_photos(joined, spec_sort_photos(ps)))
        },
    }
}

pub open spec fn opt_photo_views(o: Option<Vec<Photo>>) -> Option<Seq<PhotoView>> {
    match o {
        Some(p) => Some(photos_view(p@)),
        None => None,
    }
}

impl Entry {
    pub fn year(&self) -> (y: i32)
        ensures
            y == self.creation_date.year,
    {
        self.creation_date.year
    }

    pub fn month(&self) -> (m: u32)
        ensures
            m == self.creation_date.month,
    {
        self.creation_date.month
    }

    pub fn day(&self) -> (d: u32)
        ensures
            d == self.creation_date.day,
    {
        self.creation_date.day
    }

    /// The property pairs of the entry, or the decode failure for an unknown
    /// lunar-phase code.
    pub fn properties(&self) -> (r: Result<Vec<(String, String)>, DecodeError>)
        ensures
            match r {
                Ok(v) => moon_ok(self@) && pairs(v@) == spec_properties(self@),
                Err(e) => !moon_ok(self@) && e == DecodeError::MoonPhase,
            },
    {
        let mut props: Vec<(String, String)> = Vec::new();
        proof {
            assert(pairs(props@) =~= Seq::<(Seq<char>, Seq<char>)>::empty());
        }
        match &self.weather {
            Some(weather) => {
                match &weather.moon_phase_code {
                    Some(moon) => {
                        match get_moon(moon.as_str()) {
                            Ok(glyph) => {
                                let ghost before = props@;
                                props.push(("Moon".to_owned(), glyph));
                                proof {
                                    assert(pairs(props@) =~= pairs(before) + moon_part(self@));
                                }
                            },
                            Err(e) => {
                                return Err(e);
                            },
                        }
                    },
                    None => {},
                }
                match &weather.conditions_description {
                    Some(conditions) => {
                        let ghost before = props@;
                        props.push(("Weather".to_owned(), conditions.clone()));
                        proof {
                            assert(pairs(props@) =~= pairs(before) + weather_part(self@));
                        }
                    },
                    None => {},
                }
            },
            None => {},
        }
        proof {
            assert(pairs(props@) =~= moon_part(self@) + weather_part(self@));
        }
        match &self.music {
            Some(music) => {
                let mut value = music.artist.clone();
                value.append(" — ");
                value.append(music.track.as_str());
                let ghost before = props@;
                props.push(("Music".to_owned(), value));
                proof {
                    assert(pairs(props@) =~= pairs(before) + music_part(self@));
                }
            },
            None => {},
        }
        match &self.location {
            Some(location) => {
                let ghost before = props@;
                props.push(("Latitude".to_owned(), location.latitude.clone()));
                props.push(("Longitude".to_owned(), location.longitude.clone()));
                props.push(("Location".to_owned(), location.place_name.clone()));
                proof {
                    assert(pairs(props@) =~= pairs(before) + location_part(self@));
                }
            },
            None => {},
        }
        proof {
            assert(pairs(props@) =~= spec_properties(self@));
        }
        Ok(props)
    }

    /// The rendered link for the entry's first photo by `order_in_entry`,
    /// when there is one.
    pub fn first_photo_link(&self) -> (r: Option<String>)
        ensures
            opt_seq(r) == spec_first_link(self@),
    {
        match &self.photos {
            Some(ps) => {
                if ps.len() == 0 {
                    None
                } else {
                    let sorted = sorted_photos(ps);
                    proof {
                        lemma_sort_photos_len(photos_view(ps@));
                        assert(photos_view(sorted@)[0] == sorted@[0]@);
                    }
                    Some(sorted[0].link())
                }
            },
            None => None,
        }
    }

    /// The entry's title line, `None` when the entry has no text or empty
    /// text.
    pub fn title(&self, first_photo_link: Option<String>) -> (r: Option<String>)
        ensures
            opt_seq(r) == spec_title(self@, opt_seq(first_photo_link)),
    {
        match &self.text {
            None => None,
            Some(text) => {
                if text.as_str().unicode_len() == 0 {
                    return None;
                }
                let line = first_line(text.as_str());
                let stripped = strip_heading_line(line.as_str());
                match first_photo_link {
                    Some(link) => Some(replace_first_md(stripped.as_str(), link.as_str())),
                    None => Some(stripped),
                }
            },
        }
    }

    /// The entry's converted body, `None` when the entry has no text.
    pub fn body(&self, photos: &Option<Vec<Photo>>) -> (r: Option<String>)
        ensures
            opt_seq(r) == spec_body(self@, opt_photo_views(*photos)),
    {
        match &self.text {
            None => None,
            Some(_) => {
                let raw: &str = match &self.converted {
                    Some(c) => c.as_str(),
                    None => "",
                };
                proof {
                    reveal_strlit("");
                    assert(""@ =~= Seq::<char>::empty());
                }
                let lines = lines_of(raw);
                let start: usize = if lines.len() < 4 {
                    lines.len()
                } else {
                    4
                };
                let joined = join_tail(&lines, start);
                proof {
                    if views(lines@).len() < 4 {
                        assert(views(lines@).skip(views(lines@).len() as int) =~= Seq::<
                            Seq<char>,
                        >::empty());
                    }
                }
                let ghost joined0 = joined@;
                let mut cur = joined;
                match photos {
                    Some(ps) => {
                        let sorted = sorted_photos(ps);
                        let ghost svs = photos_view(sorted@);
                        let mut k: usize = 0;
                        proof {
                            assert(svs.take(0) =~= Seq::<PhotoView>::empty());
                        }
                        while k < sorted.len()
                            invariant
                                k <= sorted@.len(),
                                svs == photos_view(sorted@),
                                cur@ == subst_photos(joined0, svs.take(k as int)),
                            decreases sorted@.len() - k,
                        {
                            let link = sorted[k].link();
                            proof {
                                assert(svs.take(k as int + 1).drop_last() =~= svs.take(k as int));
                                assert(svs.take(k as int + 1).last() == sorted@[k as int]@);
                            }
                            cur = replace_first_org(cur.as_str(), link.as_str());
                            k += 1;
                        }
                        proof {
                            assert(svs.take(sorted@.len() as int) =~= svs);
                        }
                        Some(cur)
                    },
                    None => {
                        Some(cur)
                    },
                }
            },
        }
    }
}

} // verus!
