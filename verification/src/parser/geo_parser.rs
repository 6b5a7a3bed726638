//! Geospatial parsers: GeoJSON features, KML placemarks and GPX points.
use vstd::prelude::*;
use crate::text::{
    chars_of, string_of, contains, contains_lit, find, find_exec, find_char, find_char_exec, trim,
    trim_exec, slice_vec, split, split_exec, lines, lines_exec, views, push_all,
};
use crate::types::error::{AdatError, AdatResult};
use crate::types::json::{JsonValue, JsonView, json_get, element_views, member_views, lemma_element_views, lemma_member_views};
use crate::types::json_io::{spec_float_value, parse_float_value, spec_parse_json, parse_json_text};
use crate::types::record::{DataRecord, FieldMap, insert_entry};
use crate::types::schema::FieldType;
use super::{
    ParseResult, fields_of, pair_views, record_is, records_match, RecordModel, push_record,
    single_node_schema, inferred_fields, single_node,
};

verus! {

/// `<tag>`.
pub open spec fn open_tag(tag: Seq<char>) -> Seq<char> {
    seq!['<'] + tag + seq!['>']
}

/// `</tag>`.
pub open spec fn close_tag(tag: Seq<char>) -> Seq<char> {
    seq!['<', '/'] + tag + seq!['>']
}

/// The text between `<tag>` and the first `</tag>` on a line.
pub open spec fn kml_tag(line: Seq<char>, tag: Seq<char>) -> Option<Seq<char>> {
    match find(line, open_tag(tag)) {
        None => None,
        Some(k) => match find(line, close_tag(tag)) {
            None => None,
            Some(e) => Some(line.subrange(k + open_tag(tag).len(), e)),
        },
    }
}

/// The element's text does not start after its closing tag.
pub open spec fn kml_tag_ok(line: Seq<char>, tag: Seq<char>) -> bool {
    find(line, open_tag(tag)) matches Some(k) ==> (find(line, close_tag(tag)) matches Some(e)
        ==> k + open_tag(tag).len() <= e)
}

/// The text of element `tag` on a line, between `<tag>` and `</tag>`.
pub fn extract_kml_tag(line: &str, tag: &str) -> (r: Option<String>)
    requires
        kml_tag_ok(line@, tag@),
    ensures
        match r {
            Some(v) => kml_tag(line@, tag@) == Some(v@),
            None => kml_tag(line@, tag@) is None,
        },
{
    let cs = chars_of(line);
    let t = chars_of(tag);
    let mut open: Vec<char> = vec!['<'];
    push_all(&mut open, &t);
    open.push('>');
    let mut close: Vec<char> = vec!['<', '/'];
    push_all(&mut close, &t);
    close.push('>');
    assert(open@ =~= open_tag(tag@));
    assert(close@ =~= close_tag(tag@));
    let k = match find_exec(&cs, &open) {
        Some(k) => k,
        None => {
            return None;
        },
    };
    let e = match find_exec(&cs, &close) {
        Some(e) => e,
        None => {
            return None;
        },
    };
    proof {
        crate::text::lemma_find_contains(cs@, close@);
        crate::text::lemma_find_contains(cs@, open@);
    }
    Some(string_of(&slice_vec(&cs, k + open.len(), e)))
}

/// The value of attribute `attr` on a line: the text between `attr="` and the next `"`.
pub open spec fn xml_attr(line: Seq<char>, attr: Seq<char>) -> Option<Seq<char>> {
    let needle = attr + seq!['=', '"'];
    match find(line, needle) {
        None => None,
        Some(k) => {
            let st = k + needle.len();
            match find_char(line.subrange(st, line.len() as int), '"') {
                None => None,
                Some(e) => Some(line.subrange(st, st + e)),
            }
        },
    }
}

/// The value of attribute `attr` on a line.
pub fn extract_xml_attr(line: &str, attr: &str) -> (r: Option<String>)
    ensures
        match r {
            Some(v) => xml_attr(line@, attr@) == Some(v@),
            None => xml_attr(line@, attr@) is None,
        },
{
    let cs = chars_of(line);
    let mut needle = chars_of(attr);
    needle.push('=');
    needle.push('"');
    assert(needle@ =~= attr@ + seq!['=', '"']);
    let k = match find_exec(&cs, &needle) {
        Some(k) => k,
        None => {
            return None;
        },
    };
    proof {
        crate::text::lemma_find_contains(cs@, needle@);
    }
    let cl = cs.len();
    assert(k + needle@.len() <= cl);
    let st = k + needle.len();
    let rest = slice_vec(&cs, st, cs.len());
    let e = match find_char_exec(&rest, '"') {
        Some(e) => e,
        None => {
            return None;
        },
    };
    Some(string_of(&slice_vec(&cs, st, st + e)))
}

/// The longitude and latitude of KML coordinates `lng,lat[,alt]`, as JSON numbers.
pub open spec fn kml_coords(c: Seq<char>) -> Option<(JsonView, JsonView)> {
    let parts = split(trim(c), ',');
    if parts.len() >= 2 {
        match spec_float_value(trim(parts[0])) {
            None => None,
            Some(lng) => match spec_float_value(trim(parts[1])) {
                None => None,
                Some(lat) => Some((lng, lat)),
            },
        }
    } else {
        None
    }
}

/// Longitude and latitude of KML coordinates `lng,lat[,alt]`, as JSON numbers.
pub fn kml_coord_values(coords: &str) -> (r: Option<(JsonValue, JsonValue)>)
    ensures
        match r {
            Some((a, b)) => kml_coords(coords@) == Some((a@, b@)),
            None => kml_coords(coords@) is None,
        },
{
    let parts = split_exec(&trim_exec(chars_of(coords).as_slice()), ',');
    assert(views(parts@).len() == parts@.len());
    if parts.len() >= 2 {
        assert(views(parts@)[0] == parts@[0]@);
        assert(views(parts@)[1] == parts@[1]@);
        let lng = match parse_float_value(string_of(&trim_exec(&parts[0])).as_str()) {
            Some(x) => x,
            None => {
                return None;
            },
        };
        let lat = match parse_float_value(string_of(&trim_exec(&parts[1])).as_str()) {
            Some(x) => x,
            None => {
                return None;
            },
        };
        Some((lng, lat))
    } else {
        None
    }
}

/// The fields of the current placemark after reading a line inside it.
pub open spec fn kml_fields_step(cur: Seq<(Seq<char>, JsonView)>, t: Seq<char>) -> Seq<(Seq<char>, JsonView)> {
    let c1 = match kml_tag(t, "name"@) {
        Some(v) => insert_entry(cur, "name"@, JsonView::Str(v)),
        None => cur,
    };
    let c2 = match kml_tag(t, "description"@) {
        Some(v) => insert_entry(c1, "description"@, JsonView::Str(v)),
        None => c1,
    };
    match kml_tag(t, "coordinates"@) {
        Some(v) => {
            let c3 = insert_entry(c2, "coordinates"@, JsonView::Str(v));
            match kml_coords(v) {
                Some((lng, lat)) => insert_entry(insert_entry(c3, "lat"@, lat), "lng"@, lng),
                None => c3,
            }
        },
        None => c2,
    }
}

/// Finished placemarks, whether a placemark is open, and its fields, after the lines.
pub open spec fn kml_state(ls: Seq<Seq<char>>) -> (Seq<Seq<(Seq<char>, JsonView)>>, bool, Seq<(Seq<char>, JsonView)>)
    decreases ls.len(),
{
    if ls.len() == 0 {
        (Seq::empty(), false, Seq::empty())
    } else {
        let (recs, inside, cur) = kml_state(ls.drop_last());
        let t = trim(ls.last());
        let (inside1, cur1) = if contains(t, "<Placemark"@) {
            (true, Seq::<(Seq<char>, JsonView)>::empty())
        } else {
            (inside, cur)
        };
        let (recs2, inside2) = if contains(t, "</Placemark>"@) && inside1 {
            (
                if cur1.len() > 0 {
                    recs.push(cur1)
                } else {
                    recs
                },
                false,
            )
        } else {
            (recs, inside1)
        };
        (recs2, inside2, if inside2 {
            kml_fields_step(cur1, t)
        } else {
            cur1
        })
    }
}

/// Whether a placemark is open after a line's open and close tests, given whether one
/// was open before the line.
pub open spec fn kml_inside_after(inside: bool, t: Seq<char>) -> bool {
    (inside || contains(t, "<Placemark"@)) && !contains(t, "</Placemark>"@)
}

/// The elements can be cut out of every line that is read inside an open placemark
/// (the only lines whose elements are read).
pub open spec fn kml_ok(data: Seq<char>) -> bool {
    forall|i: int|
        0 <= i < lines(data).len() && kml_inside_after(
            kml_state(lines(data).subrange(0, i)).1,
            trim(#[trigger] lines(data)[i]),
        ) ==> {
            let t = trim(lines(data)[i]);
            &&& kml_tag_ok(t, "name"@)
            &&& kml_tag_ok(t, "description"@)
            &&& kml_tag_ok(t, "coordinates"@)
        }
}

/// The fields of the KML schema.
pub open spec fn kml_schema_fields() -> Seq<(Seq<char>, FieldType, u32)> {
    seq![
        ("name"@, FieldType::Text, 900u32),
        ("coordinates"@, FieldType::GeoPoint, 850u32),
        ("lat"@, FieldType::Float, 850u32),
        ("lng"@, FieldType::Float, 850u32),
    ]
}

fn kml_fields_step_exec(cur: &mut FieldMap, t: &Vec<char>)
    requires
        kml_tag_ok(t@, "name"@),
        kml_tag_ok(t@, "description"@),
        kml_tag_ok(t@, "coordinates"@),
    ensures
        final(cur)@ == kml_fields_step(old(cur)@, t@),
{
    let line = string_of(t);
    match extract_kml_tag(line.as_str(), "name") {
        Some(v) => {
            cur.insert("name".to_owned(), JsonValue::Str(v));
        },
        None => {},
    }
    match extract_kml_tag(line.as_str(), "description") {
        Some(v) => {
            cur.insert("description".to_owned(), JsonValue::Str(v));
        },
        None => {},
    }
    match extract_kml_tag(line.as_str(), "coordinates") {
        Some(v) => {
            let c = kml_coord_values(v.as_str());
            cur.insert("coordinates".to_owned(), JsonValue::Str(v));
            match c {
                Some((lng, lat)) => {
                    cur.insert("lat".to_owned(), lat);
                    cur.insert("lng".to_owned(), lng);
                },
                None => {},
            }
        },
        None => {},
    }
}

/// What parsing KML data gives.
pub open spec fn kml_outcome(r: AdatResult<ParseResult>, data: Seq<char>, source: Seq<char>) -> bool {
    &&& (match r {
            Ok(p) => {
                let recs = kml_state(lines(data)).0;
                &&& p.records@.len() == recs.len()
                &&& forall|i: int|
                    0 <= i < recs.len() ==> record_is(
                        #[trigger] p.records@[i],
                        source,
                        "placemark"@,
                        recs[i],
                    )
                &&& single_node_schema(
                    p.schema,
                    source,
                    "placemark"@,
                    kml_schema_fields(),
                    recs.len() as u64,
                )
                &&& p.errors == 0
                &&& p.warnings@.len() == 0
            },
            Err(_) => false,
        })
}

/// Parse KML: each `Placemark` with content becomes a `placemark` record of its name,
/// description and coordinates (with latitude and longitude when they are numbers).
pub fn parse_kml(data: &str, source_name: &str) -> (r: AdatResult<ParseResult>)
    requires
        kml_ok(data@),
    ensures
        kml_outcome(r, data@, source_name@),
{
    let ls = lines_exec(chars_of(data).as_slice());
    let ghost all = views(ls@);
    let mut records: Vec<DataRecord> = Vec::new();
    let mut inside = false;
    let mut cur = FieldMap::new();
    let mut i: usize = 0;
    while i < ls.len()
        invariant
            i <= ls@.len(),
            all == views(ls@),
            all == lines(data@),
            kml_ok(data@),
            ({
                let st = kml_state(all.subrange(0, i as int));
                &&& records@.len() == st.0.len()
                &&& forall|k: int|
                    0 <= k < st.0.len() ==> record_is(
                        #[trigger] records@[k],
                        source_name@,
                        "placemark"@,
                        st.0[k],
                    )
                &&& inside == st.1
                &&& cur@ == st.2
            }),
        decreases ls.len() - i,
    {
        assert(all.subrange(0, i + 1).drop_last() =~= all.subrange(0, i as int));
        assert(all[i as int] == ls@[i as int]@);
        let t = trim_exec(&ls[i]);
        if contains_lit(&t, "<Placemark") {
            inside = true;
            cur = FieldMap::new();
        }
        if contains_lit(&t, "</Placemark>") && inside {
            if cur.len() > 0 {
                let ghost r0 = records@;
                records.push(DataRecord::new(source_name, "placemark", cur.duplicate()));
                assert forall|k: int| 0 <= k < r0.len() implies records@[k] == r0[k] by {}
            }
            inside = false;
        }
        if inside {
            assert(kml_inside_after(kml_state(all.subrange(0, i as int)).1, trim(all[i as int])));
            kml_fields_step_exec(&mut cur, &t);
        }
        i = i + 1;
    }
    assert(all.subrange(0, all.len() as int) =~= all);
    let fields = inferred_fields(
        vec![
            ("name", FieldType::Text, 900),
            ("coordinates", FieldType::GeoPoint, 850),
            ("lat", FieldType::Float, 850),
            ("lng", FieldType::Float, 850),
        ],
    );
    let n = records.len();
    let schema = single_node(source_name, "placemark", fields, n as u64);
    Ok(ParseResult { schema, records, errors: 0, warnings: Vec::new() })
}

/// The fields of a GPX point line: latitude and longitude when their attributes are
/// numbers, and the point type.
pub open spec fn gpx_pairs(t: Seq<char>) -> Seq<(Seq<char>, JsonView)> {
    let lat = match xml_attr(t, "lat"@) {
        Some(a) => match spec_float_value(a) {
            Some(x) => seq![("lat"@, x)],
            None => Seq::empty(),
        },
        None => Seq::empty(),
    };
    let lng = match xml_attr(t, "lon"@) {
        Some(a) => match spec_float_value(a) {
            Some(x) => seq![("lng"@, x)],
            None => Seq::empty(),
        },
        None => Seq::empty(),
    };
    let kind = if contains(t, "<wpt"@) {
        "waypoint"@
    } else {
        "trackpoint"@
    };
    lat + lng + seq![("type"@, JsonView::Str(kind))]
}

/// The point records of GPX lines: one per line with a track point or waypoint.
pub open spec fn gpx_records(ls: Seq<Seq<char>>) -> Seq<RecordModel>
    decreases ls.len(),
{
    if ls.len() == 0 {
        Seq::empty()
    } else {
        let t = trim(ls.last());
        gpx_records(ls.drop_last()) + if contains(t, "<trkpt"@) || contains(t, "<wpt"@) {
            seq![("point"@, fields_of(gpx_pairs(t)))]
        } else {
            Seq::empty()
        }
    }
}

/// The fields of the GPX schema.
pub open spec fn gpx_schema_fields() -> Seq<(Seq<char>, FieldType, u32)> {
    seq![
        ("lat"@, FieldType::Float, 950u32),
        ("lng"@, FieldType::Float, 950u32),
        ("type"@, FieldType::Text, 1000u32),
    ]
}

fn attr_float_pair(line: &str, attr: &str, key: &str) -> (r: Vec<(String, JsonValue)>)
    ensures
        pair_views(r@) == match xml_attr(line@, attr@) {
            Some(a) => match spec_float_value(a) {
                Some(x) => seq![(key@, x)],
                None => Seq::empty(),
            },
            None => Seq::empty(),
        },
{
    let mut out: Vec<(String, JsonValue)> = Vec::new();
    match extract_xml_attr(line, attr) {
        Some(a) => match parse_float_value(a.as_str()) {
            Some(x) => {
                out.push((key.to_owned(), x));
                assert(pair_views(out@) =~= seq![(key@, x@)]);
            },
            None => {},
        },
        None => {},
    }
    assert(pair_views(out@).len() == out@.len());
    out
}

/// What parsing GPX data gives.
pub open spec fn gpx_outcome(r: AdatResult<ParseResult>, data: Seq<char>, source: Seq<char>) -> bool {
    &&& match r {
            Ok(p) => {
                let recs = gpx_records(lines(data));
                &&& records_match(p.records@, source, recs)
                &&& single_node_schema(
                    p.schema,
                    source,
                    "point"@,
                    gpx_schema_fields(),
                    recs.len() as u64,
                )
                &&& p.errors == 0
                &&& p.warnings@.len() == 0
            },
            Err(_) => false,
        }
}

/// Parse GPX: each line with a track point or waypoint becomes a `point` record of
/// its latitude, longitude and type.
pub fn parse_gpx(data: &str, source_name: &str) -> (r: AdatResult<ParseResult>)
    ensures
        gpx_outcome(r, data@, source_name@),
{
    let ls = lines_exec(chars_of(data).as_slice());
    let ghost all = views(ls@);
    let mut records: Vec<DataRecord> = Vec::new();
    let mut i: usize = 0;
    while i < ls.len()
        invariant
            i <= ls@.len(),
            all == views(ls@),
            all == lines(data@),
            records_match(records@, source_name@, gpx_records(all.subrange(0, i as int))),
        decreases ls.len() - i,
    {
        assert(all.subrange(0, i + 1).drop_last() =~= all.subrange(0, i as int));
        assert(all[i as int] == ls@[i as int]@);
        let ghost before = gpx_records(all.subrange(0, i as int));
        let t = trim_exec(&ls[i]);
        if contains_lit(&t, "<trkpt") || contains_lit(&t, "<wpt") {
            let line = string_of(&t);
            let mut pairs = attr_float_pair(line.as_str(), "lat", "lat");
            let mut lng = attr_float_pair(line.as_str(), "lon", "lng");
            let ghost p0 = pair_views(pairs@);
            let ghost p1 = pair_views(lng@);
            pairs.append(&mut lng);
            let kind = if contains_lit(&t, "<wpt") {
                "waypoint"
            } else {
                "trackpoint"
            };
            pairs.push(("type".to_owned(), JsonValue::Str(kind.to_owned())));
            assert(pair_views(pairs@) =~= p0 + p1 + seq![("type"@, JsonView::Str(kind@))]);
            push_record(&mut records, source_name, "point", pairs, Ghost(before));
        } else {
            assert(gpx_records(all.subrange(0, i + 1)) =~= before);
        }
        i = i + 1;
    }
    assert(all.subrange(0, all.len() as int) =~= all);
    let fields = inferred_fields(
        vec![
            ("lat", FieldType::Float, 950),
            ("lng", FieldType::Float, 950),
            ("type", FieldType::Text, 1000),
        ],
    );
    let n = records.len();
    let schema = single_node(source_name, "point", fields, n as u64);
    Ok(ParseResult { schema, records, errors: 0, warnings: Vec::new() })
}

/// The features of a GeoJSON value: the `features` array of a collection, or the
/// value itself when it is a `Feature`.
pub open spec fn geo_features(v: JsonView) -> Option<Seq<JsonView>> {
    match json_get(v, "features"@) {
        Some(JsonView::Array(a)) => Some(a),
        _ => if json_get(v, "type"@) == Some(JsonView::Str("Feature"@)) {
            Some(seq![v])
        } else {
            None
        },
    }
}

/// The fields of a feature: geometry type, coordinates (with longitude and latitude
/// for two or more numbers), then the properties in order.
pub open spec fn feature_pairs(f: JsonView) -> Seq<(Seq<char>, JsonView)> {
    let geom = match json_get(f, "geometry"@) {
        Some(g) => match json_get(g, "coordinates"@) {
            Some(c) => seq![
                (
                    "geometry_type"@,
                    match json_get(g, "type"@) {
                        Some(t) => t,
                        None => JsonView::Null,
                    },
                ),
                ("coordinates"@, c),
            ] + match c {
                JsonView::Array(a) => if a.len() >= 2 {
                    seq![("lng"@, a[0]), ("lat"@, a[1])]
                } else {
                    Seq::empty()
                },
                _ => Seq::empty(),
            },
            None => Seq::empty(),
        },
        None => Seq::empty(),
    };
    let props = match json_get(f, "properties"@) {
        Some(JsonView::Object(ms)) => ms,
        _ => Seq::empty(),
    };
    geom + props
}

/// The fields of the GeoJSON schema.
pub open spec fn geojson_schema_fields() -> Seq<(Seq<char>, FieldType, u32)> {
    seq![
        ("geometry_type"@, FieldType::Text, 950u32),
        ("coordinates"@, FieldType::GeoPoint, 900u32),
        ("lat"@, FieldType::Float, 900u32),
        ("lng"@, FieldType::Float, 900u32),
    ]
}

fn feature_pairs_exec(f: &JsonValue) -> (r: Vec<(String, JsonValue)>)
    ensures
        pair_views(r@) == feature_pairs(f@),
{
    let mut out: Vec<(String, JsonValue)> = Vec::new();
    match f.get("geometry") {
        Some(g) => match g.get("coordinates") {
            Some(c) => {
                let gt = match g.get("type") {
                    Some(t) => t.deep_clone(),
                    None => JsonValue::Null,
                };
                out.push(("geometry_type".to_owned(), gt));
                out.push(("coordinates".to_owned(), c.deep_clone()));
                match c.as_array() {
                    Some(a) => {
                        proof {
                            lemma_element_views(a@);
                        }
                        if a.len() >= 2 {
                            out.push(("lng".to_owned(), a[0].deep_clone()));
                            out.push(("lat".to_owned(), a[1].deep_clone()));
                        }
                    },
                    None => {},
                }
            },
            None => {},
        },
        None => {},
    }
    let ghost geom = pair_views(out@);
    assert(geom =~= match json_get(f@, "geometry"@) {
        Some(g) => match json_get(g, "coordinates"@) {
            Some(c) => seq![
                (
                    "geometry_type"@,
                    match json_get(g, "type"@) {
                        Some(t) => t,
                        None => JsonView::Null,
                    },
                ),
                ("coordinates"@, c),
            ] + match c {
                JsonView::Array(a) => if a.len() >= 2 {
                    seq![("lng"@, a[0]), ("lat"@, a[1])]
                } else {
                    Seq::empty()
                },
                _ => Seq::empty(),
            },
            None => Seq::empty(),
        },
        None => Seq::empty(),
    });
    match f.get("properties") {
        Some(p) => match p.as_object() {
            Some(ms) => {
                proof {
                    lemma_member_views(ms@);
                }
                let mut k: usize = 0;
                while k < ms.len()
                    invariant
                        k <= ms@.len(),
                        member_views(ms@).len() == ms@.len(),
                        forall|j: int|
                            0 <= j < ms@.len() ==> #[trigger] member_views(ms@)[j] == (
                                ms@[j].0@,
                                ms@[j].1@,
                            ),
                        pair_views(out@) == geom + member_views(ms@).subrange(0, k as int),
                    decreases ms.len() - k,
                {
                    let ghost o0 = pair_views(out@);
                    out.push((ms[k].0.clone(), ms[k].1.deep_clone()));
                    assert(member_views(ms@)[k as int] == (ms@[k as int].0@, ms@[k as int].1@));
                    assert(pair_views(out@) =~= o0.push(member_views(ms@)[k as int]));
                    assert(pair_views(out@) =~= geom + member_views(ms@).subrange(0, k + 1));
                    k = k + 1;
                }
                assert(member_views(ms@).subrange(0, ms@.len() as int) =~= member_views(ms@));
            },
            None => {
                assert(pair_views(out@) =~= geom + Seq::empty());
            },
        },
        None => {
            assert(pair_views(out@) =~= geom + Seq::empty());
        },
    }
    out
}

/// What parsing GeoJSON data gives.
pub open spec fn geojson_outcome(r: AdatResult<ParseResult>, data: Seq<char>, source: Seq<char>) -> bool {
    &&& (match spec_parse_json(data) {
            Err(e) => r matches Err(AdatError::Parse(m)) && m@ == "Invalid GeoJSON: "@ + e,
            Ok(v) => match geo_features(v) {
                None => r matches Err(AdatError::Parse(m)) && m@
                    == "Expected FeatureCollection or Feature"@,
                Some(fs) => r matches Ok(p) && records_match(
                    p.records@,
                    source,
                    fs.map_values(|f: JsonView| ("feature"@, fields_of(feature_pairs(f)))),
                ) && single_node_schema(
                    p.schema,
                    source,
                    "feature"@,
                    geojson_schema_fields(),
                    fs.len() as u64,
                ) && p.errors == 0 && p.warnings@.len() == 0,
            },
        })
}

/// Parse GeoJSON: each feature of a collection (or a single feature) becomes a
/// `feature` record of its geometry and properties.
pub fn parse_geojson(data: &str, source_name: &str) -> (r: AdatResult<ParseResult>)
    ensures
        geojson_outcome(r, data@, source_name@),
{
    let value = match parse_json_text(data) {
        Ok(v) => v,
        Err(e) => {
            let mut m = "Invalid GeoJSON: ".to_owned();
            m.append(e.as_str());
            return Err(AdatError::Parse(m));
        },
    };
    let ghost vv = value@;
    let features: Vec<JsonValue> = match value.get("features") {
        Some(f) => match f.as_array() {
            Some(arr) => {
                let mut out: Vec<JsonValue> = Vec::new();
                let mut k: usize = 0;
                proof {
                    lemma_element_views(arr@);
                }
                while k < arr.len()
                    invariant
                        k <= arr@.len(),
                        out@.len() == k,
                        forall|j: int| 0 <= j < k ==> (#[trigger] out@[j])@ == arr@[j]@,
                    decreases arr.len() - k,
                {
                    out.push(arr[k].deep_clone());
                    k = k + 1;
                }
                out
            },
            None => Vec::new(),
        },
        None => Vec::new(),
    };
    let is_collection = match value.get("features") {
        Some(f) => f.as_array().is_some(),
        None => false,
    };
    let features = if is_collection {
        features
    } else {
        let is_feature = match value.get("type") {
            Some(t) => match t.as_str() {
                Some(s) => crate::text::str_eq(s, "Feature"),
                None => false,
            },
            None => false,
        };
        if is_feature {
            vec![value]
        } else {
            return Err(AdatError::Parse("Expected FeatureCollection or Feature".to_owned()));
        }
    };
    let ghost fs = geo_features(vv)->0;
    assert(features@.len() == fs.len() && forall|j: int| 0 <= j < fs.len() ==> #[trigger] features@[j]@ == fs[j]) by {
        match json_get(vv, "features"@) {
            Some(JsonView::Array(a)) => {
                lemma_element_views(features@);
            },
            _ => {},
        }
    }
    let mut records: Vec<DataRecord> = Vec::new();
    let mut i: usize = 0;
    while i < features.len()
        invariant
            i <= features@.len(),
            features@.len() == fs.len(),
            forall|j: int| 0 <= j < fs.len() ==> #[trigger] features@[j]@ == fs[j],
            records_match(
                records@,
                source_name@,
                fs.subrange(0, i as int).map_values(
                    |f: JsonView| ("feature"@, fields_of(feature_pairs(f))),
                ),
            ),
        decreases features.len() - i,
    {
        let ghost before = fs.subrange(0, i as int).map_values(
            |f: JsonView| ("feature"@, fields_of(feature_pairs(f))),
        );
        let pairs = feature_pairs_exec(&features[i]);
        push_record(&mut records, source_name, "feature", pairs, Ghost(before));
        assert(before.push(("feature"@, fields_of(feature_pairs(fs[i as int])))) =~= fs.subrange(
            0,
            i + 1,
        ).map_values(|f: JsonView| ("feature"@, fields_of(feature_pairs(f)))));
        i = i + 1;
    }
    assert(fs.subrange(0, fs.len() as int) =~= fs);
    let fields = inferred_fields(
        vec![
            ("geometry_type", FieldType::Text, 950),
            ("coordinates", FieldType::GeoPoint, 900),
            ("lat", FieldType::Float, 900),
            ("lng", FieldType::Float, 900),
        ],
    );
    let n = records.len();
    let schema = single_node(source_name, "feature", fields, n as u64);
    Ok(ParseResult { schema, records, errors: 0, warnings: Vec::new() })
}

} // verus!
