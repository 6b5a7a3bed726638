//! Format auto-detection — identifies data format from content and extension.
use vstd::prelude::*;
use crate::text::{
    chars_eq, chars_of, contains, contains_char, contains_exec, count_char, count_char_exec,
    decimal, decimal_exec, ends_with, lemma_single_char_affix, lines, lines_exec, push_all, spec_to_lower, spec_to_upper,
    starts_with, starts_with_exec, string_of, to_lower, to_upper, trim, trim_exec, views,
};
use super::{DataFormat, FormatDetection, format_extensions};

verus! {

/// The format that a file extension names (compared in lower case).
pub open spec fn format_of_extension(lower: Seq<char>) -> Option<DataFormat> {
    if lower == "csv"@ {
        Some(DataFormat::Csv)
    } else if lower == "tsv"@ || lower == "tab"@ {
        Some(DataFormat::Tsv)
    } else if lower == "json"@ {
        Some(DataFormat::Json)
    } else if lower == "jsonl"@ || lower == "ndjson"@ {
        Some(DataFormat::JsonLines)
    } else if lower == "xml"@ {
        Some(DataFormat::Xml)
    } else if lower == "yaml"@ || lower == "yml"@ {
        Some(DataFormat::Yaml)
    } else if lower == "toml"@ {
        Some(DataFormat::Toml)
    } else if lower == "html"@ || lower == "htm"@ {
        Some(DataFormat::Html)
    } else if lower == "sql"@ {
        Some(DataFormat::Sql)
    } else if lower == "log"@ {
        Some(DataFormat::Log)
    } else if lower == "eml"@ {
        Some(DataFormat::Email)
    } else if lower == "ics"@ || lower == "ical"@ {
        Some(DataFormat::Calendar)
    } else if lower == "geojson"@ {
        Some(DataFormat::GeoJson)
    } else if lower == "kml"@ {
        Some(DataFormat::Kml)
    } else if lower == "gpx"@ {
        Some(DataFormat::Gpx)
    } else if lower == "md"@ || lower == "markdown"@ {
        Some(DataFormat::Markdown)
    } else {
        None
    }
}

/// Detection by extension and the formats' extension lists agree: a lower-case
/// extension is detected as a format exactly when that format lists it (`Unknown`
/// lists none, every other format at least one). So no extension is listed by two
/// formats, and every listed extension is made of lower-case ASCII letters.
pub proof fn lemma_extensions_match_detection(l: Seq<char>, f: DataFormat, g: DataFormat)
    ensures
        (format_of_extension(l) == Some(f)) == (f != DataFormat::Unknown && format_extensions(
            f,
        ).contains(l)),
        format_extensions(f).contains(l) && format_extensions(g).contains(l) ==> f == g,
        (format_extensions(f).len() == 0) == (f == DataFormat::Unknown),
        forall|i: int, k: int|
            0 <= i < format_extensions(f).len() && 0 <= k < format_extensions(f)[i].len() ==> 'a'
                <= #[trigger] format_extensions(f)[i][k] <= 'z',
{
    reveal_strlit("csv");
    reveal_strlit("tsv");
    reveal_strlit("tab");
    reveal_strlit("json");
    reveal_strlit("jsonl");
    reveal_strlit("ndjson");
    reveal_strlit("xml");
    reveal_strlit("yaml");
    reveal_strlit("yml");
    reveal_strlit("toml");
    reveal_strlit("html");
    reveal_strlit("htm");
    reveal_strlit("sql");
    reveal_strlit("log");
    reveal_strlit("eml");
    reveal_strlit("ics");
    reveal_strlit("ical");
    reveal_strlit("geojson");
    reveal_strlit("kml");
    reveal_strlit("gpx");
    reveal_strlit("md");
    reveal_strlit("markdown");
    lemma_extension_detected(l, f);
    lemma_extension_detected(l, g);
}

proof fn lemma_listed_extensions_detected()
    ensures
        format_of_extension("csv"@) == Some(DataFormat::Csv),
        format_of_extension("tsv"@) == Some(DataFormat::Tsv),
        format_of_extension("tab"@) == Some(DataFormat::Tsv),
        format_of_extension("json"@) == Some(DataFormat::Json),
        format_of_extension("jsonl"@) == Some(DataFormat::JsonLines),
        format_of_extension("ndjson"@) == Some(DataFormat::JsonLines),
        format_of_extension("xml"@) == Some(DataFormat::Xml),
        format_of_extension("yaml"@) == Some(DataFormat::Yaml),
        format_of_extension("yml"@) == Some(DataFormat::Yaml),
        format_of_extension("toml"@) == Some(DataFormat::Toml),
        format_of_extension("html"@) == Some(DataFormat::Html),
        format_of_extension("htm"@) == Some(DataFormat::Html),
        format_of_extension("sql"@) == Some(DataFormat::Sql),
        format_of_extension("log"@) == Some(DataFormat::Log),
        format_of_extension("eml"@) == Some(DataFormat::Email),
        format_of_extension("ics"@) == Some(DataFormat::Calendar),
        format_of_extension("ical"@) == Some(DataFormat::Calendar),
        format_of_extension("geojson"@) == Some(DataFormat::GeoJson),
        format_of_extension("kml"@) == Some(DataFormat::Kml),
        format_of_extension("gpx"@) == Some(DataFormat::Gpx),
        format_of_extension("md"@) == Some(DataFormat::Markdown),
        format_of_extension("markdown"@) == Some(DataFormat::Markdown),
{
    reveal_strlit("csv");
    assert("csv"@.len() == 3 && "csv"@[0] == 'c' && "csv"@[1] == 's');
    reveal_strlit("tsv");
    assert("tsv"@.len() == 3 && "tsv"@[0] == 't' && "tsv"@[1] == 's');
    reveal_strlit("tab");
    assert("tab"@.len() == 3 && "tab"@[0] == 't' && "tab"@[1] == 'a');
    reveal_strlit("json");
    assert("json"@.len() == 4 && "json"@[0] == 'j' && "json"@[1] == 's');
    reveal_strlit("jsonl");
    assert("jsonl"@.len() == 5 && "jsonl"@[0] == 'j' && "jsonl"@[1] == 's');
    reveal_strlit("ndjson");
    assert("ndjson"@.len() == 6 && "ndjson"@[0] == 'n' && "ndjson"@[1] == 'd');
    reveal_strlit("xml");
    assert("xml"@.len() == 3 && "xml"@[0] == 'x' && "xml"@[1] == 'm');
    reveal_strlit("yaml");
    assert("yaml"@.len() == 4 && "yaml"@[0] == 'y' && "yaml"@[1] == 'a');
    reveal_strlit("yml");
    assert("yml"@.len() == 3 && "yml"@[0] == 'y' && "yml"@[1] == 'm');
    reveal_strlit("toml");
    assert("toml"@.len() == 4 && "toml"@[0] == 't' && "toml"@[1] == 'o');
    reveal_strlit("html");
    assert("html"@.len() == 4 && "html"@[0] == 'h' && "html"@[1] == 't');
    reveal_strlit("htm");
    assert("htm"@.len() == 3 && "htm"@[0] == 'h' && "htm"@[1] == 't');
    reveal_strlit("sql");
    assert("sql"@.len() == 3 && "sql"@[0] == 's' && "sql"@[1] == 'q');
    reveal_strlit("log");
    assert("log"@.len() == 3 && "log"@[0] == 'l' && "log"@[1] == 'o');
    reveal_strlit("eml");
    assert("eml"@.len() == 3 && "eml"@[0] == 'e' && "eml"@[1] == 'm');
    reveal_strlit("ics");
    assert("ics"@.len() == 3 && "ics"@[0] == 'i' && "ics"@[1] == 'c');
    reveal_strlit("ical");
    assert("ical"@.len() == 4 && "ical"@[0] == 'i' && "ical"@[1] == 'c');
    reveal_strlit("geojson");
    assert("geojson"@.len() == 7 && "geojson"@[0] == 'g' && "geojson"@[1] == 'e');
    reveal_strlit("kml");
    assert("kml"@.len() == 3 && "kml"@[0] == 'k' && "kml"@[1] == 'm');
    reveal_strlit("gpx");
    assert("gpx"@.len() == 3 && "gpx"@[0] == 'g' && "gpx"@[1] == 'p');
    reveal_strlit("md");
    assert("md"@.len() == 2 && "md"@[0] == 'm' && "md"@[1] == 'd');
    reveal_strlit("markdown");
    assert("markdown"@.len() == 8 && "markdown"@[0] == 'm' && "markdown"@[1] == 'a');
}

proof fn lemma_extension_detected(l: Seq<char>, f: DataFormat)
    ensures
        (format_of_extension(l) == Some(f)) == (f != DataFormat::Unknown && format_extensions(
            f,
        ).contains(l)),
{
    let es = format_extensions(f);
    if es.contains(l) {
        let i = choose|i: int| 0 <= i < es.len() && es[i] == l;
        match f {
            DataFormat::Unknown => {},
            _ => {
                lemma_listed_extensions_detected();
                assert(i == 0 || i == 1);
            },
        }
    }
    if format_of_extension(l) == Some(f) {
        assert(es[0] == l || (es.len() > 1 && es[1] == l));
    }
}

fn eq_lit(a: &[char], lit: &str) -> (r: bool)
    ensures
        r == (a@ == lit@),
{
    let l = chars_of(lit);
    chars_eq(a, &l)
}

/// Detect format by file extension (case-insensitive).
pub fn detect_by_extension(ext: &str) -> (r: Option<DataFormat>)
    ensures
        r == format_of_extension(spec_to_lower(ext@)),
{
    let e = chars_of(ext);
    let l = to_lower(&e);
    if eq_lit(&l, "csv") {
        Some(DataFormat::Csv)
    } else if eq_lit(&l, "tsv") || eq_lit(&l, "tab") {
        Some(DataFormat::Tsv)
    } else if eq_lit(&l, "json") {
        Some(DataFormat::Json)
    } else if eq_lit(&l, "jsonl") || eq_lit(&l, "ndjson") {
        Some(DataFormat::JsonLines)
    } else if eq_lit(&l, "xml") {
        Some(DataFormat::Xml)
    } else if eq_lit(&l, "yaml") || eq_lit(&l, "yml") {
        Some(DataFormat::Yaml)
    } else if eq_lit(&l, "toml") {
        Some(DataFormat::Toml)
    } else if eq_lit(&l, "html") || eq_lit(&l, "htm") {
        Some(DataFormat::Html)
    } else if eq_lit(&l, "sql") {
        Some(DataFormat::Sql)
    } else if eq_lit(&l, "log") {
        Some(DataFormat::Log)
    } else if eq_lit(&l, "eml") {
        Some(DataFormat::Email)
    } else if eq_lit(&l, "ics") || eq_lit(&l, "ical") {
        Some(DataFormat::Calendar)
    } else if eq_lit(&l, "geojson") {
        Some(DataFormat::GeoJson)
    } else if eq_lit(&l, "kml") {
        Some(DataFormat::Kml)
    } else if eq_lit(&l, "gpx") {
        Some(DataFormat::Gpx)
    } else if eq_lit(&l, "md") || eq_lit(&l, "markdown") {
        Some(DataFormat::Markdown)
    } else {
        None
    }
}

/// The first (up to) five lines.
pub open spec fn first_five(ls: Seq<Seq<char>>) -> Seq<Seq<char>> {
    if ls.len() <= 5 {
        ls
    } else {
        ls.subrange(0, 5)
    }
}

/// Every line, once trimmed, starts with `{`.
pub open spec fn all_open_brace(ls: Seq<Seq<char>>) -> bool {
    forall|i: int| 0 <= i < ls.len() ==> starts_with(trim(#[trigger] ls[i]), seq!['{'])
}

/// A line that starts like a timestamped log entry.
pub open spec fn is_log_line(l: Seq<char>) -> bool {
    starts_with(l, "[20"@) || starts_with(l, "2024-"@) || starts_with(l, "2025-"@)
        || starts_with(l, "2026-"@) || starts_with(l, "INFO "@) || starts_with(l, "WARN "@)
        || starts_with(l, "ERROR "@) || starts_with(l, "DEBUG "@)
}

/// Number of lines that start like log entries.
pub open spec fn count_log_lines(ls: Seq<Seq<char>>) -> nat
    decreases ls.len(),
{
    if ls.len() == 0 {
        0
    } else {
        count_log_lines(ls.drop_last()) + if is_log_line(ls.last()) {
            1nat
        } else {
            0nat
        }
    }
}

/// Total occurrences of `c` over all lines.
pub open spec fn total_count(ls: Seq<Seq<char>>, c: char) -> nat
    decreases ls.len(),
{
    if ls.len() == 0 {
        0
    } else {
        total_count(ls.drop_last(), c) + count_char(ls.last(), c)
    }
}

/// What `detect_format` decides from the content alone, for the trimmed text `t`:
/// the format, its confidence in thousandths, and the description.
pub open spec fn detect_content(t: Seq<char>) -> (DataFormat, u32, Seq<char>) {
    let ls = lines(t);
    let first = first_five(ls);
    let upper = spec_to_upper(t);
    let commas = total_count(first, ',');
    let tabs = total_count(first, '\t');
    if t.len() == 0 {
        (DataFormat::Unknown, 0, "Empty input"@)
    } else if ls.len() > 1 && all_open_brace(first) {
        (DataFormat::JsonLines, 900, "Multiple JSON objects per line"@)
    } else if contains(t, "\"type\""@) && (contains(t, "\"FeatureCollection\""@) || contains(
        t,
        "\"Feature\""@,
    )) {
        (DataFormat::GeoJson, 920, "GeoJSON Feature"@)
    } else if (starts_with(t, seq!['{']) && ends_with(t, seq!['}'])) || (starts_with(
        t,
        seq!['['],
    ) && ends_with(t, seq![']'])) {
        (DataFormat::Json, 950, "JSON object/array"@)
    } else if starts_with(t, "<?xml"@) || starts_with(t, "<xml"@) {
        if contains(t, "<kml"@) {
            (DataFormat::Kml, 950, "KML root element"@)
        } else if contains(t, "<gpx"@) {
            (DataFormat::Gpx, 950, "GPX root element"@)
        } else {
            (DataFormat::Xml, 950, "XML declaration"@)
        }
    } else if starts_with(t, "<!DOCTYPE html"@) || starts_with(t, "<html"@) {
        (DataFormat::Html, 950, "HTML document"@)
    } else if starts_with(t, seq!['<']) && ends_with(t, seq!['>']) {
        (DataFormat::Xml, 700, "XML-like tags"@)
    } else if starts_with(t, "From:"@) || starts_with(t, "Subject:"@) || starts_with(
        t,
        "MIME-Version:"@,
    ) {
        (DataFormat::Email, 900, "Email header"@)
    } else if starts_with(t, "BEGIN:VCALENDAR"@) || starts_with(t, "BEGIN:VEVENT"@) {
        (DataFormat::Calendar, 950, "iCalendar format"@)
    } else if starts_with(t, "---"@) || (contains(t, ": "@) && !t.contains(',') && ls.len()
        > 2) {
        (DataFormat::Yaml, 750, "YAML frontmatter or key-value"@)
    } else if starts_with(t, seq!['[']) && !contains(t, "] "@) && t.contains('=') {
        (DataFormat::Toml, 700, "TOML section header"@)
    } else if starts_with(upper, "CREATE TABLE"@) || starts_with(upper, "INSERT INTO"@)
        || starts_with(upper, "SELECT "@) || starts_with(upper, "DROP TABLE"@) {
        (DataFormat::Sql, 900, "SQL statement"@)
    } else if count_log_lines(first) >= 3 {
        (DataFormat::Log, 850, "Timestamped log lines"@)
    } else if starts_with(t, seq!['#']) || contains(t, "\n## "@) || contains(t, "\n- "@) {
        (DataFormat::Markdown, 600, "Markdown structure"@)
    } else if tabs > commas && tabs >= first.len() {
        (
            DataFormat::Tsv,
            750,
            "Tab-delimited ("@ + decimal(tabs) + " tabs in "@ + decimal(first.len()) + " lines)"@,
        )
    } else if commas >= first.len() {
        (
            DataFormat::Csv,
            750,
            "Comma-delimited ("@ + decimal(commas) + " commas in "@ + decimal(first.len())
                + " lines)"@,
        )
    } else {
        (DataFormat::Unknown, 0, "No format detected"@)
    }
}

/// What `detect_format` returns: the extension decides when it names a known format
/// (confidence 0.9), and the content decides otherwise.
pub open spec fn detect_spec(data: Seq<char>, ext: Option<Seq<char>>) -> (DataFormat, u32, Seq<
    char,
>) {
    match ext {
        Some(e) => match format_of_extension(spec_to_lower(e)) {
            Some(f) => (f, 900, "Extension ."@ + e),
            None => detect_content(trim(data)),
        },
        None => detect_content(trim(data)),
    }
}

fn sw(t: &[char], lit: &str) -> (r: bool)
    ensures
        r == starts_with(t@, lit@),
{
    let l = chars_of(lit);
    starts_with_exec(t, &l)
}

fn has_lit(t: &[char], lit: &str) -> (r: bool)
    ensures
        r == contains(t@, lit@),
{
    let l = chars_of(lit);
    contains_exec(t, &l)
}

fn lit(s: &str) -> (r: Vec<char>)
    ensures
        r@ == s@,
{
    chars_of(s)
}

fn detection(format: DataFormat, confidence: u32, details: Vec<char>) -> (r: FormatDetection)
    ensures
        r.format == format,
        r.confidence == confidence,
        r.details@ == details@,
{
    FormatDetection { format, confidence, details: string_of(&details) }
}

fn is_log_line_exec(l: &[char]) -> (r: bool)
    ensures
        r == is_log_line(l@),
{
    sw(l, "[20") || sw(l, "2024-") || sw(l, "2025-") || sw(l, "2026-") || sw(l, "INFO ") || sw(
        l,
        "WARN ",
    ) || sw(l, "ERROR ") || sw(l, "DEBUG ")
}

/// Detection from the content of the trimmed text.
fn detect_trimmed(t: &[char]) -> (r: FormatDetection)
    ensures
        (r.format, r.confidence, r.details@) == detect_content(t@),
{
    if t.len() == 0 {
        return detection(DataFormat::Unknown, 0, lit("Empty input"));
    }
    let ls = lines_exec(t);
    let n_first: usize = if ls.len() <= 5 {
        ls.len()
    } else {
        5
    };
    let ghost first = first_five(views(ls@));
    assert(first.len() == n_first);
    assert(forall|i: int| 0 <= i < n_first ==> first[i] == ls@[i]@);
    // All of the first lines start with '{' once trimmed.
    let mut all_brace = true;
    let mut i: usize = 0;
    while i < n_first
        invariant
            i <= n_first <= ls@.len(),
            first.len() == n_first,
            forall|k: int| 0 <= k < n_first ==> first[k] == ls@[k]@,
            all_brace == forall|k: int| 0 <= k < i ==> starts_with(trim(#[trigger] first[k]), seq!['{']),
        decreases n_first - i,
    {
        let tl = trim_exec(&ls[i]);
        let open: Vec<char> = vec!['{'];
        assert(open@ =~= seq!['{']);
        if !starts_with_exec(&tl, &open) {
            all_brace = false;
        }
        assert(first[i as int] == ls@[i as int]@);
        i = i + 1;
    }
    if ls.len() > 1 && all_brace {
        return detection(DataFormat::JsonLines, 900, lit("Multiple JSON objects per line"));
    }
    if has_lit(t, "\"type\"") && (has_lit(t, "\"FeatureCollection\"") || has_lit(t, "\"Feature\"")) {
        return detection(DataFormat::GeoJson, 920, lit("GeoJSON Feature"));
    }
    let last = t[t.len() - 1];
    proof {
        lemma_single_char_affix(t@, '{');
        lemma_single_char_affix(t@, '}');
        lemma_single_char_affix(t@, '[');
        lemma_single_char_affix(t@, ']');
        lemma_single_char_affix(t@, '<');
        lemma_single_char_affix(t@, '>');
        lemma_single_char_affix(t@, '#');
    }
    if (t[0] == '{' && last == '}') || (t[0] == '[' && last == ']') {
        return detection(DataFormat::Json, 950, lit("JSON object/array"));
    }
    if sw(t, "<?xml") || sw(t, "<xml") {
        if has_lit(t, "<kml") {
            return detection(DataFormat::Kml, 950, lit("KML root element"));
        }
        if has_lit(t, "<gpx") {
            return detection(DataFormat::Gpx, 950, lit("GPX root element"));
        }
        return detection(DataFormat::Xml, 950, lit("XML declaration"));
    }
    if sw(t, "<!DOCTYPE html") || sw(t, "<html") {
        return detection(DataFormat::Html, 950, lit("HTML document"));
    }
    if t[0] == '<' && last == '>' {
        return detection(DataFormat::Xml, 700, lit("XML-like tags"));
    }
    if sw(t, "From:") || sw(t, "Subject:") || sw(t, "MIME-Version:") {
        return detection(DataFormat::Email, 900, lit("Email header"));
    }
    if sw(t, "BEGIN:VCALENDAR") || sw(t, "BEGIN:VEVENT") {
        return detection(DataFormat::Calendar, 950, lit("iCalendar format"));
    }
    if sw(t, "---") || (has_lit(t, ": ") && !contains_char(t, ',') && ls.len() > 2) {
        return detection(DataFormat::Yaml, 750, lit("YAML frontmatter or key-value"));
    }
    if t[0] == '[' && !has_lit(t, "] ") && contains_char(t, '=') {
        return detection(DataFormat::Toml, 700, lit("TOML section header"));
    }
    let upper = to_upper(t);
    if sw(&upper, "CREATE TABLE") || sw(&upper, "INSERT INTO") || sw(&upper, "SELECT ") || sw(
        &upper,
        "DROP TABLE",
    ) {
        return detection(DataFormat::Sql, 900, lit("SQL statement"));
    }
    // Count log-like lines, commas and tabs over the first lines.
    let mut log_matches: usize = 0;
    let mut commas: u128 = 0;
    let mut tabs: u128 = 0;
    let mut j: usize = 0;
    while j < n_first
        invariant
            j <= n_first <= ls@.len(),
            n_first <= 5,
            first.len() == n_first,
            forall|k: int| 0 <= k < n_first ==> first[k] == ls@[k]@,
            log_matches == count_log_lines(first.subrange(0, j as int)),
            log_matches <= j,
            commas == total_count(first.subrange(0, j as int), ','),
            tabs == total_count(first.subrange(0, j as int), '\t'),
            commas <= j * 0x1_0000_0000_0000_0000u128,
            tabs <= j * 0x1_0000_0000_0000_0000u128,
        decreases n_first - j,
    {
        assert(first.subrange(0, j + 1).drop_last() =~= first.subrange(0, j as int));
        if is_log_line_exec(&ls[j]) {
            log_matches = log_matches + 1;
        }
        let c = count_char_exec(&ls[j], ',');
        let tb = count_char_exec(&ls[j], '\t');
        commas = commas + c as u128;
        tabs = tabs + tb as u128;
        j = j + 1;
    }
    assert(first.subrange(0, n_first as int) =~= first);
    if log_matches >= 3 {
        return detection(DataFormat::Log, 850, lit("Timestamped log lines"));
    }
    if t[0] == '#' || has_lit(t, "\n## ") || has_lit(t, "\n- ") {
        return detection(DataFormat::Markdown, 600, lit("Markdown structure"));
    }
    if tabs > commas && tabs >= n_first as u128 {
        let mut d = lit("Tab-delimited (");
        push_all(&mut d, &decimal_exec(tabs));
        push_all(&mut d, &lit(" tabs in "));
        push_all(&mut d, &decimal_exec(n_first as u128));
        push_all(&mut d, &lit(" lines)"));
        return detection(DataFormat::Tsv, 750, d);
    }
    if commas >= n_first as u128 {
        let mut d = lit("Comma-delimited (");
        push_all(&mut d, &decimal_exec(commas));
        push_all(&mut d, &lit(" commas in "));
        push_all(&mut d, &decimal_exec(n_first as u128));
        push_all(&mut d, &lit(" lines)"));
        return detection(DataFormat::Csv, 750, d);
    }
    detection(DataFormat::Unknown, 0, lit("No format detected"))
}

/// Detect the format of data from its content and optional file extension.
pub fn detect_format(data: &str, extension: Option<&str>) -> (r: FormatDetection)
    ensures
        (r.format, r.confidence, r.details@) == detect_spec(
            data@,
            match extension {
                Some(e) => Some(e@),
                None => None,
            },
        ),
{
    if let Some(ext) = extension {
        if let Some(fmt) = detect_by_extension(ext) {
            let mut d = lit("Extension .");
            push_all(&mut d, &chars_of(ext));
            return detection(fmt, 900, d);
        }
    }
    let cs = chars_of(data);
    let t = trim_exec(&cs);
    detect_trimmed(&t)
}

} // verus!
