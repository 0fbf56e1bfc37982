//! The typed records of the dataset and their parsing from delimited rows.

use vstd::prelude::*;
use vstd::string::StringExecFns;

use crate::strings::{parse_usize, spec_parse_usize};

verus! {

/// The data rows (header skipped) that parsing the delimited bytes yields,
/// up to the first malformed record.
pub uninterp spec fn csv_rows_of(data: Seq<u8>) -> Seq<Seq<Seq<char>>>;

/// Relies on csv::Reader::from_reader and its records iterator: reading
/// delimited text held in memory is a pure function of those bytes; the
/// reader yields the data records after the header row, and stops at the
/// first malformed one.
#[verifier::external_body]
fn csv_rows(data: &Vec<u8>) -> (rows: Vec<Vec<String>>)
    ensures
        rows.deep_view() == csv_rows_of(data@),
{
    let mut rdr = csv::Reader::from_reader(data.as_slice());
    let mut rows: Vec<Vec<String>> = Vec::new();
    for rec in rdr.records() {
        match rec {
            Ok(r) => rows.push(r.iter().map(|f| f.to_string()).collect()),
            Err(_) => break,
        }
    }
    rows
}

/// One coded value observation, as specification data.
pub ghost struct ValueModel {
    pub id: Seq<char>,
    pub language_id: Seq<char>,
    pub parameter_id: Seq<char>,
    pub value: usize,
    pub code_id: Seq<char>,
    pub comment: Seq<char>,
    pub source: Seq<char>,
    pub example_id: Seq<char>,
}

/// One coded value observation: a language, a parameter, the value the
/// language was coded with, and opaque metadata passed through unused.
#[derive(Debug, Clone)]
pub struct Value {
    pub id: String,
    pub language_id: String,
    pub parameter_id: String,
    pub value: usize,
    pub code_id: String,
    pub comment: String,
    pub source: String,
    pub example_id: String,
}

impl View for Value {
    type V = ValueModel;

    open spec fn view(&self) -> ValueModel {
        ValueModel {
            id: self.id@,
            language_id: self.language_id@,
            parameter_id: self.parameter_id@,
            value: self.value,
            code_id: self.code_id@,
            comment: self.comment@,
            source: self.source@,
            example_id: self.example_id@,
        }
    }
}

/// A typological parameter, as specification data.
pub ghost struct ParameterModel {
    pub id: Seq<char>,
    pub name: Seq<char>,
    pub description: Seq<char>,
    pub column_spec: Seq<char>,
    pub chapter_id: usize,
}

/// A typological parameter with its chapter grouping.
#[derive(Debug, Clone)]
pub struct Parameter {
    pub id: String,
    pub name: String,
    pub description: String,
    pub column_spec: String,
    pub chapter_id: usize,
}

impl View for Parameter {
    type V = ParameterModel;

    open spec fn view(&self) -> ParameterModel {
        ParameterModel {
            id: self.id@,
            name: self.name@,
            description: self.description@,
            column_spec: self.column_spec@,
            chapter_id: self.chapter_id,
        }
    }
}

/// A chapter of the atlas, as specification data.
pub ghost struct ChapterModel {
    pub id: Seq<char>,
    pub name: Seq<char>,
    pub description: Seq<char>,
    pub contributor: Seq<char>,
    pub citation: Seq<char>,
    pub wp_slug: Seq<char>,
    pub number: usize,
    pub area_id: Option<usize>,
    pub source: Seq<char>,
    pub contributor_id: Seq<char>,
    pub with_contributor_id: Seq<char>,
}

/// A chapter of the atlas, carrying the citation used in reports.
#[derive(Debug)]
pub struct Chapter {
    pub id: String,
    pub name: String,
    pub description: String,
    pub contributor: String,
    pub citation: String,
    pub wp_slug: String,
    pub number: usize,
    pub area_id: Option<usize>,
    pub source: String,
    pub contributor_id: String,
    pub with_contributor_id: String,
}

impl View for Chapter {
    type V = ChapterModel;

    open spec fn view(&self) -> ChapterModel {
        ChapterModel {
            id: self.id@,
            name: self.name@,
            description: self.description@,
            contributor: self.contributor@,
            citation: self.citation@,
            wp_slug: self.wp_slug@,
            number: self.number,
            area_id: self.area_id,
            source: self.source@,
            contributor_id: self.contributor_id@,
            with_contributor_id: self.with_contributor_id@,
        }
    }
}

/// The value record a row of fields denotes, if it has the right shape:
/// eight fields with a numeral in the value column.
pub open spec fn spec_value_from_fields(fields: Seq<Seq<char>>) -> Option<ValueModel> {
    if fields.len() == 8 && spec_parse_usize(fields[3]) is Some {
        Some(
            ValueModel {
                id: fields[0],
                language_id: fields[1],
                parameter_id: fields[2],
                value: spec_parse_usize(fields[3])->0,
                code_id: fields[4],
                comment: fields[5],
                source: fields[6],
                example_id: fields[7],
            },
        )
    } else {
        None
    }
}

/// The parameter a row of fields denotes, if it has the right shape:
/// five fields with a numeral in the chapter column.
pub open spec fn spec_parameter_from_fields(fields: Seq<Seq<char>>) -> Option<ParameterModel> {
    if fields.len() == 5 && spec_parse_usize(fields[4]) is Some {
        Some(
            ParameterModel {
                id: fields[0],
                name: fields[1],
                description: fields[2],
                column_spec: fields[3],
                chapter_id: spec_parse_usize(fields[4])->0,
            },
        )
    } else {
        None
    }
}

/// The chapter a row of fields denotes, if it has the right shape: eleven
/// fields with a numeral in the number column; the area column may fail to
/// parse and is then left empty.
pub open spec fn spec_chapter_from_fields(fields: Seq<Seq<char>>) -> Option<ChapterModel> {
    if fields.len() == 11 && spec_parse_usize(fields[6]) is Some {
        Some(
            ChapterModel {
                id: fields[0],
                name: fields[1],
                description: fields[2],
                contributor: fields[3],
                citation: fields[4],
                wp_slug: fields[5],
                number: spec_parse_usize(fields[6])->0,
                area_id: spec_parse_usize(fields[7]),
                source: fields[8],
                contributor_id: fields[9],
                with_contributor_id: fields[10],
            },
        )
    } else {
        None
    }
}

impl Value {
    /// Parse one row of fields into a value record.
    pub fn from_fields(fields: &Vec<String>) -> (r: Result<Value, String>)
        ensures
            match r {
                Ok(v) => spec_value_from_fields(fields@.map(|i: int, s: String| s@)) == Some(
                    v@,
                ),
                Err(_) => spec_value_from_fields(
                    fields@.map(|i: int, s: String| s@),
                ) is None,
            },
    {
        if fields.len() != 8 {
            return Err(String::from_str("row does not match column number"));
        }
        match parse_usize(fields[3].as_str()) {
            None => Err(String::from_str("value column is no numeral")),
            Some(value) => Ok(
                Value {
                    id: fields[0].clone(),
                    language_id: fields[1].clone(),
                    parameter_id: fields[2].clone(),
                    value,
                    code_id: fields[4].clone(),
                    comment: fields[5].clone(),
                    source: fields[6].clone(),
                    example_id: fields[7].clone(),
                },
            ),
        }
    }
}

impl Parameter {
    /// Parse one row of fields into a parameter.
    pub fn from_fields(fields: &Vec<String>) -> (r: Result<Parameter, String>)
        ensures
            match r {
                Ok(p) => spec_parameter_from_fields(fields@.map(|i: int, s: String| s@))
                    == Some(p@),
                Err(_) => spec_parameter_from_fields(
                    fields@.map(|i: int, s: String| s@),
                ) is None,
            },
    {
        if fields.len() != 5 {
            return Err(String::from_str("row does not match column number"));
        }
        match parse_usize(fields[4].as_str()) {
            None => Err(String::from_str("chapter column is no numeral")),
            Some(chapter_id) => Ok(
                Parameter {
                    id: fields[0].clone(),
                    name: fields[1].clone(),
                    description: fields[2].clone(),
                    column_spec: fields[3].clone(),
                    chapter_id,
                },
            ),
        }
    }
}

impl Chapter {
    /// Parse one row of fields into a chapter.
    pub fn from_fields(fields: &Vec<String>) -> (r: Result<Chapter, String>)
        ensures
            match r {
                Ok(c) => spec_chapter_from_fields(fields@.map(|i: int, s: String| s@)) == Some(
                    c@,
                ),
                Err(_) => spec_chapter_from_fields(
                    fields@.map(|i: int, s: String| s@),
                ) is None,
            },
    {
        if fields.len() != 11 {
            return Err(String::from_str("row does not match column number"));
        }
        match parse_usize(fields[6].as_str()) {
            None => Err(String::from_str("number column is no numeral")),
            Some(number) => {
                let area_id = parse_usize(fields[7].as_str());
                Ok(
                    Chapter {
                        id: fields[0].clone(),
                        name: fields[1].clone(),
                        description: fields[2].clone(),
                        contributor: fields[3].clone(),
                        citation: fields[4].clone(),
                        wp_slug: fields[5].clone(),
                        number,
                        area_id,
                        source: fields[8].clone(),
                        contributor_id: fields[9].clone(),
                        with_contributor_id: fields[10].clone(),
                    },
                )
            },
        }
    }
}

/// The value records of a row sequence, stopping at the first malformed row.
pub open spec fn spec_parse_values(rows: Seq<Seq<Seq<char>>>) -> Seq<ValueModel>
    decreases rows.len(),
{
    if rows.len() == 0 {
        Seq::empty()
    } else {
        match spec_value_from_fields(rows[0]) {
            Some(m) => seq![m] + spec_parse_values(rows.drop_first()),
            None => Seq::empty(),
        }
    }
}

/// The parameters of a row sequence, stopping at the first malformed row.
pub open spec fn spec_parse_parameters(rows: Seq<Seq<Seq<char>>>) -> Seq<ParameterModel>
    decreases rows.len(),
{
    if rows.len() == 0 {
        Seq::empty()
    } else {
        match spec_parameter_from_fields(rows[0]) {
            Some(m) => seq![m] + spec_parse_parameters(rows.drop_first()),
            None => Seq::empty(),
        }
    }
}

/// The chapters of a row sequence, stopping at the first malformed row.
pub open spec fn spec_parse_chapters(rows: Seq<Seq<Seq<char>>>) -> Seq<ChapterModel>
    decreases rows.len(),
{
    if rows.len() == 0 {
        Seq::empty()
    } else {
        match spec_chapter_from_fields(rows[0]) {
            Some(m) => seq![m] + spec_parse_chapters(rows.drop_first()),
            None => Seq::empty(),
        }
    }
}

/// Read the value records out of delimited bytes: every well-shaped data
/// row up to the first malformed one, which silently truncates the result.
pub fn read_values(data: &Vec<u8>) -> (r: Vec<Value>)
    ensures
        r@.map(|i: int, v: Value| v@) == spec_parse_values(csv_rows_of(data@)),
{
    let rows = csv_rows(data);
    let ghost rs = csv_rows_of(data@);
    proof {
        assert(rs.skip(0) =~= rs);
    }
    let mut out: Vec<Value> = Vec::new();
    let mut i: usize = 0;
    while i < rows.len()
        invariant
            i <= rows@.len(),
            rs == csv_rows_of(data@),
            rows.deep_view() == rs,
            spec_parse_values(rs) == out@.map(|j: int, v: Value| v@) + spec_parse_values(
                rs.skip(i as int),
            ),
        decreases rows@.len() - i,
    {
        let row = &rows[i];
        let ghost om = out@.map(|j: int, v: Value| v@);
        proof {
            assert(rs[i as int] == rows@[i as int].deep_view());
            assert(row@.map(|j: int, s: String| s@) =~= rs[i as int]);
            assert(rs.skip(i as int)[0] == rs[i as int]);
            assert(rs.skip(i as int).drop_first() =~= rs.skip(i as int + 1));
        }
        match Value::from_fields(row) {
            Ok(v) => {
                out.push(v);
                proof {
                    assert(out@.map(|j: int, v: Value| v@) =~= om.push(v@));
                    assert(om + spec_parse_values(rs.skip(i as int)) =~= om.push(v@)
                        + spec_parse_values(rs.skip(i as int + 1)));
                }
            },
            Err(_) => {
                proof {
                    assert(spec_parse_values(rs.skip(i as int)) =~= Seq::<ValueModel>::empty());
                    assert(om + Seq::<ValueModel>::empty() =~= om);
                }
                return out;
            },
        }
        i += 1;
    }
    proof {
        assert(rs.skip(rows@.len() as int) =~= Seq::<Seq<Seq<char>>>::empty());
        assert(out@.map(|j: int, v: Value| v@) + Seq::<ValueModel>::empty() =~= out@.map(
            |j: int, v: Value| v@,
        ));
    }
    out
}

/// Read the parameters out of delimited bytes, stopping at the first
/// malformed row.
pub fn read_parameters(data: &Vec<u8>) -> (r: Vec<Parameter>)
    ensures
        r@.map(|i: int, p: Parameter| p@) == spec_parse_parameters(csv_rows_of(data@)),
{
    let rows = csv_rows(data);
    let ghost rs = csv_rows_of(data@);
    proof {
        assert(rs.skip(0) =~= rs);
    }
    let mut out: Vec<Parameter> = Vec::new();
    let mut i: usize = 0;
    while i < rows.len()
        invariant
            i <= rows@.len(),
            rs == csv_rows_of(data@),
            rows.deep_view() == rs,
            spec_parse_parameters(rs) == out@.map(|j: int, p: Parameter| p@)
                + spec_parse_parameters(rs.skip(i as int)),
        decreases rows@.len() - i,
    {
        let row = &rows[i];
        let ghost om = out@.map(|j: int, p: Parameter| p@);
        proof {
            assert(rs[i as int] == rows@[i as int].deep_view());
            assert(row@.map(|j: int, s: String| s@) =~= rs[i as int]);
            assert(rs.skip(i as int)[0] == rs[i as int]);
            assert(rs.skip(i as int).drop_first() =~= rs.skip(i as int + 1));
        }
        match Parameter::from_fields(row) {
            Ok(p) => {
                out.push(p);
                proof {
                    assert(out@.map(|j: int, p: Parameter| p@) =~= om.push(p@));
                    assert(om + spec_parse_parameters(rs.skip(i as int)) =~= om.push(p@)
                        + spec_parse_parameters(rs.skip(i as int + 1)));
                }
            },
            Err(_) => {
                proof {
                    assert(spec_parse_parameters(rs.skip(i as int))
                        =~= Seq::<ParameterModel>::empty());
                    assert(om + Seq::<ParameterModel>::empty() =~= om);
                }
                return out;
            },
        }
        i += 1;
    }
    proof {
        assert(rs.skip(rows@.len() as int) =~= Seq::<Seq<Seq<char>>>::empty());
        assert(out@.map(|j: int, p: Parameter| p@) + Seq::<ParameterModel>::empty() =~= out@.map(
            |j: int, p: Parameter| p@,
        ));
    }
    out
}

/// Read the chapters out of delimited bytes, stopping at the first
/// malformed row.
pub fn read_chapters(data: &Vec<u8>) -> (r: Vec<Chapter>)
    ensures
        r@.map(|i: int, c: Chapter| c@) == spec_parse_chapters(csv_rows_of(data@)),
{
    let rows = csv_rows(data);
    let ghost rs = csv_rows_of(data@);
    proof {
        assert(rs.skip(0) =~= rs);
    }
    let mut out: Vec<Chapter> = Vec::new();
    let mut i: usize = 0;
    while i < rows.len()
        invariant
            i <= rows@.len(),
            rs == csv_rows_of(data@),
            rows.deep_view() == rs,
            spec_parse_chapters(rs) == out@.map(|j: int, c: Chapter| c@) + spec_parse_chapters(
                rs.skip(i as int),
            ),
        decreases rows@.len() - i,
    {
        let row = &rows[i];
        let ghost om = out@.map(|j: int, c: Chapter| c@);
        proof {
            assert(rs[i as int] == rows@[i as int].deep_view());
            assert(row@.map(|j: int, s: String| s@) =~= rs[i as int]);
            assert(rs.skip(i as int)[0] == rs[i as int]);
            assert(rs.skip(i as int).drop_first() =~= rs.skip(i as int + 1));
        }
        match Chapter::from_fields(row) {
            Ok(c) => {
                out.push(c);
                proof {
                    assert(out@.map(|j: int, c: Chapter| c@) =~= om.push(c@));
                    assert(om + spec_parse_chapters(rs.skip(i as int)) =~= om.push(c@)
                        + spec_parse_chapters(rs.skip(i as int + 1)));
                }
            },
            Err(_) => {
                proof {
                    assert(spec_parse_chapters(rs.skip(i as int))
                        =~= Seq::<ChapterModel>::empty());
                    assert(om + Seq::<ChapterModel>::empty() =~= om);
                }
                return out;
            },
        }
        i += 1;
    }
    proof {
        assert(rs.skip(rows@.len() as int) =~= Seq::<Seq<Seq<char>>>::empty());
        assert(out@.map(|j: int, c: Chapter| c@) + Seq::<ChapterModel>::empty() =~= out@.map(
            |j: int, c: Chapter| c@,
        ));
    }
    out
}

} // verus!
