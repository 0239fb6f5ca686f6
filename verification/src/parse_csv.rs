use vstd::prelude::*;

verus! {

/// The error type of the `csv` crate, carried through unopened.
#[verifier::external_type_specification]
#[verifier::external_body]
pub struct ExCsvError(csv::Error);

/// The fields of the header record that the `csv` crate reads from `bytes`;
/// `None` where it reports an error.
pub uninterp spec fn csv_headers(bytes: Seq<u8>) -> Option<Seq<Seq<char>>>;

/// The fields of the records after the header record that the `csv` crate
/// reads from `bytes`; `None` where it reports an error for one of them.
pub uninterp spec fn csv_records(bytes: Seq<u8>) -> Option<Seq<Seq<Seq<char>>>>;

/// The texts of a row of fields.
pub open spec fn texts(row: Seq<String>) -> Seq<Seq<char>> {
    Seq::new(row.len(), |i: int| row[i]@)
}

/// The texts of the fields of a list of rows.
pub open spec fn table(rows: Seq<Vec<String>>) -> Seq<Seq<Seq<char>>> {
    Seq::new(rows.len(), |i: int| texts(rows[i]@))
}

/// Why a table could not be taken from a file.
#[derive(Debug, PartialEq, Eq)]
pub enum CsvError {
    /// The bytes are not records of fields of text; with what the `csv`
    /// crate says of it.
    Malformed(String),
    /// No column is headed by an underscore.
    MissingUnderscoreColumn,
    /// No column but the one headed by an underscore is there.
    MissingDataColumns,
    /// A row ends before the column headed by an underscore.
    ShortRow,
    /// The directory that a row names is not there.
    NotADirectory,
}

impl CsvError {
    /// What the error says, as a sequence of characters.
    pub open spec fn message(self) -> Seq<char> {
        match self {
            CsvError::Malformed(text) => text@,
            CsvError::MissingUnderscoreColumn => "Missing \"_\" column"@,
            CsvError::MissingDataColumns => "Missing data columns"@,
            CsvError::ShortRow => "A row has no field in the \"_\" column"@,
            CsvError::NotADirectory => "The \"_\" column in the CSV must correspond to dirs!"@,
        }
    }

    /// What the error says.
    pub fn to_string(&self) -> (text: String)
        ensures
            text@ == self.message(),
    {
        match self {
            CsvError::Malformed(text) => text.clone(),
            CsvError::MissingUnderscoreColumn => "Missing \"_\" column".to_owned(),
            CsvError::MissingDataColumns => "Missing data columns".to_owned(),
            CsvError::ShortRow => "A row has no field in the \"_\" column".to_owned(),
            CsvError::NotADirectory => "The \"_\" column in the CSV must correspond to dirs!".to_owned(),
        }
    }
}

/// A table with one directory of images for each row: the headers of the
/// data columns, the rows of their fields, and for each row the name of its
/// directory.
#[derive(Debug)]
pub struct CsvData {
    pub headers: Vec<String>,
    pub rows: Vec<Vec<String>>,
    pub row_dirs: Vec<String>,
}

/// What a table holds: headers, rows, and directory names, as texts.
pub struct CsvView {
    pub headers: Seq<Seq<char>>,
    pub rows: Seq<Seq<Seq<char>>>,
    pub row_dirs: Seq<Seq<char>>,
}

impl View for CsvData {
    type V = CsvView;

    open spec fn view(&self) -> CsvView {
        CsvView {
            headers: texts(self.headers@),
            rows: table(self.rows@),
            row_dirs: texts(self.row_dirs@),
        }
    }
}

/// The position of the first header that is an underscore; the number of
/// headers where none is.
pub open spec fn underscore_at(headers: Seq<Seq<char>>) -> int
    decreases headers.len(),
{
    if headers.len() == 0 {
        0
    } else if headers[0] == "_"@ {
        0
    } else {
        1 + underscore_at(headers.drop_first())
    }
}

/// The table that headers and records give. The first column headed by an
/// underscore names the directories; it is taken out of the headers and out
/// of every row, and what is left are the data columns, of which there must
/// be one at least.
pub open spec fn selected(headers: Seq<Seq<char>>, rows: Seq<Seq<Seq<char>>>) -> Result<
    CsvView,
    CsvError,
> {
    let at = underscore_at(headers);
    if at >= headers.len() {
        Err(CsvError::MissingUnderscoreColumn)
    } else if headers.len() == 1 {
        Err(CsvError::MissingDataColumns)
    } else if exists|r: int| 0 <= r < rows.len() && #[trigger] rows[r].len() <= at {
        Err(CsvError::ShortRow)
    } else {
        Ok(
            CsvView {
                headers: headers.remove(at),
                rows: Seq::new(rows.len(), |r: int| rows[r].remove(at)),
                row_dirs: Seq::new(rows.len(), |r: int| rows[r][at]),
            },
        )
    }
}

/// The underscore is at a position of the headers or at their end, and no
/// header before it is an underscore.
pub proof fn lemma_underscore_at(headers: Seq<Seq<char>>)
    ensures
        0 <= underscore_at(headers) <= headers.len(),
        underscore_at(headers) < headers.len() ==> headers[underscore_at(headers)] == "_"@,
        forall|i: int| 0 <= i < underscore_at(headers) ==> headers[i] != "_"@,
    decreases headers.len(),
{
    if headers.len() > 0 && headers[0] != "_"@ {
        let rest = headers.drop_first();
        lemma_underscore_at(rest);
        assert forall|i: int| 0 <= i < underscore_at(headers) implies headers[i] != "_"@ by {
            if i > 0 {
                assert(rest[i - 1] == headers[i]);
            }
        }
    }
}

/// Reads the header record of `bytes` with a reader of the `csv` crate in
/// its default setting, and gives the fields as strings. Trusted: the result
/// is what the crate reads, `csv_headers`, and an error where it reports one.
#[verifier::external_body]
fn read_headers(bytes: &[u8]) -> (result: Result<Vec<String>, csv::Error>)
    ensures
        match result {
            Ok(headers) => csv_headers(bytes@) == Some(texts(headers@)),
            Err(_) => csv_headers(bytes@) is None,
        },
{
    let mut reader = csv::Reader::from_reader(bytes);
    Ok(reader.headers()?.iter().map(String::from).collect())
}

/// Reads the records after the header record of `bytes` with a reader of
/// the `csv` crate in its default setting, and gives their fields as
/// strings. Trusted: the result is what the crate reads, `csv_records`, and
/// an error where it reports one for any record.
#[verifier::external_body]
fn read_records(bytes: &[u8]) -> (result: Result<Vec<Vec<String>>, csv::Error>)
    ensures
        match result {
            Ok(rows) => csv_records(bytes@) == Some(table(rows@)),
            Err(_) => csv_records(bytes@) is None,
        },
{
    let mut reader = csv::Reader::from_reader(bytes);
    let mut rows = Vec::new();
    for record in reader.records() {
        rows.push(record?.iter().map(String::from).collect());
    }
    Ok(rows)
}

/// What an error of the `csv` crate says, by its `to_string`. Trusted, and
/// nothing is claimed of the text.
#[verifier::external_body]
fn error_text(error: &csv::Error) -> String {
    error.to_string()
}

/// A copy of `row` without the field at `at`.
fn without_field(row: &Vec<String>, at: usize) -> (rest: Vec<String>)
    requires
        at < row@.len(),
    ensures
        texts(rest@) == texts(row@).remove(at as int),
{
    let mut rest: Vec<String> = Vec::new();
    let mut i: usize = 0;
    while i < row.len()
        invariant
            i <= row@.len(),
            at < row@.len(),
            rest@.len() == if i <= at {
                i as int
            } else {
                i - 1
            },
            forall|k: int| 0 <= k < rest@.len() ==> #[trigger] rest@[k]@ == if k < at {
                row@[k]@
            } else {
                row@[k + 1]@
            },
        decreases row@.len() - i,
    {
        if i != at {
            rest.push(row[i].clone());
        }
        i += 1;
    }
    assert(texts(rest@) =~= texts(row@).remove(at as int));
    rest
}

/// Takes the directory column out of a table read from a file: see
/// `selected`.
pub fn select_columns(headers: &Vec<String>, rows: &Vec<Vec<String>>) -> (result: Result<
    CsvData,
    CsvError,
>)
    ensures
        match result {
            Ok(data) => selected(texts(headers@), table(rows@)) == Ok::<CsvView, CsvError>(data@),
            Err(e) => selected(texts(headers@), table(rows@)) == Err::<CsvView, CsvError>(e),
        },
{
    let ghost heads = texts(headers@);
    let ghost cells = table(rows@);
    let underscore = "_".to_owned();
    let mut at: usize = 0;
    proof {
        assert(heads.skip(0) =~= heads);
    }
    while at < headers.len() && headers[at] != underscore
        invariant
            at <= headers@.len(),
            heads == texts(headers@),
            underscore@ == "_"@,
            underscore_at(heads) == at + underscore_at(heads.skip(at as int)),
        decreases headers@.len() - at,
    {
        proof {
            assert(heads.skip(at as int)[0] == headers@[at as int]@);
            assert(heads.skip(at as int).drop_first() =~= heads.skip(at as int + 1));
        }
        at += 1;
    }
    proof {
        if at < headers.len() {
            assert(heads.skip(at as int)[0] == headers@[at as int]@);
        }
        lemma_underscore_at(heads);
    }
    if at >= headers.len() {
        return Err(CsvError::MissingUnderscoreColumn);
    }
    if headers.len() == 1 {
        return Err(CsvError::MissingDataColumns);
    }
    let data_headers = without_field(headers, at);
    let mut data_rows: Vec<Vec<String>> = Vec::new();
    let mut row_dirs: Vec<String> = Vec::new();
    let mut r: usize = 0;
    while r < rows.len()
        invariant
            r <= rows@.len(),
            cells == table(rows@),
            heads == texts(headers@),
            at == underscore_at(heads),
            at < heads.len(),
            heads.len() != 1,
            data_rows@.len() == r,
            row_dirs@.len() == r,
            forall|k: int| 0 <= k < r ==> (#[trigger] cells[k]).len() > at,
            forall|k: int| 0 <= k < r ==> texts(#[trigger] data_rows@[k]@) == cells[k].remove(at as int),
            forall|k: int| 0 <= k < r ==> (#[trigger] row_dirs@[k])@ == cells[k][at as int],
        decreases rows@.len() - r,
    {
        let row = &rows[r];
        assert(cells[r as int] == texts(row@));
        if row.len() <= at {
            assert(cells[r as int].len() <= at);
            return Err(CsvError::ShortRow);
        }
        row_dirs.push(row[at].clone());
        data_rows.push(without_field(row, at));
        r += 1;
    }
    let data = CsvData { headers: data_headers, rows: data_rows, row_dirs };
    proof {
        let view = selected(heads, cells)->Ok_0;
        assert(data@.rows =~= view.rows);
        assert(data@.row_dirs =~= view.row_dirs);
    }
    Ok(data)
}

/// The directory of row `r` was found.
pub open spec fn has_dir(is_dir: Seq<bool>, r: int) -> bool {
    0 <= r < is_dir.len() && is_dir[r]
}

/// Holds a table to what was found on disk: `is_dir` says of each row
/// whether the directory that it names is there. The table is handed back
/// where every row has its directory, and refused with `NotADirectory`
/// otherwise.
pub fn require_dirs(data: CsvData, is_dir: &Vec<bool>) -> (result: Result<CsvData, CsvError>)
    ensures
        match result {
            Ok(checked) => checked == data && forall|r: int|
                0 <= r < data.row_dirs@.len() ==> #[trigger] has_dir(is_dir@, r),
            Err(e) => e == CsvError::NotADirectory && exists|r: int|
                0 <= r < data.row_dirs@.len() && !#[trigger] has_dir(is_dir@, r),
        },
{
    let mut r: usize = 0;
    while r < data.row_dirs.len()
        invariant
            r <= data.row_dirs@.len(),
            forall|k: int| 0 <= k < r ==> #[trigger] has_dir(is_dir@, k),
        decreases data.row_dirs@.len() - r,
    {
        if r >= is_dir.len() || !is_dir[r] {
            assert(!has_dir(is_dir@, r as int));
            return Err(CsvError::NotADirectory);
        }
        assert(has_dir(is_dir@, r as int));
        r += 1;
    }
    Ok(data)
}

/// Reads a table from the bytes of a file of comma-separated values. The
/// `csv` crate splits the bytes into a header record and records; where it
/// reports an error the result is `Malformed` with the text of that error.
/// The rest is `select_columns`.
pub fn parse_csv(bytes: &[u8]) -> (result: Result<CsvData, CsvError>)
    ensures
        match csv_headers(bytes@) {
            None => result matches Err(CsvError::Malformed(_)),
            Some(headers) => match csv_records(bytes@) {
                None => result matches Err(CsvError::Malformed(_)),
                Some(rows) => match result {
                    Ok(data) => selected(headers, rows) == Ok::<CsvView, CsvError>(data@),
                    Err(e) => selected(headers, rows) == Err::<CsvView, CsvError>(e),
                },
            },
        },
{
    let headers = match read_headers(bytes) {
        Ok(headers) => headers,
        Err(error) => {
            return Err(CsvError::Malformed(error_text(&error)));
        },
    };
    let rows = match read_records(bytes) {
        Ok(rows) => rows,
        Err(error) => {
            return Err(CsvError::Malformed(error_text(&error)));
        },
    };
    select_columns(&headers, &rows)
}

} // verus!
