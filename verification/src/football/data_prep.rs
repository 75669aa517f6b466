//! Reading results files into typed tables and assembling the master table.

use vstd::prelude::*;
use crate::data::{
    convert_data, data_from_token, data_views, generate_flexdata_from_str, DataView, FlexData, FlexDataType,
    FlexDataVector, FlexIndex, RowView,
};
use crate::ordmap::{entries_map, lemma_entries_map_take, OrdMap, OrderedKey};
use crate::table::{
    column_of, duplicate_texts, not_blank_rows, row_views, rows_reach, text_views, FlexTable, TableView,
};
use crate::dates::{dmy_day_number, dmy_days};
use crate::text::{
    all_digits, float_text_ok, is_float_text, is_mantissa, is_number, is_sign, parse_i64, spec_parse_i64, string_chars, trim,
    trim_text, utf8_string, text_to_string,
};

verus! {

broadcast use vstd::seq_lib::group_seq_properties;

/// An entry is empty or parses as an `i64`.
pub open spec fn int_entry(s: Seq<char>) -> bool {
    s.len() == 0 || spec_parse_i64(s) is Some
}

/// An entry is empty or parses as an `f64`.
pub open spec fn dbl_entry(s: Seq<char>) -> bool {
    s.len() == 0 || is_float_text(s)
}

/// The type of a column of entries: `Int` when every entry is empty or an
/// integer, else `Dbl` when every entry is empty or a decimal number, else
/// `Str`.
pub open spec fn spec_series_type(series: Seq<Seq<char>>) -> FlexDataType {
    if forall|i: int| 0 <= i < series.len() ==> int_entry(#[trigger] series[i]) {
        FlexDataType::Int
    } else if forall|i: int| 0 <= i < series.len() ==> dbl_entry(#[trigger] series[i]) {
        FlexDataType::Dbl
    } else {
        FlexDataType::Str
    }
}

/// Infers the type of a column from its entries.
pub fn series_type(series: &Vec<String>) -> (r: FlexDataType)
    ensures
        r == spec_series_type(text_views(series@)),
{
    let ghost s = text_views(series@);
    let mut all_int = true;
    let mut all_dbl = true;
    let mut i: usize = 0;
    while i < series.len()
        invariant
            i <= series@.len(),
            s == text_views(series@),
            all_int == forall|j: int| 0 <= j < i ==> int_entry(#[trigger] s[j]),
            all_dbl == forall|j: int| 0 <= j < i ==> dbl_entry(#[trigger] s[j]),
        decreases series@.len() - i,
    {
        let cs = string_chars(&series[i]);
        assert(cs@ == s[i as int]);
        let empty = cs.len() == 0;
        let is_int = empty || parse_i64(&cs).is_some();
        let is_dbl = empty || float_text_ok(&cs);
        let ghost before_int = all_int;
        all_int = all_int && is_int;
        all_dbl = all_dbl && is_dbl;
        i = i + 1;
        assert(all_int == forall|j: int| 0 <= j < i ==> int_entry(#[trigger] s[j])) by {
            if !before_int {
                let w = choose|j: int| 0 <= j < i - 1 && !int_entry(#[trigger] s[j]);
                assert(0 <= w < i && !int_entry(s[w]));
            }
        }
        assert(all_dbl == forall|j: int| 0 <= j < i ==> dbl_entry(#[trigger] s[j])) by {
            if !(forall|j: int| 0 <= j < i - 1 ==> dbl_entry(#[trigger] s[j])) {
                let w = choose|j: int| 0 <= j < i - 1 && !dbl_entry(#[trigger] s[j]);
                assert(0 <= w < i && !dbl_entry(s[w]));
            }
        }
    }
    if all_int {
        FlexDataType::Int
    } else if all_dbl {
        FlexDataType::Dbl
    } else {
        FlexDataType::Str
    }
}

/// Every text that `str::parse::<i64>` accepts, `str::parse::<f64>` accepts
/// too.
proof fn lemma_int_text_is_float(s: Seq<char>)
    requires
        spec_parse_i64(s) is Some,
    ensures
        is_float_text(s),
{
    let b = if s.len() > 0 && is_sign(s[0]) { s.drop_first() } else { s };
    assert(b.take(b.len() as int) =~= b);
    assert(is_mantissa(b.take(b.len() as int)));
    assert(is_number(b));
}

/// The type of a column follows what the standard parsers accept of its
/// non-empty entries: it is `Int` exactly when `str::parse::<i64>` accepts
/// every one of them, and it is `Int` or `Dbl` (not `Str`) exactly when
/// `str::parse::<f64>` accepts every one of them, negative and signed
/// numbers included.
pub proof fn law_series_type_by_parse(series: Seq<Seq<char>>)
    ensures
        (spec_series_type(series) == FlexDataType::Int) <==> (forall|i: int|
            0 <= i < series.len() ==> series[i].len() == 0 || spec_parse_i64(#[trigger] series[i]) is Some),
        (spec_series_type(series) != FlexDataType::Str) <==> (forall|i: int|
            0 <= i < series.len() ==> series[i].len() == 0 || is_float_text(#[trigger] series[i])),
{
    if forall|i: int| 0 <= i < series.len() ==> int_entry(#[trigger] series[i]) {
        assert forall|i: int| 0 <= i < series.len() implies series[i].len() == 0 || is_float_text(
            #[trigger] series[i],
        ) by {
            if series[i].len() != 0 {
                assert(int_entry(series[i]));
                lemma_int_text_is_float(series[i]);
            }
        }
    }
}

/// The characters of bytes that are not UTF-8: printable ASCII bytes stand
/// for themselves, every other byte for a space.
pub open spec fn ascii_fallback(bytes: Seq<u8>) -> Seq<char> {
    bytes.map_values(|b: u8| if 31 < b && b < 128 { b as char } else { ' ' })
}

/// The text of a field's bytes: their UTF-8 decoding when they are UTF-8,
/// else `ascii_fallback`.
pub open spec fn field_text(bytes: Seq<u8>) -> Seq<char> {
    if vstd::utf8::valid_utf8(bytes) {
        vstd::utf8::decode_utf8(bytes)
    } else {
        ascii_fallback(bytes)
    }
}

/// A cleaned field: its text, with `NA` read as empty, without leading and
/// trailing whitespace.
pub open spec fn clean_token(bytes: Seq<u8>) -> Seq<char> {
    let t = field_text(bytes);
    trim(if t == seq!['N', 'A'] { Seq::empty() } else { t })
}

/// Cleans one field of a record (see `clean_token`).
pub fn clean_field(entry: &Vec<u8>) -> (r: String)
    ensures
        r@ == clean_token(entry@),
{
    let text: Vec<char> = match utf8_string(entry.clone()) {
        Some(s) => string_chars(&s),
        None => {
            let mut t: Vec<char> = Vec::new();
            let mut i: usize = 0;
            while i < entry.len()
                invariant
                    i <= entry@.len(),
                    t@ == ascii_fallback(entry@.take(i as int)),
                decreases entry@.len() - i,
            {
                let b = entry[i];
                let c = if 31 < b && b < 128 { b as char } else { ' ' };
                t.push(c);
                i = i + 1;
                assert(t@ =~= ascii_fallback(entry@.take(i as int)));
            }
            assert(entry@.take(i as int) =~= entry@);
            t
        },
    };
    assert(text@ == field_text(entry@));
    let is_na = text.len() == 2 && text[0] == 'N' && text[1] == 'A';
    assert(is_na == (text@ == seq!['N', 'A'])) by {
        if text@ == seq!['N', 'A'] {
            assert(text@[0] == 'N' && text@[1] == 'A');
        }
        if is_na {
            assert(text@ =~= seq!['N', 'A']);
        }
    }
    let base: Vec<char> = if is_na { Vec::new() } else { text };
    assert(base@ =~= (if field_text(entry@) == seq!['N', 'A'] { Seq::empty() } else { field_text(entry@) }));
    let t = trim_text(&base);
    text_to_string(&t)
}


/// A column while a file is read: its header and its entries so far.
pub type ColumnView = (Seq<char>, Seq<Seq<char>>);

/// The views of columns.
pub open spec fn column_views(v: Seq<(String, Vec<String>)>) -> Seq<ColumnView> {
    v.map_values(|c: (String, Vec<String>)| (c.0@, text_views(c.1@)))
}

/// The views of records of raw fields.
pub open spec fn record_views(v: Seq<Vec<Vec<u8>>>) -> Seq<Seq<Seq<u8>>> {
    v.map_values(|r: Vec<Vec<u8>>| r@.map_values(|f: Vec<u8>| f@))
}

/// The columns before any record: one per header, with no entries.
pub open spec fn start_columns(headers: Seq<Seq<char>>) -> Seq<ColumnView> {
    headers.map_values(|h: Seq<char>| (h, Seq::<Seq<char>>::empty()))
}

/// The columns paired with the fields of a record, each with the cleaned
/// field added (as many as there are both columns and fields).
pub open spec fn paired_columns(cols: Seq<ColumnView>, rec: Seq<Seq<u8>>) -> Seq<ColumnView> {
    let n = if cols.len() < rec.len() { cols.len() } else { rec.len() };
    Seq::new(n, |j: int| (cols[j].0, cols[j].1.push(clean_token(rec[j]))))
}

/// The columns after one more record: the paired columns whose header is
/// not empty.
pub open spec fn add_record(cols: Seq<ColumnView>, rec: Seq<Seq<u8>>) -> Seq<ColumnView> {
    paired_columns(cols, rec).filter(|c: ColumnView| c.0.len() > 0)
}

/// The columns after reading the records in order.
pub open spec fn read_columns(headers: Seq<Seq<char>>, records: Seq<Seq<Seq<u8>>>) -> Seq<
    ColumnView,
>
    decreases records.len(),
{
    if records.len() == 0 {
        start_columns(headers)
    } else {
        add_record(read_columns(headers, records.drop_last()), records.last())
    }
}

/// The type of each header: that of the last column with the header.
pub open spec fn column_types(cols: Seq<ColumnView>) -> Map<Seq<char>, FlexDataType>
    decreases cols.len(),
{
    if cols.len() == 0 {
        Map::empty()
    } else {
        column_types(cols.drop_last()).insert(cols.last().0, spec_series_type(cols.last().1))
    }
}

/// The value of entry `k` of column `j`, read with the type of its header.
pub open spec fn column_entry(cols: Seq<ColumnView>, j: int, k: int) -> DataView {
    data_from_token(cols[j].1[k], column_types(cols)[cols[j].0])
}

/// Record `k` of the columns: entry `k` of each column.
pub open spec fn column_row(cols: Seq<ColumnView>, k: int) -> RowView {
    RowView { index: k as usize, data: Seq::new(cols.len(), |j: int| column_entry(cols, j, k)) }
}

/// The table of columns that each hold `n` entries: one record per entry
/// position, each entry read with the type of its header.
pub open spec fn columns_table(cols: Seq<ColumnView>, n: nat) -> TableView {
    TableView {
        labels: cols.map_values(|c: ColumnView| c.0),
        datatypes: cols.map_values(|c: ColumnView| column_types(cols)[c.0]),
        rows: Seq::new(n, |k: int| column_row(cols, k)),
    }
}

proof fn lemma_column_types_dom(cols: Seq<ColumnView>, j: int)
    requires
        0 <= j < cols.len(),
    ensures
        column_types(cols).contains_key(cols[j].0),
    decreases cols.len(),
{
    if j < cols.len() - 1 {
        lemma_column_types_dom(cols.drop_last(), j);
    }
}

/// A copy of a list of strings with one more at the end.
fn texts_push(v: &Vec<String>, s: String) -> (r: Vec<String>)
    ensures
        text_views(r@) == text_views(v@).push(s@),
{
    let mut r = duplicate_texts(v);
    let ghost before = text_views(r@);
    r.push(s);
    assert(text_views(r@) =~= before.push(s@));
    r
}

/// The columns after one more record (see `add_record`).
fn columns_add_record(cols: &Vec<(String, Vec<String>)>, rec: &Vec<Vec<u8>>, count: Ghost<nat>) -> (r: Vec<
    (String, Vec<String>),
>)
    requires
        forall|j: int| 0 <= j < cols@.len() ==> (#[trigger] column_views(cols@)[j]).1.len() == count@,
    ensures
        column_views(r@) == add_record(column_views(cols@), rec@.map_values(|f: Vec<u8>| f@)),
        forall|j: int| 0 <= j < r@.len() ==> (#[trigger] column_views(r@)[j]).1.len() == count@ + 1,
{
    let ghost cv = column_views(cols@);
    let ghost rv = rec@.map_values(|f: Vec<u8>| f@);
    let ghost pc = paired_columns(cv, rv);
    let ghost pred = |c: ColumnView| c.0.len() > 0;
    let n = if cols.len() < rec.len() { cols.len() } else { rec.len() };
    let mut out: Vec<(String, Vec<String>)> = Vec::new();
    let mut j: usize = 0;
    while j < n
        invariant
            j <= n,
            n == pc.len(),
            n <= cols@.len(),
            n <= rec@.len(),
            cv == column_views(cols@),
            rv == rec@.map_values(|f: Vec<u8>| f@),
            pc == paired_columns(cv, rv),
            pred == (|c: ColumnView| c.0.len() > 0),
            forall|t: int| 0 <= t < cols@.len() ==> (#[trigger] cv[t]).1.len() == count@,
            column_views(out@) == pc.take(j as int).filter(pred),
            forall|t: int| 0 <= t < out@.len() ==> (#[trigger] column_views(out@)[t]).1.len() == count@ + 1,
        decreases n - j,
    {
        proof {
            pc.take(j as int).lemma_filter_push(pc[j as int], pred);
            assert(pc.take(j + 1) =~= pc.take(j as int).push(pc[j as int]));
        }
        let name = &cols[j].0;
        if !name.as_str().is_empty() {
            let tok = clean_field(&rec[j]);
            let toks = texts_push(&cols[j].1, tok);
            let ghost before = column_views(out@);
            out.push((name.clone(), toks));
            assert(column_views(out@) =~= before.push(pc[j as int]));
        }
        j = j + 1;
    }
    assert(pc.take(n as int) =~= pc);
    out
}

/// Reads the columns of a file from its header row and its records of raw
/// fields: the types of its headers and the typed table. Each record adds
/// its cleaned fields to the columns it pairs with and drops the columns it
/// does not reach and those with an empty header.
pub fn hdr_types(headers: &Vec<String>, records: &Vec<Vec<Vec<u8>>>) -> (r: (
    OrdMap<Vec<char>, FlexDataType>,
    FlexTable,
))
    ensures
        ({
            let cols = read_columns(text_views(headers@), record_views(records@));
            &&& r.0.wf()
            &&& r.0.map() == column_types(cols)
            &&& r.1@ == columns_table(cols, records@.len())
        }),
{
    let ghost hv = text_views(headers@);
    let ghost rvs = record_views(records@);
    let mut cols: Vec<(String, Vec<String>)> = Vec::new();
    let mut h: usize = 0;
    while h < headers.len()
        invariant
            h <= headers@.len(),
            hv == text_views(headers@),
            column_views(cols@) == start_columns(hv.take(h as int)),
        decreases headers@.len() - h,
    {
        let ghost before = column_views(cols@);
        let ghost old_cols = cols@;
        let e: Vec<String> = Vec::new();
        assert(text_views(e@) =~= Seq::<Seq<char>>::empty());
        let pair = (headers[h].clone(), e);
        assert(pair.0@ == hv[h as int]);
        cols.push(pair);
        assert(cols@ == old_cols.push(pair));
        assert(column_views(cols@) =~= before.push((hv[h as int], Seq::<Seq<char>>::empty())));
        assert(hv.take(h + 1) =~= hv.take(h as int).push(hv[h as int]));
        assert(column_views(cols@) =~= start_columns(hv.take(h + 1)));
        h = h + 1;
    }
    assert(hv.take(h as int) =~= hv);
    assert(read_columns(hv, rvs.take(0)) == start_columns(hv));
    let mut i: usize = 0;
    while i < records.len()
        invariant
            i <= records@.len(),
            hv == text_views(headers@),
            rvs == record_views(records@),
            column_views(cols@) == read_columns(hv, rvs.take(i as int)),
            forall|j: int| 0 <= j < cols@.len() ==> (#[trigger] column_views(cols@)[j]).1.len() == i,
        decreases records@.len() - i,
    {
        let next = columns_add_record(&cols, &records[i], Ghost(i as nat));
        assert(rvs.take(i + 1).drop_last() =~= rvs.take(i as int));
        assert(rvs.take(i + 1).last() == records@[i as int]@.map_values(|f: Vec<u8>| f@));
        cols = next;
        i = i + 1;
    }
    assert(rvs.take(i as int) =~= rvs);
    let ghost cv = column_views(cols@);
    let mut types: OrdMap<Vec<char>, FlexDataType> = OrdMap::new();
    let mut c: usize = 0;
    while c < cols.len()
        invariant
            c <= cols@.len(),
            cv == column_views(cols@),
            types.wf(),
            types.map() == column_types(cv.take(c as int)),
        decreases cols@.len() - c,
    {
        let name = string_chars(&cols[c].0);
        let t = series_type(&cols[c].1);
        assert(cv.take(c + 1).drop_last() =~= cv.take(c as int));
        types.insert(name, t);
        c = c + 1;
    }
    assert(cv.take(c as int) =~= cv);
    let ghost tm = column_types(cv);
    let mut labels: Vec<String> = Vec::new();
    let mut dtypes: Vec<FlexDataType> = Vec::new();
    let mut c: usize = 0;
    while c < cols.len()
        invariant
            c <= cols@.len(),
            cv == column_views(cols@),
            tm == column_types(cv),
            types.wf(),
            types.map() == tm,
            labels@.len() == c,
            dtypes@.len() == c,
            forall|j: int| 0 <= j < c ==> (#[trigger] labels@[j])@ == cv[j].0,
            forall|j: int| 0 <= j < c ==> #[trigger] dtypes@[j] == tm[cv[j].0],
        decreases cols@.len() - c,
    {
        let name = string_chars(&cols[c].0);
        proof {
            lemma_column_types_dom(cv, c as int);
        }
        let t = match types.get(&name) {
            Some(t) => *t,
            None => FlexDataType::Str,
        };
        labels.push(cols[c].0.clone());
        dtypes.push(t);
        c = c + 1;
    }
    let n = records.len();
    let mut rows: Vec<FlexDataVector> = Vec::new();
    let mut k: usize = 0;
    while k < n
        invariant
            k <= n,
            n == records@.len(),
            cv == column_views(cols@),
            tm == column_types(cv),
            dtypes@.len() == cols@.len(),
            forall|j: int| 0 <= j < cols@.len() ==> #[trigger] dtypes@[j] == tm[cv[j].0],
            forall|j: int| 0 <= j < cols@.len() ==> (#[trigger] cv[j]).1.len() == n,
            rows@.len() == k,
            forall|t: int|
                0 <= t < k ==> (#[trigger] rows@[t])@ == columns_table(cv, n as nat).rows[t],
        decreases n - k,
    {
        let mut data: Vec<FlexData> = Vec::new();
        let mut j: usize = 0;
        while j < cols.len()
            invariant
                j <= cols@.len(),
                k < n,
                cv == column_views(cols@),
                tm == column_types(cv),
                dtypes@.len() == cols@.len(),
                forall|t: int| 0 <= t < cols@.len() ==> #[trigger] dtypes@[t] == tm[cv[t].0],
                forall|t: int| 0 <= t < cols@.len() ==> (#[trigger] cv[t]).1.len() == n,
                data@.len() == j,
                forall|t: int|
                    0 <= t < j ==> (#[trigger] data@[t])@ == data_from_token(cv[t].1[k as int], tm[cv[t].0]),
            decreases cols@.len() - j,
        {
            assert(cv[j as int].1[k as int] == cols@[j as int].1@[k as int]@);
            data.push(generate_flexdata_from_str(&cols[j].1[k], &dtypes[j]));
            j = j + 1;
        }
        let ghost dv = data_views(data@);
        let ghost want = columns_table(cv, n as nat).rows[k as int].data;
        assert(dv =~= want) by {
            assert(want == column_row(cv, k as int).data);
            assert forall|t: int| 0 <= t < cols@.len() implies #[trigger] dv[t] == want[t] by {
                assert(dv[t] == data@[t]@);
                assert(want[t] == column_entry(cv, t, k as int));
            }
        }
        let row = FlexDataVector::new(FlexIndex::Uint(k), data);
        assert(row@.data == dv);
        rows.push(row);
        k = k + 1;
    }
    let table = FlexTable::from_vecs(labels, dtypes, rows);
    assert(table@ =~= columns_table(cv, n as nat)) by {
        assert(table@.labels =~= columns_table(cv, n as nat).labels);
        assert(table@.datatypes =~= columns_table(cv, n as nat).datatypes);
        assert(table@.rows =~= columns_table(cv, n as nat).rows);
    }
    (types, table)
}


/// What the csv crate reads from the bytes of a results file (flexible
/// record lengths, a backslash as the escape character): its header row and the
/// raw fields of its records; `None` where it reports an error.
pub uninterp spec fn csv_records(bytes: Seq<u8>) -> Option<(Seq<Seq<char>>, Seq<Seq<Seq<u8>>>)>;

/// Parses CSV bytes with `csv::ReaderBuilder` (flexible, backslash escape):
/// `Reader::headers`, then `Reader::byte_records`. The contract claims that
/// the header row and the records are a function of the bytes (named
/// `csv_records`) and that the call fails exactly where that gives `None`;
/// the text of the error is left unsaid.
#[verifier::external_body]
fn parse_csv_bytes(bytes: &Vec<u8>) -> (r: Result<(Vec<String>, Vec<Vec<Vec<u8>>>), String>)
    ensures
        r is Ok <==> csv_records(bytes@) is Some,
        r matches Ok(p) ==> csv_records(bytes@) == Some((text_views(p.0@), record_views(p.1@))),
{
    let mut rdr = csv::ReaderBuilder::new().flexible(true).escape(Some(b'\\')).from_reader(bytes.as_slice());
    let headers: Vec<String> = rdr.headers().map_err(|e| e.to_string())?.iter().map(|h| h.to_string()).collect();
    let records: Result<Vec<Vec<Vec<u8>>>, csv::Error> =
        rdr.byte_records().map(|r| r.map(|r| r.iter().map(|f| f.to_vec()).collect())).collect();
    Ok((headers, records.map_err(|e| e.to_string())?))
}

/// Reads a results file from its bytes: the types of its headers and the
/// typed table (see `hdr_types`), or the csv crate's error.
pub fn hdr_types_bytes(bytes: &Vec<u8>) -> (r: Result<(OrdMap<Vec<char>, FlexDataType>, FlexTable), String>)
    ensures
        r is Ok <==> csv_records(bytes@) is Some,
        r matches Ok(p) ==> ({
            let (h, rs) = csv_records(bytes@).unwrap();
            let cols = read_columns(h, rs);
            &&& p.0.wf()
            &&& p.0.map() == column_types(cols)
            &&& p.1@ == columns_table(cols, rs.len())
        }),
{
    match parse_csv_bytes(bytes) {
        Ok((headers, records)) => Ok(hdr_types(&headers, &records)),
        Err(e) => Err(e),
    }
}


/// The points of a match for the home and the away side from its result
/// (`H`, `D` or `A`): three for a win, one each for anything else.
pub open spec fn match_points(ftr: Seq<char>) -> (u32, u32) {
    if ftr == seq!['A'] {
        (0, 3)
    } else if ftr == seq!['H'] {
        (3, 0)
    } else {
        (1, 1)
    }
}

/// The points of a match from its result (see `match_points`).
pub fn points_for_result(ftr: &String) -> (r: (u32, u32))
    ensures
        r == match_points(ftr@),
{
    let cs = string_chars(ftr);
    if cs.len() == 1 && cs[0] == 'A' {
        assert(cs@ =~= seq!['A']);
        (0, 3)
    } else if cs.len() == 1 && cs[0] == 'H' {
        assert(cs@ =~= seq!['H']);
        assert(cs@ != seq!['A']);
        (3, 0)
    } else {
        assert(cs@ != seq!['A']) by {
            if cs@ == seq!['A'] {
                assert(cs@[0] == 'A');
            }
        }
        assert(cs@ != seq!['H']) by {
            if cs@ == seq!['H'] {
                assert(cs@[0] == 'H');
            }
        }
        (1, 1)
    }
}

/// The text of a string value (empty for other values).
pub open spec fn str_of(d: DataView) -> Seq<char> {
    match d {
        DataView::Str(s) => s,
        _ => Seq::empty(),
    }
}

/// A match record from which the master table can be built: its result
/// (column 6) is a string and its date (column 1) is a `dd/mm/yy` date.
pub open spec fn game_ready(r: RowView) -> bool {
    &&& r.data.len() > 6
    &&& r.data[6] is Str
    &&& r.data[1] is Str
    &&& dmy_days(str_of(r.data[1])) is Some
}

/// The day number of the date of a match record.
pub open spec fn game_day(r: RowView) -> int {
    dmy_days(str_of(r.data[1])).unwrap() as int
}

/// A match: the place of its season and of its division, and its record.
pub type GameView = (int, int, RowView);

/// The matches of one table.
pub open spec fn table_games(t: TableView, s: int, d: int) -> Seq<GameView> {
    t.rows.map_values(|r: RowView| (s, d, r))
}

/// The matches of the tables of one season, division by division.
pub open spec fn season_games(ts: Seq<TableView>, s: int) -> Seq<GameView>
    decreases ts.len(),
{
    if ts.len() == 0 {
        Seq::empty()
    } else {
        season_games(ts.drop_last(), s) + table_games(ts.last(), s, ts.len() - 1)
    }
}

/// The matches of all tables, season by season.
pub open spec fn all_games(tss: Seq<Seq<TableView>>) -> Seq<GameView>
    decreases tss.len(),
{
    if tss.len() == 0 {
        Seq::empty()
    } else {
        all_games(tss.drop_last()) + season_games(tss.last(), tss.len() - 1)
    }
}

/// The values of a record converted to the given column types.
pub open spec fn converted(data: Seq<DataView>, types: Seq<FlexDataType>) -> Seq<DataView> {
    Seq::new(
        data.len(),
        |j: int|
            if j < types.len() {
                convert_data(data[j], types[j])
            } else {
                data[j]
            },
    )
}

/// Record `k` of the master table: the match's values in the master types,
/// then its season, division, home points, away points and day number.
pub open spec fn master_row(types: Seq<FlexDataType>, g: GameView, k: int) -> RowView {
    let r = g.2;
    let p = match_points(str_of(r.data[6]));
    RowView {
        index: k as usize,
        data: converted(r.data, types) + seq![
            DataView::Uint(g.0 as u32),
            DataView::Uint(g.1 as u32),
            DataView::Uint(p.0),
            DataView::Uint(p.1),
            DataView::Uint(game_day(r) as u32),
        ],
    }
}

/// The master records of a list of matches, numbered in order.
pub open spec fn master_rows(types: Seq<FlexDataType>, games: Seq<GameView>) -> Seq<RowView> {
    Seq::new(games.len(), |k: int| master_row(types, games[k], k))
}

/// The labels added to the master table.
pub open spec fn master_extra_labels() -> Seq<Seq<char>> {
    seq!["Ssn"@, "Div_n"@, "Home Points"@, "Away Points"@, "Date_chron"@]
}

/// The master table of the tables of each season and division: the columns
/// of the first table and the added ones, and a record for every match.
pub open spec fn master_table(tss: Seq<Seq<TableView>>) -> TableView {
    let seed = tss[0][0];
    TableView {
        labels: seed.labels + master_extra_labels(),
        datatypes: seed.datatypes + seq![
            FlexDataType::Uint,
            FlexDataType::Uint,
            FlexDataType::Uint,
            FlexDataType::Uint,
            FlexDataType::Uint,
        ],
        rows: master_rows(seed.datatypes, all_games(tss)),
    }
}

/// The views of tables, season by season.
pub open spec fn table_grid(v: Seq<Vec<FlexTable>>) -> Seq<Seq<TableView>> {
    v.map_values(|ts: Vec<FlexTable>| ts@.map_values(|t: FlexTable| t@))
}

/// Every match of every table is ready for the master table.
pub open spec fn all_ready(tss: Seq<Seq<TableView>>) -> bool {
    forall|s: int, d: int, k: int|
        0 <= s < tss.len() && 0 <= d < tss[s].len() && 0 <= k < tss[s][d].rows.len() ==> game_ready(
            #[trigger] tss[s][d].rows[k],
        )
}

proof fn lemma_master_rows_push(types: Seq<FlexDataType>, games: Seq<GameView>, g: GameView)
    ensures
        master_rows(types, games.push(g)) == master_rows(types, games).push(
            master_row(types, g, games.len() as int),
        ),
{
    assert(master_rows(types, games.push(g)) =~= master_rows(types, games).push(
        master_row(types, g, games.len() as int),
    ));
}

/// The master record of a match.
fn master_record(g: &FlexDataVector, types: &Vec<FlexDataType>, ssn: usize, div: usize, idx: usize) -> (r:
    FlexDataVector)
    requires
        game_ready(g@),
    ensures
        r@ == master_row(types@, (ssn as int, div as int, g@), idx as int),
{
    let mut game = g.as_types(types);
    game.set_index(FlexIndex::Uint(idx));
    assert(g@.data[6] == g.data@[6]@);
    assert(g@.data[1] == g.data@[1]@);
    let ftr = match g.data[6].as_string() {
        Some(s) => s,
        None => String::new(),
    };
    let (hp, ap) = points_for_result(&ftr);
    let date = match g.data[1].as_string() {
        Some(s) => s,
        None => String::new(),
    };
    let day = match dmy_day_number(date.as_str()) {
        Some(n) => n as u32,
        None => 0,
    };
    assert(day == game_day(g@) as u32);
    let ghost before = game@.data;
    assert(before =~= converted(g@.data, types@));
    game.data.push(FlexData::Uint(ssn as u32));
    game.data.push(FlexData::Uint(div as u32));
    game.data.push(FlexData::Uint(hp));
    game.data.push(FlexData::Uint(ap));
    game.data.push(FlexData::Uint(day));
    assert(game@.data =~= before + seq![
        DataView::Uint(ssn as u32),
        DataView::Uint(div as u32),
        DataView::Uint(hp),
        DataView::Uint(ap),
        DataView::Uint(day),
    ]);
    game
}

/// Builds the master table from the cleaned tables of each season (outer)
/// and division (inner): every match in order, with its values in the types
/// of the first table, its season and division places, the points of each
/// side and the day number of its date.
pub fn create_master(tables: &Vec<Vec<FlexTable>>) -> (r: FlexTable)
    requires
        tables@.len() > 0,
        tables@[0]@.len() > 0,
        all_ready(table_grid(tables@)),
    ensures
        r@ == master_table(table_grid(tables@)),
{
    let ghost tss = table_grid(tables@);
    let seed = &tables[0][0];
    assert(seed@ == tss[0][0]);
    let mut labels = duplicate_texts(seed.get_labels());
    let ghost l0 = text_views(labels@);
    labels.push("Ssn".to_owned());
    labels.push("Div_n".to_owned());
    labels.push("Home Points".to_owned());
    labels.push("Away Points".to_owned());
    labels.push("Date_chron".to_owned());
    assert(text_views(labels@) =~= l0 + master_extra_labels());
    let types = crate::table::duplicate_types(seed.get_datatypes());
    let mut dtypes = crate::table::duplicate_types(&types);
    dtypes.push(FlexDataType::Uint);
    dtypes.push(FlexDataType::Uint);
    dtypes.push(FlexDataType::Uint);
    dtypes.push(FlexDataType::Uint);
    dtypes.push(FlexDataType::Uint);
    assert(dtypes@ =~= tss[0][0].datatypes + seq![
        FlexDataType::Uint,
        FlexDataType::Uint,
        FlexDataType::Uint,
        FlexDataType::Uint,
        FlexDataType::Uint,
    ]);
    let mut rows: Vec<FlexDataVector> = Vec::new();
    let mut ssn: usize = 0;
    assert(all_games(tss.take(0)) =~= Seq::<GameView>::empty());
    assert(row_views(rows@) =~= master_rows(types@, Seq::<GameView>::empty()));
    while ssn < tables.len()
        invariant
            ssn <= tables@.len(),
            tss == table_grid(tables@),
            all_ready(tss),
            types@ == tss[0][0].datatypes,
            row_views(rows@) == master_rows(types@, all_games(tss.take(ssn as int))),
        decreases tables@.len() - ssn,
    {
        let ghost done = all_games(tss.take(ssn as int));
        let ghost ts = tss[ssn as int];
        assert(ts == tables@[ssn as int]@.map_values(|t: FlexTable| t@));
        let mut div: usize = 0;
        assert(season_games(ts.take(0), ssn as int) =~= Seq::<GameView>::empty());
        assert(done + season_games(ts.take(0), ssn as int) =~= done);
        while div < tables[ssn].len()
            invariant
                ssn < tables@.len(),
                div <= tables@[ssn as int]@.len(),
                tss == table_grid(tables@),
                ts == tss[ssn as int],
                ts.len() == tables@[ssn as int]@.len(),
                done == all_games(tss.take(ssn as int)),
                all_ready(tss),
                row_views(rows@) == master_rows(types@, done + season_games(ts.take(div as int), ssn as int)),
            decreases tables@[ssn as int]@.len() - div,
        {
            let t = &tables[ssn][div];
            assert(t@ == ts[div as int]);
            let ghost prefix = done + season_games(ts.take(div as int), ssn as int);
            let ghost tg = table_games(t@, ssn as int, div as int);
            let mut k: usize = 0;
            assert(prefix + tg.take(0) =~= prefix);
            while k < t.data.len()
                invariant
                    ssn < tables@.len(),
                    div < tables@[ssn as int]@.len(),
                    tss == table_grid(tables@),
                    ts == tss[ssn as int],
                    t@ == ts[div as int],
                    all_ready(tss),
                    tg == table_games(t@, ssn as int, div as int),
                    k <= t.data@.len(),
                    row_views(rows@) == master_rows(types@, prefix + tg.take(k as int)),
                decreases t.data@.len() - k,
            {
                let g = &t.data[k];
                assert(g@ == t@.rows[k as int]);
                assert(game_ready(tss[ssn as int][div as int].rows[k as int]));
                let idx = rows.len();
                let rec = master_record(g, &types, ssn, div, idx);
                let ghost before = prefix + tg.take(k as int);
                proof {
                    lemma_master_rows_push(types@, before, (ssn as int, div as int, g@));
                    assert(prefix + tg.take(k + 1) =~= before.push((ssn as int, div as int, g@)));
                }
                rows.push(rec);
                assert(row_views(rows@) =~= master_rows(types@, before).push(
                    master_row(types@, (ssn as int, div as int, g@), idx as int),
                ));
                k = k + 1;
            }
            assert(tg.take(k as int) =~= tg);
            assert(ts.take(div + 1).drop_last() =~= ts.take(div as int));
            assert(season_games(ts.take(div + 1), ssn as int) == season_games(ts.take(div as int), ssn as int) + tg);
            assert(prefix + tg =~= done + season_games(ts.take(div + 1), ssn as int));
            div = div + 1;
        }
        assert(ts.take(div as int) =~= ts);
        assert(tss.take(ssn + 1).drop_last() =~= tss.take(ssn as int));
        assert(all_games(tss.take(ssn + 1)) == done + season_games(ts, ssn as int));
        ssn = ssn + 1;
    }
    assert(tss.take(ssn as int) =~= tss);
    assert(text_views(labels@) == tss[0][0].labels + master_extra_labels());
    FlexTable::from_vecs(labels, dtypes, rows)
}

/// Builds the master table when every match is ready for it (see
/// `create_master`); `None` when one is not.
pub fn try_create_master(tables: &Vec<Vec<FlexTable>>) -> (r: Option<FlexTable>)
    requires
        tables@.len() > 0,
        tables@[0]@.len() > 0,
    ensures
        r is Some <==> all_ready(table_grid(tables@)),
        r matches Some(t) ==> t@ == master_table(table_grid(tables@)),
{
    let ghost tss = table_grid(tables@);
    let mut ssn: usize = 0;
    while ssn < tables.len()
        invariant
            ssn <= tables@.len(),
            tss == table_grid(tables@),
            forall|s: int, d: int, k: int|
                0 <= s < ssn && 0 <= d < tss[s].len() && 0 <= k < tss[s][d].rows.len() ==> game_ready(
                    #[trigger] tss[s][d].rows[k],
                ),
        decreases tables@.len() - ssn,
    {
        let mut div: usize = 0;
        while div < tables[ssn].len()
            invariant
                ssn < tables@.len(),
                div <= tables@[ssn as int]@.len(),
                tss == table_grid(tables@),
                forall|s: int, d: int, k: int|
                    0 <= s < tss.len() && 0 <= d < tss[s].len() && 0 <= k < tss[s][d].rows.len() && (s
                        < ssn || (s == ssn && d < div)) ==> game_ready(#[trigger] tss[s][d].rows[k]),
            decreases tables@[ssn as int]@.len() - div,
        {
            let t = &tables[ssn][div];
            assert(t@ == tss[ssn as int][div as int]);
            let mut k: usize = 0;
            while k < t.data.len()
                invariant
                    ssn < tables@.len(),
                    div < tables@[ssn as int]@.len(),
                    tss == table_grid(tables@),
                    t@ == tss[ssn as int][div as int],
                    k <= t.data@.len(),
                    forall|s: int, d: int, j: int|
                        0 <= s < tss.len() && 0 <= d < tss[s].len() && 0 <= j < tss[s][d].rows.len() && (s
                            < ssn || (s == ssn && d < div) || (s == ssn && d == div && j < k)) ==> game_ready(
                            #[trigger] tss[s][d].rows[j],
                        ),
                decreases t.data@.len() - k,
            {
                let g = &t.data[k];
                assert(g@ == t@.rows[k as int]);
                if g.data.len() <= 6 {
                    return None;
                }
                assert(g@.data[6] == g.data@[6]@);
                assert(g@.data[1] == g.data@[1]@);
                let ok = match (g.data[6].as_string(), g.data[1].as_string()) {
                    (Some(_), Some(date)) => dmy_day_number(date.as_str()).is_some(),
                    _ => false,
                };
                if !ok {
                    assert(!game_ready(tss[ssn as int][div as int].rows[k as int]));
                    return None;
                }
                k = k + 1;
            }
            div = div + 1;
        }
        ssn = ssn + 1;
    }
    Some(create_master(tables))
}


/// The path of the results file of a season and division: the directory,
/// the season, the division and `.csv`.
pub fn csv_path(path: &str, season: &str, division: &str) -> (r: String)
    ensures
        r@ == path@ + season@ + division@ + ".csv"@,
{
    let mut r = path.to_owned();
    r.append(season);
    r.append(division);
    r.append(".csv");
    r
}

/// Every pair of a season and a division, seasons outer, in order.
pub open spec fn pairs_spec(seasons: Seq<Seq<char>>, divisions: Seq<Seq<char>>) -> Seq<(Seq<char>, Seq<char>)>
    decreases seasons.len(),
{
    if seasons.len() == 0 {
        Seq::empty()
    } else {
        pairs_spec(seasons.drop_last(), divisions) + divisions.map_values(
            |d: Seq<char>| (seasons.last(), d),
        )
    }
}

/// Every pair of a season and a division, seasons outer (the product that
/// `get_tables` walks).
pub fn season_division_pairs(seasons: &Vec<&str>, divisions: &Vec<&str>) -> (r: Vec<(String, String)>)
    ensures
        r@.map_values(|p: (String, String)| (p.0@, p.1@)) == pairs_spec(
            seasons@.map_values(|s: &str| s@),
            divisions@.map_values(|d: &str| d@),
        ),
{
    let ghost sv = seasons@.map_values(|s: &str| s@);
    let ghost dv = divisions@.map_values(|d: &str| d@);
    let mut r: Vec<(String, String)> = Vec::new();
    let mut i: usize = 0;
    while i < seasons.len()
        invariant
            i <= seasons@.len(),
            sv == seasons@.map_values(|s: &str| s@),
            dv == divisions@.map_values(|d: &str| d@),
            r@.map_values(|p: (String, String)| (p.0@, p.1@)) == pairs_spec(sv.take(i as int), dv),
        decreases seasons@.len() - i,
    {
        let ghost base = r@.map_values(|p: (String, String)| (p.0@, p.1@));
        let mut j: usize = 0;
        while j < divisions.len()
            invariant
                i < seasons@.len(),
                j <= divisions@.len(),
                sv == seasons@.map_values(|s: &str| s@),
                dv == divisions@.map_values(|d: &str| d@),
                r@.map_values(|p: (String, String)| (p.0@, p.1@)) == base + dv.take(j as int).map_values(
                    |d: Seq<char>| (sv[i as int], d),
                ),
            decreases divisions@.len() - j,
        {
            let ghost before = r@.map_values(|p: (String, String)| (p.0@, p.1@));
            let pair = (seasons[i].to_owned(), divisions[j].to_owned());
            assert(pair.0@ == sv[i as int]);
            assert(pair.1@ == dv[j as int]);
            r.push(pair);
            assert(r@.map_values(|p: (String, String)| (p.0@, p.1@)) =~= before.push((sv[i as int], dv[j as int])));
            assert(dv.take(j + 1).map_values(|d: Seq<char>| (sv[i as int], d)) =~= dv.take(j as int).map_values(
                |d: Seq<char>| (sv[i as int], d),
            ).push((sv[i as int], dv[j as int])));
            j = j + 1;
        }
        assert(dv.take(j as int) =~= dv);
        assert(sv.take(i + 1).drop_last() =~= sv.take(i as int));
        assert(sv.take(i + 1).last() == sv[i as int]);
        i = i + 1;
    }
    assert(sv.take(i as int) =~= sv);
    r
}

/// A set of column types, kept as a list without repeats.
pub struct TypeSet {
    types: Vec<FlexDataType>,
}

impl TypeSet {
    /// No type is listed twice.
    #[verifier::type_invariant]
    spec fn no_repeats(self) -> bool {
        self.types@.no_duplicates()
    }

    /// The types, each listed once.
    pub fn types(&self) -> (r: &Vec<FlexDataType>)
        ensures
            r@.no_duplicates(),
            forall|t: FlexDataType| #[trigger] self@.contains(t) <==> r@.contains(t),
    {
        proof {
            use_type_invariant(self);
        }
        &self.types
    }
}

impl View for TypeSet {
    type V = Set<FlexDataType>;

    closed spec fn view(&self) -> Set<FlexDataType> {
        Set::new(|t: FlexDataType| self.types@.contains(t))
    }
}

/// The types of each header over the files read: those it had before and
/// the one it has in the new file.
pub open spec fn merged_headers(
    h: Map<Seq<char>, Set<FlexDataType>>,
    types: Map<Seq<char>, FlexDataType>,
) -> Map<Seq<char>, Set<FlexDataType>> {
    Map::new(
        |k: Seq<char>| h.contains_key(k) || types.contains_key(k),
        |k: Seq<char>|
            (if h.contains_key(k) {
                h[k]
            } else {
                Set::empty()
            }).union(
                if types.contains_key(k) {
                    set![types[k]]
                } else {
                    Set::empty()
                },
            ),
    )
}

/// What `get_tables` gathers from the results files: the tables under
/// (season, division), or the types found under each header.
pub struct TableCollection {
    pub tables: OrdMap<(Vec<char>, Vec<char>), FlexTable>,
    pub headers: OrdMap<Vec<char>, TypeSet>,
}

impl TableCollection {
    pub open spec fn wf(&self) -> bool {
        self.tables.wf() && self.headers.wf()
    }

    pub fn new() -> (r: TableCollection)
        ensures
            r.wf(),
            r.tables.map() == Map::<(Seq<char>, Seq<char>), TableView>::empty(),
            r.headers.map() == Map::<Seq<char>, Set<FlexDataType>>::empty(),
    {
        TableCollection { tables: OrdMap::new(), headers: OrdMap::new() }
    }

    /// Takes in the file of a season and division that was read: with
    /// `tables`, its table under (season, division); otherwise the types of
    /// its headers.
    pub fn add(
        &mut self,
        season: &str,
        division: &str,
        hdr: &OrdMap<Vec<char>, FlexDataType>,
        tbl: FlexTable,
        tables: bool,
    )
        requires
            old(self).wf(),
            hdr.wf(),
        ensures
            final(self).wf(),
            tables ==> final(self).tables.map() == old(self).tables.map().insert((season@, division@), tbl@)
                && final(self).headers.map() == old(self).headers.map(),
            !tables ==> final(self).tables.map() == old(self).tables.map()
                && final(self).headers.map() == merged_headers(old(self).headers.map(), hdr.map()),
    {
        if tables {
            let key = (crate::table::str_chars(season), crate::table::str_chars(division));
            self.tables.insert(key, tbl);
            return;
        }
        let ghost h0 = self.headers.map();
        let ghost es = hdr.entry_views();
        let mut i: usize = 0;
        assert(entries_map(es.take(0)) =~= Map::<Seq<char>, FlexDataType>::empty());
        assert(merged_headers(h0, Map::<Seq<char>, FlexDataType>::empty()) =~= h0) by {
            assert forall|k: Seq<char>| #[trigger] h0.contains_key(k) implies merged_headers(
                h0,
                Map::<Seq<char>, FlexDataType>::empty(),
            )[k] == h0[k] by {
                assert(merged_headers(h0, Map::<Seq<char>, FlexDataType>::empty())[k] =~= h0[k]);
            }
        }
        while i < hdr.entries.len()
            invariant
                i <= es.len(),
                es == hdr.entry_views(),
                es.len() == hdr.entries@.len(),
                hdr.wf(),
                self.wf(),
                self.tables.map() == old(self).tables.map(),
                h0 == old(self).headers.map(),
                self.headers.map() == merged_headers(h0, entries_map(es.take(i as int))),
            decreases es.len() - i,
        {
            proof {
                lemma_entries_map_take::<Vec<char>, FlexDataType>(es, i as int);
            }
            let name = &hdr.entries[i].0;
            let t = hdr.entries[i].1;
            assert(es[i as int] == (name@, t));
            let ghost m = entries_map(es.take(i as int));
            assert(!m.contains_key(name@)) by {
                if m.contains_key(name@) {
                    let j = choose|j: int| 0 <= j < es.take(i as int).len() && #[trigger] es.take(i as int)[j].0 == name@;
                    assert(es[j].0 == name@);
                    assert(<Vec<char> as OrderedKey>::precedes(es[j].0, es[i as int].0));
                    <Vec<char> as OrderedKey>::lemma_irreflexive(name@);
                }
            }
            let mut set: Vec<FlexDataType> = match self.headers.get(name) {
                Some(cur) => {
                    proof {
                        use_type_invariant(cur);
                    }
                    crate::table::duplicate_types(&cur.types)
                },
                None => Vec::new(),
            };
            assert(set@.no_duplicates());
            let ghost prev = Set::new(|x: FlexDataType| set@.contains(x));
            assert(prev == if h0.contains_key(name@) { h0[name@] } else { Set::<FlexDataType>::empty() });
            let mut present = false;
            let mut j: usize = 0;
            while j < set.len()
                invariant
                    j <= set@.len(),
                    present == exists|x: int| 0 <= x < j && set@[x] == t,
                decreases set@.len() - j,
            {
                if set[j] == t {
                    present = true;
                }
                j = j + 1;
            }
            if !present {
                let ghost s0 = set@;
                set.push(t);
                assert(set@.no_duplicates()) by {
                    assert forall|a: int, b: int| 0 <= a < b < set@.len() implies set@[a] != set@[b] by {
                        if b == s0.len() {
                            assert(set@[a] == s0[a]);
                        } else {
                            assert(set@[a] == s0[a] && set@[b] == s0[b]);
                        }
                    }
                }
            }
            let ghost newset = Set::new(|x: FlexDataType| set@.contains(x));
            assert(newset =~= prev.insert(t));
            let ghost before = self.headers.map();
            self.headers.insert(crate::text::copy_text(name), TypeSet { types: set });
            assert(self.headers.map() =~= merged_headers(h0, m.insert(name@, t))) by {
                assert forall|k: Seq<char>| #[trigger] merged_headers(h0, m.insert(name@, t)).contains_key(k)
                    implies self.headers.map().contains_key(k) && self.headers.map()[k] == merged_headers(h0, m.insert(name@, t))[k] by {
                    if k == name@ {
                        assert(merged_headers(h0, m.insert(name@, t))[k] =~= prev.union(set![t]));
                    } else {
                        assert(before.contains_key(k));
                    }
                }
            }
            i = i + 1;
        }
        assert(es.take(i as int) =~= es);
    }
}

/// The cleaned table of a results file: the records with something in the
/// `Div` column (see `not_blank_rows`).
pub fn read_clean(raw_table: &FlexTable) -> (r: FlexTable)
    requires
        raw_table@.labels.contains("Div"@),
        rows_reach(raw_table@.rows, column_of(raw_table@.labels, "Div"@)),
    ensures
        r@ == (TableView {
            rows: not_blank_rows(raw_table@.rows, column_of(raw_table@.labels, "Div"@)),
            ..raw_table@
        }),
{
    raw_table.drop_blank("Div")
}


/// A record's values held as a map value.
pub struct GameData {
    pub data: Vec<FlexData>,
}

impl View for GameData {
    type V = Seq<DataView>;

    open spec fn view(&self) -> Seq<DataView> {
        data_views(self.data@)
    }
}

/// The key of a match in a file's game set: its date (column 1), `_` and
/// its home team (column 2).
pub open spec fn game_key(r: RowView) -> Seq<char> {
    str_of(r.data[1]) + seq!['_'] + str_of(r.data[2])
}

/// Every record has its date and home team as strings in columns 1 and 2.
pub open spec fn rows_have_date_and_home(rows: Seq<RowView>) -> bool {
    forall|k: int|
        0 <= k < rows.len() ==> {
            &&& (#[trigger] rows[k]).data.len() > 2
            &&& rows[k].data[1] is Str
            &&& rows[k].data[2] is Str
        }
}

/// The game set of a table: each match's values after the first under its
/// key (see `game_key`); a later match under the same key replaces an
/// earlier one.
pub open spec fn game_set_spec(rows: Seq<RowView>) -> Map<Seq<char>, Seq<DataView>>
    decreases rows.len(),
{
    if rows.len() == 0 {
        Map::empty()
    } else {
        game_set_spec(rows.drop_last()).insert(game_key(rows.last()), rows.last().data.skip(1))
    }
}

/// The game set of a table, kept in the order of its keys (see
/// `game_set_spec`).
pub fn game_set(tbl: &FlexTable) -> (r: OrdMap<Vec<char>, GameData>)
    requires
        rows_have_date_and_home(tbl@.rows),
    ensures
        r.wf(),
        r.map() == game_set_spec(tbl@.rows),
{
    let ghost rows = tbl@.rows;
    let mut m: OrdMap<Vec<char>, GameData> = OrdMap::new();
    let mut k: usize = 0;
    while k < tbl.data.len()
        invariant
            k <= rows.len(),
            rows == tbl@.rows,
            rows_have_date_and_home(rows),
            m.wf(),
            m.map() == game_set_spec(rows.take(k as int)),
        decreases rows.len() - k,
    {
        let g = &tbl.data[k];
        assert(g@ == rows[k as int]);
        assert(g@.data[1] == g.data@[1]@);
        assert(g@.data[2] == g.data@[2]@);
        let mut key = match g.data[1].as_string() {
            Some(s) => string_chars(&s),
            None => Vec::new(),
        };
        key.push('_');
        let home = match g.data[2].as_string() {
            Some(s) => string_chars(&s),
            None => Vec::new(),
        };
        let ghost k1 = key@;
        let mut j: usize = 0;
        while j < home.len()
            invariant
                j <= home@.len(),
                key@ == k1 + home@.take(j as int),
            decreases home@.len() - j,
        {
            key.push(home[j]);
            j = j + 1;
            assert(key@ =~= k1 + home@.take(j as int));
        }
        assert(home@.take(j as int) =~= home@);
        assert(key@ =~= game_key(rows[k as int]));
        let mut rest: Vec<FlexData> = Vec::new();
        let mut t: usize = 1;
        while t < g.data.len()
            invariant
                1 <= t <= g.data@.len(),
                data_views(rest@) == data_views(g.data@).subrange(1, t as int),
            decreases g.data@.len() - t,
        {
            let ghost before = data_views(rest@);
            let d = g.data[t].duplicate();
            assert(d@ == data_views(g.data@)[t as int]);
            rest.push(d);
            assert(data_views(rest@) =~= before.push(d@));
            assert(data_views(g.data@).subrange(1, t + 1) =~= data_views(g.data@).subrange(1, t as int).push(d@));
            t = t + 1;
        }
        assert(data_views(rest@) =~= rows[k as int].data.skip(1));
        assert(rows.take(k + 1).drop_last() =~= rows.take(k as int));
        m.insert(key, GameData { data: rest });
        k = k + 1;
    }
    assert(rows.take(k as int) =~= rows);
    m
}

} // verus!
