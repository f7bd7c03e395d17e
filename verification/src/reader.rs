//! The whole table: every field of the schema decoded into its column.

use vstd::prelude::*;
use vstd::slice::slice_subrange;
use crate::columns::{
    column_entries, column_of, lemma_column_entry, lemma_first_out_of_range,
    match_symbols_with_indexes, match_symbols_with_rows, out_of_range,
};
use crate::error::{is_fault, reports, Failure, Fault, QvdError};
use crate::qvd_structure::{QvdFieldHeader, QvdTableHeader};
use crate::rows::{
    get_row_indexes, lemma_row_index_range, record_at, record_count, row_index, row_indexes_of,
};
use crate::symbols::{
    get_symbols, get_symbols_as_strings, renders, renders_all, symbol_views, symbols_of, Symbol,
    SymbolView,
};

verus! {

/// One decoded column: the name of its field and one value for each row.
#[derive(Debug)]
pub struct Column<T> {
    pub name: String,
    pub values: Vec<T>,
}

/// The names of the fields of `header`, in declared order.
pub open spec fn field_names(header: QvdTableHeader) -> Seq<Seq<char>> {
    Seq::new(header.fields.headers@.len(), |k: int| header.fields.headers@[k].field_name@)
}

/// Whether the name at `k` also stands at an earlier position.
pub open spec fn repeats(names: Seq<Seq<char>>, k: int) -> bool {
    exists|j: int| 0 <= j < k && names[j] == names[k]
}

/// Position of the first name that repeats an earlier one, or the number of
/// names where all differ.
pub open spec fn first_repeat(names: Seq<Seq<char>>) -> int
    decreases names.len(),
{
    if names.len() == 0 {
        0
    } else {
        let before = first_repeat(names.drop_last());
        if before == names.len() - 1 && !repeats(names, names.len() - 1) {
            names.len() as int
        } else {
            before
        }
    }
}

/// The row indices of `field` in the binary span `span`, whose row section
/// starts at `row_offset` and runs to the end of the span in records of
/// `record_size` bytes, or the place and kind of what is wrong: the row
/// section starts past the end of the span, it cannot be decoded, or it does
/// not hold the `records` records that the schema declares.
pub open spec fn declared_indexes_of(
    span: Seq<u8>,
    field: QvdFieldHeader,
    row_offset: int,
    record_size: int,
    records: int,
) -> Result<Seq<i64>, (int, Fault)> {
    if row_offset > span.len() {
        Err((row_offset, Fault::OutOfSpan))
    } else {
        match row_indexes_of(span.skip(row_offset), field, record_size) {
            Err(failure) => Err(failure),
            Ok(pointers) => if pointers.len() != records {
                Err((pointers.len() as int, Fault::RecordCount))
            } else {
                Ok(pointers)
            },
        }
    }
}

/// The column of `field` in the binary span `span`, whose row section starts
/// at `row_offset` and runs to the end of the span in records of
/// `record_size` bytes, of which the schema declares `records`: the symbols
/// of the field, picked by its row indices. The symbol table is decoded
/// first, then the indices, which must be as many as the schema declares,
/// then the two are joined; the first of these steps that fails gives the
/// place and kind of the failure.
pub open spec fn field_column(
    span: Seq<u8>,
    field: QvdFieldHeader,
    row_offset: int,
    record_size: int,
    records: int,
) -> Result<Seq<SymbolView>, (int, Fault)> {
    match symbols_of(span, field) {
        Err(failure) => Err(failure),
        Ok(symbols) => match declared_indexes_of(span, field, row_offset, record_size, records) {
            Err(failure) => Err(failure),
            Ok(pointers) => column_of(symbols, SymbolView::Absent, pointers),
        },
    }
}

/// The columns of the first `n` fields of `header`, in declared order, or the
/// failure of the first field that cannot be decoded.
pub open spec fn columns_of(header: QvdTableHeader, span: Seq<u8>, n: int) -> Result<
    Seq<(Seq<char>, Seq<SymbolView>)>,
    Failure,
>
    decreases n,
{
    if n <= 0 {
        Ok(Seq::empty())
    } else {
        match columns_of(header, span, n - 1) {
            Err(failure) => Err(failure),
            Ok(columns) => {
                let field = header.fields.headers@[n - 1];
                match field_column(
                    span,
                    field,
                    header.offset as int,
                    header.record_byte_size as int,
                    header.no_of_records as int,
                ) {
                    Err((at, fault)) => Err(Failure::Structure(field.field_name@, at, fault)),
                    Ok(values) => Ok(columns.push((field.field_name@, values))),
                }
            },
        }
    }
}

/// The table that `span` holds under the schema `header`: one column for each
/// field, in declared order. A schema in which a field name repeats is
/// refused before anything is decoded.
pub open spec fn table_of(header: QvdTableHeader, span: Seq<u8>) -> Result<
    Seq<(Seq<char>, Seq<SymbolView>)>,
    Failure,
> {
    let names = field_names(header);
    if first_repeat(names) < names.len() {
        Err(Failure::DuplicateField(names[first_repeat(names)]))
    } else {
        columns_of(header, span, names.len() as int)
    }
}

/// The names and values of typed columns.
pub open spec fn column_views(columns: Seq<Column<Symbol>>) -> Seq<(Seq<char>, Seq<SymbolView>)> {
    Seq::new(columns.len(), |k: int| (columns[k].name@, symbol_views(columns[k].values@)))
}

/// Whether `texts` holds, column by column and row by row, the text forms of
/// the table `table`.
pub open spec fn renders_table<F: Fn(u64) -> String>(
    table: Seq<(Seq<char>, Seq<SymbolView>)>,
    texts: Seq<Column<Option<String>>>,
    double_text: F,
) -> bool {
    texts.len() == table.len() && forall|k: int|
        0 <= k < table.len() ==> (#[trigger] texts[k]).name@ == table[k].0 && renders_all(
            table[k].1,
            texts[k].values@,
            double_text,
        )
}

/// The first repeated name repeats an earlier one, and no name before it
/// does.
pub proof fn lemma_first_repeat(names: Seq<Seq<char>>)
    ensures
        0 <= first_repeat(names) <= names.len(),
        first_repeat(names) < names.len() ==> repeats(names, first_repeat(names)),
        forall|k: int| 0 <= k < first_repeat(names) ==> !repeats(names, k),
    decreases names.len(),
{
    if names.len() > 0 {
        let rest = names.drop_last();
        lemma_first_repeat(rest);
        let first = first_repeat(names);
        assert forall|k: int| 0 <= k < rest.len() implies repeats(rest, k) == repeats(names, k) by {
            if repeats(rest, k) {
                let j = choose|j: int| 0 <= j < k && rest[j] == rest[k];
                assert(names[j] == names[k]);
            }
            if repeats(names, k) {
                let j = choose|j: int| 0 <= j < k && names[j] == names[k];
                assert(rest[j] == rest[k]);
            }
        }
    }
}

/// Checks that no two fields of `header` share a name.
fn check_names(header: &QvdTableHeader) -> (r: Result<(), QvdError>)
    ensures
        match r {
            Ok(_) => first_repeat(field_names(*header)) == field_names(*header).len(),
            Err(e) => first_repeat(field_names(*header)) < field_names(*header).len() && reports(
                e,
                Failure::DuplicateField(
                    field_names(*header)[first_repeat(field_names(*header))],
                ),
            ),
        },
{
    let ghost names = field_names(*header);
    let fields = &header.fields.headers;
    let mut k: usize = 0;
    proof {
        lemma_first_repeat(names);
    }
    while k < fields.len()
        invariant
            k <= fields@.len(),
            fields@ == header.fields.headers@,
            names == field_names(*header),
            forall|i: int| 0 <= i < k ==> !repeats(names, i),
        decreases fields@.len() - k,
    {
        let mut j: usize = 0;
        while j < k
            invariant
                j <= k < fields@.len(),
                fields@ == header.fields.headers@,
                names == field_names(*header),
                forall|i: int| 0 <= i < k ==> !repeats(names, i),
                forall|i: int| 0 <= i < j ==> names[i] != names[k as int],
            decreases k - j,
        {
            if fields[j].field_name == fields[k].field_name {
                proof {
                    lemma_first_repeat(names);
                    assert(names[j as int] == names[k as int]);
                    assert(repeats(names, k as int));
                    let first = first_repeat(names);
                    if first > k {
                        assert(!repeats(names, k as int));
                    }
                    if first < k {
                        assert(repeats(names, first));
                    }
                }
                return Err(QvdError::DuplicateField { field: fields[k].field_name.clone() });
            }
            j = j + 1;
        }
        k = k + 1;
    }
    proof {
        lemma_first_repeat(names);
        let first = first_repeat(names);
        if first < names.len() {
            assert(repeats(names, first));
        }
    }
    Ok(())
}

/// Extracts the row indices of `field` from the row section of the binary
/// span `buf` and holds their number to the declared one.
fn read_declared_indexes(
    buf: &[u8],
    field: &QvdFieldHeader,
    row_offset: usize,
    record_byte_size: usize,
    no_of_records: u32,
) -> (r: Result<Vec<i64>, QvdError>)
    ensures
        match r {
            Ok(pointers) => declared_indexes_of(
                buf@,
                *field,
                row_offset as int,
                record_byte_size as int,
                no_of_records as int,
            ) == Ok::<Seq<i64>, (int, Fault)>(pointers@),
            Err(e) => match declared_indexes_of(
                buf@,
                *field,
                row_offset as int,
                record_byte_size as int,
                no_of_records as int,
            ) {
                Ok(_) => false,
                Err((at, fault)) => is_fault(e, field.field_name@, at, fault),
            },
        },
{
    if row_offset > buf.len() {
        return Err(
            QvdError::FormatStructure {
                field: field.field_name.clone(),
                offset: row_offset,
                fault: Fault::OutOfSpan,
            },
        );
    }
    let rows = slice_subrange(buf, row_offset, buf.len());
    assert(rows@ =~= buf@.skip(row_offset as int));
    let pointers = match get_row_indexes(rows, field, record_byte_size) {
        Ok(pointers) => pointers,
        Err(e) => { return Err(e); },
    };
    if pointers.len() as u64 != no_of_records as u64 {
        return Err(
            QvdError::FormatStructure {
                field: field.field_name.clone(),
                offset: pointers.len(),
                fault: Fault::RecordCount,
            },
        );
    }
    Ok(pointers)
}

/// Decodes the column of `field` from the binary span `buf`, whose row
/// section starts at `row_offset` and holds `no_of_records` records of
/// `record_byte_size` bytes.
///
/// Fails when the symbol table of the field cannot be decoded, when the row
/// section starts past the end of `buf`, cannot be decoded or does not hold
/// `no_of_records` records, and when a row index points past the end of the
/// symbol table.
pub fn read_column(
    buf: &[u8],
    field: &QvdFieldHeader,
    row_offset: usize,
    record_byte_size: usize,
    no_of_records: u32,
) -> (r: Result<Vec<Symbol>, QvdError>)
    ensures
        match r {
            Ok(values) => field_column(
                buf@,
                *field,
                row_offset as int,
                record_byte_size as int,
                no_of_records as int,
            ) == Ok::<Seq<SymbolView>, (int, Fault)>(symbol_views(values@)),
            Err(e) => match field_column(
                buf@,
                *field,
                row_offset as int,
                record_byte_size as int,
                no_of_records as int,
            ) {
                Ok(_) => false,
                Err((at, fault)) => is_fault(e, field.field_name@, at, fault),
            },
        },
{
    let symbols = match get_symbols(buf, field) {
        Ok(symbols) => symbols,
        Err(e) => { return Err(e); },
    };
    let pointers = match read_declared_indexes(
        buf,
        field,
        row_offset,
        record_byte_size,
        no_of_records,
    ) {
        Ok(pointers) => pointers,
        Err(e) => { return Err(e); },
    };
    match_symbols_with_rows(field.field_name.as_str(), &symbols, &pointers)
}

/// Decodes every field of `header` from the binary span `buf` into a column
/// of symbols, in the order of the schema. The row section runs from the
/// offset that the schema declares to the end of `buf`, and must hold the
/// declared number of records.
///
/// Fails when a field name repeats, and with the failure of the first field
/// that cannot be decoded.
pub fn read_qvd_typed(header: &QvdTableHeader, buf: &[u8]) -> (r: Result<
    Vec<Column<Symbol>>,
    QvdError,
>)
    ensures
        match r {
            Ok(columns) => table_of(*header, buf@) == Ok::<
                Seq<(Seq<char>, Seq<SymbolView>)>,
                Failure,
            >(column_views(columns@)),
            Err(e) => match table_of(*header, buf@) {
                Ok(_) => false,
                Err(failure) => reports(e, failure),
            },
        },
{
    match check_names(header) {
        Ok(_) => {},
        Err(e) => { return Err(e); },
    }
    let fields = &header.fields.headers;
    let mut columns: Vec<Column<Symbol>> = Vec::new();
    let mut k: usize = 0;
    assert(column_views(columns@) =~= Seq::empty());
    while k < fields.len()
        invariant
            k <= fields@.len(),
            fields@ == header.fields.headers@,
            first_repeat(field_names(*header)) == field_names(*header).len(),
            columns_of(*header, buf@, k as int) == Ok::<
                Seq<(Seq<char>, Seq<SymbolView>)>,
                Failure,
            >(column_views(columns@)),
        decreases fields@.len() - k,
    {
        let field = &fields[k];
        let ghost before = column_views(columns@);
        match read_column(
            buf,
            field,
            header.offset,
            header.record_byte_size,
            header.no_of_records,
        ) {
            Ok(values) => {
                columns.push(Column { name: field.field_name.clone(), values });
                assert(column_views(columns@) =~= before.push(
                    (field.field_name@, symbol_views(values@)),
                ));
            },
            Err(e) => {
                proof {
                    lemma_failure_stays(*header, buf@, k as int + 1, fields@.len() as int);
                }
                return Err(e);
            },
        }
        k = k + 1;
    }
    Ok(columns)
}

/// Whether `texts` holds the text forms of the table that `outcome` holds.
pub open spec fn renders_outcome<F: Fn(u64) -> String>(
    outcome: Result<Seq<(Seq<char>, Seq<SymbolView>)>, Failure>,
    texts: Seq<Column<Option<String>>>,
    double_text: F,
) -> bool {
    match outcome {
        Ok(table) => renders_table(table, texts, double_text),
        Err(_) => false,
    }
}

/// Whether `texts` holds the text forms of the column that `outcome` holds.
pub open spec fn renders_column<F: Fn(u64) -> String>(
    outcome: Result<Seq<SymbolView>, (int, Fault)>,
    texts: Seq<Option<String>>,
    double_text: F,
) -> bool {
    match outcome {
        Ok(values) => renders_all(values, texts, double_text),
        Err(_) => false,
    }
}

/// Picking rows from the text forms of a symbol table gives the text forms of
/// the rows picked from the table itself, and fails where that fails.
pub proof fn lemma_column_renders<F: Fn(u64) -> String>(
    symbols: Seq<SymbolView>,
    texts: Seq<Option<String>>,
    pointers: Seq<i64>,
    double_text: F,
)
    requires
        renders_all(symbols, texts, double_text),
    ensures
        match column_of(texts, None, pointers) {
            Ok(column) => renders_column(
                column_of(symbols, SymbolView::Absent, pointers),
                column,
                double_text,
            ),
            Err(failure) => column_of(symbols, SymbolView::Absent, pointers) == Err::<
                Seq<SymbolView>,
                (int, Fault),
            >(failure),
        },
{
    assert(renders(SymbolView::Absent, None::<String>, double_text));
    if column_of(texts, None, pointers) is Ok {
        let picked = column_entries(symbols, SymbolView::Absent, pointers);
        let column = column_entries(texts, None, pointers);
        assert(picked.len() == column.len());
        assert forall|k: int| 0 <= k < picked.len() implies renders(
            picked[k],
            #[trigger] column[k],
            double_text,
        ) by {
            if symbols.len() > 0 && pointers[k] >= 0 {
                lemma_first_out_of_range(symbols.len() as int, pointers);
                assert(!out_of_range(symbols.len() as int, pointers[k]));
                assert(renders(symbols[pointers[k] as int], texts[pointers[k] as int], double_text));
            }
        }
    }
}

/// Decodes the column of `field` from the binary span `buf` as texts, as
/// [`read_column`] decodes it as symbols. `double_text` turns the bit pattern
/// of a double into its text.
///
/// Fails on the inputs on which [`read_column`] fails, with the same error.
pub fn read_column_texts<F: Fn(u64) -> String>(
    buf: &[u8],
    field: &QvdFieldHeader,
    row_offset: usize,
    record_byte_size: usize,
    no_of_records: u32,
    double_text: &F,
) -> (r: Result<Vec<Option<String>>, QvdError>)
    requires
        forall|bits: u64| call_requires(*double_text, (bits,)),
    ensures
        match r {
            Ok(texts) => renders_column(
                field_column(
                    buf@,
                    *field,
                    row_offset as int,
                    record_byte_size as int,
                    no_of_records as int,
                ),
                texts@,
                *double_text,
            ),
            Err(e) => match field_column(
                buf@,
                *field,
                row_offset as int,
                record_byte_size as int,
                no_of_records as int,
            ) {
                Ok(_) => false,
                Err((at, fault)) => is_fault(e, field.field_name@, at, fault),
            },
        },
{
    let symbols = match get_symbols_as_strings(buf, field, double_text) {
        Ok(symbols) => symbols,
        Err(e) => { return Err(e); },
    };
    let pointers = match read_declared_indexes(
        buf,
        field,
        row_offset,
        record_byte_size,
        no_of_records,
    ) {
        Ok(pointers) => pointers,
        Err(e) => { return Err(e); },
    };
    proof {
        lemma_column_renders(symbols_of(buf@, *field)->Ok_0, symbols@, pointers@, *double_text);
    }
    match_symbols_with_indexes(field.field_name.as_str(), &symbols, &pointers)
}

/// Decodes every field of `header` from the binary span `buf` into a column
/// of texts, in the order of the schema. `double_text` turns the bit pattern
/// of a double into its text.
///
/// Fails on the inputs on which [`read_qvd_typed`] fails, with the same
/// error.
pub fn read_qvd<F: Fn(u64) -> String>(header: &QvdTableHeader, buf: &[u8], double_text: &F) -> (r:
    Result<Vec<Column<Option<String>>>, QvdError>)
    requires
        forall|bits: u64| call_requires(*double_text, (bits,)),
    ensures
        match r {
            Ok(columns) => renders_outcome(table_of(*header, buf@), columns@, *double_text),
            Err(e) => match table_of(*header, buf@) {
                Ok(_) => false,
                Err(failure) => reports(e, failure),
            },
        },
{
    match check_names(header) {
        Ok(_) => {},
        Err(e) => { return Err(e); },
    }
    let fields = &header.fields.headers;
    let mut columns: Vec<Column<Option<String>>> = Vec::new();
    let mut k: usize = 0;
    while k < fields.len()
        invariant
            k <= fields@.len(),
            fields@ == header.fields.headers@,
            first_repeat(field_names(*header)) == field_names(*header).len(),
            forall|bits: u64| call_requires(*double_text, (bits,)),
            renders_outcome(columns_of(*header, buf@, k as int), columns@, *double_text),
        decreases fields@.len() - k,
    {
        let field = &fields[k];
        match read_column_texts(
            buf,
            field,
            header.offset,
            header.record_byte_size,
            header.no_of_records,
            double_text,
        ) {
            Ok(values) => {
                columns.push(Column { name: field.field_name.clone(), values });
            },
            Err(e) => {
                proof {
                    lemma_failure_stays(*header, buf@, k as int + 1, fields@.len() as int);
                }
                return Err(e);
            },
        }
        k = k + 1;
    }
    Ok(columns)
}

/// The columns of the first `n` fields, where all of them decode, are `n` in
/// number, and each holds the name of its field and the column of that field
/// alone.
pub proof fn lemma_columns_by_field(header: QvdTableHeader, span: Seq<u8>, n: int, k: int)
    requires
        0 <= k < n <= header.fields.headers@.len(),
        columns_of(header, span, n) is Ok,
    ensures
        columns_of(header, span, n)->Ok_0.len() == n,
        field_column(
            span,
            header.fields.headers@[k],
            header.offset as int,
            header.record_byte_size as int,
            header.no_of_records as int,
        ) == Ok::<Seq<SymbolView>, (int, Fault)>(columns_of(header, span, n)->Ok_0[k].1),
        columns_of(header, span, n)->Ok_0[k].0 == header.fields.headers@[k].field_name@,
    decreases n,
{
    lemma_columns_len(header, span, n);
    if k < n - 1 {
        lemma_columns_by_field(header, span, n - 1, k);
    } else {
        lemma_columns_len(header, span, n - 1);
    }
}

/// Where the first `n` fields decode, they give `n` columns.
pub proof fn lemma_columns_len(header: QvdTableHeader, span: Seq<u8>, n: int)
    requires
        0 <= n <= header.fields.headers@.len(),
        columns_of(header, span, n) is Ok,
    ensures
        columns_of(header, span, n)->Ok_0.len() == n,
    decreases n,
{
    if n > 0 {
        lemma_columns_len(header, span, n - 1);
    }
}

/// The column of a field depends on the numbers of its descriptor alone, not
/// on its name.
pub proof fn lemma_column_by_numbers(
    span: Seq<u8>,
    a: QvdFieldHeader,
    b: QvdFieldHeader,
    row_offset: int,
    record_size: int,
    records: int,
)
    requires
        a.offset == b.offset,
        a.length == b.length,
        a.bit_offset == b.bit_offset,
        a.bit_width == b.bit_width,
        a.bias == b.bias,
    ensures
        field_column(span, a, row_offset, record_size, records) == field_column(
            span,
            b,
            row_offset,
            record_size,
            records,
        ),
{
    let rows = span.skip(row_offset);
    if row_indexes_of(rows, a, record_size) is Ok {
        assert(row_indexes_of(rows, a, record_size)->Ok_0 =~= row_indexes_of(
            rows,
            b,
            record_size,
        )->Ok_0);
    }
}

/// The column of a field does not depend on the other fields of its table:
/// two schemas over one binary span, with the same row section, record size
/// and record count, give a field that they describe alike the same column,
/// wherever it stands among their fields.
pub proof fn lemma_field_independence(
    first: QvdTableHeader,
    second: QvdTableHeader,
    span: Seq<u8>,
    i: int,
    j: int,
)
    requires
        table_of(first, span) is Ok,
        table_of(second, span) is Ok,
        first.offset == second.offset,
        first.record_byte_size == second.record_byte_size,
        first.no_of_records == second.no_of_records,
        0 <= i < first.fields.headers@.len(),
        0 <= j < second.fields.headers@.len(),
        first.fields.headers@[i].offset == second.fields.headers@[j].offset,
        first.fields.headers@[i].length == second.fields.headers@[j].length,
        first.fields.headers@[i].bit_offset == second.fields.headers@[j].bit_offset,
        first.fields.headers@[i].bit_width == second.fields.headers@[j].bit_width,
        first.fields.headers@[i].bias == second.fields.headers@[j].bias,
    ensures
        table_of(first, span)->Ok_0[i].1 == table_of(second, span)->Ok_0[j].1,
{
    lemma_columns_by_field(first, span, first.fields.headers@.len() as int, i);
    lemma_columns_by_field(second, span, second.fields.headers@.len() as int, j);
    lemma_column_by_numbers(
        span,
        first.fields.headers@[i],
        second.fields.headers@[j],
        first.offset as int,
        first.record_byte_size as int,
        first.no_of_records as int,
    );
}

/// In the column of a field whose symbol table is not empty, a row whose
/// index is negative once the bias is added holds `Absent`, and any other row
/// holds the symbol at its index.
pub proof fn lemma_bias_and_sentinel(
    span: Seq<u8>,
    field: QvdFieldHeader,
    row_offset: int,
    record_size: int,
    records: int,
    row: int,
)
    requires
        0 <= row_offset,
        field_column(span, field, row_offset, record_size, records) is Ok,
        symbols_of(span, field)->Ok_0.len() > 0,
        0 <= row < records,
    ensures
        ({
            let column = field_column(span, field, row_offset, record_size, records)->Ok_0;
            let symbols = symbols_of(span, field)->Ok_0;
            let index = row_index(record_at(span.skip(row_offset), record_size, row), field);
            &&& column.len() == records
            &&& index < 0 ==> column[row] == SymbolView::Absent
            &&& index >= 0 ==> index < symbols.len() && column[row] == symbols[index]
        }),
{
    let symbols = symbols_of(span, field)->Ok_0;
    let rows = span.skip(row_offset);
    let pointers = row_indexes_of(rows, field, record_size)->Ok_0;
    lemma_row_index_range(record_at(rows, record_size, row), field);
    lemma_column_entry(symbols, SymbolView::Absent, pointers, row);
}

/// A column decodes only where the row section holds exactly the declared
/// number of records, and the column of a field whose symbol table is not
/// empty then has one entry for each of them.
pub proof fn lemma_column_length(
    span: Seq<u8>,
    field: QvdFieldHeader,
    row_offset: int,
    record_size: int,
    records: int,
)
    requires
        0 <= row_offset,
        field_column(span, field, row_offset, record_size, records) is Ok,
    ensures
        record_size > 0,
        span.len() - row_offset == records * record_size,
        symbols_of(span, field)->Ok_0.len() > 0 ==> field_column(
            span,
            field,
            row_offset,
            record_size,
            records,
        )->Ok_0.len() == records,
{
    let symbols = symbols_of(span, field)->Ok_0;
    let rows = span.skip(row_offset);
    let pointers = row_indexes_of(rows, field, record_size)->Ok_0;
    let len = rows.len() as int;
    assert(len == (len / record_size) * record_size) by (nonlinear_arith)
        requires
            record_size > 0,
            len % record_size == 0,
    ;
    lemma_first_out_of_range(symbols.len() as int, pointers);
}

/// In a decoded table the column of every field whose symbol table is not
/// empty has as many entries as the schema declares records.
pub proof fn lemma_table_column_length(header: QvdTableHeader, span: Seq<u8>, k: int)
    requires
        table_of(header, span) is Ok,
        0 <= k < header.fields.headers@.len(),
        symbols_of(span, header.fields.headers@[k])->Ok_0.len() > 0,
    ensures
        table_of(header, span)->Ok_0[k].1.len() == header.no_of_records,
{
    lemma_columns_by_field(header, span, header.fields.headers@.len() as int, k);
    lemma_column_length(
        span,
        header.fields.headers@[k],
        header.offset as int,
        header.record_byte_size as int,
        header.no_of_records as int,
    );
}

/// Once a field fails, the failure is that of every longer run of fields.
pub proof fn lemma_failure_stays(header: QvdTableHeader, span: Seq<u8>, k: int, n: int)
    requires
        0 <= k <= n,
        columns_of(header, span, k) is Err,
    ensures
        columns_of(header, span, n) == columns_of(header, span, k),
    decreases n - k,
{
    if k < n {
        lemma_failure_stays(header, span, k, n - 1);
    }
}

} // verus!
