use vstd::prelude::*;

verus! {

/// One field of comma-separated text: its row, its column and its bytes.
pub struct CsvField {
    pub row: usize,
    pub column: usize,
    pub bytes: Vec<u8>,
}

/// A field as a mathematical value.
pub struct FieldModel {
    pub row: nat,
    pub column: nat,
    pub bytes: Seq<u8>,
}

impl DeepView for CsvField {
    type V = FieldModel;

    open spec fn deep_view(&self) -> FieldModel {
        FieldModel { row: self.row as nat, column: self.column as nat, bytes: self.bytes@ }
    }
}

/// Where a reader of fields stands: the fields so far, the field being
/// read, its row and column, and whether it is inside quotes.
pub struct FieldState {
    pub fields: Seq<FieldModel>,
    pub field: Seq<u8>,
    pub row: nat,
    pub column: nat,
    pub quoted: bool,
}

impl FieldState {
    /// The state before any text.
    pub open spec fn start() -> FieldState {
        FieldState { fields: Seq::empty(), field: Seq::empty(), row: 0, column: 0, quoted: false }
    }

    /// The fields with the field being read added.
    pub open spec fn added(self) -> Seq<FieldModel> {
        self.fields.push(FieldModel { row: self.row, column: self.column, bytes: self.field })
    }

    /// The state after the field ends: the next one is the next of the row,
    /// or the first of the next row.
    pub open spec fn ended(self, row_ends: bool) -> FieldState {
        FieldState {
            fields: self.added(),
            field: Seq::empty(),
            row: if row_ends {
                self.row + 1
            } else {
                self.row
            },
            column: if row_ends {
                0
            } else {
                self.column + 1
            },
            quoted: self.quoted,
        }
    }
}

/// One step of the reader of fields at `offset`: a quote opens or closes a
/// quoted stretch, and two quotes inside one stand for a quote; outside
/// quotes a comma ends a field, and a line feed ends a field and a row. A
/// carriage return does so too: alone where `lone_return` holds, otherwise
/// only together with the line feed after it. Any other byte belongs to
/// the field.
pub open spec fn field_step(text: Seq<u8>, offset: nat, st: FieldState, lone_return: bool) -> (
    nat,
    FieldState,
) {
    let c = text[offset as int];
    let more = offset + 1 < text.len();
    if c == 34 {
        if !st.quoted {
            (offset + 1, FieldState { quoted: true, ..st })
        } else if more && text[offset as int + 1] == 34 {
            (offset + 2, FieldState { field: st.field.push(34u8), ..st })
        } else {
            (offset + 1, FieldState { quoted: false, ..st })
        }
    } else if c == 44 && !st.quoted {
        (offset + 1, st.ended(false))
    } else if (c == 10 || (c == 13 && lone_return)) && !st.quoted {
        (offset + 1, st.ended(true))
    } else if c == 13 && more && text[offset as int + 1] == 10 && !st.quoted {
        (offset + 2, st.ended(true))
    } else {
        (offset + 1, FieldState { field: st.field.push(c), ..st })
    }
}

/// The state at the end of the text, from the state `st` at `offset`.
pub open spec fn field_scan(text: Seq<u8>, offset: nat, st: FieldState, lone_return: bool) -> FieldState
    decreases text.len() - offset,
{
    if offset >= text.len() {
        st
    } else {
        let next = field_step(text, offset, st, lone_return);
        field_scan(text, next.0, next.1, lone_return)
    }
}

/// The fields of the text in the order in which they end. A last field
/// without an end counts if it has a byte.
pub open spec fn field_list(text: Seq<u8>, lone_return: bool) -> Seq<FieldModel> {
    let st = field_scan(text, 0, FieldState::start(), lone_return);
    if st.field.len() > 0 {
        st.added()
    } else {
        st.fields
    }
}

/// Reads the fields of comma-separated text.
#[verifier::rlimit(50)]
pub fn csv_fields(text: &[u8], lone_return: bool) -> (r: Vec<CsvField>)
    ensures
        r.deep_view() == field_list(text@, lone_return),
{
    let len: usize = text.len();
    let mut offset: usize = 0;
    let mut is_in_double_quotes: bool = false;
    let mut bytes: Vec<u8> = Vec::new();
    let mut row: usize = 0;
    let mut column_index: usize = 0;
    let mut fields: Vec<CsvField> = Vec::new();
    let ghost mut st = FieldState::start();
    assert(fields.deep_view() =~= st.fields);
    while offset < len
        invariant
            offset <= len,
            len == text@.len(),
            field_scan(text@, 0, FieldState::start(), lone_return) == field_scan(
                text@,
                offset as nat,
                st,
                lone_return,
            ),
            st.fields == fields.deep_view(),
            st.field == bytes@,
            st.row == row,
            st.column == column_index,
            st.quoted == is_in_double_quotes,
            row <= offset,
            column_index <= offset,
        decreases len - offset,
    {
        let c: u8 = text[offset];
        let ends_row: bool = c == 10 || (c == 13 && (lone_return || (len > offset + 1 && text[offset
            + 1] == 10)));
        if c == 34 {
            if !is_in_double_quotes {
                is_in_double_quotes = true;
                proof {
                    st = FieldState { quoted: true, ..st };
                }
                offset += 1;
            } else if len > offset + 1 && text[offset + 1] == 34 {
                bytes.push(34);
                proof {
                    st = FieldState { field: st.field.push(34u8), ..st };
                }
                offset += 2;
            } else {
                is_in_double_quotes = false;
                proof {
                    st = FieldState { quoted: false, ..st };
                }
                offset += 1;
            }
        } else if (c == 44 || ends_row) && !is_in_double_quotes {
            let ghost before = fields.deep_view();
            let mut field: Vec<u8> = Vec::new();
            core::mem::swap(&mut field, &mut bytes);
            fields.push(CsvField { row, column: column_index, bytes: field });
            proof {
                assert(fields.deep_view() =~= before.push(
                    FieldModel { row: row as nat, column: column_index as nat, bytes: st.field },
                ));
                st = st.ended(c != 44);
            }
            if c == 44 {
                column_index += 1;
                offset += 1;
            } else {
                row += 1;
                column_index = 0;
                if c == 13 && !lone_return {
                    offset += 2;
                } else {
                    offset += 1;
                }
            }
        } else {
            bytes.push(c);
            proof {
                st = FieldState { field: st.field.push(c), ..st };
            }
            offset += 1;
        }
    }
    if bytes.len() > 0 {
        let ghost before = fields.deep_view();
        fields.push(CsvField { row, column: column_index, bytes });
        proof {
            assert(fields.deep_view() =~= before.push(
                FieldModel { row: row as nat, column: column_index as nat, bytes: st.field },
            ));
        }
    }
    fields
}

/// The columns with one more field: the field joins its column, and the
/// columns before it that had no field yet are there without one.
pub open spec fn with_field(columns: Seq<Seq<Seq<u8>>>, field: FieldModel) -> Seq<Seq<Seq<u8>>> {
    let padded = padded_to(columns, field.column + 1);
    padded.update(field.column as int, padded[field.column as int].push(field.bytes))
}

/// The columns, followed by columns without a field up to `n` columns.
pub open spec fn padded_to(columns: Seq<Seq<Seq<u8>>>, n: nat) -> Seq<Seq<Seq<u8>>> {
    if columns.len() >= n {
        columns
    } else {
        columns + Seq::new((n - columns.len()) as nat, |i: int| Seq::<Seq<u8>>::empty())
    }
}

/// The fields by column, each column with its fields in their order.
pub open spec fn columns_of(fields: Seq<FieldModel>) -> Seq<Seq<Seq<u8>>>
    decreases fields.len(),
{
    if fields.len() == 0 {
        Seq::empty()
    } else {
        with_field(columns_of(fields.drop_last()), fields.last())
    }
}

/// The fields of each column of the text, in which a carriage return
/// ends a row only together with a line feed.
pub open spec fn csv_columns(text: Seq<u8>) -> Seq<Seq<Seq<u8>>> {
    columns_of(field_list(text, false))
}

} // verus!
