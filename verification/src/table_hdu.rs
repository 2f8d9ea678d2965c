//! Reading the rows of a table HDU from its header and data bytes.
use vstd::prelude::*;
use crate::header_map::{lookup, HeaderMap};
use crate::hdu::{card_usize, default_to, keyword_vec, kw_naxis, numbered, numbered_vec, parse_fits_int_card, word_bintable};
use crate::numbers::{decimal_text, push_decimal};
use crate::table::{
    ascii_row, cell_view, column_size, column_size_of, read_ascii_row, read_bintable_cell,
    CellView, TableCell, TableData,
};
use crate::text::{chars_of, contains_chars, contains_text, string_of};

verus! {

/// The columns and rows of a table as values.
pub struct TableView {
    pub columns: Seq<Seq<char>>,
    pub rows: Seq<Seq<CellView>>,
}

pub open spec fn row_view(r: Vec<TableCell>) -> Seq<CellView> {
    Seq::new(r@.len(), |k: int| r@[k]@)
}

pub open spec fn table_view(t: TableData) -> TableView {
    TableView {
        columns: Seq::new(t.columns@.len(), |j: int| t.columns@[j]@),
        rows: Seq::new(t.rows@.len(), |r: int| row_view(t.rows@[r])),
    }
}

pub open spec fn kw_tfields() -> Seq<char> {
    seq!['T', 'F', 'I', 'E', 'L', 'D', 'S']
}

pub open spec fn kw_ttype() -> Seq<char> {
    seq!['T', 'T', 'Y', 'P', 'E']
}

pub open spec fn kw_tform() -> Seq<char> {
    seq!['T', 'F', 'O', 'R', 'M']
}

pub open spec fn col_prefix() -> Seq<char> {
    seq!['C', 'O', 'L', '_']
}

/// Rows shown of a table at most.
pub const MAX_TABLE_ROWS: usize = 500;

/// TTYPEn, or COL_n.
pub open spec fn column_name(p: Seq<(Seq<char>, Seq<char>)>, n: nat) -> Seq<char> {
    match lookup(p, numbered(kw_ttype(), n)) {
        Some(v) => v,
        None => col_prefix() + decimal_text(n),
    }
}

/// TFORMn, or empty.
pub open spec fn column_form(p: Seq<(Seq<char>, Seq<char>)>, n: nat) -> Seq<char> {
    match lookup(p, numbered(kw_tform(), n)) {
        Some(v) => v,
        None => Seq::empty(),
    }
}

pub open spec fn prefix_sum(s: Seq<nat>, k: int) -> int
    decreases k,
{
    if k <= 0 {
        0
    } else {
        prefix_sum(s, k - 1) + s[k - 1]
    }
}

/// A binary-table cell: "?" when its bytes run past the data.
pub open spec fn bin_cell(raw: Seq<u8>, start: int, sizes: Seq<nat>, forms: Seq<Seq<char>>, k: int) -> CellView {
    let off = start + prefix_sum(sizes, k);
    if off + sizes[k] > raw.len() {
        CellView::Text(seq!['?'])
    } else {
        cell_view(raw.subrange(off, off + sizes[k]), forms[k])
    }
}

pub open spec fn bin_row(raw: Seq<u8>, start: int, sizes: Seq<nat>, forms: Seq<Seq<char>>) -> Seq<CellView> {
    Seq::new(forms.len(), |k: int| bin_cell(raw, start, sizes, forms, k))
}

pub open spec fn min_int(a: int, b: int) -> int {
    if a <= b {
        a
    } else {
        b
    }
}

/// The table of an HDU: TFIELDS columns named by TTYPEn, and up to 500 of
/// the NAXIS2 rows of NAXIS1 bytes, cells decoded by TFORMn for a binary
/// table and split at white space for an ASCII table.
pub open spec fn table_of(p: Seq<(Seq<char>, Seq<char>)>, xt: Seq<char>, raw: Seq<u8>) -> TableView {
    let tfields = default_to(card_usize(p, kw_tfields()), 0);
    let nrows = default_to(card_usize(p, numbered(kw_naxis(), 2)), 0);
    let row_bytes = default_to(card_usize(p, numbered(kw_naxis(), 1)), 0);
    let shown = if nrows <= 500 {
        nrows
    } else {
        500
    };
    let columns = Seq::new(tfields, |j: int| column_name(p, (j + 1) as nat));
    let forms = Seq::new(tfields, |j: int| column_form(p, (j + 1) as nat));
    let sizes = Seq::new(tfields, |j: int| column_size(forms[j]));
    let rows = if contains_text(xt, word_bintable()) && row_bytes > 0 {
        Seq::new(shown, |r: int| bin_row(raw, r * row_bytes, sizes, forms))
    } else if row_bytes > 0 {
        Seq::new(
            shown,
            |r: int|
                ascii_row(
                    raw.subrange(
                        min_int(r * row_bytes, raw.len() as int),
                        min_int(r * row_bytes + row_bytes, raw.len() as int),
                    ),
                ),
        )
    } else {
        Seq::empty()
    };
    TableView { columns, rows }
}

fn table_keyword(which: u8) -> (r: Vec<char>)
    ensures
        which == 0 ==> r@ == kw_tfields(),
        which == 1 ==> r@ == kw_ttype(),
        which == 2 ==> r@ == kw_tform(),
        which == 3 ==> r@ == col_prefix(),
{
    let r = if which == 0 {
        vec!['T', 'F', 'I', 'E', 'L', 'D', 'S']
    } else if which == 1 {
        vec!['T', 'T', 'Y', 'P', 'E']
    } else if which == 2 {
        vec!['T', 'F', 'O', 'R', 'M']
    } else {
        vec!['C', 'O', 'L', '_']
    };
    assert(which == 0 ==> r@ =~= kw_tfields());
    assert(which == 1 ==> r@ =~= kw_ttype());
    assert(which == 2 ==> r@ =~= kw_tform());
    assert(which == 3 ==> r@ =~= col_prefix());
    r
}

fn columns_of(cards: &HeaderMap, tfields: usize) -> (r: (Vec<String>, Vec<String>))
    ensures
        r.0@.len() == tfields,
        r.1@.len() == tfields,
        forall|j: int| 0 <= j < tfields ==> #[trigger] r.0@[j]@ == column_name(cards.pairs(), (j + 1) as nat),
        forall|j: int| 0 <= j < tfields ==> #[trigger] r.1@[j]@ == column_form(cards.pairs(), (j + 1) as nat),
{
    let ttype = table_keyword(1);
    let tform = table_keyword(2);
    let mut names: Vec<String> = Vec::new();
    let mut forms: Vec<String> = Vec::new();
    let mut j: usize = 0;
    while j < tfields
        invariant
            0 <= j <= tfields,
            ttype@ == kw_ttype(),
            tform@ == kw_tform(),
            names@.len() == j,
            forms@.len() == j,
            forall|i: int| 0 <= i < j ==> #[trigger] names@[i]@ == column_name(cards.pairs(), (i + 1) as nat),
            forall|i: int| 0 <= i < j ==> #[trigger] forms@[i]@ == column_form(cards.pairs(), (i + 1) as nat),
        decreases tfields - j,
    {
        let n = j + 1;
        let name = match cards.get_chars(numbered_vec(ttype.as_slice(), n).as_slice()) {
            Some(v) => v.clone(),
            None => {
                let mut c = table_keyword(3);
                push_decimal(&mut c, n as u64);
                string_of(c.as_slice())
            },
        };
        let form = match cards.get_chars(numbered_vec(tform.as_slice(), n).as_slice()) {
            Some(v) => v.clone(),
            None => String::new(),
        };
        names.push(name);
        forms.push(form);
        j = j + 1;
    }
    (names, forms)
}

proof fn lemma_prefix_sum_grows(s: Seq<nat>, k: int)
    requires
        0 <= k < s.len(),
    ensures
        prefix_sum(s, k + 1) == prefix_sum(s, k) + s[k],
{
}

/// One row of a binary table, starting at `origin` (`start` is `None` when
/// that lies past the data).
fn bin_row_of(
    raw: &[u8],
    start: Option<usize>,
    sizes: &Vec<usize>,
    forms: &Vec<Vec<char>>,
    Ghost(origin): Ghost<int>,
) -> (r: Vec<TableCell>)
    requires
        sizes@.len() == forms@.len(),
        match start {
            Some(s) => origin == s && s <= raw@.len(),
            None => origin > raw@.len(),
        },
    ensures
        row_view(r) == bin_row(
            raw@,
            origin,
            Seq::new(sizes@.len(), |k: int| sizes@[k] as nat),
            Seq::new(forms@.len(), |k: int| forms@[k]@),
        ),
{
    let ghost szs = Seq::new(sizes@.len(), |k: int| sizes@[k] as nat);
    let ghost fms = Seq::new(forms@.len(), |k: int| forms@[k]@);
    let mut row: Vec<TableCell> = Vec::new();
    let mut off: usize = match start {
        Some(s) => s,
        None => 0,
    };
    let mut beyond: bool = start.is_none();
    let mut k: usize = 0;
    while k < forms.len()
        invariant
            sizes@.len() == forms@.len(),
            szs == Seq::new(sizes@.len(), |k: int| sizes@[k] as nat),
            fms == Seq::new(forms@.len(), |k: int| forms@[k]@),
            0 <= k <= forms@.len(),
            row@.len() == k,
            !beyond ==> off <= raw@.len(),
            !beyond ==> origin + prefix_sum(szs, k as int) == off,
            beyond ==> origin + prefix_sum(szs, k as int) > raw@.len(),
            forall|i: int| 0 <= i < k ==> #[trigger] row@[i]@ == bin_cell(raw@, origin, szs, fms, i),
        decreases forms.len() - k,
    {
        proof {
            lemma_prefix_sum_grows(szs, k as int);
        }
        assert(szs[k as int] == sizes@[k as int]);
        assert(fms[k as int] == forms@[k as int]@);
        let size = sizes[k];
        let fits = !beyond && size <= raw.len() - off;
        if fits {
            let cell_bytes = &raw[off..off + size];
            let cell = read_bintable_cell(cell_bytes, forms[k].as_slice());
            row.push(cell);
            off = off + size;
        } else {
            let q = vec!['?'];
            assert(q@ =~= seq!['?']);
            row.push(TableCell::Text(string_of(q.as_slice())));
            beyond = true;
        }
        k = k + 1;
    }
    assert(row_view(row) =~= bin_row(raw@, origin, szs, fms));
    row
}

/// The table of a table HDU.
pub fn table_of_hdu(cards: &HeaderMap, xt: &[char], raw: &[u8]) -> (r: TableData)
    ensures
        table_view(r) == table_of(cards.pairs(), xt@, raw@),
{
    let tfields = match parse_fits_int_card(cards, table_keyword(0).as_slice()) {
        Some(v) => v,
        None => 0,
    };
    let nrows = match parse_fits_int_card(cards, numbered_vec(keyword_vec(2).as_slice(), 2).as_slice()) {
        Some(v) => v,
        None => 0,
    };
    let row_bytes = match parse_fits_int_card(cards, numbered_vec(keyword_vec(2).as_slice(), 1).as_slice()) {
        Some(v) => v,
        None => 0,
    };
    let shown: usize = if nrows <= MAX_TABLE_ROWS {
        nrows
    } else {
        MAX_TABLE_ROWS
    };
    let (columns, form_strings) = columns_of(cards, tfields);
    let ghost spec_table = table_of(cards.pairs(), xt@, raw@);
    let mut rows: Vec<Vec<TableCell>> = Vec::new();
    let is_bintable = contains_chars(xt, keyword_vec(12).as_slice());
    if is_bintable && row_bytes > 0 {
        let mut forms: Vec<Vec<char>> = Vec::new();
        let mut sizes: Vec<usize> = Vec::new();
        let mut j: usize = 0;
        while j < tfields
            invariant
                0 <= j <= tfields,
                form_strings@.len() == tfields,
                forms@.len() == j,
                sizes@.len() == j,
                forall|i: int| 0 <= i < j ==> #[trigger] forms@[i]@ == form_strings@[i]@,
                forall|i: int| 0 <= i < j ==> #[trigger] sizes@[i] == column_size(form_strings@[i]@),
            decreases tfields - j,
        {
            let f = chars_of(form_strings[j].as_str());
            sizes.push(column_size_of(f.as_slice()));
            forms.push(f);
            j = j + 1;
        }
        let ghost fms = Seq::new(forms@.len(), |k: int| forms@[k]@);
        let ghost szs = Seq::new(sizes@.len(), |k: int| sizes@[k] as nat);
        assert(fms =~= Seq::new(tfields as nat, |k: int| column_form(cards.pairs(), (k + 1) as nat)));
        assert(szs =~= Seq::new(tfields as nat, |k: int| column_size(fms[k])));
        let mut r: usize = 0;
        while r < shown
            invariant
                0 <= r <= shown,
                shown <= MAX_TABLE_ROWS,
                sizes@.len() == forms@.len(),
                fms == Seq::new(forms@.len(), |k: int| forms@[k]@),
                szs == Seq::new(sizes@.len(), |k: int| sizes@[k] as nat),
                rows@.len() == r,
                forall|i: int| 0 <= i < r ==> #[trigger] row_view(rows@[i]) == bin_row(raw@, i * row_bytes, szs, fms),
            decreases shown - r,
        {
            let start: Option<usize> = match r.checked_mul(row_bytes) {
                Some(s) => if s <= raw.len() {
                    Some(s)
                } else {
                    None
                },
                None => None,
            };
            let rl = raw.len();
            assert(rl == raw@.len());
            let row = bin_row_of(raw, start, &sizes, &forms, Ghost(r * row_bytes));
            assert(row_view(row) == bin_row(raw@, r * row_bytes, szs, fms));
            rows.push(row);
            r = r + 1;
        }
    } else if row_bytes > 0 {
        let mut r: usize = 0;
        while r < shown
            invariant
                0 <= r <= shown,
                shown <= MAX_TABLE_ROWS,
                row_bytes > 0,
                rows@.len() == r,
                forall|i: int| 0 <= i < r ==> #[trigger] row_view(rows@[i]) == ascii_row(
                    raw@.subrange(
                        min_int(i * row_bytes, raw@.len() as int),
                        min_int(i * row_bytes + row_bytes, raw@.len() as int),
                    ),
                ),
            decreases shown - r,
        {
            let lo: usize = match r.checked_mul(row_bytes) {
                Some(s) => if s <= raw.len() {
                    s
                } else {
                    raw.len()
                },
                None => raw.len(),
            };
            let hi: usize = if row_bytes <= raw.len() - lo {
                lo + row_bytes
            } else {
                raw.len()
            };
            assert(lo == min_int(r * row_bytes, raw@.len() as int));
            assert(hi == min_int(r * row_bytes + row_bytes, raw@.len() as int));
            let row = read_ascii_row(&raw[lo..hi]);
            assert(row_view(row) =~= ascii_row(raw@.subrange(lo as int, hi as int)));
            rows.push(row);
            r = r + 1;
        }
    }
    let t = TableData { columns, rows };
    assert(table_view(t).columns =~= spec_table.columns);
    assert(table_view(t).rows =~= spec_table.rows);
    t
}

/// A table shows one column for each of its TFIELDS fields, and at most
/// 500 rows: all of its NAXIS2 rows up to that number, when NAXIS1 gives a
/// row length.
pub proof fn lemma_table_rows_bounded(p: Seq<(Seq<char>, Seq<char>)>, xt: Seq<char>, raw: Seq<u8>)
    ensures
        table_of(p, xt, raw).columns.len() == default_to(card_usize(p, kw_tfields()), 0),
        table_of(p, xt, raw).rows.len() <= 500,
        default_to(card_usize(p, numbered(kw_naxis(), 1)), 0) > 0 ==> table_of(p, xt, raw).rows.len()
            == min_int(default_to(card_usize(p, numbered(kw_naxis(), 2)), 0) as int, 500),
{
}

} // verus!
