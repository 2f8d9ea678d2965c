//! Table HDUs: column layout of binary tables and the text of their cells.
use vstd::prelude::*;
use crate::endian::{
    be_value, read_be_i16, read_be_i32, read_be_i64, read_be_u32, read_be_u64, to_signed,
};
use crate::numbers::{
    decimal_text, parse_unsigned, parse_usize_text, push_decimal, push_signed_decimal,
    signed_decimal_text,
};
use crate::text::{
    ascii_upper, copy_range, decode_bytes, decode_text, is_white, string_of, trim_chars,
    trim_text, upper_char, white_space,
};

verus! {

/// The text of one table cell. Cells of floating-point columns are kept as
/// their IEEE 754 bit patterns, for the caller to print.
#[derive(Clone, Debug)]
pub enum TableCell {
    Text(String),
    Singles(Vec<u32>),
    Doubles(Vec<u64>),
}

pub enum CellView {
    Text(Seq<char>),
    Singles(Seq<u32>),
    Doubles(Seq<u64>),
}

impl View for TableCell {
    type V = CellView;

    open spec fn view(&self) -> CellView {
        match self {
            TableCell::Text(s) => CellView::Text(s@),
            TableCell::Singles(v) => CellView::Singles(v@),
            TableCell::Doubles(v) => CellView::Doubles(v@),
        }
    }
}

/// The columns and the first rows of a table HDU.
#[derive(Clone, Debug)]
pub struct TableData {
    pub columns: Vec<String>,
    pub rows: Vec<Vec<TableCell>>,
}

// ---------------------------------------------------------------------------
// TFORM codes
// ---------------------------------------------------------------------------

/// The repeat count text and type letter of a trimmed TFORM value: all but
/// the last character, and the last (a lone letter counts once).
pub open spec fn form_repeat_text(f: Seq<char>) -> Seq<char> {
    if f.len() == 1 {
        seq!['1']
    } else {
        f.drop_last()
    }
}

pub open spec fn form_repeat(f: Seq<char>) -> nat {
    match parse_unsigned(form_repeat_text(f), usize::MAX as nat) {
        Some(r) => r,
        None => 1,
    }
}

/// Bytes per element of a type letter.
pub open spec fn element_size(t: char) -> nat {
    if t == 'L' || t == 'B' || t == 'A' || t == 'X' {
        1
    } else if t == 'I' {
        2
    } else if t == 'J' || t == 'E' {
        4
    } else if t == 'K' || t == 'D' || t == 'C' {
        8
    } else if t == 'M' {
        16
    } else {
        4
    }
}

pub open spec fn saturate(x: int) -> nat {
    if x > usize::MAX as int {
        usize::MAX as nat
    } else if x < 0 {
        0
    } else {
        x as nat
    }
}

/// Bytes that a column with this TFORM takes in a row (array descriptors
/// `P` and `Q` take 8 and 16); sizes beyond `usize::MAX` are held at it.
pub open spec fn column_size(form: Seq<char>) -> nat {
    let f = trim_text(form);
    if f.len() == 0 {
        0
    } else {
        let t = ascii_upper(f.last());
        if t == 'P' {
            8
        } else if t == 'Q' {
            16
        } else {
            saturate((form_repeat(f) * element_size(t)) as int)
        }
    }
}

pub(crate) fn element_size_of(t: char) -> (r: usize)
    ensures
        r == element_size(t),
{
    if t == 'L' || t == 'B' || t == 'A' || t == 'X' {
        1
    } else if t == 'I' {
        2
    } else if t == 'J' || t == 'E' {
        4
    } else if t == 'K' || t == 'D' || t == 'C' {
        8
    } else if t == 'M' {
        16
    } else {
        4
    }
}

/// The repeat count of a trimmed, non-empty TFORM value.
fn repeat_of(f: &[char]) -> (r: usize)
    requires
        f.len() > 0,
    ensures
        r == form_repeat(f@),
{
    if f.len() == 1 {
        let one = vec!['1'];
        assert(one@ =~= seq!['1']);
        match parse_usize_text(one.as_slice()) {
            Some(r) => r,
            None => 1,
        }
    } else {
        let head = copy_range(f, 0, f.len() - 1);
        assert(head@ =~= f@.drop_last());
        match parse_usize_text(head.as_slice()) {
            Some(r) => r,
            None => 1,
        }
    }
}

pub fn column_size_of(form: &[char]) -> (r: usize)
    ensures
        r == column_size(form@),
{
    let f = trim_chars(form);
    if f.len() == 0 {
        return 0;
    }
    let t = upper_char(f[f.len() - 1]);
    if t == 'P' {
        return 8;
    }
    if t == 'Q' {
        return 16;
    }
    let repeat = repeat_of(f.as_slice());
    let e = element_size_of(t);
    match repeat.checked_mul(e) {
        Some(v) => v,
        None => usize::MAX,
    }
}

/// Bytes per row of each column, from the TFORM values.
pub fn parse_bintable_col_sizes(formats: &Vec<String>) -> (r: Vec<usize>)
    ensures
        r@.len() == formats@.len(),
        forall|i: int| 0 <= i < formats@.len() ==> r@[i] == column_size(#[trigger] formats@[i]@),
{
    let mut r: Vec<usize> = Vec::new();
    let mut i: usize = 0;
    while i < formats.len()
        invariant
            0 <= i <= formats@.len(),
            r@.len() == i,
            forall|j: int| 0 <= j < i ==> r@[j] == column_size(#[trigger] formats@[j]@),
        decreases formats.len() - i,
    {
        let f = crate::text::chars_of(formats[i].as_str());
        r.push(column_size_of(f.as_slice()));
        i = i + 1;
    }
    r
}

// ---------------------------------------------------------------------------
// Cells of binary tables
// ---------------------------------------------------------------------------

/// Items joined with ", ".
pub open spec fn join_items(items: Seq<Seq<char>>) -> Seq<char>
    decreases items.len(),
{
    if items.len() == 0 {
        Seq::empty()
    } else if items.len() == 1 {
        items[0]
    } else {
        join_items(items.drop_last()) + seq![','] + seq![' '] + items.last()
    }
}

pub open spec fn min_nat(a: nat, b: nat) -> nat {
    if a <= b {
        a
    } else {
        b
    }
}

/// The `i`-th big-endian word of `size` bytes.
pub open spec fn word_at(b: Seq<u8>, size: nat, i: int) -> nat {
    be_value(b.subrange(i * size, i * size + size))
}

/// How many whole words of `size` bytes, at most `repeat`, the bytes hold.
pub open spec fn word_count(b: Seq<u8>, size: nat, repeat: nat) -> nat {
    min_nat(repeat, b.len() / size)
}

pub open spec fn int_items(b: Seq<u8>, size: nat, half: nat, repeat: nat) -> Seq<Seq<char>> {
    Seq::new(
        word_count(b, size, repeat),
        |i: int| signed_decimal_text(to_signed(word_at(b, size, i), half)),
    )
}

pub open spec fn byte_items(b: Seq<u8>, repeat: nat) -> Seq<Seq<char>> {
    Seq::new(min_nat(repeat, b.len()), |i: int| decimal_text(b[i] as nat))
}

pub open spec fn logical_items(b: Seq<u8>, repeat: nat) -> Seq<Seq<char>> {
    Seq::new(
        min_nat(repeat, b.len()),
        |i: int|
            if b[i] == 84 {
                seq!['T']
            } else {
                seq!['F']
            },
    )
}

pub open spec fn opaque_cell_text(n: nat) -> Seq<char> {
    seq!['<'] + decimal_text(n) + seq![' ', 'b', 'y', 't', 'e', 's', '>']
}

/// What a binary-table cell shows, from its bytes and its column's TFORM.
pub open spec fn cell_view(b: Seq<u8>, form: Seq<char>) -> CellView {
    let f = trim_text(form);
    if f.len() == 0 || b.len() == 0 {
        CellView::Text(Seq::empty())
    } else {
        let t = ascii_upper(f.last());
        let repeat = form_repeat(f);
        if t == 'A' {
            CellView::Text(trim_text(decode_text(b)))
        } else if t == 'E' {
            CellView::Singles(
                Seq::new(word_count(b, 4, repeat), |i: int| word_at(b, 4, i) as u32),
            )
        } else if t == 'D' {
            CellView::Doubles(
                Seq::new(word_count(b, 8, repeat), |i: int| word_at(b, 8, i) as u64),
            )
        } else if t == 'J' {
            CellView::Text(join_items(int_items(b, 4, 0x8000_0000, repeat)))
        } else if t == 'K' {
            CellView::Text(join_items(int_items(b, 8, 0x8000_0000_0000_0000, repeat)))
        } else if t == 'I' {
            CellView::Text(join_items(int_items(b, 2, 0x8000, repeat)))
        } else if t == 'B' {
            CellView::Text(join_items(byte_items(b, repeat)))
        } else if t == 'L' {
            CellView::Text(join_items(logical_items(b, repeat)))
        } else {
            CellView::Text(opaque_cell_text(b.len() as nat))
        }
    }
}

proof fn lemma_join_push(items: Seq<Seq<char>>, x: Seq<char>)
    ensures
        join_items(items.push(x)) == if items.len() == 0 {
            x
        } else {
            join_items(items) + seq![','] + seq![' '] + x
        },
{
    assert(items.push(x).drop_last() =~= items);
}

/// Appends ", " unless this is the first item.
fn push_separator(out: &mut Vec<char>, first: bool)
    ensures
        first ==> final(out)@ == old(out)@,
        !first ==> final(out)@ == old(out)@ + seq![','] + seq![' '],
{
    if !first {
        out.push(',');
        out.push(' ');
        assert(out@ =~= old(out)@ + seq![','] + seq![' ']);
    }
}

proof fn lemma_word_take(b: Seq<u8>, size: nat, i: int)
    requires
        0 <= i,
        (i + 1) * size <= b.len(),
    ensures
        b.subrange(i * size, b.len() as int).take(size as int) =~= b.subrange(
            i * size,
            i * size + size,
        ),
{
    assert((i + 1) * size == i * size + size) by (nonlinear_arith);
}

/// The signed words of a cell, decimal, joined with ", ".
fn int_cell(b: &[u8], size: usize, repeat: usize) -> (r: Vec<char>)
    requires
        size == 2 || size == 4 || size == 8,
    ensures
        r@ == join_items(
            int_items(
                b@,
                size as nat,
                if size == 2 {
                    0x8000nat
                } else if size == 4 {
                    0x8000_0000nat
                } else {
                    0x8000_0000_0000_0000nat
                },
                repeat as nat,
            ),
        ),
{
    let ghost half: nat = if size == 2 {
        0x8000nat
    } else if size == 4 {
        0x8000_0000nat
    } else {
        0x8000_0000_0000_0000nat
    };
    let count: usize = if repeat <= b.len() / size {
        repeat
    } else {
        b.len() / size
    };
    let ghost items = int_items(b@, size as nat, half, repeat as nat);
    assert(items.len() == count);
    let mut out: Vec<char> = Vec::new();
    let mut i: usize = 0;
    assert(items.take(0) =~= Seq::<Seq<char>>::empty());
    while i < count
        invariant
            0 <= i <= count,
            count <= b.len() / size,
            size == 2 || size == 4 || size == 8,
            items == int_items(b@, size as nat, half, repeat as nat),
            items.len() == count,
            half == (if size == 2 {
                0x8000nat
            } else if size == 4 {
                0x8000_0000nat
            } else {
                0x8000_0000_0000_0000nat
            }),
            out@ == join_items(items.take(i as int)),
        decreases count - i,
    {
        assert((i + 1) * size <= b@.len()) by (nonlinear_arith)
            requires
                i < count,
                count <= b@.len() / (size as nat),
                size > 0,
        ;
        assert(i * size + size == (i + 1) * size) by (nonlinear_arith);
        let off: usize = i * size;
        let word = &b[off..b.len()];
        proof {
            lemma_word_take(b@, size as nat, i as int);
        }
        push_separator(&mut out, i == 0);
        if size == 2 {
            let v = read_be_i16(word);
            push_signed_decimal(&mut out, v as i64);
        } else if size == 4 {
            let v = read_be_i32(word);
            push_signed_decimal(&mut out, v as i64);
        } else {
            let v = read_be_i64(word);
            push_signed_decimal(&mut out, v);
        }
        proof {
            lemma_join_push(items.take(i as int), items[i as int]);
            assert(items.take(i + 1) =~= items.take(i as int).push(items[i as int]));
        }
        i = i + 1;
    }
    assert(items.take(count as int) =~= items);
    out
}

fn byte_cell(b: &[u8], repeat: usize, logical: bool) -> (r: Vec<char>)
    ensures
        logical ==> r@ == join_items(logical_items(b@, repeat as nat)),
        !logical ==> r@ == join_items(byte_items(b@, repeat as nat)),
{
    let count: usize = if repeat <= b.len() {
        repeat
    } else {
        b.len()
    };
    let ghost items = if logical {
        logical_items(b@, repeat as nat)
    } else {
        byte_items(b@, repeat as nat)
    };
    let mut out: Vec<char> = Vec::new();
    let mut i: usize = 0;
    assert(items.take(0) =~= Seq::<Seq<char>>::empty());
    while i < count
        invariant
            0 <= i <= count <= b.len(),
            count == min_nat(repeat as nat, b@.len()),
            items == (if logical {
                logical_items(b@, repeat as nat)
            } else {
                byte_items(b@, repeat as nat)
            }),
            out@ == join_items(items.take(i as int)),
        decreases count - i,
    {
        push_separator(&mut out, i == 0);
        if logical {
            if b[i] == 84u8 {
                out.push('T');
            } else {
                out.push('F');
            }
        } else {
            push_decimal(&mut out, b[i] as u64);
        }
        proof {
            lemma_join_push(items.take(i as int), items[i as int]);
            assert(items.take(i + 1) =~= items.take(i as int).push(items[i as int]));
            if logical {
                assert(items[i as int] == (if b@[i as int] == 84 {
                    seq!['T']
                } else {
                    seq!['F']
                }));
            }
        }
        i = i + 1;
    }
    assert(items.take(count as int) =~= items);
    out
}

fn float_words(b: &[u8], double: bool, repeat: usize) -> (r: TableCell)
    ensures
        !double ==> r@ == CellView::Singles(
            Seq::new(word_count(b@, 4, repeat as nat), |i: int| word_at(b@, 4, i) as u32),
        ),
        double ==> r@ == CellView::Doubles(
            Seq::new(word_count(b@, 8, repeat as nat), |i: int| word_at(b@, 8, i) as u64),
        ),
{
    let size: usize = if double {
        8
    } else {
        4
    };
    let count: usize = if repeat <= b.len() / size {
        repeat
    } else {
        b.len() / size
    };
    let mut singles: Vec<u32> = Vec::new();
    let mut doubles: Vec<u64> = Vec::new();
    let mut i: usize = 0;
    while i < count
        invariant
            0 <= i <= count,
            count <= b.len() / size,
            size == (if double {
                8usize
            } else {
                4usize
            }),
            count == word_count(b@, size as nat, repeat as nat),
            !double ==> singles@ == Seq::new(i as nat, |j: int| word_at(b@, 4, j) as u32),
            double ==> doubles@ == Seq::new(i as nat, |j: int| word_at(b@, 8, j) as u64),
        decreases count - i,
    {
        assert((i + 1) * size <= b@.len()) by (nonlinear_arith)
            requires
                i < count,
                count <= b@.len() / (size as nat),
                size > 0,
        ;
        assert(i * size + size == (i + 1) * size) by (nonlinear_arith);
        let off: usize = i * size;
        let word = &b[off..b.len()];
        proof {
            lemma_word_take(b@, size as nat, i as int);
        }
        if double {
            let v = read_be_u64(word);
            doubles.push(v);
            assert(doubles@ =~= Seq::new((i + 1) as nat, |j: int| word_at(b@, 8, j) as u64));
        } else {
            let v = read_be_u32(word);
            singles.push(v);
            assert(singles@ =~= Seq::new((i + 1) as nat, |j: int| word_at(b@, 4, j) as u32));
        }
        i = i + 1;
    }
    if double {
        TableCell::Doubles(doubles)
    } else {
        TableCell::Singles(singles)
    }
}

/// What a binary-table cell shows, from its bytes and its column's TFORM.
pub fn read_bintable_cell(bytes: &[u8], fmt: &[char]) -> (r: TableCell)
    ensures
        r@ == cell_view(bytes@, fmt@),
{
    let f = trim_chars(fmt);
    if f.len() == 0 || bytes.len() == 0 {
        let e: Vec<char> = Vec::new();
        assert(e@ =~= Seq::<char>::empty());
        return TableCell::Text(string_of(e.as_slice()));
    }
    let t = upper_char(f[f.len() - 1]);
    let repeat = repeat_of(f.as_slice());
    if t == 'A' {
        let d = decode_bytes(bytes);
        let s = trim_chars(d.as_slice());
        TableCell::Text(string_of(s.as_slice()))
    } else if t == 'E' {
        float_words(bytes, false, repeat)
    } else if t == 'D' {
        float_words(bytes, true, repeat)
    } else if t == 'J' {
        let v = int_cell(bytes, 4, repeat);
        TableCell::Text(string_of(v.as_slice()))
    } else if t == 'K' {
        let v = int_cell(bytes, 8, repeat);
        TableCell::Text(string_of(v.as_slice()))
    } else if t == 'I' {
        let v = int_cell(bytes, 2, repeat);
        TableCell::Text(string_of(v.as_slice()))
    } else if t == 'B' {
        let v = byte_cell(bytes, repeat, false);
        TableCell::Text(string_of(v.as_slice()))
    } else if t == 'L' {
        let v = byte_cell(bytes, repeat, true);
        TableCell::Text(string_of(v.as_slice()))
    } else {
        let mut v = vec!['<'];
        push_decimal(&mut v, bytes.len() as u64);
        v.push(' ');
        v.push('b');
        v.push('y');
        v.push('t');
        v.push('e');
        v.push('s');
        v.push('>');
        assert(v@ =~= opaque_cell_text(bytes@.len() as nat));
        TableCell::Text(string_of(v.as_slice()))
    }
}

// ---------------------------------------------------------------------------
// Rows of ASCII tables
// ---------------------------------------------------------------------------

/// Splitting text into words at white space: the words found so far and the
/// word being read.
pub open spec fn split_state(s: Seq<char>) -> (Seq<Seq<char>>, Seq<char>)
    decreases s.len(),
{
    if s.len() == 0 {
        (Seq::empty(), Seq::empty())
    } else {
        let (words, cur) = split_state(s.drop_last());
        let c = s.last();
        if white_space(c) {
            if cur.len() > 0 {
                (words.push(cur), Seq::empty())
            } else {
                (words, Seq::empty())
            }
        } else {
            (words, cur.push(c))
        }
    }
}

/// `str::split_whitespace`: the maximal runs of non-white characters.
pub open spec fn split_words(s: Seq<char>) -> Seq<Seq<char>> {
    let (words, cur) = split_state(s);
    if cur.len() > 0 {
        words.push(cur)
    } else {
        words
    }
}

pub fn split_whitespace_chars(s: &[char]) -> (r: Vec<Vec<char>>)
    ensures
        r@.len() == split_words(s@).len(),
        forall|i: int| 0 <= i < r@.len() ==> #[trigger] r@[i]@ == split_words(s@)[i],
{
    let mut words: Vec<Vec<char>> = Vec::new();
    let mut cur: Vec<char> = Vec::new();
    let mut i: usize = 0;
    while i < s.len()
        invariant
            0 <= i <= s.len(),
            words@.len() == split_state(s@.take(i as int)).0.len(),
            forall|j: int|
                0 <= j < words@.len() ==> #[trigger] words@[j]@ == split_state(
                    s@.take(i as int),
                ).0[j],
            cur@ == split_state(s@.take(i as int)).1,
        decreases s.len() - i,
    {
        assert(s@.take(i + 1).drop_last() =~= s@.take(i as int));
        let c = s[i];
        if is_white(c) {
            if cur.len() > 0 {
                let w = cur;
                words.push(w);
                cur = Vec::new();
            }
        } else {
            cur.push(c);
        }
        i = i + 1;
        assert(cur@ =~= split_state(s@.take(i as int)).1);
    }
    assert(s@.take(s.len() as int) =~= s@);
    if cur.len() > 0 {
        words.push(cur);
    }
    words
}

/// One row of an ASCII table: the words of its bytes.
pub open spec fn ascii_row(b: Seq<u8>) -> Seq<CellView> {
    let words = split_words(decode_text(b));
    Seq::new(words.len(), |i: int| CellView::Text(words[i]))
}

pub fn read_ascii_row(b: &[u8]) -> (r: Vec<TableCell>)
    ensures
        r@.len() == ascii_row(b@).len(),
        forall|i: int| 0 <= i < r@.len() ==> #[trigger] r@[i]@ == ascii_row(b@)[i],
{
    let text = decode_bytes(b);
    let words = split_whitespace_chars(text.as_slice());
    let mut r: Vec<TableCell> = Vec::new();
    let mut i: usize = 0;
    while i < words.len()
        invariant
            0 <= i <= words@.len(),
            text@ == decode_text(b@),
            words@.len() == split_words(text@).len(),
            forall|j: int| 0 <= j < words@.len() ==> #[trigger] words@[j]@ == split_words(text@)[j],
            r@.len() == i,
            forall|j: int| 0 <= j < i ==> #[trigger] r@[j]@ == ascii_row(b@)[j],
        decreases words.len() - i,
    {
        r.push(TableCell::Text(string_of(words[i].as_slice())));
        i = i + 1;
    }
    r
}


// ---------------------------------------------------------------------------
// Column widths
// ---------------------------------------------------------------------------

proof fn lemma_digit_not_white(c: char)
    requires
        '0' <= c && c <= '9',
    ensures
        !white_space(c),
        c != '+',
{
}

/// A binary-table column whose TFORM is a repeat count `n` (written as the
/// decimal digits `r`, or left out for 1) and a type letter takes `n` times
/// the FITS width of that type per row: 1 byte for L, B, A and X, 2 for I,
/// 4 for J and E, 8 for K (64-bit integers), D and C, 16 for M; a size beyond
/// `usize::MAX` is held at it.
pub proof fn lemma_column_size_by_letter(r: Seq<char>, t: char)
    requires
        crate::numbers::all_digits(r),
        crate::numbers::digits_value(r) <= usize::MAX,
        t == 'L' || t == 'B' || t == 'A' || t == 'X' || t == 'I' || t == 'J' || t == 'E' || t
            == 'K' || t == 'D' || t == 'C' || t == 'M',
    ensures
        ({
            let w: nat = if t == 'L' || t == 'B' || t == 'A' || t == 'X' {
                1
            } else if t == 'I' {
                2
            } else if t == 'J' || t == 'E' {
                4
            } else if t == 'K' || t == 'D' || t == 'C' {
                8
            } else {
                16
            };
            let n = crate::numbers::digits_value(r);
            &&& column_size(r.push(t)) == if n * w > usize::MAX {
                usize::MAX as nat
            } else {
                n * w
            }
            &&& column_size(seq![t]) == w
        }),
{
    let f = r.push(t);
    lemma_digit_not_white(r[0]);
    assert(f[0] == r[0]);
    assert(f.last() == t);
    assert(!white_space(t));
    assert(crate::text::trim_start_text(f) == f);
    assert(crate::text::trim_end_text(f) == f);
    assert(trim_text(f) == f);
    assert(ascii_upper(t) == t);
    assert(f.drop_last() =~= r);
    assert(form_repeat_text(f) == r);
    assert(parse_unsigned(r, usize::MAX as nat) == Some(crate::numbers::digits_value(r)));
    let one = seq![t];
    assert(one.last() == t);
    assert(crate::text::trim_start_text(one) == one);
    assert(crate::text::trim_end_text(one) == one);
    assert(trim_text(one) == one);
    let d = seq!['1'];
    assert(crate::numbers::all_digits(d));
    assert(d.drop_last() =~= Seq::<char>::empty());
    assert(d.last() == '1');
    assert(crate::numbers::digits_value(d.drop_last()) == 0);
    assert(crate::text::digit_value('1') == 1);
    assert(crate::numbers::digits_value(d) == 1);
    assert(parse_unsigned(d, usize::MAX as nat) == Some(1nat));
    assert(form_repeat(one) == 1);
}

} // verus!
