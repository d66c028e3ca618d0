use vstd::prelude::*;
use crate::decimal::{
    all_digits, canonical_digits, canonical_signed, decimal, is_digit, lemma_decimal_is_canonical,
    lemma_decimal_reads_back, lemma_signed_decimal_is_canonical, push_signed, push_unsigned,
    signed_decimal,
};

verus! {

/// Text of one pixel: its three components separated by single spaces.
pub open spec fn pixel_text(p: (i32, i32, i32)) -> Seq<u8> {
    signed_decimal(p.0 as int) + seq![32u8] + signed_decimal(p.1 as int) + seq![32u8]
        + signed_decimal(p.2 as int)
}

/// Text of one scanline: the pixels' texts separated by single spaces.
pub open spec fn row_text(pixels: Seq<(i32, i32, i32)>) -> Seq<u8>
    decreases pixels.len(),
{
    if pixels.len() == 0 {
        Seq::empty()
    } else if pixels.len() == 1 {
        pixel_text(pixels[0])
    } else {
        row_text(pixels.drop_last()) + seq![32u8] + pixel_text(pixels.last())
    }
}

/// Header of a plain PPM image: `P3`, the width and height, and the maximum
/// component value 255, each on a line of its own.
pub open spec fn header_text(width: nat, height: nat) -> Seq<u8> {
    seq![80u8, 51u8, 10u8] + decimal(width) + seq![32u8] + decimal(height) + seq![
        10u8,
        50u8,
        53u8,
        53u8,
        10u8,
    ]
}

/// The rows, each followed by a newline.
pub open spec fn body_text(rows: Seq<Seq<u8>>) -> Seq<u8>
    decreases rows.len(),
{
    if rows.len() == 0 {
        Seq::empty()
    } else {
        body_text(rows.drop_last()) + rows.last() + seq![10u8]
    }
}

/// A whole plain PPM file: the header, then one line per row.
pub open spec fn document_text(width: nat, height: nat, rows: Seq<Seq<u8>>) -> Seq<u8> {
    header_text(width, height) + body_text(rows)
}

/// Number of occurrences of byte `b` in `s`.
pub open spec fn count_byte(s: Seq<u8>, b: u8) -> nat
    decreases s.len(),
{
    if s.len() == 0 {
        0
    } else {
        count_byte(s.drop_last(), b) + if s.last() == b {
            1nat
        } else {
            0nat
        }
    }
}

/// The text of one scanline in a plain PPM file, as the renderer writes it:
/// each pixel's red, green and blue component in decimal, all separated by
/// single spaces.
pub fn format_row(pixels: &Vec<(i32, i32, i32)>) -> (row: Vec<u8>)
    ensures
        row@ == row_text(pixels@),
{
    let mut row: Vec<u8> = Vec::new();
    let mut i: usize = 0;
    while i < pixels.len()
        invariant
            i <= pixels@.len(),
            row@ == row_text(pixels@.take(i as int)),
        decreases pixels@.len() - i,
    {
        let ghost before = row@;
        let p: (i32, i32, i32) = pixels[i];
        if i > 0 {
            row.push(32u8);
        }
        push_signed(&mut row, p.0);
        row.push(32u8);
        push_signed(&mut row, p.1);
        row.push(32u8);
        push_signed(&mut row, p.2);
        proof {
            let next = pixels@.take(i + 1);
            assert(next.drop_last() =~= pixels@.take(i as int));
            assert(next.last() == p);
            if i == 0 {
                assert(row@ =~= pixel_text(p));
            } else {
                assert(row@ =~= before + seq![32u8] + pixel_text(p));
            }
        }
        i = i + 1;
    }
    assert(pixels@.take(i as int) =~= pixels@);
    row
}

/// The header of a plain PPM image of the given size.
pub fn ppm_header(width: usize, height: usize) -> (h: Vec<u8>)
    ensures
        h@ == header_text(width as nat, height as nat),
{
    let mut h: Vec<u8> = Vec::new();
    h.push(80u8);
    h.push(51u8);
    h.push(10u8);
    push_unsigned(&mut h, width as u64);
    h.push(32u8);
    push_unsigned(&mut h, height as u64);
    h.push(10u8);
    h.push(50u8);
    h.push(53u8);
    h.push(53u8);
    h.push(10u8);
    assert(h@ =~= header_text(width as nat, height as nat));
    h
}

/// The bytes of a plain PPM file: the header for the given size, then each
/// row followed by a newline.
pub fn ppm_document(width: usize, height: usize, rows: &Vec<Vec<u8>>) -> (doc: Vec<u8>)
    ensures
        doc@ == document_text(width as nat, height as nat, rows@.map_values(|r: Vec<u8>| r@)),
{
    let ghost views = rows@.map_values(|r: Vec<u8>| r@);
    let mut doc: Vec<u8> = ppm_header(width, height);
    let mut i: usize = 0;
    while i < rows.len()
        invariant
            i <= rows@.len(),
            views == rows@.map_values(|r: Vec<u8>| r@),
            doc@ == header_text(width as nat, height as nat) + body_text(views.take(i as int)),
        decreases rows@.len() - i,
    {
        let ghost before = doc@;
        let row: &Vec<u8> = &rows[i];
        let mut j: usize = 0;
        while j < row.len()
            invariant
                j <= row@.len(),
                doc@ == before + row@.take(j as int),
            decreases row@.len() - j,
        {
            doc.push(row[j]);
            assert(row@.take(j + 1) =~= row@.take(j as int).push(row@[j as int]));
            j = j + 1;
        }
        doc.push(10u8);
        proof {
            let next = views.take(i + 1);
            assert(next.drop_last() =~= views.take(i as int));
            assert(next.last() == row@);
            assert(row@.take(j as int) =~= row@);
            assert(doc@ =~= header_text(width as nat, height as nat) + body_text(next));
        }
        i = i + 1;
    }
    assert(views.take(i as int) =~= views);
    doc
}

/// Counting a byte in a concatenation adds the counts of the parts.
pub proof fn lemma_count_concat(a: Seq<u8>, b: Seq<u8>, x: u8)
    ensures
        count_byte(a + b, x) == count_byte(a, x) + count_byte(b, x),
    decreases b.len(),
{
    if b.len() == 0 {
        assert(a + b =~= a);
    } else {
        assert((a + b).drop_last() =~= a + b.drop_last());
        assert((a + b).last() == b.last());
        lemma_count_concat(a, b.drop_last(), x);
    }
}

/// A byte that occurs nowhere in `s` is counted zero times.
proof fn lemma_count_absent(s: Seq<u8>, x: u8)
    requires
        forall|i: int| 0 <= i < s.len() ==> s[i] != x,
    ensures
        count_byte(s, x) == 0,
    decreases s.len(),
{
    if s.len() > 0 {
        lemma_count_absent(s.drop_last(), x);
    }
}

/// The decimal text of an integer holds no newline.
proof fn lemma_signed_decimal_has_no_newline(v: int)
    ensures
        count_byte(signed_decimal(v), 10u8) == 0,
{
    let m: nat = if v < 0 {
        (-v) as nat
    } else {
        v as nat
    };
    lemma_decimal_reads_back(m);
    assert(all_digits(decimal(m)));
    assert forall|i: int| 0 <= i < signed_decimal(v).len() implies signed_decimal(v)[i] != 10u8 by {
        if v < 0 {
            if i > 0 {
                assert(signed_decimal(v)[i] == decimal(m)[i - 1]);
                assert(is_digit(decimal(m)[i - 1]));
            }
        } else {
            assert(is_digit(decimal(m)[i]));
        }
    }
    lemma_count_absent(signed_decimal(v), 10u8);
}

/// A scanline's text holds no newline, so it fills exactly one line.
pub proof fn lemma_row_has_no_newline(pixels: Seq<(i32, i32, i32)>)
    ensures
        count_byte(row_text(pixels), 10u8) == 0,
    decreases pixels.len(),
{
    if pixels.len() > 0 {
        let p = pixels.last();
        let sp = seq![32u8];
        lemma_count_absent(sp, 10u8);
        lemma_signed_decimal_has_no_newline(p.0 as int);
        lemma_signed_decimal_has_no_newline(p.1 as int);
        lemma_signed_decimal_has_no_newline(p.2 as int);
        let a = signed_decimal(p.0 as int);
        let b = signed_decimal(p.1 as int);
        let c = signed_decimal(p.2 as int);
        lemma_count_concat(a, sp, 10u8);
        lemma_count_concat(a + sp, b, 10u8);
        lemma_count_concat(a + sp + b, sp, 10u8);
        lemma_count_concat(a + sp + b + sp, c, 10u8);
        if pixels.len() > 1 {
            lemma_row_has_no_newline(pixels.drop_last());
            lemma_count_concat(row_text(pixels.drop_last()), sp, 10u8);
            lemma_count_concat(row_text(pixels.drop_last()) + sp, pixel_text(p), 10u8);
        } else {
            assert(pixels[0] == p);
        }
    }
}

/// Joining two nonempty runs of pixels gives their two texts joined by one space.
pub proof fn lemma_row_concat(a: Seq<(i32, i32, i32)>, b: Seq<(i32, i32, i32)>)
    requires
        a.len() > 0,
        b.len() > 0,
    ensures
        row_text(a + b) == row_text(a) + seq![32u8] + row_text(b),
    decreases b.len(),
{
    let ab = a + b;
    assert(ab.drop_last() =~= a + b.drop_last());
    assert(ab.last() == b.last());
    if b.len() == 1 {
        assert(b.drop_last() =~= Seq::<(i32, i32, i32)>::empty());
        assert(a + b.drop_last() =~= a);
        assert(row_text(b) == pixel_text(b[0]));
    } else {
        lemma_row_concat(a, b.drop_last());
        assert(row_text(ab) =~= row_text(a) + seq![32u8] + row_text(b));
    }
}

/// A PPM file whose rows hold no newline has exactly three header lines and
/// one line per row.
pub proof fn lemma_document_line_count(width: nat, height: nat, rows: Seq<Seq<u8>>)
    requires
        forall|i: int| 0 <= i < rows.len() ==> count_byte(#[trigger] rows[i], 10u8) == 0,
    ensures
        count_byte(document_text(width, height, rows), 10u8) == rows.len() + 3,
    decreases rows.len(),
{
    let pre = seq![80u8, 51u8, 10u8];
    let sp = seq![32u8];
    let post = seq![10u8, 50u8, 53u8, 53u8, 10u8];
    lemma_decimal_reads_back(width);
    lemma_decimal_reads_back(height);
    lemma_signed_decimal_has_no_newline(width as int);
    lemma_signed_decimal_has_no_newline(height as int);
    reveal_with_fuel(count_byte, 6);
    lemma_count_absent(sp, 10u8);
    lemma_count_concat(pre, decimal(width), 10u8);
    lemma_count_concat(pre + decimal(width), sp, 10u8);
    lemma_count_concat(pre + decimal(width) + sp, decimal(height), 10u8);
    lemma_count_concat(pre + decimal(width) + sp + decimal(height), post, 10u8);
    lemma_body_line_count(rows);
    lemma_count_concat(header_text(width, height), body_text(rows), 10u8);
}

/// The body holds one newline per row when the rows hold none.
proof fn lemma_body_line_count(rows: Seq<Seq<u8>>)
    requires
        forall|i: int| 0 <= i < rows.len() ==> count_byte(#[trigger] rows[i], 10u8) == 0,
    ensures
        count_byte(body_text(rows), 10u8) == rows.len(),
    decreases rows.len(),
{
    if rows.len() > 0 {
        let init = rows.drop_last();
        assert forall|i: int| 0 <= i < init.len() implies count_byte(#[trigger] init[i], 10u8) == 0 by {
            assert(init[i] == rows[i]);
        }
        lemma_body_line_count(init);
        assert(count_byte(rows.last(), 10u8) == 0) by {
            assert(rows.last() == rows[rows.len() - 1]);
        }
        reveal_with_fuel(count_byte, 2);
        lemma_count_concat(body_text(init), rows.last(), 10u8);
        lemma_count_concat(body_text(init) + rows.last(), seq![10u8], 10u8);
    }
}

/// `s[..end]` is a plain PPM header for an image `w` pixels wide and `h`
/// pixels high: the bytes `P3` and a newline, the shortest decimal text of
/// `w`, one space, the shortest decimal text of `h`, a newline, `255` and a
/// newline.
pub open spec fn is_header_for(s: Seq<u8>, w: int, h: int, end: int) -> bool {
    exists|i: int, j: int|
        #![trigger s.subrange(3, i), s.subrange(i + 1, j)]
        {
            &&& 3 < i
            &&& i + 1 < j
            &&& j + 5 == end
            &&& end <= s.len()
            &&& s.subrange(0, 3) == seq![80u8, 51u8, 10u8]
            &&& s[i] == 32u8
            &&& canonical_digits(s.subrange(3, i), w)
            &&& canonical_digits(s.subrange(i + 1, j), h)
            &&& s.subrange(j, end) == seq![10u8, 50u8, 53u8, 53u8, 10u8]
        }
}

/// The header names the width first and the height second, each as its
/// shortest decimal text, and nothing follows the final `255` line.
pub proof fn lemma_header_layout(width: nat, height: nat)
    ensures
        is_header_for(
            header_text(width, height),
            width as int,
            height as int,
            header_text(width, height).len() as int,
        ),
{
    let s = header_text(width, height);
    let dw = decimal(width);
    let dh = decimal(height);
    lemma_decimal_is_canonical(width);
    lemma_decimal_is_canonical(height);
    let i: int = 3 + dw.len() as int;
    let j: int = i + 1 + dh.len();
    assert(s.len() == j + 5);
    assert(s.subrange(0, 3) =~= seq![80u8, 51u8, 10u8]);
    assert(s.subrange(3, i) =~= dw);
    assert(s[i] == 32u8);
    assert(s.subrange(i + 1, j) =~= dh);
    assert(s.subrange(j, s.len() as int) =~= seq![10u8, 50u8, 53u8, 53u8, 10u8]);
}

/// A PPM file opens with the header for its own width and height, in that
/// order, and the rest of it is the rows, each followed by a newline.
pub proof fn lemma_document_layout(width: nat, height: nat, rows: Seq<Seq<u8>>)
    ensures
        is_header_for(
            document_text(width, height, rows),
            width as int,
            height as int,
            header_text(width, height).len() as int,
        ),
        document_text(width, height, rows).subrange(
            header_text(width, height).len() as int,
            document_text(width, height, rows).len() as int,
        ) == body_text(rows),
{
    let h = header_text(width, height);
    let d = document_text(width, height, rows);
    lemma_header_layout(width, height);
    let (i, j) = choose|i: int, j: int|
        #![trigger h.subrange(3, i), h.subrange(i + 1, j)]
        {
            &&& 3 < i
            &&& i + 1 < j
            &&& j + 5 == h.len()
            &&& h.len() <= h.len()
            &&& h.subrange(0, 3) == seq![80u8, 51u8, 10u8]
            &&& h[i] == 32u8
            &&& canonical_digits(h.subrange(3, i), width as int)
            &&& canonical_digits(h.subrange(i + 1, j), height as int)
            &&& h.subrange(j, h.len() as int) == seq![10u8, 50u8, 53u8, 53u8, 10u8]
        };
    assert(d.subrange(0, 3) =~= h.subrange(0, 3));
    assert(d.subrange(3, i) =~= h.subrange(3, i));
    assert(d[i] == h[i]);
    assert(d.subrange(i + 1, j) =~= h.subrange(i + 1, j));
    assert(d.subrange(j, h.len() as int) =~= h.subrange(j, h.len() as int));
    assert(d.subrange(h.len() as int, d.len() as int) =~= body_text(rows));
}

/// The body of a file made of two runs of rows is the body of the first run
/// followed by the body of the second.
pub proof fn lemma_body_concat(a: Seq<Seq<u8>>, b: Seq<Seq<u8>>)
    ensures
        body_text(a + b) == body_text(a) + body_text(b),
    decreases b.len(),
{
    if b.len() == 0 {
        assert(a + b =~= a);
        assert(body_text(a) + body_text(b) =~= body_text(a));
    } else {
        assert((a + b).drop_last() =~= a + b.drop_last());
        assert((a + b).last() == b.last());
        lemma_body_concat(a, b.drop_last());
        assert(body_text(a + b) =~= body_text(a) + body_text(b));
    }
}

/// The text of a one-pixel scanline is the red component, one space, the
/// green component, one space and the blue component, each as its shortest
/// signed decimal text, in that order.
pub proof fn lemma_single_pixel_row(p: (i32, i32, i32))
    ensures
        exists|i: int, j: int|
            #![trigger row_text(seq![p]).subrange(0, i), row_text(seq![p]).subrange(i + 1, j)]
            {
                &&& 0 < i
                &&& i + 1 < j
                &&& j + 1 < row_text(seq![p]).len()
                &&& row_text(seq![p])[i] == 32u8
                &&& row_text(seq![p])[j] == 32u8
                &&& canonical_signed(row_text(seq![p]).subrange(0, i), p.0 as int)
                &&& canonical_signed(row_text(seq![p]).subrange(i + 1, j), p.1 as int)
                &&& canonical_signed(
                    row_text(seq![p]).subrange(j + 1, row_text(seq![p]).len() as int),
                    p.2 as int,
                )
            },
{
    let s = row_text(seq![p]);
    assert(seq![p][0] == p);
    assert(s == pixel_text(p));
    let a = signed_decimal(p.0 as int);
    let b = signed_decimal(p.1 as int);
    let c = signed_decimal(p.2 as int);
    lemma_signed_decimal_is_canonical(p.0 as int);
    lemma_signed_decimal_is_canonical(p.1 as int);
    lemma_signed_decimal_is_canonical(p.2 as int);
    let i = a.len() as int;
    let j: int = i + 1 + b.len();
    assert(s.subrange(0, i) =~= a);
    assert(s[i] == 32u8);
    assert(s.subrange(i + 1, j) =~= b);
    assert(s[j] == 32u8);
    assert(s.subrange(j + 1, s.len() as int) =~= c);
}

} // verus!
