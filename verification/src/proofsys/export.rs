//! Reading an exported model: the manifest, the arrays that it lists, and the weights
//! built from them.
use vstd::prelude::*;
use vstd::string::{StrSliceExecFns, StringExecFns};
use crate::proofsys::canonical;
use crate::proofsys::grid;
use crate::proofsys::model::{BlockWeights, ExportedPublicData, ModelWeights};
use crate::proofsys::tensor::{copy_ints, Matrix};
use crate::proofsys::witness::Config;

verus! {

/// Why an export cannot be loaded.
pub enum ExportError {
    /// A manifest line does not have five fields.
    BadLine(String),
    /// A field is no array dimension.
    BadNumber(String),
    /// The element type is neither `int32` nor `int64`.
    UnsupportedType(String),
    /// A file of `int32` is no multiple of four bytes long.
    UnalignedInt32,
    /// A file of `int64` is no multiple of eight bytes long.
    UnalignedInt64,
    /// An array does not have as many elements as its shape.
    Length { name: String, found: usize, d0: usize, d1: usize },
    /// An array is missing.
    Missing(String),
    /// A vector does not have the length that the configuration calls for.
    VectorShape(String),
    /// A matrix does not have the shape that the configuration calls for.
    MatrixShape { name: String, d0: usize, d1: usize, rows: usize, cols: usize },
}

pub enum ErrorView {
    BadLine(Seq<char>),
    BadNumber(Seq<char>),
    UnsupportedType(Seq<char>),
    UnalignedInt32,
    UnalignedInt64,
    Length { name: Seq<char>, found: nat, d0: nat, d1: nat },
    Missing(Seq<char>),
    VectorShape(Seq<char>),
    MatrixShape { name: Seq<char>, d0: nat, d1: nat, rows: nat, cols: nat },
}

impl ExportError {
    pub open spec fn contents(self) -> ErrorView {
        match self {
            ExportError::BadLine(s) => ErrorView::BadLine(s@),
            ExportError::BadNumber(s) => ErrorView::BadNumber(s@),
            ExportError::UnsupportedType(s) => ErrorView::UnsupportedType(s@),
            ExportError::UnalignedInt32 => ErrorView::UnalignedInt32,
            ExportError::UnalignedInt64 => ErrorView::UnalignedInt64,
            ExportError::Length { name, found, d0, d1 } => ErrorView::Length {
                name: name@,
                found: found as nat,
                d0: d0 as nat,
                d1: d1 as nat,
            },
            ExportError::Missing(s) => ErrorView::Missing(s@),
            ExportError::VectorShape(s) => ErrorView::VectorShape(s@),
            ExportError::MatrixShape { name, d0, d1, rows, cols } => ErrorView::MatrixShape {
                name: name@,
                d0: d0 as nat,
                d1: d1 as nat,
                rows: rows as nat,
                cols: cols as nat,
            },
        }
    }
}

/// Whether a character separates fields: Unicode's `White_Space`.
pub open spec fn is_space(c: char) -> bool {
    let n = c as u32;
    ||| 0x9 <= n <= 0xd
    ||| n == 0x20
    ||| n == 0x85
    ||| n == 0xa0
    ||| n == 0x1680
    ||| 0x2000 <= n <= 0x200a
    ||| n == 0x2028
    ||| n == 0x2029
    ||| n == 0x202f
    ||| n == 0x205f
    ||| n == 0x3000
}

fn space(c: char) -> (r: bool)
    ensures
        r == is_space(c),
{
    let n: u32 = c as u32;
    (0x9 <= n && n <= 0xd) || n == 0x20 || n == 0x85 || n == 0xa0 || n == 0x1680 || (0x2000 <= n
        && n <= 0x200a) || n == 0x2028 || n == 0x2029 || n == 0x202f || n == 0x205f || n == 0x3000
}

/// `parts` with `c` added at the end of the last one.
pub open spec fn grown(parts: Seq<Seq<char>>, c: char) -> Seq<Seq<char>> {
    parts.drop_last().push(parts.last().push(c))
}

/// The words of `s`: its maximal runs of characters that separate no fields.
pub open spec fn words(s: Seq<char>) -> Seq<Seq<char>>
    decreases s.len(),
{
    if s.len() == 0 {
        Seq::empty()
    } else if is_space(s.last()) {
        words(s.drop_last())
    } else if s.len() == 1 || is_space(s[s.len() - 2]) {
        words(s.drop_last()).push(seq![s.last()])
    } else {
        grown(words(s.drop_last()), s.last())
    }
}

/// The lines of `s`, each with the line feed that ends it.
pub open spec fn pieces(s: Seq<char>) -> Seq<Seq<char>>
    decreases s.len(),
{
    if s.len() == 0 {
        Seq::empty()
    } else if s.len() == 1 || s[s.len() - 2] == '\n' {
        pieces(s.drop_last()).push(seq![s.last()])
    } else {
        grown(pieces(s.drop_last()), s.last())
    }
}

/// A line without the line feed, and the carriage return before it, that end it.
pub open spec fn stripped(s: Seq<char>) -> Seq<char> {
    if s.len() == 0 || s.last() != '\n' {
        s
    } else if s.len() == 1 || s[s.len() - 2] != '\r' {
        s.drop_last()
    } else {
        s.take(s.len() - 2)
    }
}

/// The first `n` lines that hold a word, stripped.
pub open spec fn filled_lines(p: Seq<Seq<char>>, n: nat) -> Seq<Seq<char>>
    decreases n,
{
    if n == 0 {
        Seq::empty()
    } else if words(stripped(p[n - 1])).len() == 0 {
        filled_lines(p, (n - 1) as nat)
    } else {
        filled_lines(p, (n - 1) as nat).push(stripped(p[n - 1]))
    }
}

/// The lines of a manifest.
pub open spec fn lines_of(text: Seq<char>) -> Seq<Seq<char>> {
    filled_lines(pieces(text), pieces(text).len())
}

/// What the strings hold.
pub open spec fn texts(v: Seq<String>) -> Seq<Seq<char>> {
    Seq::new(v.len(), |i: int| v[i]@)
}

/// Adds one character to the last part, or a new part that holds it.
fn grow(parts: &mut Vec<String>, text: &str, i: usize, fresh: bool)
    requires
        i < text@.len(),
        text@.len() <= usize::MAX,
        fresh || old(parts)@.len() > 0,
    ensures
        final(parts)@.len() > 0,
        texts(final(parts)@) == (if fresh {
            texts(old(parts)@).push(seq![text@[i as int]])
        } else {
            grown(texts(old(parts)@), text@[i as int])
        }),
{
    let ghost before = texts(parts@);
    let c = text.substring_char(i, i + 1);
    assert(c@ =~= seq![text@[i as int]]);
    if fresh {
        parts.push(c.to_owned());
        assert(texts(parts@) =~= before.push(seq![text@[i as int]]));
    } else {
        match parts.pop() {
            Some(last) => {
                assert(last@ == before.last());
                let longer = last.concat(c);
                assert(longer@ =~= before.last().push(text@[i as int]));
                parts.push(longer);
                assert(texts(parts@) =~= grown(before, text@[i as int]));
            },
            None => {},
        }
    }
}

/// Splits a line into its words.
pub fn split_words(text: &str) -> (r: Vec<String>)
    ensures
        texts(r@) == words(text@),
{
    let mut out: Vec<String> = Vec::new();
    let n: usize = text.unicode_len();
    let mut i: usize = 0;
    let mut open = false;
    assert(texts(out@) =~= words(text@.take(0)));
    while i < n
        invariant
            i <= n,
            n == text@.len(),
            open == (i > 0 && !is_space(text@[i - 1])),
            open ==> out@.len() > 0,
            texts(out@) == words(text@.take(i as int)),
        decreases n - i,
    {
        let ghost t = text@.take(i + 1);
        assert(t.drop_last() =~= text@.take(i as int));
        assert(t.last() == text@[i as int]);
        let c = text.get_char(i);
        if space(c) {
            open = false;
        } else {
            grow(&mut out, text, i, !open);
            open = true;
        }
        i += 1;
    }
    assert(text@.take(i as int) =~= text@);
    out
}

/// Splits a text into its lines, each with the line feed that ends it.
fn split_pieces(text: &str) -> (r: Vec<String>)
    ensures
        texts(r@) == pieces(text@),
{
    let mut out: Vec<String> = Vec::new();
    let n: usize = text.unicode_len();
    let mut i: usize = 0;
    let mut open = false;
    assert(texts(out@) =~= pieces(text@.take(0)));
    while i < n
        invariant
            i <= n,
            n == text@.len(),
            open == (i > 0 && text@[i - 1] != '\n'),
            open ==> out@.len() > 0,
            texts(out@) == pieces(text@.take(i as int)),
        decreases n - i,
    {
        let ghost t = text@.take(i + 1);
        assert(t.drop_last() =~= text@.take(i as int));
        assert(t.last() == text@[i as int]);
        let c = text.get_char(i);
        grow(&mut out, text, i, !open);
        open = c != '\n';
        i += 1;
    }
    assert(text@.take(i as int) =~= text@);
    out
}

/// A line without its ending.
fn strip(line: &str) -> (r: String)
    ensures
        r@ == stripped(line@),
{
    let n: usize = line.unicode_len();
    if n == 0 || line.get_char(n - 1) != '\n' {
        line.to_owned()
    } else if n == 1 || line.get_char(n - 2) != '\r' {
        let s = line.substring_char(0, n - 1);
        assert(s@ =~= line@.drop_last());
        s.to_owned()
    } else {
        let s = line.substring_char(0, n - 2);
        assert(s@ =~= line@.take(n - 2));
        s.to_owned()
    }
}

/// The lines of a manifest that are not blank, without their endings.
pub fn manifest_lines(text: &str) -> (r: Vec<String>)
    ensures
        texts(r@) == lines_of(text@),
{
    let all = split_pieces(text);
    let ghost p = pieces(text@);
    let mut out: Vec<String> = Vec::new();
    let mut i: usize = 0;
    assert(texts(out@) =~= filled_lines(p, 0));
    assert(texts(all@).len() == all@.len());
    while i < all.len()
        invariant
            i <= all@.len(),
            p == texts(all@),
            texts(out@) == filled_lines(p, i as nat),
        decreases all@.len() - i,
    {
        assert(p[i as int] == all@[i as int]@);
        let line = strip(all[i].as_str());
        let found = split_words(line.as_str());
        assert(found@.len() == words(line@).len()) by {
            assert(texts(found@).len() == found@.len());
        }
        if found.len() > 0 {
            let ghost before = texts(out@);
            out.push(line);
            assert(texts(out@) =~= before.push(stripped(p[i as int])));
        }
        i += 1;
    }
    out
}

/// The value of a decimal digit.
pub open spec fn digit_of(c: char) -> int {
    c as u32 - '0' as u32
}

pub open spec fn is_digit(c: char) -> bool {
    0 <= digit_of(c) < 10
}

/// The number that a run of digits stands for.
pub open spec fn digits_value(s: Seq<char>) -> int
    decreases s.len(),
{
    if s.len() == 0 {
        0
    } else {
        10 * digits_value(s.drop_last()) + digit_of(s.last())
    }
}

/// The digits of a number: all of it but a plus sign in front.
pub open spec fn digits_of(s: Seq<char>) -> Seq<char> {
    if s.len() > 0 && s[0] == '+' {
        s.skip(1)
    } else {
        s
    }
}

/// The dimension that a field stands for: at least one digit, nothing else but a plus
/// sign in front, and no more than a `usize` holds.
pub open spec fn number_of(s: Seq<char>) -> Option<nat> {
    let d = digits_of(s);
    if d.len() > 0 && (forall|i: int| 0 <= i < d.len() ==> is_digit(#[trigger] d[i]))
        && digits_value(d) <= usize::MAX {
        Some(digits_value(d) as nat)
    } else {
        None
    }
}

proof fn lemma_digits_mono(s: Seq<char>, n: int)
    requires
        0 <= n <= s.len(),
        forall|i: int| 0 <= i < s.len() ==> is_digit(#[trigger] s[i]),
    ensures
        0 <= digits_value(s.take(n)) <= digits_value(s),
    decreases s.len(),
{
    if s.len() == 0 {
        assert(s.take(n) =~= s);
    } else if n == s.len() {
        assert(s.take(n) =~= s);
        lemma_digits_mono(s.drop_last(), s.len() - 1);
        assert(s.drop_last().take(s.len() - 1) =~= s.drop_last());
        assert(is_digit(s.last()));
    } else {
        lemma_digits_mono(s.drop_last(), n);
        assert(s.drop_last().take(n) =~= s.take(n));
        assert(is_digit(s.last()));
    }
}

/// Parses an array dimension.
pub fn parse_number(text: &str) -> (r: Option<usize>)
    ensures
        number_of(text@) == (match r {
            Some(v) => Some(v as nat),
            None => None,
        }),
{
    let n: usize = text.unicode_len();
    let from: usize = if n > 0 && text.get_char(0) == '+' {
        1
    } else {
        0
    };
    let ghost d = digits_of(text@);
    assert(d =~= text@.skip(from as int));
    if from == n {
        return None;
    }
    let mut v: usize = 0;
    let mut i: usize = from;
    assert(d.take(0).len() == 0);
    while i < n
        invariant
            from <= i <= n,
            n == text@.len(),
            d == digits_of(text@),
            d == text@.skip(from as int),
            d.len() > 0,
            v == digits_value(d.take(i - from)),
            forall|k: int| 0 <= k < i - from ==> is_digit(#[trigger] d[k]),
        decreases n - i,
    {
        let c: u32 = text.get_char(i) as u32;
        assert(text@[i as int] == d[i - from]);
        if c < 48 || c > 57 {
            assert(!is_digit(d[i - from]));
            return None;
        }
        assert(is_digit(d[i - from]));
        assert(d.take(i - from + 1).drop_last() =~= d.take(i - from));
        let x: usize = (c - 48) as usize;
        if v > usize::MAX / 10 || x > usize::MAX - 10 * v {
            proof {
                assert(digits_value(d.take(i - from + 1)) > usize::MAX);
                if forall|k: int| 0 <= k < d.len() ==> is_digit(#[trigger] d[k]) {
                    lemma_digits_mono(d, i - from + 1);
                }
            }
            return None;
        }
        v = 10 * v + x;
        i += 1;
    }
    assert(d.take(i - from) =~= d);
    Some(v)
}

/// The element type of an exported array.
#[derive(Clone, Copy, PartialEq, Eq, Debug)]
pub enum ElementType {
    Int32,
    Int64,
}

/// One line of a manifest.
pub struct ManifestEntry {
    pub name: String,
    pub element: ElementType,
    pub d0: usize,
    pub d1: usize,
    pub file: String,
}

pub struct EntryView {
    pub name: Seq<char>,
    pub element: ElementType,
    pub d0: nat,
    pub d1: nat,
    pub file: Seq<char>,
}

impl ManifestEntry {
    pub open spec fn contents(self) -> EntryView {
        EntryView {
            name: self.name@,
            element: self.element,
            d0: self.d0 as nat,
            d1: self.d1 as nat,
            file: self.file@,
        }
    }
}

/// What a manifest line says.
pub open spec fn entry_of(line: Seq<char>) -> Result<EntryView, ErrorView> {
    let w = words(line);
    if w.len() != 5 {
        Err(ErrorView::BadLine(line))
    } else {
        match (number_of(w[2]), number_of(w[3])) {
            (None, _) => Err(ErrorView::BadNumber(w[2])),
            (Some(_), None) => Err(ErrorView::BadNumber(w[3])),
            (Some(d0), Some(d1)) => if w[1] == "int32"@ {
                Ok(EntryView { name: w[0], element: ElementType::Int32, d0, d1, file: w[4] })
            } else if w[1] == "int64"@ {
                Ok(EntryView { name: w[0], element: ElementType::Int64, d0, d1, file: w[4] })
            } else {
                Err(ErrorView::UnsupportedType(w[1]))
            },
        }
    }
}

/// Parses a manifest line: name, element type, two dimensions and file name.
pub fn parse_line(line: &str) -> (r: Result<ManifestEntry, ExportError>)
    ensures
        entry_of(line@) == (match r {
            Ok(e) => Ok(e.contents()),
            Err(e) => Err(e.contents()),
        }),
{
    let w = split_words(line);
    assert(texts(w@).len() == w@.len());
    if w.len() != 5 {
        return Err(ExportError::BadLine(line.to_owned()));
    }
    assert(forall|k: int| 0 <= k < 5 ==> (#[trigger] texts(w@)[k]) == w@[k]@);
    let d0: usize = match parse_number(w[2].as_str()) {
        Some(d) => d,
        None => {
            return Err(ExportError::BadNumber(w[2].clone()));
        },
    };
    let d1: usize = match parse_number(w[3].as_str()) {
        Some(d) => d,
        None => {
            return Err(ExportError::BadNumber(w[3].clone()));
        },
    };
    let element = if w[1] == "int32".to_owned() {
        ElementType::Int32
    } else if w[1] == "int64".to_owned() {
        ElementType::Int64
    } else {
        return Err(ExportError::UnsupportedType(w[1].clone()));
    };
    Ok(ManifestEntry { name: w[0].clone(), element, d0, d1, file: w[4].clone() })
}

/// The number that bytes stand for, the least significant first.
pub open spec fn unsigned_value(b: Seq<u8>) -> int
    decreases b.len(),
{
    if b.len() == 0 {
        0
    } else {
        b[0] + 256 * unsigned_value(b.skip(1))
    }
}

/// The two's complement number that bytes stand for, where `half` is half of their range.
pub open spec fn signed_value(b: Seq<u8>, half: int) -> int {
    if unsigned_value(b) < half {
        unsigned_value(b)
    } else {
        unsigned_value(b) - 2 * half
    }
}

/// Number of bytes of an element.
pub open spec fn width_of(e: ElementType) -> int {
    match e {
        ElementType::Int32 => 4,
        ElementType::Int64 => 8,
    }
}

/// Half of an element's range.
pub open spec fn half_of(e: ElementType) -> int {
    match e {
        ElementType::Int32 => 0x8000_0000,
        ElementType::Int64 => 0x8000_0000_0000_0000,
    }
}

/// Element `i` of a file.
pub open spec fn element_at(b: Seq<u8>, e: ElementType, i: int) -> int {
    signed_value(b.subrange(width_of(e) * i, width_of(e) * (i + 1)), half_of(e))
}

/// The numbers that a file holds.
pub open spec fn decoded(b: Seq<u8>, e: ElementType) -> Result<Seq<int>, ErrorView> {
    if b.len() % (width_of(e) as nat) == 0 {
        Ok(Seq::new((b.len() / (width_of(e) as nat)) as nat, |i: int| element_at(b, e, i)))
    } else {
        match e {
            ElementType::Int32 => Err(ErrorView::UnalignedInt32),
            ElementType::Int64 => Err(ErrorView::UnalignedInt64),
        }
    }
}

pub proof fn lemma_four_bytes(b: Seq<u8>)
    requires
        b.len() == 4,
    ensures
        unsigned_value(b) == b[0] + 0x100 * b[1] + 0x1_0000 * b[2] + 0x100_0000 * b[3],
{
    reveal_with_fuel(unsigned_value, 5);
    assert(b.skip(1)[0] == b[1]);
    assert(b.skip(1).skip(1)[0] == b[2]);
    assert(b.skip(1).skip(1).skip(1)[0] == b[3]);
}

pub proof fn lemma_eight_bytes(b: Seq<u8>)
    requires
        b.len() == 8,
    ensures
        unsigned_value(b) == b[0] + 0x100 * b[1] + 0x1_0000 * b[2] + 0x100_0000 * b[3]
            + 0x1_0000_0000 * b[4] + 0x100_0000_0000 * b[5] + 0x1_0000_0000_0000 * b[6]
            + 0x100_0000_0000_0000 * b[7],
{
    let high = b.skip(4);
    lemma_four_bytes(high);
    reveal_with_fuel(unsigned_value, 5);
    assert(b.skip(1)[0] == b[1]);
    assert(b.skip(1).skip(1)[0] == b[2]);
    assert(b.skip(1).skip(1).skip(1)[0] == b[3]);
    assert(b.skip(1).skip(1).skip(1).skip(1) =~= high);
}

/// Reads one `int32`.
fn read_int32(b: &[u8], at: usize) -> (r: i64)
    requires
        at + 4 <= b@.len(),
    ensures
        r == signed_value(b@.subrange(at as int, at + 4), 0x8000_0000),
{
    let v: i64 = b[at] as i64 + 0x100 * b[at + 1] as i64 + 0x1_0000 * b[at + 2] as i64 + 0x100_0000
        * b[at + 3] as i64;
    proof {
        lemma_four_bytes(b@.subrange(at as int, at + 4));
    }
    if v < 0x8000_0000 {
        v
    } else {
        v - 0x1_0000_0000
    }
}

/// Reads one `int64`.
fn read_int64(b: &[u8], at: usize) -> (r: i64)
    requires
        at + 8 <= b@.len(),
    ensures
        r == signed_value(b@.subrange(at as int, at + 8), 0x8000_0000_0000_0000),
{
    let v: i128 = b[at] as i128 + 0x100 * b[at + 1] as i128 + 0x1_0000 * b[at + 2] as i128
        + 0x100_0000 * b[at + 3] as i128 + 0x1_0000_0000 * b[at + 4] as i128 + 0x100_0000_0000
        * b[at + 5] as i128 + 0x1_0000_0000_0000 * b[at + 6] as i128 + 0x100_0000_0000_0000 * b[at
        + 7] as i128;
    proof {
        lemma_eight_bytes(b@.subrange(at as int, at + 8));
    }
    if v < 0x8000_0000_0000_0000 {
        v as i64
    } else {
        (v - 0x1_0000_0000_0000_0000) as i64
    }
}

/// Decodes a file of little-endian numbers.
pub fn decode(bytes: &[u8], element: ElementType) -> (r: Result<Vec<i64>, ExportError>)
    ensures
        decoded(bytes@, element) == (match r {
            Ok(v) => Ok(grid::ints(v@)),
            Err(e) => Err(e.contents()),
        }),
{
    let width: usize = match element {
        ElementType::Int32 => 4,
        ElementType::Int64 => 8,
    };
    if bytes.len() % width != 0 {
        return match element {
            ElementType::Int32 => Err(ExportError::UnalignedInt32),
            ElementType::Int64 => Err(ExportError::UnalignedInt64),
        };
    }
    let n: usize = bytes.len() / width;
    let mut out: Vec<i64> = Vec::new();
    let mut i: usize = 0;
    while i < n
        invariant
            i <= n,
            width == width_of(element),
            n * width <= bytes@.len(),
            bytes@.len() <= usize::MAX,
            out@.len() == i,
            forall|k: int|
                0 <= k < i ==> (#[trigger] out@[k]) == element_at(bytes@, element, k),
        decreases n - i,
    {
        assert(width * i + width <= bytes@.len()) by (nonlinear_arith)
            requires
                i < n,
                n * width <= bytes@.len(),
        ;
        assert(width_of(element) * (i + 1) == width * i + width) by (nonlinear_arith)
            requires
                width == width_of(element),
        ;
        let at: usize = width * i;
        let v: i64 = match element {
            ElementType::Int32 => read_int32(bytes, at),
            ElementType::Int64 => read_int64(bytes, at),
        };
        out.push(v);
        i += 1;
    }
    assert(grid::ints(out@) =~= Seq::new(n as nat, |i: int| element_at(bytes@, element, i)));
    Ok(out)
}

/// An array of an export; a second dimension of zero stands for a vector.
pub struct ArrayView {
    pub d0: nat,
    pub d1: nat,
    pub values: Seq<i64>,
}

/// Number of elements of an array's shape.
pub open spec fn shape_len(d0: nat, d1: nat) -> nat {
    d0 * (if d1 == 0 {
        1
    } else {
        d1
    })
}

/// An array and its name.
struct NamedArray {
    name: String,
    d0: usize,
    d1: usize,
    values: Vec<i64>,
}

/// The arrays of an export, by name; of two with one name the later is kept.
pub struct ArrayTable {
    entries: Vec<NamedArray>,
}

spec fn arrays_by(entries: Seq<NamedArray>, n: nat) -> Map<Seq<char>, ArrayView>
    decreases n,
{
    if n == 0 {
        Map::empty()
    } else {
        arrays_by(entries, (n - 1) as nat).insert(
            entries[n - 1].name@,
            ArrayView {
                d0: entries[n - 1].d0 as nat,
                d1: entries[n - 1].d1 as nat,
                values: entries[n - 1].values@,
            },
        )
    }
}

proof fn lemma_arrays_prefix(a: Seq<NamedArray>, b: Seq<NamedArray>, n: nat)
    requires
        n <= a.len(),
        n <= b.len(),
        a.take(n as int) == b.take(n as int),
    ensures
        arrays_by(a, n) == arrays_by(b, n),
    decreases n,
{
    if n > 0 {
        assert(a[n - 1] == a.take(n as int)[n - 1]);
        assert(b[n - 1] == b.take(n as int)[n - 1]);
        assert(a.take(n - 1) =~= a.take(n as int).take(n - 1));
        assert(b.take(n - 1) =~= b.take(n as int).take(n - 1));
        lemma_arrays_prefix(a, b, (n - 1) as nat);
    }
}

impl ArrayTable {
    /// The arrays.
    pub closed spec fn arrays(self) -> Map<Seq<char>, ArrayView> {
        arrays_by(self.entries@, self.entries@.len())
    }

    /// Every array has as many elements as its shape.
    pub open spec fn wf(self) -> bool {
        forall|name: Seq<char>|
            #![trigger self.arrays()[name]]
            self.arrays().contains_key(name) ==> self.arrays()[name].values.len() == shape_len(
                self.arrays()[name].d0,
                self.arrays()[name].d1,
            )
    }

    /// No arrays.
    pub fn new() -> (r: Self)
        ensures
            r.wf(),
            r.arrays() == Map::<Seq<char>, ArrayView>::empty(),
    {
        ArrayTable { entries: Vec::new() }
    }

    /// Adds the array of a manifest line from the bytes of its file.
    pub fn add(&mut self, entry: ManifestEntry, bytes: &[u8]) -> (r: Result<(), ExportError>)
        requires
            old(self).wf(),
        ensures
            final(self).wf(),
            match decoded(bytes@, entry.contents().element) {
                Err(e) => r is Err && (r->Err_0).contents() == e,
                Ok(v) => if v.len() == shape_len(entry.d0 as nat, entry.d1 as nat) {
                    &&& r is Ok
                    &&& final(self).arrays().dom() == old(self).arrays().dom().insert(
                        entry.name@,
                    )
                    &&& grid::ints(final(self).arrays()[entry.name@].values) == v
                    &&& final(self).arrays()[entry.name@].d0 == entry.d0
                    &&& final(self).arrays()[entry.name@].d1 == entry.d1
                    &&& forall|other: Seq<char>|
                        other != entry.name@ ==> #[trigger] final(self).arrays()[other] == old(
                            self,
                        ).arrays()[other]
                } else {
                    r is Err && (r->Err_0).contents() == (ErrorView::Length {
                        name: entry.name@,
                        found: v.len(),
                        d0: entry.d0 as nat,
                        d1: entry.d1 as nat,
                    })
                },
            },
            r is Err ==> final(self).arrays() == old(self).arrays(),
    {
        let values = match decode(bytes, entry.element) {
            Ok(v) => v,
            Err(e) => {
                return Err(e);
            },
        };
        let ghost before = self.entries@;
        assert(grid::ints(values@).len() == values@.len());
        let fits = if entry.d1 == 0 {
            values.len() == entry.d0
        } else {
            let rows: usize = values.len() / entry.d1;
            proof {
                let (n, d0, d1) = (values@.len() as int, entry.d0 as int, entry.d1 as int);
                vstd::arithmetic::div_mod::lemma_fundamental_div_mod(n, d1);
                if n == d0 * d1 {
                    vstd::arithmetic::div_mod::lemma_div_by_multiple(d0, d1);
                    vstd::arithmetic::div_mod::lemma_mod_multiples_basic(d0, d1);
                } else if n / d1 == d0 && n % d1 == 0 {
                    assert(d1 * (n / d1) == d0 * d1) by (nonlinear_arith)
                        requires
                            n / d1 == d0,
                    ;
                }
            }
            values.len() % entry.d1 == 0 && rows == entry.d0
        };
        if !fits {
            return Err(
                ExportError::Length {
                    name: entry.name,
                    found: values.len(),
                    d0: entry.d0,
                    d1: entry.d1,
                },
            );
        }
        let ghost name = entry.name@;
        self.entries.push(
            NamedArray { name: entry.name, d0: entry.d0, d1: entry.d1, values },
        );
        proof {
            assert(before.take(before.len() as int) =~= self.entries@.take(before.len() as int));
            lemma_arrays_prefix(before, self.entries@, before.len());
            assert(self.arrays() =~= old(self).arrays().insert(
                name,
                ArrayView {
                    d0: entry.d0 as nat,
                    d1: entry.d1 as nat,
                    values: values@,
                },
            ));
            assert forall|n: Seq<char>|
                #![trigger self.arrays()[n]]
                self.arrays().contains_key(n) implies self.arrays()[n].values.len() == shape_len(
                self.arrays()[n].d0,
                self.arrays()[n].d1,
            ) by {
                if n != name {
                    assert(old(self).arrays()[n] == self.arrays()[n]);
                }
            }
        }
        Ok(())
    }

    /// The position of the array that is kept under `name`.
    fn find(&self, name: &str) -> (r: Option<usize>)
        ensures
            r is Some <==> self.arrays().contains_key(name@),
            r is Some ==> r->0 < self.entries@.len() && self.arrays()[name@] == (ArrayView {
                d0: self.entries@[r->0 as int].d0 as nat,
                d1: self.entries@[r->0 as int].d1 as nat,
                values: self.entries@[r->0 as int].values@,
            }),
    {
        let wanted = name.to_owned();
        let mut i: usize = self.entries.len();
        while i > 0
            invariant
                i <= self.entries@.len(),
                wanted@ == name@,
                self.arrays().contains_key(name@) <==> arrays_by(
                    self.entries@,
                    i as nat,
                ).contains_key(name@),
                self.arrays().contains_key(name@) ==> self.arrays()[name@] == arrays_by(
                    self.entries@,
                    i as nat,
                )[name@],
            decreases i,
        {
            i -= 1;
            if self.entries[i].name == wanted {
                return Some(i);
            }
        }
        None
    }

    /// The vector of length `len` under `name`.
    fn vector(&self, name: &str, len: usize) -> (r: Result<Vec<i64>, ExportError>)
        ensures
            match r {
                Ok(v) => is_vector(self.arrays(), name@, len as nat) && v@ == self.arrays()[name@].values,
                Err(e) => !is_vector(self.arrays(), name@, len as nat) && e.contents()
                    == vector_error(self.arrays(), name@),
            },
    {
        match self.find(name) {
            None => Err(ExportError::Missing(name.to_owned())),
            Some(i) => {
                let a = &self.entries[i];
                if a.d1 != 0 || a.d0 != len {
                    Err(ExportError::VectorShape(name.to_owned()))
                } else {
                    Ok(copy_ints(a.values.as_slice()))
                }
            },
        }
    }

    /// The matrix of shape `rows` times `cols` under `name`.
    fn matrix(&self, name: &str, rows: usize, cols: usize) -> (r: Result<Matrix, ExportError>)
        requires
            self.wf(),
            is_matrix(self.arrays(), name@, rows as nat, cols as nat) ==> cols > 0 || rows == 0,
        ensures
            match r {
                Ok(m) => {
                    &&& is_matrix(self.arrays(), name@, rows as nat, cols as nat)
                    &&& holds_matrix(self.arrays(), name@, m, rows as nat, cols as nat)
                },
                Err(e) => !is_matrix(self.arrays(), name@, rows as nat, cols as nat)
                    && e.contents() == matrix_error(
                    self.arrays(),
                    name@,
                    rows as nat,
                    cols as nat,
                ),
            },
    {
        match self.find(name) {
            None => Err(ExportError::Missing(name.to_owned())),
            Some(i) => {
                let a = &self.entries[i];
                if a.d0 != rows || a.d1 != cols {
                    Err(
                        ExportError::MatrixShape {
                            name: name.to_owned(),
                            d0: a.d0,
                            d1: a.d1,
                            rows,
                            cols,
                        },
                    )
                } else {
                    assert(self.arrays()[name@].values.len() == shape_len(
                        rows as nat,
                        cols as nat,
                    ));
                    Ok(Matrix::new(rows, cols, copy_ints(a.values.as_slice())))
                }
            },
        }
    }
}

/// The table holds a vector of length `len` under `name`.
pub open spec fn is_vector(m: Map<Seq<char>, ArrayView>, name: Seq<char>, len: nat) -> bool {
    m.contains_key(name) && m[name].d0 == len && m[name].d1 == 0
}

/// The table holds a matrix of shape `rows` times `cols` under `name`.
pub open spec fn is_matrix(
    m: Map<Seq<char>, ArrayView>,
    name: Seq<char>,
    rows: nat,
    cols: nat,
) -> bool {
    m.contains_key(name) && m[name].d0 == rows && m[name].d1 == cols
}

/// Why there is no such vector.
pub open spec fn vector_error(m: Map<Seq<char>, ArrayView>, name: Seq<char>) -> ErrorView {
    if m.contains_key(name) {
        ErrorView::VectorShape(name)
    } else {
        ErrorView::Missing(name)
    }
}

/// Why there is no such matrix.
pub open spec fn matrix_error(
    m: Map<Seq<char>, ArrayView>,
    name: Seq<char>,
    rows: nat,
    cols: nat,
) -> ErrorView {
    if m.contains_key(name) {
        ErrorView::MatrixShape { name, d0: m[name].d0, d1: m[name].d1, rows, cols }
    } else {
        ErrorView::Missing(name)
    }
}

/// The matrix is the one under `name`.
pub open spec fn holds_matrix(
    m: Map<Seq<char>, ArrayView>,
    name: Seq<char>,
    x: Matrix,
    rows: nat,
    cols: nat,
) -> bool {
    x.wf() && x.height() == rows && x.width() == cols && x.values() == m[name].values
}

/// An array that the weights are built from.
pub enum Request {
    Vector { name: Seq<char>, len: nat },
    Matrix { name: Seq<char>, rows: nat, cols: nat },
}

/// The table holds what is requested.
pub open spec fn met(m: Map<Seq<char>, ArrayView>, q: Request) -> bool {
    match q {
        Request::Vector { name, len } => is_vector(m, name, len),
        Request::Matrix { name, rows, cols } => is_matrix(m, name, rows, cols),
    }
}

/// Why the table does not hold what is requested.
pub open spec fn unmet_error(m: Map<Seq<char>, ArrayView>, q: Request) -> ErrorView {
    match q {
        Request::Vector { name, len } => vector_error(m, name),
        Request::Matrix { name, rows, cols } => matrix_error(m, name, rows, cols),
    }
}

/// The error of the first of the first `n` requests that is not met.
pub open spec fn first_unmet(m: Map<Seq<char>, ArrayView>, q: Seq<Request>, n: nat) -> Option<
    ErrorView,
>
    decreases n,
{
    if n == 0 {
        None
    } else if first_unmet(m, q, (n - 1) as nat) is Some {
        first_unmet(m, q, (n - 1) as nat)
    } else if met(m, q[n - 1]) {
        None
    } else {
        Some(unmet_error(m, q[n - 1]))
    }
}

/// The name of an array of block `i`.
pub open spec fn block_name(i: nat, part: Seq<char>) -> Seq<char> {
    "blk"@ + canonical::decimal(i) + "_"@ + part
}

/// The arrays of block `i`, in the order in which they are read.
pub open spec fn block_requests(config: Config, i: nat) -> Seq<Request> {
    let (d, h) = (config.d_model as nat, config.mlp_hidden as nat);
    seq![
        Request::Vector { name: block_name(i, "ln_1_g"@), len: d },
        Request::Vector { name: block_name(i, "ln_1_b"@), len: d },
        Request::Matrix { name: block_name(i, "attn_w"@), rows: d, cols: 3 * d },
        Request::Vector { name: block_name(i, "attn_b"@), len: 3 * d },
        Request::Matrix { name: block_name(i, "attn_proj_w"@), rows: d, cols: d },
        Request::Vector { name: block_name(i, "attn_proj_b"@), len: d },
        Request::Vector { name: block_name(i, "ln_2_g"@), len: d },
        Request::Vector { name: block_name(i, "ln_2_b"@), len: d },
        Request::Matrix { name: block_name(i, "fc_w"@), rows: d, cols: h },
        Request::Vector { name: block_name(i, "fc_b"@), len: h },
        Request::Matrix { name: block_name(i, "fproj_w"@), rows: h, cols: d },
        Request::Vector { name: block_name(i, "fproj_b"@), len: d },
    ]
}

/// The arrays of the first `n` blocks.
pub open spec fn blocks_requests(config: Config, n: nat) -> Seq<Request>
    decreases n,
{
    if n == 0 {
        Seq::empty()
    } else {
        blocks_requests(config, (n - 1) as nat) + block_requests(config, (n - 1) as nat)
    }
}

/// Length of the exponential table.
pub open spec fn exp_len(config: Config) -> nat {
    ((config.max_v * config.scale + 1) as usize) as nat
}

/// Length of the GELU table.
pub open spec fn gelu_len(config: Config) -> nat {
    ((2 * config.max_v * config.scale + 1) as usize) as nat
}

/// The arrays outside the blocks.
pub open spec fn outer_requests(config: Config, positions: bool) -> Seq<Request> {
    let d = config.d_model as nat;
    seq![Request::Matrix { name: "wte"@, rows: config.vocab as nat, cols: d }] + (if positions {
        seq![Request::Matrix { name: "wpe"@, rows: 1024, cols: d }]
    } else {
        Seq::empty()
    }) + seq![
        Request::Vector { name: "ln_f_g"@, len: d },
        Request::Vector { name: "ln_f_b"@, len: d },
        Request::Vector { name: "exp_lut"@, len: exp_len(config) },
        Request::Vector { name: "gelu_lut"@, len: gelu_len(config) },
    ]
}

/// All arrays that the weights are built from, in the order in which they are read. The
/// position embedding is optional.
pub open spec fn all_requests(config: Config, positions: bool) -> Seq<Request> {
    outer_requests(config, positions) + blocks_requests(config, config.n_layer as nat)
}

/// The block's weights are those in the table.
pub open spec fn block_loaded(
    b: BlockWeights,
    m: Map<Seq<char>, ArrayView>,
    config: Config,
    i: nat,
) -> bool {
    let (d, h) = (config.d_model as nat, config.mlp_hidden as nat);
    &&& b.ln_1_g@ == m[block_name(i, "ln_1_g"@)].values
    &&& b.ln_1_b@ == m[block_name(i, "ln_1_b"@)].values
    &&& holds_matrix(m, block_name(i, "attn_w"@), b.attn_w, d, 3 * d)
    &&& b.attn_b@ == m[block_name(i, "attn_b"@)].values
    &&& holds_matrix(m, block_name(i, "attn_proj_w"@), b.attn_proj_w, d, d)
    &&& b.attn_proj_b@ == m[block_name(i, "attn_proj_b"@)].values
    &&& b.ln_2_g@ == m[block_name(i, "ln_2_g"@)].values
    &&& b.ln_2_b@ == m[block_name(i, "ln_2_b"@)].values
    &&& holds_matrix(m, block_name(i, "fc_w"@), b.fc_w, d, h)
    &&& b.fc_b@ == m[block_name(i, "fc_b"@)].values
    &&& holds_matrix(m, block_name(i, "fproj_w"@), b.fproj_w, h, d)
    &&& b.fproj_b@ == m[block_name(i, "fproj_b"@)].values
}

/// The weights are those in the table; a missing position embedding is zero.
pub open spec fn weights_loaded(
    w: ModelWeights,
    m: Map<Seq<char>, ArrayView>,
    config: Config,
) -> bool {
    let d = config.d_model as nat;
    &&& holds_matrix(m, "wte"@, w.wte, config.vocab as nat, d)
    &&& w.has_wpe == m.contains_key("wpe"@)
    &&& w.wpe.wf()
    &&& w.has_wpe ==> holds_matrix(m, "wpe"@, w.wpe, 1024, d)
    &&& !w.has_wpe ==> w.wpe.grid() == grid::zero_grid(1024, d)
    &&& w.ln_f_g@ == m["ln_f_g"@].values
    &&& w.ln_f_b@ == m["ln_f_b"@].values
    &&& w.exp_lut@ == m["exp_lut"@].values
    &&& w.gelu_lut@ == m["gelu_lut"@].values
    &&& w.blocks@.len() == config.n_layer
    &&& forall|i: int|
        0 <= i < config.n_layer ==> block_loaded(#[trigger] w.blocks@[i], m, config, i as nat)
}

/// A matrix that is there has columns, if it has rows.
pub open spec fn buildable(m: Map<Seq<char>, ArrayView>, q: Request) -> bool {
    q matches Request::Matrix { name, rows, cols } ==> is_matrix(m, name, rows, cols) ==> cols > 0
        || rows == 0
}

/// Every matrix that is built, as all arrays before it are there, can be built.
pub open spec fn all_buildable(m: Map<Seq<char>, ArrayView>, q: Seq<Request>) -> bool {
    forall|j: int|
        0 <= j < q.len() && first_unmet(m, q, j as nat) is None ==> buildable(m, #[trigger] q[j])
}

/// The sizes of block `i` can be computed where its arrays are there.
pub open spec fn block_fits(m: Map<Seq<char>, ArrayView>, config: Config, i: nat) -> bool {
    let q = block_requests(config, i);
    &&& all_buildable(m, q)
    &&& first_unmet(m, q, 2) is None ==> 3 * config.d_model <= usize::MAX
}

/// The sizes of every block can be computed where the blocks before it are there.
pub open spec fn blocks_fit(m: Map<Seq<char>, ArrayView>, config: Config) -> bool {
    forall|i: nat|
        i < config.n_layer && first_unmet(
            m,
            blocks_requests(config, i),
            blocks_requests(config, i).len(),
        ) is None ==> #[trigger] block_fits(m, config, i)
}

/// The sizes of the weights can be computed, each where the arrays before it are there.
pub open spec fn export_fits(m: Map<Seq<char>, ArrayView>, config: Config) -> bool {
    let positions = m.contains_key("wpe"@);
    let q = outer_requests(config, positions);
    let offset = config.max_v * config.scale;
    &&& all_buildable(m, q)
    &&& met(m, q[0]) && !positions ==> 1024 * config.d_model <= usize::MAX
    &&& first_unmet(m, q, (q.len() - 2) as nat) is None ==> grid::in_i64(offset)
        && grid::in_i64(offset + 1)
    &&& first_unmet(m, q, (q.len() - 1) as nat) is None ==> grid::in_i64(2 * config.max_v)
        && grid::in_i64(2 * config.max_v * config.scale) && grid::in_i64(
        2 * config.max_v * config.scale + 1,
    )
    &&& first_unmet(m, q, q.len()) is None ==> blocks_fit(m, config)
}

proof fn lemma_first_unmet(m: Map<Seq<char>, ArrayView>, q: Seq<Request>, k: nat, n: nat)
    requires
        k <= n,
        forall|j: int| 0 <= j < k ==> met(m, #[trigger] q[j]),
    ensures
        k == n ==> first_unmet(m, q, n) is None,
        k < n && !met(m, q[k as int]) ==> first_unmet(m, q, n) == Some(
            unmet_error(m, q[k as int]),
        ),
    decreases n,
{
    if n > 0 {
        if k == n {
            lemma_first_unmet(m, q, (k - 1) as nat, (n - 1) as nat);
        } else {
            lemma_first_unmet(m, q, k, (n - 1) as nat);
        }
    }
}

proof fn lemma_unmet_prefix(m: Map<Seq<char>, ArrayView>, a: Seq<Request>, b: Seq<Request>, n: nat)
    requires
        n <= b.len(),
    ensures
        first_unmet(m, a + b, a.len()) == first_unmet(m, a, a.len()),
        first_unmet(m, a + b, a.len() + n) == (match first_unmet(m, a, a.len()) {
            Some(e) => Some(e),
            None => first_unmet(m, b, n),
        }),
    decreases n,
{
    if n == 0 {
        lemma_same_unmet(m, a + b, a, a.len());
    } else {
        lemma_unmet_prefix(m, a, b, (n - 1) as nat);
        assert((a + b)[a.len() + n - 1] == b[n - 1]);
    }
}

proof fn lemma_same_unmet(m: Map<Seq<char>, ArrayView>, a: Seq<Request>, b: Seq<Request>, n: nat)
    requires
        forall|j: int| 0 <= j < n ==> #[trigger] a[j] == b[j],
    ensures
        first_unmet(m, a, n) == first_unmet(m, b, n),
    decreases n,
{
    if n > 0 {
        lemma_same_unmet(m, a, b, (n - 1) as nat);
    }
}

/// The name of an array of block `i`.
fn array_name(i: usize, part: &str) -> (r: String)
    ensures
        r@ == block_name(i as nat, part@),
{
    let r = canonical::numbered("blk", i).concat("_").concat(part);
    assert(r@ =~= block_name(i as nat, part@));
    r
}

/// Builds the weights of block `i`.
fn load_block(table: &ArrayTable, config: &Config, i: usize) -> (r: Result<
    BlockWeights,
    ExportError,
>)
    requires
        table.wf(),
        block_fits(table.arrays(), *config, i as nat),
    ensures
        match r {
            Ok(b) => {
                &&& first_unmet(
                    table.arrays(),
                    block_requests(*config, i as nat),
                    block_requests(*config, i as nat).len(),
                ) is None
                &&& block_loaded(b, table.arrays(), *config, i as nat)
            },
            Err(e) => first_unmet(
                table.arrays(),
                block_requests(*config, i as nat),
                block_requests(*config, i as nat).len(),
            ) == Some(e.contents()),
        },
{
    let ghost m = table.arrays();
    let ghost q = block_requests(*config, i as nat);
    let d: usize = config.d_model;
    let h: usize = config.mlp_hidden;
    let ln_1_g = match table.vector(array_name(i, "ln_1_g").as_str(), d) {
        Ok(v) => v,
        Err(e) => {
            proof {
                assert(!met(m, q[0]));
                lemma_first_unmet(m, q, 0, q.len());
            }
            return Err(e);
        },
    };
    assert(met(m, q[0]));
    let ln_1_b = match table.vector(array_name(i, "ln_1_b").as_str(), d) {
        Ok(v) => v,
        Err(e) => {
            proof {
                assert(!met(m, q[1]));
                lemma_first_unmet(m, q, 1, q.len());
            }
            return Err(e);
        },
    };
    assert(met(m, q[1]));
    proof {
        lemma_first_unmet(m, q, 2, 2);
        assert(buildable(m, q[2]));
    }
    let attn_w = match table.matrix(array_name(i, "attn_w").as_str(), d, 3 * d) {
        Ok(v) => v,
        Err(e) => {
            proof {
                assert(!met(m, q[2]));
                lemma_first_unmet(m, q, 2, q.len());
            }
            return Err(e);
        },
    };
    assert(met(m, q[2]));
    let attn_b = match table.vector(array_name(i, "attn_b").as_str(), 3 * d) {
        Ok(v) => v,
        Err(e) => {
            proof {
                assert(!met(m, q[3]));
                lemma_first_unmet(m, q, 3, q.len());
            }
            return Err(e);
        },
    };
    assert(met(m, q[3]));
    proof {
        lemma_first_unmet(m, q, 4, 4);
        assert(buildable(m, q[4]));
    }
    let attn_proj_w = match table.matrix(array_name(i, "attn_proj_w").as_str(), d, d) {
        Ok(v) => v,
        Err(e) => {
            proof {
                assert(!met(m, q[4]));
                lemma_first_unmet(m, q, 4, q.len());
            }
            return Err(e);
        },
    };
    assert(met(m, q[4]));
    let attn_proj_b = match table.vector(array_name(i, "attn_proj_b").as_str(), d) {
        Ok(v) => v,
        Err(e) => {
            proof {
                assert(!met(m, q[5]));
                lemma_first_unmet(m, q, 5, q.len());
            }
            return Err(e);
        },
    };
    assert(met(m, q[5]));
    let ln_2_g = match table.vector(array_name(i, "ln_2_g").as_str(), d) {
        Ok(v) => v,
        Err(e) => {
            proof {
                assert(!met(m, q[6]));
                lemma_first_unmet(m, q, 6, q.len());
            }
            return Err(e);
        },
    };
    assert(met(m, q[6]));
    let ln_2_b = match table.vector(array_name(i, "ln_2_b").as_str(), d) {
        Ok(v) => v,
        Err(e) => {
            proof {
                assert(!met(m, q[7]));
                lemma_first_unmet(m, q, 7, q.len());
            }
            return Err(e);
        },
    };
    assert(met(m, q[7]));
    proof {
        lemma_first_unmet(m, q, 8, 8);
        assert(buildable(m, q[8]));
    }
    let fc_w = match table.matrix(array_name(i, "fc_w").as_str(), d, h) {
        Ok(v) => v,
        Err(e) => {
            proof {
                assert(!met(m, q[8]));
                lemma_first_unmet(m, q, 8, q.len());
            }
            return Err(e);
        },
    };
    assert(met(m, q[8]));
    let fc_b = match table.vector(array_name(i, "fc_b").as_str(), h) {
        Ok(v) => v,
        Err(e) => {
            proof {
                assert(!met(m, q[9]));
                lemma_first_unmet(m, q, 9, q.len());
            }
            return Err(e);
        },
    };
    assert(met(m, q[9]));
    proof {
        lemma_first_unmet(m, q, 10, 10);
        assert(buildable(m, q[10]));
    }
    let fproj_w = match table.matrix(array_name(i, "fproj_w").as_str(), h, d) {
        Ok(v) => v,
        Err(e) => {
            proof {
                assert(!met(m, q[10]));
                lemma_first_unmet(m, q, 10, q.len());
            }
            return Err(e);
        },
    };
    assert(met(m, q[10]));
    let fproj_b = match table.vector(array_name(i, "fproj_b").as_str(), d) {
        Ok(v) => v,
        Err(e) => {
            proof {
                assert(!met(m, q[11]));
                lemma_first_unmet(m, q, 11, q.len());
            }
            return Err(e);
        },
    };
    assert(met(m, q[11]));
    proof {
        lemma_first_unmet(m, q, q.len(), q.len());
    }
    Ok(
        BlockWeights {
            ln_1_g,
            ln_1_b,
            attn_w,
            attn_b,
            attn_proj_w,
            attn_proj_b,
            ln_2_g,
            ln_2_b,
            fc_w,
            fc_b,
            fproj_w,
            fproj_b,
        },
    )
}

/// Builds the weights of all blocks.
fn load_blocks(table: &ArrayTable, config: &Config) -> (r: Result<Vec<BlockWeights>, ExportError>)
    requires
        table.wf(),
        blocks_fit(table.arrays(), *config),
    ensures
        ({
            let q = blocks_requests(*config, config.n_layer as nat);
            match r {
                Ok(b) => {
                    &&& first_unmet(table.arrays(), q, q.len()) is None
                    &&& b@.len() == config.n_layer
                    &&& forall|i: int|
                        0 <= i < config.n_layer ==> block_loaded(
                            #[trigger] b@[i],
                            table.arrays(),
                            *config,
                            i as nat,
                        )
                },
                Err(e) => first_unmet(table.arrays(), q, q.len()) == Some(e.contents()),
            }
        }),
{
    let ghost m = table.arrays();
    let mut out: Vec<BlockWeights> = Vec::new();
    let mut i: usize = 0;
    while i < config.n_layer
        invariant
            i <= config.n_layer,
            out@.len() == i,
            table.wf(),
            blocks_fit(m, *config),
            m == table.arrays(),
            first_unmet(
                m,
                blocks_requests(*config, i as nat),
                blocks_requests(*config, i as nat).len(),
            ) is None,
            forall|k: int|
                0 <= k < i ==> block_loaded(#[trigger] out@[k], m, *config, k as nat),
        decreases config.n_layer - i,
    {
        proof {
            lemma_unmet_prefix(
                m,
                blocks_requests(*config, i as nat),
                block_requests(*config, i as nat),
                block_requests(*config, i as nat).len(),
            );
        }
        match load_block(table, config, i) {
            Ok(b) => {
                out.push(b);
            },
            Err(e) => {
                proof {
                    lemma_unmet_stays(m, *config, (i + 1) as nat, config.n_layer as nat);
                }
                return Err(e);
            },
        }
        i += 1;
    }
    Ok(out)
}

proof fn lemma_unmet_stays(m: Map<Seq<char>, ArrayView>, config: Config, a: nat, b: nat)
    requires
        a <= b,
        first_unmet(m, blocks_requests(config, a), blocks_requests(config, a).len()) is Some,
    ensures
        first_unmet(m, blocks_requests(config, b), blocks_requests(config, b).len())
            == first_unmet(m, blocks_requests(config, a), blocks_requests(config, a).len()),
    decreases b - a,
{
    if a < b {
        lemma_unmet_stays(m, config, a, (b - 1) as nat);
        lemma_unmet_prefix(
            m,
            blocks_requests(config, (b - 1) as nat),
            block_requests(config, (b - 1) as nat),
            block_requests(config, (b - 1) as nat).len(),
        );
    }
}

impl ModelWeights {
    /// Builds the weights from the arrays of an export. On failure, the error is that of
    /// the first array that is missing or has another shape than the configuration's.
    pub fn from_arrays(table: &ArrayTable, config: &Config) -> (r: Result<Self, ExportError>)
        requires
            table.wf(),
            export_fits(table.arrays(), *config),
        ensures
            ({
                let q = all_requests(*config, table.arrays().contains_key("wpe"@));
                match r {
                    Ok(w) => {
                        &&& first_unmet(table.arrays(), q, q.len()) is None
                        &&& weights_loaded(w, table.arrays(), *config)
                    },
                    Err(e) => first_unmet(table.arrays(), q, q.len()) == Some(e.contents()),
                }
            }),
    {
        let ghost m = table.arrays();
        let ghost positions = m.contains_key("wpe"@);
        let ghost outer = outer_requests(*config, positions);
        let ghost inner = blocks_requests(*config, config.n_layer as nat);
        let ghost q = all_requests(*config, positions);
        let ghost k: nat = if positions {
            2
        } else {
            1
        };
        proof {
            lemma_unmet_prefix(m, outer, inner, inner.len());
            lemma_first_unmet(m, outer, 0, 0);
            assert(buildable(m, outer[0]));
            assert(2 * config.max_v * config.scale == 2 * (config.max_v * config.scale))
                by (nonlinear_arith);
        }
        let d: usize = config.d_model;
        let wte = match table.matrix("wte", config.vocab, d) {
            Ok(v) => v,
            Err(e) => {
                proof {
                    assert(!met(m, outer[0]));
                    lemma_first_unmet(m, outer, 0, outer.len());
                }
                return Err(e);
            },
        };
        assert(met(m, outer[0]));
        let has_wpe = table.find("wpe").is_some();
        proof {
            lemma_first_unmet(m, outer, 1, 1);
            if positions {
                assert(buildable(m, outer[1]));
            }
        }
        let wpe = if has_wpe {
            match table.matrix("wpe", 1024, d) {
                Ok(v) => v,
                Err(e) => {
                    proof {
                        assert(!met(m, outer[1]));
                        lemma_first_unmet(m, outer, 1, outer.len());
                    }
                    return Err(e);
                },
            }
        } else {
            Matrix::zeros(1024, d)
        };
        assert(positions ==> met(m, outer[1]));
        assert(forall|j: int| 0 <= j < k ==> met(m, #[trigger] outer[j]));
        let ln_f_g = match table.vector("ln_f_g", d) {
            Ok(v) => v,
            Err(e) => {
                proof {
                    assert(!met(m, outer[(k + 0) as int]));
                    lemma_first_unmet(m, outer, k + 0, outer.len());
                }
                return Err(e);
            },
        };
        assert(met(m, outer[(k + 0) as int]));
        let ln_f_b = match table.vector("ln_f_b", d) {
            Ok(v) => v,
            Err(e) => {
                proof {
                    assert(!met(m, outer[(k + 1) as int]));
                    lemma_first_unmet(m, outer, k + 1, outer.len());
                }
                return Err(e);
            },
        };
        assert(met(m, outer[(k + 1) as int]));
        proof {
            lemma_first_unmet(m, outer, k + 2, k + 2);
        }
        let offset: i64 = config.max_v * config.scale;
        let exp: usize = #[verifier::truncate]
        ((offset + 1) as usize);
        let exp_lut = match table.vector("exp_lut", exp) {
            Ok(v) => v,
            Err(e) => {
                proof {
                    assert(!met(m, outer[(k + 2) as int]));
                    lemma_first_unmet(m, outer, k + 2, outer.len());
                }
                return Err(e);
            },
        };
        assert(met(m, outer[(k + 2) as int]));
        proof {
            lemma_first_unmet(m, outer, k + 3, k + 3);
        }
        let gelu: usize = #[verifier::truncate]
        ((2 * offset + 1) as usize);
        let gelu_lut = match table.vector("gelu_lut", gelu) {
            Ok(v) => v,
            Err(e) => {
                proof {
                    assert(!met(m, outer[(k + 3) as int]));
                    lemma_first_unmet(m, outer, k + 3, outer.len());
                }
                return Err(e);
            },
        };
        assert(met(m, outer[(k + 3) as int]));
        proof {
            lemma_first_unmet(m, outer, outer.len(), outer.len());
        }
        let blocks = match load_blocks(table, config) {
            Ok(b) => b,
            Err(e) => {
                return Err(e);
            },
        };
        Ok(
            ModelWeights {
                wte,
                wpe,
                has_wpe,
                ln_f_g,
                ln_f_b,
                blocks,
                exp_lut,
                gelu_lut,
            },
        )
    }
}

/// Puts the public data of an export together.
pub fn exported_public_data(
    input_ids: Vec<i64>,
    x0: Vec<i64>,
    logits_int: Vec<i64>,
    final_x: Vec<i64>,
    config: &Config,
) -> (r: ExportedPublicData)
    requires
        x0@.len() == config.n_seq * config.d_model,
        logits_int@.len() == config.n_seq * config.vocab,
        final_x@.len() == config.n_seq * config.d_model,
    ensures
        r.input_ids@ == input_ids@,
        r.x0.wf() && r.x0.height() == config.n_seq && r.x0.width() == config.d_model,
        r.x0.values() == x0@,
        r.logits_int.wf() && r.logits_int.height() == config.n_seq,
        r.logits_int.width() == config.vocab && r.logits_int.values() == logits_int@,
        r.final_x.wf() && r.final_x.height() == config.n_seq,
        r.final_x.width() == config.d_model && r.final_x.values() == final_x@,
{
    ExportedPublicData {
        input_ids,
        x0: Matrix::new(config.n_seq, config.d_model, x0),
        logits_int: Matrix::new(config.n_seq, config.vocab, logits_int),
        final_x: Matrix::new(config.n_seq, config.d_model, final_x),
    }
}

} // verus!
