//! What parsing a header promises: what was written into it is read from it.

use crate::bytes;
use crate::gguf;
use crate::gguf::parse;
use crate::gguf::parse::{EntryView, ScalarView, TensorView, ValueView};
use vstd::arithmetic::div_mod::*;
use vstd::prelude::*;
use vstd::utf8::*;

verus! {

/// A value as a file may hold it.
pub enum Datum {
    U8(u8),
    I8(i8),
    U16(u16),
    I16(i16),
    U32(u32),
    I32(i32),
    F32(u32),
    Bool(bool),
    Text(Seq<char>),
    U64(u64),
    I64(i64),
    F64(u64),
}

/// The number that files have for the kind of a value.
pub open spec fn kind_of(d: Datum) -> u32 {
    match d {
        Datum::U8(_) => 0,
        Datum::I8(_) => 1,
        Datum::U16(_) => 2,
        Datum::I16(_) => 3,
        Datum::U32(_) => 4,
        Datum::I32(_) => 5,
        Datum::F32(_) => 6,
        Datum::Bool(_) => 7,
        Datum::Text(_) => 8,
        Datum::U64(_) => 10,
        Datum::I64(_) => 11,
        Datum::F64(_) => 12,
    }
}

/// A number below zero counts down from where its width starts over.
pub open spec fn folded(x: int, all: int) -> nat {
    if x < 0 {
        (x + all) as nat
    } else {
        x as nat
    }
}

/// A text: how many bytes it has, and then its UTF-8.
pub open spec fn text_bytes(s: Seq<char>) -> Seq<u8> {
    bytes::le(encode_utf8(s).len(), 8) + encode_utf8(s)
}

/// A value as bytes.
pub open spec fn datum_bytes(d: Datum) -> Seq<u8> {
    match d {
        Datum::U8(x) => bytes::le(x as nat, 1),
        Datum::I8(x) => bytes::le(folded(x as int, 0x100), 1),
        Datum::U16(x) => bytes::le(x as nat, 2),
        Datum::I16(x) => bytes::le(folded(x as int, 0x1_0000), 2),
        Datum::U32(x) => bytes::le(x as nat, 4),
        Datum::I32(x) => bytes::le(folded(x as int, 0x1_0000_0000), 4),
        Datum::F32(bits) => bytes::le(bits as nat, 4),
        Datum::Bool(x) => bytes::le(
            if x {
                1
            } else {
                0
            },
            1,
        ),
        Datum::Text(s) => text_bytes(s),
        Datum::U64(x) => bytes::le(x as nat, 8),
        Datum::I64(x) => bytes::le(folded(x as int, 0x1_0000_0000_0000_0000), 8),
        Datum::F64(bits) => bytes::le(bits as nat, 8),
    }
}

/// What is read of a signed number.
pub open spec fn signed(x: i64) -> ScalarView {
    if x < 0 {
        ScalarView::Negative(x)
    } else {
        ScalarView::Number(x as u64)
    }
}

/// What is read of a value: whole numbers by what they are, whatever their width.
pub open spec fn read_as(d: Datum) -> ScalarView {
    match d {
        Datum::U8(x) => ScalarView::Number(x as u64),
        Datum::I8(x) => signed(x as i64),
        Datum::U16(x) => ScalarView::Number(x as u64),
        Datum::I16(x) => signed(x as i64),
        Datum::U32(x) => ScalarView::Number(x as u64),
        Datum::I32(x) => signed(x as i64),
        Datum::F32(bits) => ScalarView::Real(bits),
        Datum::Bool(x) => ScalarView::Flag(x),
        Datum::Text(s) => ScalarView::Text(s),
        Datum::U64(x) => ScalarView::Number(x),
        Datum::I64(x) => signed(x),
        Datum::F64(bits) => ScalarView::Double(bits),
    }
}

/// A length can be written down.
pub open spec fn writable_text(s: Seq<char>) -> bool {
    encode_utf8(s).len() <= u64::MAX
}

pub open spec fn writable(d: Datum) -> bool {
    d matches Datum::Text(s) ==> writable_text(s)
}

/// What stands in `b` from `at` on begins with `piece`.
pub open spec fn stands(b: Seq<u8>, at: int, piece: Seq<u8>) -> bool {
    &&& 0 <= at
    &&& at + piece.len() <= b.len()
    &&& b.subrange(at, at + piece.len()) == piece
}

proof fn parts_stand(b: Seq<u8>, at: int, x: Seq<u8>, y: Seq<u8>)
    requires
        stands(b, at, x + y),
    ensures
        stands(b, at, x),
        stands(b, at + x.len(), y),
{
    let all = b.subrange(at, at + (x + y).len());
    assert(b.subrange(at, at + x.len()) =~= x) by {
        assert forall|i: int| 0 <= i < x.len() implies b[at + i] == x[i] by {
            assert(all[i] == (x + y)[i]);
        }
    }
    assert(b.subrange(at + x.len(), at + x.len() + y.len()) =~= y) by {
        assert forall|i: int| 0 <= i < y.len() implies b[at + x.len() + i] == y[i] by {
            assert(all[x.len() + i] == (x + y)[x.len() + i]);
        }
    }
}

proof fn numbers_read_back(b: Seq<u8>, at: int, n: nat, w: nat)
    requires
        w == 1 || w == 2 || w == 4 || w == 8,
        n < parse::span(w as int),
        stands(b, at, bytes::le(n, w)),
    ensures
        bytes::le(n, w).len() == w,
        parse::number(b, at, w as int) == Some(n),
{
    bytes::le_len(n, w);
    if w == 4 {
        bytes::le4_reads_back(n as u32);
    } else if w == 8 {
        bytes::le8_reads_back(n as u64);
    } else {
        reveal_with_fuel(bytes::le, 3);
        reveal_with_fuel(bytes::value, 3);
        let l = bytes::le(n, w);
        assert(l[0] == n % 256);
        if w == 1 {
            assert(l.skip(1) =~= Seq::<u8>::empty());
        } else {
            assert(l[1] == n / 256 % 256);
            assert(l.skip(1)[0] == l[1]);
            assert(l.skip(1).skip(1) =~= Seq::<u8>::empty());
            assert(bytes::value(l) == l[0] + 256 * l[1]);
        }
    }
}

proof fn texts_read_back(b: Seq<u8>, at: int, s: Seq<char>)
    requires
        writable_text(s),
        stands(b, at, text_bytes(s)),
    ensures
        parse::text(b, at) == Some((s, at + text_bytes(s).len())),
{
    let utf8 = encode_utf8(s);
    parts_stand(b, at, bytes::le(utf8.len(), 8), utf8);
    numbers_read_back(b, at, utf8.len(), 8);
    encode_utf8_valid_utf8(s);
    encode_utf8_decode_utf8(s);
}

/// A value reads back as what it is.
pub proof fn values_read_back(b: Seq<u8>, at: int, d: Datum)
    requires
        writable(d),
        stands(b, at, datum_bytes(d)),
    ensures
        parse::scalar(b, kind_of(d), at) == Some((read_as(d), at + datum_bytes(d).len())),
{
    match d {
        Datum::U8(x) => numbers_read_back(b, at, x as nat, 1),
        Datum::I8(x) => numbers_read_back(b, at, folded(x as int, 0x100), 1),
        Datum::U16(x) => numbers_read_back(b, at, x as nat, 2),
        Datum::I16(x) => numbers_read_back(b, at, folded(x as int, 0x1_0000), 2),
        Datum::U32(x) => numbers_read_back(b, at, x as nat, 4),
        Datum::I32(x) => numbers_read_back(b, at, folded(x as int, 0x1_0000_0000), 4),
        Datum::F32(bits) => numbers_read_back(b, at, bits as nat, 4),
        Datum::Bool(x) => numbers_read_back(
            b,
            at,
            if x {
                1
            } else {
                0
            },
            1,
        ),
        Datum::Text(s) => texts_read_back(b, at, s),
        Datum::U64(x) => numbers_read_back(b, at, x as nat, 8),
        Datum::I64(x) => numbers_read_back(b, at, folded(x as int, 0x1_0000_0000_0000_0000), 8),
        Datum::F64(bits) => numbers_read_back(b, at, bits as nat, 8),
    }
}

/// What an entry holds: one value, or a list of values of one kind.
pub enum Field {
    One(Datum),
    List(u32, Seq<Datum>),
}

pub open spec fn list_bytes(l: Seq<Datum>) -> Seq<u8>
    decreases l.len(),
{
    if l.len() == 0 {
        Seq::empty()
    } else {
        list_bytes(l.drop_last()) + datum_bytes(l.last())
    }
}

/// A value after its kind; a list after the kind of lists, that of its values, and how many
/// there are.
pub open spec fn field_bytes(f: Field) -> Seq<u8> {
    match f {
        Field::One(d) => bytes::le(kind_of(d) as nat, 4) + datum_bytes(d),
        Field::List(kind, l) => bytes::le(9, 4) + (bytes::le(kind as nat, 4) + (bytes::le(
            l.len(),
            8,
        ) + list_bytes(l))),
    }
}

pub open spec fn writable_field(f: Field) -> bool {
    match f {
        Field::One(d) => writable(d),
        Field::List(kind, l) => l.len() <= u64::MAX && forall|i: int|
            0 <= i < l.len() ==> writable(#[trigger] l[i]) && kind_of(l[i]) == kind,
    }
}

pub open spec fn field_read_as(f: Field) -> ValueView {
    match f {
        Field::One(d) => ValueView::One(read_as(d)),
        Field::List(_, l) => ValueView::Many(l.map_values(|d: Datum| read_as(d))),
    }
}

proof fn lists_read_back(b: Seq<u8>, at: int, kind: u32, l: Seq<Datum>)
    requires
        forall|i: int| 0 <= i < l.len() ==> writable(#[trigger] l[i]) && kind_of(l[i]) == kind,
        stands(b, at, list_bytes(l)),
    ensures
        parse::scalars(b, kind, at, l.len()) == Some(
            (l.map_values(|d: Datum| read_as(d)), at + list_bytes(l).len()),
        ),
    decreases l.len(),
{
    if l.len() == 0 {
        assert(l.map_values(|d: Datum| read_as(d)) =~= Seq::<ScalarView>::empty());
    } else {
        let init = l.drop_last();
        parts_stand(b, at, list_bytes(init), datum_bytes(l.last()));
        assert forall|i: int| 0 <= i < init.len() implies writable(#[trigger] init[i]) && kind_of(
            init[i],
        ) == kind by {
            assert(init[i] == l[i]);
        }
        lists_read_back(b, at, kind, init);
        assert(l[l.len() - 1] == l.last());
        values_read_back(b, at + list_bytes(init).len(), l.last());
        assert(init.map_values(|d: Datum| read_as(d)).push(read_as(l.last())) =~= l.map_values(
            |d: Datum| read_as(d),
        ));
    }
}

/// What an entry holds reads back, a list in its order.
pub proof fn fields_read_back(b: Seq<u8>, at: int, f: Field)
    requires
        writable_field(f),
        stands(b, at, field_bytes(f)),
    ensures
        parse::value(b, at) == Some((field_read_as(f), at + field_bytes(f).len())),
{
    match f {
        Field::One(d) => {
            parts_stand(b, at, bytes::le(kind_of(d) as nat, 4), datum_bytes(d));
            numbers_read_back(b, at, kind_of(d) as nat, 4);
            values_read_back(b, at + 4, d);
        },
        Field::List(kind, l) => {
            let rest = bytes::le(l.len(), 8) + list_bytes(l);
            parts_stand(b, at, bytes::le(9, 4), bytes::le(kind as nat, 4) + rest);
            numbers_read_back(b, at, 9, 4);
            parts_stand(b, at + 4, bytes::le(kind as nat, 4), rest);
            numbers_read_back(b, at + 4, kind as nat, 4);
            parts_stand(b, at + 8, bytes::le(l.len(), 8), list_bytes(l));
            numbers_read_back(b, at + 8, l.len(), 8);
            lists_read_back(b, at + 16, kind, l);
        },
    }
}

/// The entries of a header: a key and what it holds, one after the other.
pub open spec fn entries_bytes(es: Seq<(Seq<char>, Field)>) -> Seq<u8>
    decreases es.len(),
{
    if es.len() == 0 {
        Seq::empty()
    } else {
        entries_bytes(es.drop_last()) + (text_bytes(es.last().0) + field_bytes(es.last().1))
    }
}

pub open spec fn writable_entries(es: Seq<(Seq<char>, Field)>) -> bool {
    &&& es.len() <= u64::MAX
    &&& forall|i: int|
        0 <= i < es.len() ==> writable_text((#[trigger] es[i]).0) && writable_field(es[i].1)
}

pub open spec fn entries_read_as(es: Seq<(Seq<char>, Field)>) -> Seq<EntryView> {
    es.map_values(|e: (Seq<char>, Field)| EntryView { key: e.0, value: field_read_as(e.1) })
}

proof fn entries_read_back(b: Seq<u8>, at: int, es: Seq<(Seq<char>, Field)>)
    requires
        writable_entries(es),
        stands(b, at, entries_bytes(es)),
    ensures
        parse::entries(b, at, es.len()) == Some(
            (entries_read_as(es), at + entries_bytes(es).len()),
        ),
    decreases es.len(),
{
    if es.len() == 0 {
        assert(entries_read_as(es) =~= Seq::<EntryView>::empty());
    } else {
        let init = es.drop_last();
        let (key, field) = es.last();
        parts_stand(b, at, entries_bytes(init), text_bytes(key) + field_bytes(field));
        let p = at + entries_bytes(init).len();
        parts_stand(b, p, text_bytes(key), field_bytes(field));
        assert forall|i: int| 0 <= i < init.len() implies writable_text((#[trigger] init[i]).0)
            && writable_field(init[i].1) by {
            assert(init[i] == es[i]);
        }
        entries_read_back(b, at, init);
        assert(es[es.len() - 1] == es.last());
        texts_read_back(b, p, key);
        fields_read_back(b, p + text_bytes(key).len(), field);
        assert(entries_read_as(init).push(
            EntryView { key, value: field_read_as(field) },
        ) =~= entries_read_as(es));
    }
}

pub open spec fn dims_bytes(dims: Seq<u64>) -> Seq<u8>
    decreases dims.len(),
{
    if dims.len() == 0 {
        Seq::empty()
    } else {
        dims_bytes(dims.drop_last()) + bytes::le(dims.last() as nat, 8)
    }
}

/// A tensor of the directory: its name, how many dimensions it has, these, its type, and where
/// it starts.
pub open spec fn tensor_bytes(t: TensorView) -> Seq<u8> {
    text_bytes(t.name) + (bytes::le(t.dims.len(), 4) + (dims_bytes(t.dims) + (bytes::le(
        t.ggml_type as nat,
        4,
    ) + bytes::le(t.offset as nat, 8))))
}

proof fn dims_read_back(b: Seq<u8>, at: int, dims: Seq<u64>)
    requires
        stands(b, at, dims_bytes(dims)),
    ensures
        dims_bytes(dims).len() == 8 * dims.len(),
        parse::shape(b, at, dims.len()) == dims,
    decreases dims.len(),
{
    if dims.len() > 0 {
        let init = dims.drop_last();
        parts_stand(b, at, dims_bytes(init), bytes::le(dims.last() as nat, 8));
        dims_read_back(b, at, init);
        numbers_read_back(b, at + dims_bytes(init).len(), dims.last() as nat, 8);
        assert forall|i: int| 0 <= i < dims.len() implies parse::shape(b, at, dims.len())[i]
            == dims[i] by {
            if i < init.len() {
                assert(parse::shape(b, at, init.len())[i] == init[i]);
            }
        }
    }
    assert(parse::shape(b, at, dims.len()) =~= dims);
}

/// A tensor of the directory reads back.
pub proof fn tensors_of_the_directory_read_back(b: Seq<u8>, at: int, t: TensorView)
    requires
        writable_text(t.name),
        t.dims.len() <= u32::MAX,
        stands(b, at, tensor_bytes(t)),
    ensures
        parse::tensor(b, at) == Some((t, at + tensor_bytes(t).len())),
{
    let (kind, offset) = (bytes::le(t.ggml_type as nat, 4), bytes::le(t.offset as nat, 8));
    let dims = dims_bytes(t.dims) + (kind + offset);
    let rest = bytes::le(t.dims.len(), 4) + dims;
    parts_stand(b, at, text_bytes(t.name), rest);
    texts_read_back(b, at, t.name);
    let p = at + text_bytes(t.name).len();
    parts_stand(b, p, bytes::le(t.dims.len(), 4), dims);
    numbers_read_back(b, p, t.dims.len(), 4);
    parts_stand(b, p + 4, dims_bytes(t.dims), kind + offset);
    dims_read_back(b, p + 4, t.dims);
    let q = p + 4 + 8 * t.dims.len();
    parts_stand(b, q, kind, offset);
    numbers_read_back(b, q, t.ggml_type as nat, 4);
    numbers_read_back(b, q + 4, t.offset as nat, 8);
}

pub open spec fn tensors_bytes(ts: Seq<TensorView>) -> Seq<u8>
    decreases ts.len(),
{
    if ts.len() == 0 {
        Seq::empty()
    } else {
        tensors_bytes(ts.drop_last()) + tensor_bytes(ts.last())
    }
}

pub open spec fn writable_tensors(ts: Seq<TensorView>) -> bool {
    &&& ts.len() <= u64::MAX
    &&& forall|i: int|
        0 <= i < ts.len() ==> writable_text((#[trigger] ts[i]).name) && ts[i].dims.len() <= u32::MAX
}

proof fn directories_read_back(b: Seq<u8>, at: int, ts: Seq<TensorView>)
    requires
        writable_tensors(ts),
        stands(b, at, tensors_bytes(ts)),
    ensures
        parse::tensors(b, at, ts.len()) == Some((ts, at + tensors_bytes(ts).len())),
    decreases ts.len(),
{
    if ts.len() > 0 {
        let init = ts.drop_last();
        parts_stand(b, at, tensors_bytes(init), tensor_bytes(ts.last()));
        assert forall|i: int| 0 <= i < init.len() implies writable_text((#[trigger] init[i]).name)
            && init[i].dims.len() <= u32::MAX by {
            assert(init[i] == ts[i]);
        }
        directories_read_back(b, at, init);
        assert(ts[ts.len() - 1] == ts.last());
        tensors_of_the_directory_read_back(b, at + tensors_bytes(init).len(), ts.last());
        assert(init.push(ts.last()) =~= ts);
    } else {
        assert(ts =~= Seq::<TensorView>::empty());
    }
}

/// The fixed part of a header: the four letters that every file starts with, the version, and
/// how many tensors and entries there are.
pub open spec fn fixed_bytes(version: u32, tensors: nat, entries: nat) -> Seq<u8> {
    seq![0x47u8, 0x47u8, 0x55u8, 0x46u8] + (bytes::le(version as nat, 4) + (bytes::le(tensors, 8)
        + bytes::le(entries, 8)))
}

/// A header: the fixed part, the entries, and the directory of tensors.
pub open spec fn header_bytes(
    version: u32,
    es: Seq<(Seq<char>, Field)>,
    ts: Seq<TensorView>,
) -> Seq<u8> {
    fixed_bytes(version, ts.len(), es.len()) + (entries_bytes(es) + tensors_bytes(ts))
}

/// What was written into a header is read from it, entry by entry and tensor by tensor, and
/// whatever follows it does not matter. The data starts at the first multiple of the alignment
/// that is not before the end of the header.
pub proof fn headers_read_back(
    b: Seq<u8>,
    version: u32,
    es: Seq<(Seq<char>, Field)>,
    ts: Seq<TensorView>,
)
    requires
        writable_entries(es),
        writable_tensors(ts),
        stands(b, 0, header_bytes(version, es, ts)),
        header_bytes(version, es, ts).len() + parse::alignment(entries_read_as(es)) <= usize::MAX,
    ensures
        parse::header(b) matches Some(h) && {
            let a = parse::alignment(entries_read_as(es)) as int;
            let end = header_bytes(version, es, ts).len() as int;
            &&& h.version == version
            &&& h.entries == entries_read_as(es)
            &&& h.tensors == ts
            &&& a > 0
            &&& h.data_offset as int % a == 0
            &&& end <= h.data_offset < end + a
        },
{
    let magic = seq![0x47u8, 0x47u8, 0x55u8, 0x46u8];
    let counts = bytes::le(ts.len(), 8) + bytes::le(es.len(), 8);
    let rest = bytes::le(version as nat, 4) + counts;
    let fixed = fixed_bytes(version, ts.len(), es.len());
    let tail = entries_bytes(es) + tensors_bytes(ts);
    parts_stand(b, 0, fixed, tail);
    parts_stand(b, 0, magic, rest);
    assert(b.subrange(0, 4)[0] == 0x47 && b.subrange(0, 4)[1] == 0x47 && b.subrange(0, 4)[2] == 0x55
        && b.subrange(0, 4)[3] == 0x46);
    parts_stand(b, 4, bytes::le(version as nat, 4), counts);
    numbers_read_back(b, 4, version as nat, 4);
    parts_stand(b, 8, bytes::le(ts.len(), 8), bytes::le(es.len(), 8));
    numbers_read_back(b, 8, ts.len(), 8);
    numbers_read_back(b, 16, es.len(), 8);
    assert(fixed.len() == 24);
    parts_stand(b, 24, entries_bytes(es), tensors_bytes(ts));
    entries_read_back(b, 24, es);
    let q = 24 + entries_bytes(es).len();
    directories_read_back(b, q as int, ts);
    let end = q + tensors_bytes(ts).len();
    starts_at_the_next_multiple(end, parse::alignment(entries_read_as(es)));
}

/// Rounding up gives the first multiple that is no smaller.
pub proof fn starts_at_the_next_multiple(n: nat, m: nat)
    requires
        m > 0,
    ensures
        n <= parse::round_up(n, m) < n + m,
        parse::round_up(n, m) % m == 0,
{
    let (x, d) = (n + m - 1, m as int);
    lemma_fundamental_div_mod(x, d);
    let (q, r) = (x / d, x % d);
    assert(q * d == d * q && q * d <= n + d - 1 && n <= q * d && q * d >= 0) by (nonlinear_arith)
        requires
            x == d * q + r,
            0 <= r < d,
            x == n + d - 1,
            n >= 0,
    ;
    lemma_mod_multiples_basic(q, d);
}

/// The data is aligned to what the metadata says, where that is a number above zero, and to 32
/// bytes otherwise.
pub proof fn alignments_are_read(l: Seq<EntryView>, i: int)
    ensures
        (forall|j: int| 0 <= j < l.len() ==> (#[trigger] l[j]).key != "general.alignment"@)
            ==> parse::alignment(l) == 32,
        0 <= i < l.len() && l[i].key == "general.alignment"@ && (forall|j: int|
            0 <= j < i ==> (#[trigger] l[j]).key != "general.alignment"@) ==> parse::alignment(l)
            == match l[i].value {
            ValueView::One(ScalarView::Number(n)) => if n > 0 {
                n as nat
            } else {
                32
            },
            _ => 32,
        },
        parse::alignment(l) > 0,
{
    let key = "general.alignment"@;
    if forall|j: int| 0 <= j < l.len() ==> (#[trigger] l[j]).key != key {
        entry_of_none(l, key, 0);
    }
    if 0 <= i < l.len() && l[i].key == key && (forall|j: int|
        0 <= j < i ==> (#[trigger] l[j]).key != key) {
        entry_of_first(l, key, 0, i);
    }
}

proof fn entry_of_none(l: Seq<EntryView>, key: Seq<char>, from: int)
    requires
        forall|j: int| 0 <= j < l.len() ==> (#[trigger] l[j]).key != key,
    ensures
        parse::entry_of(l, key, from) is None,
    decreases l.len() - from,
{
    if 0 <= from < l.len() {
        entry_of_none(l, key, from + 1);
    }
}

proof fn entry_of_first(l: Seq<EntryView>, key: Seq<char>, from: int, i: int)
    requires
        0 <= from <= i < l.len(),
        l[i].key == key,
        forall|j: int| 0 <= j < i ==> (#[trigger] l[j]).key != key,
    ensures
        parse::entry_of(l, key, from) == Some(l[i].value),
    decreases i - from,
{
    if from < i {
        entry_of_first(l, key, from + 1, i);
    }
}

/// What does not start with the four letters, or is too short for the fixed part, is no header.
pub proof fn files_start_with_their_letters(b: Seq<u8>)
    ensures
        parse::header(b) is Some ==> b.len() >= 24 && b.take(4) == seq![
            0x47u8,
            0x47u8,
            0x55u8,
            0x46u8,
        ],
{
    if parse::header(b) is Some {
        assert(b.take(4) =~= seq![0x47u8, 0x47u8, 0x55u8, 0x46u8]);
    }
}

/// The letters are `GGUF`, and nothing else passes for them.
pub proof fn the_letters_are_these(b: Seq<u8>)
    requires
        b.len() >= 4,
    ensures
        gguf::has_magic(b) <==> b.take(4) == encode_utf8("GGUF"@),
{
    reveal_strlit("GGUF");
    let s = "GGUF"@;
    assert(s.len() == 4 && s[0] == 'G' && s[1] == 'G' && s[2] == 'U' && s[3] == 'F');
    is_ascii_chars_encode_utf8(s);
    let e = encode_utf8(s);
    assert(e.len() == 4 && e[0] == 0x47 && e[1] == 0x47 && e[2] == 0x55 && e[3] == 0x46);
    if gguf::has_magic(b) {
        assert(b.take(4) =~= e);
    } else {
        assert(b.take(4)[0] == b[0] && b.take(4)[1] == b[1] && b.take(4)[2] == b[2] && b.take(4)[3]
            == b[3]);
    }
}

} // verus!
