//! Reading a checkpoint's header: metadata entries and the tensor directory, from the
//! bytes of the file.
//!
//! Every length is checked against what is left of the file before anything is read or
//! allocated for it, so a header that promises more than the file holds is refused.

use crate::bytes;
use crate::gguf;
use crate::gguf::{lossy_text, Entry, Gguf, Scalar, TensorInfo, Value};
use crate::quant;
use crate::types::{Fault, GarudaError};
use vstd::prelude::*;
use vstd::slice::slice_subrange;
use vstd::string::*;

verus! {

/// The kind of a value that is a text.
pub const TEXT_KIND: u32 = 8;

/// The kind of a value that is a list.
pub const LIST_KIND: u32 = 9;

/// What the start of the data is a multiple of, where the metadata does not say.
pub const DEFAULT_ALIGNMENT: u64 = 32;

pub enum ScalarView {
    Number(u64),
    Negative(i64),
    Real(u32),
    Double(u64),
    Flag(bool),
    Text(Seq<char>),
}

pub enum ValueView {
    One(ScalarView),
    Many(Seq<ScalarView>),
}

pub struct EntryView {
    pub key: Seq<char>,
    pub value: ValueView,
}

pub struct TensorView {
    pub name: Seq<char>,
    pub dims: Seq<u64>,
    pub ggml_type: u32,
    pub offset: u64,
}

pub struct HeaderView {
    pub version: u32,
    pub entries: Seq<EntryView>,
    pub tensors: Seq<TensorView>,
    pub data_offset: nat,
}

impl View for Scalar {
    type V = ScalarView;

    open spec fn view(&self) -> ScalarView {
        match *self {
            Scalar::Number(n) => ScalarView::Number(n),
            Scalar::Negative(n) => ScalarView::Negative(n),
            Scalar::Real(bits) => ScalarView::Real(bits),
            Scalar::Double(bits) => ScalarView::Double(bits),
            Scalar::Flag(b) => ScalarView::Flag(b),
            Scalar::Text(s) => ScalarView::Text(s@),
        }
    }
}

pub open spec fn scalars_view(l: Seq<Scalar>) -> Seq<ScalarView> {
    l.map_values(|s: Scalar| s@)
}

impl View for Value {
    type V = ValueView;

    open spec fn view(&self) -> ValueView {
        match *self {
            Value::One(s) => ValueView::One(s@),
            Value::Many(l) => ValueView::Many(scalars_view(l@)),
        }
    }
}

impl View for Entry {
    type V = EntryView;

    open spec fn view(&self) -> EntryView {
        EntryView { key: self.key@, value: self.value@ }
    }
}

impl View for TensorInfo {
    type V = TensorView;

    open spec fn view(&self) -> TensorView {
        TensorView {
            name: self.name@,
            dims: self.dims@,
            ggml_type: self.ggml_type,
            offset: self.offset,
        }
    }
}

pub open spec fn entries_view(l: Seq<Entry>) -> Seq<EntryView> {
    l.map_values(|e: Entry| e@)
}

pub open spec fn tensors_view(l: Seq<TensorInfo>) -> Seq<TensorView> {
    l.map_values(|t: TensorInfo| t@)
}

impl View for Gguf {
    type V = HeaderView;

    open spec fn view(&self) -> HeaderView {
        HeaderView {
            version: self.version,
            entries: entries_view(self.entries@),
            tensors: tensors_view(self.tensors@),
            data_offset: self.data_offset as nat,
        }
    }
}

/// The `w`-byte number at `at`, if the file holds it.
pub open spec fn number(b: Seq<u8>, at: int, w: int) -> Option<nat> {
    if 0 <= at && at + w <= b.len() {
        Some(bytes::value(b.subrange(at, at + w)))
    } else {
        None
    }
}

/// The text at `at`, a length and then that many bytes, and where it ends.
pub open spec fn text(b: Seq<u8>, at: int) -> Option<(Seq<char>, int)> {
    match number(b, at, 8) {
        Some(n) => if at + 8 + n <= b.len() {
            Some((gguf::text_in(b.subrange(at + 8, at + 8 + n)), at + 8 + n))
        } else {
            None
        },
        None => None,
    }
}

/// Bytes that a value of a kind takes; zero for the kinds whose values differ in
/// length, and for numbers that are no kind.
pub open spec fn width(kind: u32) -> int {
    if kind == 0 || kind == 1 || kind == 7 {
        1
    } else if kind == 2 || kind == 3 {
        2
    } else if kind == 4 || kind == 5 || kind == 6 {
        4
    } else if kind == 10 || kind == 11 || kind == 12 {
        8
    } else {
        0
    }
}

/// One more than the largest unsigned number of `w` bytes.
pub open spec fn span(w: int) -> int {
    if w == 1 {
        0x100
    } else if w == 2 {
        0x1_0000
    } else if w == 4 {
        0x1_0000_0000
    } else {
        0x1_0000_0000_0000_0000
    }
}

pub open spec fn is_signed(kind: u32) -> bool {
    kind == 1 || kind == 3 || kind == 5 || kind == 11
}

/// What the number `v` stands for as a value of a kind.
pub open spec fn plain(kind: u32, v: nat) -> ScalarView {
    if kind == 6 {
        ScalarView::Real(v as u32)
    } else if kind == 7 {
        ScalarView::Flag(v != 0)
    } else if kind == 12 {
        ScalarView::Double(v as u64)
    } else if is_signed(kind) && v >= span(width(kind)) / 2 {
        ScalarView::Negative((v - span(width(kind))) as i64)
    } else {
        ScalarView::Number(v as u64)
    }
}

/// The value of a kind at `at`, and where it ends.
pub open spec fn scalar(b: Seq<u8>, kind: u32, at: int) -> Option<(ScalarView, int)> {
    if kind == TEXT_KIND {
        match text(b, at) {
            Some((s, p)) => Some((ScalarView::Text(s), p)),
            None => None,
        }
    } else if width(kind) == 0 {
        None
    } else {
        match number(b, at, width(kind)) {
            Some(v) => Some((plain(kind, v), at + width(kind))),
            None => None,
        }
    }
}

/// `n` values of a kind, one after the other from `at` on, and where they end.
pub open spec fn scalars(b: Seq<u8>, kind: u32, at: int, n: nat) -> Option<(
    Seq<ScalarView>,
    int,
)>
    decreases n,
{
    if n == 0 {
        Some((Seq::empty(), at))
    } else {
        match scalars(b, kind, at, (n - 1) as nat) {
            Some((before, p)) => match scalar(b, kind, p) {
                Some((x, q)) => Some((before.push(x), q)),
                None => None,
            },
            None => None,
        }
    }
}

/// The value at `at`, its kind first, and where it ends. A list names the kind of its
/// items and their number, and lists do not hold lists.
pub open spec fn value(b: Seq<u8>, at: int) -> Option<(ValueView, int)> {
    match number(b, at, 4) {
        Some(kind) => if kind == LIST_KIND {
            match (number(b, at + 4, 4), number(b, at + 8, 8)) {
                (Some(item), Some(n)) => match scalars(b, item as u32, at + 16, n) {
                    Some((l, p)) => Some((ValueView::Many(l), p)),
                    None => None,
                },
                _ => None,
            }
        } else {
            match scalar(b, kind as u32, at + 4) {
                Some((s, p)) => Some((ValueView::One(s), p)),
                None => None,
            }
        },
        None => None,
    }
}

/// The metadata entry at `at`: a key, then a value.
pub open spec fn entry(b: Seq<u8>, at: int) -> Option<(EntryView, int)> {
    match text(b, at) {
        Some((key, p)) => match value(b, p) {
            Some((v, q)) => Some((EntryView { key, value: v }, q)),
            None => None,
        },
        None => None,
    }
}

pub open spec fn entries(b: Seq<u8>, at: int, n: nat) -> Option<(Seq<EntryView>, int)>
    decreases n,
{
    if n == 0 {
        Some((Seq::empty(), at))
    } else {
        match entries(b, at, (n - 1) as nat) {
            Some((before, p)) => match entry(b, p) {
                Some((x, q)) => Some((before.push(x), q)),
                None => None,
            },
            None => None,
        }
    }
}

/// The eight-byte numbers from `at` on.
pub open spec fn shape(b: Seq<u8>, at: int, n: nat) -> Seq<u64> {
    Seq::new(n, |i: int| bytes::value(b.subrange(at + 8 * i, at + 8 * i + 8)) as u64)
}

/// The tensor at `at`: a name, the number of dimensions, the dimensions, a type, and
/// where the data lies.
pub open spec fn tensor(b: Seq<u8>, at: int) -> Option<(TensorView, int)> {
    match text(b, at) {
        Some((name, p)) => match number(b, p, 4) {
            Some(n) => {
                let q = p + 4 + 8 * n;
                if q + 12 <= b.len() {
                    Some(
                        (
                            TensorView {
                                name,
                                dims: shape(b, p + 4, n),
                                ggml_type: bytes::value(b.subrange(q, q + 4)) as u32,
                                offset: bytes::value(b.subrange(q + 4, q + 12)) as u64,
                            },
                            q + 12,
                        ),
                    )
                } else {
                    None
                }
            },
            None => None,
        },
        None => None,
    }
}

pub open spec fn tensors(b: Seq<u8>, at: int, n: nat) -> Option<(Seq<TensorView>, int)>
    decreases n,
{
    if n == 0 {
        Some((Seq::empty(), at))
    } else {
        match tensors(b, at, (n - 1) as nat) {
            Some((before, p)) => match tensor(b, p) {
                Some((x, q)) => Some((before.push(x), q)),
                None => None,
            },
            None => None,
        }
    }
}

/// The first value with `key`, from place `from` on.
pub open spec fn entry_of(l: Seq<EntryView>, key: Seq<char>, from: int) -> Option<ValueView>
    decreases l.len() - from,
{
    if from < 0 || from >= l.len() {
        None
    } else if l[from].key == key {
        Some(l[from].value)
    } else {
        entry_of(l, key, from + 1)
    }
}

/// What the start of the data is a multiple of: what the metadata says where that is a
/// number above zero, and else the default.
pub open spec fn alignment(l: Seq<EntryView>) -> nat {
    match entry_of(l, "general.alignment"@, 0) {
        Some(ValueView::One(ScalarView::Number(n))) => if n > 0 {
            n as nat
        } else {
            DEFAULT_ALIGNMENT as nat
        },
        _ => DEFAULT_ALIGNMENT as nat,
    }
}

/// The least multiple of `m` that is not below `n`.
pub open spec fn round_up(n: nat, m: nat) -> nat {
    ((n + m - 1) / m as int * m) as nat
}

/// The header that a file starts with, if it starts with one.
pub open spec fn header(b: Seq<u8>) -> Option<HeaderView> {
    if b.len() < 24 || !gguf::has_magic(b) {
        None
    } else {
        match entries(b, 24, bytes::value(b.subrange(16, 24))) {
            Some((es, p)) => match tensors(b, p, bytes::value(b.subrange(8, 16))) {
                Some((ts, q)) => {
                    let start = round_up(q as nat, alignment(es));
                    if start <= usize::MAX {
                        Some(
                            HeaderView {
                                version: bytes::value(b.subrange(4, 8)) as u32,
                                entries: es,
                                tensors: ts,
                                data_offset: start,
                            },
                        )
                    } else {
                        None
                    }
                },
                None => None,
            },
            None => None,
        }
    }
}

/// What is wrong with a file that starts with no header.
pub open spec fn refusal(b: Seq<u8>) -> Fault {
    if b.len() < 24 {
        Fault::Model("Invalid GGUF size, too small"@)
    } else if !gguf::has_magic(b) {
        Fault::Model("Invalid GGUF magic: "@ + gguf::text_in(b.subrange(0, 4)))
    } else {
        Fault::Model("Malformed GGUF header"@)
    }
}

proof fn scalars_stop(b: Seq<u8>, kind: u32, at: int, i: nat, n: nat)
    requires
        i <= n,
        scalars(b, kind, at, i) is None,
    ensures
        scalars(b, kind, at, n) is None,
    decreases n,
{
    if i < n {
        scalars_stop(b, kind, at, i, (n - 1) as nat);
    }
}

proof fn entries_stop(b: Seq<u8>, at: int, i: nat, n: nat)
    requires
        i <= n,
        entries(b, at, i) is None,
    ensures
        entries(b, at, n) is None,
    decreases n,
{
    if i < n {
        entries_stop(b, at, i, (n - 1) as nat);
    }
}

proof fn tensors_stop(b: Seq<u8>, at: int, i: nat, n: nat)
    requires
        i <= n,
        tensors(b, at, i) is None,
    ensures
        tensors(b, at, n) is None,
    decreases n,
{
    if i < n {
        tensors_stop(b, at, i, (n - 1) as nat);
    }
}

fn read_u32_at(b: &[u8], at: usize) -> (r: Option<u32>)
    requires
        at <= b@.len(),
    ensures
        match r {
            Some(x) => number(b@, at as int, 4) == Some(x as nat) && at + 4 <= b@.len()
                <= usize::MAX,
            None => number(b@, at as int, 4) is None,
        },
{
    if b.len() - at < 4 {
        None
    } else {
        Some(bytes::read_u32(b, at))
    }
}

fn read_u64_at(b: &[u8], at: usize) -> (r: Option<u64>)
    requires
        at <= b@.len(),
    ensures
        match r {
            Some(x) => number(b@, at as int, 8) == Some(x as nat) && at + 8 <= b@.len()
                <= usize::MAX,
            None => number(b@, at as int, 8) is None,
        },
{
    if b.len() - at < 8 {
        None
    } else {
        Some(bytes::read_u64(b, at))
    }
}

fn read_text(b: &[u8], at: usize) -> (r: Option<(String, usize)>)
    requires
        at <= b@.len(),
    ensures
        match r {
            Some((s, p)) => text(b@, at as int) == Some((s@, p as int)) && p <= b@.len(),
            None => text(b@, at as int) is None,
        },
{
    let Some(n) = read_u64_at(b, at) else {
        return None;
    };
    let left: usize = b.len() - at - 8;
    if n as u128 > left as u128 {
        return None;
    }
    let end: usize = at + 8 + n as usize;
    Some((lossy_text(slice_subrange(b, at + 8, end)), end))
}

proof fn short_values(b: Seq<u8>)
    ensures
        b.len() == 1 ==> bytes::value(b) == b[0],
        b.len() == 2 ==> bytes::value(b) == b[0] + 256 * b[1],
{
    reveal_with_fuel(bytes::value, 3);
}

/// The number that a value of a kind is stored as.
fn read_number(b: &[u8], kind: u32, at: usize) -> (r: Option<(u64, usize)>)
    requires
        at <= b@.len(),
    ensures
        match r {
            Some((v, p)) => {
                &&& width(kind) > 0
                &&& number(b@, at as int, width(kind)) == Some(v as nat)
                &&& v < span(width(kind))
                &&& p == at + width(kind)
                &&& p <= b@.len()
            },
            None => width(kind) == 0 || number(b@, at as int, width(kind)) is None,
        },
{
    let left: usize = b.len() - at;
    match kind {
        0 | 1 | 7 => {
            if left < 1 {
                return None;
            }
            proof {
                short_values(b@.subrange(at as int, at + 1));
            }
            Some((b[at] as u64, at + 1))
        },
        2 | 3 => {
            if left < 2 {
                return None;
            }
            proof {
                short_values(b@.subrange(at as int, at + 2));
            }
            Some((b[at] as u64 + 256 * (b[at + 1] as u64), at + 2))
        },
        4 | 5 | 6 => match read_u32_at(b, at) {
            Some(v) => Some((v as u64, at + 4)),
            None => None,
        },
        10 | 11 | 12 => match read_u64_at(b, at) {
            Some(v) => Some((v, at + 8)),
            None => None,
        },
        _ => None,
    }
}

fn span_of(kind: u32) -> (n: u128)
    ensures
        n == span(width(kind)),
{
    match kind {
        0 | 1 | 7 => 0x100,
        2 | 3 => 0x1_0000,
        4 | 5 | 6 => 0x1_0000_0000,
        _ => 0x1_0000_0000_0000_0000,
    }
}

fn read_scalar(b: &[u8], kind: u32, at: usize) -> (r: Option<(Scalar, usize)>)
    requires
        at <= b@.len(),
    ensures
        match r {
            Some((s, p)) => scalar(b@, kind, at as int) == Some((s@, p as int)) && p <= b@.len(),
            None => scalar(b@, kind, at as int) is None,
        },
{
    if kind == TEXT_KIND {
        return match read_text(b, at) {
            Some((s, p)) => Some((Scalar::Text(s), p)),
            None => None,
        };
    }
    let Some((v, p)) = read_number(b, kind, at) else {
        return None;
    };
    if kind == 6 {
        return Some((Scalar::Real(v as u32), p));
    }
    if kind == 7 {
        return Some((Scalar::Flag(v != 0), p));
    }
    if kind == 12 {
        return Some((Scalar::Double(v), p));
    }
    let signed = kind == 1 || kind == 3 || kind == 5 || kind == 11;
    let all: u128 = span_of(kind);
    if signed && v as u128 >= all / 2 {
        let below: i128 = v as i128 - all as i128;
        return Some((Scalar::Negative(below as i64), p));
    }
    Some((Scalar::Number(v), p))
}

fn read_scalars(b: &[u8], kind: u32, at: usize, n: u64) -> (r: Option<(Vec<Scalar>, usize)>)
    requires
        at <= b@.len(),
    ensures
        match r {
            Some((l, p)) => scalars(b@, kind, at as int, n as nat) == Some(
                (scalars_view(l@), p as int),
            ) && p <= b@.len(),
            None => scalars(b@, kind, at as int, n as nat) is None,
        },
{
    let mut l: Vec<Scalar> = Vec::new();
    let mut p: usize = at;
    let mut i: u64 = 0;
    assert(scalars_view(l@) =~= Seq::empty());
    while i < n
        invariant
            i <= n,
            p <= b@.len(),
            scalars(b@, kind, at as int, i as nat) == Some((scalars_view(l@), p as int)),
        decreases n - i,
    {
        let Some((s, q)) = read_scalar(b, kind, p) else {
            proof {
                scalars_stop(b@, kind, at as int, (i + 1) as nat, n as nat);
            }
            return None;
        };
        let ghost before = l@;
        l.push(s);
        p = q;
        i += 1;
        assert(scalars_view(l@) =~= scalars_view(before).push(s@));
    }
    Some((l, p))
}

fn read_value(b: &[u8], at: usize) -> (r: Option<(Value, usize)>)
    requires
        at <= b@.len(),
    ensures
        match r {
            Some((v, p)) => value(b@, at as int) == Some((v@, p as int)) && p <= b@.len(),
            None => value(b@, at as int) is None,
        },
{
    let Some(kind) = read_u32_at(b, at) else {
        return None;
    };
    if kind != LIST_KIND {
        return match read_scalar(b, kind, at + 4) {
            Some((s, p)) => Some((Value::One(s), p)),
            None => None,
        };
    }
    let Some(item) = read_u32_at(b, at + 4) else {
        return None;
    };
    let Some(n) = read_u64_at(b, at + 8) else {
        return None;
    };
    match read_scalars(b, item, at + 16, n) {
        Some((l, p)) => Some((Value::Many(l), p)),
        None => None,
    }
}

fn read_entry(b: &[u8], at: usize) -> (r: Option<(Entry, usize)>)
    requires
        at <= b@.len(),
    ensures
        match r {
            Some((e, p)) => entry(b@, at as int) == Some((e@, p as int)) && p <= b@.len(),
            None => entry(b@, at as int) is None,
        },
{
    let Some((key, p)) = read_text(b, at) else {
        return None;
    };
    match read_value(b, p) {
        Some((v, q)) => Some((Entry { key, value: v }, q)),
        None => None,
    }
}

fn read_entries(b: &[u8], at: usize, n: u64) -> (r: Option<(Vec<Entry>, usize)>)
    requires
        at <= b@.len(),
    ensures
        match r {
            Some((l, p)) => entries(b@, at as int, n as nat) == Some(
                (entries_view(l@), p as int),
            ) && p <= b@.len(),
            None => entries(b@, at as int, n as nat) is None,
        },
{
    let mut l: Vec<Entry> = Vec::new();
    let mut p: usize = at;
    let mut i: u64 = 0;
    assert(entries_view(l@) =~= Seq::empty());
    while i < n
        invariant
            i <= n,
            p <= b@.len(),
            entries(b@, at as int, i as nat) == Some((entries_view(l@), p as int)),
        decreases n - i,
    {
        let Some((e, q)) = read_entry(b, p) else {
            proof {
                entries_stop(b@, at as int, (i + 1) as nat, n as nat);
            }
            return None;
        };
        let ghost before = l@;
        l.push(e);
        p = q;
        i += 1;
        assert(entries_view(l@) =~= entries_view(before).push(e@));
    }
    Some((l, p))
}

fn read_shape(b: &[u8], at: usize, n: u32) -> (dims: Vec<u64>)
    requires
        at + 8 * n <= b@.len(),
    ensures
        dims@ == shape(b@, at as int, n as nat),
{
    let len: usize = b.len();
    let mut dims: Vec<u64> = Vec::new();
    let mut i: u32 = 0;
    let mut p: usize = at;
    while i < n
        invariant
            i <= n,
            b@.len() == len,
            p == at + 8 * i,
            at + 8 * n <= b@.len(),
            dims@ =~= shape(b@, at as int, i as nat),
        decreases n - i,
    {
        dims.push(bytes::read_u64(b, p));
        p += 8;
        i += 1;
    }
    dims
}

fn read_tensor(b: &[u8], at: usize) -> (r: Option<(TensorInfo, usize)>)
    requires
        at <= b@.len(),
    ensures
        match r {
            Some((t, p)) => tensor(b@, at as int) == Some((t@, p as int)) && p <= b@.len(),
            None => tensor(b@, at as int) is None,
        },
{
    let Some((name, p)) = read_text(b, at) else {
        return None;
    };
    let Some(n) = read_u32_at(b, p) else {
        return None;
    };
    if p as u128 + 4 + 8 * (n as u128) + 12 > b.len() as u128 {
        return None;
    }
    let q: usize = p + 4 + 8 * (n as usize);
    let dims = read_shape(b, p + 4, n);
    Some(
        (
            TensorInfo {
                name,
                dims,
                ggml_type: bytes::read_u32(b, q),
                offset: bytes::read_u64(b, q + 4),
            },
            q + 12,
        ),
    )
}

fn read_tensors(b: &[u8], at: usize, n: u64) -> (r: Option<(Vec<TensorInfo>, usize)>)
    requires
        at <= b@.len(),
    ensures
        match r {
            Some((l, p)) => tensors(b@, at as int, n as nat) == Some(
                (tensors_view(l@), p as int),
            ) && p <= b@.len(),
            None => tensors(b@, at as int, n as nat) is None,
        },
{
    let mut l: Vec<TensorInfo> = Vec::new();
    let mut p: usize = at;
    let mut i: u64 = 0;
    assert(tensors_view(l@) =~= Seq::empty());
    while i < n
        invariant
            i <= n,
            p <= b@.len(),
            tensors(b@, at as int, i as nat) == Some((tensors_view(l@), p as int)),
        decreases n - i,
    {
        let Some((t, q)) = read_tensor(b, p) else {
            proof {
                tensors_stop(b@, at as int, (i + 1) as nat, n as nat);
            }
            return None;
        };
        let ghost before = l@;
        l.push(t);
        p = q;
        i += 1;
        assert(tensors_view(l@) =~= tensors_view(before).push(t@));
    }
    Some((l, p))
}

proof fn lookups_agree(l: Seq<Entry>, key: Seq<char>, from: int)
    ensures
        match gguf::lookup(l, key, from) {
            Some(v) => entry_of(entries_view(l), key, from) == Some(v@),
            None => entry_of(entries_view(l), key, from) is None,
        },
    decreases l.len() - from,
{
    if 0 <= from && from < l.len() && l[from].key@ != key {
        lookups_agree(l, key, from + 1);
    }
}

impl Gguf {
    /// Where the data starts, the header ending at `end`.
    fn data_start(&self, end: usize) -> (r: Option<usize>)
        ensures
            match r {
                Some(n) => n == round_up(end as nat, alignment(self@.entries)),
                None => round_up(end as nat, alignment(self@.entries)) > usize::MAX,
            },
    {
        let m: u64 = match self.get("general.alignment") {
            Some(Value::One(Scalar::Number(n))) => if *n > 0 {
                *n
            } else {
                DEFAULT_ALIGNMENT
            },
            _ => DEFAULT_ALIGNMENT,
        };
        proof {
            lookups_agree(self.entries@, "general.alignment"@, 0);
        }
        assert(m == alignment(self@.entries));
        let over: u128 = end as u128 + m as u128 - 1;
        proof {
            vstd::arithmetic::div_mod::lemma_fundamental_div_mod(over as int, m as int);
            vstd::arithmetic::mul::lemma_mul_is_commutative(m as int, over as int / m as int);
        }
        let start: u128 = over - over % (m as u128);
        assert(start == round_up(end as nat, m as nat));
        if start > usize::MAX as u128 {
            None
        } else {
            Some(start as usize)
        }
    }

    /// Reads the header of a checkpoint, from the bytes of the file.
    pub fn parse(data: &[u8]) -> (r: Result<Self, GarudaError>)
        ensures
            match r {
                Ok(g) => header(data@) == Some(g@),
                Err(e) => header(data@) is None && refusal(data@).is(e),
            },
    {
        if data.len() < 24 {
            return Err(GarudaError::Model("Invalid GGUF size, too small".to_owned()));
        }
        if !(data[0] == 0x47 && data[1] == 0x47 && data[2] == 0x55 && data[3] == 0x46) {
            let mut m = "Invalid GGUF magic: ".to_owned();
            m.append(lossy_text(slice_subrange(data, 0, 4)).as_str());
            return Err(GarudaError::Model(m));
        }
        let Some((entries, p)) = read_entries(data, 24, bytes::read_u64(data, 16)) else {
            return Err(GarudaError::Model("Malformed GGUF header".to_owned()));
        };
        let Some((tensors, q)) = read_tensors(data, p, bytes::read_u64(data, 8)) else {
            return Err(GarudaError::Model("Malformed GGUF header".to_owned()));
        };
        let mut g = Gguf { version: bytes::read_u32(data, 4), entries, tensors, data_offset: 0 };
        let Some(start) = g.data_start(q) else {
            return Err(GarudaError::Model("Malformed GGUF header".to_owned()));
        };
        g.data_offset = start;
        Ok(g)
    }

    /// Why the values of the tensor called `name` cannot be read out of a file, if so: it is
    /// not listed, its type is unknown, its elements are no whole number of blocks, they are
    /// not all in the file, or one of them is not finite.
    pub open spec fn expanding_fault(&self, file: Seq<u8>, name: Seq<char>) -> Option<Fault> {
        match self.place(name) {
            None => Some(Fault::Model("tensor '"@ + name + "' not found"@)),
            Some(i) => {
                let t = self.tensors@[i];
                let n = gguf::elements(t.dims@);
                let start = self.data_offset + t.offset;
                match quant::size_of(t.ggml_type, n) {
                    Err(m) => Some(Fault::Model(m)),
                    Ok(len) => if n > usize::MAX || start + len > file.len() {
                        Some(Fault::Model("tensor '"@ + name + "' runs past the end of the file"@))
                    } else {
                        match quant::values_fault(
                            t.ggml_type,
                            file.subrange(start, start + len),
                            n,
                        ) {
                            Some(m) => Some(Fault::Model(m)),
                            None => None,
                        }
                    },
                }
            },
        }
    }

    /// The elements of the tensor called `name`, as a file has them.
    pub open spec fn values(&self, file: Seq<u8>, name: Seq<char>) -> Seq<quant::Element> {
        let t = self.tensors@[self.place(name).unwrap()];
        let n = gguf::elements(t.dims@);
        let start = self.data_offset + t.offset;
        let len = quant::size_of(t.ggml_type, n)->Ok_0;
        Seq::new(n, |i: int| quant::element(t.ggml_type, file.subrange(start, start + len), i))
    }

    /// The elements of the tensor called `name`, taken apart.
    pub fn tensor_f32(&self, file: &[u8], name: &str) -> (r: Result<
        Vec<quant::Element>,
        GarudaError,
    >)
        requires
            self.wf(),
        ensures
            match r {
                Ok(out) => {
                    &&& self.expanding_fault(file@, name@) is None
                    &&& out@ == self.values(file@, name@)
                    &&& forall|i: int| 0 <= i < out@.len() ==> (#[trigger] out@[i]).finite()
                },
                Err(e) => self.expanding_fault(file@, name@) matches Some(f) && f.is(e),
            },
    {
        let Some(t) = self.tensor(name) else {
            let mut m = "tensor '".to_owned();
            m.append(name);
            m.append("' not found");
            return Err(GarudaError::Model(m));
        };
        let n: u64 = t.n_elements();
        let len: u128 = match quant::wide_size_of(t.ggml_type, n) {
            Ok(len) => len,
            Err(e) => {
                return Err(e);
            },
        };
        let start: u128 = self.data_offset as u128 + t.offset as u128;
        if n as u128 > usize::MAX as u128 || start + len > file.len() as u128 {
            let mut m = "tensor '".to_owned();
            m.append(name);
            m.append("' runs past the end of the file");
            return Err(GarudaError::Model(m));
        }
        let raw = slice_subrange(file, start as usize, (start + len) as usize);
        quant::dequantize(t.ggml_type, raw, n as usize)
    }
}

} // verus!
