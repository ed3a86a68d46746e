//! Where a weight lies in a checkpoint.

use crate::gguf;
use crate::gguf::Gguf;
use crate::quant;
use crate::text;
use crate::text::{push_number, push_size};
use crate::types::{Fault, GarudaError};
use vstd::prelude::*;
use vstd::string::*;

verus! {

/// One weight matrix, either expanded in RAM or kept packed in a mapped file.
///
/// `Full` is fast but holds the whole matrix; `Packed` trades speed for memory, so that
/// a checkpoint far larger than RAM can run.
#[derive(Debug, Clone, Copy, PartialEq, Eq, Structural)]
pub enum Weight {
    Full { cols: usize },
    Packed {
        qtype: u32,
        cols: usize,
        /// The first byte, counted from the start of the buffer it lies in.
        start: usize,
    },
}

/// The file that the weights of a checkpoint come from.
#[derive(Debug, Clone, Copy)]
pub struct Source<'a> {
    pub bytes: &'a [u8],
    /// It is memory-mapped, and the matrices stay packed in it. Otherwise they are
    /// expanded in RAM.
    pub mapped: bool,
}

impl<'a> Source<'a> {
    /// The length of the memory map, where there is one.
    pub open spec fn map_len(self) -> Option<usize> {
        if self.mapped {
            Some(self.bytes@.len() as usize)
        } else {
            None
        }
    }

    /// A file that is expanded in RAM.
    pub fn expanded(bytes: &'a [u8]) -> (s: Self)
        ensures
            s == (Source { bytes, mapped: false }),
    {
        Source { bytes, mapped: false }
    }

    /// A file that is memory-mapped.
    pub fn mapped(bytes: &'a [u8]) -> (s: Self)
        ensures
            s == (Source { bytes, mapped: true }),
    {
        Source { bytes, mapped: true }
    }

    pub(crate) fn map(&self) -> (m: Option<usize>)
        ensures
            m == self.map_len(),
    {
        if self.mapped {
            Some(self.bytes.len())
        } else {
            None
        }
    }
}

pub open spec fn not_found(name: Seq<char>) -> Fault {
    Fault::Model("tensor '"@ + name + "' not found"@)
}

pub open spec fn wrong_count(name: Seq<char>, got: nat, expected: nat) -> Fault {
    Fault::Model(
        "tensor '"@ + name + "' has "@ + text::decimal(got) + " elements, expected "@
            + text::decimal(expected),
    )
}

pub open spec fn wrong_values(name: Seq<char>, got: nat, expected: nat) -> Fault {
    Fault::Model(
        "tensor '"@ + name + "' has "@ + text::decimal(got) + " values, expected "@
            + text::decimal(expected),
    )
}

/// The number of elements of a tensor that the directory lists.
pub open spec fn count(g: Gguf, name: Seq<char>) -> nat {
    gguf::elements(g.tensors@[g.place(name).unwrap()].dims@)
}

/// Where a packed `rows` by `cols` matrix lies inside a buffer of `src_len` bytes that
/// holds the file from offset `base` on, or why it does not.
pub open spec fn pinned(
    g: Gguf,
    src_len: nat,
    base: nat,
    name: Seq<char>,
    rows: nat,
    cols: usize,
) -> Result<Weight, Fault> {
    match g.place(name) {
        None => Err(not_found(name)),
        Some(i) => {
            let t = g.tensors@[i];
            let start = g.data_offset + t.offset - base;
            if count(g, name) != rows * cols {
                Err(wrong_count(name, count(g, name), (rows * cols) as nat))
            } else {
                match quant::size_of(t.ggml_type, (rows * cols) as nat) {
                    Err(m) => Err(Fault::Model(m)),
                    Ok(len) => if start < 0 {
                        Err(Fault::Model("tensor '"@ + name + "' starts before its buffer"@))
                    } else if start + len > src_len {
                        Err(
                            Fault::Model(
                                "tensor '"@ + name + "' runs past the end of its buffer"@,
                            ),
                        )
                    } else {
                        Ok(Weight::Packed { qtype: t.ggml_type, cols, start: start as usize })
                    },
                }
            }
        },
    }
}

/// What [`load_weight`] gives.
pub open spec fn placed(
    g: Gguf,
    source: Source,
    name: Seq<char>,
    rows: nat,
    cols: usize,
) -> Result<Weight, Fault> {
    if g.place(name) is None {
        Err(not_found(name))
    } else if count(g, name) != rows * cols {
        Err(wrong_count(name, count(g, name), (rows * cols) as nat))
    } else {
        match source.map_len() {
            Some(len) => pinned(g, len as nat, 0, name, rows, cols),
            None => match g.expanding_fault(source.bytes@, name) {
                Some(f) => Err(f),
                None => Ok(Weight::Full { cols }),
            },
        }
    }
}

fn quoted(name: &str, rest: &str) -> (m: String)
    ensures
        m@ == "tensor '"@ + name@ + rest@,
{
    let mut m = "tensor '".to_owned();
    m.append(name);
    m.append(rest);
    m
}

/// The tensor called `name`, which must have `n` elements.
fn counted<'a>(g: &'a Gguf, name: &str, n: usize) -> (r: Result<&'a gguf::TensorInfo, GarudaError>)
    requires
        g.wf(),
    ensures
        match r {
            Ok(t) => g.place(name@) matches Some(i) && 0 <= i < g.tensors@.len() && *t
                == g.tensors@[i] && count(*g, name@) == n,
            Err(e) => if g.place(name@) is None {
                not_found(name@).is(e)
            } else {
                count(*g, name@) != n && wrong_count(name@, count(*g, name@), n as nat).is(e)
            },
        },
{
    match g.tensor(name) {
        None => Err(GarudaError::Model(quoted(name, "' not found"))),
        Some(t) => {
            let got: u64 = t.n_elements();
            if got != n as u64 {
                let mut m = quoted(name, "' has ");
                push_number(&mut m, got);
                m.append(" elements, expected ");
                push_size(&mut m, n);
                return Err(GarudaError::Model(m));
            }
            Ok(t)
        },
    }
}

/// A packed `rows` by `cols` weight matrix inside a buffer that holds the file's bytes
/// from offset `base` onwards.
///
/// `base` is zero for a whole-file map and the block's own offset for a buffer holding
/// one block.
pub fn pinned_weight(
    g: &Gguf,
    src_len: usize,
    base: usize,
    name: &str,
    rows: usize,
    cols: usize,
) -> (r: Result<Weight, GarudaError>)
    requires
        g.wf(),
        rows * cols <= usize::MAX,
    ensures
        match r {
            Ok(w) => pinned(*g, src_len as nat, base as nat, name@, rows as nat, cols) == Ok::<
                Weight,
                Fault,
            >(w),
            Err(e) => pinned(*g, src_len as nat, base as nat, name@, rows as nat, cols) matches Err(
                f,
            ) && f.is(e),
        },
{
    let t = match counted(g, name, rows * cols) {
        Ok(t) => t,
        Err(e) => {
            return Err(e);
        },
    };
    let len: u128 = match quant::wide_size(t.ggml_type, rows * cols) {
        Ok(len) => len,
        Err(e) => {
            return Err(e);
        },
    };
    let at: usize = g.data_offset + t.offset as usize;
    if at < base {
        return Err(GarudaError::Model(quoted(name, "' starts before its buffer")));
    }
    let start: usize = at - base;
    if len > src_len as u128 || start > src_len - len as usize {
        return Err(GarudaError::Model(quoted(name, "' runs past the end of its buffer")));
    }
    Ok(Weight::Packed { qtype: t.ggml_type, cols, start })
}

/// A `rows` by `cols` weight matrix: packed in the memory map where there is one, expanded
/// in RAM otherwise.
pub fn load_weight(
    g: &Gguf,
    source: Source,
    name: &str,
    rows: usize,
    cols: usize,
) -> (r: Result<Weight, GarudaError>)
    requires
        g.wf(),
        rows * cols <= usize::MAX,
    ensures
        match r {
            Ok(w) => placed(*g, source, name@, rows as nat, cols) == Ok::<Weight, Fault>(w),
            Err(e) => placed(*g, source, name@, rows as nat, cols) matches Err(f) && f.is(e),
        },
{
    let t = match counted(g, name, rows * cols) {
        Ok(t) => t,
        Err(e) => {
            return Err(e);
        },
    };
    match source.map() {
        Some(len) => pinned_weight(g, len, 0, name, rows, cols),
        None => match g.tensor_f32(source.bytes, name) {
            Ok(_) => Ok(Weight::Full { cols }),
            Err(e) => Err(e),
        },
    }
}

/// What [`load_norm`] finds wrong, if anything.
pub open spec fn norm_fault(g: Gguf, file: Seq<u8>, name: Seq<char>, n: nat) -> Option<Fault> {
    if g.expanding_fault(file, name) is Some {
        g.expanding_fault(file, name)
    } else if count(g, name) != n {
        Some(wrong_values(name, count(g, name), n))
    } else {
        None
    }
}

/// Checks for a small tensor, a norm weight or a bias, of `n` values. These are tiny and
/// read on every token, so they are always expanded.
pub fn load_norm(g: &Gguf, file: &[u8], name: &str, n: usize) -> (r: Result<(), GarudaError>)
    requires
        g.wf(),
    ensures
        match r {
            Ok(_) => norm_fault(*g, file@, name@, n as nat) is None,
            Err(e) => norm_fault(*g, file@, name@, n as nat) matches Some(f) && f.is(e),
        },
{
    let values = match g.tensor_f32(file, name) {
        Ok(v) => v,
        Err(e) => {
            return Err(e);
        },
    };
    if values.len() != n {
        let mut m = quoted(name, "' has ");
        push_size(&mut m, values.len());
        m.append(" values, expected ");
        push_size(&mut m, n);
        return Err(GarudaError::Model(m));
    }
    Ok(())
}

impl Weight {
    /// The bytes of `rows` rows from `row_start` on, where the matrix is packed and its
    /// rows are whole blocks: where they start, and how many.
    pub open spec fn rows_at(self, row_start: nat, rows: nat) -> Option<(nat, nat)> {
        match self {
            Weight::Packed { qtype, cols, start } => match quant::size_of(qtype, cols as nat) {
                Ok(b) => Some((start as nat + row_start * b, rows * b)),
                Err(_) => None,
            },
            Weight::Full { .. } => None,
        }
    }

    /// The offsets of such rows can be computed.
    pub open spec fn rows_fit(self, row_start: nat, rows: nat) -> bool {
        self matches Weight::Packed { qtype, cols, start } ==> (quant::size_of(
            qtype,
            cols as nat,
        ) matches Ok(b) ==> b <= usize::MAX && start + row_start * b + rows * b <= usize::MAX)
    }

    pub fn row_bytes_range(&self, row_start: usize, rows: usize) -> (r: Option<(usize, usize)>)
        requires
            self.rows_fit(row_start as nat, rows as nat),
        ensures
            match r {
                Some(p) => self.rows_at(row_start as nat, rows as nat) == Some(
                    (p.0 as nat, p.1 as nat),
                ),
                None => self.rows_at(row_start as nat, rows as nat) is None,
            },
    {
        match self {
            Weight::Packed { qtype, cols, start } => match quant::byte_size(*qtype, *cols) {
                Ok(b) => {
                    assert(row_start * b >= 0 && rows * b >= 0) by (nonlinear_arith);
                    Some((*start + row_start * b, rows * b))
                },
                Err(_) => None,
            },
            Weight::Full { .. } => None,
        }
    }

    pub open spec fn packed(self) -> bool {
        self is Packed
    }

    pub fn is_packed(&self) -> (r: bool)
        ensures
            r == self.packed(),
    {
        match self {
            Weight::Packed { .. } => true,
            Weight::Full { .. } => false,
        }
    }
}

/// The slots of all experts within one projection: the rows of a single stacked tensor,
/// or a tensor for each.
#[derive(Debug)]
pub enum ExpertWeight {
    Stacked(Weight),
    Split(Vec<Weight>),
}

impl ExpertWeight {
    /// Which matrix holds expert `e`, and from which row on.
    pub open spec fn slot(self, e: nat, block: nat) -> (nat, nat) {
        match self {
            ExpertWeight::Stacked(_) => (0, e * block),
            ExpertWeight::Split(_) => (e, 0),
        }
    }

    /// Which matrix holds expert `e`, and from which row on. `block` is one expert's row
    /// count.
    pub fn expert_slot(&self, e: usize, block: usize) -> (r: (usize, usize))
        requires
            e * block <= usize::MAX,
        ensures
            self.slot(e as nat, block as nat) == (r.0 as nat, r.1 as nat),
    {
        match self {
            ExpertWeight::Stacked(_) => (0, e * block),
            ExpertWeight::Split(_) => (e, 0),
        }
    }

    /// What [`ExpertWeight::byte_range`] gives.
    pub open spec fn range(self, e: nat, block: nat) -> Option<(nat, nat)> {
        match self {
            ExpertWeight::Stacked(w) => w.rows_at(e * block, block),
            ExpertWeight::Split(ws) => if e >= ws@.len() {
                None
            } else {
                match ws@[e as int] {
                    Weight::Packed { qtype, cols, start } => match quant::size_of(
                        qtype,
                        block * cols as nat,
                    ) {
                        Ok(len) => Some((start as nat, len)),
                        Err(_) => None,
                    },
                    Weight::Full { .. } => None,
                }
            },
        }
    }

    /// The range can be computed.
    pub open spec fn range_fits(self, e: nat, block: nat) -> bool {
        match self {
            ExpertWeight::Stacked(w) => e * block <= usize::MAX && w.rows_fit(e * block, block),
            ExpertWeight::Split(ws) => e < ws@.len() ==> (ws@[e as int] matches Weight::Packed {
                qtype,
                cols,
                ..
            } ==> block * cols <= usize::MAX && (quant::size_of(
                qtype,
                block * cols as nat,
            ) matches Ok(len) ==> len <= usize::MAX)),
        }
    }

    /// Byte range of expert `e`'s packed weight in the mapped file, for prefetching.
    /// `None` if this weight is not packed or `e` is out of range.
    pub fn byte_range(&self, e: usize, block: usize) -> (r: Option<(usize, usize)>)
        requires
            self.range_fits(e as nat, block as nat),
        ensures
            match r {
                Some(p) => self.range(e as nat, block as nat) == Some((p.0 as nat, p.1 as nat)),
                None => self.range(e as nat, block as nat) is None,
            },
    {
        match self {
            ExpertWeight::Stacked(w) => w.row_bytes_range(e * block, block),
            ExpertWeight::Split(ws) => {
                if e >= ws.len() {
                    return None;
                }
                match ws[e] {
                    Weight::Packed { qtype, cols, start } => match quant::byte_size(
                        qtype,
                        block * cols,
                    ) {
                        Ok(len) => Some((start, len)),
                        Err(_) => None,
                    },
                    Weight::Full { .. } => None,
                }
            },
        }
    }
}

impl Weight {
    /// `rows` rows lie within a buffer of `len` bytes, if the matrix is packed.
    pub open spec fn within(self, rows: nat, len: nat) -> bool {
        self matches Weight::Packed { qtype, cols, start } ==> (quant::size_of(
            qtype,
            rows * cols as nat,
        ) matches Ok(n) && start + n <= len)
    }
}

impl ExpertWeight {
    /// `n` experts of `block` rows each lie within a buffer of `len` bytes.
    pub open spec fn within(self, n: nat, block: nat, len: nat) -> bool {
        match self {
            ExpertWeight::Stacked(w) => w.within(n * block, len),
            ExpertWeight::Split(ws) => ws@.len() == n && forall|e: int|
                0 <= e < n ==> (#[trigger] ws@[e]).within(block, len),
        }
    }
}

/// A weight that was placed lies within the mapped file.
pub(crate) proof fn placed_within(
    g: Gguf,
    source: Source,
    name: Seq<char>,
    rows: nat,
    cols: usize,
    w: Weight,
)
    requires
        placed(g, source, name, rows, cols) == Ok::<Weight, Fault>(w),
    ensures
        match source.map_len() {
            Some(len) => w.within(rows, len as nat) && w is Packed,
            None => w is Full,
        },
        match w {
            Weight::Packed { cols: c, .. } => c == cols,
            Weight::Full { cols: c } => c == cols,
        },
{
}

/// Rows of whole blocks add up.
proof fn rows_add_up(qtype: u32, rows: nat, cols: nat)
    requires
        quant::size_of(qtype, cols) is Ok,
    ensures
        quant::size_of(qtype, rows * cols) == Ok::<nat, Seq<char>>(
            rows * quant::size_of(qtype, cols)->Ok_0,
        ),
{
    let (elems, bytes) = quant::layout(qtype).unwrap();
    let (e, b, q) = (elems as int, bytes as int, cols as int / elems as int);
    vstd::arithmetic::div_mod::lemma_fundamental_div_mod(cols as int, e);
    assert(rows * cols == (rows * q) * e) by (nonlinear_arith)
        requires
            cols == e * q,
    ;
    assert(rows * q >= 0) by (nonlinear_arith)
        requires
            rows >= 0,
            q >= 0,
    ;
    vstd::arithmetic::div_mod::lemma_fundamental_div_mod_converse(
        (rows * cols) as int,
        e,
        rows * q,
        0,
    );
    assert((rows * q) * b == rows * (q * b)) by (nonlinear_arith);
}

/// The range of an expert is computable, and lies within the buffer.
pub proof fn expert_range_within(w: ExpertWeight, n: nat, block: nat, len: nat, e: nat)
    requires
        w.within(n, block, len),
        e < n,
        n * block <= usize::MAX,
        w matches ExpertWeight::Split(ws) ==> forall|i: int|
            0 <= i < n ==> (#[trigger] ws@[i] matches Weight::Packed { cols, .. } ==> block * cols
                <= usize::MAX),
        len <= usize::MAX,
        w matches ExpertWeight::Stacked(Weight::Packed { qtype, cols, .. }) ==> (quant::size_of(
            qtype,
            cols as nat,
        ) matches Ok(b) ==> b <= usize::MAX),
    ensures
        w.range_fits(e, block),
        w.range(e, block) matches Some((start, size)) ==> start + size <= len,
{
    assert(e * block + block <= n * block) by (nonlinear_arith)
        requires
            e < n,
            block >= 0,
    ;
    match w {
        ExpertWeight::Stacked(Weight::Packed { qtype, cols, start }) => {
            if quant::size_of(qtype, cols as nat) is Ok {
                let b = quant::size_of(qtype, cols as nat)->Ok_0;
                rows_add_up(qtype, n * block, cols as nat);
                assert((e * block) * b + block * b <= (n * block) * b) by (nonlinear_arith)
                    requires
                        e * block + block <= n * block,
                        b >= 0,
                ;
            }
        },
        ExpertWeight::Stacked(Weight::Full { .. }) => {},
        ExpertWeight::Split(ws) => {
            assert(ws@[e as int].within(block, len));
        },
    }
}

} // verus!
