//! Core types, errors and the storage trait.
//!
//! Numbers that a model computes with are `f32`s. This crate stores, moves and
//! addresses them but never computes with them, so it carries each one as its
//! IEEE-754 bit pattern, a `u32`.

use crate::text;
use crate::text::{push_number, push_size};
use vstd::prelude::*;
use vstd::string::*;

verus! {

pub type Token = u32;

pub type ExpertId = u32;

/// Entries of the byte-level vocabulary: the 256 bytes and four special tokens.
pub const VOCAB_SIZE: usize = 260;

#[derive(Debug, PartialEq, Eq)]
pub enum GarudaError {
    Io(String),
    Storage(String),
    Inference(String),
    Scheduler(String),
    Cache(String),
    Model(String),
    InvalidToken(Token),
    Config(String),
    Timeout,
    Cancelled,
    Busy,
    RateLimit,
}

impl Clone for GarudaError {
    fn clone(&self) -> (e: Self)
        ensures
            e == *self,
    {
        match self {
            GarudaError::Io(m) => GarudaError::Io(m.clone()),
            GarudaError::Storage(m) => GarudaError::Storage(m.clone()),
            GarudaError::Inference(m) => GarudaError::Inference(m.clone()),
            GarudaError::Scheduler(m) => GarudaError::Scheduler(m.clone()),
            GarudaError::Cache(m) => GarudaError::Cache(m.clone()),
            GarudaError::Model(m) => GarudaError::Model(m.clone()),
            GarudaError::InvalidToken(t) => GarudaError::InvalidToken(*t),
            GarudaError::Config(m) => GarudaError::Config(m.clone()),
            GarudaError::Timeout => GarudaError::Timeout,
            GarudaError::Cancelled => GarudaError::Cancelled,
            GarudaError::Busy => GarudaError::Busy,
            GarudaError::RateLimit => GarudaError::RateLimit,
        }
    }
}

impl GarudaError {
    /// What [`GarudaError::message`] says.
    pub open spec fn text(self) -> Seq<char> {
        match self {
            GarudaError::Io(m) => "i/o error: "@ + m@,
            GarudaError::Storage(m) => "storage error: "@ + m@,
            GarudaError::Inference(m) => "inference error: "@ + m@,
            GarudaError::Scheduler(m) => "scheduler error: "@ + m@,
            GarudaError::Cache(m) => "cache error: "@ + m@,
            GarudaError::Model(m) => "model error: "@ + m@,
            GarudaError::InvalidToken(t) => "token id "@ + text::decimal(t as nat)
                + " is outside the vocabulary"@,
            GarudaError::Config(m) => "configuration error: "@ + m@,
            GarudaError::Timeout => "request timed out"@,
            GarudaError::Cancelled => "request cancelled"@,
            GarudaError::Busy => "server is at capacity, retry later"@,
            GarudaError::RateLimit => "too many concurrent requests for this user"@,
        }
    }

    /// The error as a user reads it.
    pub fn message(&self) -> (s: String)
        ensures
            s@ == self.text(),
            self matches GarudaError::Io(m) ==> s@ == "i/o error: "@ + m@,
            self matches GarudaError::Storage(m) ==> s@ == "storage error: "@ + m@,
            self matches GarudaError::Inference(m) ==> s@ == "inference error: "@ + m@,
            self matches GarudaError::Scheduler(m) ==> s@ == "scheduler error: "@ + m@,
            self matches GarudaError::Cache(m) ==> s@ == "cache error: "@ + m@,
            self matches GarudaError::Model(m) ==> s@ == "model error: "@ + m@,
            self matches GarudaError::InvalidToken(t) ==> s@ == "token id "@ + text::decimal(
                *t as nat,
            ) + " is outside the vocabulary"@,
            self matches GarudaError::Config(m) ==> s@ == "configuration error: "@ + m@,
            self is Timeout ==> s@ == "request timed out"@,
            self is Cancelled ==> s@ == "request cancelled"@,
            self is Busy ==> s@ == "server is at capacity, retry later"@,
            self is RateLimit ==> s@ == "too many concurrent requests for this user"@,
    {
        match self {
            GarudaError::Io(m) => labelled("i/o error: ", m),
            GarudaError::Storage(m) => labelled("storage error: ", m),
            GarudaError::Inference(m) => labelled("inference error: ", m),
            GarudaError::Scheduler(m) => labelled("scheduler error: ", m),
            GarudaError::Cache(m) => labelled("cache error: ", m),
            GarudaError::Model(m) => labelled("model error: ", m),
            GarudaError::InvalidToken(t) => {
                let mut s = "token id ".to_owned();
                push_number(&mut s, *t as u64);
                s.append(" is outside the vocabulary");
                s
            },
            GarudaError::Config(m) => labelled("configuration error: ", m),
            GarudaError::Timeout => "request timed out".to_owned(),
            GarudaError::Cancelled => "request cancelled".to_owned(),
            GarudaError::Busy => "server is at capacity, retry later".to_owned(),
            GarudaError::RateLimit => "too many concurrent requests for this user".to_owned(),
        }
    }
}

/// An error as contracts speak of it: its kind and its message.
#[verifier::ext_equal]
pub enum Fault {
    Storage(Seq<char>),
    Inference(Seq<char>),
    Cache(Seq<char>),
    Model(Seq<char>),
    InvalidToken(Token),
    Config(Seq<char>),
}

impl Fault {
    /// `e` is this error.
    pub open spec fn is(self, e: GarudaError) -> bool {
        match self {
            Fault::Storage(m) => e matches GarudaError::Storage(t) && t@ == m,
            Fault::Inference(m) => e matches GarudaError::Inference(t) && t@ == m,
            Fault::Cache(m) => e matches GarudaError::Cache(t) && t@ == m,
            Fault::Model(m) => e matches GarudaError::Model(t) && t@ == m,
            Fault::InvalidToken(t) => e == GarudaError::InvalidToken(t),
            Fault::Config(m) => e matches GarudaError::Config(t) && t@ == m,
        }
    }
}

fn labelled(label: &str, detail: &str) -> (s: String)
    ensures
        s@ == label@ + detail@,
{
    let mut s = label.to_owned();
    s.append(detail);
    s
}

/// Shape of the model this runtime executes.
#[derive(Debug, Clone, Copy, PartialEq, Eq)]
pub struct ModelDims {
    pub d_model: usize,
    pub n_heads: usize,
    pub head_dim: usize,
    pub d_ff: usize,
    pub n_experts: usize,
    pub top_k: usize,
    pub vocab_size: usize,
    /// Positions per KV cache block.
    pub block_size: usize,
    /// Base frequency for rotary embeddings, as the bit pattern of an `f32`.
    pub rope_theta_bits: u32,
}

/// The bit pattern of the `f32` ten thousand.
pub const DEFAULT_ROPE_THETA_BITS: u32 = 0x461C_4000;

impl Default for ModelDims {
    fn default() -> (d: Self)
        ensures
            d.d_model == 128,
            d.n_heads == 4,
            d.head_dim == 32,
            d.d_ff == 256,
            d.n_experts == 8,
            d.top_k == 2,
            d.vocab_size == VOCAB_SIZE,
            d.vocab_size == 260,
            d.block_size == 16,
            d.rope_theta_bits == DEFAULT_ROPE_THETA_BITS,
            d.rope_theta_bits == 0x461C_4000,
    {
        ModelDims {
            d_model: 128,
            n_heads: 4,
            head_dim: 32,
            d_ff: 256,
            n_experts: 8,
            top_k: 2,
            vocab_size: VOCAB_SIZE,
            block_size: 16,
            rope_theta_bits: DEFAULT_ROPE_THETA_BITS,
        }
    }
}

impl ModelDims {
    /// The heads are together as wide as the model, or wider.
    pub open spec fn heads_cover_model(self) -> bool {
        self.n_heads * self.head_dim >= self.d_model
    }

    /// The heads are together exactly as wide as the model.
    pub open spec fn heads_tile_model(self) -> bool {
        self.n_heads * self.head_dim == self.d_model
    }

    pub open spec fn top_k_in_range(self) -> bool {
        1 <= self.top_k <= self.n_experts
    }

    /// What [`ModelDims::validate`] accepts.
    pub open spec fn valid(self) -> bool {
        self.heads_cover_model() && self.top_k_in_range() && self.block_size != 0
    }

    pub open spec fn heads_message(self) -> Seq<char> {
        "n_heads * head_dim ("@ + text::decimal(self.n_heads as nat) + " * "@ + text::decimal(
            self.head_dim as nat,
        ) + ") must equal d_model ("@ + text::decimal(self.d_model as nat) + ")"@
    }

    pub open spec fn top_k_message(self) -> Seq<char> {
        "top_k ("@ + text::decimal(self.top_k as nat) + ") must be in 1..="@ + text::decimal(
            self.n_experts as nat,
        )
    }

    /// What dimensions are told whose heads do not go with the model.
    pub(crate) fn heads_error(&self) -> (e: GarudaError)
        ensures
            e matches GarudaError::Config(m) && m@ == self.heads_message(),
    {
        let mut m = "n_heads * head_dim (".to_owned();
        push_size(&mut m, self.n_heads);
        m.append(" * ");
        push_size(&mut m, self.head_dim);
        m.append(") must equal d_model (");
        push_size(&mut m, self.d_model);
        m.append(")");
        GarudaError::Config(m)
    }

    /// Checks that the heads cover the model, that a token routes to at least one and
    /// at most every expert, and that a block holds at least one position.
    ///
    /// Heads may be wider than the model, as those of a hybrid checkpoint are.
    pub fn validate(&self) -> (r: Result<(), GarudaError>)
        ensures
            r is Ok <==> self.valid(),
            r is Ok <==> self.n_heads * self.head_dim >= self.d_model && 1 <= self.top_k
                <= self.n_experts && self.block_size != 0,
            r matches Err(e) ==> if !self.heads_cover_model() {
                e matches GarudaError::Config(m) && m@ == self.heads_message()
            } else if !self.top_k_in_range() {
                e matches GarudaError::Config(m) && m@ == self.top_k_message()
            } else {
                e matches GarudaError::Config(m) && m@ == "block_size must be non-zero"@
            },
    {
        let covered = match self.n_heads.checked_mul(self.head_dim) {
            Some(product) => product >= self.d_model,
            None => true,
        };
        if !covered {
            return Err(self.heads_error());
        }
        if self.top_k == 0 || self.top_k > self.n_experts {
            let mut m = "top_k (".to_owned();
            push_size(&mut m, self.top_k);
            m.append(") must be in 1..=");
            push_size(&mut m, self.n_experts);
            return Err(GarudaError::Config(m));
        }
        if self.block_size == 0 {
            return Err(GarudaError::Config("block_size must be non-zero".to_owned()));
        }
        Ok(())
    }
}

/// The number of elements that a shape implies.
pub open spec fn shape_size(shape: Seq<usize>) -> nat
    decreases shape.len(),
{
    if shape.len() == 0 {
        1
    } else {
        shape_size(shape.drop_last()) * (shape.last() as nat)
    }
}

/// True when the element count of a shape, and that of each of its leading parts,
/// can be counted in a `usize`.
pub open spec fn shape_counts(shape: Seq<usize>) -> bool {
    forall|n: int| 0 <= n <= shape.len() ==> #[trigger] shape_size(shape.take(n)) <= usize::MAX
}

/// The elements of a list of numbers as `{:?}` shows them, without the brackets.
pub open spec fn listed(xs: Seq<usize>) -> Seq<char>
    decreases xs.len(),
{
    if xs.len() == 0 {
        Seq::empty()
    } else if xs.len() == 1 {
        text::decimal(xs[0] as nat)
    } else {
        listed(xs.drop_last()) + ", "@ + text::decimal(xs.last() as nat)
    }
}

fn push_list(out: &mut String, xs: &[usize])
    ensures
        final(out)@ == old(out)@ + "["@ + listed(xs@) + "]"@,
{
    let ghost before = out@;
    out.append("[");
    let mut i: usize = 0;
    while i < xs.len()
        invariant
            i <= xs@.len(),
            out@ == before + "["@ + listed(xs@.take(i as int)),
        decreases xs@.len() - i,
    {
        let ghost upto = xs@.take(i as int);
        if i > 0 {
            out.append(", ");
        }
        push_size(out, xs[i]);
        proof {
            let next = xs@.take(i + 1);
            assert(next.drop_last() =~= upto);
            assert(next.last() == xs@[i as int]);
            if i == 0 {
                assert(listed(upto) =~= Seq::<char>::empty());
                assert(listed(next) == text::decimal(xs@[0] as nat));
            }
            assert(out@ =~= before + "["@ + listed(next));
        }
        i += 1;
    }
    assert(xs@.take(xs@.len() as int) =~= xs@);
    out.append("]");
}

/// A dense row-major tensor of `f32` bit patterns.
///
/// `new` checks that `shape` and `data` agree, so no downstream code has to defend
/// against a tensor whose dimensions lie about its contents.
#[derive(Debug)]
pub struct Tensor {
    shape: Vec<usize>,
    data: Vec<u32>,
}

impl Tensor {
    pub closed spec fn shape_view(&self) -> Seq<usize> {
        self.shape@
    }

    pub closed spec fn data_view(&self) -> Seq<u32> {
        self.data@
    }

    /// Shape and contents agree.
    pub open spec fn wf(&self) -> bool {
        shape_size(self.shape_view()) == self.data_view().len()
    }

    pub open spec fn mismatch_message(shape: Seq<usize>, found: nat) -> Seq<char> {
        "shape "@ + "["@ + listed(shape) + "]"@ + " implies "@ + text::decimal(shape_size(shape))
            + " elements but "@ + text::decimal(found) + " were supplied"@
    }

    pub fn new(shape: Vec<usize>, data: Vec<u32>) -> (r: Result<Self, GarudaError>)
        requires
            shape_counts(shape@),
        ensures
            r is Ok <==> shape_size(shape@) == data@.len(),
            r matches Ok(t) ==> t.wf() && t.shape_view() == shape@ && t.data_view() == data@,
            r matches Err(e) ==> (e matches GarudaError::Inference(m) && m@
                == Self::mismatch_message(shape@, data@.len())),
    {
        let expected: usize = count_elements(shape.as_slice());
        if expected != data.len() {
            let mut m = "shape ".to_owned();
            push_list(&mut m, shape.as_slice());
            m.append(" implies ");
            push_size(&mut m, expected);
            m.append(" elements but ");
            push_size(&mut m, data.len());
            m.append(" were supplied");
            assert(m@ =~= Self::mismatch_message(shape@, data@.len()));
            return Err(GarudaError::Inference(m));
        }
        Ok(Tensor { shape, data })
    }

    /// A tensor of zeros: the bit pattern of zero is zero.
    pub fn zeros(shape: Vec<usize>) -> (t: Self)
        requires
            shape_counts(shape@),
        ensures
            t.wf(),
            t.shape_view() == shape@,
            t.data_view() == Seq::new(shape_size(shape@), |i: int| 0u32),
    {
        let size: usize = count_elements(shape.as_slice());
        let data: Vec<u32> = vec![0; size];
        assert(data@ =~= Seq::new(shape_size(shape@), |i: int| 0u32));
        Tensor { shape, data }
    }

    /// One-dimensional tensor from a vector.
    pub fn vector(data: Vec<u32>) -> (t: Self)
        ensures
            t.wf(),
            t.shape_view() == seq![data@.len() as usize],
            t.data_view() == data@,
    {
        let n: usize = data.len();
        let shape: Vec<usize> = vec![n];
        proof {
            assert(shape@ =~= seq![n]);
            assert(shape@.drop_last() =~= Seq::<usize>::empty());
            assert(shape_size(shape@.drop_last()) == 1);
            assert(shape_size(shape@) == 1 * (n as nat));
        }
        Tensor { shape, data }
    }

    pub fn shape(&self) -> (s: &[usize])
        ensures
            s@ == self.shape_view(),
    {
        self.shape.as_slice()
    }

    pub fn data(&self) -> (s: &[u32])
        ensures
            s@ == self.data_view(),
    {
        self.data.as_slice()
    }

    pub fn into_data(self) -> (v: Vec<u32>)
        ensures
            v@ == self.data_view(),
    {
        self.data
    }

    pub fn len(&self) -> (n: usize)
        ensures
            n == self.data_view().len(),
    {
        self.data.len()
    }

    pub fn is_empty(&self) -> (b: bool)
        ensures
            b == (self.data_view().len() == 0),
    {
        self.data.len() == 0
    }
}

fn count_elements(shape: &[usize]) -> (n: usize)
    requires
        shape_counts(shape@),
    ensures
        n == shape_size(shape@),
{
    let mut n: usize = 1;
    let mut i: usize = 0;
    while i < shape.len()
        invariant
            i <= shape@.len(),
            shape_counts(shape@),
            n == shape_size(shape@.take(i as int)),
        decreases shape@.len() - i,
    {
        proof {
            let next = shape@.take(i + 1);
            assert(next.drop_last() =~= shape@.take(i as int));
            assert(shape_size(next) == n as nat * (shape@[i as int] as nat));
            assert(shape_size(shape@.take(i + 1)) <= usize::MAX);
        }
        n = n * shape[i];
        i += 1;
    }
    assert(shape@.take(shape@.len() as int) =~= shape@);
    n
}

/// One expert: a gated feed-forward network. Its weights are `f32` bit patterns.
///
/// `gate` and `up` are `[d_ff, d_model]` row-major, `down` is `[d_model, d_ff]`.
#[derive(Debug)]
pub struct Expert {
    pub id: ExpertId,
    pub gate: Vec<u32>,
    pub up: Vec<u32>,
    pub down: Vec<u32>,
    pub dims: ModelDims,
}

impl Expert {
    /// Bytes the weights occupy.
    pub open spec fn bytes(&self) -> nat {
        (4 * (self.gate@.len() + self.up@.len() + self.down@.len())) as nat
    }

    /// Number of weights one expert has, given `dims`.
    pub fn n_params(dims: &ModelDims) -> (n: usize)
        requires
            3 * (dims.d_ff * dims.d_model) <= usize::MAX,
        ensures
            n == 3 * (dims.d_ff * dims.d_model),
    {
        let plane: usize = dims.d_ff * dims.d_model;
        2 * plane + plane
    }

    pub fn size_bytes(&self) -> (n: usize)
        requires
            self.bytes() <= usize::MAX,
        ensures
            n == self.bytes(),
            n == 4 * self.gate@.len() + 4 * self.up@.len() + 4 * self.down@.len(),
    {
        (self.gate.len() + self.up.len() + self.down.len()) * 4
    }
}

/// Byte-level access to a tier of storage. A path is relative to the tier.
///
/// A tier changes behind the reference that it is reached by, so what it answers is
/// described by what it may answer: callers here are written for whatever comes back, an
/// error included.
pub trait StorageBackend: Send + Sync {
    /// A read of `path` may be answered `got`.
    open spec fn may_read(&self, path: Seq<char>, got: Result<Seq<u8>, GarudaError>) -> bool {
        arbitrary()
    }

    /// A write of `data` under `path` may be acknowledged, or fail with an error.
    open spec fn may_write(
        &self,
        path: Seq<char>,
        data: Seq<u8>,
        failure: Option<GarudaError>,
    ) -> bool {
        arbitrary()
    }

    /// A request to remove `path` may be carried out, or fail with an error.
    open spec fn may_remove(&self, path: Seq<char>, failure: Option<GarudaError>) -> bool {
        arbitrary()
    }

    /// A question for `path` may be answered `there`.
    open spec fn may_hold(&self, path: Seq<char>, there: bool) -> bool {
        arbitrary()
    }

    fn read(&self, path: &str) -> (r: Result<Vec<u8>, GarudaError>)
        ensures
            self.may_read(path@, read_answer(r)),
    ;

    fn write(&self, path: &str, data: &[u8]) -> (r: Result<(), GarudaError>)
        ensures
            self.may_write(path@, data@, failure_of(r)),
    ;

    fn remove(&self, path: &str) -> (r: Result<(), GarudaError>)
        ensures
            self.may_remove(path@, failure_of(r)),
    ;

    /// True when the tier holds something under `path`.
    fn holds(&self, path: &str) -> (there: bool)
        ensures
            self.may_hold(path@, there),
    ;
}

/// The error of what failed.
pub open spec fn failure_of(r: Result<(), GarudaError>) -> Option<GarudaError> {
    match r {
        Ok(_) => None,
        Err(e) => Some(e),
    }
}

/// What a read answered.
pub open spec fn read_answer(r: Result<Vec<u8>, GarudaError>) -> Result<Seq<u8>, GarudaError> {
    match r {
        Ok(data) => Ok(data@),
        Err(e) => Err(e),
    }
}

/// A shape counts the product of its sizes: shapes one behind the other multiply, and a single
/// size counts itself.
pub proof fn shapes_multiply(a: Seq<usize>, b: Seq<usize>, n: usize)
    ensures
        shape_size(a + b) == shape_size(a) * shape_size(b),
        shape_size(seq![n]) == n,
        shape_size(Seq::empty()) == 1,
    decreases b.len(),
{
    reveal_with_fuel(shape_size, 2);
    let one = seq![n];
    assert(one.drop_last() =~= Seq::<usize>::empty() && one.last() == n);
    assert(shape_size(one) == 1 * (n as nat));
    if b.len() == 0 {
        assert(a + b =~= a);
        let x = shape_size(a);
        assert(x * 1 == x);
    } else {
        assert((a + b).last() == b.last());
        shapes_multiply(a, b.drop_last(), n);
        assert((a + b).drop_last() =~= a + b.drop_last());
        let (x, y, z) = (shape_size(a), shape_size(b.drop_last()), b.last() as nat);
        assert(x * y * z == x * (y * z)) by (nonlinear_arith);
    }
}

/// A list shows every number, in order, with a comma and a space between one and the next.
pub proof fn lists_show_every_number(xs: Seq<usize>, x: usize, y: usize)
    ensures
        listed(Seq::empty()).len() == 0,
        listed(seq![x]) == text::decimal(x as nat),
        listed(xs.push(x).push(y)) == listed(xs.push(x)) + ", "@ + text::decimal(y as nat),
{
    assert(xs.push(x).push(y).drop_last() =~= xs.push(x));
}

/// An error says what it was given: of two errors of one kind with the same message, both were
/// given the same.
pub proof fn messages_tell_what_happened(e: GarudaError, f: GarudaError)
    requires
        e.text() == f.text(),
    ensures
        (e matches GarudaError::Io(a) ==> (f matches GarudaError::Io(b) ==> a@ == b@)),
        (e matches GarudaError::Storage(a) ==> (f matches GarudaError::Storage(b) ==> a@ == b@)),
        (e matches GarudaError::Inference(a) ==> (f matches GarudaError::Inference(b) ==> a@
            == b@)),
        (e matches GarudaError::Scheduler(a) ==> (f matches GarudaError::Scheduler(b) ==> a@
            == b@)),
        (e matches GarudaError::Cache(a) ==> (f matches GarudaError::Cache(b) ==> a@ == b@)),
        (e matches GarudaError::Model(a) ==> (f matches GarudaError::Model(b) ==> a@ == b@)),
        (e matches GarudaError::Config(a) ==> (f matches GarudaError::Config(b) ==> a@ == b@)),
        (e matches GarudaError::InvalidToken(a) ==> (f matches GarudaError::InvalidToken(b) ==> a
            == b)),
{
    match (e, f) {
        (GarudaError::Io(a), GarudaError::Io(b)) => {
            text::same_head_same_tail("i/o error: "@, a@, b@);
        },
        (GarudaError::Storage(a), GarudaError::Storage(b)) => {
            text::same_head_same_tail("storage error: "@, a@, b@);
        },
        (GarudaError::Inference(a), GarudaError::Inference(b)) => {
            text::same_head_same_tail("inference error: "@, a@, b@);
        },
        (GarudaError::Scheduler(a), GarudaError::Scheduler(b)) => {
            text::same_head_same_tail("scheduler error: "@, a@, b@);
        },
        (GarudaError::Cache(a), GarudaError::Cache(b)) => {
            text::same_head_same_tail("cache error: "@, a@, b@);
        },
        (GarudaError::Model(a), GarudaError::Model(b)) => {
            text::same_head_same_tail("model error: "@, a@, b@);
        },
        (GarudaError::Config(a), GarudaError::Config(b)) => {
            text::same_head_same_tail("configuration error: "@, a@, b@);
        },
        (GarudaError::InvalidToken(a), GarudaError::InvalidToken(b)) => {
            let (head, tail) = ("token id "@, " is outside the vocabulary"@);
            reveal_strlit(" is outside the vocabulary");
            let (x, y) = (text::decimal(a as nat), text::decimal(b as nat));
            assert(head + x + tail =~= head + (x + tail));
            assert(head + y + tail =~= head + (y + tail));
            text::same_head_same_tail(head, x + tail, y + tail);
            text::number_then_text_is_injective(a as nat, b as nat, tail, tail);
        },
        _ => {},
    }
}

} // verus!
