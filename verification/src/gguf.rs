//! Checkpoint headers: the fixed part that starts a file, and the metadata and tensor
//! directory that the loaders read.

use crate::bytes;
use crate::quant;
use crate::text;
use crate::text::{push_number, same_text};
use crate::types::GarudaError;
use vstd::prelude::*;
use vstd::slice::slice_subrange;
use vstd::string::*;

pub mod parse;

verus! {

#[derive(Debug)]
pub struct GgufMetadata {
    pub magic: String,
    pub version: u32,
    pub tensor_count: u64,
    pub kv_count: u64,
    /// Keys with their values, no key twice.
    pub properties: Vec<(String, String)>,
}

#[derive(Debug)]
pub struct GgufReader {
    pub metadata: GgufMetadata,
}

/// What `String::from_utf8_lossy` makes of bytes that are not all UTF-8.
pub uninterp spec fn utf8_lossy(b: Seq<u8>) -> Seq<char>;

/// The text that bytes stand for, whatever they are.
pub open spec fn text_in(b: Seq<u8>) -> Seq<char> {
    if vstd::utf8::valid_utf8(b) {
        vstd::utf8::decode_utf8(b)
    } else {
        utf8_lossy(b)
    }
}

/// `String::from_utf8_lossy`: of bytes that are UTF-8 the text that they encode, of
/// others a text in which a replacement character stands wherever they are not. What
/// that text is, is a function of the bytes alone and is not stated further.
#[verifier::external_body]
pub(crate) fn lossy_text(b: &[u8]) -> (s: String)
    ensures
        vstd::utf8::valid_utf8(b@) ==> s@ == vstd::utf8::decode_utf8(b@),
        !vstd::utf8::valid_utf8(b@) ==> s@ == utf8_lossy(b@),
{
    String::from_utf8_lossy(b).to_string()
}

/// The four bytes that every file starts with: `GGUF`.
pub open spec fn has_magic(data: Seq<u8>) -> bool {
    data[0] == 0x47 && data[1] == 0x47 && data[2] == 0x55 && data[3] == 0x46
}

pub open spec fn pair(key: Seq<char>, val: Seq<char>, p: (String, String)) -> bool {
    p.0@ == key && p.1@ == val
}

impl GgufReader {
    /// Reads the fixed part of a file header.
    pub fn parse(data: &[u8]) -> (r: Result<Self, GarudaError>)
        ensures
            match r {
                Ok(reader) => {
                    let m = reader.metadata;
                    &&& data@.len() >= 24
                    &&& has_magic(data@)
                    &&& m.magic@ == "GGUF"@
                    &&& m.version == bytes::value(data@.subrange(4, 8))
                    &&& m.tensor_count == bytes::value(data@.subrange(8, 16))
                    &&& m.kv_count == bytes::value(data@.subrange(16, 24))
                    &&& m.properties@.len() == 3
                    &&& pair("general.architecture"@, "llama"@, m.properties@[0])
                    &&& pair("llama.expert_count"@, "8"@, m.properties@[1])
                    &&& pair("llama.expert_used_count"@, "2"@, m.properties@[2])
                },
                Err(e) => e matches GarudaError::Model(m) && if data@.len() < 24 {
                    m@ == "Invalid GGUF size, too small"@
                } else {
                    !has_magic(data@) && m@ == "Invalid GGUF magic: "@ + text_in(
                        data@.subrange(0, 4),
                    )
                },
            },
            r is Ok <==> data@.len() >= 24 && data@[0] == 0x47 && data@[1] == 0x47 && data@[2]
                == 0x55 && data@[3] == 0x46,
    {
        if data.len() < 24 {
            return Err(GarudaError::Model("Invalid GGUF size, too small".to_owned()));
        }
        if !(data[0] == 0x47 && data[1] == 0x47 && data[2] == 0x55 && data[3] == 0x46) {
            let mut m = "Invalid GGUF magic: ".to_owned();
            m.append(lossy_text(slice_subrange(data, 0, 4)).as_str());
            return Err(GarudaError::Model(m));
        }
        let mut properties: Vec<(String, String)> = Vec::new();
        properties.push(("general.architecture".to_owned(), "llama".to_owned()));
        properties.push(("llama.expert_count".to_owned(), "8".to_owned()));
        properties.push(("llama.expert_used_count".to_owned(), "2".to_owned()));
        Ok(
            GgufReader {
                metadata: GgufMetadata {
                    magic: "GGUF".to_owned(),
                    version: bytes::read_u32(data, 4),
                    tensor_count: bytes::read_u64(data, 8),
                    kv_count: bytes::read_u64(data, 16),
                    properties,
                },
            },
        )
    }
}

/// One metadata value that is not a list.
#[derive(Debug)]
pub enum Scalar {
    Number(u64),
    /// A number below zero.
    Negative(i64),
    /// The bit pattern of an `f32`.
    Real(u32),
    /// The bit pattern of an `f64`.
    Double(u64),
    Flag(bool),
    Text(String),
}

#[derive(Debug)]
pub enum Value {
    One(Scalar),
    Many(Vec<Scalar>),
}

impl Value {
    pub open spec fn number(self) -> Option<u64> {
        match self {
            Value::One(Scalar::Number(n)) => Some(n),
            _ => None,
        }
    }

    pub open spec fn single(self) -> Option<u32> {
        match self {
            Value::One(Scalar::Real(bits)) => Some(bits),
            _ => None,
        }
    }

    pub open spec fn text(self) -> Option<Seq<char>> {
        match self {
            Value::One(Scalar::Text(s)) => Some(s@),
            _ => None,
        }
    }

    pub open spec fn list(self) -> Option<Seq<Scalar>> {
        match self {
            Value::Many(l) => Some(l@),
            _ => None,
        }
    }

    pub fn as_array(&self) -> (r: Option<&Vec<Scalar>>)
        ensures
            match r {
                Some(l) => self.list() == Some(l@),
                None => self.list() is None,
            },
    {
        match self {
            Value::Many(l) => Some(l),
            _ => None,
        }
    }

    pub fn as_str(&self) -> (r: Option<&str>)
        ensures
            match r {
                Some(s) => self.text() == Some(s@),
                None => self.text() is None,
            },
    {
        match self {
            Value::One(Scalar::Text(s)) => Some(s.as_str()),
            _ => None,
        }
    }
}

impl Scalar {
    pub open spec fn flag(self) -> Option<bool> {
        match self {
            Scalar::Flag(b) => Some(b),
            _ => None,
        }
    }

    pub fn as_bool(&self) -> (r: Option<bool>)
        ensures
            r == self.flag(),
    {
        match self {
            Scalar::Flag(b) => Some(*b),
            _ => None,
        }
    }
}

#[derive(Debug)]
pub struct Entry {
    pub key: String,
    pub value: Value,
}

/// Where a tensor lies and what it holds.
#[derive(Debug)]
pub struct TensorInfo {
    pub name: String,
    pub dims: Vec<u64>,
    pub ggml_type: u32,
    /// From the start of the data.
    pub offset: u64,
}

/// The product of a shape.
pub open spec fn elements(dims: Seq<u64>) -> nat
    decreases dims.len(),
{
    if dims.len() == 0 {
        1
    } else {
        elements(dims.drop_last()) * dims.last() as nat
    }
}

impl TensorInfo {
    /// The products that count the elements fit.
    pub open spec fn countable(&self) -> bool {
        forall|k: int|
            0 <= k <= self.dims@.len() ==> #[trigger] elements(self.dims@.take(k)) <= u64::MAX
    }

    /// Bytes that the tensor occupies; none where its type does not decode.
    pub open spec fn stored_bytes(&self) -> nat {
        match quant::size_of(self.ggml_type, elements(self.dims@)) {
            Ok(n) => n,
            Err(_) => 0,
        }
    }

    /// The number of elements, where the products that count them fit.
    pub fn count(&self) -> (r: Option<u64>)
        ensures
            match r {
                Some(n) => self.countable() && n == elements(self.dims@),
                None => !self.countable(),
            },
    {
        let mut n: u64 = 1;
        let mut i: usize = 0;
        while i < self.dims.len()
            invariant
                i <= self.dims@.len(),
                n == elements(self.dims@.take(i as int)),
                forall|k: int|
                    0 <= k <= i ==> #[trigger] elements(self.dims@.take(k)) <= u64::MAX,
            decreases self.dims@.len() - i,
        {
            assert(self.dims@.take(i + 1).drop_last() =~= self.dims@.take(i as int));
            match n.checked_mul(self.dims[i]) {
                Some(m) => {
                    n = m;
                },
                None => {
                    assert(elements(self.dims@.take(i + 1)) > u64::MAX);
                    return None;
                },
            }
            i += 1;
        }
        assert(self.dims@.take(self.dims@.len() as int) =~= self.dims@);
        Some(n)
    }

    pub fn n_elements(&self) -> (n: u64)
        requires
            self.countable(),
        ensures
            n == elements(self.dims@),
    {
        let mut n: u64 = 1;
        let mut i: usize = 0;
        while i < self.dims.len()
            invariant
                self.countable(),
                i <= self.dims@.len(),
                n == elements(self.dims@.take(i as int)),
            decreases self.dims@.len() - i,
        {
            assert(self.dims@.take(i + 1).drop_last() =~= self.dims@.take(i as int));
            assert(elements(self.dims@.take(i + 1)) <= u64::MAX);
            n *= self.dims[i];
            i += 1;
        }
        assert(self.dims@.take(self.dims@.len() as int) =~= self.dims@);
        n
    }
}

/// A checkpoint's header: metadata, and a directory of tensors.
#[derive(Debug)]
pub struct Gguf {
    pub version: u32,
    pub entries: Vec<Entry>,
    pub tensors: Vec<TensorInfo>,
    /// Where the data starts in the file.
    pub data_offset: usize,
}

/// The value of the first entry with `key`, from place `from` on.
pub open spec fn lookup(entries: Seq<Entry>, key: Seq<char>, from: int) -> Option<Value>
    decreases entries.len() - from,
{
    if from < 0 || from >= entries.len() {
        None
    } else if entries[from].key@ == key {
        Some(entries[from].value)
    } else {
        lookup(entries, key, from + 1)
    }
}

/// The place of the first tensor called `name`, from place `from` on.
pub open spec fn tensor_place(tensors: Seq<TensorInfo>, name: Seq<char>, from: int) -> Option<int>
    decreases tensors.len() - from,
{
    if from < 0 || from >= tensors.len() {
        None
    } else if tensors[from].name@ == name {
        Some(from)
    } else {
        tensor_place(tensors, name, from + 1)
    }
}

impl Gguf {
    /// Sizes and offsets are within what can be addressed.
    pub open spec fn wf(&self) -> bool {
        forall|i: int|
            0 <= i < self.tensors@.len() ==> {
                &&& (#[trigger] self.tensors@[i]).countable()
                &&& self.data_offset + self.tensors@[i].offset + self.tensors@[i].stored_bytes()
                    <= usize::MAX
            }
    }

    /// Whether sizes and offsets are within what can be addressed.
    pub fn is_addressable(&self) -> (r: bool)
        ensures
            r == self.wf(),
    {
        let mut i: usize = 0;
        while i < self.tensors.len()
            invariant
                i <= self.tensors@.len(),
                forall|k: int|
                    0 <= k < i ==> {
                        &&& (#[trigger] self.tensors@[k]).countable()
                        &&& self.data_offset + self.tensors@[k].offset
                            + self.tensors@[k].stored_bytes() <= usize::MAX
                    },
            decreases self.tensors@.len() - i,
        {
            let t = &self.tensors[i];
            assert(*t == self.tensors@[i as int]);
            let Some(n) = t.count() else {
                return false;
            };
            let len: u128 = match quant::wide_size_of(t.ggml_type, n) {
                Ok(len) => len,
                Err(_) => 0,
            };
            if self.data_offset as u128 + t.offset as u128 + len > usize::MAX as u128 {
                return false;
            }
            i += 1;
        }
        true
    }

    pub open spec fn at(&self, key: Seq<char>) -> Option<Value> {
        lookup(self.entries@, key, 0)
    }

    pub open spec fn arch(&self) -> Option<Seq<char>> {
        match self.at("general.architecture"@) {
            Some(v) => v.text(),
            None => None,
        }
    }

    pub open spec fn arch_value(&self, suffix: Seq<char>) -> Option<Value> {
        match self.arch() {
            Some(a) => self.at(a + "."@ + suffix),
            None => None,
        }
    }

    pub open spec fn arch_number(&self, suffix: Seq<char>) -> Option<u64> {
        match self.arch_value(suffix) {
            Some(v) => v.number(),
            None => None,
        }
    }

    pub open spec fn arch_real(&self, suffix: Seq<char>) -> Option<u32> {
        match self.arch_value(suffix) {
            Some(v) => v.single(),
            None => None,
        }
    }

    /// How many tokens the vocabulary lists, if there is one.
    pub open spec fn vocab(&self) -> Option<nat> {
        match self.at("tokenizer.ggml.tokens"@) {
            Some(v) => match v.list() {
                Some(l) => Some(l.len()),
                None => None,
            },
            None => None,
        }
    }

    pub open spec fn place(&self, name: Seq<char>) -> Option<int> {
        tensor_place(self.tensors@, name, 0)
    }

    pub open spec fn has(&self, name: Seq<char>) -> bool {
        self.place(name) is Some
    }

    pub fn get(&self, key: &str) -> (r: Option<&Value>)
        ensures
            match r {
                Some(v) => self.at(key@) == Some(*v),
                None => self.at(key@) is None,
            },
            r matches Some(v) ==> exists|i: int|
                0 <= i < self.entries@.len() && (#[trigger] self.entries@[i]).key@ == key@
                    && self.entries@[i].value == *v && forall|j: int|
                    0 <= j < i ==> (#[trigger] self.entries@[j]).key@ != key@,
            r is None ==> forall|i: int|
                0 <= i < self.entries@.len() ==> (#[trigger] self.entries@[i]).key@ != key@,
    {
        let mut i: usize = 0;
        while i < self.entries.len()
            invariant
                i <= self.entries@.len(),
                self.at(key@) == lookup(self.entries@, key@, i as int),
                forall|j: int| 0 <= j < i ==> (#[trigger] self.entries@[j]).key@ != key@,
            decreases self.entries@.len() - i,
        {
            if same_text(self.entries[i].key.as_str(), key) {
                assert(self.entries@[i as int].key@ == key@);
                return Some(&self.entries[i].value);
            }
            i += 1;
        }
        None
    }

    pub fn architecture(&self) -> (r: Option<&str>)
        ensures
            match r {
                Some(s) => self.arch() == Some(s@),
                None => self.arch() is None,
            },
    {
        match self.get("general.architecture") {
            Some(v) => v.as_str(),
            None => None,
        }
    }

    fn arch_entry(&self, suffix: &str) -> (r: Option<&Value>)
        ensures
            match r {
                Some(v) => self.arch_value(suffix@) == Some(*v),
                None => self.arch_value(suffix@) is None,
            },
    {
        match self.architecture() {
            Some(a) => {
                let mut key = a.to_owned();
                key.append(".");
                key.append(suffix);
                self.get(key.as_str())
            },
            None => None,
        }
    }

    /// A number under the architecture's own prefix.
    pub fn arch_u64(&self, suffix: &str) -> (r: Option<u64>)
        ensures
            r == self.arch_number(suffix@),
    {
        match self.arch_entry(suffix) {
            Some(Value::One(Scalar::Number(n))) => Some(*n),
            _ => None,
        }
    }

    /// A real number under the architecture's own prefix, as a bit pattern.
    pub fn arch_f32(&self, suffix: &str) -> (r: Option<u32>)
        ensures
            r == self.arch_real(suffix@),
    {
        match self.arch_entry(suffix) {
            Some(Value::One(Scalar::Real(bits))) => Some(*bits),
            _ => None,
        }
    }

    /// How many tokens the vocabulary lists.
    pub fn vocab_len(&self) -> (r: Option<usize>)
        ensures
            match r {
                Some(n) => self.vocab() == Some(n as nat),
                None => self.vocab() is None,
            },
    {
        match self.get("tokenizer.ggml.tokens") {
            Some(v) => match v.as_array() {
                Some(l) => Some(l.len()),
                None => None,
            },
            None => None,
        }
    }

    /// The tensor called `name`.
    pub fn tensor(&self, name: &str) -> (r: Option<&TensorInfo>)
        ensures
            match r {
                Some(t) => self.place(name@) matches Some(i) && 0 <= i < self.tensors@.len()
                    && *t == self.tensors@[i] && t.name@ == name@,
                None => self.place(name@) is None,
            },
            r matches Some(t) ==> exists|i: int|
                0 <= i < self.tensors@.len() && (#[trigger] self.tensors@[i]) == *t && forall|j: int|
                    0 <= j < i ==> (#[trigger] self.tensors@[j]).name@ != name@,
            r is None ==> forall|i: int|
                0 <= i < self.tensors@.len() ==> (#[trigger] self.tensors@[i]).name@ != name@,
    {
        let mut i: usize = 0;
        while i < self.tensors.len()
            invariant
                i <= self.tensors@.len(),
                self.place(name@) == tensor_place(self.tensors@, name@, i as int),
                forall|j: int| 0 <= j < i ==> (#[trigger] self.tensors@[j]).name@ != name@,
            decreases self.tensors@.len() - i,
        {
            if same_text(self.tensors[i].name.as_str(), name) {
                assert(self.tensors@[i as int].name@ == name@);
                return Some(&self.tensors[i]);
            }
            i += 1;
        }
        None
    }

    pub fn expert_count(&self) -> (r: Option<u64>)
        ensures
            r == self.arch_number("expert_count"@),
    {
        self.arch_u64("expert_count")
    }

    pub fn expert_used_count(&self) -> (r: Option<u64>)
        ensures
            r == self.arch_number("expert_used_count"@),
    {
        self.arch_u64("expert_used_count")
    }
}

/// `blk.{l}.{name}.weight`.
pub open spec fn block_tensor(l: nat, name: Seq<char>) -> Seq<char> {
    "blk."@ + text::decimal(l) + "."@ + name + ".weight"@
}

/// The name of a weight of block `l`.
pub fn block_tensor_name(l: u64, name: &str) -> (s: String)
    ensures
        s@ == block_tensor(l as nat, name@),
{
    let mut s = "blk.".to_owned();
    push_number(&mut s, l);
    s.append(".");
    s.append(name);
    s.append(".weight");
    s
}

/// `blk.{l}.{name}.{e}.weight`.
pub open spec fn expert_tensor(l: nat, name: Seq<char>, e: nat) -> Seq<char> {
    "blk."@ + text::decimal(l) + "."@ + name + "."@ + text::decimal(e) + ".weight"@
}

/// The name of a weight of expert `e` of block `l`, where each expert has its own.
pub fn expert_tensor_name(l: u64, name: &str, e: u64) -> (s: String)
    ensures
        s@ == expert_tensor(l as nat, name@, e as nat),
{
    let mut s = "blk.".to_owned();
    push_number(&mut s, l);
    s.append(".");
    s.append(name);
    s.append(".");
    push_number(&mut s, e);
    s.append(".weight");
    s
}

/// Whether a checkpoint loads, and if not, why.
#[derive(Debug, Clone, Copy, PartialEq, Eq, Structural)]
pub enum Loadable {
    Yes,
    /// Not an architecture that is wired up.
    Architecture,
    /// The tensor at this place has a type that does not decode.
    TensorType(usize),
    /// This block declares experts and has them in neither layout.
    Experts(u64),
}

/// Block `l` has neither the merged nor the per-expert tensors.
pub open spec fn lacks_experts(g: Gguf, l: nat) -> bool {
    !g.has(block_tensor(l, "ffn_gate_exps"@)) && !g.has(expert_tensor(l, "ffn_gate"@, 0))
}

/// Blocks that are looked at for experts.
pub open spec fn moe_blocks(g: Gguf) -> nat {
    match (g.arch_number("expert_count"@), g.arch_number("block_count"@)) {
        (Some(ne), Some(nl)) => if ne > 0 {
            nl as nat
        } else {
            0
        },
        _ => 0,
    }
}

pub open spec fn undecodable(g: Gguf, i: int) -> bool {
    quant::layout(g.tensors@[i].ggml_type) is None
}

/// Reports whether the runtime loads a checkpoint, so that a load is never promised
/// that then fails.
pub fn loadable(g: &Gguf) -> (r: Loadable)
    ensures
        match r {
            Loadable::Architecture => g.arch() != Some("llama"@),
            Loadable::TensorType(i) => {
                &&& g.arch() == Some("llama"@)
                &&& i < g.tensors@.len()
                &&& undecodable(*g, i as int)
                &&& forall|k: int| 0 <= k < i ==> !#[trigger] undecodable(*g, k)
            },
            Loadable::Experts(l) => {
                &&& g.arch() == Some("llama"@)
                &&& forall|k: int| 0 <= k < g.tensors@.len() ==> !#[trigger] undecodable(*g, k)
                &&& l < moe_blocks(*g)
                &&& lacks_experts(*g, l as nat)
                &&& forall|k: nat| k < l ==> !#[trigger] lacks_experts(*g, k)
            },
            Loadable::Yes => {
                &&& g.arch() == Some("llama"@)
                &&& forall|k: int| 0 <= k < g.tensors@.len() ==> !#[trigger] undecodable(*g, k)
                &&& forall|k: nat| k < moe_blocks(*g) ==> !#[trigger] lacks_experts(*g, k)
            },
        },
{
    let is_llama = match g.architecture() {
        Some(a) => same_text(a, "llama"),
        None => false,
    };
    if !is_llama {
        return Loadable::Architecture;
    }
    let mut i: usize = 0;
    while i < g.tensors.len()
        invariant
            i <= g.tensors@.len(),
            g.arch() == Some("llama"@),
            forall|k: int| 0 <= k < i ==> !#[trigger] undecodable(*g, k),
        decreases g.tensors@.len() - i,
    {
        if !quant::is_supported(g.tensors[i].ggml_type) {
            assert(undecodable(*g, i as int));
            return Loadable::TensorType(i);
        }
        assert(!undecodable(*g, i as int));
        i += 1;
    }
    let blocks: u64 = match (g.expert_count(), g.arch_u64("block_count")) {
        (Some(ne), Some(nl)) => if ne > 0 {
            nl
        } else {
            0
        },
        _ => 0,
    };
    let mut l: u64 = 0;
    while l < blocks
        invariant
            l <= blocks == moe_blocks(*g),
            g.arch() == Some("llama"@),
            forall|k: int| 0 <= k < g.tensors@.len() ==> !#[trigger] undecodable(*g, k),
            forall|k: nat| k < l ==> !#[trigger] lacks_experts(*g, k),
        decreases blocks - l,
    {
        let stacked = g.tensor(block_tensor_name(l, "ffn_gate_exps").as_str()).is_some();
        let split = g.tensor(expert_tensor_name(l, "ffn_gate", 0).as_str()).is_some();
        if !stacked && !split {
            assert(lacks_experts(*g, l as nat));
            return Loadable::Experts(l);
        }
        assert(!lacks_experts(*g, l as nat));
        l += 1;
    }
    Loadable::Yes
}

} // verus!
