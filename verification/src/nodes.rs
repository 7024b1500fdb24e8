//! The fixed library of node kinds: type signatures checked when a workflow
//! is composed, the descriptor registry, and the plain-data part of the
//! standard nodes.

use vstd::prelude::*;
use crate::capability::{Capability, ResourceRequirements, caps_view, CapabilityView};
use crate::error::{KernelError, KernelResult};
use crate::hash::{hash_json_text, not_json_msg};
use crate::node::NodeOutput;
use crate::outside::{
    canonical_json, hex_lower, json_quote, json_reserialize, json_reserialized, json_string_literal, sha256_digest,
};
use crate::text::{str_eq, str_find, str_find_char, str_rfind_char, find_seq_from, find_char_from, rfind_char_before, occurs_at};

verus! {

/// Shape of the values a node consumes or produces.
#[derive(Debug)]
#[non_exhaustive]
pub enum TypeSig {
    Number,
    String,
    Bytes,
    Boolean,
    /// Any JSON value.
    Json,
    Array(Box<TypeSig>),
    Object,
}

impl TypeSig {
    /// Structural equality of signatures.
    pub fn same_as(&self, other: &TypeSig) -> (r: bool)
        ensures
            r == (*self == *other),
        decreases self,
    {
        match (self, other) {
            (TypeSig::Number, TypeSig::Number) => true,
            (TypeSig::String, TypeSig::String) => true,
            (TypeSig::Bytes, TypeSig::Bytes) => true,
            (TypeSig::Boolean, TypeSig::Boolean) => true,
            (TypeSig::Json, TypeSig::Json) => true,
            (TypeSig::Object, TypeSig::Object) => true,
            (TypeSig::Array(a), TypeSig::Array(b)) => (**a).same_as(&**b),
            _ => false,
        }
    }

    /// A copy of the signature.
    pub fn duplicate(&self) -> (r: TypeSig)
        ensures
            r == *self,
        decreases self,
    {
        match self {
            TypeSig::Number => TypeSig::Number,
            TypeSig::String => TypeSig::String,
            TypeSig::Bytes => TypeSig::Bytes,
            TypeSig::Boolean => TypeSig::Boolean,
            TypeSig::Json => TypeSig::Json,
            TypeSig::Object => TypeSig::Object,
            TypeSig::Array(a) => TypeSig::Array(Box::new((**a).duplicate())),
        }
    }

    /// The signature as written by its `Debug` form, such as `Array(Number)`.
    pub open spec fn debug_text(self) -> Seq<char>
        decreases self,
    {
        match self {
            TypeSig::Number => "Number"@,
            TypeSig::String => "String"@,
            TypeSig::Bytes => "Bytes"@,
            TypeSig::Boolean => "Boolean"@,
            TypeSig::Json => "Json"@,
            TypeSig::Object => "Object"@,
            TypeSig::Array(a) => "Array("@ + (*a).debug_text() + ")"@,
        }
    }

    /// The `Debug` form of the signature.
    pub fn debug_string(&self) -> (r: String)
        ensures
            r@ == self.debug_text(),
        decreases self,
    {
        match self {
            TypeSig::Number => String::from_str("Number"),
            TypeSig::String => String::from_str("String"),
            TypeSig::Bytes => String::from_str("Bytes"),
            TypeSig::Boolean => String::from_str("Boolean"),
            TypeSig::Json => String::from_str("Json"),
            TypeSig::Object => String::from_str("Object"),
            TypeSig::Array(a) => {
                let mut s = String::from_str("Array(");
                let inner = (**a).debug_string();
                s.append(inner.as_str());
                s.append(")");
                s
            },
        }
    }
}

/// A value of shape `from` may flow where `to` is expected: `Json` accepts
/// and provides anything, otherwise the shapes must be equal.
pub open spec fn spec_assignable(from: TypeSig, to: TypeSig) -> bool {
    from is Json || to is Json || from == to
}

pub fn assignable(from: &TypeSig, to: &TypeSig) -> (r: bool)
    ensures
        r == spec_assignable(*from, *to),
        r <==> (*from is Json || *to is Json || *from == *to),
{
    match (from, to) {
        (TypeSig::Json, _) | (_, TypeSig::Json) => true,
        _ => from.same_as(to),
    }
}

/// Wiring is checked strictly: apart from `Json`, which takes and gives
/// anything, a value of one shape may flow only where exactly that shape is
/// expected; and `Json` on either side always may.
pub proof fn lemma_assignable_strict(from: TypeSig, to: TypeSig)
    ensures
        !(from is Json) && !(to is Json) ==> (spec_assignable(from, to) <==> from == to),
        from is Json || to is Json ==> spec_assignable(from, to),
{
}

/// The character view of a static string.
pub open spec fn static_str_view() -> spec_fn(&'static str) -> Seq<char> {
    |k: &'static str| k@
}

/// Static description of a node kind.
pub struct NodeDescriptor {
    pub kind: &'static str,
    pub doc: &'static str,
    pub input: TypeSig,
    pub output: TypeSig,
    pub requirements: ResourceRequirements,
}

/// The message of a wiring type error.
pub open spec fn mismatch_msg(producer: Seq<char>, out: TypeSig, consumer: Seq<char>, inp: TypeSig) -> Seq<char> {
    "type mismatch: "@ + producer + ": "@ + out.debug_text() + " \u{2192} "@ + consumer + ": "@ + inp.debug_text()
}

fn mismatch_message(producer: &str, out: &TypeSig, consumer: &str, inp: &TypeSig) -> (r: String)
    ensures
        r@ == mismatch_msg(producer@, *out, consumer@, *inp),
{
    let mut s = String::from_str("type mismatch: ");
    s.append(producer);
    s.append(": ");
    let o = out.debug_string();
    s.append(o.as_str());
    s.append(" \u{2192} ");
    s.append(consumer);
    s.append(": ");
    let i = inp.debug_string();
    s.append(i.as_str());
    s
}

/// The descriptor asks for no CPU, RAM or VRAM.
pub open spec fn no_numeric_requirements(d: NodeDescriptor) -> bool {
    d.requirements.cpu_cores == 0 && d.requirements.ram_mb == 0 && d.requirements.gpu_vram_mb == 0
}

/// The descriptor asks for nothing: no resources and no capabilities.
pub open spec fn no_requirements(d: NodeDescriptor) -> bool {
    no_numeric_requirements(d) && d.requirements.capabilities@.len() == 0
}

/// The descriptor registry: at most one descriptor per kind.
pub struct NodeRegistry {
    descriptors: Vec<NodeDescriptor>,
}

impl NodeRegistry {
    /// Registered descriptors, in registration order.
    pub closed spec fn descriptors(&self) -> Seq<NodeDescriptor> {
        self.descriptors@
    }

    /// Registered kinds, in registration order.
    pub open spec fn kinds_view(&self) -> Seq<Seq<char>> {
        self.descriptors().map_values(|d: NodeDescriptor| d.kind@)
    }

    #[verifier::type_invariant]
    closed spec fn inv(&self) -> bool {
        self.kinds_view().no_duplicates()
    }

    /// Is `kind` registered?
    pub open spec fn has(&self, kind: Seq<char>) -> bool {
        self.kinds_view().contains(kind)
    }

    /// The descriptor of `kind` (meaningful when `self.has(kind)`).
    pub open spec fn get(&self, kind: Seq<char>) -> NodeDescriptor {
        self.descriptors()[self.kinds_view().index_of(kind)]
    }

    pub fn new() -> (r: Self)
        ensures
            r.descriptors().len() == 0,
    {
        let r = NodeRegistry { descriptors: Vec::new() };
        assert(r.kinds_view() =~= Seq::<Seq<char>>::empty());
        r
    }

    fn position(&self, kind: &str) -> (r: Option<usize>)
        ensures
            match r {
                Some(i) => i < self.descriptors().len() && self.kinds_view()[i as int] == kind@
                    && self.kinds_view().index_of(kind@) == i,
                None => !self.has(kind@),
            },
    {
        proof { use_type_invariant(self); }
        let mut i: usize = 0;
        while i < self.descriptors.len()
            invariant
                i <= self.descriptors@.len(),
                self.kinds_view().no_duplicates(),
                forall|t: int| 0 <= t < i ==> self.kinds_view()[t] != kind@,
            decreases self.descriptors@.len() - i,
        {
            if str_eq(self.descriptors[i].kind, kind) {
                proof {
                    crate::nodemap::lemma_index_of(self.kinds_view(), kind@, i as int);
                }
                return Some(i);
            }
            i = i + 1;
        }
        None
    }

    /// Register `desc`, replacing the descriptor of the same kind.
    pub fn register(&mut self, desc: NodeDescriptor)
        ensures
            final(self).has(desc.kind@),
            final(self).get(desc.kind@) == desc,
            !old(self).has(desc.kind@) ==> final(self).kinds_view() == old(self).kinds_view().push(desc.kind@),
            old(self).has(desc.kind@) ==> final(self).kinds_view() == old(self).kinds_view(),
            forall|k: Seq<char>| k != desc.kind@ ==> (#[trigger] final(self).has(k) == old(self).has(k)),
            forall|k: Seq<char>| k != desc.kind@ && old(self).has(k) ==> #[trigger] final(self).get(k) == old(self).get(k),
    {
        proof { use_type_invariant(&*self); }
        let ghost old_ds = self.descriptors@;
        let ghost old_ks = self.kinds_view();
        let ghost dv = desc;
        let p = self.position(desc.kind);
        let mut ds: Vec<NodeDescriptor> = Vec::new();
        std::mem::swap(&mut ds, &mut self.descriptors);
        match p {
            Some(i) => {
                ds.set(i, desc);
                proof {
                    assert(ds@.map_values(|d: NodeDescriptor| d.kind@) =~= old_ks);
                }
            },
            None => {
                ds.push(desc);
                proof {
                    assert(ds@.map_values(|d: NodeDescriptor| d.kind@) =~= old_ks.push(dv.kind@));
                }
            },
        }
        self.descriptors = ds;
        proof {
            let ks = self.kinds_view();
            let i = match p { Some(i) => i as int, None => old_ds.len() as int };
            assert(ks[i] == dv.kind@);
            assert(ks.contains(dv.kind@));
            crate::nodemap::lemma_index_of(ks, dv.kind@, i);
            assert forall|k: Seq<char>| k != dv.kind@ implies (#[trigger] self.has(k) == old_ks.contains(k)) by {
                if old_ks.contains(k) {
                    let t = choose|t: int| 0 <= t < old_ks.len() && old_ks[t] == k;
                    assert(ks[t] == k);
                }
                if ks.contains(k) {
                    let t = choose|t: int| 0 <= t < ks.len() && ks[t] == k;
                    assert(t != i);
                    assert(old_ks[t] == k);
                }
            }
            assert forall|k: Seq<char>| k != dv.kind@ && old_ks.contains(k) implies #[trigger] self.get(k) == old_ds[old_ks.index_of(k)] by {
                let t = choose|t: int| 0 <= t < old_ks.len() && old_ks[t] == k;
                crate::nodemap::lemma_index_of(old_ks, k, t);
                assert(ks[t] == k);
                crate::nodemap::lemma_index_of(ks, k, t);
            }
        }
    }

    /// The descriptor of `kind`, if registered.
    pub fn describe(&self, kind: &str) -> (r: Option<&NodeDescriptor>)
        ensures
            match r {
                Some(d) => self.has(kind@) && *d == self.get(kind@),
                None => !self.has(kind@),
            },
    {
        match self.position(kind) {
            Some(i) => Some(&self.descriptors[i]),
            None => None,
        }
    }

    /// The registered kinds, in registration order.
    pub fn kinds(&self) -> (r: Vec<&'static str>)
        ensures
            r@.map_values(static_str_view()) == self.kinds_view(),
    {
        let mut r: Vec<&'static str> = Vec::new();
        let mut i: usize = 0;
        while i < self.descriptors.len()
            invariant
                i <= self.descriptors@.len(),
                r@.len() == i,
                r@.map_values(static_str_view()) == self.kinds_view().take(i as int),
            decreases self.descriptors@.len() - i,
        {
            let ghost before = r@;
            r.push(self.descriptors[i].kind);
            proof {
                assert(r@[i as int] == self.descriptors()[i as int].kind);
                assert(before.map_values(static_str_view()) =~= self.kinds_view().take(i as int));
                assert forall|t: int| 0 <= t < i + 1 implies r@.map_values(static_str_view())[t] == #[trigger] self.kinds_view().take(i + 1)[t] by {
                    if t < i {
                        assert(r@[t] == before[t]);
                        assert(before.map_values(static_str_view())[t] == self.kinds_view().take(i as int)[t]);
                    }
                }
                assert(r@.map_values(static_str_view()) =~= self.kinds_view().take(i + 1));
            }
            i = i + 1;
        }
        assert(self.kinds_view().take(i as int) =~= self.kinds_view());
        r
    }

    /// Check at composition time that what `producer_kind` outputs may flow
    /// into what `consumer_kind` takes.
    pub fn validate_edge(&self, producer_kind: &str, consumer_kind: &str) -> (r: KernelResult<()>)
        ensures
            !self.has(producer_kind@) ==> (r matches Err(KernelError::NodeNotFound(m)) && m@ == producer_kind@),
            self.has(producer_kind@) && !self.has(consumer_kind@) ==> (r matches Err(KernelError::NodeNotFound(m)) && m@ == consumer_kind@),
            self.has(producer_kind@) && self.has(consumer_kind@) ==> {
                let out = self.get(producer_kind@).output;
                let inp = self.get(consumer_kind@).input;
                &&& (r is Ok <==> spec_assignable(out, inp))
                &&& r is Err ==> (r matches Err(KernelError::InvalidInput(m)) && m@ == mismatch_msg(producer_kind@, out, consumer_kind@, inp))
            },
    {
        let p = match self.describe(producer_kind) {
            Some(p) => p,
            None => return Err(KernelError::NodeNotFound(String::from_str(producer_kind))),
        };
        let c = match self.describe(consumer_kind) {
            Some(c) => c,
            None => return Err(KernelError::NodeNotFound(String::from_str(consumer_kind))),
        };
        if !assignable(&p.output, &c.input) {
            return Err(KernelError::InvalidInput(mismatch_message(producer_kind, &p.output, consumer_kind, &c.input)));
        }
        Ok(())
    }

    /// The registry pre-loaded with the standard library: `constant`,
    /// `sha256`, `http_fetch`, `median` and `threshold`.
    pub fn with_stdlib() -> (r: Self)
        ensures
            r.kinds_view() == seq!["constant"@, "sha256"@, "http_fetch"@, "median"@, "threshold"@],
            r.get("constant"@).input == TypeSig::Json && r.get("constant"@).output == TypeSig::Json,
            r.get("sha256"@).input == TypeSig::Json && r.get("sha256"@).output == TypeSig::String,
            r.get("http_fetch"@).input == TypeSig::Json && r.get("http_fetch"@).output == TypeSig::Json,
            r.get("median"@).input == TypeSig::Number && r.get("median"@).output == TypeSig::Number,
            r.get("threshold"@).input == TypeSig::Number && r.get("threshold"@).output == TypeSig::Object,
            caps_view(r.get("http_fetch"@).requirements.capabilities@) == seq![CapabilityView::HttpEgress],
            no_numeric_requirements(r.get("http_fetch"@)),
            no_requirements(r.get("constant"@)),
            no_requirements(r.get("sha256"@)),
            no_requirements(r.get("median"@)),
            no_requirements(r.get("threshold"@)),
    {
        proof {
            reveal_strlit("constant");
            reveal_strlit("sha256");
            reveal_strlit("http_fetch");
            reveal_strlit("median");
            reveal_strlit("threshold");
        }
        let mut r = Self::new();
        assert(r.kinds_view() =~= Seq::<Seq<char>>::empty());
        let ghost k0 = Seq::<Seq<char>>::empty();
        let ghost k1 = k0.push("constant"@);
        let ghost k2 = k1.push("sha256"@);
        let ghost k3 = k2.push("http_fetch"@);
        let ghost k4 = k3.push("median"@);
        let ghost k5 = k4.push("threshold"@);
        r.register(ConstantNode::descriptor());
        assert(r.kinds_view() == k1);
        proof { lemma_stdlib_kinds_distinct(); }
        assert(!k1.contains("sha256"@));
        r.register(Sha256Node::descriptor());
        assert(r.kinds_view() == k2);
        assert(!k2.contains("http_fetch"@));
        r.register(HttpFetchNode::descriptor());
        assert(r.kinds_view() == k3);
        assert(!k3.contains("median"@));
        r.register(MedianNode::descriptor());
        assert(r.kinds_view() == k4);
        assert(!k4.contains("threshold"@));
        r.register(threshold_descriptor());
        assert(r.kinds_view() == k5);
        assert(k5 =~= seq!["constant"@, "sha256"@, "http_fetch"@, "median"@, "threshold"@]);
        r
    }
}

proof fn lemma_stdlib_kinds_distinct()
    ensures
        "constant"@ != "sha256"@,
        "constant"@ != "http_fetch"@,
        "constant"@ != "median"@,
        "constant"@ != "threshold"@,
        "sha256"@ != "http_fetch"@,
        "sha256"@ != "median"@,
        "sha256"@ != "threshold"@,
        "http_fetch"@ != "median"@,
        "http_fetch"@ != "threshold"@,
        "median"@ != "threshold"@,
{
    reveal_strlit("constant");
    reveal_strlit("sha256");
    reveal_strlit("http_fetch");
    reveal_strlit("median");
    reveal_strlit("threshold");
    assert("constant"@.len() == 8);
    assert("sha256"@.len() == 6);
    assert("http_fetch"@.len() == 10);
    assert("median"@.len() == 6);
    assert("threshold"@.len() == 9);
    assert("sha256"@[0] != "median"@[0]);
}

/// Emits a fixed JSON value.
pub struct ConstantNode {
    /// The value (JSON text).
    pub value: String,
}

impl ConstantNode {
    pub fn new(value: String) -> (r: Self)
        ensures
            r.value == value,
    {
        ConstantNode { value }
    }

    /// What the node emits: its value, for one unit of gas.
    pub fn output(&self) -> (r: NodeOutput)
        ensures
            r.value@ == self.value@,
            r.gas_used == 1,
    {
        NodeOutput { value: self.value.clone(), gas_used: 1 }
    }

    pub fn descriptor() -> (r: NodeDescriptor)
        ensures
            r.kind@ == "constant"@,
            r.input == TypeSig::Json,
            r.output == TypeSig::Json,
            r.requirements.capabilities@.len() == 0,
            no_numeric_requirements(r),
    {
        NodeDescriptor {
            kind: "constant",
            doc: "Emits a fixed JSON value.",
            input: TypeSig::Json,
            output: TypeSig::Json,
            requirements: ResourceRequirements::default(),
        }
    }
}

/// SHA-256 over the canonical JSON of the input.
pub struct Sha256Node;

impl Sha256Node {
    /// What the node emits for `payload` (JSON text): the hex SHA-256 of its
    /// canonical JSON, as a JSON string, for five units of gas; a `Serde`
    /// error when the payload is not JSON.
    pub fn output_of(&self, payload: &str) -> (r: KernelResult<NodeOutput>)
        ensures
            match canonical_json(payload@) {
                Some(b) => r matches Ok(o) && o.value@ == json_string_literal(hex_lower(sha256_digest(b))) && o.gas_used == 5,
                None => r matches Err(KernelError::Serde(m)) && m@ == not_json_msg(),
            },
    {
        let h = hash_json_text(payload)?;
        Ok(NodeOutput { value: json_quote(h.as_str()), gas_used: 5 })
    }

    pub fn descriptor() -> (r: NodeDescriptor)
        ensures
            r.kind@ == "sha256"@,
            r.input == TypeSig::Json,
            r.output == TypeSig::String,
            r.requirements.capabilities@.len() == 0,
            no_numeric_requirements(r),
    {
        NodeDescriptor {
            kind: "sha256",
            doc: "SHA-256 of canonical-JSON input. Output: hex string.",
            input: TypeSig::Json,
            output: TypeSig::String,
            requirements: ResourceRequirements::default(),
        }
    }
}

/// Median of all numeric parent outputs.
pub struct MedianNode;

impl MedianNode {
    pub fn descriptor() -> (r: NodeDescriptor)
        ensures
            r.kind@ == "median"@,
            r.input == TypeSig::Number,
            r.output == TypeSig::Number,
            r.requirements.capabilities@.len() == 0,
            no_numeric_requirements(r),
    {
        NodeDescriptor {
            kind: "median",
            doc: "Median of all numeric parent outputs.",
            input: TypeSig::Number,
            output: TypeSig::Number,
            requirements: ResourceRequirements::default(),
        }
    }
}

/// Descriptor of the `threshold` kind, which compares a numeric input with a
/// threshold and outputs `{ "ok": bool, "value": n }`.
pub fn threshold_descriptor() -> (r: NodeDescriptor)
    ensures
        r.kind@ == "threshold"@,
        r.input == TypeSig::Number,
        r.output == TypeSig::Object,
        r.requirements.capabilities@.len() == 0,
        no_numeric_requirements(r),
{
    NodeDescriptor {
        kind: "threshold",
        doc: "Compares numeric input vs threshold. Args: { threshold, op: gt|gte|lt|lte|eq }",
        input: TypeSig::Number,
        output: TypeSig::Object,
        requirements: ResourceRequirements::default(),
    }
}

/// Capability-scoped HTTP fetch with a timeout and a host allowlist.
pub struct HttpFetchNode {
    pub url: String,
    pub allowlist: Vec<String>,
    /// Request timeout in milliseconds.
    pub timeout: u64,
}

/// The URL without its scheme and `://` (the whole URL when it has none).
pub open spec fn url_after_scheme(url: Seq<char>) -> Seq<char> {
    let k = find_seq_from(url, "://"@, 0);
    if k >= 0 {
        url.subrange(k + "://"@.len(), url.len() as int)
    } else {
        url
    }
}

/// `c` ends a URL's authority.
pub open spec fn ends_authority(c: char) -> bool {
    c == '/' || c == '?' || c == '#'
}

/// First position at or after `i` that ends the authority, or the length.
pub open spec fn authority_end_from(s: Seq<char>, i: int) -> int
    decreases s.len() - i,
{
    if i < 0 || i >= s.len() {
        s.len() as int
    } else if ends_authority(s[i]) {
        i
    } else {
        authority_end_from(s, i + 1)
    }
}

/// The authority of a URL: what follows the scheme, up to the path, query
/// or fragment.
pub open spec fn url_authority(url: Seq<char>) -> Seq<char> {
    let r = url_after_scheme(url);
    r.subrange(0, authority_end_from(r, 0))
}

/// The host of a URL: its authority without user information (up to the
/// last `@`) and without port; a bracketed IPv6 literal is kept whole.
pub open spec fn url_host(url: Seq<char>) -> Seq<char> {
    let a = url_authority(url);
    let hp = a.subrange(rfind_char_before(a, '@', a.len() as int) + 1, a.len() as int);
    if hp.len() > 0 && hp[0] == '[' {
        let e = find_char_from(hp, ']', 0);
        if e < hp.len() { hp.subrange(0, e + 1) } else { hp }
    } else {
        hp.subrange(0, find_char_from(hp, ':', 0))
    }
}

proof fn lemma_find_seq_at(s: Seq<char>, pat: Seq<char>, i: int, m: int)
    requires
        0 <= i <= m,
        occurs_at(s, pat, m),
        forall|k: int| i <= k < m ==> !occurs_at(s, pat, k),
    ensures
        find_seq_from(s, pat, i) == m,
    decreases m - i,
{
    if i < m {
        lemma_find_seq_at(s, pat, i + 1, m);
    }
}

proof fn lemma_authority_end_at(s: Seq<char>, i: int, m: int)
    requires
        0 <= i <= m <= s.len(),
        forall|k: int| i <= k < m ==> !ends_authority(s[k]),
        m == s.len() || ends_authority(s[m]),
    ensures
        authority_end_from(s, i) == m,
    decreases m - i,
{
    if i < m {
        lemma_authority_end_at(s, i + 1, m);
    }
}

proof fn lemma_rfind_none(s: Seq<char>, c: char, i: int)
    requires
        0 <= i <= s.len(),
        forall|k: int| 0 <= k < i ==> s[k] != c,
    ensures
        rfind_char_before(s, c, i) == -1,
    decreases i,
{
    if i > 0 {
        lemma_rfind_none(s, c, i - 1);
    }
}

proof fn lemma_find_char_none(s: Seq<char>, c: char, i: int)
    requires
        0 <= i <= s.len(),
        forall|k: int| i <= k < s.len() ==> s[k] != c,
    ensures
        find_char_from(s, c, i) == s.len(),
    decreases s.len() - i,
{
    if i < s.len() {
        lemma_find_char_none(s, c, i + 1);
    }
}

/// The host of a plain URL: for a scheme without `:`, a host name without
/// `/`, `?`, `#`, `@` or `:` (and not a bracketed literal), and a rest that is
/// empty or starts a path, query or fragment, the host of
/// `scheme://host rest` is exactly that host name.
pub proof fn lemma_host_of_plain_url(scheme: Seq<char>, h: Seq<char>, rest: Seq<char>)
    requires
        forall|k: int| 0 <= k < scheme.len() ==> scheme[k] != ':',
        forall|k: int| 0 <= k < h.len() ==> h[k] != '/' && h[k] != '?' && h[k] != '#' && h[k] != '@' && h[k] != ':',
        h.len() == 0 || h[0] != '[',
        rest.len() == 0 || rest[0] == '/' || rest[0] == '?' || rest[0] == '#',
    ensures
        url_host(scheme + "://"@ + h + rest) == h,
{
    reveal_strlit("://");
    let sep = "://"@;
    let url = scheme + sep + h + rest;
    let m = scheme.len() as int;
    assert(url.subrange(m, m + 3) =~= sep);
    assert forall|k: int| 0 <= k < m implies !occurs_at(url, sep, k) by {
        assert(url[k] == scheme[k]);
        if occurs_at(url, sep, k) {
            assert(url.subrange(k, k + 3)[0] == sep[0]);
        }
    }
    lemma_find_seq_at(url, sep, 0, m);
    let r = url.subrange(m + 3, url.len() as int);
    assert(r =~= h + rest);
    assert(url_after_scheme(url) == r);
    assert forall|k: int| 0 <= k < h.len() implies !ends_authority(r[k]) by {
        assert(r[k] == h[k]);
    }
    if rest.len() > 0 {
        assert(r[h.len() as int] == rest[0]);
    }
    lemma_authority_end_at(r, 0, h.len() as int);
    let a = r.subrange(0, h.len() as int);
    assert(a =~= h);
    assert(url_authority(url) == h);
    lemma_rfind_none(h, '@', h.len() as int);
    assert(h.subrange(0, h.len() as int) =~= h);
    lemma_find_char_none(h, ':', 0);
}

/// A URL whose host is on the allowlist may be fetched.
pub proof fn lemma_listed_host_allowed(allowlist: Seq<String>, scheme: Seq<char>, h: Seq<char>, rest: Seq<char>, i: int)
    requires
        0 <= i < allowlist.len(),
        allowlist[i]@ == h,
        forall|k: int| 0 <= k < scheme.len() ==> scheme[k] != ':',
        forall|k: int| 0 <= k < h.len() ==> h[k] != '/' && h[k] != '?' && h[k] != '#' && h[k] != '@' && h[k] != ':',
        h.len() == 0 || h[0] != '[',
        rest.len() == 0 || rest[0] == '/' || rest[0] == '?' || rest[0] == '#',
    ensures
        spec_allowed(allowlist, scheme + "://"@ + h + rest),
{
    lemma_host_of_plain_url(scheme, h, rest);
}

/// `url` may be fetched: the allowlist is empty, or the URL's host is one of
/// its entries.
pub open spec fn spec_allowed(allowlist: Seq<String>, url: Seq<char>) -> bool {
    allowlist.len() == 0 || exists|i: int| 0 <= i < allowlist.len() && #[trigger] allowlist[i]@ == url_host(url)
}

/// Position in `s` where the authority ends (see [`authority_end_from`]).
fn authority_end(s: &str) -> (r: usize)
    ensures
        r == authority_end_from(s@, 0),
        r <= s@.len(),
{
    let n = s.unicode_len();
    let mut i: usize = 0;
    while i < n
        invariant
            n == s@.len(),
            i <= n,
            authority_end_from(s@, 0) == authority_end_from(s@, i as int),
        decreases n - i,
    {
        let c = s.get_char(i);
        if c == '/' || c == '?' || c == '#' {
            return i;
        }
        i = i + 1;
    }
    i
}

/// The host of `url` (see [`url_host`]).
pub fn url_host_of(url: &str) -> (r: &str)
    ensures
        r@ == url_host(url@),
{
    proof {
        reveal_strlit("://");
    }
    let n = url.unicode_len();
    let rest = match str_find(url, "://") {
        Some(k) => url.substring_char(k + 3, n),
        None => url,
    };
    proof {
        assert(rest@ == url_after_scheme(url@));
    }
    let d = authority_end(rest);
    let auth = rest.substring_char(0, d);
    let an = auth.unicode_len();
    let hp = match str_rfind_char(auth, '@') {
        Some(j) => auth.substring_char(j + 1, an),
        None => auth.substring_char(0, an),
    };
    proof {
        assert(auth@.subrange(0, an as int) =~= auth@);
        assert(auth@ == url_authority(url@));
        assert(hp@ == auth@.subrange(rfind_char_before(auth@, '@', an as int) + 1, an as int));
    }
    let hn = hp.unicode_len();
    if hn > 0 && hp.get_char(0) == '[' {
        let e = str_find_char(hp, ']');
        if e < hn {
            hp.substring_char(0, e + 1)
        } else {
            hp
        }
    } else {
        let e = str_find_char(hp, ':');
        hp.substring_char(0, e)
    }
}

impl HttpFetchNode {
    /// A fetch of `url` restricted to `allowlist`, with a ten-second timeout.
    pub fn new(url: &str, allowlist: Vec<String>) -> (r: Self)
        ensures
            r.url@ == url@,
            r.allowlist == allowlist,
            r.timeout == 10_000,
    {
        HttpFetchNode { url: String::from_str(url), allowlist, timeout: 10_000 }
    }

    /// May `url` be fetched under this node's allowlist: is the allowlist
    /// empty, or the URL's host one of its entries?
    pub fn allowed(&self, url: &str) -> (r: bool)
        ensures
            r == spec_allowed(self.allowlist@, url@),
    {
        if self.allowlist.len() == 0 {
            return true;
        }
        let host = url_host_of(url);
        let mut i: usize = 0;
        while i < self.allowlist.len()
            invariant
                i <= self.allowlist@.len(),
                host@ == url_host(url@),
                forall|k: int| 0 <= k < i ==> #[trigger] self.allowlist@[k]@ != host@,
            decreases self.allowlist@.len() - i,
        {
            if str_eq(self.allowlist[i].as_str(), host) {
                return true;
            }
            i = i + 1;
        }
        false
    }

    /// The egress check made before fetching: `InvalidInput` naming the URL
    /// when it is not allowed.
    pub fn check_allowed(&self) -> (r: KernelResult<()>)
        ensures
            r is Ok <==> spec_allowed(self.allowlist@, self.url@),
            r is Err ==> (r matches Err(KernelError::InvalidInput(m)) && m@ == "host not in allowlist: "@ + self.url@),
    {
        if !self.allowed(self.url.as_str()) {
            let mut m = String::from_str("host not in allowlist: ");
            m.append(self.url.as_str());
            return Err(KernelError::InvalidInput(m));
        }
        Ok(())
    }

    /// What the node emits for a fetched `body`: the body's JSON value when
    /// it is JSON, else the body as a JSON string, for fifty units of gas.
    pub fn output_of_body(&self, body: &str) -> (r: NodeOutput)
        ensures
            r.gas_used == 50,
            r.value@ == match json_reserialized(body@) {
                Some(t) => t,
                None => json_string_literal(body@),
            },
    {
        let value = match json_reserialize(body) {
            Some(t) => t,
            None => json_quote(body),
        };
        NodeOutput { value, gas_used: 50 }
    }

    pub fn descriptor() -> (r: NodeDescriptor)
        ensures
            r.kind@ == "http_fetch"@,
            r.input == TypeSig::Json,
            r.output == TypeSig::Json,
            caps_view(r.requirements.capabilities@) == seq![CapabilityView::HttpEgress],
            no_numeric_requirements(r),
    {
        let mut caps: Vec<Capability> = Vec::new();
        caps.push(Capability::HttpEgress);
        let d = NodeDescriptor {
            kind: "http_fetch",
            doc: "Fetch a URL via the controlled egress path. Args: { url, allowlist? }",
            input: TypeSig::Json,
            output: TypeSig::Json,
            requirements: ResourceRequirements { cpu_cores: 0, ram_mb: 0, gpu_vram_mb: 0, capabilities: caps },
        };
        assert(caps_view(d.requirements.capabilities@) =~= seq![CapabilityView::HttpEgress]);
        d
    }
}

} // verus!
