//! Deterministic SHA-256 hashes used for content-addressed outputs and
//! attestations.

use vstd::prelude::*;
use crate::error::{KernelError, KernelResult};
use crate::nodemap::NodeMap;
use crate::text::occurs_at;
use crate::outside::{
    canonical_json, canonical_json_bytes, hex_encode, hex_lower, json_quote, json_string_literal,
    lemma_hex_len, sha256, sha256_digest,
};

verus! {

/// The lower-case hex SHA-256 of canonical JSON (the bytes of a JSON value
/// serialized with object keys in ascending order). Equal canonical bytes give
/// equal hashes, so distributed nodes produce identical attestations.
pub fn hash_json(canonical: &[u8]) -> (r: String)
    ensures
        r@ == hex_lower(sha256_digest(canonical@)),
        r@.len() == 64,
{
    let digest = sha256(canonical);
    let r = hex_encode(digest.as_slice());
    proof {
        lemma_hex_len(digest@);
    }
    r
}

/// The message of the error given for text that is not JSON.
pub open spec fn not_json_msg() -> Seq<char> {
    "value is not valid JSON"@
}

/// The hash of the JSON value written in `text`: the SHA-256 of its
/// canonical serialization (keys sorted at every depth), in lower-case hex;
/// a `Serde` error when `text` is not JSON.
pub fn hash_json_text(text: &str) -> (r: KernelResult<String>)
    ensures
        match canonical_json(text@) {
            Some(b) => r matches Ok(h) && h@ == hex_lower(sha256_digest(b)) && h@.len() == 64,
            None => r matches Err(KernelError::Serde(m)) && m@ == not_json_msg(),
        },
{
    match canonical_json_bytes(text) {
        Some(b) => Ok(hash_json(b.as_slice())),
        None => Err(KernelError::Serde(String::from_str("value is not valid JSON"))),
    }
}

/// One member `"key":value` of a JSON object.
pub open spec fn json_member(key: Seq<char>, value: Seq<char>) -> Seq<char> {
    json_string_literal(key) + seq![':'] + value
}

/// The members for the first `n` entries, separated by commas.
pub open spec fn json_members(keys: Seq<Seq<char>>, values: Seq<String>, n: nat) -> Seq<char>
    decreases n,
{
    if n == 0 {
        Seq::empty()
    } else if n == 1 {
        json_member(keys[0], values[0]@)
    } else {
        json_members(keys, values, (n - 1) as nat) + seq![','] + json_member(keys[n - 1], values[n - 1]@)
    }
}

/// The JSON object text that maps each node id to its output (JSON text),
/// in ascending id order.
pub open spec fn outputs_object_text(outputs: &NodeMap<String>) -> Seq<char> {
    seq!['{'] + json_members(outputs.keys(), outputs.values(), outputs.keys().len()) + seq!['}']
}

/// The attestation hash of a run's outputs: the hash of the JSON object that
/// maps each node id to its output value; a `Serde` error when some output is
/// not JSON.
pub fn attestation_hash(outputs: &NodeMap<String>) -> (r: KernelResult<String>)
    ensures
        match canonical_json(outputs_object_text(outputs)) {
            Some(b) => r matches Ok(h) && h@ == hex_lower(sha256_digest(b)) && h@.len() == 64,
            None => r matches Err(KernelError::Serde(m)) && m@ == not_json_msg(),
        },
{
    proof {
        reveal_strlit("{");
        reveal_strlit("}");
        reveal_strlit(",");
        reveal_strlit(":");
    }
    outputs.facts();
    let n = outputs.len();
    let mut text = String::from_str("{");
    let mut i: usize = 0;
    while i < n
        invariant
            n == outputs.keys().len(),
            n == outputs.values().len(),
            i <= n,
            text@ == seq!['{'] + json_members(outputs.keys(), outputs.values(), i as nat),
        decreases n - i,
    {
        let ghost before = text@;
        proof {
            reveal_strlit(",");
            reveal_strlit(":");
        }
        if i > 0 {
            text.append(",");
        }
        let ghost mid = text@;
        let key = outputs.key_at(i);
        let k = json_quote(key.as_str());
        text.append(k.as_str());
        text.append(":");
        let v = outputs.value_at(i);
        text.append(v.as_str());
        proof {
            let member = json_member(outputs.keys()[i as int], outputs.values()[i as int]@);
            assert(k@ == json_string_literal(outputs.keys()[i as int]));
            assert(v@ == outputs.values()[i as int]@);
            assert(text@ =~= mid + member);
            if i == 0 {
                assert(mid =~= before);
            } else {
                assert(mid =~= before + seq![',']);
            }
            if i == 0 {
                assert(text@ =~= seq!['{'] + json_members(outputs.keys(), outputs.values(), 1));
            } else {
                assert(text@ =~= seq!['{'] + json_members(outputs.keys(), outputs.values(), (i + 1) as nat));
            }
        }
        i = i + 1;
    }
    text.append("}");
    assert(text@ =~= outputs_object_text(outputs));
    hash_json_text(text.as_str())
}

/// The members of the first `i` outputs begin the members of the first `n`.
proof fn lemma_members_prefix(keys: Seq<Seq<char>>, values: Seq<String>, i: nat, n: nat)
    requires
        i <= n,
    ensures
        json_members(keys, values, i).len() <= json_members(keys, values, n).len(),
        json_members(keys, values, n).subrange(0, json_members(keys, values, i).len() as int) == json_members(keys, values, i),
    decreases n,
{
    if i < n {
        lemma_members_prefix(keys, values, i, (n - 1) as nat);
        let a = json_members(keys, values, i);
        let b = json_members(keys, values, (n - 1) as nat);
        let c = json_members(keys, values, n);
        if n == 1 {
            assert(a.len() == 0);
            assert(c.subrange(0, 0) =~= a);
        } else {
            assert(c == b + seq![','] + json_member(keys[n - 1], values[n - 1]@));
            assert(c.subrange(0, a.len() as int) =~= b.subrange(0, a.len() as int));
        }
    } else {
        assert(json_members(keys, values, n).subrange(0, json_members(keys, values, n).len() as int) =~= json_members(keys, values, n));
    }
}

/// The member of output `i` ends the members of the first `i + 1` outputs.
proof fn lemma_member_last(keys: Seq<Seq<char>>, values: Seq<String>, i: nat)
    ensures
        ({
            let m = json_string_literal(keys[i as int]) + seq![':'] + values[i as int]@;
            let c = json_members(keys, values, i + 1);
            c.len() >= m.len() && occurs_at(c, m, c.len() - m.len())
        }),
{
    let m = json_string_literal(keys[i as int]) + seq![':'] + values[i as int]@;
    let c = json_members(keys, values, i + 1);
    if i == 0 {
        assert(c == json_member(keys[0], values[0]@));
        assert(c.subrange(0, m.len() as int) =~= m);
    } else {
        let b = json_members(keys, values, i);
        assert(c == b + seq![','] + json_member(keys[i as int], values[i as int]@));
        assert(c.subrange(c.len() - m.len(), c.len() as int) =~= m);
    }
}

/// The member `"id":output` of output `i` occurs in `text`.
pub open spec fn has_member(text: Seq<char>, id: Seq<char>, output: Seq<char>) -> bool {
    exists|p: int| occurs_at(text, json_string_literal(id) + seq![':'] + output, p)
}

/// The attested text is a JSON object with one member per output: it opens
/// with `{` and closes with `}`; it is `{}` when there are no outputs and
/// `{"id":output}` when there is one; and it holds the member
/// `"id":output` of every output.
pub proof fn lemma_outputs_object_shape(outputs: &NodeMap<String>)
    ensures
        outputs_object_text(outputs).len() >= 2,
        outputs_object_text(outputs)[0] == '{',
        outputs_object_text(outputs)[outputs_object_text(outputs).len() - 1] == '}',
        outputs.keys().len() == 0 ==> outputs_object_text(outputs) == seq!['{', '}'],
        outputs.keys().len() == 1 ==> outputs_object_text(outputs)
            == seq!['{'] + json_string_literal(outputs.keys()[0]) + seq![':'] + outputs.values()[0]@ + seq!['}'],
        forall|i: int| 0 <= i < outputs.keys().len() ==> #[trigger] has_member(outputs_object_text(outputs), outputs.keys()[i], outputs.values()[i]@),
{
    outputs.lemma_aligned();
    let keys = outputs.keys();
    let values = outputs.values();
    let n = keys.len();
    let t = outputs_object_text(outputs);
    let all = json_members(keys, values, n);
    assert(t == seq!['{'] + all + seq!['}']);
    if n == 0 {
        assert(t =~= seq!['{', '}']);
    }
    if n == 1 {
        assert(all == json_member(keys[0], values[0]@));
        assert(t =~= seq!['{'] + json_string_literal(keys[0]) + seq![':'] + values[0]@ + seq!['}']);
    }
    assert forall|i: int| 0 <= i < n implies #[trigger] has_member(t, keys[i], values[i]@) by {
        let m = json_string_literal(keys[i]) + seq![':'] + values[i]@;
        let c = json_members(keys, values, (i + 1) as nat);
        lemma_member_last(keys, values, i as nat);
        lemma_members_prefix(keys, values, (i + 1) as nat, n);
        let p = c.len() - m.len();
        assert(all.subrange(0, c.len() as int) == c);
        assert(t.subrange(1 + p, 1 + p + m.len()) =~= c.subrange(p, p + m.len()));
        assert(c.subrange(p, p + m.len()) == m);
        assert(occurs_at(t, m, 1 + p));
    }
}

} // verus!
