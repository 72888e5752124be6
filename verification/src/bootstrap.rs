//! The bootstrap document: a TOML tree of groups and shards.
//!
//! A table is a shard exactly when it carries a string field `id`; any
//! other table is a group whose subtables are walked in turn.  A shard's
//! remaining fields become the `(shard.id, field)` entries of the store;
//! its `id`, hex-decoded, becomes a known client key of the keyring.
//! The TOML text itself is parsed by the `toml` crate; everything after
//! that parse is verified against the tree it returned.

use vstd::prelude::*;

use crate::coffer::{
    store_lookup, CofferError, CofferKey, CofferMap, CofferValue, StoreView, ValueView,
};
use crate::hexstr::{hex_decode, hex_encode, spec_hex_decode, spec_hex_lower, valid_hex};
use crate::keyring::{Keyring, KeyringError};
use crate::certificate::KEY_LEN;
use crate::wire::bytes_eq;
use vstd::string::StringSliceAdditionalSpecFns;

verus! {

/// A TOML value reduced to the shapes the bootstrap format can use.
///
/// Floats carry the raw bits of the double-precision number the parser
/// yields; the loader narrows them to the single precision the format
/// prescribes.  A datetime or an array, which the format rejects, is
/// kept as `Other`.
pub enum TomlNode {
    Str(String),
    Int(i64),
    Float(u64),
    Bool(bool),
    Table(Vec<(String, TomlNode)>),
    Other,
}

/// The mathematical image of a `TomlNode`.
pub enum TomlNodeV {
    Str(Seq<char>),
    Int(int),
    Float(u64),
    Bool(bool),
    Table(Seq<(Seq<char>, TomlNodeV)>),
    Other,
}

impl View for TomlNode {
    type V = TomlNodeV;

    open spec fn view(&self) -> TomlNodeV
        decreases self,
    {
        match self {
            TomlNode::Str(s) => TomlNodeV::Str(s@),
            TomlNode::Int(i) => TomlNodeV::Int(*i as int),
            TomlNode::Float(bits) => TomlNodeV::Float(*bits),
            TomlNode::Bool(b) => TomlNodeV::Bool(*b),
            TomlNode::Table(es) => TomlNodeV::Table(table_view(es@)),
            TomlNode::Other => TomlNodeV::Other,
        }
    }
}

/// The image of a table's entries.
pub open spec fn table_view(es: Seq<(String, TomlNode)>) -> Seq<(Seq<char>, TomlNodeV)>
    decreases es,
{
    Seq::new(
        es.len(),
        |i: int|
            if 0 <= i < es.len() {
                (es[i].0@, es[i].1@)
            } else {
                (Seq::<char>::empty(), TomlNodeV::Other)
            },
    )
}

#[verifier::external_type_specification]
#[verifier::external_body]
pub struct ExTomlValue(toml::Value);

/// The reduced tree behind an opaque `toml::Value`.  Given meaning only
/// through the contracts of the trusted parse and conversion calls.
pub uninterp spec fn toml_node_of(v: toml::Value) -> TomlNodeV;

/// What parsing a string as TOML yields: the reduced tree of the
/// document, or nothing when the string is not valid TOML.  Parsing is
/// deterministic in the string.  Given meaning only through the
/// contracts of the trusted parse and conversion calls.
pub uninterp spec fn toml_doc(s: Seq<char>) -> Option<TomlNodeV>;

/// Relies on `str::parse::<toml::Table>`, the document parser: parsing
/// is a deterministic function of the string and fails exactly on text
/// that is not a valid TOML document; the document is its top table.
#[verifier::external_body]
fn toml_parse(s: &str) -> (r: Option<toml::Value>)
    ensures
        match r {
            Some(v) => toml_doc(s@) == Some(toml_node_of(v)),
            None => toml_doc(s@) is None,
        },
{
    match s.parse::<toml::Table>() {
        Ok(t) => Some(toml::Value::Table(t)),
        Err(_) => None,
    }
}

/// Relies on the shape of `toml::Value`: one arm per variant, fields
/// moved over, tables in the crate's iteration order; a float is kept
/// as its raw bits.
#[verifier::external_body]
fn toml_convert(v: toml::Value) -> (r: TomlNode)
    ensures
        r@ == toml_node_of(v),
{
    match v {
        toml::Value::String(s) => TomlNode::Str(s),
        toml::Value::Integer(i) => TomlNode::Int(i),
        toml::Value::Float(f) => TomlNode::Float(f.to_bits()),
        toml::Value::Boolean(b) => TomlNode::Bool(b),
        toml::Value::Datetime(_) => TomlNode::Other,
        toml::Value::Array(_) => TomlNode::Other,
        toml::Value::Table(t) => TomlNode::Table(
            t.into_iter().map(|(k, val)| (k, toml_convert(val))).collect(),
        ),
    }
}

/// Parse a bootstrap document into its reduced tree.
pub fn parse_toml_tree(s: &str) -> (r: Option<TomlNode>)
    ensures
        match r {
            Some(n) => toml_doc(s@) == Some(n@),
            None => toml_doc(s@) is None,
        },
{
    match toml_parse(s) {
        Some(v) => Some(toml_convert(v)),
        None => None,
    }
}

/// The first value stored under `key` in a table.
pub open spec fn table_get(t: Seq<(Seq<char>, TomlNodeV)>, key: Seq<char>) -> Option<TomlNodeV>
    decreases t.len(),
{
    if t.len() == 0 {
        None
    } else if t[0].0 == key {
        Some(t[0].1)
    } else {
        table_get(t.drop_first(), key)
    }
}

/// The coffer value a TOML leaf denotes, if the format allows it.
pub open spec fn conv_value(n: TomlNodeV) -> Option<ValueView> {
    match n {
        TomlNodeV::Str(s) => Some(ValueView::Str(s)),
        TomlNodeV::Int(i) => if -0x80000000 <= i <= 0x7fffffff {
            Some(ValueView::Integer(i))
        } else {
            None
        },
        TomlNodeV::Float(bits) => Some(ValueView::Float(crate::floatbits::spec_f32_narrow(bits))),
        TomlNodeV::Bool(b) => Some(ValueView::Boolean(b)),
        TomlNodeV::Table(_) => None,
        TomlNodeV::Other => None,
    }
}

/// The store after loading one shard's fields, from index `i` on: every
/// non-`id` field becomes an entry of the shard; a duplicate is refused,
/// as is a value outside the format.
pub open spec fn spec_load_shard(
    m: StoreView,
    sid: Seq<char>,
    es: Seq<(Seq<char>, TomlNodeV)>,
    i: int,
) -> Result<StoreView, CofferError>
    decreases es.len() - i,
{
    if i < 0 || i >= es.len() {
        Ok(m)
    } else if es[i].0 == "id"@ {
        spec_load_shard(m, sid, es, i + 1)
    } else {
        match conv_value(es[i].1) {
            None => Err(CofferError::Parse),
            Some(v) => if store_lookup(m, sid, es[i].0) is Some {
                Err(CofferError::KeyExists)
            } else {
                spec_load_shard(m.push(((sid, es[i].0), v)), sid, es, i + 1)
            },
        }
    }
}

/// A prefix stays a prefix when the other sequence grows at the end.
proof fn lemma_prefix_push<T>(a: Seq<T>, b: Seq<T>, e: T)
    requires
        a.is_prefix_of(b),
    ensures
        a.is_prefix_of(b.push(e)),
{
    assert(b.push(e).subrange(0, a.len() as int) =~= b.subrange(0, a.len() as int));
}

/// Being a prefix is transitive.
proof fn lemma_prefix_trans<T>(a: Seq<T>, b: Seq<T>, c: Seq<T>)
    requires
        a.is_prefix_of(b),
        b.is_prefix_of(c),
    ensures
        a.is_prefix_of(c),
{
    assert(a =~= c.subrange(0, a.len() as int)) by {
        assert(forall|i: int|
            0 <= i < a.len() ==> a[i] == b.subrange(0, a.len() as int)[i]);
        assert(forall|i: int|
            0 <= i < b.len() ==> b[i] == c.subrange(0, b.len() as int)[i]);
    }
}

/// An entry present in the store is still present after a shard load
/// that succeeded.
proof fn lemma_load_shard_keeps(
    m: StoreView,
    sid: Seq<char>,
    es: Seq<(Seq<char>, TomlNodeV)>,
    i: int,
    s0: Seq<char>,
    k0: Seq<char>,
)
    requires
        0 <= i,
        store_lookup(m, s0, k0) is Some,
        spec_load_shard(m, sid, es, i) is Ok,
    ensures
        store_lookup(spec_load_shard(m, sid, es, i)->Ok_0, s0, k0) is Some,
    decreases es.len() - i,
{
    if i < 0 || i >= es.len() {
    } else if es[i].0 == "id"@ {
        lemma_load_shard_keeps(m, sid, es, i + 1, s0, k0);
    } else {
        let v = conv_value(es[i].1)->Some_0;
        let m2 = m.push(((sid, es[i].0), v));
        crate::coffer::lemma_lookup_append(m, ((sid, es[i].0), v), s0, k0);
        lemma_load_shard_keeps(m2, sid, es, i + 1, s0, k0);
    }
}

/// A shard load succeeds only when every field it stores was absent in
/// the store it started from; so a second shard with the same
/// identifier can never redefine a field - the duplicate is refused.
pub proof fn lemma_load_shard_success_fresh(
    m: StoreView,
    sid: Seq<char>,
    es: Seq<(Seq<char>, TomlNodeV)>,
    i: int,
)
    requires
        0 <= i,
        spec_load_shard(m, sid, es, i) is Ok,
    ensures
        forall|j: int|
            i <= j < es.len() && (#[trigger] es[j]).0 != "id"@ ==> store_lookup(
                m,
                sid,
                es[j].0,
            ) is None,
    decreases es.len() - i,
{
    if i < 0 || i >= es.len() {
    } else if es[i].0 == "id"@ {
        assert(spec_load_shard(m, sid, es, i) == spec_load_shard(m, sid, es, i + 1));
        lemma_load_shard_success_fresh(m, sid, es, i + 1);
    } else {
        let v = conv_value(es[i].1)->Some_0;
        let e = ((sid, es[i].0), v);
        let m2 = m.push(e);
        assert(spec_load_shard(m, sid, es, i) == spec_load_shard(m2, sid, es, i + 1));
        lemma_load_shard_success_fresh(m2, sid, es, i + 1);
        assert forall|j: int|
            i <= j < es.len() && (#[trigger] es[j]).0 != "id"@ implies store_lookup(
            m,
            sid,
            es[j].0,
        ) is None by {
            if j == i {
                assert(store_lookup(m, sid, es[i].0) is None);
            } else {
                assert(store_lookup(m2, sid, es[j].0) is None);
                crate::coffer::lemma_lookup_append(m, e, sid, es[j].0);
            }
        }
    }
}

/// After a successful shard load every non-`id` field of the shard is
/// stored.
pub proof fn lemma_load_shard_loads(
    m: StoreView,
    sid: Seq<char>,
    es: Seq<(Seq<char>, TomlNodeV)>,
    i: int,
)
    requires
        0 <= i,
        spec_load_shard(m, sid, es, i) is Ok,
    ensures
        forall|j: int|
            i <= j < es.len() && (#[trigger] es[j]).0 != "id"@ ==> store_lookup(
                spec_load_shard(m, sid, es, i)->Ok_0,
                sid,
                es[j].0,
            ) is Some,
    decreases es.len() - i,
{
    if i < 0 || i >= es.len() {
    } else if es[i].0 == "id"@ {
        assert(spec_load_shard(m, sid, es, i) == spec_load_shard(m, sid, es, i + 1));
        lemma_load_shard_loads(m, sid, es, i + 1);
    } else {
        let v = conv_value(es[i].1)->Some_0;
        let e = ((sid, es[i].0), v);
        let m2 = m.push(e);
        assert(spec_load_shard(m, sid, es, i) == spec_load_shard(m2, sid, es, i + 1));
        lemma_load_shard_loads(m2, sid, es, i + 1);
        crate::coffer::lemma_lookup_append(m, e, sid, es[i].0);
        lemma_load_shard_keeps(m2, sid, es, i + 1, sid, es[i].0);
        let fin = spec_load_shard(m, sid, es, i)->Ok_0;
        assert forall|j: int|
            i <= j < es.len() && (#[trigger] es[j]).0 != "id"@ implies store_lookup(
            fin,
            sid,
            es[j].0,
        ) is Some by {
            if j == i {
                assert(store_lookup(m2, sid, es[i].0) is Some);
            }
        }
    }
}

/// Put exclusivity across one shard: a load succeeds only when the
/// shard's non-`id` field names are pairwise distinct, so a duplicate
/// field within a shard is always refused.
pub proof fn lemma_load_shard_success_distinct(
    m: StoreView,
    sid: Seq<char>,
    es: Seq<(Seq<char>, TomlNodeV)>,
    i: int,
)
    requires
        0 <= i,
        spec_load_shard(m, sid, es, i) is Ok,
    ensures
        forall|j: int, k: int|
            i <= j < k < es.len() && (#[trigger] es[j]).0 != "id"@ && (#[trigger] es[k]).0 != "id"@
                ==> es[j].0 != es[k].0,
    decreases es.len() - i,
{
    if i < 0 || i >= es.len() {
    } else if es[i].0 == "id"@ {
        assert(spec_load_shard(m, sid, es, i) == spec_load_shard(m, sid, es, i + 1));
        lemma_load_shard_success_distinct(m, sid, es, i + 1);
    } else {
        let v = conv_value(es[i].1)->Some_0;
        let e = ((sid, es[i].0), v);
        let m2 = m.push(e);
        assert(spec_load_shard(m, sid, es, i) == spec_load_shard(m2, sid, es, i + 1));
        lemma_load_shard_success_distinct(m2, sid, es, i + 1);
        lemma_load_shard_success_fresh(m2, sid, es, i + 1);
        crate::coffer::lemma_lookup_append(m, e, sid, es[i].0);
        assert(store_lookup(m2, sid, es[i].0) is Some);
        assert forall|j: int, k: int|
            i <= j < k < es.len() && (#[trigger] es[j]).0 != "id"@ && (#[trigger] es[k]).0
                != "id"@ implies es[j].0 != es[k].0 by {
            if j == i {
                assert(store_lookup(m2, sid, es[k].0) is None);
            }
        }
    }
}

/// The store after loading one node of the tree.  A shard's identifier
/// is normalized to the lowercase hex image of the key bytes it spells,
/// so that lookups by a hex-encoded public key hit it whatever case the
/// document used.
pub open spec fn spec_load_node(m: StoreView, n: TomlNodeV) -> Result<StoreView, CofferError>
    decreases n, 0int, 0int,
{
    match n {
        TomlNodeV::Table(es) => match table_get(es, "id"@) {
            Some(TomlNodeV::Str(sid)) => if valid_hex(sid) {
                spec_load_shard(m, spec_hex_lower(spec_hex_decode(sid)), es, 0)
            } else {
                Err(CofferError::Parse)
            },
            Some(_) => Err(CofferError::Parse),
            None => spec_load_group(m, es, 0),
        },
        _ => Err(CofferError::Parse),
    }
}

/// The store after loading the subtables of a group, from index `i` on.
pub open spec fn spec_load_group(
    m: StoreView,
    es: Seq<(Seq<char>, TomlNodeV)>,
    i: int,
) -> Result<StoreView, CofferError>
    decreases es, es.len() - i, 1int,
{
    if i < 0 || i >= es.len() {
        Ok(m)
    } else {
        match spec_load_node_in(m, es, i) {
            Ok(m2) => spec_load_group(m2, es, i + 1),
            Err(e) => Err(e),
        }
    }
}

/// Loading one subtable of a group; a leaf in group position is refused.
pub open spec fn spec_load_node_in(
    m: StoreView,
    es: Seq<(Seq<char>, TomlNodeV)>,
    i: int,
) -> Result<StoreView, CofferError>
    decreases es, es.len() - i, 0int,
{
    if 0 <= i < es.len() {
        spec_load_node(m, es[i].1)
    } else {
        Ok(m)
    }
}

/// String equality through the UTF-8 images.
fn str_eq(a: &str, b: &str) -> (r: bool)
    ensures
        r == (a@ == b@),
{
    let r = bytes_eq(a.as_bytes(), b.as_bytes());
    proof {
        if a.spec_bytes() == b.spec_bytes() {
            crate::cbor::lemma_encode_utf8_injective(a@, b@);
        }
    }
    r
}

/// The first entry of a table carrying `key` gives `table_get`.
proof fn lemma_table_get_at(t: Seq<(Seq<char>, TomlNodeV)>, i: int, key: Seq<char>)
    requires
        0 <= i < t.len(),
        t[i].0 == key,
        forall|j: int| 0 <= j < i ==> (#[trigger] t[j]).0 != key,
    ensures
        table_get(t, key) == Some(t[i].1),
    decreases t.len(),
{
    if i > 0 {
        let rest = t.drop_first();
        assert(rest[i - 1] == t[i]);
        assert(forall|j: int| 0 <= j < i - 1 ==> #[trigger] rest[j] == t[j + 1]);
        lemma_table_get_at(rest, i - 1, key);
    }
}

/// When no entry carries `key`, `table_get` misses.
proof fn lemma_table_get_none(t: Seq<(Seq<char>, TomlNodeV)>, key: Seq<char>)
    requires
        forall|j: int| 0 <= j < t.len() ==> (#[trigger] t[j]).0 != key,
    ensures
        table_get(t, key) is None,
    decreases t.len(),
{
    if t.len() > 0 {
        let rest = t.drop_first();
        assert(forall|j: int| 0 <= j < rest.len() ==> #[trigger] rest[j] == t[j + 1]);
        lemma_table_get_none(rest, key);
    }
}

/// Index of the first entry under `key`, if any.
fn find_key(es: &Vec<(String, TomlNode)>, key: &str) -> (r: Option<usize>)
    ensures
        ({
            let tv = table_view(es@);
            match r {
                Some(i) => i < tv.len() && tv[i as int].0 == key@ && table_get(tv, key@) == Some(
                    tv[i as int].1,
                ),
                None => table_get(tv, key@) is None,
            }
        }),
{
    let ghost tv = table_view(es@);
    let n = es.len();
    let mut i: usize = 0;
    while i < n
        invariant
            n == es@.len(),
            tv == table_view(es@),
            tv.len() == n,
            i <= n,
            forall|j: int| 0 <= j < i ==> (#[trigger] tv[j]).0 != key@,
        decreases n - i,
    {
        proof {
            assert(tv[i as int] == (es@[i as int].0@, es@[i as int].1@));
        }
        if str_eq(es[i].0.as_str(), key) {
            proof {
                lemma_table_get_at(tv, i as int, key@);
            }
            return Some(i);
        }
        i = i + 1;
    }
    proof {
        lemma_table_get_none(tv, key@);
    }
    None
}

/// The coffer value a TOML leaf denotes.
fn value_of_node(n: &TomlNode) -> (r: Option<CofferValue>)
    ensures
        match r {
            Some(v) => conv_value(n@) == Some(v@),
            None => conv_value(n@) is None,
        },
{
    match n {
        TomlNode::Str(s) => Some(CofferValue::Str(s.clone())),
        TomlNode::Int(i) => if -2147483648i64 <= *i && *i <= 2147483647i64 {
            Some(CofferValue::Integer(*i as i32))
        } else {
            None
        },
        TomlNode::Float(bits) => Some(CofferValue::Float(crate::floatbits::f32_narrow(*bits))),
        TomlNode::Bool(b) => Some(CofferValue::Boolean(*b)),
        TomlNode::Table(_) => None,
        TomlNode::Other => None,
    }
}

/// Load one node of the bootstrap tree into the store: a table with an
/// `id` is a shard whose other fields become entries; a table without
/// one is a group whose subtables are loaded in turn.  On an error the
/// store keeps what was loaded before the failure: the old contents
/// stay a prefix, nothing is removed or altered.
#[verifier::loop_isolation(false)]
pub fn load_node(store: &mut CofferMap, node: &TomlNode) -> (r: Result<(), CofferError>)
    requires
        old(store).wf(),
    ensures
        final(store).wf(),
        old(store)@.is_prefix_of(final(store)@),
        match r {
            Ok(()) => spec_load_node(old(store)@, node@) == Ok::<StoreView, CofferError>(
                final(store)@,
            ),
            Err(e) => spec_load_node(old(store)@, node@) == Err::<StoreView, CofferError>(e),
        },
    decreases node,
{
    let ghost m0 = store@;
    proof {
        assert(m0.is_prefix_of(store@)) by {
            assert(store@.subrange(0, m0.len() as int) =~= m0);
        }
    }
    let entries = match node {
        TomlNode::Table(es) => es,
        _ => {
            return Err(CofferError::Parse);
        },
    };
    let ghost tv = table_view(entries@);
    proof {
        assert(node@ == TomlNodeV::Table(tv));
    }
    match find_key(entries, "id") {
        Some(idx) => {
            let raw_sid: String = match &entries[idx].1 {
                TomlNode::Str(s) => s.clone(),
                _ => {
                    proof {
                        assert(tv[idx as int] == (entries@[idx as int].0@, entries@[idx as int].1@));
                    }
                    return Err(CofferError::Parse);
                },
            };
            proof {
                assert(tv[idx as int] == (entries@[idx as int].0@, entries@[idx as int].1@));
                assert(table_get(tv, "id"@) == Some(TomlNodeV::Str(raw_sid@)));
            }
            let id_bytes = match hex_decode(raw_sid.as_str()) {
                Some(b) => b,
                None => {
                    return Err(CofferError::Parse);
                },
            };
            let sid = hex_encode(id_bytes.as_slice());
            proof {
                assert(sid@ == spec_hex_lower(spec_hex_decode(raw_sid@)));
            }
            let n = entries.len();
            let mut i: usize = 0;
            while i < n
                invariant
                    n == entries@.len(),
                    tv == table_view(entries@),
                    tv.len() == n,
                    i <= n,
                    store.wf(),
                    m0 == old(store)@,
                    m0.is_prefix_of(store@),
                    node@ == TomlNodeV::Table(tv),
                    table_get(tv, "id"@) == Some(TomlNodeV::Str(raw_sid@)),
                    valid_hex(raw_sid@),
                    sid@ == spec_hex_lower(spec_hex_decode(raw_sid@)),
                    spec_load_shard(m0, sid@, tv, 0) == spec_load_shard(store@, sid@, tv, i as int),
                decreases n - i,
            {
                let ghost cur = store@;
                proof {
                    assert(tv[i as int] == (entries@[i as int].0@, entries@[i as int].1@));
                }
                if !str_eq(entries[i].0.as_str(), "id") {
                    match value_of_node(&entries[i].1) {
                        Some(v) => {
                            let ghost vv = v@;
                            let key = CofferKey { shard: sid.clone(), key: entries[i].0.clone() };
                            proof {
                                assert(key.shard@ == sid@ && key.key@ == tv[i as int].0);
                            }
                            match store.put(key, v) {
                                Ok(()) => {
                                    proof {
                                        assert(store@ == cur.push(((sid@, tv[i as int].0), vv)));
                                        assert(spec_load_shard(cur, sid@, tv, i as int)
                                            == spec_load_shard(store@, sid@, tv, i as int + 1));
                                        lemma_prefix_push(m0, cur, ((sid@, tv[i as int].0), vv));
                                    }
                                },
                                Err(e) => {
                                    proof {
                                        assert(spec_load_shard(cur, sid@, tv, i as int)
                                            == Err::<StoreView, CofferError>(e));
                                    }
                                    return Err(e);
                                },
                            }
                        },
                        None => {
                            proof {
                                assert(conv_value(tv[i as int].1) is None);
                                assert(spec_load_shard(cur, sid@, tv, i as int) == Err::<
                                    StoreView,
                                    CofferError,
                                >(CofferError::Parse));
                            }
                            return Err(CofferError::Parse);
                        },
                    }
                } else {
                    proof {
                        assert(spec_load_shard(cur, sid@, tv, i as int) == spec_load_shard(
                            cur,
                            sid@,
                            tv,
                            i as int + 1,
                        ));
                    }
                }
                i = i + 1;
            }
            Ok(())
        },
        None => {
            let n = entries.len();
            let mut i: usize = 0;
            while i < n
                invariant
                    n == entries@.len(),
                    tv == table_view(entries@),
                    tv.len() == n,
                    i <= n,
                    store.wf(),
                    m0 == old(store)@,
                    m0.is_prefix_of(store@),
                    node@ == TomlNodeV::Table(tv),
                    table_get(tv, "id"@) is None,
                    spec_load_group(m0, tv, 0) == spec_load_group(store@, tv, i as int),
                decreases n - i,
            {
                let ghost cur = store@;
                proof {
                    assert(tv[i as int] == (entries@[i as int].0@, entries@[i as int].1@));
                    assert(*node == TomlNode::Table(*entries));
                    assert(decreases_to!(*node => *entries));
                    assert(decreases_to!(*entries => (*entries)[i as int]));
                    assert(decreases_to!((*entries)[i as int] => (*entries)[i as int].1));
                }
                match load_node(store, &entries[i].1) {
                    Ok(()) => {
                        proof {
                            assert(spec_load_node_in(cur, tv, i as int) == Ok::<
                                StoreView,
                                CofferError,
                            >(store@));
                            assert(spec_load_group(cur, tv, i as int) == spec_load_group(
                                store@,
                                tv,
                                i as int + 1,
                            ));
                            lemma_prefix_trans(m0, cur, store@);
                        }
                    },
                    Err(e) => {
                        proof {
                            assert(spec_load_node_in(cur, tv, i as int) == Err::<
                                StoreView,
                                CofferError,
                            >(e));
                            assert(spec_load_group(cur, tv, i as int) == Err::<
                                StoreView,
                                CofferError,
                            >(e));
                            lemma_prefix_trans(m0, cur, store@);
                        }
                        return Err(e);
                    },
                }
                i = i + 1;
            }
            Ok(())
        },
    }
}

/// Build a store from a bootstrap document; on any error the partly
/// loaded store is discarded and only the error comes back.
pub fn from_toml(toml_str: &str) -> (r: Result<CofferMap, CofferError>)
    ensures
        match r {
            Ok(m) => m.wf() && (match toml_doc(toml_str@) {
                Some(doc) => spec_load_node(Seq::empty(), doc) == Ok::<StoreView, CofferError>(m@),
                None => false,
            }),
            Err(e) => match toml_doc(toml_str@) {
                Some(doc) => spec_load_node(Seq::empty(), doc) == Err::<StoreView, CofferError>(e),
                None => e == CofferError::Parse,
            },
        },
{
    let node = match parse_toml_tree(toml_str) {
        Some(n) => n,
        None => {
            return Err(CofferError::Parse);
        },
    };
    let mut store = CofferMap::new();
    match load_node(&mut store, &node) {
        Ok(()) => Ok(store),
        Err(e) => Err(e),
    }
}

/// The client key a shard's `id` denotes: the hex-decoded identifier,
/// which must decode and have key length.
pub open spec fn spec_shard_key(id: Seq<char>) -> Result<Seq<u8>, KeyringError> {
    if !valid_hex(id) {
        Err(KeyringError::Parse)
    } else if spec_hex_decode(id).len() != KEY_LEN {
        Err(KeyringError::InvalidClientKey)
    } else {
        Ok(spec_hex_decode(id))
    }
}

/// The client keys registered by one node of the bootstrap tree.
pub open spec fn spec_ids_of_node(n: TomlNodeV) -> Result<Seq<Seq<u8>>, KeyringError>
    decreases n, 0int, 0int,
{
    match n {
        TomlNodeV::Table(es) => match table_get(es, "id"@) {
            Some(TomlNodeV::Str(id)) => match spec_shard_key(id) {
                Ok(k) => Ok(seq![k]),
                Err(e) => Err(e),
            },
            Some(_) => Err(KeyringError::Parse),
            None => spec_ids_of_group(es, 0),
        },
        _ => Err(KeyringError::Parse),
    }
}

/// The client keys registered by a group's subtables, from index `i` on.
pub open spec fn spec_ids_of_group(es: Seq<(Seq<char>, TomlNodeV)>, i: int) -> Result<
    Seq<Seq<u8>>,
    KeyringError,
>
    decreases es, es.len() - i, 1int,
{
    if i < 0 || i >= es.len() {
        Ok(Seq::empty())
    } else {
        match spec_ids_of_node_in(es, i) {
            Ok(ks) => match spec_ids_of_group(es, i + 1) {
                Ok(rest) => Ok(ks + rest),
                Err(e) => Err(e),
            },
            Err(e) => Err(e),
        }
    }
}

/// The client keys of one subtable of a group.
pub open spec fn spec_ids_of_node_in(es: Seq<(Seq<char>, TomlNodeV)>, i: int) -> Result<
    Seq<Seq<u8>>,
    KeyringError,
>
    decreases es, es.len() - i, 0int,
{
    if 0 <= i < es.len() {
        spec_ids_of_node(es[i].1)
    } else {
        Ok(Seq::empty())
    }
}

/// The byte strings a sequence of key vectors denotes.
pub open spec fn keys_view(s: Seq<Vec<u8>>) -> Seq<Seq<u8>> {
    s.map_values(|k: Vec<u8>| k@)
}

/// Collect the client keys registered by one node of the tree.
#[verifier::loop_isolation(false)]
fn collect_ids(node: &TomlNode, out: &mut Vec<Vec<u8>>) -> (r: Result<(), KeyringError>)
    ensures
        match r {
            Ok(()) => (match spec_ids_of_node(node@) {
                Ok(ks) => keys_view(final(out)@) == keys_view(old(out)@) + ks,
                Err(_) => false,
            }) && (forall|j: int|
                old(out)@.len() <= j < final(out)@.len() ==> (#[trigger] final(out)@[j])@.len()
                    == KEY_LEN),
            Err(e) => spec_ids_of_node(node@) == Err::<Seq<Seq<u8>>, KeyringError>(e),
        },
    decreases node,
{
    let ghost o0 = out@;
    let entries = match node {
        TomlNode::Table(es) => es,
        _ => {
            return Err(KeyringError::Parse);
        },
    };
    let ghost tv = table_view(entries@);
    proof {
        assert(node@ == TomlNodeV::Table(tv));
    }
    match find_key(entries, "id") {
        Some(idx) => {
            let id: &String = match &entries[idx].1 {
                TomlNode::Str(s) => s,
                _ => {
                    proof {
                        assert(tv[idx as int] == (entries@[idx as int].0@, entries@[idx as int].1@));
                    }
                    return Err(KeyringError::Parse);
                },
            };
            proof {
                assert(tv[idx as int] == (entries@[idx as int].0@, entries@[idx as int].1@));
                assert(table_get(tv, "id"@) == Some(TomlNodeV::Str(id@)));
            }
            let key = match hex_decode(id.as_str()) {
                Some(k) => k,
                None => {
                    return Err(KeyringError::Parse);
                },
            };
            if key.len() != KEY_LEN {
                return Err(KeyringError::InvalidClientKey);
            }
            out.push(key);
            proof {
                assert(keys_view(out@) =~= keys_view(o0) + seq![spec_hex_decode(id@)]);
            }
            Ok(())
        },
        None => {
            let n = entries.len();
            let mut i: usize = 0;
            let ghost mut acc: Seq<Seq<u8>> = Seq::empty();
            proof {
                assert(keys_view(out@) =~= keys_view(o0) + acc);
            }
            while i < n
                invariant
                    n == entries@.len(),
                    tv == table_view(entries@),
                    tv.len() == n,
                    i <= n,
                    o0 == old(out)@,
                    node@ == TomlNodeV::Table(tv),
                    table_get(tv, "id"@) is None,
                    out@.len() >= o0.len(),
                    forall|j: int|
                        o0.len() <= j < out@.len() ==> (#[trigger] out@[j])@.len() == KEY_LEN,
                    keys_view(out@) == keys_view(o0) + acc,
                    match spec_ids_of_group(tv, i as int) {
                        Ok(rest) => spec_ids_of_group(tv, 0) == Ok::<Seq<Seq<u8>>, KeyringError>(
                            acc + rest,
                        ),
                        Err(e) => spec_ids_of_group(tv, 0) == Err::<Seq<Seq<u8>>, KeyringError>(e),
                    },
                decreases n - i,
            {
                let ghost outpre = out@;
                proof {
                    assert(tv[i as int] == (entries@[i as int].0@, entries@[i as int].1@));
                    assert(*node == TomlNode::Table(*entries));
                    assert(decreases_to!(*node => *entries));
                    assert(decreases_to!(*entries => (*entries)[i as int]));
                    assert(decreases_to!((*entries)[i as int] => (*entries)[i as int].1));
                }
                match collect_ids(&entries[i].1, out) {
                    Ok(()) => {
                        proof {
                            let ks = spec_ids_of_node(entries@[i as int].1@)->Ok_0;
                            assert(spec_ids_of_node_in(tv, i as int) == Ok::<
                                Seq<Seq<u8>>,
                                KeyringError,
                            >(ks));
                            assert(keys_view(out@) == keys_view(outpre) + ks);
                            assert((keys_view(o0) + acc) + ks =~= keys_view(o0) + (acc + ks));
                            if spec_ids_of_group(tv, i as int + 1) is Ok {
                                let rest = spec_ids_of_group(tv, i as int + 1)->Ok_0;
                                assert((acc + ks) + rest =~= acc + (ks + rest));
                                assert(spec_ids_of_group(tv, i as int) == Ok::<
                                    Seq<Seq<u8>>,
                                    KeyringError,
                                >(ks + rest));
                            }
                            assert forall|j: int| o0.len() <= j < out@.len() implies (
                            #[trigger] out@[j])@.len() == KEY_LEN by {
                                if j < outpre.len() {
                                    assert(keys_view(out@)[j] == out@[j]@);
                                    assert(keys_view(outpre)[j] == outpre[j]@);
                                    assert((keys_view(outpre) + ks)[j] == keys_view(outpre)[j]);
                                    assert(outpre[j]@.len() == KEY_LEN);
                                }
                            }
                            acc = acc + ks;
                        }
                    },
                    Err(e) => {
                        proof {
                            assert(spec_ids_of_node_in(tv, i as int) == Err::<
                                Seq<Seq<u8>>,
                                KeyringError,
                            >(e));
                            assert(spec_ids_of_group(tv, i as int) == Err::<
                                Seq<Seq<u8>>,
                                KeyringError,
                            >(e));
                        }
                        return Err(e);
                    },
                }
                i = i + 1;
            }
            proof {
                assert(acc + Seq::<Seq<u8>>::empty() =~= acc);
            }
            Ok(())
        },
    }
}

/// A group's keys all have key length when the walk succeeds; carried
/// by the walk itself through `collect_ids`.
impl Keyring {
    /// Register the shard identifiers of a bootstrap document, each
    /// hex-decoded, as known client keys.
    pub fn add_known_keys_toml(&mut self, toml: &str) -> (r: Result<(), KeyringError>)
        requires
            old(self).wf(),
        ensures
            final(self).wf(),
            final(self).certificate() == old(self).certificate(),
            match r {
                Ok(()) => (match toml_doc(toml@) {
                    Some(doc) => match spec_ids_of_node(doc) {
                        Ok(ks) => final(self).keys() == old(self).keys() + ks,
                        Err(_) => false,
                    },
                    None => false,
                }),
                Err(e) => match toml_doc(toml@) {
                    Some(doc) => spec_ids_of_node(doc) == Err::<Seq<Seq<u8>>, KeyringError>(e)
                        && final(self).keys() == old(self).keys(),
                    None => e == KeyringError::Parse && final(self).keys() == old(self).keys(),
                },
            },
    {
        let node = match parse_toml_tree(toml) {
            Some(n) => n,
            None => {
                return Err(KeyringError::Parse);
            },
        };
        let mut ids: Vec<Vec<u8>> = Vec::new();
        proof {
            assert(keys_view(Seq::<Vec<u8>>::empty()) =~= Seq::<Seq<u8>>::empty());
        }
        match collect_ids(&node, &mut ids) {
            Ok(()) => {},
            Err(e) => {
                return Err(e);
            },
        }
        let ghost ks = spec_ids_of_node(node@)->Ok_0;
        proof {
            assert(keys_view(ids@) =~= ks);
        }
        let n = ids.len();
        let mut i: usize = 0;
        while i < n
            invariant
                n == ids@.len(),
                i <= n,
                self.wf(),
                self.certificate() == old(self).certificate(),
                keys_view(ids@) == ks,
                forall|j: int| 0 <= j < n ==> (#[trigger] ids@[j])@.len() == KEY_LEN,
                self.keys() == old(self).keys() + ks.take(i as int),
            decreases n - i,
        {
            proof {
                assert(ids@[i as int]@ == ks[i as int]);
            }
            match self.add_known_key(ids[i].as_slice()) {
                Ok(()) => {},
                Err(_) => {
                    proof {
                        assert(false);
                    }
                    return Err(KeyringError::InvalidClientKey);
                },
            }
            proof {
                assert(old(self).keys() + ks.take(i as int + 1) =~= (old(self).keys() + ks.take(
                    i as int,
                )).push(ks[i as int]));
            }
            i = i + 1;
        }
        proof {
            assert(ks.take(n as int) =~= ks);
            assert(old(self).keys() + ks.take(0) =~= old(self).keys());
        }
        Ok(())
    }
}

} // verus!
