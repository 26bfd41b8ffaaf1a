use vstd::prelude::*;

use crate::der::{read_tag_and_get_value, tlv, Reader, Tag};
use crate::error::{Error, ErrorKind, Result};
use crate::names::{find, known_name};
use crate::oid::{oid_text, stringify};
use crate::time::{interpret_time, time_of, Time};
use crate::value::{
    all_printable, ascii_text, be_units, boolean_of, encode_utf16, interpret_bmp_string,
    interpret_boolean, interpret_printable_string, interpret_utf8_string, is_utf16,
};
use vstd::utf8::{encode_utf8, valid_utf8};

verus! {

/// What the content of a record was read as.
#[derive(Debug)]
pub enum Value {
    Boolean(bool),
    Oid(String, Option<&'static str>),
    Text(String),
    Time(Time),
    /// Content shown as raw bytes (by its length or in hex).
    Bytes,
    /// Content made of further records, which are the node's children.
    Constructed,
}

/// Where and why decoding of a content slice stopped.
#[derive(Clone, Copy, Debug, PartialEq, Eq, Structural)]
pub struct Failure {
    pub error: Error,
    /// How many bytes of the slice were left, counted from the record that failed.
    pub remaining: usize,
}

/// One decoded record.
#[derive(Debug)]
pub struct Node<'a> {
    pub tag: Tag,
    pub content: &'a [u8],
    pub value: Value,
    pub children: Records<'a>,
}

/// The records decoded from one content slice, in byte order. Decoding stops
/// at the first failure: `failure` says where when it happened at this level,
/// and `complete` is false whenever this level or a nested one stopped early.
#[derive(Debug)]
pub struct Records<'a> {
    pub nodes: Vec<Node<'a>>,
    pub failure: Option<Failure>,
    pub complete: bool,
}

/// The tags whose content is a run of further records.
pub open spec fn is_constructed(t: Tag) -> bool {
    t == Tag::Sequence || t == Tag::SetOf || t == Tag::ContextSpecificConstructed0 || t
        == Tag::ContextSpecificConstructed1 || t == Tag::ContextSpecificConstructed2 || t
        == Tag::ContextSpecificConstructed3
}

/// The records at the start of `s`, one after the other, up to the end or the
/// first one that cannot be read.
pub open spec fn tlv_records(s: Seq<u8>) -> Seq<(Tag, Seq<u8>)>
    decreases s.len(),
{
    if s.len() == 0 {
        seq![]
    } else {
        match tlv(s) {
            Err(_) => seq![],
            Ok((t, off, len)) => if 0 < off && 0 <= len && off + len <= s.len() {
                seq![(t, s.subrange(off, off + len))] + tlv_records(s.subrange(off + len, s.len() as int))
            } else {
                seq![]
            },
        }
    }
}

/// The bytes of `s` after its first `k` records.
pub open spec fn after(s: Seq<u8>, k: nat) -> Seq<u8>
    decreases k,
{
    if k == 0 {
        s
    } else {
        match tlv(s) {
            Err(_) => s,
            Ok((t, off, len)) => if 0 < off && 0 <= len && off + len <= s.len() {
                after(s.subrange(off + len, s.len() as int), (k - 1) as nat)
            } else {
                s
            },
        }
    }
}

/// Why the content `s` of a record tagged `t` cannot be read, if it cannot,
/// with `depth` more levels of nesting allowed.
pub open spec fn content_error(t: Tag, s: Seq<u8>, depth: nat) -> Option<ErrorKind> {
    match t {
        Tag::Boolean => match boolean_of(s) {
            Err(k) => Some(k),
            Ok(_) => None,
        },
        Tag::OID => match oid_text(s) {
            Err(k) => Some(k),
            Ok(_) => None,
        },
        Tag::PrintableString => if all_printable(s) {
            None
        } else {
            Some(ErrorKind::InvalidPrintableString)
        },
        Tag::Utf8String => if valid_utf8(s) {
            None
        } else {
            Some(ErrorKind::InvalidUtf8String)
        },
        Tag::BMPString => if s.len() % 2 == 0 && is_utf16(be_units(s)) {
            None
        } else {
            Some(ErrorKind::InvalidBmpString)
        },
        Tag::UTCTime => match time_of(true, s) {
            Err(k) => Some(k),
            Ok(_) => None,
        },
        Tag::GeneralizedTime => match time_of(false, s) {
            Err(k) => Some(k),
            Ok(_) => None,
        },
        _ => if is_constructed(t) && depth == 0 {
            Some(ErrorKind::TooDeep)
        } else {
            None
        },
    }
}

/// Why the record at the start of `s` cannot be decoded, if it cannot.
pub open spec fn record_error(s: Seq<u8>, depth: nat) -> Option<ErrorKind> {
    match tlv(s) {
        Err(k) => Some(k),
        Ok((t, off, len)) => content_error(t, s.subrange(off, off + len), depth),
    }
}

/// The value read from the content `s` of a record tagged `t`.
pub open spec fn value_of(t: Tag, s: Seq<u8>, v: Value) -> bool {
    match t {
        Tag::Boolean => v == Value::Boolean(boolean_of(s).unwrap()),
        Tag::OID => match v {
            Value::Oid(text, name) => text@ == oid_text(s).unwrap() && match known_name(text@) {
                Some(n) => name is Some && name.unwrap()@ == n,
                None => name is None,
            },
            _ => false,
        },
        Tag::PrintableString => match v {
            Value::Text(text) => text@ == ascii_text(s),
            _ => false,
        },
        Tag::Utf8String => match v {
            Value::Text(text) => encode_utf8(text@) == s,
            _ => false,
        },
        Tag::BMPString => match v {
            Value::Text(text) => encode_utf16(text@) == be_units(s),
            _ => false,
        },
        Tag::UTCTime => v == Value::Time(time_of(true, s).unwrap()),
        Tag::GeneralizedTime => v == Value::Time(time_of(false, s).unwrap()),
        _ => if is_constructed(t) {
            v == Value::Constructed
        } else {
            v == Value::Bytes
        },
    }
}

/// A leaf: no children, nothing stopped.
pub open spec fn is_leaf(r: Records) -> bool {
    r.nodes@.len() == 0 && r.failure is None && r.complete
}

/// Decoding the content slice `s` with `depth` more levels of nesting allowed
/// would go through to its end without stopping.
pub open spec fn reads_fully(s: Seq<u8>, depth: nat) -> bool
    decreases depth,
{
    let recs = tlv_records(s);
    &&& after(s, recs.len()).len() == 0
    &&& forall|i: int|
        0 <= i < recs.len() ==> content_error((#[trigger] recs[i]).0, recs[i].1, depth) is None && (
        is_constructed(recs[i].0) ==> depth > 0 && reads_fully(recs[i].1, (depth - 1) as nat))
}

/// `r` is the decoding of the content slice `s` with `depth` more levels of
/// nesting allowed: one node per record in byte order, each with its tag,
/// content, value and children, up to the first failure.
pub open spec fn decoded(r: Records, s: Seq<u8>, depth: nat) -> bool
    decreases depth,
{
    let recs = tlv_records(s);
    let n = r.nodes@.len();
    &&& n <= recs.len()
    &&& forall|i: int|
        0 <= i < n ==> {
            let node = #[trigger] r.nodes@[i];
            &&& node.tag == recs[i].0
            &&& node.content@ == recs[i].1
            &&& content_error(node.tag, node.content@, depth) is None
            &&& value_of(node.tag, node.content@, node.value)
            &&& if is_constructed(node.tag) {
                depth > 0 && decoded(node.children, node.content@, (depth - 1) as nat)
            } else if node.tag == Tag::OctetString {
                if depth > 0 && reads_fully(node.content@, (depth - 1) as nat) {
                    node.children.complete && decoded(node.children, node.content@, (depth - 1) as nat)
                } else {
                    is_leaf(node.children)
                }
            } else {
                is_leaf(node.children)
            }
            &&& node.children.complete || (i == n - 1 && !r.complete && r.failure is None)
        }
    &&& r.complete ==> n == recs.len() && after(s, n).len() == 0 && r.failure is None
    &&& match r.failure {
        Some(f) => !r.complete && f.remaining == after(s, n).len() && after(s, n).len() > 0
            && record_error(after(s, n), depth) == Some(f.error.0),
        None => !r.complete ==> n > 0 && !r.nodes@[n - 1].children.complete,
    }
}

proof fn lemma_tlv_bounds(s: Seq<u8>)
    ensures
        tlv(s) is Ok ==> 0 < tlv(s).unwrap().1 && 0 <= tlv(s).unwrap().2 && tlv(s).unwrap().1
            + tlv(s).unwrap().2 <= s.len(),
{
}

proof fn lemma_next_record(s: Seq<u8>, k: nat)
    requires
        k <= tlv_records(s).len(),
        after(s, k).len() > 0,
        tlv(after(s, k)) is Ok,
    ensures
        ({
            let a = after(s, k);
            let (t, off, len) = tlv(a).unwrap();
            &&& tlv_records(s).len() > k
            &&& tlv_records(s)[k as int] == (t, a.subrange(off, off + len))
            &&& after(s, k + 1) == a.subrange(off + len, a.len() as int)
        }),
    decreases k,
{
    lemma_tlv_bounds(s);
    if k > 0 {
        if s.len() > 0 && tlv(s) is Ok {
            let (t, off, len) = tlv(s).unwrap();
            let rest = s.subrange(off + len, s.len() as int);
            assert(tlv_records(s) == seq![(t, s.subrange(off, off + len))] + tlv_records(rest));
            assert(after(s, k) == after(rest, (k - 1) as nat));
            lemma_next_record(rest, (k - 1) as nat);
            assert(after(s, k + 1) == after(rest, k));
        }
    } else {
        let (t, off, len) = tlv(s).unwrap();
        let rest = s.subrange(off + len, s.len() as int);
        assert(tlv_records(s) == seq![(t, s.subrange(off, off + len))] + tlv_records(rest));
        assert(after(s, 1) == after(rest, 0));
    }
}

proof fn lemma_last_record(s: Seq<u8>, k: nat)
    requires
        k <= tlv_records(s).len(),
        after(s, k).len() == 0,
    ensures
        tlv_records(s).len() == k,
    decreases k,
{
    lemma_tlv_bounds(s);
    if k > 0 && s.len() > 0 {
        let (t, off, len) = tlv(s).unwrap();
        lemma_last_record(s.subrange(off + len, s.len() as int), (k - 1) as nat);
    }
}

proof fn lemma_stop_record(s: Seq<u8>, k: nat)
    requires
        k <= tlv_records(s).len(),
        after(s, k).len() > 0,
        tlv(after(s, k)) is Err,
    ensures
        tlv_records(s).len() == k,
    decreases k,
{
    lemma_tlv_bounds(s);
    if k > 0 && s.len() > 0 && tlv(s) is Ok {
        let (t, off, len) = tlv(s).unwrap();
        let rest = s.subrange(off + len, s.len() as int);
        assert(tlv_records(s) == seq![(t, s.subrange(off, off + len))] + tlv_records(rest));
        lemma_stop_record(rest, (k - 1) as nat);
    }
}

/// A decoding is complete exactly when its content slice reads fully.
proof fn lemma_complete_iff(r: Records, s: Seq<u8>, depth: nat)
    requires
        decoded(r, s, depth),
    ensures
        r.complete == reads_fully(s, depth),
    decreases depth,
{
    let recs = tlv_records(s);
    let n = r.nodes@.len();
    if r.complete {
        assert forall|i: int| 0 <= i < recs.len() implies content_error(
            (#[trigger] recs[i]).0,
            recs[i].1,
            depth,
        ) is None && (is_constructed(recs[i].0) ==> depth > 0 && reads_fully(
            recs[i].1,
            (depth - 1) as nat,
        )) by {
            let node = r.nodes@[i];
            if is_constructed(node.tag) {
                lemma_complete_iff(node.children, node.content@, (depth - 1) as nat);
            }
        }
    } else {
        match r.failure {
            Some(f) => {
                let a = after(s, n);
                if tlv(a) is Err {
                    lemma_stop_record(s, n);
                } else {
                    lemma_next_record(s, n);
                    assert(content_error(recs[n as int].0, recs[n as int].1, depth) is Some);
                }
            },
            None => {
                let node = r.nodes@[n - 1];
                assert(node == r.nodes@[n - 1]);
                if is_constructed(node.tag) {
                    lemma_complete_iff(node.children, node.content@, (depth - 1) as nat);
                    assert(!reads_fully(recs[n - 1].1, (depth - 1) as nat));
                }
            },
        }
    }
}

fn leaf<'a>() -> (r: Records<'a>)
    ensures
        is_leaf(r),
{
    Records { nodes: Vec::new(), failure: None, complete: true }
}

/// Decodes one record's content according to its tag.
fn decode_node<'a>(tag: Tag, content: &'a [u8], depth: usize) -> (r: Result<Node<'a>>)
    ensures
        match content_error(tag, content@, depth as nat) {
            Some(k) => r == Err::<Node<'a>, Error>(Error(k)),
            None => r is Ok && ({
                let node = r.unwrap();
                &&& node.tag == tag
                &&& node.content@ == content@
                &&& value_of(tag, content@, node.value)
                &&& if is_constructed(tag) {
                    depth > 0 && decoded(node.children, content@, (depth - 1) as nat)
                } else if tag == Tag::OctetString {
                    if depth > 0 && reads_fully(content@, (depth - 1) as nat) {
                        node.children.complete && decoded(node.children, content@, (depth - 1) as nat)
                    } else {
                        is_leaf(node.children)
                    }
                } else {
                    is_leaf(node.children)
                }
            }),
        },
    decreases depth, 0nat,
{
    match tag {
        Tag::Boolean => {
            let b = interpret_boolean(content)?;
            Ok(Node { tag, content, value: Value::Boolean(b), children: leaf() })
        },
        Tag::OID => {
            let text = stringify(content)?;
            let name = find(text.as_str());
            Ok(Node { tag, content, value: Value::Oid(text, name), children: leaf() })
        },
        Tag::PrintableString => {
            let text = interpret_printable_string(content)?;
            Ok(Node { tag, content, value: Value::Text(text), children: leaf() })
        },
        Tag::Utf8String => {
            let text = interpret_utf8_string(content)?;
            Ok(Node { tag, content, value: Value::Text(text), children: leaf() })
        },
        Tag::BMPString => {
            let text = interpret_bmp_string(content)?;
            Ok(Node { tag, content, value: Value::Text(text), children: leaf() })
        },
        Tag::UTCTime | Tag::GeneralizedTime => {
            let t = interpret_time(tag, content)?;
            Ok(Node { tag, content, value: Value::Time(t), children: leaf() })
        },
        Tag::OctetString => {
            // Octet strings often wrap further records: keep them as children
            // when the whole content reads as such, else show the bytes.
            let mut children = leaf();
            if depth > 0 {
                let nested = decode_records(content, depth - 1);
                proof {
                    lemma_complete_iff(nested, content@, (depth - 1) as nat);
                }
                if nested.complete {
                    children = nested;
                }
            }
            Ok(Node { tag, content, value: Value::Bytes, children })
        },
        Tag::Sequence | Tag::SetOf | Tag::ContextSpecificConstructed0
        | Tag::ContextSpecificConstructed1 | Tag::ContextSpecificConstructed2
        | Tag::ContextSpecificConstructed3 => {
            if depth == 0 {
                return Err(Error(ErrorKind::TooDeep));
            }
            let children = decode_records(content, depth - 1);
            Ok(Node { tag, content, value: Value::Constructed, children })
        },
        _ => Ok(Node { tag, content, value: Value::Bytes, children: leaf() }),
    }
}

/// Decodes the run of records that fills `content`, descending at most
/// `depth` levels into constructed records, and stops at the first failure.
#[verifier::rlimit(40)]
pub fn decode_records<'a>(content: &'a [u8], depth: usize) -> (r: Records<'a>)
    ensures
        decoded(r, content@, depth as nat),
    decreases depth, 1nat,
{
    let ghost s = content@;
    let mut reader = Reader::new(content);
    let mut nodes: Vec<Node<'a>> = Vec::new();
    assert(reader.rest() =~= s);
    while !reader.at_end()
        invariant
            s == content@,
            reader.wf(),
            reader.data() == s,
            nodes@.len() <= tlv_records(s).len(),
            reader.rest() == after(s, nodes@.len() as nat),
            forall|i: int|
                0 <= i < nodes@.len() ==> {
                    let node = #[trigger] nodes@[i];
                    &&& node.tag == tlv_records(s)[i].0
                    &&& node.content@ == tlv_records(s)[i].1
                    &&& content_error(node.tag, node.content@, depth as nat) is None
                    &&& value_of(node.tag, node.content@, node.value)
                    &&& if is_constructed(node.tag) {
                        depth > 0 && decoded(node.children, node.content@, (depth - 1) as nat)
                    } else if node.tag == Tag::OctetString {
                        if depth > 0 && reads_fully(node.content@, (depth - 1) as nat) {
                            node.children.complete && decoded(
                                node.children,
                                node.content@,
                                (depth - 1) as nat,
                            )
                        } else {
                            is_leaf(node.children)
                        }
                    } else {
                        is_leaf(node.children)
                    }
                    &&& node.children.complete
                },
        decreases reader.data().len() - reader.pos(),
    {
        let remaining = reader.len();
        let ghost a = reader.rest();
        let ghost k = nodes@.len() as nat;
        match read_tag_and_get_value(&mut reader) {
            Err(e) => {
                return Records { nodes, failure: Some(Failure { error: e, remaining }), complete: false };
            },
            Ok((tag, sub)) => {
                proof {
                    lemma_next_record(s, k);
                    lemma_tlv_bounds(a);
                    assert(reader.rest() =~= after(s, k + 1));
                }
                match decode_node(tag, sub, depth) {
                    Err(e) => {
                        return Records {
                            nodes,
                            failure: Some(Failure { error: e, remaining }),
                            complete: false,
                        };
                    },
                    Ok(node) => {
                        let whole = node.children.complete;
                        nodes.push(node);
                        if !whole {
                            return Records { nodes, failure: None, complete: false };
                        }
                    },
                }
            },
        }
    }
    proof {
        lemma_last_record(s, nodes@.len() as nat);
    }
    Records { nodes, failure: None, complete: true }
}

/// How deeply `decode` descends into nested records.
pub const MAX_DEPTH: usize = 64;

/// Decodes a whole buffer into its tree of records, nesting at most
/// `MAX_DEPTH` levels.
pub fn decode<'a>(input: &'a [u8]) -> (r: Records<'a>)
    ensures
        decoded(r, input@, MAX_DEPTH as nat),
{
    decode_records(input, MAX_DEPTH)
}

} // verus!
