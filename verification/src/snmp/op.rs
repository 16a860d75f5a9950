//! Requests of the client operations and the interpretation of replies.

use crate::error::SnmpError;
use crate::iter::{lemma_advance_in_subtree, spec_advance, GetIter, SpecIter};
use crate::oid::{spec_contains, spec_parse_dotted, SnmpOid};
use crate::snmp::get::{oids_view, SnmpGet};
use crate::snmp::getbulk::SnmpGetBulk;
use crate::snmp::getresponse::{SnmpVar, SpecVar};
use crate::snmp::pdu::{SnmpPdu, SpecPdu};
use crate::value::{SnmpValue, SpecValue};
use vstd::prelude::*;
use vstd::string::StringSliceAdditionalSpecFns;

verus! {

/// Whether a value carries data: not NULL and not one of the exceptions.
pub open spec fn is_data(v: SpecValue) -> bool {
    !(v is Null || v is NoSuchObject || v is NoSuchInstance || v is EndOfMibView)
}

fn value_is_data(v: &SnmpValue) -> (r: bool)
    ensures
        r == is_data(v@),
{
    match v {
        SnmpValue::Null | SnmpValue::NoSuchObject | SnmpValue::NoSuchInstance
        | SnmpValue::EndOfMibView => false,
        _ => true,
    }
}

/// Outcome of a step of a walk.
#[derive(Debug, Clone, Copy, PartialEq, Eq, Structural)]
pub enum WalkStep {
    /// The walk is over.
    Stop,
    /// The binding with this index is the next item.
    Item(usize),
}

/// Single-value GET.
pub struct OpGet;

/// Reply to a single-value GET: the index of the binding whose value is
/// returned, or none for an empty reply or a NULL value.
pub open spec fn spec_get_reply(p: SpecPdu) -> Result<Option<usize>, SnmpError> {
    match p {
        SpecPdu::GetResponse(resp) => if resp.vars.len() == 0 {
            Ok(None)
        } else if resp.vars.len() == 1 {
            let v = resp.vars[0].value;
            if v is NoSuchObject || v is NoSuchInstance || v is EndOfMibView {
                Err(SnmpError::NoSuchInstance)
            } else if v is Null {
                Ok(None)
            } else {
                Ok(Some(0))
            }
        } else {
            Err(SnmpError::InvalidPdu)
        },
        SpecPdu::Report(_) => Err(SnmpError::AuthenticationFailed),
        _ => Err(SnmpError::InvalidPdu),
    }
}

/// Whether a value is one of the exceptions an agent puts in place of a
/// missing value.
pub open spec fn is_exception(v: SpecValue) -> bool {
    v is NoSuchObject || v is NoSuchInstance || v is EndOfMibView
}

/// What a GET returns: for a response with a single binding, the error
/// `NoSuchInstance` when its value is an exception, nothing when it is
/// NULL and that binding otherwise; nothing for a response without
/// bindings; `InvalidPdu` for more bindings or a PDU that is not a
/// response, and `AuthenticationFailed` for a report.
pub proof fn lemma_get_reply(p: SpecPdu)
    ensures
        p matches SpecPdu::GetResponse(resp) && resp.vars.len() == 1 && is_exception(
            resp.vars[0].value,
        ) ==> spec_get_reply(p) == Err::<Option<usize>, SnmpError>(SnmpError::NoSuchInstance),
        spec_get_reply(p) == Ok::<Option<usize>, SnmpError>(None) <==> (p matches SpecPdu::GetResponse(
            resp,
        ) && (resp.vars.len() == 0 || (resp.vars.len() == 1 && resp.vars[0].value is Null))),
        spec_get_reply(p) == Ok::<Option<usize>, SnmpError>(Some(0)) <==> (p matches SpecPdu::GetResponse(
            resp,
        ) && resp.vars.len() == 1 && !is_exception(resp.vars[0].value) && !(
        resp.vars[0].value is Null)),
        spec_get_reply(p) matches Ok(Some(i)) ==> i == 0,
        p matches SpecPdu::GetResponse(resp) && resp.vars.len() > 1 ==> spec_get_reply(p) == Err::<
            Option<usize>,
            SnmpError,
        >(SnmpError::InvalidPdu),
        p is Report ==> spec_get_reply(p) == Err::<Option<usize>, SnmpError>(
            SnmpError::AuthenticationFailed,
        ),
        !(p is Report) && !(p is GetResponse) ==> spec_get_reply(p) == Err::<
            Option<usize>,
            SnmpError,
        >(SnmpError::InvalidPdu),
{
}

impl OpGet {
    /// GetRequest for one identifier in dotted notation.
    pub fn request(oid: &str, request_id: i64) -> (r: Result<SnmpPdu<'static>, SnmpError>)
        ensures
            match r {
                Ok(p) => spec_parse_dotted(oid.spec_bytes()) matches Ok(o) && p@ == SpecPdu::GetRequest(
                    crate::snmp::get::SpecGet { request_id, vars: seq![o] },
                ),
                Err(e) => spec_parse_dotted(oid.spec_bytes()) == Err::<Seq<u32>, SnmpError>(e),
            },
    {
        let o = SnmpOid::from_dotted(oid)?;
        let mut vars: Vec<SnmpOid> = Vec::new();
        vars.push(o);
        assert(oids_view(vars@) =~= seq![vars@[0]@]);
        Ok(SnmpPdu::GetRequest(SnmpGet { request_id, vars }))
    }

    /// Interpret the reply.
    pub fn reply(pdu: &SnmpPdu) -> (r: Result<Option<usize>, SnmpError>)
        ensures
            r == spec_get_reply(pdu@),
    {
        match pdu {
            SnmpPdu::GetResponse(resp) => {
                let n = resp.vars.len();
                if n == 0 {
                    Ok(None)
                } else if n == 1 {
                    match &resp.vars[0].value {
                        SnmpValue::NoSuchObject | SnmpValue::NoSuchInstance
                        | SnmpValue::EndOfMibView => Err(SnmpError::NoSuchInstance),
                        SnmpValue::Null => Ok(None),
                        _ => Ok(Some(0)),
                    }
                } else {
                    Err(SnmpError::InvalidPdu)
                }
            },
            SnmpPdu::Report(_) => Err(SnmpError::AuthenticationFailed),
            _ => Err(SnmpError::InvalidPdu),
        }
    }
}

/// Indices, in order, of the bindings among the first `n` that carry data.
pub open spec fn data_indices(vars: Seq<SpecVar>, n: nat) -> Seq<usize>
    decreases n,
{
    if n == 0 {
        Seq::<usize>::empty()
    } else if is_data(vars[n - 1].value) {
        data_indices(vars, (n - 1) as nat).push((n - 1) as usize)
    } else {
        data_indices(vars, (n - 1) as nat)
    }
}

proof fn lemma_data_indices(vars: Seq<SpecVar>, n: nat)
    requires
        n <= vars.len(),
        vars.len() <= usize::MAX,
    ensures
        forall|k: int|
            0 <= k < data_indices(vars, n).len() ==> {
                let j = #[trigger] data_indices(vars, n)[k];
                &&& j < n
                &&& !(vars[j as int].value is Null)
                &&& !is_exception(vars[j as int].value)
            },
        forall|j: int|
            0 <= j < n && !(vars[j].value is Null) && !is_exception(vars[j].value) ==> exists|k: int|
                0 <= k < data_indices(vars, n).len() && #[trigger] data_indices(vars, n)[k] == j,
        forall|k1: int, k2: int|
            0 <= k1 < k2 < data_indices(vars, n).len() ==> data_indices(vars, n)[k1] < data_indices(
                vars,
                n,
            )[k2],
    decreases n,
{
    if n > 0 {
        lemma_data_indices(vars, (n - 1) as nat);
        let prev = data_indices(vars, (n - 1) as nat);
        let cur = data_indices(vars, n);
        assert forall|j: int|
            0 <= j < n && !(vars[j].value is Null) && !is_exception(vars[j].value) implies exists|
            k: int,
        | 0 <= k < cur.len() && #[trigger] cur[k] == j by {
            if j == n - 1 {
                assert(is_data(vars[n - 1].value));
                assert(cur == prev.push((n - 1) as usize));
                assert(cur[cur.len() - 1] == j);
            } else {
                let k = choose|k: int| 0 <= k < prev.len() && #[trigger] prev[k] == j;
                assert(cur[k] == j);
            }
        }
    }
}

/// What a GET of several values returns for a response: the indices, in
/// increasing order, of exactly those bindings whose value is neither
/// NULL nor an exception (of a response that fits in memory).
pub proof fn lemma_get_many_reply(p: SpecPdu)
    ensures
        p matches SpecPdu::GetResponse(resp) ==> resp.vars.len() <= usize::MAX ==> {
            &&& spec_get_many_reply(p) matches Ok(idx)
            &&& forall|k: int|
                0 <= k < idx.len() ==> {
                    let j = #[trigger] idx[k];
                    &&& j < resp.vars.len()
                    &&& !(resp.vars[j as int].value is Null)
                    &&& !is_exception(resp.vars[j as int].value)
                }
            &&& forall|j: int|
                0 <= j < resp.vars.len() && !(resp.vars[j].value is Null) && !is_exception(
                    resp.vars[j].value,
                ) ==> exists|k: int| 0 <= k < idx.len() && #[trigger] idx[k] == j
            &&& forall|k1: int, k2: int| 0 <= k1 < k2 < idx.len() ==> idx[k1] < idx[k2]
        },
        p is Report ==> spec_get_many_reply(p) == Err::<Seq<usize>, SnmpError>(
            SnmpError::AuthenticationFailed,
        ),
        !(p is Report) && !(p is GetResponse) ==> spec_get_many_reply(p) == Err::<
            Seq<usize>,
            SnmpError,
        >(SnmpError::InvalidPdu),
{
    if let SpecPdu::GetResponse(resp) = p {
        if resp.vars.len() <= usize::MAX {
            lemma_data_indices(resp.vars, resp.vars.len());
        }
    }
}

/// GET of several values.
pub struct OpGetMany;

/// Reply to a GET of several values: the indices of the bindings that
/// carry data.
pub open spec fn spec_get_many_reply(p: SpecPdu) -> Result<Seq<usize>, SnmpError> {
    match p {
        SpecPdu::GetResponse(resp) => Ok(data_indices(resp.vars, resp.vars.len())),
        SpecPdu::Report(_) => Err(SnmpError::AuthenticationFailed),
        _ => Err(SnmpError::InvalidPdu),
    }
}

impl OpGetMany {
    /// GetRequest for several identifiers in dotted notation; fails with
    /// the error of the first one that does not parse.
    pub fn request(oids: &Vec<String>, request_id: i64) -> (r: Result<
        SnmpPdu<'static>,
        SnmpError,
    >)
        ensures
            match r {
                Ok(p) => p@ matches SpecPdu::GetRequest(g) && g.request_id == request_id
                    && g.vars.len() == oids@.len() && forall|i: int|
                    0 <= i < oids@.len() ==> spec_parse_dotted(#[trigger] vstd::utf8::encode_utf8(oids@[i]@))
                        == Ok::<Seq<u32>, SnmpError>(g.vars[i]),
                Err(e) => exists|i: int|
                    0 <= i < oids@.len() && spec_parse_dotted(
                        #[trigger] vstd::utf8::encode_utf8(oids@[i]@),
                    ) == Err::<Seq<u32>, SnmpError>(e) && forall|j: int|
                        0 <= j < i ==> spec_parse_dotted(
                            #[trigger] vstd::utf8::encode_utf8(oids@[j]@),
                        ) is Ok,
            },
    {
        let mut vars: Vec<SnmpOid> = Vec::new();
        let mut i: usize = 0;
        while i < oids.len()
            invariant
                i <= oids@.len(),
                vars@.len() == i,
                forall|k: int|
                    0 <= k < i ==> spec_parse_dotted(#[trigger] vstd::utf8::encode_utf8(oids@[k]@))
                        == Ok::<Seq<u32>, SnmpError>(vars@[k]@),
            decreases oids@.len() - i,
        {
            match SnmpOid::from_dotted(oids[i].as_str()) {
                Ok(o) => {
                    vars.push(o);
                },
                Err(e) => {
                    return Err(e);
                },
            }
            i = i + 1;
        }
        Ok(SnmpPdu::GetRequest(SnmpGet { request_id, vars }))
    }

    /// Interpret the reply.
    pub fn reply(pdu: &SnmpPdu) -> (r: Result<Vec<usize>, SnmpError>)
        ensures
            match r {
                Ok(v) => spec_get_many_reply(pdu@) == Ok::<Seq<usize>, SnmpError>(v@),
                Err(e) => spec_get_many_reply(pdu@) == Err::<Seq<usize>, SnmpError>(e),
            },
    {
        match pdu {
            SnmpPdu::GetResponse(resp) => {
                let mut out: Vec<usize> = Vec::new();
                let mut i: usize = 0;
                while i < resp.vars.len()
                    invariant
                        i <= resp.vars@.len(),
                        out@ == data_indices(resp@.vars, i as nat),
                    decreases resp.vars@.len() - i,
                {
                    if value_is_data(&resp.vars[i].value) {
                        out.push(i);
                    }
                    i = i + 1;
                }
                Ok(out)
            },
            SnmpPdu::Report(_) => Err(SnmpError::AuthenticationFailed),
            _ => Err(SnmpError::InvalidPdu),
        }
    }
}

/// Walk with GetNext requests.
pub struct OpGetNext;

/// Reply to a GetNext step and the walk state after it: a single binding
/// moves the walk when it lies in the subtree, and is an item unless it
/// ends the view or is NULL.
pub open spec fn spec_get_next_reply(p: SpecPdu, it: SpecIter) -> (Result<WalkStep, SnmpError>, SpecIter) {
    match p {
        SpecPdu::GetResponse(resp) => if resp.vars.len() == 0 {
            (Ok(WalkStep::Stop), it)
        } else if resp.vars.len() == 1 {
            let var = resp.vars[0];
            let it2 = spec_advance(it, var.oid);
            if !spec_contains(it.start, var.oid) {
                (Ok(WalkStep::Stop), it2)
            } else if var.value is EndOfMibView || var.value is Null {
                (Ok(WalkStep::Stop), it2)
            } else {
                (Ok(WalkStep::Item(0)), it2)
            }
        } else {
            (Err(SnmpError::InvalidPdu), it)
        },
        SpecPdu::Report(_) => (Err(SnmpError::AuthenticationFailed), it),
        _ => (Err(SnmpError::InvalidPdu), it),
    }
}

/// A GetNext step keeps the walk in its subtree.
pub proof fn lemma_get_next_in_subtree(p: SpecPdu, it: SpecIter)
    requires
        spec_contains(it.start, it.next),
    ensures
        spec_get_next_reply(p, it).1.start == it.start,
        spec_contains(it.start, spec_get_next_reply(p, it).1.next),
{
    if let SpecPdu::GetResponse(resp) = p {
        if resp.vars.len() == 1 {
            lemma_advance_in_subtree(it, resp.vars[0].oid);
        }
    }
}

/// What a GetNext step does with a response holding one binding: the
/// walk moves to its identifier when that lies in the walked subtree (has
/// the root as a prefix) and stays otherwise; the binding is an item
/// exactly when it lies in the subtree and its value is neither
/// EndOfMibView nor NULL. A response without bindings ends the walk,
/// more bindings are `InvalidPdu`, a report is `AuthenticationFailed`;
/// in all these cases the walk stays.
pub proof fn lemma_get_next_reply(p: SpecPdu, it: SpecIter)
    ensures
        p matches SpecPdu::GetResponse(resp) ==> resp.vars.len() == 1 ==> ({
            let oid = resp.vars[0].oid;
            let v = resp.vars[0].value;
            let inside = it.start.len() <= oid.len() && oid.subrange(0, it.start.len() as int)
                == it.start;
            let (r, it2) = spec_get_next_reply(p, it);
            &&& r is Ok
            &&& (r == Ok::<WalkStep, SnmpError>(WalkStep::Item(0)) <==> inside && !(
            v is EndOfMibView) && !(v is Null))
            &&& (r != Ok::<WalkStep, SnmpError>(WalkStep::Item(0)) ==> r == Ok::<
                WalkStep,
                SnmpError,
            >(WalkStep::Stop))
            &&& it2.start == it.start
            &&& it2.max_repetitions == it.max_repetitions
            &&& it2.next == (if inside {
                oid
            } else {
                it.next
            })
        }),
        p matches SpecPdu::GetResponse(resp) ==> resp.vars.len() == 0 ==> spec_get_next_reply(p, it)
            == (Ok::<WalkStep, SnmpError>(WalkStep::Stop), it),
        p matches SpecPdu::GetResponse(resp) ==> resp.vars.len() > 1 ==> spec_get_next_reply(p, it)
            == (Err::<WalkStep, SnmpError>(SnmpError::InvalidPdu), it),
        p is Report ==> spec_get_next_reply(p, it) == (Err::<WalkStep, SnmpError>(
            SnmpError::AuthenticationFailed,
        ), it),
        !(p is Report) && !(p is GetResponse) ==> spec_get_next_reply(p, it) == (Err::<
            WalkStep,
            SnmpError,
        >(SnmpError::InvalidPdu), it),
{
}

impl OpGetNext {
    /// GetNextRequest for one identifier.
    pub fn request(oid: SnmpOid, request_id: i64) -> (r: SnmpPdu<'static>)
        ensures
            r@ == SpecPdu::GetNextRequest(
                crate::snmp::get::SpecGet { request_id, vars: seq![oid@] },
            ),
    {
        let ghost o = oid@;
        let mut vars: Vec<SnmpOid> = Vec::new();
        vars.push(oid);
        assert(oids_view(vars@) =~= seq![o]);
        SnmpPdu::GetNextRequest(SnmpGet { request_id, vars })
    }

    /// Interpret the reply and advance the walk.
    pub fn reply(pdu: &SnmpPdu, iter: &mut GetIter) -> (r: Result<WalkStep, SnmpError>)
        ensures
            (r, final(iter)@) == spec_get_next_reply(pdu@, old(iter)@),
    {
        match pdu {
            SnmpPdu::GetResponse(resp) => {
                let n = resp.vars.len();
                if n == 0 {
                    Ok(WalkStep::Stop)
                } else if n == 1 {
                    let var = &resp.vars[0];
                    if !iter.set_next_oid(&var.oid) {
                        return Ok(WalkStep::Stop);
                    }
                    match &var.value {
                        SnmpValue::EndOfMibView | SnmpValue::Null => Ok(WalkStep::Stop),
                        _ => Ok(WalkStep::Item(0)),
                    }
                } else {
                    Err(SnmpError::InvalidPdu)
                }
            },
            SnmpPdu::Report(_) => Err(SnmpError::AuthenticationFailed),
            _ => Err(SnmpError::InvalidPdu),
        }
    }
}

/// Walk with GetBulk requests.
pub struct OpGetBulk;

/// Items of a GetBulk reply from binding `i` on: bindings without data
/// are skipped; a binding outside the subtree ends the list with a `None`
/// marker; the others are items and move the walk.
pub open spec fn bulk_items(vars: Seq<SpecVar>, i: nat, it: SpecIter, acc: Seq<Option<usize>>) -> (
    Seq<Option<usize>>,
    SpecIter,
)
    decreases vars.len() - i,
{
    if i >= vars.len() {
        (acc, it)
    } else if !is_data(vars[i as int].value) {
        bulk_items(vars, i + 1, it, acc)
    } else if !spec_contains(it.start, vars[i as int].oid) {
        (acc.push(None), it)
    } else {
        bulk_items(vars, i + 1, spec_advance(it, vars[i as int].oid), acc.push(Some(i as usize)))
    }
}

/// Reply to a GetBulk step and the walk state after it: the list of
/// items, or `None` when the walk is over.
pub open spec fn spec_get_bulk_reply(p: SpecPdu, it: SpecIter) -> (
    Result<Option<Seq<Option<usize>>>, SnmpError>,
    SpecIter,
) {
    match p {
        SpecPdu::GetResponse(resp) => if resp.vars.len() == 0 {
            (Ok(None), it)
        } else {
            let (items, it2) = bulk_items(resp.vars, 0, it, Seq::<Option<usize>>::empty());
            if items.len() == 0 {
                (Ok(None), it2)
            } else {
                (Ok(Some(items)), it2)
            }
        },
        SpecPdu::Report(_) => (Err(SnmpError::AuthenticationFailed), it),
        _ => (Err(SnmpError::InvalidPdu), it),
    }
}

proof fn lemma_bulk_items_in_subtree(
    vars: Seq<SpecVar>,
    i: nat,
    it: SpecIter,
    acc: Seq<Option<usize>>,
)
    requires
        spec_contains(it.start, it.next),
    ensures
        bulk_items(vars, i, it, acc).1.start == it.start,
        spec_contains(it.start, bulk_items(vars, i, it, acc).1.next),
    decreases vars.len() - i,
{
    if i < vars.len() {
        if !is_data(vars[i as int].value) {
            lemma_bulk_items_in_subtree(vars, i + 1, it, acc);
        } else if spec_contains(it.start, vars[i as int].oid) {
            let it2 = spec_advance(it, vars[i as int].oid);
            lemma_advance_in_subtree(it, vars[i as int].oid);
            lemma_bulk_items_in_subtree(vars, i + 1, it2, acc.push(Some(i as usize)));
        }
    }
}

/// Whether a value carries data: it is neither NULL nor an exception.
pub open spec fn carries_data(v: SpecValue) -> bool {
    !(v is Null) && !is_exception(v)
}

/// Whether `oid` has `root` as a prefix.
pub open spec fn has_prefix(oid: Seq<u32>, root: Seq<u32>) -> bool {
    root.len() <= oid.len() && oid.subrange(0, root.len() as int) == root
}

/// The list of GetBulk items `out` for the bindings `vars` of a walk of
/// the subtree `root`: every entry but the last is an item; an item is
/// the index of a binding that carries data and lies in the subtree, in
/// increasing order; a last `None` is there only when some binding with
/// data lies outside the subtree, and then there is one; every binding
/// with data in the subtree
/// that no binding with data outside the subtree precedes is an item.
pub open spec fn bulk_items_are(out: Seq<Option<usize>>, vars: Seq<SpecVar>, root: Seq<u32>) -> bool {
    &&& forall|k: int|
        0 <= k < out.len() && #[trigger] out[k] is Some ==> {
            let j = out[k]->0;
            &&& j < vars.len()
            &&& carries_data(vars[j as int].value)
            &&& has_prefix(vars[j as int].oid, root)
        }
    &&& forall|k: int| 0 <= k < out.len() - 1 ==> #[trigger] out[k] is Some
    &&& forall|k1: int, k2: int|
        0 <= k1 < k2 < out.len() && #[trigger] out[k1] is Some && #[trigger] out[k2] is Some
            ==> out[k1]->0 < out[k2]->0
    &&& out.len() > 0 && out[out.len() - 1] is None <==> exists|j: int|
        0 <= j < vars.len() && carries_data(#[trigger] vars[j].value) && !has_prefix(
            vars[j].oid,
            root,
        )
    &&& forall|j: int|
        0 <= j < vars.len() && carries_data(#[trigger] vars[j].value) && has_prefix(vars[j].oid, root)
            && (forall|j2: int|
            0 <= j2 < j && carries_data(#[trigger] vars[j2].value) ==> has_prefix(vars[j2].oid, root))
            ==> exists|k: int| 0 <= k < out.len() && out[k] == Some(j as usize)
}

proof fn lemma_bulk_items_are(
    vars: Seq<SpecVar>,
    i: nat,
    it: SpecIter,
    acc: Seq<Option<usize>>,
)
    requires
        i <= vars.len() <= usize::MAX,
        forall|k: int|
            0 <= k < acc.len() ==> {
                &&& #[trigger] acc[k] is Some
                &&& acc[k]->0 < i
                &&& carries_data(vars[acc[k]->0 as int].value)
                &&& has_prefix(vars[acc[k]->0 as int].oid, it.start)
            },
        forall|k1: int, k2: int|
            0 <= k1 < k2 < acc.len() ==> #[trigger] acc[k1]->0 < #[trigger] acc[k2]->0,
        forall|j: int|
            0 <= j < i && carries_data(#[trigger] vars[j].value) ==> has_prefix(vars[j].oid, it.start)
                && exists|k: int| 0 <= k < acc.len() && acc[k] == Some(j as usize),
    ensures
        bulk_items_are(bulk_items(vars, i, it, acc).0, vars, it.start),
        acc.len() <= bulk_items(vars, i, it, acc).0.len(),
        bulk_items(vars, i, it, acc).0.subrange(0, acc.len() as int) == acc,
        bulk_items(vars, i, it, acc).1.start == it.start,
        bulk_items(vars, i, it, acc).1.max_repetitions == it.max_repetitions,
    decreases vars.len() - i,
{
    let out = bulk_items(vars, i, it, acc).0;
    if i >= vars.len() {
        assert(out == acc);
        assert(out.subrange(0, acc.len() as int) =~= acc);
        assert forall|j: int|
            0 <= j < vars.len() && carries_data(#[trigger] vars[j].value) && has_prefix(
                vars[j].oid,
                it.start,
            ) && (forall|j2: int|
                0 <= j2 < j && carries_data(#[trigger] vars[j2].value) ==> has_prefix(
                    vars[j2].oid,
                    it.start,
                )) implies exists|k: int| 0 <= k < out.len() && out[k] == Some(j as usize) by {
            assert(carries_data(vars[j].value));
        }
    } else if !carries_data(vars[i as int].value) {
        assert(!is_data(vars[i as int].value));
        lemma_bulk_items_are(vars, i + 1, it, acc);
    } else if !has_prefix(vars[i as int].oid, it.start) {
        assert(!spec_contains(it.start, vars[i as int].oid));
        let o = acc.push(None);
        assert(out == o);
        assert(o.subrange(0, acc.len() as int) =~= acc);
        assert(carries_data(vars[i as int].value));
        assert forall|k: int| 0 <= k < o.len() - 1 implies #[trigger] o[k] is Some by {
            assert(o[k] == acc[k]);
        }
        assert forall|k: int|
            0 <= k < o.len() && #[trigger] o[k] is Some implies ({
                let j = o[k]->0;
                &&& j < vars.len()
                &&& carries_data(vars[j as int].value)
                &&& has_prefix(vars[j as int].oid, it.start)
            }) by {
            assert(o[k] == acc[k]);
        }
        assert forall|k1: int, k2: int|
            0 <= k1 < k2 < o.len() && #[trigger] o[k1] is Some && #[trigger] o[k2] is Some
                implies o[k1]->0 < o[k2]->0 by {
            assert(o[k1] == acc[k1]);
            assert(o[k2] == acc[k2]);
        }
        assert forall|j: int|
            0 <= j < vars.len() && carries_data(#[trigger] vars[j].value) && has_prefix(
                vars[j].oid,
                it.start,
            ) && (forall|j2: int|
                0 <= j2 < j && carries_data(#[trigger] vars[j2].value) ==> has_prefix(
                    vars[j2].oid,
                    it.start,
                )) implies exists|k: int| 0 <= k < o.len() && o[k] == Some(j as usize) by {
            if j >= i {
                assert(carries_data(vars[i as int].value));
                assert(j != i);
                assert(!has_prefix(vars[i as int].oid, it.start));
            } else {
                let k = choose|k: int| 0 <= k < acc.len() && acc[k] == Some(j as usize);
                assert(o[k] == acc[k]);
            }
        }
        assert(out.len() > 0 && out[out.len() - 1] is None ==> carries_data(vars[i as int].value)
            && !has_prefix(vars[i as int].oid, it.start));
    } else {
        assert(is_data(vars[i as int].value));
        assert(spec_contains(it.start, vars[i as int].oid));
        let it2 = spec_advance(it, vars[i as int].oid);
        let a2 = acc.push(Some(i as usize));
        assert forall|k: int|
            0 <= k < a2.len() implies {
                &&& #[trigger] a2[k] is Some
                &&& a2[k]->0 < i + 1
                &&& carries_data(vars[a2[k]->0 as int].value)
                &&& has_prefix(vars[a2[k]->0 as int].oid, it2.start)
            } by {
            if k < acc.len() {
                assert(a2[k] == acc[k]);
            }
        }
        assert forall|k1: int, k2: int| 0 <= k1 < k2 < a2.len() implies #[trigger] a2[k1]->0
            < #[trigger] a2[k2]->0 by {
            if k2 < acc.len() {
                assert(a2[k1] == acc[k1]);
                assert(a2[k2] == acc[k2]);
            } else {
                assert(a2[k1] == acc[k1]);
            }
        }
        assert forall|j: int|
            0 <= j < i + 1 && carries_data(#[trigger] vars[j].value) implies has_prefix(
                vars[j].oid,
                it2.start,
            ) && exists|k: int| 0 <= k < a2.len() && a2[k] == Some(j as usize) by {
            if j == i {
                assert(a2[acc.len() as int] == Some(j as usize));
            } else {
                let k = choose|k: int| 0 <= k < acc.len() && acc[k] == Some(j as usize);
                assert(a2[k] == acc[k]);
            }
        }
        lemma_bulk_items_are(vars, i + 1, it2, a2);
        assert(out.subrange(0, a2.len() as int) == a2);
        assert(out.subrange(0, acc.len() as int) =~= a2.subrange(0, acc.len() as int));
        assert(a2.subrange(0, acc.len() as int) =~= acc);
    }
}

/// What a GetBulk step returns for a response with bindings: a list of
/// items as described by `bulk_items_are` when it is not empty, and the
/// end of the walk otherwise; the root and max-repetitions of the walk
/// stay. A response without bindings ends the walk, a report is
/// `AuthenticationFailed`, other PDUs are `InvalidPdu`.
pub proof fn lemma_get_bulk_reply(p: SpecPdu, it: SpecIter)
    ensures
        p matches SpecPdu::GetResponse(resp) ==> resp.vars.len() <= usize::MAX ==> ({
            let (r, it2) = spec_get_bulk_reply(p, it);
            &&& r is Ok
            &&& r matches Ok(Some(items)) ==> items.len() > 0 && bulk_items_are(
                items,
                resp.vars,
                it.start,
            )
            &&& it2.start == it.start
            &&& it2.max_repetitions == it.max_repetitions
        }),
        p matches SpecPdu::GetResponse(resp) ==> resp.vars.len() == 0 ==> spec_get_bulk_reply(p, it)
            == (Ok::<Option<Seq<Option<usize>>>, SnmpError>(None), it),
        p is Report ==> spec_get_bulk_reply(p, it) == (Err::<Option<Seq<Option<usize>>>, SnmpError>(
            SnmpError::AuthenticationFailed,
        ), it),
        !(p is Report) && !(p is GetResponse) ==> spec_get_bulk_reply(p, it) == (Err::<
            Option<Seq<Option<usize>>>,
            SnmpError,
        >(SnmpError::InvalidPdu), it),
{
    if let SpecPdu::GetResponse(resp) = p {
        if resp.vars.len() <= usize::MAX {
            lemma_bulk_items_are(resp.vars, 0, it, Seq::<Option<usize>>::empty());
        }
    }
}

/// A GetBulk step keeps the walk in its subtree.
pub proof fn lemma_get_bulk_in_subtree(p: SpecPdu, it: SpecIter)
    requires
        spec_contains(it.start, it.next),
    ensures
        spec_get_bulk_reply(p, it).1.start == it.start,
        spec_contains(it.start, spec_get_bulk_reply(p, it).1.next),
{
    if let SpecPdu::GetResponse(resp) = p {
        lemma_bulk_items_in_subtree(resp.vars, 0, it, Seq::<Option<usize>>::empty());
    }
}

impl OpGetBulk {
    /// GetBulkRequest for one identifier, with no non-repeaters.
    pub fn request(oid: SnmpOid, max_repetitions: i64, request_id: i64) -> (r: SnmpPdu<'static>)
        ensures
            r@ == SpecPdu::GetBulkRequest(
                crate::snmp::getbulk::SpecGetBulk {
                    request_id,
                    non_repeaters: 0,
                    max_repetitions,
                    vars: seq![oid@],
                },
            ),
    {
        let ghost o = oid@;
        let mut vars: Vec<SnmpOid> = Vec::new();
        vars.push(oid);
        assert(oids_view(vars@) =~= seq![o]);
        SnmpPdu::GetBulkRequest(SnmpGetBulk { request_id, non_repeaters: 0, max_repetitions, vars })
    }

    /// Interpret the reply and advance the walk.
    pub fn reply(pdu: &SnmpPdu, iter: &mut GetIter) -> (r: Result<
        Option<Vec<Option<usize>>>,
        SnmpError,
    >)
        ensures
            (match r {
                Ok(Some(v)) => Ok::<Option<Seq<Option<usize>>>, SnmpError>(Some(v@)),
                Ok(None) => Ok::<Option<Seq<Option<usize>>>, SnmpError>(None),
                Err(e) => Err::<Option<Seq<Option<usize>>>, SnmpError>(e),
            }, final(iter)@) == spec_get_bulk_reply(pdu@, old(iter)@),
    {
        match pdu {
            SnmpPdu::GetResponse(resp) => {
                let n = resp.vars.len();
                if n == 0 {
                    return Ok(None);
                }
                let mut out: Vec<Option<usize>> = Vec::new();
                let mut i: usize = 0;
                let ghost vars = resp@.vars;
                let ghost it0 = iter@;
                while i < n
                    invariant_except_break
                        n == vars.len(),
                        vars == resp@.vars,
                        i <= n,
                        bulk_items(vars, 0, it0, Seq::<Option<usize>>::empty()) == bulk_items(
                            vars,
                            i as nat,
                            iter@,
                            out@,
                        ),
                    ensures
                        bulk_items(vars, 0, it0, Seq::<Option<usize>>::empty()) == (out@, iter@),
                    decreases n - i,
                {
                    let var = &resp.vars[i];
                    assert(var@ == vars[i as int]);
                    if value_is_data(&var.value) {
                        if !iter.set_next_oid(&var.oid) {
                            out.push(None);
                            break;
                        }
                        out.push(Some(i));
                    }
                    i = i + 1;
                }
                if out.len() == 0 {
                    Ok(None)
                } else {
                    Ok(Some(out))
                }
            },
            SnmpPdu::Report(_) => Err(SnmpError::AuthenticationFailed),
            _ => Err(SnmpError::InvalidPdu),
        }
    }
}

/// Empty GetRequest which makes an SNMPv3 agent report its engine boots
/// and time.
pub struct OpRefresh;

impl OpRefresh {
    /// GetRequest without bindings.
    pub fn request(request_id: i64) -> (r: SnmpPdu<'static>)
        ensures
            r@ == SpecPdu::GetRequest(
                crate::snmp::get::SpecGet { request_id, vars: Seq::<Seq<u32>>::empty() },
            ),
    {
        let vars: Vec<SnmpOid> = Vec::new();
        assert(oids_view(vars@) =~= Seq::<Seq<u32>>::empty());
        SnmpPdu::GetRequest(SnmpGet { request_id, vars })
    }
}

} // verus!
