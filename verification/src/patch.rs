//! The update engine: JSON-Patch mutation of record attributes restricted
//! to `add`, `copy` and `test`, the single-operation ingest-id patch, and
//! the decision whether an updated ingest id is written back to the object
//! store as a tag.

use vstd::prelude::*;

use crate::error::{spec_is_client_error, Error};
use crate::ids::{parse_uuid, uuid_parsed};
use crate::json::{jv_model, ptr_get, ptr_put, segs_model, JsonModel, JsonValue};

verus! {

/// The first index of a `/` in `s`, or -1.
pub open spec fn first_slash(s: Seq<char>) -> int
    decreases s.len(),
{
    if s.len() == 0 {
        -1
    } else if s[0] == '/' {
        0
    } else {
        let r = first_slash(s.skip(1));
        if r == -1 {
            -1
        } else {
            r + 1
        }
    }
}

/// `first_slash` finds the first `/`, or reports none.
pub proof fn lemma_first_slash_props(s: Seq<char>)
    ensures
        -1 <= first_slash(s) < s.len(),
        first_slash(s) >= 0 ==> s[first_slash(s)] == '/',
        first_slash(s) >= 0 ==> forall|j: int| 0 <= j < first_slash(s) ==> s[j] != '/',
        first_slash(s) == -1 ==> forall|j: int| 0 <= j < s.len() ==> s[j] != '/',
    decreases s.len(),
{
    if s.len() > 0 && s[0] != '/' {
        lemma_first_slash_props(s.skip(1));
        assert forall|j: int| 1 <= j < s.len() implies s[j] == s.skip(1)[j - 1] by {}
    }
}

/// A pointer segment with its escapes resolved: `~1` is `/` and `~0` is
/// `~`; a `~` not part of an escape stands for itself.
pub open spec fn unescape(s: Seq<char>) -> Seq<char>
    decreases s.len(),
{
    if s.len() == 0 {
        Seq::empty()
    } else if s[0] == '~' && s.len() >= 2 && s[1] == '0' {
        seq!['~'] + unescape(s.skip(2))
    } else if s[0] == '~' && s.len() >= 2 && s[1] == '1' {
        seq!['/'] + unescape(s.skip(2))
    } else {
        seq![s[0]] + unescape(s.skip(1))
    }
}

/// The parts of `s` between its `/` separators, in order.
pub open spec fn split_slash(s: Seq<char>) -> Seq<Seq<char>>
    decreases s.len() via split_slash_decreases
{
    let f = first_slash(s);
    if f < 0 {
        seq![s]
    } else {
        seq![s.take(f)] + split_slash(s.skip(f + 1))
    }
}

#[via_fn]
proof fn split_slash_decreases(s: Seq<char>) {
    lemma_first_slash_props(s);
}

/// `split_slash` yields at least one part.
pub proof fn lemma_split_slash_len(s: Seq<char>)
    ensures
        split_slash(s).len() >= 1,
{
    lemma_first_slash_props(s);
}

/// The segments a JSON pointer addresses: none for the whole document,
/// otherwise the `/`-separated parts with their escapes resolved. A
/// non-empty pointer that does not begin with `/` addresses nothing.
pub open spec fn parse_pointer(s: Seq<char>) -> Option<Seq<Seq<char>>> {
    if s.len() == 0 {
        Option::Some(Seq::empty())
    } else if s[0] != '/' {
        Option::None
    } else {
        let parts = split_slash(s.skip(1));
        Option::Some(Seq::new(parts.len(), |i: int| unescape(parts[i])))
    }
}

/// Resolve the escapes of one pointer segment.
#[verifier::loop_isolation(false)]
fn unescape_exec(seg: &str) -> (r: String)
    ensures
        r@ == unescape(seg@),
{
    let len = seg.unicode_len();
    let mut out = String::new();
    let mut i: usize = 0;
    proof {
        assert(seg@.skip(0) =~= seg@);
    }
    while i < len
        invariant
            i <= len,
            len == seg@.len(),
            unescape(seg@) == out@ + unescape(seg@.skip(i as int)),
        decreases len - i,
    {
        let ghost rest = seg@.skip(i as int);
        proof {
            assert(rest[0] == seg@[i as int]);
            if rest.len() >= 2 {
                assert(rest[1] == seg@[i + 1]);
            }
            reveal_strlit("~");
            reveal_strlit("/");
        }
        let c = seg.get_char(i);
        if c == '~' && i + 1 < len && seg.get_char(i + 1) == '0' {
            out.append("~");
            proof {
                assert(rest.skip(2) =~= seg@.skip(i + 2));
                assert(unescape(rest) =~= "~"@ + unescape(seg@.skip(i + 2)));
            }
            i = i + 2;
        } else if c == '~' && i + 1 < len && seg.get_char(i + 1) == '1' {
            out.append("/");
            proof {
                assert(rest.skip(2) =~= seg@.skip(i + 2));
                assert(unescape(rest) =~= "/"@ + unescape(seg@.skip(i + 2)));
            }
            i = i + 2;
        } else {
            let piece = seg.substring_char(i, i + 1);
            out.append(piece);
            proof {
                assert(rest.skip(1) =~= seg@.skip(i + 1));
                assert(piece@ =~= seq![rest[0]]);
                assert(unescape(rest) =~= piece@ + unescape(seg@.skip(i + 1)));
            }
            i = i + 1;
        }
    }
    proof {
        assert(seg@.skip(len as int).len() == 0);
        assert(out@ + unescape(seg@.skip(len as int)) =~= out@);
    }
    out
}

/// Find the first `/` of a string.
#[verifier::loop_isolation(false)]
fn first_slash_exec(s: &str) -> (r: Option<usize>)
    ensures
        match r {
            Option::Some(i) => first_slash(s@) == i as int && i < s@.len(),
            Option::None => first_slash(s@) == -1,
        },
{
    proof {
        lemma_first_slash_props(s@);
        reveal_strlit("/");
    }
    let len = s.unicode_len();
    let mut i: usize = 0;
    while i < len
        invariant
            i <= len,
            len == s@.len(),
            forall|j: int| 0 <= j < i ==> s@[j] != '/',
        decreases len - i,
    {
        if s.get_char(i) == '/' {
            proof {
                let f = first_slash(s@);
                if f == -1 {
                } else if f < i as int {
                    assert(s@[f] != '/');
                } else if f > i as int {
                    assert(s@[i as int] != '/');
                }
            }
            return Option::Some(i);
        }
        i = i + 1;
    }
    Option::None
}

/// Parse a JSON pointer into its unescaped segments.
#[verifier::loop_isolation(false)]
pub fn parse_pointer_exec(path: &str) -> (r: Option<Vec<String>>)
    ensures
        match r {
            Option::Some(segs) => parse_pointer(path@) == Option::Some(segs_model(segs@)),
            Option::None => parse_pointer(path@) is None,
        },
{
    let len = path.unicode_len();
    if len == 0 {
        let segs: Vec<String> = Vec::new();
        proof {
            assert(segs_model(segs@) =~= Seq::<Seq<char>>::empty());
        }
        return Option::Some(segs);
    }
    proof {
        reveal_strlit("/");
    }
    if path.get_char(0) != '/' {
        return Option::None;
    }
    let mut rest = path.substring_char(1, len);
    let ghost whole = path@.skip(1);
    let ghost parts = split_slash(whole);
    let mut segs: Vec<String> = Vec::new();
    let ghost done: int = 0;
    proof {
        assert(rest@ == whole);
    }
    proof {
        lemma_split_slash_len(whole);
    }
    let mut fuel = rest.unicode_len();
    while fuel >= 0
        invariant
            0 <= done <= parts.len(),
            fuel == rest@.len(),
            segs@.len() == done,
            forall|k: int| 0 <= k < done ==> segs@[k]@ == unescape(parts[k]),
            done < parts.len() ==> split_slash(rest@) =~= parts.subrange(done, parts.len() as int),
            done == parts.len() ==> false,
        decreases fuel,
    {
        let ghost cur = rest@;
        proof {
            lemma_first_slash_props(cur);
        }
        match first_slash_exec(rest) {
            Option::None => {
                segs.push(unescape_exec(rest));
                proof {
                    assert(split_slash(cur) == seq![cur]);
                    let od = done;
                    assert(parts.subrange(od, parts.len() as int) =~= seq![cur]);
                    assert(parts.subrange(od, parts.len() as int).len() == 1);
                    assert(parts.subrange(od, parts.len() as int)[0] == parts[od]);
                    assert(parts[od] == cur);
                    done = od + 1;
                    assert(done == parts.len());
                    assert(segs_model(segs@) =~= Seq::new(
                        parts.len(),
                        |i: int| unescape(parts[i]),
                    ));
                }
                return Option::Some(segs);
            },
            Option::Some(f) => {
                let seg = rest.substring_char(0, f);
                segs.push(unescape_exec(seg));
                let rest_len = rest.unicode_len();
                rest = rest.substring_char(f + 1, rest_len);
                fuel = rest.unicode_len();
                proof {
                    assert(seg@ =~= cur.take(first_slash(cur)));
                    assert(rest@ =~= cur.skip(first_slash(cur) + 1));
                    assert(split_slash(cur) == seq![cur.take(first_slash(cur))] + split_slash(
                        rest@,
                    ));
                    assert(parts.subrange(done, parts.len() as int)[0] == cur.take(
                        first_slash(cur),
                    ));
                    done = done + 1;
                    assert(parts[done - 1] == cur.take(first_slash(cur)));
                    assert(split_slash(rest@) =~= parts.subrange(done, parts.len() as int)) by {
                        assert(parts.subrange(done - 1, parts.len() as int) =~= seq![
                            cur.take(first_slash(cur)),
                        ] + split_slash(rest@));
                        assert forall|k: int|
                            done <= k < parts.len() implies parts[k] == split_slash(rest@)[k
                            - done] by {
                            assert(parts.subrange(done - 1, parts.len() as int)[k - done + 1]
                                == parts[k]);
                        }
                    }
                }
            },
        }
    }
    proof {
        assert(false);
    }
    Option::None
}

/// One JSON-Patch operation, as the update engine accepts it.
pub enum PatchOp {
    Add { path: String, value: JsonValue },
    Remove { path: String },
    Replace { path: String, value: JsonValue },
    CopyFrom { from: String, path: String },
    MoveFrom { from: String, path: String },
    Test { path: String, value: JsonValue },
}

/// The mathematical shape of a patch operation.
pub enum PatchOpModel {
    Add { path: Seq<char>, value: JsonModel },
    Remove { path: Seq<char> },
    Replace { path: Seq<char>, value: JsonModel },
    CopyFrom { from: Seq<char>, path: Seq<char> },
    MoveFrom { from: Seq<char>, path: Seq<char> },
    Test { path: Seq<char>, value: JsonModel },
}

/// The model of a patch operation.
pub open spec fn op_model(op: PatchOp) -> PatchOpModel {
    match op {
        PatchOp::Add { path, value } => PatchOpModel::Add { path: path@, value: jv_model(value) },
        PatchOp::Remove { path } => PatchOpModel::Remove { path: path@ },
        PatchOp::Replace { path, value } => PatchOpModel::Replace {
            path: path@,
            value: jv_model(value),
        },
        PatchOp::CopyFrom { from, path } => PatchOpModel::CopyFrom { from: from@, path: path@ },
        PatchOp::MoveFrom { from, path } => PatchOpModel::MoveFrom { from: from@, path: path@ },
        PatchOp::Test { path, value } => PatchOpModel::Test {
            path: path@,
            value: jv_model(value),
        },
    }
}

/// The models of a sequence of patch operations.
pub open spec fn ops_model(s: Seq<PatchOp>) -> Seq<PatchOpModel> {
    Seq::new(s.len(), |i: int| op_model(s[i]))
}

/// The path named by a patch operation.
pub open spec fn op_path(op: PatchOpModel) -> Seq<char> {
    match op {
        PatchOpModel::Add { path, .. } => path,
        PatchOpModel::Remove { path } => path,
        PatchOpModel::Replace { path, .. } => path,
        PatchOpModel::CopyFrom { path, .. } => path,
        PatchOpModel::MoveFrom { path, .. } => path,
        PatchOpModel::Test { path, .. } => path,
    }
}

/// One operation applied to an attributes document. The attributes patch
/// is append-only: `add` (which may replace an existing member), `copy`
/// and `test` are allowed; a failing `test`, an unsupported operation or an
/// unresolvable path yields nothing and the whole patch is rejected.
pub open spec fn apply_attr_op(doc: JsonModel, op: PatchOpModel) -> Option<JsonModel> {
    match op {
        PatchOpModel::Add { path, value } => match parse_pointer(path) {
            Option::Some(p) => ptr_put(doc, p, value),
            Option::None => Option::None,
        },
        PatchOpModel::CopyFrom { from, path } => match (parse_pointer(from), parse_pointer(path)) {
            (Option::Some(pf), Option::Some(pp)) => match ptr_get(doc, pf) {
                Option::Some(v) => ptr_put(doc, pp, v),
                Option::None => Option::None,
            },
            _ => Option::None,
        },
        PatchOpModel::Test { path, value } => match parse_pointer(path) {
            Option::Some(p) => if ptr_get(doc, p) == Option::Some(value) {
                Option::Some(doc)
            } else {
                Option::None
            },
            Option::None => Option::None,
        },
        _ => Option::None,
    }
}

/// A whole patch applied to an attributes document, operation by operation;
/// any failure rejects the whole patch.
pub open spec fn apply_attr_patch(doc: JsonModel, ops: Seq<PatchOpModel>) -> Option<JsonModel>
    decreases ops.len(),
{
    if ops.len() == 0 {
        Option::Some(doc)
    } else {
        match apply_attr_op(doc, ops[0]) {
            Option::Some(d2) => apply_attr_patch(d2, ops.subrange(1, ops.len() as int)),
            Option::None => Option::None,
        }
    }
}

/// Applying a concatenation is applying each part in turn.
pub proof fn lemma_apply_attr_append(doc: JsonModel, ops1: Seq<PatchOpModel>, ops2: Seq<
    PatchOpModel,
>)
    ensures
        apply_attr_patch(doc, ops1 + ops2) == (match apply_attr_patch(doc, ops1) {
            Option::Some(d) => apply_attr_patch(d, ops2),
            Option::None => Option::None,
        }),
    decreases ops1.len(),
{
    if ops1.len() == 0 {
        assert(ops1 + ops2 =~= ops2);
    } else {
        assert((ops1 + ops2)[0] == ops1[0]);
        assert((ops1 + ops2).subrange(1, (ops1 + ops2).len() as int) =~= ops1.subrange(
            1,
            ops1.len() as int,
        ) + ops2);
        match apply_attr_op(doc, ops1[0]) {
            Option::Some(d2) => {
                lemma_apply_attr_append(d2, ops1.subrange(1, ops1.len() as int), ops2);
            },
            Option::None => {},
        }
    }
}

/// Applying a single operation is one step.
pub proof fn lemma_apply_attr_single(doc: JsonModel, op: PatchOpModel)
    ensures
        apply_attr_patch(doc, seq![op]) == apply_attr_op(doc, op),
{
    let s = seq![op];
    assert(s[0] == op);
    assert(s.subrange(1, 1) =~= Seq::<PatchOpModel>::empty());
    match apply_attr_op(doc, op) {
        Option::Some(d2) => {
            assert(apply_attr_patch(d2, Seq::<PatchOpModel>::empty()) == Option::Some(d2));
        },
        Option::None => {},
    }
}

/// Apply one operation of an attributes patch.
fn apply_attr_op_exec(doc: JsonValue, op: &PatchOp) -> (r: Result<JsonValue, Error>)
    ensures
        match r {
            Result::Ok(d2) => apply_attr_op(jv_model(doc), op_model(*op)) == Option::Some(
                jv_model(d2),
            ),
            Result::Err(e) => apply_attr_op(jv_model(doc), op_model(*op)) is None
                && spec_is_client_error(e),
        },
{
    match op {
        PatchOp::Add { path, value } => {
            match parse_pointer_exec(path.as_str()) {
                Option::None => Result::Err(
                    Error::QueryError(String::from_str("invalid JSON pointer in patch")),
                ),
                Option::Some(p) => {
                    proof {
                        assert(segs_model(p@).skip(0) =~= segs_model(p@));
                    }
                    match crate::json::ptr_put_exec(doc, &p, 0, value.duplicate()) {
                        Option::Some(d2) => Result::Ok(d2),
                        Option::None => Result::Err(
                            Error::QueryError(
                                String::from_str("patch path does not resolve in attributes"),
                            ),
                        ),
                    }
                },
            }
        },
        PatchOp::CopyFrom { from, path } => {
            match (parse_pointer_exec(from.as_str()), parse_pointer_exec(path.as_str())) {
                (Option::Some(pf), Option::Some(pp)) => {
                    let got = match crate::json::ptr_get_exec(&doc, &pf, 0) {
                        Option::Some(c) => Option::Some(c.duplicate()),
                        Option::None => Option::None,
                    };
                    proof {
                        assert(segs_model(pf@).skip(0) =~= segs_model(pf@));
                        assert(segs_model(pp@).skip(0) =~= segs_model(pp@));
                    }
                    match got {
                        Option::Some(c) => {
                            match crate::json::ptr_put_exec(doc, &pp, 0, c) {
                                Option::Some(d2) => Result::Ok(d2),
                                Option::None => Result::Err(
                                    Error::QueryError(
                                        String::from_str(
                                            "patch path does not resolve in attributes",
                                        ),
                                    ),
                                ),
                            }
                        },
                        Option::None => Result::Err(
                            Error::QueryError(
                                String::from_str("patch `from` path does not resolve"),
                            ),
                        ),
                    }
                },
                _ => Result::Err(
                    Error::QueryError(String::from_str("invalid JSON pointer in patch")),
                ),
            }
        },
        PatchOp::Test { path, value } => {
            match parse_pointer_exec(path.as_str()) {
                Option::None => Result::Err(
                    Error::QueryError(String::from_str("invalid JSON pointer in patch")),
                ),
                Option::Some(p) => {
                    proof {
                        assert(segs_model(p@).skip(0) =~= segs_model(p@));
                    }
                    let ok = match crate::json::ptr_get_exec(&doc, &p, 0) {
                        Option::Some(c) => c.same_as(value),
                        Option::None => false,
                    };
                    if ok {
                        Result::Ok(doc)
                    } else {
                        Result::Err(
                            Error::QueryError(
                                String::from_str("test operation failed for attributes patch"),
                            ),
                        )
                    }
                },
            }
        },
        _ => Result::Err(
            Error::QueryError(
                String::from_str(
                    "unsupported patch operation: only `add`, `copy` and `test` are allowed",
                ),
            ),
        ),
    }
}

/// Apply an attributes patch to a document. A failing `test`, an
/// unsupported operation or an unresolvable path rejects the whole patch
/// with a client error and no document is produced.
#[verifier::loop_isolation(false)]
pub fn apply_attributes_patch(doc: JsonValue, ops: &Vec<PatchOp>) -> (r: Result<JsonValue, Error>)
    ensures
        match r {
            Result::Ok(d2) => apply_attr_patch(jv_model(doc), ops_model(ops@)) == Option::Some(
                jv_model(d2),
            ),
            Result::Err(e) => apply_attr_patch(jv_model(doc), ops_model(ops@)) is None
                && spec_is_client_error(e),
        },
{
    let ghost doc0 = jv_model(doc);
    let ghost om = ops_model(ops@);
    let mut cur = doc;
    let mut i: usize = 0;
    while i < ops.len()
        invariant
            i <= om.len(),
            apply_attr_patch(doc0, om.subrange(0, i as int)) == Option::Some(jv_model(cur)),
        decreases om.len() - i,
    {
        let ghost curm = jv_model(cur);
        let step = apply_attr_op_exec(cur, &ops[i]);
        proof {
            assert(om.subrange(0, i + 1) =~= om.subrange(0, i as int) + seq![om[i as int]]);
            lemma_apply_attr_append(doc0, om.subrange(0, i as int), seq![om[i as int]]);
            lemma_apply_attr_single(curm, om[i as int]);
        }
        match step {
            Result::Ok(d2) => {
                cur = d2;
            },
            Result::Err(e) => {
                proof {
                    assert(om.subrange(0, om.len() as int) =~= om);
                    lemma_apply_attr_append(
                        doc0,
                        om.subrange(0, i + 1),
                        om.subrange(i + 1, om.len() as int),
                    );
                    assert(om.subrange(0, i + 1) + om.subrange(i + 1, om.len() as int) =~= om);
                }
                return Result::Err(e);
            },
        }
        i = i + 1;
    }
    proof {
        assert(om.subrange(0, om.len() as int) =~= om);
    }
    Result::Ok(cur)
}

/// The JSON patch for attributes or for the ingest id.
pub struct Patch(Vec<PatchOp>);

impl View for Patch {
    type V = Seq<PatchOpModel>;

    closed spec fn view(&self) -> Seq<PatchOpModel> {
        ops_model(self.0@)
    }
}

impl Patch {
    /// Create a new patch.
    pub fn new(ops: Vec<PatchOp>) -> (r: Patch)
        ensures
            r@ == ops_model(ops@),
    {
        Patch(ops)
    }

    /// Get the inner operations.
    pub fn into_inner(self) -> (r: Vec<PatchOp>)
        ensures
            ops_model(r@) == self@,
    {
        self.0
    }

    /// Borrow the inner operations.
    pub fn ops(&self) -> (r: &Vec<PatchOp>)
        ensures
            ops_model(r@) == self@,
    {
        &self.0
    }
}

/// A patch request body: a patch for a record's attributes, either nested
/// under `attributes` or bare, or a patch for its ingest id nested under
/// `ingestId`.
pub enum PatchBody {
    NestedAttributes { attributes: Patch },
    NestedIngestId { ingest_id: Patch },
    UnnestedAttributes(Patch),
}

impl View for PatchBody {
    type V = Seq<PatchOpModel>;

    open spec fn view(&self) -> Seq<PatchOpModel> {
        match self {
            PatchBody::NestedAttributes { attributes } => attributes@,
            PatchBody::NestedIngestId { ingest_id } => ingest_id@,
            PatchBody::UnnestedAttributes(attributes) => attributes@,
        }
    }
}

/// The outcome the ingest-id patch prescribes: exactly one operation whose
/// path is `/`; `add` and `replace` set the id to their value, a textual
/// UUID; `remove` clears it. Anything else is no outcome, and rejected.
pub open spec fn ingest_id_patch_outcome(ops: Seq<PatchOpModel>) -> Option<Option<u128>> {
    if ops.len() != 1 {
        Option::None
    } else if op_path(ops[0]) != "/"@ {
        Option::None
    } else {
        match ops[0] {
            PatchOpModel::Add { value, .. } => match value {
                JsonModel::Text(s) => match uuid_parsed(s) {
                    Option::Some(u) => Option::Some(Option::Some(u)),
                    Option::None => Option::None,
                },
                _ => Option::None,
            },
            PatchOpModel::Replace { value, .. } => match value {
                JsonModel::Text(s) => match uuid_parsed(s) {
                    Option::Some(u) => Option::Some(Option::Some(u)),
                    Option::None => Option::None,
                },
                _ => Option::None,
            },
            PatchOpModel::Remove { .. } => Option::Some(Option::None),
            _ => Option::None,
        }
    }
}

/// Parse the textual UUID of an ingest-id patch value.
fn parse_ingest_value(value: &JsonValue) -> (r: Result<u128, Error>)
    ensures
        match r {
            Result::Ok(u) => jv_model(*value) matches JsonModel::Text(s) && uuid_parsed(s)
                == Option::Some(u),
            Result::Err(e) => spec_is_client_error(e) && (match jv_model(*value) {
                JsonModel::Text(s) => uuid_parsed(s) is None,
                _ => true,
            }),
        },
{
    match value {
        JsonValue::Text(s) => match parse_uuid(s.as_str()) {
            Option::Some(u) => Result::Ok(u),
            Option::None => Result::Err(
                Error::QueryError(
                    String::from_str("failed to parse UUID for `ingestId` update"),
                ),
            ),
        },
        _ => Result::Err(
            Error::QueryError(String::from_str("expected string value for `ingestId` update")),
        ),
    }
}

impl PatchBody {
    /// Create a new attribute body.
    pub fn new(attributes: Patch) -> (r: PatchBody)
        ensures
            r@ == attributes@,
    {
        PatchBody::UnnestedAttributes(attributes)
    }

    /// Get the inner patch.
    pub fn into_inner(self) -> (r: Patch)
        ensures
            r@ == self@,
    {
        match self {
            PatchBody::NestedAttributes { attributes } => attributes,
            PatchBody::NestedIngestId { ingest_id } => ingest_id,
            PatchBody::UnnestedAttributes(attributes) => attributes,
        }
    }

    /// Get the inner patch as a reference.
    pub fn get_ref(&self) -> (r: &Patch)
        ensures
            r@ == self@,
    {
        match self {
            PatchBody::NestedAttributes { attributes } => attributes,
            PatchBody::NestedIngestId { ingest_id } => ingest_id,
            PatchBody::UnnestedAttributes(attributes) => attributes,
        }
    }

    /// Extract the ingest id this patch sets, clears, or leaves alone:
    /// exactly one operation with the path `/`, where `add` and `replace`
    /// carry a textual UUID and `remove` clears the id. Any other shape is
    /// rejected with a client error before anything changes.
    pub fn extract_ingest_id(&self) -> (r: Result<Option<u128>, Error>)
        ensures
            match r {
                Result::Ok(o) => ingest_id_patch_outcome(self@) == Option::Some(o),
                Result::Err(e) => ingest_id_patch_outcome(self@) is None && spec_is_client_error(
                    e,
                ),
            },
{
        let inner = self.get_ref();
        let ops = inner.ops();
        if ops.len() != 1 {
            return Result::Err(
                Error::QueryError(
                    String::from_str("expected one patch operation for `ingestId` update"),
                ),
            );
        }
        let op = &ops[0];
        let path_ok = match op {
            PatchOp::Add { path, .. } => crate::text::str_eq(path.as_str(), "/"),
            PatchOp::Remove { path } => crate::text::str_eq(path.as_str(), "/"),
            PatchOp::Replace { path, .. } => crate::text::str_eq(path.as_str(), "/"),
            PatchOp::CopyFrom { path, .. } => crate::text::str_eq(path.as_str(), "/"),
            PatchOp::MoveFrom { path, .. } => crate::text::str_eq(path.as_str(), "/"),
            PatchOp::Test { path, .. } => crate::text::str_eq(path.as_str(), "/"),
        };
        if !path_ok {
            return Result::Err(
                Error::QueryError(String::from_str("expected `/` path for `ingestId` update")),
            );
        }
        match op {
            PatchOp::Add { value, .. } => match parse_ingest_value(value) {
                Result::Ok(u) => Result::Ok(Option::Some(u)),
                Result::Err(e) => Result::Err(e),
            },
            PatchOp::Replace { value, .. } => match parse_ingest_value(value) {
                Result::Ok(u) => Result::Ok(Option::Some(u)),
                Result::Err(e) => Result::Err(e),
            },
            PatchOp::Remove { .. } => Result::Ok(Option::None),
            _ => Result::Err(
                Error::QueryError(
                    String::from_str(
                        "expected `add`, `remove` or `replace` operation for `ingestId` update",
                    ),
                ),
            ),
        }
    }
}

/// The kind of update to perform when writing tags back to the object
/// store.
#[derive(Clone, Copy, Debug, PartialEq, Eq, Structural)]
pub enum UpdateTagKind {
    /// Write the tag only if the record is the current state.
    Current,
    /// Write the tag if the object exists, probed with a head request.
    Live,
}

impl UpdateTagKind {
    /// Should the tag be written when the record is current.
    pub fn is_current_update(&self) -> (r: bool)
        ensures
            r == (*self == UpdateTagKind::Current),
    {
        matches!(self, UpdateTagKind::Current)
    }

    /// Should the tag be written when the object exists.
    pub fn is_live_update(&self) -> (r: bool)
        ensures
            r == (*self == UpdateTagKind::Live),
    {
        matches!(self, UpdateTagKind::Live)
    }
}

/// Params for an update ingest-id request.
pub struct UpdateIngestIdParams {
    pub update_tag: Option<UpdateTagKind>,
}

impl Default for UpdateIngestIdParams {
    /// Params that request no tag write-back.
    fn default() -> (r: Self)
        ensures
            r.update_tag is None,
    {
        UpdateIngestIdParams { update_tag: None }
    }
}

/// What an ingest-id update does towards the object store.
#[derive(Clone, Copy, Debug, PartialEq, Eq, Structural)]
pub enum TagUpdatePlan {
    /// No tag is written.
    DoNothing,
    /// Exactly one tag write with this ingest id.
    PutTag(u128),
    /// Probe the object with a head request; write the tag only if it
    /// exists.
    ProbeThenPut(u128),
}

/// The tag write-back an update prescribes, given the params, the id the
/// patch set, and whether the matched record is the current state.
pub open spec fn spec_tag_update_plan(
    update_tag: Option<UpdateTagKind>,
    ingest_id: Option<u128>,
    is_current_state: bool,
) -> TagUpdatePlan {
    match (ingest_id, update_tag) {
        (Option::Some(id), Option::Some(UpdateTagKind::Current)) => if is_current_state {
            TagUpdatePlan::PutTag(id)
        } else {
            TagUpdatePlan::DoNothing
        },
        (Option::Some(id), Option::Some(UpdateTagKind::Live)) => TagUpdatePlan::ProbeThenPut(id),
        _ => TagUpdatePlan::DoNothing,
    }
}

/// Decide the tag write-back for one updated record: with `current` mode a
/// current record gets exactly one tag write; with `live` mode the write
/// happens only if a liveness probe finds the object; with no mode or no id
/// nothing is written.
pub fn tag_update_plan(
    params: &UpdateIngestIdParams,
    ingest_id: Option<u128>,
    is_current_state: bool,
) -> (r: TagUpdatePlan)
    ensures
        r == spec_tag_update_plan(params.update_tag, ingest_id, is_current_state),
{
    match (ingest_id, &params.update_tag) {
        (Option::Some(id), Option::Some(UpdateTagKind::Current)) => {
            if is_current_state {
                TagUpdatePlan::PutTag(id)
            } else {
                TagUpdatePlan::DoNothing
            }
        },
        (Option::Some(id), Option::Some(UpdateTagKind::Live)) => TagUpdatePlan::ProbeThenPut(id),
        _ => TagUpdatePlan::DoNothing,
    }
}

/// What a head request against the object store came back with.
pub enum HeadOutcome {
    /// The object exists.
    Found,
    /// The service answered that there is no such object.
    NotFound,
    /// The service answered with some other error.
    OtherServiceError(String),
    /// The request did not reach the service or the reply did not arrive.
    SendFailure(String),
}

impl PatchBody {
    /// Whether the object exists, judged from a head probe: a not-found
    /// answer means absent rather than fatal; any other service answer
    /// counts as present; only a transport failure is an error.
    pub fn object_exists(head: &HeadOutcome) -> (r: Result<bool, Error>)
        ensures
            match r {
                Result::Ok(b) => (match *head {
                    HeadOutcome::Found => b == true,
                    HeadOutcome::NotFound => b == false,
                    HeadOutcome::OtherServiceError(_) => b == true,
                    HeadOutcome::SendFailure(_) => false,
                }),
                Result::Err(e) => head matches HeadOutcome::SendFailure(m) && e matches
                    Error::S3Error(em) && em@ == m@,
            },
    {
        match head {
            HeadOutcome::Found => Result::Ok(true),
            HeadOutcome::NotFound => Result::Ok(false),
            HeadOutcome::OtherServiceError(_) => Result::Ok(true),
            HeadOutcome::SendFailure(m) => Result::Err(Error::S3Error(m.clone())),
        }
    }
}

/// The default name of the tag that carries the ingest id on the object.
pub fn default_ingester_tag_name() -> (r: String)
    ensures
        r@ == "ingest_id"@,
{
    String::from_str("ingest_id")
}

/// The tag written back to the object store for an ingest-id update: the
/// configured tag name paired with the id's canonical text.
pub fn ingest_tag_pair(tag_name: &str, ingest_id: u128) -> (r: (String, String))
    ensures
        r.0@ == tag_name@,
        r.1@ == crate::ids::uuid_text(ingest_id),
{
    (String::from_str(tag_name), crate::ids::uuid_to_string(ingest_id))
}

} // verus!
