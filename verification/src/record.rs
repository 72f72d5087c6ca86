//! The structured log emitter: one ordered JSON record per log call.
//!
//! A record is an ordered mapping from field name to the JSON text of its
//! value. Six fixed fields are inserted first — `ts`, `level`, `component`,
//! `event`, `nodeId`, `workspace` — then the caller payload is merged on
//! top: a mapping payload inserts or overwrites entry by entry (so a caller
//! field named like a fixed field silently wins), an absent payload adds
//! nothing, and a scalar or sequence payload lands under the reserved name
//! `data`. The record is then serialized to a single line.

use vstd::prelude::*;
use vstd::string::*;

verus! {

/// One field of a record: the raw field name and the JSON text of its value.
pub struct Field {
    pub name: String,
    pub value: String,
}

/// The caller-supplied payload of a log call, already reduced to its closed
/// shape: absent, a mapping of fields (values as JSON text), or a scalar or
/// sequence (as JSON text) that goes under the reserved `data` name.
pub enum Payload {
    Absent,
    Fields(Vec<Field>),
    Scalar(String),
}

/// What a record reads as: a sequence of (name, value text) pairs.
pub open spec fn rec_view(r: Seq<Field>) -> Seq<(Seq<char>, Seq<char>)> {
    Seq::new(r.len(), |i: int| (r[i].name@, r[i].value@))
}

/// The JSON string encoding of a character sequence, as the serializer
/// produces it: the quoted, escaped text.
pub uninterp spec fn json_str_of(s: Seq<char>) -> Seq<char>;

/// Text that holds no raw newline, so it cannot break a one-line record.
pub open spec fn single_line(s: Seq<char>) -> bool {
    forall|i: int| 0 <= i < s.len() ==> s[i] != '\n'
}

/// Relies on `serde_json::to_string` applied to a borrowed `str`: it returns
/// the JSON string encoding, which depends on the characters alone, and
/// encoding a string cannot fail. Its writer puts a quote at each end and
/// escapes every control byte (0x00..0x1f, so in particular a newline), the
/// quote and the backslash, so the result is one line framed in quotes.
#[verifier::external_body]
pub(crate) fn json_encode_str(s: &str) -> (r: String)
    ensures
        r@ == json_str_of(s@),
        r@.len() >= 2,
        r@[0] == '"',
        r@[r@.len() - 1] == '"',
        single_line(r@),
{
    serde_json::to_string(s).unwrap_or_default()
}

/// Relies on chrono: `DateTime::<Utc>::from(SystemTime::now())` reads the
/// clock (absorbing a clock set before the Unix epoch, which `Utc::now`
/// would not), and `to_rfc3339_opts(SecondsFormat::Millis, true)` formats it
/// in the fixed RFC 3339 style. The result depends on the clock, so its
/// value is not claimed — only the shape chrono's writer always produces for
/// this mode: a four-digit-or-longer year, `-MM-DD`, then the fixed suffix
/// `THH:MM:SS.mmmZ` (millisecond precision, `Z` for the UTC offset).
#[verifier::external_body]
pub fn now_rfc3339_millis() -> (r: String)
    ensures
        r@.len() >= 24,
        r@[r@.len() - 1] == 'Z',
        r@[r@.len() - 5] == '.',
        r@[r@.len() - 14] == 'T',
{
    let now = chrono::DateTime::<chrono::Utc>::from(std::time::SystemTime::now());
    now.to_rfc3339_opts(chrono::SecondsFormat::Millis, true)
}

/// Index of the first entry named `k`, or -1.
pub open spec fn find_key(r: Seq<(Seq<char>, Seq<char>)>, k: Seq<char>) -> int
    decreases r.len(),
{
    if r.len() == 0 {
        -1
    } else if r[0].0 == k {
        0
    } else if find_key(r.drop_first(), k) == -1 {
        -1
    } else {
        find_key(r.drop_first(), k) + 1
    }
}

/// Whether some entry is named `k`.
pub open spec fn has_field(r: Seq<(Seq<char>, Seq<char>)>, k: Seq<char>) -> bool {
    exists|i: int| 0 <= i < r.len() && r[i].0 == k
}

/// The value text of the first entry named `k`.
pub open spec fn value_of(r: Seq<(Seq<char>, Seq<char>)>, k: Seq<char>) -> Seq<char> {
    r[find_key(r, k)].1
}

/// Insert or overwrite: a new name is appended, an existing one keeps its
/// position and gets the new value.
pub open spec fn spec_upsert(
    r: Seq<(Seq<char>, Seq<char>)>,
    k: Seq<char>,
    v: Seq<char>,
) -> Seq<(Seq<char>, Seq<char>)> {
    if find_key(r, k) == -1 {
        r.push((k, v))
    } else {
        r.update(find_key(r, k), (k, v))
    }
}

/// Merge `fs` into `r`, entry by entry, left to right.
pub open spec fn spec_merge(
    r: Seq<(Seq<char>, Seq<char>)>,
    fs: Seq<(Seq<char>, Seq<char>)>,
) -> Seq<(Seq<char>, Seq<char>)>
    decreases fs.len(),
{
    if fs.len() == 0 {
        r
    } else {
        spec_merge(spec_upsert(r, fs[0].0, fs[0].1), fs.drop_first())
    }
}

/// `find_key` points at the first entry named `k`, and -1 means none.
pub proof fn lemma_find_key(r: Seq<(Seq<char>, Seq<char>)>, k: Seq<char>)
    ensures
        find_key(r, k) == -1 ==> forall|i: int| 0 <= i < r.len() ==> r[i].0 != k,
        find_key(r, k) != -1 ==> 0 <= find_key(r, k) < r.len() && r[find_key(r, k)].0 == k && (
        forall|j: int| 0 <= j < find_key(r, k) ==> r[j].0 != k),
    decreases r.len(),
{
    if r.len() > 0 && r[0].0 != k {
        let rest = r.drop_first();
        lemma_find_key(rest, k);
        assert(forall|i: int| 0 <= i < rest.len() ==> rest[i] == r[i + 1]);
        if find_key(rest, k) == -1 {
            assert forall|i: int| 0 <= i < r.len() implies r[i].0 != k by {
                if i >= 1 {
                    assert(r[i] == rest[i - 1]);
                }
            }
        } else {
            let f = find_key(rest, k);
            assert(r[f + 1] == rest[f]);
            assert forall|j: int| 0 <= j < f + 1 implies r[j].0 != k by {
                if j >= 1 {
                    assert(r[j] == rest[j - 1]);
                }
            }
        }
    }
}

/// The first match determines `find_key`.
pub proof fn lemma_find_key_is(r: Seq<(Seq<char>, Seq<char>)>, k: Seq<char>, i: int)
    requires
        0 <= i < r.len(),
        r[i].0 == k,
        forall|j: int| 0 <= j < i ==> r[j].0 != k,
    ensures
        find_key(r, k) == i,
{
    lemma_find_key(r, k);
}

/// Whether every value text of a record is one line.
pub open spec fn values_single_line(r: Seq<(Seq<char>, Seq<char>)>) -> bool {
    forall|i: int| 0 <= i < r.len() ==> single_line(#[trigger] r[i].1)
}

/// Whether a payload's value texts are one line each — they are embedded in
/// the record verbatim, so this is what keeps the record on one line.
pub open spec fn payload_single_line(p: Payload) -> bool {
    match p {
        Payload::Absent => true,
        Payload::Fields(fs) => values_single_line(rec_view(fs@)),
        Payload::Scalar(t) => single_line(t@),
    }
}

proof fn lemma_single_line_concat(a: Seq<char>, b: Seq<char>)
    requires
        single_line(a),
        single_line(b),
    ensures
        single_line(a + b),
{
    assert forall|i: int| 0 <= i < (a + b).len() implies (a + b)[i] != '\n' by {
        if i < a.len() {
            assert((a + b)[i] == a[i]);
        } else {
            assert((a + b)[i] == b[i - a.len()]);
        }
    }
}

proof fn lemma_upsert_single_line(r: Seq<(Seq<char>, Seq<char>)>, k: Seq<char>, v: Seq<char>)
    requires
        values_single_line(r),
        single_line(v),
    ensures
        values_single_line(spec_upsert(r, k, v)),
{
    let u = spec_upsert(r, k, v);
    lemma_find_key(r, k);
    let p = find_key(r, k);
    assert forall|i: int| 0 <= i < u.len() implies single_line(u[i].1) by {
        if p == -1 {
            if i < r.len() {
                assert(u[i] == r[i]);
            } else {
                assert(u[i] == (k, v));
            }
        } else {
            if i == p {
                assert(u[i] == (k, v));
            } else {
                assert(u[i] == r[i]);
            }
        }
    }
}

proof fn lemma_merge_single_line(r: Seq<(Seq<char>, Seq<char>)>, fs: Seq<(Seq<char>, Seq<char>)>)
    requires
        values_single_line(r),
        values_single_line(fs),
    ensures
        values_single_line(spec_merge(r, fs)),
    decreases fs.len(),
{
    if fs.len() > 0 {
        let rest = fs.drop_first();
        assert(forall|i: int| 0 <= i < rest.len() ==> rest[i] == fs[i + 1]);
        assert(single_line(fs[0].1));
        lemma_upsert_single_line(r, fs[0].0, fs[0].1);
        lemma_merge_single_line(spec_upsert(r, fs[0].0, fs[0].1), rest);
    }
}

/// Insert or overwrite one field of `rec`, as `spec_upsert` says.
pub fn upsert(rec: &mut Vec<Field>, name: String, value: String)
    ensures
        rec_view(final(rec)@) == spec_upsert(rec_view(old(rec)@), name@, value@),
{
    let ghost r0 = rec_view(old(rec)@);
    let n = rec.len();
    let mut i: usize = 0;
    while i < n
        invariant
            i <= n,
            n == rec@.len(),
            rec@ == old(rec)@,
            r0 == rec_view(old(rec)@),
            forall|j: int| 0 <= j < i ==> r0[j].0 != name@,
        decreases n - i,
    {
        if rec[i].name == name {
            proof {
                lemma_find_key_is(r0, name@, i as int);
            }
            rec[i] = Field { name, value };
            proof {
                assert(rec_view(rec@) =~= r0.update(i as int, (name@, value@)));
            }
            return ;
        }
        proof {
            assert(r0[i as int].0 == rec@[i as int].name@);
        }
        i = i + 1;
    }
    proof {
        lemma_find_key(r0, name@);
        if find_key(r0, name@) != -1 {
            assert(r0[find_key(r0, name@)].0 == name@);
            assert(false);
        }
    }
    rec.push(Field { name, value });
    proof {
        assert(rec_view(rec@) =~= r0.push((name@, value@)));
    }
}

fn clone_string(s: &String) -> (r: String)
    ensures
        r@ == s@,
{
    s.as_str().to_owned()
}

/// Merge the caller fields into the record, entry by entry, left to right.
pub fn merge_fields(rec: &mut Vec<Field>, fields: &Vec<Field>)
    ensures
        rec_view(final(rec)@) == spec_merge(rec_view(old(rec)@), rec_view(fields@)),
{
    let ghost goal = spec_merge(rec_view(old(rec)@), rec_view(fields@));
    let ghost fv = rec_view(fields@);
    proof {
        assert(fv.skip(0) =~= fv);
    }
    let mut i: usize = 0;
    while i < fields.len()
        invariant
            i <= fields@.len(),
            fv == rec_view(fields@),
            goal == spec_merge(rec_view(old(rec)@), rec_view(fields@)),
            spec_merge(rec_view(rec@), fv.skip(i as int)) == goal,
        decreases fields@.len() - i,
    {
        let ghost before = rec_view(rec@);
        let name = clone_string(&fields[i].name);
        let value = clone_string(&fields[i].value);
        upsert(rec, name, value);
        proof {
            assert(fv.skip(i as int)[0] == fv[i as int]);
            assert(fv.skip(i as int).drop_first() =~= fv.skip(i as int + 1));
            assert(spec_merge(before, fv.skip(i as int)) == spec_merge(
                spec_upsert(before, fv[i as int].0, fv[i as int].1),
                fv.skip(i as int + 1),
            ));
        }
        i = i + 1;
    }
    proof {
        assert(fv.skip(fields@.len() as int) =~= Seq::<(Seq<char>, Seq<char>)>::empty());
    }
}

/// The six fixed fields of every record, in insertion order, with their
/// values already JSON-encoded.
pub open spec fn fixed_fields(
    ts: Seq<char>,
    level: Seq<char>,
    event: Seq<char>,
    node_id: Seq<char>,
    workspace: Seq<char>,
) -> Seq<(Seq<char>, Seq<char>)> {
    seq![
        ("ts"@, json_str_of(ts)),
        ("level"@, json_str_of(level)),
        ("component"@, json_str_of("node"@)),
        ("event"@, json_str_of(event)),
        ("nodeId"@, json_str_of(node_id)),
        ("workspace"@, json_str_of(workspace)),
    ]
}

/// The full record of one log call: the fixed fields with the payload
/// merged on top.
pub open spec fn spec_record(
    ts: Seq<char>,
    level: Seq<char>,
    event: Seq<char>,
    node_id: Seq<char>,
    workspace: Seq<char>,
    p: Payload,
) -> Seq<(Seq<char>, Seq<char>)> {
    let base = fixed_fields(ts, level, event, node_id, workspace);
    match p {
        Payload::Absent => base,
        Payload::Fields(fs) => spec_merge(base, rec_view(fs@)),
        Payload::Scalar(t) => spec_upsert(base, "data"@, t@),
    }
}

/// Build the ordered record of one log call. When every payload value text
/// is one line, so is every value of the record: the fixed fields are
/// encoded with their newlines escaped.
pub fn build_record(
    ts: &str,
    level: &str,
    event: &str,
    node_id: &str,
    workspace: &str,
    payload: Payload,
) -> (r: Vec<Field>)
    ensures
        rec_view(r@) == spec_record(ts@, level@, event@, node_id@, workspace@, payload),
        payload_single_line(payload) ==> values_single_line(rec_view(r@)),
{
    let mut rec: Vec<Field> = Vec::new();
    rec.push(Field { name: "ts".to_owned(), value: json_encode_str(ts) });
    rec.push(Field { name: "level".to_owned(), value: json_encode_str(level) });
    rec.push(Field { name: "component".to_owned(), value: json_encode_str("node") });
    rec.push(Field { name: "event".to_owned(), value: json_encode_str(event) });
    rec.push(Field { name: "nodeId".to_owned(), value: json_encode_str(node_id) });
    rec.push(Field { name: "workspace".to_owned(), value: json_encode_str(workspace) });
    let ghost base = rec_view(rec@);
    proof {
        assert(base =~= fixed_fields(ts@, level@, event@, node_id@, workspace@));
        assert forall|i: int| 0 <= i < base.len() implies single_line(base[i].1) by {
            assert(base[i].1 == rec@[i].value@);
        }
    }
    match payload {
        Payload::Absent => {},
        Payload::Fields(fs) => {
            merge_fields(&mut rec, &fs);
            proof {
                if payload_single_line(payload) {
                    lemma_merge_single_line(base, rec_view(fs@));
                }
            }
        },
        Payload::Scalar(t) => {
            let ghost tv = t@;
            upsert(&mut rec, "data".to_owned(), t);
            proof {
                if payload_single_line(payload) {
                    lemma_upsert_single_line(base, "data"@, tv);
                }
            }
        },
    }
    rec
}

/// One serialized entry: encoded name, a colon, the value text.
pub open spec fn entry_text(e: (Seq<char>, Seq<char>)) -> Seq<char> {
    json_str_of(e.0) + seq![':'] + e.1
}

/// The serialized entries joined with commas.
pub open spec fn body_text(r: Seq<(Seq<char>, Seq<char>)>) -> Seq<char>
    decreases r.len(),
{
    if r.len() == 0 {
        Seq::<char>::empty()
    } else if r.len() == 1 {
        entry_text(r[0])
    } else {
        body_text(r.drop_last()) + seq![','] + entry_text(r.last())
    }
}

/// The single-line text encoding of a record.
pub open spec fn line_text(r: Seq<(Seq<char>, Seq<char>)>) -> Seq<char> {
    seq!['{'] + body_text(r) + seq!['}']
}

/// Serialize a record to its single-line text encoding. When every value
/// text is one line, the whole line is: names are encoded with escaping, and
/// the frame is punctuation.
pub fn record_line(rec: &Vec<Field>) -> (s: String)
    ensures
        s@ == line_text(rec_view(rec@)),
        values_single_line(rec_view(rec@)) ==> single_line(s@),
{
    let ghost rv = rec_view(rec@);
    let mut s = "{".to_owned();
    proof {
        reveal_strlit("{");
        assert(s@ =~= seq!['{']);
        assert(rv.take(0) =~= Seq::<(Seq<char>, Seq<char>)>::empty());
        assert(single_line(s@)) by {
            assert(s@[0] == '{');
        }
    }
    let mut i: usize = 0;
    while i < rec.len()
        invariant
            i <= rec@.len(),
            rv == rec_view(rec@),
            s@ == seq!['{'] + body_text(rv.take(i as int)),
            values_single_line(rv) ==> single_line(s@),
        decreases rec@.len() - i,
    {
        let ghost s0 = s@;
        if i > 0 {
            s.append(",");
        }
        let enc = json_encode_str(rec[i].name.as_str());
        s.append(enc.as_str());
        s.append(":");
        s.append(rec[i].value.as_str());
        proof {
            reveal_strlit(",");
            reveal_strlit(":");
            assert(rv.take(i as int + 1).drop_last() =~= rv.take(i as int));
            assert(rv.take(i as int + 1).last() == rv[i as int]);
            assert(rv[i as int] == (rec@[i as int].name@, rec@[i as int].value@));
            assert(s@ =~= seq!['{'] + body_text(rv.take(i as int + 1)));
            if values_single_line(rv) {
                let sep: Seq<char> = if i > 0 {
                    seq![',']
                } else {
                    Seq::<char>::empty()
                };
                assert(single_line(sep)) by {
                    if i > 0 {
                        assert(sep[0] == ',');
                    }
                }
                assert(single_line(seq![':'])) by {
                    assert(seq![':'][0] == ':');
                }
                assert(single_line(rv[i as int].1));
                lemma_single_line_concat(s0, sep);
                lemma_single_line_concat(s0 + sep, enc@);
                lemma_single_line_concat(s0 + sep + enc@, seq![':']);
                lemma_single_line_concat(s0 + sep + enc@ + seq![':'], rv[i as int].1);
                assert(s@ =~= s0 + sep + enc@ + seq![':'] + rv[i as int].1);
            }
        }
        i = i + 1;
    }
    let ghost s1 = s@;
    s.append("}");
    proof {
        reveal_strlit("}");
        assert(rv.take(rec@.len() as int) =~= rv);
        assert(s@ =~= line_text(rv));
        if values_single_line(rv) {
            assert(single_line(seq!['}'])) by {
                assert(seq!['}'][0] == '}');
            }
            lemma_single_line_concat(s1, seq!['}']);
            assert(s@ =~= s1 + seq!['}']);
        }
    }
    s
}

/// Build and serialize the record of one log call in one step. When every
/// payload value text is one line, the record occupies exactly one line.
pub fn compose_line(
    ts: &str,
    level: &str,
    event: &str,
    node_id: &str,
    workspace: &str,
    payload: Payload,
) -> (line: String)
    ensures
        line@ == line_text(spec_record(ts@, level@, event@, node_id@, workspace@, payload)),
        payload_single_line(payload) ==> single_line(line@),
{
    let rec = build_record(ts, level, event, node_id, workspace, payload);
    record_line(&rec)
}

/// LAW: with an absent payload the record holds exactly the six fixed
/// fields, in insertion order, and in particular no `data` field.
pub proof fn lemma_absent_payload_fixed_only(
    ts: Seq<char>,
    level: Seq<char>,
    event: Seq<char>,
    node_id: Seq<char>,
    workspace: Seq<char>,
)
    ensures
        spec_record(ts, level, event, node_id, workspace, Payload::Absent) == fixed_fields(
            ts,
            level,
            event,
            node_id,
            workspace,
        ),
        fixed_fields(ts, level, event, node_id, workspace).len() == 6,
        fixed_fields(ts, level, event, node_id, workspace)[0] == ("ts"@, json_str_of(ts)),
        fixed_fields(ts, level, event, node_id, workspace)[1] == ("level"@, json_str_of(level)),
        fixed_fields(ts, level, event, node_id, workspace)[2] == ("component"@, json_str_of(
            "node"@,
        )),
        fixed_fields(ts, level, event, node_id, workspace)[3] == ("event"@, json_str_of(event)),
        fixed_fields(ts, level, event, node_id, workspace)[4] == ("nodeId"@, json_str_of(node_id)),
        fixed_fields(ts, level, event, node_id, workspace)[5] == ("workspace"@, json_str_of(
            workspace,
        )),
        !has_field(fixed_fields(ts, level, event, node_id, workspace), "data"@),
{
    reveal_strlit("ts");
    reveal_strlit("level");
    reveal_strlit("component");
    reveal_strlit("event");
    reveal_strlit("nodeId");
    reveal_strlit("workspace");
    reveal_strlit("data");
    let r = fixed_fields(ts, level, event, node_id, workspace);
    assert forall|i: int| 0 <= i < r.len() implies r[i].0 != "data"@ by {
        assert(("data"@).len() == 4);
        assert(("ts"@).len() == 2);
        assert(("level"@).len() == 5);
        assert(("component"@).len() == 9);
        assert(("event"@).len() == 5);
        assert(("nodeId"@).len() == 6);
        assert(("workspace"@).len() == 9);
    }
}

/// Index of the last entry named `k`, or -1.
pub open spec fn last_find(fs: Seq<(Seq<char>, Seq<char>)>, k: Seq<char>) -> int
    decreases fs.len(),
{
    if fs.len() == 0 {
        -1
    } else {
        let rest = last_find(fs.drop_first(), k);
        if rest != -1 {
            rest + 1
        } else if fs[0].0 == k {
            0
        } else {
            -1
        }
    }
}

/// `last_find` points at the last entry named `k`, and -1 means none.
pub proof fn lemma_last_find(fs: Seq<(Seq<char>, Seq<char>)>, k: Seq<char>)
    ensures
        last_find(fs, k) == -1 ==> forall|i: int| 0 <= i < fs.len() ==> fs[i].0 != k,
        last_find(fs, k) != -1 ==> 0 <= last_find(fs, k) < fs.len() && fs[last_find(fs, k)].0 == k,
    decreases fs.len(),
{
    if fs.len() > 0 {
        let rest = fs.drop_first();
        lemma_last_find(rest, k);
        assert(forall|i: int| 0 <= i < rest.len() ==> rest[i] == fs[i + 1]);
        if last_find(fs, k) == -1 {
            assert forall|i: int| 0 <= i < fs.len() implies fs[i].0 != k by {
                if i >= 1 {
                    assert(fs[i] == rest[i - 1]);
                }
            }
        }
    }
}

/// How an upsert answers later lookups: the upserted name now maps to the
/// new value, and every other name is untouched.
pub proof fn lemma_upsert_find(
    r: Seq<(Seq<char>, Seq<char>)>,
    k: Seq<char>,
    v: Seq<char>,
    k2: Seq<char>,
)
    ensures
        k2 == k ==> has_field(spec_upsert(r, k, v), k2) && value_of(spec_upsert(r, k, v), k2) == v,
        k2 != k ==> has_field(spec_upsert(r, k, v), k2) == has_field(r, k2),
        k2 != k && has_field(r, k2) ==> value_of(spec_upsert(r, k, v), k2) == value_of(r, k2),
{
    let u = spec_upsert(r, k, v);
    lemma_find_key(r, k);
    let p = find_key(r, k);
    if p == -1 {
        // u is r with (k, v) appended
        assert(u == r.push((k, v)));
        assert(u[r.len() as int] == (k, v));
        assert(forall|j: int| 0 <= j < r.len() ==> u[j] == r[j]);
        if k2 == k {
            lemma_find_key_is(u, k, r.len() as int);
            assert(u[r.len() as int].0 == k);
            assert(value_of(u, k) == v);
        } else {
            lemma_find_key(r, k2);
            let f = find_key(r, k2);
            if f != -1 {
                assert(u[f].0 == k2);
                lemma_find_key_is(u, k2, f);
                assert(u[f].1 == r[f].1);
            } else {
                assert forall|i: int| 0 <= i < u.len() implies u[i].0 != k2 by {
                    if i < r.len() {
                        assert(u[i] == r[i]);
                    } else {
                        assert(u[i] == (k, v));
                    }
                }
            }
        }
    } else {
        // u is r with the entry at p replaced; the name there stays k
        assert(u == r.update(p, (k, v)));
        assert(u[p] == (k, v));
        assert(r[p].0 == k);
        assert(forall|j: int| 0 <= j < r.len() && j != p ==> u[j] == r[j]);
        assert forall|i: int| 0 <= i < u.len() implies u[i].0 == r[i].0 by {
            if i != p {
                assert(u[i] == r[i]);
            }
        }
        if k2 == k {
            lemma_find_key_is(u, k, p);
            assert(value_of(u, k) == v);
        } else {
            lemma_find_key(r, k2);
            let f = find_key(r, k2);
            if f != -1 {
                assert(f != p);
                assert(u[f] == r[f]);
                lemma_find_key_is(u, k2, f);
            }
        }
    }
}

/// How a merge answers later lookups: a name that occurs in the merged
/// fields maps to its last value there; any other name keeps its mapping.
pub proof fn lemma_merge_value(
    r: Seq<(Seq<char>, Seq<char>)>,
    fs: Seq<(Seq<char>, Seq<char>)>,
    k: Seq<char>,
)
    ensures
        last_find(fs, k) != -1 ==> has_field(spec_merge(r, fs), k) && value_of(spec_merge(r, fs), k)
            == fs[last_find(fs, k)].1,
        last_find(fs, k) == -1 ==> has_field(spec_merge(r, fs), k) == has_field(r, k),
        last_find(fs, k) == -1 && has_field(r, k) ==> value_of(spec_merge(r, fs), k) == value_of(
            r,
            k,
        ),
    decreases fs.len(),
{
    if fs.len() > 0 {
        let u = spec_upsert(r, fs[0].0, fs[0].1);
        let rest = fs.drop_first();
        lemma_upsert_find(r, fs[0].0, fs[0].1, k);
        lemma_merge_value(u, rest, k);
        assert(forall|i: int| 0 <= i < rest.len() ==> rest[i] == fs[i + 1]);
        let lr = last_find(rest, k);
        if lr != -1 {
            lemma_last_find(rest, k);
            assert(last_find(fs, k) == lr + 1);
            assert(rest[lr] == fs[lr + 1]);
        } else if fs[0].0 == k {
            assert(last_find(fs, k) == 0);
        }
    }
}

/// LAW: the caller's value wins. If the Fields payload names `k` — even a
/// fixed field name like `event` — the built record maps `k` to the value
/// text of the payload's last entry named `k`.
pub proof fn lemma_caller_field_wins(
    ts: Seq<char>,
    level: Seq<char>,
    event: Seq<char>,
    node_id: Seq<char>,
    workspace: Seq<char>,
    fs: Seq<(Seq<char>, Seq<char>)>,
    k: Seq<char>,
)
    requires
        last_find(fs, k) != -1,
    ensures
        has_field(spec_merge(fixed_fields(ts, level, event, node_id, workspace), fs), k),
        value_of(spec_merge(fixed_fields(ts, level, event, node_id, workspace), fs), k) == fs[
            last_find(fs, k)].1,
{
    lemma_merge_value(fixed_fields(ts, level, event, node_id, workspace), fs, k);
}

/// ERROR records go to the standard error stream, all others to standard out.
pub fn is_error_level(level: &str) -> (r: bool)
    ensures
        r == (level@ == "ERROR"@),
{
    let a = level.to_owned();
    let b = "ERROR".to_owned();
    a == b
}

} // verus!
