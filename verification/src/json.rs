//! JSON documents as the library holds them, and the object arrays that can
//! be imported from them.

use vstd::prelude::*;

use crate::text::{concat, decimal, decimal_string, string_from_chars, chars_of};

verus! {

broadcast use vstd::seq_lib::group_seq_properties;

/// A JSON value. Numbers are kept as the text JSON writes for them; object
/// members keep the order of the document's map (sorted by key, each key
/// once).
#[derive(Debug)]
pub enum JsonValue {
    Null,
    Bool(bool),
    Number(String),
    String(String),
    Array(Vec<JsonValue>),
    Object(Vec<(String, JsonValue)>),
}

/// Mathematical view of a JSON value.
pub enum JsonView {
    Null,
    Bool(bool),
    Number(Seq<char>),
    Str(Seq<char>),
    Array(Seq<JsonView>),
    Object(Seq<(Seq<char>, JsonView)>),
}

/// The view of a JSON value.
pub open spec fn json_view(v: JsonValue) -> JsonView
    decreases v, 0nat,
{
    match v {
        JsonValue::Null => JsonView::Null,
        JsonValue::Bool(b) => JsonView::Bool(b),
        JsonValue::Number(n) => JsonView::Number(n@),
        JsonValue::String(s) => JsonView::Str(s@),
        JsonValue::Array(vs) => JsonView::Array(list_view(vs@, vs@.len())),
        JsonValue::Object(ms) => JsonView::Object(members_view(ms@, ms@.len())),
    }
}

/// Views of the first `n` values.
pub open spec fn list_view(vs: Seq<JsonValue>, n: nat) -> Seq<JsonView>
    decreases vs, n,
{
    if n == 0 || n > vs.len() {
        Seq::empty()
    } else {
        list_view(vs, (n - 1) as nat).push(json_view(vs[n - 1]))
    }
}

/// Views of the first `n` members.
pub open spec fn members_view(ms: Seq<(String, JsonValue)>, n: nat) -> Seq<(Seq<char>, JsonView)>
    decreases ms, n,
{
    if n == 0 || n > ms.len() {
        Seq::empty()
    } else {
        members_view(ms, (n - 1) as nat).push((ms[n - 1].0@, json_view(ms[n - 1].1)))
    }
}

impl View for JsonValue {
    type V = JsonView;

    open spec fn view(&self) -> JsonView {
        json_view(*self)
    }
}

proof fn lemma_list_view(vs: Seq<JsonValue>, n: nat)
    requires
        n <= vs.len(),
    ensures
        list_view(vs, n).len() == n,
        forall|i: int| 0 <= i < n ==> #[trigger] list_view(vs, n)[i] == json_view(vs[i]),
    decreases n,
{
    if n > 0 {
        lemma_list_view(vs, (n - 1) as nat);
    }
}

proof fn lemma_members_view(ms: Seq<(String, JsonValue)>, n: nat)
    requires
        n <= ms.len(),
    ensures
        members_view(ms, n).len() == n,
        forall|i: int|
            0 <= i < n ==> #[trigger] members_view(ms, n)[i] == (ms[i].0@, json_view(ms[i].1)),
    decreases n,
{
    if n > 0 {
        lemma_members_view(ms, (n - 1) as nat);
    }
}

/// The view of an array's elements, one by one.
pub proof fn lemma_array_view(vs: Seq<JsonValue>)
    ensures
        list_view(vs, vs.len()).len() == vs.len(),
        forall|i: int| 0 <= i < vs.len() ==> #[trigger] list_view(vs, vs.len())[i] == json_view(vs[i]),
{
    lemma_list_view(vs, vs.len());
}

/// The view of an object's members, one by one.
pub proof fn lemma_object_view(ms: Seq<(String, JsonValue)>)
    ensures
        members_view(ms, ms.len()).len() == ms.len(),
        forall|i: int|
            0 <= i < ms.len() ==> #[trigger] members_view(ms, ms.len())[i] == (ms[i].0@, json_view(ms[i].1)),
{
    lemma_members_view(ms, ms.len());
}

/// Whether two values are the same JSON: same kind, same texts, same
/// elements and members in the same order.
pub fn json_eq(a: &JsonValue, b: &JsonValue) -> (r: bool)
    ensures
        r == (a@ == b@),
    decreases a,
{
    match (a, b) {
        (JsonValue::Null, JsonValue::Null) => true,
        (JsonValue::Bool(x), JsonValue::Bool(y)) => *x == *y,
        (JsonValue::Number(x), JsonValue::Number(y)) => *x == *y,
        (JsonValue::String(x), JsonValue::String(y)) => *x == *y,
        (JsonValue::Array(xs), JsonValue::Array(ys)) => {
            proof {
                lemma_array_view(xs@);
                lemma_array_view(ys@);
            }
            if xs.len() != ys.len() {
                return false;
            }
            for i in 0..xs.len()
                invariant
                    *a == JsonValue::Array(*xs),
                    *b == JsonValue::Array(*ys),
                    xs@.len() == ys@.len(),
                    list_view(xs@, xs@.len()).len() == xs@.len(),
                    list_view(ys@, ys@.len()).len() == ys@.len(),
                    forall|k: int| 0 <= k < xs@.len() ==> #[trigger] list_view(xs@, xs@.len())[k] == json_view(xs@[k]),
                    forall|k: int| 0 <= k < ys@.len() ==> #[trigger] list_view(ys@, ys@.len())[k] == json_view(ys@[k]),
                    forall|k: int| 0 <= k < i ==> json_view(#[trigger] xs@[k]) == json_view(ys@[k]),
            {
                proof {
                    assert(decreases_to!(*a => (*a)->Array_0));
                    assert((*a)->Array_0 == *xs);
                    assert(decreases_to!(*xs => xs@));
                    assert(decreases_to!(xs@ => xs@[i as int]));
                    assert(decreases_to!(*a => xs@[i as int]));
                }
                if !json_eq(&xs[i], &ys[i]) {
                    assert(list_view(xs@, xs@.len())[i as int] != list_view(ys@, ys@.len())[i as int]);
                    return false;
                }
            }
            assert(list_view(xs@, xs@.len()) =~= list_view(ys@, ys@.len()));
            true
        },
        (JsonValue::Object(xs), JsonValue::Object(ys)) => {
            proof {
                lemma_object_view(xs@);
                lemma_object_view(ys@);
            }
            if xs.len() != ys.len() {
                return false;
            }
            for i in 0..xs.len()
                invariant
                    *a == JsonValue::Object(*xs),
                    *b == JsonValue::Object(*ys),
                    xs@.len() == ys@.len(),
                    members_view(xs@, xs@.len()).len() == xs@.len(),
                    members_view(ys@, ys@.len()).len() == ys@.len(),
                    forall|k: int|
                        0 <= k < xs@.len() ==> #[trigger] members_view(xs@, xs@.len())[k] == (
                            xs@[k].0@,
                            json_view(xs@[k].1),
                        ),
                    forall|k: int|
                        0 <= k < ys@.len() ==> #[trigger] members_view(ys@, ys@.len())[k] == (
                            ys@[k].0@,
                            json_view(ys@[k].1),
                        ),
                    forall|k: int|
                        0 <= k < i ==> (#[trigger] xs@[k]).0@ == ys@[k].0@ && json_view(xs@[k].1)
                            == json_view(ys@[k].1),
            {
                proof {
                    assert(decreases_to!(*a => (*a)->Object_0));
                    assert((*a)->Object_0 == *xs);
                    assert(decreases_to!(*xs => xs@));
                    assert(decreases_to!(xs@ => xs@[i as int]));
                    assert(decreases_to!(xs@[i as int] => xs@[i as int].1));
                    assert(decreases_to!(*a => xs@[i as int].1));
                }
                if xs[i].0 != ys[i].0 || !json_eq(&xs[i].1, &ys[i].1) {
                    assert(members_view(xs@, xs@.len())[i as int] != members_view(ys@, ys@.len())[i as int]);
                    return false;
                }
            }
            assert(members_view(xs@, xs@.len()) =~= members_view(ys@, ys@.len()));
            true
        },
        _ => false,
    }
}


/// A copy of a JSON value.
pub fn json_clone(v: &JsonValue) -> (r: JsonValue)
    ensures
        r@ == v@,
    decreases v,
{
    match v {
        JsonValue::Null => JsonValue::Null,
        JsonValue::Bool(b) => JsonValue::Bool(*b),
        JsonValue::Number(n) => JsonValue::Number(n.clone()),
        JsonValue::String(t) => JsonValue::String(t.clone()),
        JsonValue::Array(xs) => {
            proof {
                lemma_array_view(xs@);
            }
            let mut out: Vec<JsonValue> = Vec::new();
            for i in 0..xs.len()
                invariant
                    *v == JsonValue::Array(*xs),
                    out@.len() == i,
                    forall|k: int| 0 <= k < i ==> json_view(#[trigger] out@[k]) == json_view(xs@[k]),
            {
                proof {
                    assert(decreases_to!(*v => (*v)->Array_0));
                    assert((*v)->Array_0 == *xs);
                    assert(decreases_to!(*xs => xs@));
                    assert(decreases_to!(xs@ => xs@[i as int]));
                }
                out.push(json_clone(&xs[i]));
            }
            proof {
                lemma_array_view(out@);
                assert(list_view(out@, out@.len()) =~= list_view(xs@, xs@.len()));
            }
            JsonValue::Array(out)
        },
        JsonValue::Object(ms) => {
            proof {
                lemma_object_view(ms@);
            }
            let mut out: Vec<(String, JsonValue)> = Vec::new();
            for i in 0..ms.len()
                invariant
                    *v == JsonValue::Object(*ms),
                    out@.len() == i,
                    forall|k: int|
                        0 <= k < i ==> (#[trigger] out@[k]).0@ == ms@[k].0@ && json_view(out@[k].1) == json_view(
                            ms@[k].1,
                        ),
            {
                proof {
                    assert(decreases_to!(*v => (*v)->Object_0));
                    assert((*v)->Object_0 == *ms);
                    assert(decreases_to!(*ms => ms@));
                    assert(decreases_to!(ms@ => ms@[i as int]));
                    assert(decreases_to!(ms@[i as int] => ms@[i as int].1));
                }
                let value = json_clone(&ms[i].1);
                out.push((ms[i].0.clone(), value));
            }
            proof {
                lemma_object_view(out@);
                assert(members_view(out@, out@.len()) =~= members_view(ms@, ms@.len()));
            }
            JsonValue::Object(out)
        },
    }
}

/// A copy of a list of named values.
pub fn members_clone(ms: &Vec<(String, JsonValue)>) -> (r: Vec<(String, JsonValue)>)
    ensures
        members_view(r@, r@.len()) == members_view(ms@, ms@.len()),
{
    proof {
        lemma_object_view(ms@);
    }
    let mut out: Vec<(String, JsonValue)> = Vec::new();
    for i in 0..ms.len()
        invariant
            out@.len() == i,
            forall|k: int|
                0 <= k < i ==> (#[trigger] out@[k]).0@ == ms@[k].0@ && json_view(out@[k].1) == json_view(ms@[k].1),
    {
        let value = json_clone(&ms[i].1);
        out.push((ms[i].0.clone(), value));
    }
    proof {
        lemma_object_view(out@);
        assert(members_view(out@, out@.len()) =~= members_view(ms@, ms@.len()));
    }
    out
}

/// Whether two lists of named values are equal, name by name and value by
/// value.
pub fn members_eq(a: &Vec<(String, JsonValue)>, b: &Vec<(String, JsonValue)>) -> (r: bool)
    ensures
        r == (members_view(a@, a@.len()) == members_view(b@, b@.len())),
{
    proof {
        lemma_object_view(a@);
        lemma_object_view(b@);
    }
    if a.len() != b.len() {
        return false;
    }
    for i in 0..a.len()
        invariant
            a@.len() == b@.len(),
            members_view(a@, a@.len()).len() == a@.len(),
            members_view(b@, b@.len()).len() == b@.len(),
            forall|k: int|
                0 <= k < a@.len() ==> #[trigger] members_view(a@, a@.len())[k] == (a@[k].0@, json_view(a@[k].1)),
            forall|k: int|
                0 <= k < b@.len() ==> #[trigger] members_view(b@, b@.len())[k] == (b@[k].0@, json_view(b@[k].1)),
            forall|k: int|
                0 <= k < i ==> (#[trigger] a@[k]).0@ == b@[k].0@ && json_view(a@[k].1) == json_view(b@[k].1),
    {
        if a[i].0 != b[i].0 || !json_eq(&a[i].1, &b[i].1) {
            assert(members_view(a@, a@.len())[i as int] != members_view(b@, b@.len())[i as int]);
            return false;
        }
    }
    assert(members_view(a@, a@.len()) =~= members_view(b@, b@.len()));
    true
}

/// The value named `name`: the first member with that name.
pub open spec fn lookup(fields: Seq<(Seq<char>, JsonView)>, name: Seq<char>) -> Option<JsonView>
    decreases fields.len(),
{
    if fields.len() == 0 {
        None
    } else if fields[0].0 == name {
        Some(fields[0].1)
    } else {
        lookup(fields.drop_first(), name)
    }
}

/// The position of the first member named `name`.
pub fn find_member(fields: &Vec<(String, JsonValue)>, name: &str) -> (r: Option<usize>)
    ensures
        match r {
            Some(i) => i < fields@.len() && lookup(members_view(fields@, fields@.len()), name@) == Some(
                json_view(fields@[i as int].1),
            ),
            None => lookup(members_view(fields@, fields@.len()), name@) == None::<JsonView>,
        },
{
    proof {
        lemma_object_view(fields@);
    }
    let ghost fv = members_view(fields@, fields@.len());
    let key = crate::text::owned(name);
    for i in 0..fields.len()
        invariant
            fv == members_view(fields@, fields@.len()),
            fv.len() == fields@.len(),
            forall|k: int| 0 <= k < fields@.len() ==> #[trigger] fv[k] == (fields@[k].0@, json_view(fields@[k].1)),
            key@ == name@,
            lookup(fv, name@) == lookup(fv.skip(i as int), name@),
    {
        assert(fv.skip(i as int).drop_first() =~= fv.skip(i + 1));
        if fields[i].0 == key {
            assert(fv.skip(i as int)[0] == fv[i as int]);
            return Some(i);
        }
    }
    assert(fv.skip(fields@.len() as int).len() == 0);
    None
}

/// Whether a value counts as empty: null, or text that is blank.
pub open spec fn is_empty_value(v: JsonView) -> bool {
    v is Null || (v matches JsonView::Str(s) && crate::text::trimmed(s).len() == 0)
}

/// Whether a value is null or blank text.
pub fn empty_value(v: &JsonValue) -> (r: bool)
    ensures
        r == is_empty_value(v@),
{
    match v {
        JsonValue::Null => true,
        JsonValue::String(s) => {
            let t = crate::text::trim(s.as_str());
            crate::text::char_count(t.as_str()) == 0
        },
        _ => false,
    }
}

/// The escaped form of one key character in a JSON Pointer: `~` becomes
/// `~0` and `/` becomes `~1`.
pub open spec fn escape_char(c: char) -> Seq<char> {
    if c == '~' {
        seq!['~', '0']
    } else if c == '/' {
        seq!['~', '1']
    } else {
        seq![c]
    }
}

/// A key escaped as a JSON Pointer reference token (RFC 6901).
pub open spec fn escape_key(k: Seq<char>) -> Seq<char>
    decreases k.len(),
{
    if k.len() == 0 {
        Seq::empty()
    } else {
        escape_key(k.drop_last()) + escape_char(k.last())
    }
}

/// Escapes a key for use in a JSON Pointer.
pub fn escape_pointer_key(key: &str) -> (r: String)
    ensures
        r@ == escape_key(key@),
{
    let chars = chars_of(key);
    let mut out: Vec<char> = Vec::new();
    for i in 0..chars.len()
        invariant
            chars@ == key@,
            out@ == escape_key(key@.take(i as int)),
    {
        let c = chars[i];
        assert(key@.take(i + 1).drop_last() =~= key@.take(i as int));
        if c == '~' {
            out.push('~');
            out.push('0');
        } else if c == '/' {
            out.push('~');
            out.push('1');
        } else {
            out.push(c);
        }
        assert(out@ =~= escape_key(key@.take(i + 1)));
    }
    assert(key@.take(key@.len() as int) =~= key@);
    string_from_chars(out.as_slice())
}

/// Whether a value is a JSON object.
pub open spec fn is_object(v: JsonView) -> bool {
    v is Object
}

/// An array of objects found in a document: where it is and how many
/// objects it holds.
#[derive(Debug)]
pub struct JsonArrayNode {
    /// RFC 6901 JSON Pointer; the root array has the empty pointer.
    pub pointer: String,
    pub item_count: usize,
}

/// Every non-empty array of objects in `v`, depth first, each with its
/// pointer, `v` itself sitting at `pointer`.
pub open spec fn spec_nodes(v: JsonView, pointer: Seq<char>) -> Seq<(Seq<char>, nat)>
    decreases v, 0nat,
{
    match v {
        JsonView::Array(vs) => {
            let own = if vs.len() > 0 && forall|i: int| 0 <= i < vs.len() ==> #[trigger] is_object(vs[i]) {
                seq![(pointer, vs.len())]
            } else {
                Seq::empty()
            };
            own + spec_nodes_list(vs, pointer, vs.len())
        },
        JsonView::Object(ms) => spec_nodes_members(ms, pointer, ms.len()),
        _ => Seq::empty(),
    }
}

/// The nodes inside the first `n` elements of an array at `pointer`.
pub open spec fn spec_nodes_list(vs: Seq<JsonView>, pointer: Seq<char>, n: nat) -> Seq<(Seq<char>, nat)>
    decreases vs, n,
{
    if n == 0 || n > vs.len() {
        Seq::empty()
    } else {
        spec_nodes_list(vs, pointer, (n - 1) as nat) + spec_nodes(
            vs[n - 1],
            pointer + seq!['/'] + decimal((n - 1) as nat),
        )
    }
}

/// The nodes inside the first `n` members of an object at `pointer`.
pub open spec fn spec_nodes_members(ms: Seq<(Seq<char>, JsonView)>, pointer: Seq<char>, n: nat) -> Seq<
    (Seq<char>, nat),
>
    decreases ms, n,
{
    if n == 0 || n > ms.len() {
        Seq::empty()
    } else {
        spec_nodes_members(ms, pointer, (n - 1) as nat) + spec_nodes(
            ms[n - 1].1,
            pointer + seq!['/'] + escape_key(ms[n - 1].0),
        )
    }
}

pub open spec fn node_views(v: Seq<JsonArrayNode>) -> Seq<(Seq<char>, nat)> {
    v.map_values(|n: JsonArrayNode| (n.pointer@, n.item_count as nat))
}

/// Appends the object arrays inside `value`, which sits at `pointer`.
pub fn collect_json_array_nodes(value: &JsonValue, pointer: &String, nodes: &mut Vec<JsonArrayNode>)
    ensures
        node_views(final(nodes)@) == node_views(old(nodes)@) + spec_nodes(value@, pointer@),
    decreases value,
{
    match value {
        JsonValue::Array(values) => {
            proof {
                lemma_array_view(values@);
            }
            let ghost vs = list_view(values@, values@.len());
            let mut all_objects = values.len() > 0;
            for i in 0..values.len()
                invariant
                    vs == list_view(values@, values@.len()),
                    vs.len() == values@.len(),
                    forall|k: int| 0 <= k < values@.len() ==> #[trigger] vs[k] == json_view(values@[k]),
                    all_objects == (values@.len() > 0 && forall|k: int| 0 <= k < i ==> #[trigger] is_object(vs[k])),
            {
                let is_obj = match &values[i] {
                    JsonValue::Object(_) => true,
                    _ => false,
                };
                assert(is_obj == is_object(vs[i as int]));
                all_objects = all_objects && is_obj;
            }
            let ghost before = node_views(nodes@);
            if all_objects {
                nodes.push(JsonArrayNode { pointer: pointer.clone(), item_count: values.len() });
                assert(node_views(nodes@) =~= before + seq![(pointer@, vs.len())]);
            } else {
                assert(node_views(nodes@) =~= before + Seq::<(Seq<char>, nat)>::empty());
            }
            let ghost start = node_views(nodes@);
            let slash = concat(pointer.as_str(), "/");
            proof {
                reveal_strlit("/");
            }
            for i in 0..values.len()
                invariant
                    *value == JsonValue::Array(*values),
                    vs == list_view(values@, values@.len()),
                    vs.len() == values@.len(),
                    forall|k: int| 0 <= k < values@.len() ==> #[trigger] vs[k] == json_view(values@[k]),
                    slash@ == pointer@ + seq!['/'],
                    node_views(nodes@) == start + spec_nodes_list(vs, pointer@, i as nat),
            {
                proof {
                    assert(decreases_to!(*value => (*value)->Array_0));
                    assert((*value)->Array_0 == *values);
                    assert(decreases_to!(*values => values@));
                    assert(decreases_to!(values@ => values@[i as int]));
                }
                let index = decimal_string(i as u128);
                let child_pointer = concat(slash.as_str(), index.as_str());
                collect_json_array_nodes(&values[i], &child_pointer, nodes);
                proof {
                    assert(vs[i as int] == values@[i as int]@);
                }
            }
        },
        JsonValue::Object(members) => {
            proof {
                lemma_object_view(members@);
            }
            let ghost ms = members_view(members@, members@.len());
            let ghost start = node_views(nodes@);
            let slash = concat(pointer.as_str(), "/");
            proof {
                reveal_strlit("/");
            }
            for i in 0..members.len()
                invariant
                    *value == JsonValue::Object(*members),
                    ms == members_view(members@, members@.len()),
                    ms.len() == members@.len(),
                    forall|k: int|
                        0 <= k < members@.len() ==> #[trigger] ms[k] == (members@[k].0@, json_view(members@[k].1)),
                    slash@ == pointer@ + seq!['/'],
                    node_views(nodes@) == start + spec_nodes_members(ms, pointer@, i as nat),
            {
                proof {
                    assert(decreases_to!(*value => (*value)->Object_0));
                    assert((*value)->Object_0 == *members);
                    assert(decreases_to!(*members => members@));
                    assert(decreases_to!(members@ => members@[i as int]));
                    assert(decreases_to!(members@[i as int] => members@[i as int].1));
                }
                let escaped = escape_pointer_key(members[i].0.as_str());
                let child_pointer = concat(slash.as_str(), escaped.as_str());
                collect_json_array_nodes(&members[i].1, &child_pointer, nodes);
                proof {
                    assert(ms[i as int] == (members@[i as int].0@, members@[i as int].1@));
                }
            }
        },
        _ => {},
    }
}


/// Scanning the first `n` characters of `s` split at `sep`: the finished
/// pieces and the piece being read.
pub open spec fn split_scan(s: Seq<char>, sep: char, n: nat) -> (Seq<Seq<char>>, Seq<char>)
    decreases n,
{
    if n == 0 {
        (Seq::empty(), Seq::empty())
    } else {
        let (done, current) = split_scan(s, sep, (n - 1) as nat);
        if s[n - 1] == sep {
            (done.push(current), Seq::empty())
        } else {
            (done, current.push(s[n - 1]))
        }
    }
}

/// The pieces of `s` between occurrences of `sep`, as `str::split` gives
/// them.
pub open spec fn split_on(s: Seq<char>, sep: char) -> Seq<Seq<char>> {
    let (done, current) = split_scan(s, sep, s.len());
    done.push(current)
}

/// `s` with every non-overlapping occurrence of the two characters `a b`,
/// from the left, replaced by `to`.
pub open spec fn replace_pair(s: Seq<char>, a: char, b: char, to: char) -> Seq<char>
    decreases s.len(),
{
    if s.len() >= 2 && s[0] == a && s[1] == b {
        seq![to] + replace_pair(s.skip(2), a, b, to)
    } else if s.len() == 0 {
        Seq::empty()
    } else {
        seq![s[0]] + replace_pair(s.skip(1), a, b, to)
    }
}

/// A reference token of a JSON Pointer unescaped: `~1` becomes `/`, then
/// `~0` becomes `~`.
pub open spec fn unescape_token(t: Seq<char>) -> Seq<char> {
    replace_pair(replace_pair(t, '~', '1', '/'), '~', '0', '~')
}

/// An array index in a JSON Pointer: digits without a leading zero (but
/// `0` itself), small enough for `usize`.
pub open spec fn spec_parse_index(t: Seq<char>) -> Option<nat> {
    if t.len() > 0 && (forall|i: int| 0 <= i < t.len() ==> '0' <= #[trigger] t[i] && t[i] <= '9') && (t[0] != '0'
        || t.len() == 1) && crate::text::decimal_value(t) <= usize::MAX {
        Some(crate::text::decimal_value(t))
    } else {
        None
    }
}

/// One step into a value along a token.
pub open spec fn pointer_step(v: JsonView, token: Seq<char>) -> Option<JsonView> {
    match v {
        JsonView::Object(ms) => lookup(ms, token),
        JsonView::Array(vs) => match spec_parse_index(token) {
            Some(i) => if i < vs.len() {
                Some(vs[i as int])
            } else {
                None
            },
            None => None,
        },
        _ => None,
    }
}

/// Following the tokens from `v`.
pub open spec fn pointer_walk(v: JsonView, tokens: Seq<Seq<char>>) -> Option<JsonView>
    decreases tokens.len(),
{
    if tokens.len() == 0 {
        Some(v)
    } else {
        match pointer_step(v, tokens[0]) {
            Some(c) => pointer_walk(c, tokens.drop_first()),
            None => None,
        }
    }
}

/// The value a JSON Pointer (RFC 6901) picks out, as `Value::pointer`
/// finds it: the empty pointer is the value itself; otherwise the pointer
/// starts with `/` and each token after a `/`, unescaped, names a member
/// or an array index.
pub open spec fn spec_pointer(root: JsonView, pointer: Seq<char>) -> Option<JsonView> {
    if pointer.len() == 0 {
        Some(root)
    } else if pointer[0] != '/' {
        None
    } else {
        pointer_walk(root, split_on(pointer, '/').drop_first().map_values(|t: Seq<char>| unescape_token(t)))
    }
}

/// Splits `s` at `sep`.
fn split_chars(s: &Vec<char>, sep: char) -> (r: Vec<Vec<char>>)
    ensures
        r@.map_values(|p: Vec<char>| p@) == split_on(s@, sep),
{
    let mut done: Vec<Vec<char>> = Vec::new();
    let mut current: Vec<char> = Vec::new();
    for i in 0..s.len()
        invariant
            (done@.map_values(|p: Vec<char>| p@), current@) == split_scan(s@, sep, i as nat),
    {
        if s[i] == sep {
            let ghost before = done@;
            done.push(current);
            assert(done@.map_values(|p: Vec<char>| p@) =~= before.map_values(|p: Vec<char>| p@).push(
                split_scan(s@, sep, i as nat).1,
            ));
            current = Vec::new();
        } else {
            current.push(s[i]);
        }
    }
    let ghost before = done@;
    let ghost last = current@;
    done.push(current);
    assert(done@.map_values(|p: Vec<char>| p@) =~= before.map_values(|p: Vec<char>| p@).push(last));
    done
}

proof fn lemma_replace_step(s: Seq<char>, i: int, a: char, b: char, to: char)
    requires
        0 <= i < s.len(),
    ensures
        i + 1 < s.len() && s[i] == a && s[i + 1] == b ==> replace_pair(s.skip(i), a, b, to) == seq![to]
            + replace_pair(s.skip(i + 2), a, b, to),
        !(i + 1 < s.len() && s[i] == a && s[i + 1] == b) ==> replace_pair(s.skip(i), a, b, to) == seq![s[i]]
            + replace_pair(s.skip(i + 1), a, b, to),
{
    let rest = s.skip(i);
    assert(rest[0] == s[i]);
    if i + 1 < s.len() {
        assert(rest[1] == s[i + 1]);
        assert(rest.skip(2) =~= s.skip(i + 2));
    }
    assert(rest.skip(1) =~= s.skip(i + 1));
}

/// Replaces each `a b` in `s`, from the left, by `to`.
#[verifier::spinoff_prover]
fn replace_pair_chars(s: &Vec<char>, a: char, b: char, to: char) -> (r: Vec<char>)
    ensures
        r@ == replace_pair(s@, a, b, to),
{
    let n = s.len();
    let mut out: Vec<char> = Vec::new();
    let mut i: usize = 0;
    assert(s@.skip(0) =~= s@);
    while i < n
        invariant
            n == s@.len(),
            i <= n,
            out@ + replace_pair(s@.skip(i as int), a, b, to) == replace_pair(s@, a, b, to),
        decreases n - i,
    {
        proof {
            lemma_replace_step(s@, i as int, a, b, to);
        }
        let ghost before = out@;
        if i + 1 < n && s[i] == a && s[i + 1] == b {
            out.push(to);
            assert(before + (seq![to] + replace_pair(s@.skip(i + 2), a, b, to)) =~= out@ + replace_pair(
                s@.skip(i + 2),
                a,
                b,
                to,
            ));
            i = i + 2;
        } else {
            out.push(s[i]);
            assert(before + (seq![s@[i as int]] + replace_pair(s@.skip(i + 1), a, b, to)) =~= out@ + replace_pair(
                s@.skip(i + 1),
                a,
                b,
                to,
            ));
            i = i + 1;
        }
    }
    assert(s@.skip(n as int) =~= Seq::<char>::empty());
    assert(out@ + Seq::<char>::empty() =~= out@);
    out
}

/// Reads an array index token.
fn parse_index(t: &Vec<char>) -> (r: Option<usize>)
    ensures
        match r {
            Some(i) => spec_parse_index(t@) == Some(i as nat),
            None => spec_parse_index(t@) == None::<nat>,
        },
{
    let n = t.len();
    if n == 0 || (t[0] == '0' && n != 1) {
        return None;
    }
    let mut value: usize = 0;
    for k in 0..n
        invariant
            n == t@.len(),
            forall|m: int| 0 <= m < k ==> '0' <= #[trigger] t@[m] && t@[m] <= '9',
            value == crate::text::decimal_value(t@.take(k as int)),
    {
        let c = t[k];
        assert(t@.take(k + 1).drop_last() =~= t@.take(k as int));
        if !('0' <= c && c <= '9') {
            return None;
        }
        let d: usize = if c == '0' {
            0
        } else if c == '1' {
            1
        } else if c == '2' {
            2
        } else if c == '3' {
            3
        } else if c == '4' {
            4
        } else if c == '5' {
            5
        } else if c == '6' {
            6
        } else if c == '7' {
            7
        } else if c == '8' {
            8
        } else {
            9
        };
        assert(d == crate::text::digit_value(c));
        match value.checked_mul(10) {
            Some(m) => match m.checked_add(d) {
                Some(v) => {
                    value = v;
                },
                None => {
                    proof {
                        lemma_decimal_value_grows(t@, (k + 1) as nat);
                    }
                    return None;
                },
            },
            None => {
                proof {
                    lemma_decimal_value_grows(t@, (k + 1) as nat);
                }
                return None;
            },
        }
    }
    assert(t@.take(n as int) =~= t@);
    Some(value)
}

/// Reading more digits never gives a smaller number.
proof fn lemma_decimal_value_grows(t: Seq<char>, k: nat)
    requires
        k <= t.len(),
    ensures
        crate::text::decimal_value(t.take(k as int)) <= crate::text::decimal_value(t),
    decreases t.len() - k,
{
    if k < t.len() {
        lemma_decimal_value_grows(t, k + 1);
        assert(t.take(k as int + 1).drop_last() =~= t.take(k as int));
        assert(crate::text::decimal_value(t.take(k as int + 1)) >= crate::text::decimal_value(t.take(k as int)) * 10);
    } else {
        assert(t.take(k as int) =~= t);
    }
}

/// The value `pointer` picks out of `root`, if any.
pub fn pointer_target<'a>(root: &'a JsonValue, pointer: &str) -> (r: Option<&'a JsonValue>)
    ensures
        match r {
            Some(v) => spec_pointer(root@, pointer@) == Some(v@),
            None => spec_pointer(root@, pointer@) == None::<JsonView>,
        },
{
    let p = chars_of(pointer);
    if p.len() == 0 {
        return Some(root);
    }
    if p[0] != '/' {
        return None;
    }
    let pieces = split_chars(&p, '/');
    let ghost tokens = split_on(pointer@, '/').drop_first().map_values(|t: Seq<char>| unescape_token(t));
    let mut current: &JsonValue = root;
    let mut k: usize = 1;
    while k < pieces.len()
        invariant
            pieces@.map_values(|q: Vec<char>| q@) == split_on(pointer@, '/'),
            1 <= k <= pieces@.len(),
            tokens == split_on(pointer@, '/').drop_first().map_values(|t: Seq<char>| unescape_token(t)),
            pointer_walk(root@, tokens) == pointer_walk(current@, tokens.skip(k - 1)),
        decreases pieces@.len() - k,
    {
        let step1 = replace_pair_chars(&pieces[k], '~', '1', '/');
        let token = replace_pair_chars(&step1, '~', '0', '~');
        let ghost rest = tokens.skip(k - 1);
        assert(rest[0] == token@);
        assert(rest.drop_first() =~= tokens.skip(k as int));
        let next: Option<&JsonValue> = match current {
            JsonValue::Object(members) => {
                let key = string_from_chars(token.as_slice());
                match find_member(members, key.as_str()) {
                    Some(i) => {
                        proof {
                            lemma_object_view(members@);
                        }
                        Some(&members[i].1)
                    },
                    None => {
                        proof {
                            lemma_object_view(members@);
                        }
                        None
                    },
                }
            },
            JsonValue::Array(values) => {
                proof {
                    lemma_array_view(values@);
                }
                match parse_index(&token) {
                    Some(i) => if i < values.len() {
                        Some(&values[i])
                    } else {
                        None
                    },
                    None => None,
                }
            },
            _ => None,
        };
        match next {
            Some(c) => {
                assert(pointer_step(current@, token@) == Some(c@));
                current = c;
            },
            None => {
                assert(pointer_step(current@, token@) == None::<JsonView>);
                return None;
            },
        }
        k = k + 1;
    }
    assert(tokens.skip(k - 1).len() == 0);
    Some(current)
}

/// What `serde_json::to_string` writes for a string: its JSON string
/// literal, quoted and escaped.
pub uninterp spec fn json_string_text(s: Seq<char>) -> Seq<char>;

/// Writes a string as a JSON string literal with `serde_json::to_string`.
/// Serializing a `str` into memory does not fail (the writer is a `Vec`);
/// the empty default of the error arm is never reached.
#[verifier::external_body]
fn json_string_literal(s: &str) -> (r: String)
    ensures
        r@ == json_string_text(s@),
{
    serde_json::to_string(s).unwrap_or_default()
}

/// Appends the characters of `s`.
fn push_chars(out: &mut Vec<char>, s: &str)
    ensures
        final(out)@ == old(out)@ + s@,
{
    let chars = chars_of(s);
    let ghost start = out@;
    for i in 0..chars.len()
        invariant
            chars@ == s@,
            out@ == start + s@.take(i as int),
    {
        out.push(chars[i]);
        assert(out@ =~= start + s@.take(i + 1));
    }
    assert(s@.take(s@.len() as int) =~= s@);
}

/// Compact JSON text of a value, as `serde_json` writes it.
pub open spec fn json_text(v: JsonView) -> Seq<char>
    decreases v, 0nat,
{
    match v {
        JsonView::Null => "null"@,
        JsonView::Bool(b) => if b {
            "true"@
        } else {
            "false"@
        },
        JsonView::Number(n) => n,
        JsonView::Str(s) => json_string_text(s),
        JsonView::Array(vs) => seq!['['] + json_list_text(vs, vs.len()) + seq![']'],
        JsonView::Object(ms) => seq!['{'] + json_members_text(ms, ms.len()) + seq!['}'],
    }
}

/// The first `n` elements, written and separated by commas.
pub open spec fn json_list_text(vs: Seq<JsonView>, n: nat) -> Seq<char>
    decreases vs, n,
{
    if n == 0 || n > vs.len() {
        Seq::empty()
    } else if n == 1 {
        json_text(vs[0])
    } else {
        json_list_text(vs, (n - 1) as nat) + seq![','] + json_text(vs[n - 1])
    }
}

/// The first `n` members as `"name":value`, separated by commas.
pub open spec fn json_members_text(ms: Seq<(Seq<char>, JsonView)>, n: nat) -> Seq<char>
    decreases ms, n,
{
    if n == 0 || n > ms.len() {
        Seq::empty()
    } else if n == 1 {
        json_string_text(ms[0].0) + seq![':'] + json_text(ms[0].1)
    } else {
        json_members_text(ms, (n - 1) as nat) + seq![','] + json_string_text(ms[n - 1].0) + seq![':']
            + json_text(ms[n - 1].1)
    }
}

/// Appends the JSON string literal for `s`.
fn push_json_string(out: &mut Vec<char>, s: &String)
    ensures
        final(out)@ == old(out)@ + json_string_text(s@),
{
    let literal = json_string_literal(s.as_str());
    push_chars(out, literal.as_str());
}

/// Appends the compact JSON text of `v`.
pub fn push_json_text(out: &mut Vec<char>, v: &JsonValue)
    ensures
        final(out)@ == old(out)@ + json_text(v@),
    decreases v,
{
    let ghost start = out@;
    match v {
        JsonValue::Null => {
            out.push('n');
            out.push('u');
            out.push('l');
            out.push('l');
            proof {
                reveal_strlit("null");
                assert(out@ =~= start + "null"@);
            }
        },
        JsonValue::Bool(b) => {
            if *b {
                out.push('t');
                out.push('r');
                out.push('u');
                out.push('e');
                proof {
                    reveal_strlit("true");
                    assert(out@ =~= start + "true"@);
                }
            } else {
                out.push('f');
                out.push('a');
                out.push('l');
                out.push('s');
                out.push('e');
                proof {
                    reveal_strlit("false");
                    assert(out@ =~= start + "false"@);
                }
            }
        },
        JsonValue::Number(n) => {
            push_chars(out, n.as_str());
        },
        JsonValue::String(t) => {
            push_json_string(out, t);
        },
        JsonValue::Array(xs) => {
            proof {
                lemma_array_view(xs@);
            }
            let ghost vs = list_view(xs@, xs@.len());
            out.push('[');
            for i in 0..xs.len()
                invariant
                    *v == JsonValue::Array(*xs),
                    vs == list_view(xs@, xs@.len()),
                    vs.len() == xs@.len(),
                    forall|k: int| 0 <= k < xs@.len() ==> #[trigger] vs[k] == json_view(xs@[k]),
                    out@ == start + seq!['['] + json_list_text(vs, i as nat),
            {
                proof {
                    assert(decreases_to!(*v => (*v)->Array_0));
                    assert((*v)->Array_0 == *xs);
                    assert(decreases_to!(*xs => xs@));
                    assert(decreases_to!(xs@ => xs@[i as int]));
                }
                let ghost before = out@;
                if i > 0 {
                    out.push(',');
                }
                push_json_text(out, &xs[i]);
                proof {
                    assert(vs[i as int] == xs@[i as int]@);
                    if i == 0 {
                        assert(out@ =~= start + seq!['['] + json_list_text(vs, 1));
                    } else {
                        assert(out@ =~= start + seq!['['] + json_list_text(vs, (i + 1) as nat));
                    }
                }
            }
            out.push(']');
            assert(out@ =~= start + json_text(v@));
        },
        JsonValue::Object(ms) => {
            proof {
                lemma_object_view(ms@);
            }
            let ghost mv = members_view(ms@, ms@.len());
            out.push('{');
            for i in 0..ms.len()
                invariant
                    *v == JsonValue::Object(*ms),
                    mv == members_view(ms@, ms@.len()),
                    mv.len() == ms@.len(),
                    forall|k: int| 0 <= k < ms@.len() ==> #[trigger] mv[k] == (ms@[k].0@, json_view(ms@[k].1)),
                    out@ == start + seq!['{'] + json_members_text(mv, i as nat),
            {
                proof {
                    assert(decreases_to!(*v => (*v)->Object_0));
                    assert((*v)->Object_0 == *ms);
                    assert(decreases_to!(*ms => ms@));
                    assert(decreases_to!(ms@ => ms@[i as int]));
                    assert(decreases_to!(ms@[i as int] => ms@[i as int].1));
                }
                let ghost before = out@;
                if i > 0 {
                    out.push(',');
                }
                push_json_string(out, &ms[i].0);
                out.push(':');
                push_json_text(out, &ms[i].1);
                proof {
                    assert(mv[i as int] == (ms@[i as int].0@, ms@[i as int].1@));
                    if i == 0 {
                        assert(out@ =~= start + seq!['{'] + json_members_text(mv, 1));
                    } else {
                        assert(out@ =~= start + seq!['{'] + json_members_text(mv, (i + 1) as nat));
                    }
                }
            }
            out.push('}');
            assert(out@ =~= start + json_text(v@));
        },
    }
}
/// How a field value is shown as a label: a dash when missing or null, a
/// text as it is, anything else as compact JSON.
pub open spec fn spec_display_value(v: Option<JsonView>) -> Seq<char> {
    match v {
        None => "—"@,
        Some(JsonView::Null) => "—"@,
        Some(JsonView::Str(t)) => t,
        Some(other) => json_text(other),
    }
}

/// The label shown for a field value.
pub fn display_value(v: Option<&JsonValue>) -> (r: String)
    ensures
        r@ == spec_display_value(match v {
            Some(x) => Some(x@),
            None => None,
        }),
{
    match v {
        None => crate::text::owned("—"),
        Some(JsonValue::Null) => crate::text::owned("—"),
        Some(JsonValue::String(t)) => crate::text::owned(t.as_str()),
        Some(other) => {
            let mut out: Vec<char> = Vec::new();
            push_json_text(&mut out, other);
            assert(out@ =~= json_text(other@));
            string_from_chars(out.as_slice())
        },
    }
}

/// Every character of the decimal notation is a digit, the first one not
/// `0` unless the number is 0.
proof fn lemma_decimal_digits(n: nat)
    ensures
        forall|i: int| 0 <= i < decimal(n).len() ==> '0' <= #[trigger] decimal(n)[i] && decimal(n)[i] <= '9',
        decimal(n).len() >= 1,
        n > 0 ==> decimal(n)[0] != '0',
        n == 0 ==> decimal(n).len() == 1,
    decreases n,
{
    if n >= 10 {
        lemma_decimal_digits(n / 10);
        assert(decimal(n) == decimal(n / 10).push(crate::text::digit_char(n % 10)));
        assert(decimal(n)[0] == decimal(n / 10)[0]);
    }
}

/// Replacing a pair that starts with `a` leaves a text without `a` as it is.
proof fn lemma_replace_absent(s: Seq<char>, a: char, b: char, to: char)
    requires
        !s.contains(a),
    ensures
        replace_pair(s, a, b, to) == s,
    decreases s.len(),
{
    if s.len() > 0 {
        assert(s[0] != a);
        assert(!s.skip(1).contains(a)) by {
            if s.skip(1).contains(a) {
                let i = choose|i: int| 0 <= i < s.skip(1).len() && s.skip(1)[i] == a;
                assert(s[i + 1] == a);
            }
        }
        lemma_replace_absent(s.skip(1), a, b, to);
        assert(seq![s[0]] + s.skip(1) =~= s);
    }
}

/// The escaped key read from the left: the first character escaped, then
/// the rest.
proof fn lemma_escape_key_front(k: Seq<char>)
    requires
        k.len() > 0,
    ensures
        escape_key(k) == escape_char(k[0]) + escape_key(k.skip(1)),
    decreases k.len(),
{
    if k.len() == 1 {
        assert(k.drop_last() =~= Seq::<char>::empty());
        assert(k.skip(1) =~= Seq::<char>::empty());
        assert(escape_key(k.drop_last()) =~= Seq::<char>::empty());
        assert(escape_key(k.skip(1)) =~= Seq::<char>::empty());
        assert(k.last() == k[0]);
        assert(escape_key(k) =~= escape_char(k[0]) + escape_key(k.skip(1)));
    } else {
        lemma_escape_key_front(k.drop_last());
        assert(k.drop_last().skip(1) =~= k.skip(1).drop_last());
        assert(k.skip(1).last() == k.last());
        assert(escape_key(k.skip(1)) == escape_key(k.skip(1).drop_last()) + escape_char(k.skip(1).last()));
        assert(escape_key(k) =~= escape_char(k[0]) + escape_key(k.skip(1)));
    }
}

/// An escaped key holds no `/`.
proof fn lemma_escape_key_no_slash(k: Seq<char>)
    ensures
        !escape_key(k).contains('/'),
    decreases k.len(),
{
    if k.len() > 0 {
        lemma_escape_key_no_slash(k.drop_last());
        let e = escape_key(k);
        assert(e == escape_key(k.drop_last()) + escape_char(k.last()));
        if e.contains('/') {
            let i = choose|i: int| 0 <= i < e.len() && e[i] == '/';
            let m = escape_key(k.drop_last()).len();
            if i < m {
                assert(escape_key(k.drop_last())[i] == '/');
            } else {
                assert(escape_char(k.last())[i - m] == '/');
            }
        }
    }
}

/// Unescaping an escaped key gives the key back (RFC 6901).
pub proof fn lemma_unescape_escape(k: Seq<char>)
    ensures
        unescape_token(escape_key(k)) == k,
    decreases k.len(),
{
    if k.len() == 0 {
        assert(escape_key(k) =~= Seq::<char>::empty());
    } else {
        lemma_escape_key_front(k);
        lemma_unescape_escape(k.skip(1));
        let rest = escape_key(k.skip(1));
        let c = k[0];
        let r1 = replace_pair(rest, '~', '1', '/');
        if c == '~' {
            let e = seq!['~', '0'] + rest;
            assert(e.skip(1) =~= seq!['0'] + rest);
            assert((seq!['0'] + rest).skip(1) =~= rest);
            assert(replace_pair(seq!['0'] + rest, '~', '1', '/') == seq!['0'] + r1);
            assert(replace_pair(e, '~', '1', '/') =~= seq!['~', '0'] + r1);
            let f = seq!['~', '0'] + r1;
            assert(f.skip(2) =~= r1);
            assert(replace_pair(f, '~', '0', '~') == seq!['~'] + replace_pair(r1, '~', '0', '~'));
            assert(seq!['~'] + k.skip(1) =~= k);
        } else if c == '/' {
            let e = seq!['~', '1'] + rest;
            assert(e.skip(2) =~= rest);
            assert(replace_pair(e, '~', '1', '/') == seq!['/'] + r1);
            let f = seq!['/'] + r1;
            assert(f.skip(1) =~= r1);
            assert(replace_pair(f, '~', '0', '~') == seq!['/'] + replace_pair(r1, '~', '0', '~'));
            assert(seq!['/'] + k.skip(1) =~= k);
        } else {
            let e = seq![c] + rest;
            assert(e.skip(1) =~= rest);
            assert(replace_pair(e, '~', '1', '/') == seq![c] + r1);
            let f = seq![c] + r1;
            assert(f.skip(1) =~= r1);
            assert(replace_pair(f, '~', '0', '~') == seq![c] + replace_pair(r1, '~', '0', '~'));
            assert(seq![c] + k.skip(1) =~= k);
        }
    }
}

/// Splitting reads only the characters it has scanned.
proof fn lemma_split_scan_prefix(a: Seq<char>, b: Seq<char>, sep: char, n: nat)
    requires
        n <= a.len(),
        n <= b.len(),
        a.take(n as int) == b.take(n as int),
    ensures
        split_scan(a, sep, n) == split_scan(b, sep, n),
    decreases n,
{
    if n > 0 {
        assert(a.take(n - 1) =~= a.take(n as int).take(n - 1));
        assert(b.take(n - 1) =~= b.take(n as int).take(n - 1));
        assert(a[n - 1] == a.take(n as int)[n - 1]);
        assert(b[n - 1] == b.take(n as int)[n - 1]);
        lemma_split_scan_prefix(a, b, sep, (n - 1) as nat);
    }
}

/// Scanning into a piece without separators only extends the current piece.
proof fn lemma_split_scan_tail(x: Seq<char>, t: Seq<char>, sep: char, j: nat)
    requires
        j <= t.len(),
        !t.contains(sep),
        split_scan(x, sep, x.len()).1.len() == 0,
    ensures
        split_scan(x + t, sep, x.len() + j) == (split_scan(x, sep, x.len()).0, t.take(j as int)),
    decreases j,
{
    let y = x + t;
    if j == 0 {
        assert(y.take(x.len() as int) =~= x.take(x.len() as int));
        lemma_split_scan_prefix(y, x, sep, x.len());
        assert(t.take(0) =~= Seq::<char>::empty());
    } else {
        lemma_split_scan_tail(x, t, sep, (j - 1) as nat);
        assert(y[x.len() + j - 1] == t[j - 1]);
        assert(t[j - 1] != sep);
        assert(t.take(j - 1).push(t[j - 1]) =~= t.take(j as int));
    }
}

/// A pointer extended by `/` and a token without `/` splits into one more
/// piece.
proof fn lemma_split_extend(p: Seq<char>, t: Seq<char>)
    requires
        !t.contains('/'),
    ensures
        split_on(p + seq!['/'] + t, '/') == split_on(p, '/').push(t),
{
    let x = p + seq!['/'];
    let m = p.len();
    assert(x.take(m as int) =~= p.take(m as int));
    lemma_split_scan_prefix(x, p, '/', m);
    assert(x[m as int] == '/');
    let (done_p, cur_p) = split_scan(p, '/', m);
    assert(split_scan(x, '/', x.len()) == (done_p.push(cur_p), Seq::<char>::empty()));
    lemma_split_scan_tail(x, t, '/', t.len());
    assert(t.take(t.len() as int) =~= t);
    assert(p + seq!['/'] + t =~= x + t);
}

/// Following one more token is one more step from where the others lead.
proof fn lemma_walk_push(v: JsonView, ts: Seq<Seq<char>>, t: Seq<char>)
    ensures
        pointer_walk(v, ts.push(t)) == match pointer_walk(v, ts) {
            Some(c) => pointer_step(c, t),
            None => None,
        },
    decreases ts.len(),
{
    if ts.len() == 0 {
        assert(ts.push(t).drop_first() =~= Seq::<Seq<char>>::empty());
        match pointer_step(v, t) {
            Some(c) => {
                assert(pointer_walk(c, Seq::<Seq<char>>::empty()) == Some(c));
            },
            None => {},
        }
    } else {
        assert(ts.push(t)[0] == ts[0]);
        assert(ts.push(t).drop_first() =~= ts.drop_first().push(t));
        match pointer_step(v, ts[0]) {
            Some(c) => {
                lemma_walk_push(c, ts.drop_first(), t);
            },
            None => {},
        }
    }
}

/// A pointer text: empty, or starting with `/`.
pub open spec fn is_pointer_text(p: Seq<char>) -> bool {
    p.len() == 0 || p[0] == '/'
}

/// The value under a pointer, one token further: where the pointer leads,
/// one step along the unescaped token.
proof fn lemma_pointer_child(root: JsonView, p: Seq<char>, t: Seq<char>, v: JsonView, c: JsonView)
    requires
        is_pointer_text(p),
        !t.contains('/'),
        spec_pointer(root, p) == Some(v),
        pointer_step(v, unescape_token(t)) == Some(c),
    ensures
        is_pointer_text(p + seq!['/'] + t),
        spec_pointer(root, p + seq!['/'] + t) == Some(c),
{
    let q = p + seq!['/'] + t;
    if p.len() == 0 {
        assert(q[0] == '/');
    } else {
        assert(q[0] == p[0]);
    }
    lemma_split_extend(p, t);
    let sp = split_on(p, '/');
    assert(sp.len() >= 1);
    assert(sp.push(t).drop_first() =~= sp.drop_first().push(t));
    let f = |x: Seq<char>| unescape_token(x);
    assert(sp.drop_first().push(t).map_values(f) =~= sp.drop_first().map_values(f).push(unescape_token(t)));
    lemma_walk_push(root, sp.drop_first().map_values(f), unescape_token(t));
    if p.len() == 0 {
        assert(split_scan(p, '/', 0) == (Seq::<Seq<char>>::empty(), Seq::<char>::empty()));
        assert(sp.drop_first().map_values(f) =~= Seq::<Seq<char>>::empty());
        assert(pointer_walk(root, Seq::<Seq<char>>::empty()) == Some(root));
    }
}

/// A document as a parser gives it: each object's keys different, each
/// array no longer than `usize` counts, all the way down.
pub open spec fn well_shaped(v: JsonView) -> bool
    decreases v, 1nat,
{
    match v {
        JsonView::Array(vs) => vs.len() <= usize::MAX && list_shaped(vs, vs.len()),
        JsonView::Object(ms) => distinct_keys(ms) && members_shaped(ms, ms.len()),
        _ => true,
    }
}

/// The first `n` elements are well shaped.
pub open spec fn list_shaped(vs: Seq<JsonView>, n: nat) -> bool
    decreases vs, n,
{
    if n == 0 || n > vs.len() {
        true
    } else {
        list_shaped(vs, (n - 1) as nat) && well_shaped(vs[n - 1])
    }
}

/// The values of the first `n` members are well shaped.
pub open spec fn members_shaped(ms: Seq<(Seq<char>, JsonView)>, n: nat) -> bool
    decreases ms, n,
{
    if n == 0 || n > ms.len() {
        true
    } else {
        members_shaped(ms, (n - 1) as nat) && well_shaped(ms[n - 1].1)
    }
}

/// No two members share a key.
pub open spec fn distinct_keys(ms: Seq<(Seq<char>, JsonView)>) -> bool {
    forall|i: int, j: int| 0 <= i < j < ms.len() ==> #[trigger] ms[i].0 != #[trigger] ms[j].0
}

/// The pointer of a listed node picks out a non-empty array of objects of
/// the listed length.
pub open spec fn node_resolves(root: JsonView, node: (Seq<char>, nat)) -> bool {
    match spec_pointer(root, node.0) {
        Some(JsonView::Array(vs)) => vs.len() == node.1 && vs.len() > 0 && forall|i: int| 0 <= i < vs.len() ==> #[trigger] is_object(vs[i]),
        _ => false,
    }
}

/// In an object with different keys, a key finds its own member.
proof fn lemma_lookup_unique(ms: Seq<(Seq<char>, JsonView)>, j: int)
    requires
        0 <= j < ms.len(),
        forall|a: int, b: int| 0 <= a < b < ms.len() ==> #[trigger] ms[a].0 != #[trigger] ms[b].0,
    ensures
        lookup(ms, ms[j].0) == Some(ms[j].1),
    decreases ms.len(),
{
    if j > 0 {
        assert(ms[0].0 != ms[j].0);
        let rest = ms.drop_first();
        assert(rest[j - 1] == ms[j]);
        assert forall|a: int, b: int| 0 <= a < b < rest.len() implies #[trigger] rest[a].0 != #[trigger] rest[b].0 by {
            assert(rest[a] == ms[a + 1] && rest[b] == ms[b + 1]);
        }
        lemma_lookup_unique(rest, j - 1);
    }
}

proof fn lemma_nodes_resolve(root: JsonView, v: JsonView, p: Seq<char>, k: int)
    requires
        well_shaped(v),
        is_pointer_text(p),
        spec_pointer(root, p) == Some(v),
        0 <= k < spec_nodes(v, p).len(),
    ensures
        node_resolves(root, spec_nodes(v, p)[k]),
    decreases v, 1nat,
{
    match v {
        JsonView::Array(vs) => {
            let own = if vs.len() > 0 && forall|i: int| 0 <= i < vs.len() ==> #[trigger] is_object(vs[i]) {
                seq![(p, vs.len())]
            } else {
                Seq::empty()
            };
            assert(spec_nodes(v, p) == own + spec_nodes_list(vs, p, vs.len()));
            if k < own.len() {
                assert(spec_nodes(v, p)[k] == (p, vs.len()));
            } else {
                lemma_list_nodes_resolve(root, vs, p, vs.len(), k - own.len());
            }
        },
        JsonView::Object(ms) => {
            lemma_members_nodes_resolve(root, ms, p, ms.len(), k);
        },
        _ => {},
    }
}

proof fn lemma_list_nodes_resolve(root: JsonView, vs: Seq<JsonView>, p: Seq<char>, n: nat, k: int)
    requires
        vs.len() <= usize::MAX,
        list_shaped(vs, n),
        is_pointer_text(p),
        spec_pointer(root, p) == Some(JsonView::Array(vs)),
        n <= vs.len(),
        0 <= k < spec_nodes_list(vs, p, n).len(),
    ensures
        node_resolves(root, spec_nodes_list(vs, p, n)[k]),
    decreases vs, n,
{
    if n > 0 {
        let left = spec_nodes_list(vs, p, (n - 1) as nat);
        let t = decimal((n - 1) as nat);
        let q = p + seq!['/'] + t;
        assert(spec_nodes_list(vs, p, n) == left + spec_nodes(vs[n - 1], q));
        if k < left.len() {
            lemma_list_nodes_resolve(root, vs, p, (n - 1) as nat, k);
        } else {
            lemma_decimal_digits((n - 1) as nat);
            crate::text::lemma_decimal_inverse((n - 1) as nat);
            assert(!t.contains('/')) by {
                if t.contains('/') {
                    let i = choose|i: int| 0 <= i < t.len() && t[i] == '/';
                    assert('0' <= t[i]);
                }
            }
            assert(!t.contains('~')) by {
                if t.contains('~') {
                    let i = choose|i: int| 0 <= i < t.len() && t[i] == '~';
                    assert(t[i] <= '9');
                }
            }
            lemma_replace_absent(t, '~', '1', '/');
            lemma_replace_absent(t, '~', '0', '~');
            assert(unescape_token(t) == t);
            assert(spec_parse_index(t) == Some((n - 1) as nat));
            assert(pointer_step(JsonView::Array(vs), t) == Some(vs[n - 1]));
            lemma_pointer_child(root, p, t, JsonView::Array(vs), vs[n - 1]);
            assert(well_shaped(vs[n - 1]));
            lemma_nodes_resolve(root, vs[n - 1], q, k - left.len());
        }
    }
}

proof fn lemma_members_nodes_resolve(root: JsonView, ms: Seq<(Seq<char>, JsonView)>, p: Seq<char>, n: nat, k: int)
    requires
        distinct_keys(ms),
        members_shaped(ms, n),
        is_pointer_text(p),
        spec_pointer(root, p) == Some(JsonView::Object(ms)),
        n <= ms.len(),
        0 <= k < spec_nodes_members(ms, p, n).len(),
    ensures
        node_resolves(root, spec_nodes_members(ms, p, n)[k]),
    decreases ms, n,
{
    if n > 0 {
        let left = spec_nodes_members(ms, p, (n - 1) as nat);
        let t = escape_key(ms[n - 1].0);
        let q = p + seq!['/'] + t;
        assert(spec_nodes_members(ms, p, n) == left + spec_nodes(ms[n - 1].1, q));
        if k < left.len() {
            lemma_members_nodes_resolve(root, ms, p, (n - 1) as nat, k);
        } else {
            lemma_escape_key_no_slash(ms[n - 1].0);
            lemma_unescape_escape(ms[n - 1].0);
            lemma_lookup_unique(ms, n - 1);
            assert(pointer_step(JsonView::Object(ms), unescape_token(t)) == Some(ms[n - 1].1));
            lemma_pointer_child(root, p, t, JsonView::Object(ms), ms[n - 1].1);
            assert(well_shaped(ms[n - 1].1));
            lemma_nodes_resolve(root, ms[n - 1].1, q, k - left.len());
        }
    }
}

/// Every array of objects listed in a parsed document can be selected by
/// its pointer: the pointer picks out exactly that array, non-empty and of
/// objects only, with the listed length.
pub proof fn lemma_listed_nodes_resolve(root: JsonView, k: int)
    requires
        well_shaped(root),
        0 <= k < spec_nodes(root, Seq::empty()).len(),
    ensures
        node_resolves(root, spec_nodes(root, Seq::empty())[k]),
{
    lemma_nodes_resolve(root, root, Seq::empty(), k);
}


/// `q` is `p` or a pointer below it.
pub open spec fn under(q: Seq<char>, p: Seq<char>) -> bool {
    &&& q.len() >= p.len()
    &&& q.take(p.len() as int) == p
    &&& (q.len() == p.len() || q[p.len() as int] == '/')
}

/// The pointers of listed nodes, in order.
pub open spec fn node_pointers(nodes: Seq<(Seq<char>, nat)>) -> Seq<Seq<char>> {
    nodes.map_values(|n: (Seq<char>, nat)| n.0)
}

/// `q` lies strictly below `p`, within element `i` for some `i < n`: below
/// no other segment of `p`.
pub open spec fn placed_in_list(q: Seq<char>, p: Seq<char>, n: nat) -> bool {
    &&& under(q, p)
    &&& q.len() > p.len()
    &&& forall|s: Seq<char>|
        !s.contains('/') && (forall|i: int| 0 <= i < n ==> s != #[trigger] decimal(i as nat)) ==> !#[trigger] under(
            q,
            p + seq!['/'] + s,
        )
}

/// `q` lies strictly below `p`, within the member of some key among the
/// first `n`: below no other segment of `p`.
pub open spec fn placed_in_members(q: Seq<char>, p: Seq<char>, ms: Seq<(Seq<char>, JsonView)>, n: nat) -> bool {
    &&& under(q, p)
    &&& q.len() > p.len()
    &&& forall|s: Seq<char>|
        !s.contains('/') && (forall|i: int| 0 <= i < n && i < ms.len() ==> s != #[trigger] escape_key(ms[i].0))
            ==> !#[trigger] under(q, p + seq!['/'] + s)
}

/// A pointer below `p + "/" + s` is below `p`, and longer.
proof fn lemma_under_parent(q: Seq<char>, p: Seq<char>, s: Seq<char>)
    requires
        under(q, p + seq!['/'] + s),
    ensures
        under(q, p),
        q.len() > p.len(),
{
    let c = p + seq!['/'] + s;
    assert(q.take(c.len() as int).take(p.len() as int) =~= q.take(p.len() as int));
    assert(c.take(p.len() as int) =~= p);
    assert(q[p.len() as int] == q.take(c.len() as int)[p.len() as int]);
}

/// No pointer lies below two different segments of the same parent.
proof fn lemma_segments_apart(q: Seq<char>, a: Seq<char>, s1: Seq<char>, s2: Seq<char>)
    requires
        !s1.contains('/'),
        !s2.contains('/'),
        s1 != s2,
        under(q, a + seq!['/'] + s1),
    ensures
        !under(q, a + seq!['/'] + s2),
{
    let p1 = a + seq!['/'] + s1;
    let p2 = a + seq!['/'] + s2;
    let m = a.len() + 1;
    if under(q, p2) {
        assert forall|t: int| 0 <= t < s1.len() implies q[m + t] == s1[t] by {
            assert(q.take(p1.len() as int)[m + t] == p1[m + t]);
        }
        assert forall|t: int| 0 <= t < s2.len() implies q[m + t] == s2[t] by {
            assert(q.take(p2.len() as int)[m + t] == p2[m + t]);
        }
        if s1.len() == s2.len() {
            assert(s1 =~= s2);
        } else if s1.len() < s2.len() {
            assert(q[(m + s1.len()) as int] == s2[s1.len() as int]);
            assert(s2.contains(s2[s1.len() as int]));
        } else {
            assert(q[(m + s2.len()) as int] == s1[s2.len() as int]);
            assert(s1.contains(s1[s2.len() as int]));
        }
    }
}

/// Decimal notation holds no `/`.
proof fn lemma_decimal_no_slash(n: nat)
    ensures
        !decimal(n).contains('/'),
    decreases n,
{
    if n >= 10 {
        lemma_decimal_no_slash(n / 10);
        let d = decimal(n);
        assert(d == decimal(n / 10).push(crate::text::digit_char(n % 10)));
        if d.contains('/') {
            let i = choose|i: int| 0 <= i < d.len() && d[i] == '/';
            if i < d.len() - 1 {
                assert(decimal(n / 10)[i] == '/');
                assert(decimal(n / 10).contains('/'));
            }
        }
    } else {
        assert(decimal(n) == seq![crate::text::digit_char(n)]);
    }
}

/// Every node listed inside a value at `p` lies at or below `p`.
proof fn lemma_nodes_under(v: JsonView, p: Seq<char>)
    ensures
        forall|k: int| 0 <= k < spec_nodes(v, p).len() ==> under(#[trigger] spec_nodes(v, p)[k].0, p),
    decreases v, 0nat,
{
    match v {
        JsonView::Array(vs) => {
            lemma_list_under(vs, p, vs.len());
            let own = if vs.len() > 0 && forall|i: int| 0 <= i < vs.len() ==> #[trigger] is_object(vs[i]) {
                seq![(p, vs.len())]
            } else {
                Seq::empty()
            };
            let rest = spec_nodes_list(vs, p, vs.len());
            assert(spec_nodes(v, p) == own + rest);
            assert forall|k: int| 0 <= k < spec_nodes(v, p).len() implies under(#[trigger] spec_nodes(v, p)[k].0, p) by {
                if k < own.len() {
                    assert(p.take(p.len() as int) =~= p);
                } else {
                    assert(spec_nodes(v, p)[k] == rest[k - own.len()]);
                    assert(placed_in_list(rest[k - own.len()].0, p, vs.len()));
                }
            }
        },
        JsonView::Object(ms) => {
            lemma_members_under(ms, p, ms.len());
            assert forall|k: int| 0 <= k < spec_nodes(v, p).len() implies under(#[trigger] spec_nodes(v, p)[k].0, p) by {
                assert(spec_nodes(v, p)[k] == spec_nodes_members(ms, p, ms.len())[k]);
                assert(placed_in_members(spec_nodes(v, p)[k].0, p, ms, ms.len()));
            }
        },
        _ => {},
    }
}

/// Every node listed inside the first `n` elements lies strictly below `p`,
/// within the segment of its element.
proof fn lemma_list_under(vs: Seq<JsonView>, p: Seq<char>, n: nat)
    ensures
        forall|k: int|
            0 <= k < spec_nodes_list(vs, p, n).len() ==> #[trigger] placed_in_list(spec_nodes_list(vs, p, n)[k].0, p, n),
    decreases vs, n,
{
    if n > 0 && n <= vs.len() {
        lemma_list_under(vs, p, (n - 1) as nat);
        let d = decimal((n - 1) as nat);
        let c = p + seq!['/'] + d;
        lemma_nodes_under(vs[n - 1], c);
        lemma_decimal_no_slash((n - 1) as nat);
        let before = spec_nodes_list(vs, p, (n - 1) as nat);
        let child = spec_nodes(vs[n - 1], c);
        assert forall|k: int| 0 <= k < spec_nodes_list(vs, p, n).len() implies #[trigger] placed_in_list(
            spec_nodes_list(vs, p, n)[k].0,
            p,
            n,
        ) by {
            let q = spec_nodes_list(vs, p, n)[k].0;
            if k < before.len() {
                assert(spec_nodes_list(vs, p, n)[k] == before[k]);
                assert(placed_in_list(before[k].0, p, (n - 1) as nat));
                assert forall|s: Seq<char>|
                    !s.contains('/') && (forall|i: int| 0 <= i < n ==> s != #[trigger] decimal(i as nat)) implies !#[trigger] under(
                    q,
                    p + seq!['/'] + s,
                ) by {
                    assert(forall|i: int| 0 <= i < n - 1 ==> s != #[trigger] decimal(i as nat));
                }
            } else {
                assert(spec_nodes_list(vs, p, n)[k] == child[k - before.len()]);
                assert(under(q, c));
                lemma_under_parent(q, p, d);
                assert forall|s: Seq<char>|
                    !s.contains('/') && (forall|i: int| 0 <= i < n ==> s != #[trigger] decimal(i as nat)) implies !#[trigger] under(
                    q,
                    p + seq!['/'] + s,
                ) by {
                    assert(s != decimal((n - 1) as nat));
                    lemma_segments_apart(q, p, d, s);
                }
            }
        }
    } else {
        assert(spec_nodes_list(vs, p, n) =~= Seq::<(Seq<char>, nat)>::empty());
    }
}

/// Every node listed inside the first `n` members lies strictly below `p`,
/// within the segment of its member's key.
proof fn lemma_members_under(ms: Seq<(Seq<char>, JsonView)>, p: Seq<char>, n: nat)
    ensures
        forall|k: int|
            0 <= k < spec_nodes_members(ms, p, n).len() ==> #[trigger] placed_in_members(
                spec_nodes_members(ms, p, n)[k].0,
                p,
                ms,
                n,
            ),
    decreases ms, n,
{
    if n > 0 && n <= ms.len() {
        lemma_members_under(ms, p, (n - 1) as nat);
        let d = escape_key(ms[n - 1].0);
        let c = p + seq!['/'] + d;
        lemma_nodes_under(ms[n - 1].1, c);
        lemma_escape_key_no_slash(ms[n - 1].0);
        let before = spec_nodes_members(ms, p, (n - 1) as nat);
        let child = spec_nodes(ms[n - 1].1, c);
        assert forall|k: int| 0 <= k < spec_nodes_members(ms, p, n).len() implies #[trigger] placed_in_members(
            spec_nodes_members(ms, p, n)[k].0,
            p,
            ms,
            n,
        ) by {
            let q = spec_nodes_members(ms, p, n)[k].0;
            if k < before.len() {
                assert(spec_nodes_members(ms, p, n)[k] == before[k]);
                assert(placed_in_members(before[k].0, p, ms, (n - 1) as nat));
                assert forall|s: Seq<char>|
                    !s.contains('/') && (forall|i: int| 0 <= i < n && i < ms.len() ==> s != #[trigger] escape_key(ms[i].0))
                    implies !#[trigger] under(q, p + seq!['/'] + s) by {
                    assert(forall|i: int| 0 <= i < n - 1 && i < ms.len() ==> s != #[trigger] escape_key(ms[i].0));
                }
            } else {
                assert(spec_nodes_members(ms, p, n)[k] == child[k - before.len()]);
                assert(under(q, c));
                lemma_under_parent(q, p, d);
                assert forall|s: Seq<char>|
                    !s.contains('/') && (forall|i: int| 0 <= i < n && i < ms.len() ==> s != #[trigger] escape_key(ms[i].0))
                    implies !#[trigger] under(q, p + seq!['/'] + s) by {
                    assert(s != escape_key(ms[n - 1].0));
                    lemma_segments_apart(q, p, d, s);
                }
            }
        }
    } else {
        assert(spec_nodes_members(ms, p, n) =~= Seq::<(Seq<char>, nat)>::empty());
    }
}

/// Joining two lists without repeats and without a common element gives a
/// list without repeats.
proof fn lemma_concat_distinct(a: Seq<(Seq<char>, nat)>, b: Seq<(Seq<char>, nat)>)
    requires
        node_pointers(a).no_duplicates(),
        node_pointers(b).no_duplicates(),
        forall|i: int, j: int| 0 <= i < a.len() && 0 <= j < b.len() ==> #[trigger] a[i].0 != #[trigger] b[j].0,
    ensures
        node_pointers(a + b).no_duplicates(),
{
    let c = a + b;
    assert forall|i: int, j: int| 0 <= i < j < c.len() implies node_pointers(c)[i] != node_pointers(c)[j] by {
        if j < a.len() {
            assert(node_pointers(a)[i] != node_pointers(a)[j]);
        } else if i >= a.len() {
            assert(node_pointers(b)[i - a.len()] != node_pointers(b)[j - a.len()]);
        } else {
            assert(c[i] == a[i] && c[j] == b[j - a.len()]);
        }
    }
}

/// The nodes listed inside a well-shaped value have different pointers.
proof fn lemma_nodes_distinct(v: JsonView, p: Seq<char>)
    requires
        well_shaped(v),
    ensures
        node_pointers(spec_nodes(v, p)).no_duplicates(),
    decreases v, 0nat,
{
    match v {
        JsonView::Array(vs) => {
            lemma_list_distinct(vs, p, vs.len());
            lemma_list_under(vs, p, vs.len());
            let own = if vs.len() > 0 && forall|i: int| 0 <= i < vs.len() ==> #[trigger] is_object(vs[i]) {
                seq![(p, vs.len())]
            } else {
                Seq::empty()
            };
            let rest = spec_nodes_list(vs, p, vs.len());
            assert forall|i: int, j: int| 0 <= i < own.len() && 0 <= j < rest.len() implies #[trigger] own[i].0
                != #[trigger] rest[j].0 by {
                assert(rest[j] == spec_nodes_list(vs, p, vs.len())[j]);
                assert(placed_in_list(rest[j].0, p, vs.len()));
            }
            lemma_concat_distinct(own, rest);
        },
        JsonView::Object(ms) => {
            lemma_members_distinct(ms, p, ms.len());
        },
        _ => {},
    }
}

/// The nodes listed inside the first `n` well-shaped elements have
/// different pointers.
proof fn lemma_list_distinct(vs: Seq<JsonView>, p: Seq<char>, n: nat)
    requires
        list_shaped(vs, n),
    ensures
        node_pointers(spec_nodes_list(vs, p, n)).no_duplicates(),
    decreases vs, n,
{
    if n > 0 && n <= vs.len() {
        lemma_list_distinct(vs, p, (n - 1) as nat);
        lemma_list_under(vs, p, (n - 1) as nat);
        let c = p + seq!['/'] + decimal((n - 1) as nat);
        lemma_nodes_distinct(vs[n - 1], c);
        lemma_nodes_under(vs[n - 1], c);
        let before = spec_nodes_list(vs, p, (n - 1) as nat);
        let child = spec_nodes(vs[n - 1], c);
        assert forall|i: int, j: int| 0 <= i < before.len() && 0 <= j < child.len() implies #[trigger] before[i].0
            != #[trigger] child[j].0 by {
            let q = before[i].0;
            assert(before[i] == spec_nodes_list(vs, p, (n - 1) as nat)[i]);
            assert(placed_in_list(q, p, (n - 1) as nat));
            assert(child[j] == spec_nodes(vs[n - 1], c)[j]);
            assert(under(child[j].0, c));
            lemma_decimal_no_slash((n - 1) as nat);
            assert forall|t: int| 0 <= t < n - 1 implies decimal((n - 1) as nat) != #[trigger] decimal(t as nat) by {
                if decimal((n - 1) as nat) == decimal(t as nat) {
                    crate::text::lemma_decimal_injective(t as nat, (n - 1) as nat);
                }
            }
            if q == child[j].0 {
                assert(under(q, p + seq!['/'] + decimal((n - 1) as nat)));
            }
        }
        lemma_concat_distinct(before, child);
    }
}

/// The nodes listed inside the first `n` members of a well-shaped object
/// have different pointers.
proof fn lemma_members_distinct(ms: Seq<(Seq<char>, JsonView)>, p: Seq<char>, n: nat)
    requires
        distinct_keys(ms),
        members_shaped(ms, n),
    ensures
        node_pointers(spec_nodes_members(ms, p, n)).no_duplicates(),
    decreases ms, n,
{
    if n > 0 && n <= ms.len() {
        lemma_members_distinct(ms, p, (n - 1) as nat);
        lemma_members_under(ms, p, (n - 1) as nat);
        let c = p + seq!['/'] + escape_key(ms[n - 1].0);
        lemma_nodes_distinct(ms[n - 1].1, c);
        lemma_nodes_under(ms[n - 1].1, c);
        let before = spec_nodes_members(ms, p, (n - 1) as nat);
        let child = spec_nodes(ms[n - 1].1, c);
        assert forall|i: int, j: int| 0 <= i < before.len() && 0 <= j < child.len() implies #[trigger] before[i].0
            != #[trigger] child[j].0 by {
            let q = before[i].0;
            assert(before[i] == spec_nodes_members(ms, p, (n - 1) as nat)[i]);
            assert(placed_in_members(q, p, ms, (n - 1) as nat));
            assert(child[j] == spec_nodes(ms[n - 1].1, c)[j]);
            assert(under(child[j].0, c));
            lemma_escape_key_no_slash(ms[n - 1].0);
            assert forall|t: int| 0 <= t < n - 1 && t < ms.len() implies escape_key(ms[n - 1].0) != #[trigger] escape_key(
                ms[t].0,
            ) by {
                assert(ms[t].0 != ms[n - 1].0);
                if escape_key(ms[t].0) == escape_key(ms[n - 1].0) {
                    lemma_unescape_escape(ms[t].0);
                    lemma_unescape_escape(ms[n - 1].0);
                }
            }
            if q == child[j].0 {
                assert(under(q, p + seq!['/'] + escape_key(ms[n - 1].0)));
            }
        }
        lemma_concat_distinct(before, child);
    }
}

/// Each object array of a parsed document is listed once: no two listed
/// nodes share a pointer.
pub proof fn lemma_listed_nodes_distinct(root: JsonView)
    requires
        well_shaped(root),
    ensures
        node_pointers(spec_nodes(root, Seq::empty())).no_duplicates(),
{
    lemma_nodes_distinct(root, Seq::empty());
}

} // verus!
